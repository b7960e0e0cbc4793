//! Versions in the `MAJOR.MINOR.PATCH(-PRE)?(+BUILD)?` grammar used by the
//! Hex registry, with the total order the resolver relies on.

use vstd::prelude::*;

pub mod parser;
pub mod interval;
pub mod resolve;

pub use interval::exact;
pub use interval::Intervals;
pub use parser::Range;
pub use resolve::canonical_release_order;
pub use resolve::pick_version;
pub use resolve::release_dependencies;
pub use resolve::root_dependencies;
pub use resolve::DependencyDecision;
pub use resolve::FetchError;
pub use resolve::IncompatibleLockedVersion;
pub use resolve::PackageFetcher;

verus! {

/// One dot-separated pre-release identifier.
///
/// A purely numeric identifier (written without leading zeros) is `Numeric`;
/// any other identifier over `[0-9A-Za-z-]` is `AlphaNumeric`.
#[derive(Clone, PartialEq, Eq, Hash, Debug)]
pub enum Identifier {
    Numeric(u32),
    AlphaNumeric(String),
}

/// A version: three numeric components, an optional pre-release identifier
/// list, and optional build metadata.
///
/// Build metadata is kept for display but never takes part in ordering.
#[derive(Clone, PartialEq, Eq, Hash, Debug)]
pub struct Version {
    pub major: u32,
    pub minor: u32,
    pub patch: u32,
    pub pre: Vec<Identifier>,
    pub build: Option<String>,
}

/// The mathematical value of one pre-release identifier.
#[verifier::ext_equal]
pub enum IdView {
    Num(int),
    Alpha(Seq<char>),
}

/// The mathematical value of a version.
#[verifier::ext_equal]
pub struct VersionView {
    pub major: int,
    pub minor: int,
    pub patch: int,
    pub pre: Seq<IdView>,
    pub build: Option<Seq<char>>,
}

impl View for Identifier {
    type V = IdView;

    open spec fn view(&self) -> IdView {
        match self {
            Identifier::Numeric(n) => IdView::Num(*n as int),
            Identifier::AlphaNumeric(s) => IdView::Alpha(s@),
        }
    }
}

impl View for Version {
    type V = VersionView;

    open spec fn view(&self) -> VersionView {
        VersionView {
            major: self.major as int,
            minor: self.minor as int,
            patch: self.patch as int,
            pre: self.pre@.map_values(|id: Identifier| id@),
            build: match self.build {
                Option::None => Option::None,
                Option::Some(b) => Option::Some(b@),
            },
        }
    }
}

// ---------------------------------------------------------------------------
// The order, as specification functions.
// ---------------------------------------------------------------------------

pub open spec fn cmp_int(a: int, b: int) -> core::cmp::Ordering {
    if a < b {
        core::cmp::Ordering::Less
    } else if a == b {
        core::cmp::Ordering::Equal
    } else {
        core::cmp::Ordering::Greater
    }
}

/// Lexicographic order on character sequences by scalar value; for the ASCII
/// identifiers of the grammar this is ASCII byte order.
pub open spec fn cmp_chars(a: Seq<char>, b: Seq<char>) -> core::cmp::Ordering
    decreases a.len(),
{
    if a.len() == 0 && b.len() == 0 {
        core::cmp::Ordering::Equal
    } else if a.len() == 0 {
        core::cmp::Ordering::Less
    } else if b.len() == 0 {
        core::cmp::Ordering::Greater
    } else if a[0] as u32 != b[0] as u32 {
        cmp_int((a[0] as u32) as int, (b[0] as u32) as int)
    } else {
        cmp_chars(a.skip(1), b.skip(1))
    }
}

/// Identifier order: numeric identifiers come before alphanumeric ones;
/// numeric compare as numbers, alphanumeric in ASCII byte order.
pub open spec fn cmp_id(a: IdView, b: IdView) -> core::cmp::Ordering {
    match (a, b) {
        (IdView::Num(x), IdView::Num(y)) => cmp_int(x, y),
        (IdView::Num(_), IdView::Alpha(_)) => core::cmp::Ordering::Less,
        (IdView::Alpha(_), IdView::Num(_)) => core::cmp::Ordering::Greater,
        (IdView::Alpha(x), IdView::Alpha(y)) => cmp_chars(x, y),
    }
}

/// Element-wise order on identifier lists; a list that is a strict prefix of
/// another is smaller.
pub open spec fn cmp_ids(a: Seq<IdView>, b: Seq<IdView>) -> core::cmp::Ordering
    decreases a.len(),
{
    if a.len() == 0 && b.len() == 0 {
        core::cmp::Ordering::Equal
    } else if a.len() == 0 {
        core::cmp::Ordering::Less
    } else if b.len() == 0 {
        core::cmp::Ordering::Greater
    } else if cmp_id(a[0], b[0]) == core::cmp::Ordering::Equal {
        cmp_ids(a.skip(1), b.skip(1))
    } else {
        cmp_id(a[0], b[0])
    }
}

/// Pre-release order: an empty pre-release list is greater than any
/// non-empty one, so `1.0.0-rc1 < 1.0.0`.
pub open spec fn cmp_pre(a: Seq<IdView>, b: Seq<IdView>) -> core::cmp::Ordering {
    if a.len() == 0 && b.len() == 0 {
        core::cmp::Ordering::Equal
    } else if a.len() == 0 {
        core::cmp::Ordering::Greater
    } else if b.len() == 0 {
        core::cmp::Ordering::Less
    } else {
        cmp_ids(a, b)
    }
}

/// The total order on versions. Build metadata is not consulted.
pub open spec fn cmp_version(a: VersionView, b: VersionView) -> core::cmp::Ordering {
    if a.major != b.major {
        cmp_int(a.major, b.major)
    } else if a.minor != b.minor {
        cmp_int(a.minor, b.minor)
    } else if a.patch != b.patch {
        cmp_int(a.patch, b.patch)
    } else {
        cmp_pre(a.pre, b.pre)
    }
}

pub open spec fn version_lt(a: VersionView, b: VersionView) -> bool {
    cmp_version(a, b) == core::cmp::Ordering::Less
}

pub open spec fn version_eq(a: VersionView, b: VersionView) -> bool {
    cmp_version(a, b) == core::cmp::Ordering::Equal
}

pub open spec fn version_le(a: VersionView, b: VersionView) -> bool {
    version_lt(a, b) || version_eq(a, b)
}

// ---------------------------------------------------------------------------
// Alphanumeric runs, used when bumping the last pre-release identifier.
// ---------------------------------------------------------------------------

/// Value of a digit character.
pub open spec fn digit_val(c: char) -> int {
    c as u32 - '0' as u32
}

/// Numeric value of a digit string, most significant digit first.
pub open spec fn num_val(s: Seq<char>) -> int
    decreases s.len(),
{
    if s.len() == 0 {
        0
    } else {
        num_val(s.take(s.len() - 1)) * 10 + digit_val(s[s.len() - 1])
    }
}

pub open spec fn is_digit_char(c: char) -> bool {
    '0' as u32 <= c as u32 && c as u32 <= '9' as u32
}

/// Where the run of equally-kinded (digit or not) characters that starts at
/// `start` ends.
pub open spec fn run_end(s: Seq<char>, start: int) -> int
    decreases s.len() - start,
{
    if start + 1 >= s.len() {
        s.len() as int
    } else if is_digit_char(s[start + 1]) == is_digit_char(s[start]) {
        run_end(s, start + 1)
    } else {
        start + 1
    }
}

/// How a run renders when an identifier is reassembled from its runs: a
/// numeric run canonically (leading zeros dropped), an alphabetic run as is.
pub open spec fn run_str(run: Seq<char>) -> Seq<char> {
    if run.len() > 0 && is_digit_char(run[0]) {
        dec_str(num_val(run))
    } else {
        run
    }
}

/// How the last run renders after a bump: a numeric run is incremented, an
/// alphabetic run gets a `1` appended.
pub open spec fn bumped_run_str(run: Seq<char>) -> Seq<char> {
    if run.len() > 0 && is_digit_char(run[0]) {
        dec_str(num_val(run) + 1)
    } else {
        run + seq!['1']
    }
}

/// The rendering of `s` from `start` on, with its last run bumped.
pub open spec fn bumped_alnum_str(s: Seq<char>, start: int) -> Seq<char>
    decreases s.len() - start,
    via bumped_alnum_str_decreases
{
    if start < 0 || start >= s.len() {
        Seq::empty()
    } else {
        let e = run_end(s, start);
        if e >= s.len() {
            bumped_run_str(s.subrange(start, e))
        } else {
            run_str(s.subrange(start, e)) + bumped_alnum_str(s, e)
        }
    }
}

/// The maximal runs of `s` from `start` on.
pub open spec fn runs_from(s: Seq<char>, start: int) -> Seq<Seq<char>>
    decreases s.len() - start,
    via runs_from_decreases
{
    if start < 0 || start >= s.len() {
        Seq::empty()
    } else {
        let e = run_end(s, start);
        seq![s.subrange(start, e)] + runs_from(s, e)
    }
}

#[via_fn]
proof fn bumped_alnum_str_decreases(s: Seq<char>, start: int) {
    if 0 <= start < s.len() {
        lemma_run_bounds(s, start);
    }
}

#[via_fn]
proof fn runs_from_decreases(s: Seq<char>, start: int) {
    if 0 <= start < s.len() {
        lemma_run_bounds(s, start);
    }
}

// ---------------------------------------------------------------------------
// Laws of the order.
// ---------------------------------------------------------------------------

/// The opposite of an ordering outcome.
pub open spec fn flip(o: core::cmp::Ordering) -> core::cmp::Ordering {
    match o {
        core::cmp::Ordering::Less => core::cmp::Ordering::Greater,
        core::cmp::Ordering::Equal => core::cmp::Ordering::Equal,
        core::cmp::Ordering::Greater => core::cmp::Ordering::Less,
    }
}

pub proof fn lemma_cmp_chars_eq(a: Seq<char>, b: Seq<char>)
    ensures
        cmp_chars(a, b) == core::cmp::Ordering::Equal <==> a == b,
    decreases a.len(),
{
    if a.len() == 0 || b.len() == 0 {
        if a.len() == 0 && b.len() == 0 {
            assert(a =~= b);
        }
    } else {
        lemma_cmp_chars_eq(a.skip(1), b.skip(1));
        if cmp_chars(a, b) == core::cmp::Ordering::Equal {
            vstd::utf8::char_u32_cast(a[0], a[0] as u32);
            vstd::utf8::char_u32_cast(b[0], b[0] as u32);
            assert(a[0] == b[0]);
            assert(a =~= seq![a[0]] + a.skip(1));
            assert(b =~= seq![b[0]] + b.skip(1));
        } else {
            if a == b {
                assert(a.skip(1) == b.skip(1));
            }
        }
    }
}

proof fn lemma_cmp_chars_flip(a: Seq<char>, b: Seq<char>)
    ensures
        cmp_chars(b, a) == flip(cmp_chars(a, b)),
    decreases a.len(),
{
    if a.len() != 0 && b.len() != 0 {
        lemma_cmp_chars_flip(a.skip(1), b.skip(1));
    }
}

proof fn lemma_cmp_chars_trans(a: Seq<char>, b: Seq<char>, c: Seq<char>)
    requires
        cmp_chars(a, b) == core::cmp::Ordering::Less,
        cmp_chars(b, c) == core::cmp::Ordering::Less,
    ensures
        cmp_chars(a, c) == core::cmp::Ordering::Less,
    decreases a.len(),
{
    if a.len() != 0 {
        if a[0] as u32 == b[0] as u32 && b[0] as u32 == c[0] as u32 {
            lemma_cmp_chars_trans(a.skip(1), b.skip(1), c.skip(1));
        }
    }
}

pub proof fn lemma_cmp_id_eq(a: IdView, b: IdView)
    ensures
        cmp_id(a, b) == core::cmp::Ordering::Equal <==> a =~= b,
{
    match (a, b) {
        (IdView::Alpha(x), IdView::Alpha(y)) => {
            lemma_cmp_chars_eq(x, y);
        },
        _ => {},
    }
}

proof fn lemma_cmp_id_flip(a: IdView, b: IdView)
    ensures
        cmp_id(b, a) == flip(cmp_id(a, b)),
{
    match (a, b) {
        (IdView::Alpha(x), IdView::Alpha(y)) => {
            lemma_cmp_chars_flip(x, y);
        },
        _ => {},
    }
}

proof fn lemma_cmp_id_trans(a: IdView, b: IdView, c: IdView)
    requires
        cmp_id(a, b) == core::cmp::Ordering::Less,
        cmp_id(b, c) == core::cmp::Ordering::Less,
    ensures
        cmp_id(a, c) == core::cmp::Ordering::Less,
{
    match (a, b, c) {
        (IdView::Num(_), IdView::Num(_), IdView::Num(_)) => {},
        (IdView::Alpha(x), IdView::Alpha(y), IdView::Alpha(z)) => {
            lemma_cmp_chars_trans(x, y, z);
        },
        _ => {},
    }
}

pub proof fn lemma_cmp_ids_eq(a: Seq<IdView>, b: Seq<IdView>)
    ensures
        cmp_ids(a, b) == core::cmp::Ordering::Equal <==> a =~~= b,
    decreases a.len(),
{
    if a.len() == 0 || b.len() == 0 {
    } else {
        lemma_cmp_id_eq(a[0], b[0]);
        lemma_cmp_ids_eq(a.skip(1), b.skip(1));
        if cmp_ids(a, b) == core::cmp::Ordering::Equal {
            assert(a =~~= seq![a[0]] + a.skip(1));
            assert(b =~~= seq![b[0]] + b.skip(1));
        } else {
            if a =~~= b {
                assert(a.skip(1) =~~= b.skip(1));
            }
        }
    }
}

proof fn lemma_cmp_ids_flip(a: Seq<IdView>, b: Seq<IdView>)
    ensures
        cmp_ids(b, a) == flip(cmp_ids(a, b)),
    decreases a.len(),
{
    if a.len() != 0 && b.len() != 0 {
        lemma_cmp_id_flip(a[0], b[0]);
        lemma_cmp_id_eq(a[0], b[0]);
        lemma_cmp_id_eq(b[0], a[0]);
        lemma_cmp_ids_flip(a.skip(1), b.skip(1));
    }
}

proof fn lemma_cmp_ids_trans(a: Seq<IdView>, b: Seq<IdView>, c: Seq<IdView>)
    requires
        cmp_ids(a, b) == core::cmp::Ordering::Less,
        cmp_ids(b, c) == core::cmp::Ordering::Less,
    ensures
        cmp_ids(a, c) == core::cmp::Ordering::Less,
    decreases a.len(),
{
    if a.len() != 0 {
        lemma_cmp_id_eq(a[0], b[0]);
        lemma_cmp_id_eq(b[0], c[0]);
        lemma_cmp_id_eq(a[0], c[0]);
        if cmp_id(a[0], b[0]) == core::cmp::Ordering::Equal && cmp_id(b[0], c[0])
            == core::cmp::Ordering::Equal {
            lemma_cmp_ids_trans(a.skip(1), b.skip(1), c.skip(1));
        } else if cmp_id(a[0], b[0]) == core::cmp::Ordering::Equal {
            // a[0] = b[0] < c[0]
        } else if cmp_id(b[0], c[0]) == core::cmp::Ordering::Equal {
            // a[0] < b[0] = c[0]
        } else {
            lemma_cmp_id_trans(a[0], b[0], c[0]);
        }
    }
}

/// Two versions compare equal exactly when everything except the build
/// metadata agrees. In particular the build part never influences
/// comparison: `1.0.0+a` and `1.0.0+b` compare equal.
pub proof fn lemma_version_eq_ignores_build(a: VersionView, b: VersionView)
    ensures
        version_eq(a, b) <==> (a.major == b.major && a.minor == b.minor && a.patch == b.patch
            && a.pre =~~= b.pre),
{
    lemma_cmp_ids_eq(a.pre, b.pre);
}

/// Comparing the other way round gives the opposite outcome, so of
/// `a < b`, `a = b`, `a > b` exactly one holds.
pub proof fn lemma_version_order_flip(a: VersionView, b: VersionView)
    ensures
        cmp_version(b, a) == flip(cmp_version(a, b)),
{
    lemma_cmp_ids_flip(a.pre, b.pre);
}

/// The order is total: of `a < b`, `a = b` and `b < a`, exactly one
/// holds.
pub proof fn lemma_version_order_trichotomy(a: VersionView, b: VersionView)
    ensures
        version_lt(a, b) || version_eq(a, b) || version_lt(b, a),
        version_lt(a, b) ==> !version_eq(a, b) && !version_lt(b, a),
        version_eq(a, b) ==> !version_lt(a, b) && !version_lt(b, a),
        version_lt(b, a) ==> !version_lt(a, b) && !version_eq(a, b),
{
    lemma_version_order_flip(a, b);
}

/// The order is transitive.
pub proof fn lemma_version_order_trans(a: VersionView, b: VersionView, c: VersionView)
    requires
        version_lt(a, b),
        version_lt(b, c),
    ensures
        version_lt(a, c),
{
    if a.major == b.major && b.major == c.major && a.minor == b.minor && b.minor == c.minor
        && a.patch == b.patch && b.patch == c.patch {
        if a.pre.len() != 0 && b.pre.len() != 0 && c.pre.len() != 0 {
            lemma_cmp_ids_trans(a.pre, b.pre, c.pre);
        }
    }
}

// ---------------------------------------------------------------------------
// Rendering, as specification functions.
// ---------------------------------------------------------------------------

/// The character for one decimal digit.
pub open spec fn digit_char(d: int) -> char {
    if d == 0 {
        '0'
    } else if d == 1 {
        '1'
    } else if d == 2 {
        '2'
    } else if d == 3 {
        '3'
    } else if d == 4 {
        '4'
    } else if d == 5 {
        '5'
    } else if d == 6 {
        '6'
    } else if d == 7 {
        '7'
    } else if d == 8 {
        '8'
    } else {
        '9'
    }
}

/// The canonical decimal rendering of a non-negative number: no leading
/// zeros, and `0` for zero itself.
pub open spec fn dec_str(n: int) -> Seq<char>
    decreases n,
{
    if n < 10 {
        seq![digit_char(n)]
    } else {
        dec_str(n / 10) + seq![digit_char(n % 10)]
    }
}

/// How one pre-release identifier renders.
pub open spec fn id_str(i: IdView) -> Seq<char> {
    match i {
        IdView::Num(n) => dec_str(n),
        IdView::Alpha(s) => s,
    }
}

/// The identifiers from `i` on, rendered with `.` between them.
pub open spec fn ids_suffix_str(ids: Seq<IdView>, i: int) -> Seq<char>
    decreases ids.len() - i,
{
    if i < 0 || i >= ids.len() {
        Seq::empty()
    } else if i == ids.len() - 1 {
        id_str(ids[i])
    } else {
        id_str(ids[i]) + seq!['.'] + ids_suffix_str(ids, i + 1)
    }
}

/// The pre-release part of a rendered version, hyphen included.
pub open spec fn pre_str(ids: Seq<IdView>) -> Seq<char> {
    if ids.len() == 0 {
        Seq::empty()
    } else {
        seq!['-'] + ids_suffix_str(ids, 0)
    }
}

/// The build part of a rendered version, plus sign included.
pub open spec fn build_str(b: Option<Seq<char>>) -> Seq<char> {
    match b {
        Option::None => Seq::empty(),
        Option::Some(s) => seq!['+'] + s,
    }
}

/// The canonical rendering of a version.
pub open spec fn version_str(v: VersionView) -> Seq<char> {
    dec_str(v.major) + seq!['.'] + dec_str(v.minor) + seq!['.'] + dec_str(v.patch) + pre_str(
        v.pre,
    ) + build_str(v.build)
}

// ---------------------------------------------------------------------------
// Well-formed versions: the values the grammar can produce.
// ---------------------------------------------------------------------------

/// A character allowed in a pre-release identifier.
pub open spec fn is_id_char(c: char) -> bool {
    is_digit_char(c) || ('A' as u32 <= c as u32 && c as u32 <= 'Z' as u32) || ('a' as u32
        <= c as u32 && c as u32 <= 'z' as u32) || c == '-'
}

/// A character allowed in build metadata.
pub open spec fn is_build_char(c: char) -> bool {
    is_id_char(c) || c == '.'
}

/// A well-formed identifier: numbers fit in 32 bits, and an alphanumeric
/// identifier is a non-empty string of identifier characters that is not a
/// pure decimal.
pub open spec fn wf_id(i: IdView) -> bool {
    match i {
        IdView::Num(n) => 0 <= n < 4294967296,
        IdView::Alpha(s) => s.len() > 0 && (forall|k: int|
            0 <= k < s.len() ==> is_id_char(#[trigger] s[k])) && (exists|k: int|
            0 <= k < s.len() && !is_digit_char(#[trigger] s[k])),
    }
}

/// A well-formed version: components fit in 32 bits, every pre-release
/// identifier is well formed, and the build part, if present, is a
/// non-empty string of build characters.
pub open spec fn wf_version(v: VersionView) -> bool {
    0 <= v.major < 4294967296 && 0 <= v.minor < 4294967296 && 0 <= v.patch < 4294967296 && (
    forall|k: int| 0 <= k < v.pre.len() ==> wf_id(#[trigger] v.pre[k])) && match v.build {
        Option::None => true,
        Option::Some(b) => b.len() > 0 && forall|k: int|
            0 <= k < b.len() ==> is_build_char(#[trigger] b[k]),
    }
}

// ---------------------------------------------------------------------------
// Executable rendering.
// ---------------------------------------------------------------------------

fn push_digit(s: &mut String, d: u32)
    requires
        d < 10,
    ensures
        final(s)@ == old(s)@ + seq![digit_char(d as int)],
{
    let t: &str = match d {
        0 => "0",
        1 => "1",
        2 => "2",
        3 => "3",
        4 => "4",
        5 => "5",
        6 => "6",
        7 => "7",
        8 => "8",
        _ => "9",
    };
    proof {
        reveal_strlit("0");
        reveal_strlit("1");
        reveal_strlit("2");
        reveal_strlit("3");
        reveal_strlit("4");
        reveal_strlit("5");
        reveal_strlit("6");
        reveal_strlit("7");
        reveal_strlit("8");
        reveal_strlit("9");
        assert(t@ =~= seq![digit_char(d as int)]);
    }
    s.append(t);
}

fn push_dot(s: &mut String)
    ensures
        final(s)@ == old(s)@ + seq!['.'],
{
    proof {
        reveal_strlit(".");
        assert("."@ =~= seq!['.']);
    }
    s.append(".");
}

fn push_hyphen(s: &mut String)
    ensures
        final(s)@ == old(s)@ + seq!['-'],
{
    proof {
        reveal_strlit("-");
        assert("-"@ =~= seq!['-']);
    }
    s.append("-");
}

fn push_plus(s: &mut String)
    ensures
        final(s)@ == old(s)@ + seq!['+'],
{
    proof {
        reveal_strlit("+");
        assert("+"@ =~= seq!['+']);
    }
    s.append("+");
}

/// Append the canonical decimal rendering of `n`.
pub(crate) fn push_u32(s: &mut String, n: u32)
    ensures
        final(s)@ == old(s)@ + dec_str(n as int),
    decreases n,
{
    if n < 10 {
        push_digit(s, n);
    } else {
        push_u32(s, n / 10);
        push_digit(s, n % 10);
        assert(old(s)@ + dec_str(n as int / 10) + seq![digit_char(n as int % 10)] =~= old(s)@
            + dec_str(n as int));
    }
}

fn push_id(s: &mut String, i: &Identifier)
    ensures
        final(s)@ == old(s)@ + id_str(i@),
{
    match i {
        Identifier::Numeric(n) => push_u32(s, *n),
        Identifier::AlphaNumeric(a) => {
            s.append(a.as_str());
        },
    }
}

impl Version {
    /// Render this version in its canonical textual form.
    pub fn to_version_string(&self) -> (r: String)
        ensures
            r@ == version_str(self@),
    {
        let mut s = String::new();
        push_u32(&mut s, self.major);
        push_dot(&mut s);
        push_u32(&mut s, self.minor);
        push_dot(&mut s);
        push_u32(&mut s, self.patch);
        let ghost head = s@;
        assert(head =~= dec_str(self@.major) + seq!['.'] + dec_str(self@.minor) + seq!['.']
            + dec_str(self@.patch));
        if self.pre.len() > 0 {
            push_hyphen(&mut s);
            let ghost mid = s@;
            let mut i: usize = 0;
            while i < self.pre.len()
                invariant
                    0 <= i <= self@.pre.len(),
                    self@.pre.len() == self.pre@.len(),
                    mid == head + seq!['-'],
                    mid + ids_suffix_str(self@.pre, 0) =~= s@ + ids_suffix_str(
                        self@.pre,
                        i as int,
                    ),
                decreases self.pre@.len() - i,
            {
                assert(self@.pre[i as int] == self.pre@[i as int]@);
                push_id(&mut s, &self.pre[i]);
                if i + 1 < self.pre.len() {
                    push_dot(&mut s);
                }
                assert(mid + ids_suffix_str(self@.pre, 0) =~= s@ + ids_suffix_str(
                    self@.pre,
                    i + 1,
                ));
                i = i + 1;
            }
            assert(ids_suffix_str(self@.pre, self@.pre.len() as int) =~= Seq::<char>::empty());
            assert(s@ =~= mid + ids_suffix_str(self@.pre, 0));
        }
        match &self.build {
            Option::None => {},
            Option::Some(b) => {
                push_plus(&mut s);
                s.append(b.as_str());
            },
        }
        assert(s@ =~= version_str(self@));
        s
    }

    /// A version with no pre-release identifiers and no build metadata.
    pub fn new(major: u32, minor: u32, patch: u32) -> (v: Version)
        ensures
            v@.major == major,
            v@.minor == minor,
            v@.patch == patch,
            v@.pre.len() == 0,
            v@.build is None,
    {
        Version { major, minor, patch, pre: Vec::new(), build: None }
    }

    /// Whether this is a pre-release version.
    pub fn is_pre(&self) -> (r: bool)
        ensures
            r == (self@.pre.len() != 0),
    {
        self.pre.len() != 0
    }

    /// Compare two versions in the total order of the grammar; build
    /// metadata is ignored.
    pub fn compare(&self, other: &Version) -> (r: core::cmp::Ordering)
        ensures
            r == cmp_version(self@, other@),
    {
        if self.major != other.major {
            if self.major < other.major {
                core::cmp::Ordering::Less
            } else {
                core::cmp::Ordering::Greater
            }
        } else if self.minor != other.minor {
            if self.minor < other.minor {
                core::cmp::Ordering::Less
            } else {
                core::cmp::Ordering::Greater
            }
        } else if self.patch != other.patch {
            if self.patch < other.patch {
                core::cmp::Ordering::Less
            } else {
                core::cmp::Ordering::Greater
            }
        } else {
            let self_empty = self.pre.len() == 0;
            let other_empty = other.pre.len() == 0;
            if self_empty && other_empty {
                core::cmp::Ordering::Equal
            } else if self_empty {
                core::cmp::Ordering::Greater
            } else if other_empty {
                core::cmp::Ordering::Less
            } else {
                compare_ids(&self.pre, &other.pre)
            }
        }
    }
}

/// Compare two strings in scalar (for ASCII: byte) order.
fn compare_chars(a: &String, b: &String) -> (r: core::cmp::Ordering)
    ensures
        r == cmp_chars(a@, b@),
{
    let a_len: usize = a.as_str().unicode_len();
    let b_len: usize = b.as_str().unicode_len();
    let mut i: usize = 0;
    assert(a@.skip(0) =~= a@);
    assert(b@.skip(0) =~= b@);
    while i < a_len && i < b_len
        invariant
            i <= a_len,
            i <= b_len,
            a_len == a@.len(),
            b_len == b@.len(),
            cmp_chars(a@, b@) == cmp_chars(a@.skip(i as int), b@.skip(i as int)),
        decreases a_len - i,
    {
        let ca = a.as_str().get_char(i);
        let cb = b.as_str().get_char(i);
        let ua = ca as u32;
        let ub = cb as u32;
        assert(a@.skip(i as int)[0] == a@[i as int]);
        assert(b@.skip(i as int)[0] == b@[i as int]);
        if ua < ub {
            return core::cmp::Ordering::Less;
        } else if ua > ub {
            return core::cmp::Ordering::Greater;
        }
        assert(a@.skip(i as int).skip(1) =~= a@.skip(i + 1));
        assert(b@.skip(i as int).skip(1) =~= b@.skip(i + 1));
        i = i + 1;
    }
    assert(a@.skip(i as int).len() == 0 || b@.skip(i as int).len() == 0);
    if a_len < b_len {
        core::cmp::Ordering::Less
    } else if a_len > b_len {
        core::cmp::Ordering::Greater
    } else {
        assert(a@.skip(i as int).len() == 0 && b@.skip(i as int).len() == 0);
        core::cmp::Ordering::Equal
    }
}

impl Identifier {
    /// Compare two identifiers in the order of the grammar.
    pub fn compare(&self, other: &Identifier) -> (r: core::cmp::Ordering)
        ensures
            r == cmp_id(self@, other@),
    {
        match (self, other) {
            (Identifier::Numeric(x), Identifier::Numeric(y)) => {
                if x < y {
                    core::cmp::Ordering::Less
                } else if x == y {
                    core::cmp::Ordering::Equal
                } else {
                    core::cmp::Ordering::Greater
                }
            },
            (Identifier::Numeric(_), Identifier::AlphaNumeric(_)) => core::cmp::Ordering::Less,
            (Identifier::AlphaNumeric(_), Identifier::Numeric(_)) => core::cmp::Ordering::Greater,
            (Identifier::AlphaNumeric(x), Identifier::AlphaNumeric(y)) => compare_chars(x, y),
        }
    }
}

/// Compare two identifier lists element-wise, shorter prefixes first.
fn compare_ids(a: &Vec<Identifier>, b: &Vec<Identifier>) -> (r: core::cmp::Ordering)
    ensures
        r == cmp_ids(a@.map_values(|id: Identifier| id@), b@.map_values(|id: Identifier| id@)),
{
    let ghost av = a@.map_values(|id: Identifier| id@);
    let ghost bv = b@.map_values(|id: Identifier| id@);
    let mut i: usize = 0;
    assert(av.skip(0) =~= av);
    assert(bv.skip(0) =~= bv);
    while i < a.len() && i < b.len()
        invariant
            i <= av.len(),
            i <= bv.len(),
            av == a@.map_values(|id: Identifier| id@),
            bv == b@.map_values(|id: Identifier| id@),
            av.len() == a@.len(),
            bv.len() == b@.len(),
            cmp_ids(av, bv) == cmp_ids(av.skip(i as int), bv.skip(i as int)),
        decreases av.len() - i,
    {
        assert(av.skip(i as int)[0] == av[i as int]);
        assert(bv.skip(i as int)[0] == bv[i as int]);
        let c = a[i].compare(&b[i]);
        if !matches!(c, core::cmp::Ordering::Equal) {
            return c;
        }
        assert(av.skip(i as int).skip(1) =~= av.skip(i + 1));
        assert(bv.skip(i as int).skip(1) =~= bv.skip(i + 1));
        i = i + 1;
    }
    if a.len() < b.len() {
        core::cmp::Ordering::Less
    } else if a.len() > b.len() {
        core::cmp::Ordering::Greater
    } else {
        core::cmp::Ordering::Equal
    }
}

// ---------------------------------------------------------------------------
// Splitting identifiers into alphabetic and numeric runs.
// ---------------------------------------------------------------------------

/// An alphabetic or numeric run of an alphanumeric identifier.
#[derive(Clone, PartialEq, Eq, Debug)]
pub enum AlphaOrNumeric {
    Alpha(String),
    Numeric(u32),
}

impl View for AlphaOrNumeric {
    type V = IdView;

    open spec fn view(&self) -> IdView {
        match self {
            AlphaOrNumeric::Numeric(n) => IdView::Num(*n as int),
            AlphaOrNumeric::Alpha(s) => IdView::Alpha(s@),
        }
    }
}

pub(crate) fn is_digit_exec(c: char) -> (r: bool)
    ensures
        r == is_digit_char(c),
{
    let u = c as u32;
    48 <= u && u <= 57
}

/// End of the run of equally-kinded characters starting at `start`.
fn run_end_at(s: &str, n: usize, start: usize) -> (e: usize)
    requires
        n == s@.len(),
        start < n,
    ensures
        e == run_end(s@, start as int),
        start < e <= n,
    decreases n - start,
{
    let mut j: usize = start;
    loop
        invariant
            start <= j < n,
            n == s@.len(),
            run_end(s@, start as int) == run_end(s@, j as int),
        decreases n - j,
    {
        if j + 1 >= n {
            return n;
        }
        let a = is_digit_exec(s.get_char(j + 1));
        let b = is_digit_exec(s.get_char(j));
        if a != b {
            return j + 1;
        }
        j = j + 1;
    }
}

pub(crate) proof fn lemma_num_val_nonneg(s: Seq<char>)
    requires
        forall|k: int| 0 <= k < s.len() ==> is_digit_char(#[trigger] s[k]),
    ensures
        num_val(s) >= 0,
    decreases s.len(),
{
    if s.len() > 0 {
        lemma_num_val_nonneg(s.take(s.len() - 1));
    }
}

pub(crate) proof fn lemma_num_val_prefix(s: Seq<char>, k: int)
    requires
        forall|j: int| 0 <= j < s.len() ==> is_digit_char(#[trigger] s[j]),
        0 <= k <= s.len(),
    ensures
        0 <= num_val(s.take(k)) <= num_val(s),
    decreases s.len() - k,
{
    if k == s.len() {
        assert(s.take(k) =~= s);
        lemma_num_val_nonneg(s);
    } else {
        lemma_num_val_prefix(s, k + 1);
        assert(s.take(k + 1).take(k) =~= s.take(k));
        lemma_num_val_nonneg(s.take(k));
    }
}

/// Numeric value of the digit run `s[from..to]`.
pub(crate) fn digits_to_num(s: &str, n: usize, from: usize, to: usize) -> (v: u32)
    requires
        n == s@.len(),
        0 <= from <= to <= n,
        forall|k: int| from <= k < to ==> is_digit_char(#[trigger] s@[k]),
        num_val(s@.subrange(from as int, to as int)) < 4294967296,
    ensures
        v == num_val(s@.subrange(from as int, to as int)),
{
    let ghost d = s@.subrange(from as int, to as int);
    let mut v: u32 = 0;
    let mut i: usize = from;
    assert(d.take(0) =~= Seq::<char>::empty());
    while i < to
        invariant
            from <= i <= to <= n,
            n == s@.len(),
            forall|k: int| from <= k < to ==> is_digit_char(#[trigger] s@[k]),
            num_val(d) < 4294967296,
            d == s@.subrange(from as int, to as int),
            v == num_val(d.take(i - from)),
        decreases to - i,
    {
        let c = s.get_char(i);
        assert(c == d[i - from]);
        let dv = (c as u32) - 48;
        proof {
            assert(forall|j: int| 0 <= j < d.len() ==> is_digit_char(#[trigger] d[j]));
            lemma_num_val_prefix(d, i + 1 - from);
            assert(d.take(i + 1 - from).take(i - from) =~= d.take(i - from));
            assert(num_val(d.take(i + 1 - from)) == num_val(d.take(i - from)) * 10 + digit_val(
                d[i - from],
            ));
            lemma_num_val_prefix(d, i - from);
        }
        v = v * 10 + dv;
        i = i + 1;
    }
    assert(d.take(to - from) =~= d);
    v
}

/// Splits an identifier into its maximal alphabetic and numeric runs.
pub fn split_alphanumeric(s: &str) -> (r: Vec<AlphaOrNumeric>)
    requires
        forall|i: int|
            0 <= i < runs_from(s@, 0).len() && is_digit_char(
                #[trigger] runs_from(s@, 0)[i][0],
            ) ==> num_val(runs_from(s@, 0)[i]) < 4294967296,
    ensures
        r@.len() == runs_from(s@, 0).len(),
        forall|i: int| 0 <= i < r@.len() ==> run_matches(#[trigger] r@[i]@, runs_from(s@, 0)[i]),
{
    let ghost rs = runs_from(s@, 0);
    let n: usize = s.unicode_len();
    let mut r: Vec<AlphaOrNumeric> = Vec::new();
    let mut i: usize = 0;
    while i < n
        invariant
            0 <= i <= n,
            n == s@.len(),
            rs == runs_from(s@, 0),
            forall|j: int|
                0 <= j < rs.len() && is_digit_char(#[trigger] rs[j][0]) ==> num_val(rs[j])
                    < 4294967296,
            rs =~= rs.take(r@.len() as int) + runs_from(s@, i as int),
            i < n ==> r@.len() < rs.len(),
            i == n ==> r@.len() == rs.len(),
            forall|j: int| 0 <= j < r@.len() ==> run_matches(#[trigger] r@[j]@, rs[j]),
        decreases n - i,
    {
        let e = run_end_at(s, n, i);
        let ghost run = s@.subrange(i as int, e as int);
        proof {
            assert(runs_from(s@, i as int) == seq![run] + runs_from(s@, e as int));
            assert(rs[r@.len() as int] == run);
        }
        let c0 = s.get_char(i);
        if is_digit_exec(c0) {
            proof {
                assert(run[0] == s@[i as int]);
                assert forall|k: int| i <= k < e implies is_digit_char(#[trigger] s@[k]) by {
                    lemma_run_uniform(s@, i as int, k);
                }
            }
            let v = digits_to_num(s, n, i, e);
            r.push(AlphaOrNumeric::Numeric(v));
        } else {
            let piece = s.substring_char(i, e).to_owned();
            r.push(AlphaOrNumeric::Alpha(piece));
        }
        proof {
            assert(rs.take(r@.len() as int) =~= rs.take(r@.len() - 1) + seq![rs[r@.len() - 1]]);
        }
        i = e;
    }
    r
}

/// How a run value corresponds to the run of text it came from.
pub open spec fn run_matches(a: IdView, run: Seq<char>) -> bool {
    if run.len() > 0 && is_digit_char(run[0]) {
        a == IdView::Num(num_val(run)) && num_val(run) < 4294967296
    } else {
        a == IdView::Alpha(run)
    }
}

// ---------------------------------------------------------------------------
// Bumping.
// ---------------------------------------------------------------------------

pub(crate) fn clone_id(i: &Identifier) -> (r: Identifier)
    ensures
        r@ == i@,
{
    match i {
        Identifier::Numeric(n) => Identifier::Numeric(*n),
        Identifier::AlphaNumeric(s) => Identifier::AlphaNumeric(s.clone()),
    }
}

pub(crate) fn clone_ids(v: &Vec<Identifier>) -> (r: Vec<Identifier>)
    ensures
        r@.map_values(|id: Identifier| id@) == v@.map_values(|id: Identifier| id@),
        r@.len() == v@.len(),
{
    let mut r: Vec<Identifier> = Vec::new();
    let mut i: usize = 0;
    while i < v.len()
        invariant
            0 <= i <= v@.len(),
            r@.len() == i,
            forall|k: int| 0 <= k < i ==> #[trigger] r@[k]@ == v@[k]@,
        decreases v@.len() - i,
    {
        r.push(clone_id(&v[i]));
        i = i + 1;
    }
    assert(r@.map_values(|id: Identifier| id@) =~= v@.map_values(|id: Identifier| id@));
    r
}

/// Bump the last alphabetic or numeric run of an identifier: a numeric run
/// is incremented, an alphabetic run gets `1` appended. Numeric runs are
/// re-rendered canonically.
fn bump_alnum(s: &str) -> (r: String)
    requires
        s@.len() > 0,
        forall|i: int|
            0 <= i < runs_from(s@, 0).len() && is_digit_char(
                #[trigger] runs_from(s@, 0)[i][0],
            ) ==> num_val(runs_from(s@, 0)[i]) < 4294967296,
        is_digit_char(runs_from(s@, 0).last()[0]) ==> num_val(runs_from(s@, 0).last()) + 1
            < 4294967296,
    ensures
        r@ == bumped_alnum_str(s@, 0),
{
    let n: usize = s.unicode_len();
    let mut out = String::new();
    let mut i: usize = 0;
    loop
        invariant
            0 <= i < n,
            n == s@.len(),
            forall|j: int|
                0 <= j < runs_from(s@, i as int).len() && is_digit_char(
                    #[trigger] runs_from(s@, i as int)[j][0],
                ) ==> num_val(runs_from(s@, i as int)[j]) < 4294967296,
            is_digit_char(runs_from(s@, i as int).last()[0]) ==> num_val(
                runs_from(s@, i as int).last(),
            ) + 1 < 4294967296,
            runs_from(s@, i as int).len() > 0,
            bumped_alnum_str(s@, 0) == out@ + bumped_alnum_str(s@, i as int),
        decreases n - i,
    {
        let e = run_end_at(s, n, i);
        let ghost run = s@.subrange(i as int, e as int);
        proof {
            assert(runs_from(s@, i as int) == seq![run] + runs_from(s@, e as int));
            assert(runs_from(s@, i as int)[0] == run);
            lemma_run_bounds(s@, i as int);
        }
        let c0 = s.get_char(i);
        let first_digit = is_digit_exec(c0);
        proof {
            assert(run[0] == s@[i as int]);
            if first_digit {
                assert forall|k: int| i <= k < e implies is_digit_char(#[trigger] s@[k]) by {
                    lemma_run_uniform(s@, i as int, k);
                }
            }
        }
        if e == n {
            proof {
                assert(runs_from(s@, e as int) =~= Seq::<Seq<char>>::empty());
                assert(runs_from(s@, i as int) =~= seq![run]);
                assert(runs_from(s@, i as int).last() == run);
                assert(bumped_alnum_str(s@, i as int) == bumped_run_str(run));
            }
            if first_digit {
                let v = digits_to_num(s, n, i, e);
                push_u32(&mut out, v + 1);
            } else {
                let piece = s.substring_char(i, e);
                out.append(piece);
                push_digit(&mut out, 1);
            }
            assert(out@ =~= bumped_alnum_str(s@, 0));
            return out;
        } else {
            proof {
                assert(bumped_alnum_str(s@, i as int) == run_str(run) + bumped_alnum_str(
                    s@,
                    e as int,
                ));
                assert forall|j: int|
                    0 <= j < runs_from(s@, e as int).len() && is_digit_char(
                        #[trigger] runs_from(s@, e as int)[j][0],
                    ) implies num_val(runs_from(s@, e as int)[j]) < 4294967296 by {
                    assert(runs_from(s@, e as int)[j] == runs_from(s@, i as int)[j + 1]);
                }
                assert(runs_from(s@, e as int).len() > 0);
                assert(runs_from(s@, i as int).last() == runs_from(s@, e as int).last());
            }
            if first_digit {
                let v = digits_to_num(s, n, i, e);
                push_u32(&mut out, v);
            } else {
                let piece = s.substring_char(i, e);
                out.append(piece);
            }
            assert(bumped_alnum_str(s@, 0) =~= out@ + bumped_alnum_str(s@, e as int));
            i = e;
        }
    }
}

/// What `bump` demands of a version so that no numeric part overflows.
pub open spec fn can_bump(v: VersionView) -> bool {
    if v.pre.len() == 0 {
        v.patch < 4294967295
    } else {
        match v.pre.last() {
            IdView::Num(n) => n < 4294967295,
            IdView::Alpha(a) => a.len() > 0 && (forall|i: int|
                0 <= i < runs_from(a, 0).len() && is_digit_char(
                    #[trigger] runs_from(a, 0)[i][0],
                ) ==> num_val(runs_from(a, 0)[i]) < 4294967296) && (is_digit_char(
                runs_from(a, 0).last()[0],
            ) ==> num_val(runs_from(a, 0).last()) + 1 < 4294967296),
        }
    }
}

/// The last identifier with its last run bumped.
pub open spec fn bumped_id(i: IdView) -> IdView {
    match i {
        IdView::Num(n) => IdView::Num(n + 1),
        IdView::Alpha(a) => IdView::Alpha(bumped_alnum_str(a, 0)),
    }
}

/// The pre-release list of a bumped version. Bumping the last run moves
/// most identifiers up in the identifier order and is used whenever it
/// does; but when a numeric run carries into more digits the rebuilt
/// alphanumeric identifier would come *earlier* in ASCII order, so the
/// list instead gets a zero identifier appended — its immediate successor
/// in the list order.
pub open spec fn bumped_pre(pre: Seq<IdView>) -> Seq<IdView> {
    let cand = bumped_id(pre.last());
    if cmp_id(pre.last(), cand) == core::cmp::Ordering::Less {
        pre.update(pre.len() - 1, cand)
    } else {
        pre.push(IdView::Num(0))
    }
}

/// The value of `bump`: the next patch version for a non-pre version, and
/// otherwise the version with its pre-release list bumped and the build
/// part cleared.
pub open spec fn bumped_version(v: VersionView) -> VersionView {
    if v.pre.len() == 0 {
        VersionView { major: v.major, minor: v.minor, patch: v.patch + 1, pre: v.pre, build: Option::None }
    } else {
        VersionView {
            major: v.major,
            minor: v.minor,
            patch: v.patch,
            pre: bumped_pre(v.pre),
            build: Option::None,
        }
    }
}

proof fn lemma_cmp_ids_grows_last(a: Seq<IdView>, b: Seq<IdView>)
    requires
        a.len() > 0,
        a.len() == b.len(),
        forall|k: int| 0 <= k < a.len() - 1 ==> a[k] == b[k],
        cmp_id(a.last(), b.last()) == core::cmp::Ordering::Less,
    ensures
        cmp_ids(a, b) == core::cmp::Ordering::Less,
    decreases a.len(),
{
    if a.len() == 1 {
    } else {
        lemma_cmp_id_eq(a[0], b[0]);
        assert forall|k: int| 0 <= k < a.skip(1).len() - 1 implies a.skip(1)[k] == b.skip(
            1,
        )[k] by {
            assert(a.skip(1)[k] == a[k + 1]);
            assert(b.skip(1)[k] == b[k + 1]);
        }
        assert(a.skip(1).last() == a.last());
        assert(b.skip(1).last() == b.last());
        lemma_cmp_ids_grows_last(a.skip(1), b.skip(1));
    }
}

proof fn lemma_cmp_ids_extend(a: Seq<IdView>, x: IdView)
    ensures
        cmp_ids(a, a.push(x)) == core::cmp::Ordering::Less,
    decreases a.len(),
{
    let b = a.push(x);
    if a.len() == 0 {
        assert(b.len() == 1);
    } else {
        assert(b[0] == a[0]);
        lemma_cmp_id_eq(a[0], b[0]);
        assert(b.skip(1) =~= a.skip(1).push(x));
        lemma_cmp_ids_extend(a.skip(1), x);
    }
}

/// Bumping is strictly increasing: `v < bump(v)` in the version order.
pub proof fn lemma_bump_increases(v: VersionView)
    ensures
        version_lt(v, bumped_version(v)),
{
    let b = bumped_version(v);
    if v.pre.len() == 0 {
    } else {
        let cand = bumped_id(v.pre.last());
        if cmp_id(v.pre.last(), cand) == core::cmp::Ordering::Less {
            assert(b.pre.last() == cand);
            lemma_cmp_ids_grows_last(v.pre, b.pre);
        } else {
            lemma_cmp_ids_extend(v.pre, IdView::Num(0));
        }
    }
}

impl Version {
    /// The next major version: `M.m.p` becomes `(M+1).0.0`.
    pub fn bump_major(&self) -> (r: Version)
        requires
            self@.major < 4294967295,
        ensures
            r@.major == self@.major + 1,
            r@.minor == 0,
            r@.patch == 0,
            r@.pre.len() == 0,
            r@.build is None,
    {
        Version { major: self.major + 1, minor: 0, patch: 0, pre: Vec::new(), build: None }
    }

    /// The next minor version: `M.m.p` becomes `M.(m+1).0`.
    pub fn bump_minor(&self) -> (r: Version)
        requires
            self@.minor < 4294967295,
        ensures
            r@.major == self@.major,
            r@.minor == self@.minor + 1,
            r@.patch == 0,
            r@.pre.len() == 0,
            r@.build is None,
    {
        Version { major: self.major, minor: self.minor + 1, patch: 0, pre: Vec::new(), build: None }
    }

    /// The next patch version: `M.m.p` becomes `M.m.(p+1)`.
    pub fn bump_patch(&self) -> (r: Version)
        requires
            self@.patch < 4294967295,
        ensures
            r@.major == self@.major,
            r@.minor == self@.minor,
            r@.patch == self@.patch + 1,
            r@.pre.len() == 0,
            r@.build is None,
    {
        Version { major: self.major, minor: self.minor, patch: self.patch + 1, pre: Vec::new(), build: None }
    }

    /// The immediately following version used when a single version is
    /// turned into a range: the next patch version for a non-pre version,
    /// and otherwise the version with its pre-release list bumped and the
    /// build part cleared. The result is always strictly greater than the
    /// version bumped.
    pub fn bump(&self) -> (r: Version)
        requires
            can_bump(self@),
        ensures
            r@ =~~= bumped_version(self@),
            version_lt(self@, r@),
    {
        proof {
            lemma_bump_increases(self@);
        }
        if self.pre.len() == 0 {
            let r = self.bump_patch();
            assert(r@ =~~= bumped_version(self@));
            r
        } else {
            let mut pre = clone_ids(&self.pre);
            let ghost pv = self@.pre;
            let ghost cv = pre@;
            let last = match pre.pop() {
                Option::Some(x) => x,
                Option::None => Identifier::Numeric(0),
            };
            assert(last@ == pv.last()) by {
                assert(cv.map_values(|id: Identifier| id@) == pv);
                assert(cv.map_values(|id: Identifier| id@)[cv.len() - 1] == cv[cv.len() - 1]@);
            }
            let bumped = match &last {
                Identifier::Numeric(n) => Identifier::Numeric(*n + 1),
                Identifier::AlphaNumeric(a) => Identifier::AlphaNumeric(bump_alnum(a.as_str())),
            };
            assert(bumped@ == bumped_id(pv.last()));
            let grows = matches!(last.compare(&bumped), core::cmp::Ordering::Less);
            if grows {
                pre.push(bumped);
            } else {
                pre.push(last);
                pre.push(Identifier::Numeric(0));
            }
            let r = Version {
                major: self.major,
                minor: self.minor,
                patch: self.patch,
                pre,
                build: None,
            };
            assert(r@.pre =~= bumped_pre(pv)) by {
                assert forall|k: int| 0 <= k < pv.len() - 1 implies r@.pre[k] == pv[k] by {
                    assert(r.pre@[k] == cv[k]);
                    assert(cv.map_values(|id: Identifier| id@)[k] == cv[k]@);
                }
                if grows {
                    assert(r@.pre.len() == pv.len());
                    assert(r@.pre[pv.len() - 1] == bumped_id(pv.last()));
                } else {
                    assert(r@.pre.len() == pv.len() + 1);
                    assert(r@.pre[pv.len() - 1] == pv.last());
                    assert(r@.pre[pv.len() as int] == IdView::Num(0));
                }
            }
            assert(r@ =~~= bumped_version(self@));
            r
        }
    }
}

impl Identifier {
    /// Append a string to an identifier; a numeric identifier is first
    /// rendered in decimal.
    pub fn concat(self, add_str: &str) -> (r: Identifier)
        ensures
            r@ == IdView::Alpha(id_str(self@) + add_str@),
    {
        match self {
            Identifier::Numeric(n) => {
                let mut s = String::new();
                push_u32(&mut s, n);
                s.append(add_str);
                Identifier::AlphaNumeric(s)
            },
            Identifier::AlphaNumeric(mut s) => {
                s.append(add_str);
                Identifier::AlphaNumeric(s)
            },
        }
    }
}

// ---------------------------------------------------------------------------
// Pre-release lists as an ordered value of their own.
// ---------------------------------------------------------------------------

/// A pre-release identifier list under the order in which an empty list is
/// greater than any non-empty one.
pub struct PreOrder(pub Vec<Identifier>);

impl PreOrder {
    /// Whether the list holds no identifiers.
    pub fn is_empty(&self) -> (r: bool)
        ensures
            r == (self.0@.len() == 0),
    {
        self.0.len() == 0
    }

    /// Compare two pre-release lists, the empty list greatest.
    pub fn compare(&self, other: &PreOrder) -> (r: core::cmp::Ordering)
        ensures
            r == cmp_pre(
                self.0@.map_values(|id: Identifier| id@),
                other.0@.map_values(|id: Identifier| id@),
            ),
    {
        if self.0.len() == 0 && other.0.len() == 0 {
            core::cmp::Ordering::Equal
        } else if self.0.len() == 0 {
            core::cmp::Ordering::Greater
        } else if other.0.len() == 0 {
            core::cmp::Ordering::Less
        } else {
            compare_ids(&self.0, &other.0)
        }
    }
}

impl Version {
    /// The version as the tuple that defines its place in the order.
    pub fn tuple(&self) -> (r: (u32, u32, u32, PreOrder))
        ensures
            r.0 == self@.major,
            r.1 == self@.minor,
            r.2 == self@.patch,
            r.3.0@.map_values(|id: Identifier| id@) == self@.pre,
    {
        (self.major, self.minor, self.patch, PreOrder(clone_ids(&self.pre)))
    }
}

// ---------------------------------------------------------------------------
// Facts about runs.
// ---------------------------------------------------------------------------

/// Every character of a run has the kind of its first character.
pub(crate) proof fn lemma_run_uniform(s: Seq<char>, start: int, k: int)
    requires
        0 <= start < s.len(),
        start <= k < run_end(s, start),
    ensures
        is_digit_char(s[k]) == is_digit_char(s[start]),
        run_end(s, start) <= s.len(),
    decreases k - start,
{
    if k > start {
        lemma_run_uniform(s, start, k - 1);
        lemma_run_step(s, start, k);
    } else {
        lemma_run_bounds(s, start);
    }
}

pub(crate) proof fn lemma_run_bounds(s: Seq<char>, start: int)
    requires
        0 <= start < s.len(),
    ensures
        start < run_end(s, start) <= s.len(),
    decreases s.len() - start,
{
    if start + 1 < s.len() && is_digit_char(s[start + 1]) == is_digit_char(s[start]) {
        lemma_run_bounds(s, start + 1);
    }
}

proof fn lemma_run_step(s: Seq<char>, start: int, k: int)
    requires
        0 <= start < s.len(),
        start < k < run_end(s, start),
        is_digit_char(s[k - 1]) == is_digit_char(s[start]),
    ensures
        is_digit_char(s[k]) == is_digit_char(s[start]),
    decreases k - start,
{
    if k == start + 1 {
        lemma_run_bounds(s, start);
    } else {
        lemma_run_step(s, start + 1, k);
    }
}

} // verus!
