//! Parsing of version literals and requirement expressions.
//!
//! The grammar is specified by index functions over the input character
//! sequence; the executable parser is proved to accept exactly the strings
//! those functions accept, and to return values that render back to what
//! was consumed.

use vstd::prelude::*;

use crate::version::{
    digit_val, is_digit_char, is_id_char, is_build_char, num_val, dec_str, id_str, wf_id,
    wf_version, version_str, ids_suffix_str, pre_str, build_str, Identifier, IdView, Version,
    VersionView, version_eq, version_le, version_lt, lemma_num_val_nonneg, lemma_num_val_prefix,
    is_digit_exec, digits_to_num,
};
use crate::version::interval::{member, Edge, Interval, Intervals};

verus! {

/// Why an input was rejected.
#[derive(Debug, Clone, PartialEq, Eq)]
pub enum Error {
    /// The input ended where the grammar requires more.
    UnexpectedEnd,
    /// A character the grammar does not allow at this position.
    UnexpectedChar(char),
    /// A numeric component with a forbidden leading zero.
    LeadingZero,
    /// A numeric component too large for 32 bits.
    NumberOverflow,
    /// A `~>` requirement with only a major component.
    PessimisticArity,
    /// Input left over after a complete literal; holds the remainder.
    MoreInput(String),
}

// ---------------------------------------------------------------------------
// The grammar, as index functions.
// ---------------------------------------------------------------------------

/// End of the digit run starting at `i`.
pub open spec fn digits_end(s: Seq<char>, i: int) -> int
    decreases s.len() - i,
{
    if i < 0 || i >= s.len() || !is_digit_char(s[i]) {
        i
    } else {
        digits_end(s, i + 1)
    }
}

/// End of the identifier-character run starting at `i`.
pub open spec fn id_chars_end(s: Seq<char>, i: int) -> int
    decreases s.len() - i,
{
    if i < 0 || i >= s.len() || !is_id_char(s[i]) {
        i
    } else {
        id_chars_end(s, i + 1)
    }
}

/// End of the build-character run starting at `i`.
pub open spec fn build_chars_end(s: Seq<char>, i: int) -> int
    decreases s.len() - i,
{
    if i < 0 || i >= s.len() || !is_build_char(s[i]) {
        i
    } else {
        build_chars_end(s, i + 1)
    }
}

/// A valid numeric token at `[i, e)`: non-empty, no leading zero, fits in
/// 32 bits.
pub open spec fn num_token_ok(s: Seq<char>, i: int, e: int) -> bool {
    e > i && (e - i == 1 || s[i] != '0') && num_val(s.subrange(i, e)) < 4294967296
}

pub open spec fn all_digits(s: Seq<char>, i: int, e: int) -> bool {
    forall|k: int| i <= k < e ==> is_digit_char(#[trigger] s[k])
}

/// A valid pre-release identifier token at `[i, e)`: non-empty, and if it
/// is a pure decimal it must have no leading zero and fit in 32 bits.
pub open spec fn id_token_ok(s: Seq<char>, i: int, e: int) -> bool {
    e > i && (all_digits(s, i, e) ==> ((e - i == 1 || s[i] != '0') && num_val(s.subrange(i, e))
        < 4294967296))
}

/// End of a `ID ("." ID)*` pre-release list starting at `i`, or -1.
pub open spec fn pre_ids_end(s: Seq<char>, i: int) -> int
    decreases s.len() - i,
    via pre_ids_end_decreases
{
    if i < 0 || i > s.len() {
        -1
    } else {
        let e = id_chars_end(s, i);
        if !id_token_ok(s, i, e) {
            -1
        } else if e < s.len() && s[e] == '.' {
            pre_ids_end(s, e + 1)
        } else {
            e
        }
    }
}

#[via_fn]
proof fn pre_ids_end_decreases(s: Seq<char>, i: int) {
    if 0 <= i <= s.len() {
        lemma_id_chars_end_bounds(s, i);
    }
}

/// End of a full version literal `INT "." INT "." INT (- PRE)? (+ BUILD)?`
/// starting at `i`, or -1.
pub open spec fn version_lit_end(s: Seq<char>, i: int) -> int {
    let e1 = digits_end(s, i);
    if !num_token_ok(s, i, e1) || !(e1 < s.len() && s[e1] == '.') {
        -1
    } else {
        let e2 = digits_end(s, e1 + 1);
        if !num_token_ok(s, e1 + 1, e2) || !(e2 < s.len() && s[e2] == '.') {
            -1
        } else {
            let e3 = digits_end(s, e2 + 1);
            if !num_token_ok(s, e2 + 1, e3) {
                -1
            } else {
                let p = if e3 < s.len() && s[e3] == '-' {
                    pre_ids_end(s, e3 + 1)
                } else {
                    e3
                };
                lit_end_from_pre(s, p)
            }
        }
    }
}

/// The identifier value at `[i, id_chars_end(s, i))`: a pure decimal run
/// is numeric, anything else is alphanumeric.
pub open spec fn id_view_at(s: Seq<char>, i: int) -> IdView {
    let e = id_chars_end(s, i);
    if all_digits(s, i, e) {
        IdView::Num(num_val(s.subrange(i, e)))
    } else {
        IdView::Alpha(s.subrange(i, e))
    }
}

/// The values of the `ID ("." ID)*` list starting at `i`.
pub open spec fn pre_ids_views(s: Seq<char>, i: int) -> Seq<IdView>
    decreases s.len() - i,
    via pre_ids_views_decreases
{
    if i < 0 || i > s.len() {
        Seq::empty()
    } else {
        let e = id_chars_end(s, i);
        if e <= i {
            Seq::empty()
        } else if e < s.len() && s[e] == '.' {
            seq![id_view_at(s, i)] + pre_ids_views(s, e + 1)
        } else {
            seq![id_view_at(s, i)]
        }
    }
}

#[via_fn]
proof fn pre_ids_views_decreases(s: Seq<char>, i: int) {
    if 0 <= i <= s.len() {
        lemma_id_chars_end_bounds(s, i);
    }
}

/// The end of a version literal, given where its pre-release part ended:
/// either the literal ends there, or a non-empty build part follows.
pub open spec fn lit_end_from_pre(s: Seq<char>, p: int) -> int {
    if p == -1 {
        -1
    } else if p < s.len() && s[p] == '+' {
        let b = build_chars_end(s, p + 1);
        if b == p + 1 {
            -1
        } else {
            b
        }
    } else {
        p
    }
}

// ---------------------------------------------------------------------------
// The requirement grammar: operators, partial literals, `and` / `or`.
// ---------------------------------------------------------------------------

/// A comparison operator of the requirement grammar. A missing operator
/// means `Exact`.
#[derive(Clone, Copy, PartialEq, Eq, Debug)]
pub enum RangeOp {
    Exact,
    Neq,
    Gt,
    Gte,
    Lt,
    Lte,
    Pessimistic,
}

pub open spec fn is_ws(c: char) -> bool {
    c == ' ' || c == '\t' || c == '\n' || c == '\r'
}

/// End of the whitespace run starting at `i`.
pub open spec fn ws_end(s: Seq<char>, i: int) -> int
    decreases s.len() - i,
{
    if i < 0 || i >= s.len() || !is_ws(s[i]) {
        i
    } else {
        ws_end(s, i + 1)
    }
}

/// The operator written at `i`, and how many characters it takes.
pub open spec fn op_at(s: Seq<char>, i: int) -> (RangeOp, int) {
    if i < 0 || i >= s.len() {
        (RangeOp::Exact, 0)
    } else if i + 1 < s.len() && s[i] == '=' && s[i + 1] == '=' {
        (RangeOp::Exact, 2)
    } else if i + 1 < s.len() && s[i] == '!' && s[i + 1] == '=' {
        (RangeOp::Neq, 2)
    } else if i + 1 < s.len() && s[i] == '>' && s[i + 1] == '=' {
        (RangeOp::Gte, 2)
    } else if i + 1 < s.len() && s[i] == '<' && s[i + 1] == '=' {
        (RangeOp::Lte, 2)
    } else if i + 1 < s.len() && s[i] == '~' && s[i + 1] == '>' {
        (RangeOp::Pessimistic, 2)
    } else if s[i] == '>' {
        (RangeOp::Gt, 1)
    } else if s[i] == '<' {
        (RangeOp::Lt, 1)
    } else {
        (RangeOp::Exact, 0)
    }
}

/// End of a version literal of one, two or three components starting at
/// `i`, or -1. Pre-release and build parts are only allowed after all
/// three components.
pub open spec fn partial_end(s: Seq<char>, i: int) -> int {
    let e1 = digits_end(s, i);
    if !num_token_ok(s, i, e1) {
        -1
    } else if e1 < s.len() && s[e1] == '.' {
        let e2 = digits_end(s, e1 + 1);
        if !num_token_ok(s, e1 + 1, e2) {
            -1
        } else if e2 < s.len() && s[e2] == '.' {
            version_lit_end(s, i)
        } else {
            e2
        }
    } else {
        e1
    }
}

/// How many components the literal at `i` has.
pub open spec fn partial_arity(s: Seq<char>, i: int) -> int {
    let e1 = digits_end(s, i);
    if e1 < s.len() && s[e1] == '.' {
        let e2 = digits_end(s, e1 + 1);
        if e2 < s.len() && s[e2] == '.' {
            3
        } else {
            2
        }
    } else {
        1
    }
}

/// The version value of the literal at `i`; missing components are zero.
pub open spec fn bound_view_at(s: Seq<char>, i: int) -> VersionView {
    let e1 = digits_end(s, i);
    let major = num_val(s.subrange(i, e1));
    if !(e1 < s.len() && s[e1] == '.') {
        VersionView { major, minor: 0, patch: 0, pre: Seq::empty(), build: Option::None }
    } else {
        let e2 = digits_end(s, e1 + 1);
        let minor = num_val(s.subrange(e1 + 1, e2));
        if !(e2 < s.len() && s[e2] == '.') {
            VersionView { major, minor, patch: 0, pre: Seq::empty(), build: Option::None }
        } else {
            let e3 = digits_end(s, e2 + 1);
            let patch = num_val(s.subrange(e2 + 1, e3));
            let pre = if e3 < s.len() && s[e3] == '-' {
                pre_ids_views(s, e3 + 1)
            } else {
                Seq::empty()
            };
            let p = if e3 < s.len() && s[e3] == '-' {
                pre_ids_end(s, e3 + 1)
            } else {
                e3
            };
            let build = if p != -1 && p < s.len() && s[p] == '+' {
                Option::Some(s.subrange(p + 1, build_chars_end(s, p + 1)))
            } else {
                Option::None
            };
            VersionView { major, minor, patch, pre, build }
        }
    }
}

/// The first version the compatible-range upper bound excludes: the next
/// minor for a three-component bound, the next major otherwise.
pub open spec fn pess_upper(b: VersionView, has_patch: bool) -> VersionView {
    if has_patch {
        VersionView { major: b.major, minor: b.minor + 1, patch: 0, pre: Seq::empty(), build: Option::None }
    } else {
        VersionView { major: b.major + 1, minor: 0, patch: 0, pre: Seq::empty(), build: Option::None }
    }
}

/// What a single requirement atom with operator `op`, bound `b` and the
/// given arity accepts. Unless the bound itself is a pre-release (or the
/// operator is `!=`, which excludes exactly its bound), pre-release
/// versions never satisfy an atom.
pub open spec fn atom_allows(op: RangeOp, b: VersionView, has_patch: bool, v: VersionView) -> bool {
    let base = match op {
        RangeOp::Exact => version_eq(v, b),
        RangeOp::Neq => !version_eq(v, b),
        RangeOp::Gt => version_lt(b, v),
        RangeOp::Gte => version_le(b, v),
        RangeOp::Lt => version_lt(v, b),
        RangeOp::Lte => version_le(v, b),
        RangeOp::Pessimistic => version_le(b, v) && version_lt(v, pess_upper(b, has_patch)),
    };
    match op {
        RangeOp::Neq => base,
        _ => base && (b.pre.len() > 0 || v.pre.len() == 0),
    }
}

/// Where the literal of the atom at `i` starts.
pub open spec fn atom_lit_start(s: Seq<char>, i: int) -> int {
    ws_end(s, i + op_at(s, i).1)
}

/// End of the requirement atom starting at `i`, or -1: an optional
/// operator, optional whitespace, and a version literal. A `~>` needs at
/// least two components, and its upper bound must stay within 32 bits.
pub open spec fn atom_end(s: Seq<char>, i: int) -> int {
    let (op, _) = op_at(s, i);
    let w = atom_lit_start(s, i);
    let e = partial_end(s, w);
    if e == -1 {
        -1
    } else if op == RangeOp::Pessimistic && partial_arity(s, w) == 1 {
        -1
    } else if op == RangeOp::Pessimistic && partial_arity(s, w) == 3 && bound_view_at(s, w).minor
        >= 4294967295 {
        -1
    } else if op == RangeOp::Pessimistic && partial_arity(s, w) == 2 && bound_view_at(s, w).major
        >= 4294967295 {
        -1
    } else {
        e
    }
}

/// What the atom at `i` accepts.
pub open spec fn atom_sem(s: Seq<char>, i: int, v: VersionView) -> bool {
    let (op, _) = op_at(s, i);
    let w = atom_lit_start(s, i);
    atom_allows(op, bound_view_at(s, w), partial_arity(s, w) == 3, v)
}

pub open spec fn and_kw() -> Seq<char> {
    seq!['a', 'n', 'd']
}

pub open spec fn or_kw() -> Seq<char> {
    seq!['o', 'r']
}

/// Whether the rest of a requirement, after an atom that ended at `i`, is
/// well formed: optional trailing whitespace, or whitespace, a keyword and
/// another atom.
pub open spec fn range_rest_ok(s: Seq<char>, i: int) -> bool
    decreases s.len() - i,
{
    if i < 0 || i > s.len() {
        false
    } else {
        let w = ws_end(s, i);
        if w >= s.len() {
            true
        } else if w <= i {
            false
        } else {
            let k = id_chars_end(s, w);
            if s.subrange(w, k) == and_kw() || s.subrange(w, k) == or_kw() {
                let w2 = ws_end(s, k);
                let e = atom_end(s, w2);
                if e == -1 {
                    false
                } else {
                    range_rest_ok(s, next_pos(s, i, e))
                }
            } else {
                false
            }
        }
    }
}

/// The position the combinator recursion continues at; in every accepted
/// input this is exactly `e`.
pub open spec fn next_pos(s: Seq<char>, i: int, e: int) -> int {
    if i < e <= s.len() {
        e
    } else {
        s.len() as int
    }
}

/// What the rest of a requirement evaluates to for `v`, where `cur` is the
/// value of the `and`-chain read so far: `and` binds tighter than `or`.
pub open spec fn range_rest_sem(s: Seq<char>, i: int, cur: bool, v: VersionView) -> bool
    decreases s.len() - i,
{
    if i < 0 || i > s.len() {
        cur
    } else {
        let w = ws_end(s, i);
        if w >= s.len() || w <= i {
            cur
        } else {
            let k = id_chars_end(s, w);
            let w2 = ws_end(s, k);
            let e = atom_end(s, w2);
            if e == -1 {
                cur
            } else if s.subrange(w, k) == and_kw() {
                range_rest_sem(s, next_pos(s, i, e), cur && atom_sem(s, w2, v), v)
            } else if s.subrange(w, k) == or_kw() {
                cur || range_rest_sem(s, next_pos(s, i, e), atom_sem(s, w2, v), v)
            } else {
                cur
            }
        }
    }
}

/// Whether a whole requirement string is well formed.
pub open spec fn range_accepted(s: Seq<char>) -> bool {
    let w = ws_end(s, 0);
    let e = atom_end(s, w);
    e != -1 && range_rest_ok(s, e)
}

/// The set of versions a whole requirement accepts.
pub open spec fn range_sem(s: Seq<char>, v: VersionView) -> bool {
    let w = ws_end(s, 0);
    let e = atom_end(s, w);
    range_rest_sem(s, e, atom_sem(s, w, v), v)
}

// ---------------------------------------------------------------------------
// Facts about the index functions.
// ---------------------------------------------------------------------------

pub proof fn lemma_ws_end_bounds(s: Seq<char>, i: int)
    requires
        0 <= i <= s.len(),
    ensures
        i <= ws_end(s, i) <= s.len(),
    decreases s.len() - i,
{
    if i < s.len() && is_ws(s[i]) {
        lemma_ws_end_bounds(s, i + 1);
    }
}

/// An accepted atom ends after where it starts and within the input.
pub proof fn lemma_atom_end_bounds(s: Seq<char>, i: int)
    requires
        0 <= i <= s.len(),
        atom_end(s, i) != -1,
    ensures
        i < atom_end(s, i) <= s.len(),
{
    let (op, ol) = op_at(s, i);
    assert(0 <= ol <= 2);
    assert(i + ol <= s.len());
    lemma_ws_end_bounds(s, i + ol);
    let w = atom_lit_start(s, i);
    let e1 = digits_end(s, w);
    lemma_digits_end_bounds(s, w);
    let e = partial_end(s, w);
    if e1 < s.len() && s[e1] == '.' {
        let e2 = digits_end(s, e1 + 1);
        lemma_digits_end_bounds(s, e1 + 1);
        if e2 < s.len() && s[e2] == '.' {
            lemma_version_lit_end_bounds(s, w);
        }
    }
}

/// An accepted full literal ends after where it starts and within the
/// input.
pub proof fn lemma_version_lit_end_bounds(s: Seq<char>, i: int)
    requires
        0 <= i <= s.len(),
        version_lit_end(s, i) != -1,
    ensures
        i < version_lit_end(s, i) <= s.len(),
{
    let e1 = digits_end(s, i);
    lemma_digits_end_bounds(s, i);
    let e2 = digits_end(s, e1 + 1);
    lemma_digits_end_bounds(s, e1 + 1);
    let e3 = digits_end(s, e2 + 1);
    lemma_digits_end_bounds(s, e2 + 1);
    let p = if e3 < s.len() && s[e3] == '-' {
        pre_ids_end(s, e3 + 1)
    } else {
        e3 as int
    };
    if e3 < s.len() && s[e3] == '-' {
        lemma_pre_ids_end_bounds(s, e3 + 1);
    }
    if p != -1 {
        if p < s.len() && s[p] == '+' {
            lemma_build_chars_end_bounds(s, p + 1);
        }
    }
}

/// An accepted pre-release list ends after where it starts and within the
/// input.
pub proof fn lemma_pre_ids_end_bounds(s: Seq<char>, i: int)
    requires
        0 <= i <= s.len(),
        pre_ids_end(s, i) != -1,
    ensures
        i < pre_ids_end(s, i) <= s.len(),
    decreases s.len() - i,
{
    let e = id_chars_end(s, i);
    lemma_id_chars_end_bounds(s, i);
    if id_token_ok(s, i, e) && e < s.len() && s[e] == '.' {
        lemma_pre_ids_end_bounds(s, e + 1);
    }
}

// ---------------------------------------------------------------------------
// More facts about the index functions.
// ---------------------------------------------------------------------------

pub proof fn lemma_digits_end_bounds(s: Seq<char>, i: int)
    requires
        0 <= i <= s.len(),
    ensures
        i <= digits_end(s, i) <= s.len(),
        all_digits(s, i, digits_end(s, i)),
        digits_end(s, i) < s.len() ==> !is_digit_char(s[digits_end(s, i)]),
    decreases s.len() - i,
{
    if i < s.len() && is_digit_char(s[i]) {
        lemma_digits_end_bounds(s, i + 1);
    }
}

pub proof fn lemma_id_chars_end_bounds(s: Seq<char>, i: int)
    requires
        0 <= i <= s.len(),
    ensures
        i <= id_chars_end(s, i) <= s.len(),
        forall|k: int| i <= k < id_chars_end(s, i) ==> is_id_char(#[trigger] s[k]),
        id_chars_end(s, i) < s.len() ==> !is_id_char(s[id_chars_end(s, i)]),
    decreases s.len() - i,
{
    if i < s.len() && is_id_char(s[i]) {
        lemma_id_chars_end_bounds(s, i + 1);
    }
}

pub proof fn lemma_build_chars_end_bounds(s: Seq<char>, i: int)
    requires
        0 <= i <= s.len(),
    ensures
        i <= build_chars_end(s, i) <= s.len(),
        forall|k: int| i <= k < build_chars_end(s, i) ==> is_build_char(#[trigger] s[k]),
        build_chars_end(s, i) < s.len() ==> !is_build_char(s[build_chars_end(s, i)]),
    decreases s.len() - i,
{
    if i < s.len() && is_build_char(s[i]) {
        lemma_build_chars_end_bounds(s, i + 1);
    }
}

/// Decimal rendering undoes the numeric value of a digit string without a
/// leading zero.
pub proof fn lemma_dec_of_num(d: Seq<char>)
    requires
        d.len() > 0,
        forall|k: int| 0 <= k < d.len() ==> is_digit_char(#[trigger] d[k]),
        d.len() > 1 ==> d[0] != '0',
    ensures
        dec_str(num_val(d)) == d,
        num_val(d) >= 0,
    decreases d.len(),
{
    let n = num_val(d);
    lemma_num_val_nonneg(d);
    if d.len() == 1 {
        assert(0 <= digit_val(d[0]) < 10);
        assert(n == num_val(d.take(0)) * 10 + digit_val(d[0]));
        assert(num_val(d.take(0)) == 0);
        assert(dec_str(n) =~= seq![digit_char_of(d[0])]);
        lemma_digit_char_inverse(d[0]);
        assert(dec_str(n) =~= d);
    } else {
        let front = d.take(d.len() - 1);
        assert(front[0] == d[0]);
        lemma_dec_of_num(front);
        lemma_num_val_first_digit(front);
        let dv = digit_val(d[d.len() - 1]);
        assert(0 <= dv < 10);
        assert(n == num_val(front) * 10 + dv);
        assert(num_val(front) >= 1);
        assert(n >= 10);
        assert(n / 10 == num_val(front) && n % 10 == dv) by (nonlinear_arith)
            requires
                n == num_val(front) * 10 + dv,
                0 <= dv < 10,
                num_val(front) >= 0,
        ;
        lemma_digit_char_inverse(d[d.len() - 1]);
        assert(dec_str(n) == dec_str(num_val(front)) + seq![crate::version::digit_char(dv)]);
        assert(dec_str(n) =~= d);
    }
}

/// Spec-level alias so the proof above can speak of the digit character of
/// a digit.
pub open spec fn digit_char_of(c: char) -> char {
    crate::version::digit_char(digit_val(c))
}

proof fn lemma_digit_char_inverse(c: char)
    requires
        is_digit_char(c),
    ensures
        crate::version::digit_char(digit_val(c)) == c,
{
    vstd::utf8::char_u32_cast(c, c as u32);
    if c as u32 == 48 {
        assert(('0' as u32) as char == '0');
        assert(c == '0');
    } else if c as u32 == 49 {
        assert(c == '1');
    } else if c as u32 == 50 {
        assert(c == '2');
    } else if c as u32 == 51 {
        assert(c == '3');
    } else if c as u32 == 52 {
        assert(c == '4');
    } else if c as u32 == 53 {
        assert(c == '5');
    } else if c as u32 == 54 {
        assert(c == '6');
    } else if c as u32 == 55 {
        assert(c == '7');
    } else if c as u32 == 56 {
        assert(c == '8');
    } else {
        assert(c == '9');
    }
}

/// A digit string that does not start with `0` has a positive value.
proof fn lemma_num_val_first_digit(d: Seq<char>)
    requires
        d.len() > 0,
        forall|k: int| 0 <= k < d.len() ==> is_digit_char(#[trigger] d[k]),
        d[0] != '0',
    ensures
        num_val(d) >= 1,
    decreases d.len(),
{
    vstd::utf8::char_u32_cast(d[0], d[0] as u32);
    vstd::utf8::char_u32_cast('0', '0' as u32);
    assert(d[0] as u32 != '0' as u32);
    assert(digit_val(d[0]) >= 1);
    assert(num_val(d) == num_val(d.take(d.len() - 1)) * 10 + digit_val(d[d.len() - 1]));
    if d.len() == 1 {
        assert(d.take(0).len() == 0);
        assert(num_val(d.take(0)) == 0);
    } else {
        let front = d.take(d.len() - 1);
        assert(front[0] == d[0]);
        lemma_num_val_first_digit(front);
        assert(0 <= digit_val(d[d.len() - 1]));
    }
}

// ---------------------------------------------------------------------------
// Executable scanners.
// ---------------------------------------------------------------------------

/// End of the digit run starting at `i`.
fn scan_digits(s: &str, n: usize, i: usize) -> (e: usize)
    requires
        n == s@.len(),
        i <= n,
    ensures
        e == digits_end(s@, i as int),
        i <= e <= n,
{
    let mut j: usize = i;
    while j < n && is_digit_exec(s.get_char(j))
        invariant
            i <= j <= n,
            n == s@.len(),
            digits_end(s@, i as int) == digits_end(s@, j as int),
        decreases n - j,
    {
        j = j + 1;
    }
    j
}

fn is_id_char_exec(c: char) -> (r: bool)
    ensures
        r == is_id_char(c),
{
    let u = c as u32;
    (48 <= u && u <= 57) || (65 <= u && u <= 90) || (97 <= u && u <= 122) || c == '-'
}

fn is_build_char_exec(c: char) -> (r: bool)
    ensures
        r == is_build_char(c),
{
    is_id_char_exec(c) || c == '.'
}

/// End of the identifier-character run starting at `i`.
fn scan_id_chars(s: &str, n: usize, i: usize) -> (e: usize)
    requires
        n == s@.len(),
        i <= n,
    ensures
        e == id_chars_end(s@, i as int),
        i <= e <= n,
{
    let mut j: usize = i;
    while j < n && is_id_char_exec(s.get_char(j))
        invariant
            i <= j <= n,
            n == s@.len(),
            id_chars_end(s@, i as int) == id_chars_end(s@, j as int),
        decreases n - j,
    {
        j = j + 1;
    }
    j
}

/// End of the build-character run starting at `i`.
fn scan_build_chars(s: &str, n: usize, i: usize) -> (e: usize)
    requires
        n == s@.len(),
        i <= n,
    ensures
        e == build_chars_end(s@, i as int),
        i <= e <= n,
{
    let mut j: usize = i;
    while j < n && is_build_char_exec(s.get_char(j))
        invariant
            i <= j <= n,
            n == s@.len(),
            build_chars_end(s@, i as int) == build_chars_end(s@, j as int),
        decreases n - j,
    {
        j = j + 1;
    }
    j
}

/// Parse the numeric token starting at `i`.
fn parse_num(s: &str, n: usize, i: usize) -> (r: Result<(u32, usize), Error>)
    requires
        n == s@.len(),
        i <= n,
    ensures
        match r {
            Result::Ok((v, e)) => {
                &&& e == digits_end(s@, i as int)
                &&& num_token_ok(s@, i as int, e as int)
                &&& v == num_val(s@.subrange(i as int, e as int))
                &&& dec_str(v as int) == s@.subrange(i as int, e as int)
                &&& i < e <= n
            },
            Result::Err(_) => !num_token_ok(s@, i as int, digits_end(s@, i as int)),
        },
{
    let e = scan_digits(s, n, i);
    proof {
        lemma_digits_end_bounds(s@, i as int);
    }
    if e == i {
        if i < n {
            return Result::Err(Error::UnexpectedChar(s.get_char(i)));
        }
        return Result::Err(Error::UnexpectedEnd);
    }
    if e - i > 1 && s.get_char(i) == '0' {
        return Result::Err(Error::LeadingZero);
    }
    let ghost d = s@.subrange(i as int, e as int);
    // Detect overflow before it can happen.
    let mut v: u32 = 0;
    let mut j: usize = i;
    assert(d.take(0) =~= Seq::<char>::empty());
    while j < e
        invariant
            i <= j <= e <= n,
            n == s@.len(),
            e == digits_end(s@, i as int),
            d == s@.subrange(i as int, e as int),
            all_digits(s@, i as int, e as int),
            v == num_val(d.take(j - i)),
            num_val(d.take(j - i)) < 4294967296,
        decreases e - j,
    {
        let c = s.get_char(j);
        assert(c == d[j - i]);
        let dv = (c as u32) - 48;
        assert(dv == digit_val(d[j - i]) && dv < 10);
        proof {
            assert(forall|k: int| 0 <= k < d.len() ==> is_digit_char(#[trigger] d[k]));
            assert(d.take(j + 1 - i).take(j - i) =~= d.take(j - i));
            assert(num_val(d.take(j + 1 - i)) == num_val(d.take(j - i)) * 10 + digit_val(
                d[j - i],
            ));
        }
        if v > 429496729 || (v == 429496729 && dv > 5) {
            proof {
                assert(num_val(d.take(j + 1 - i)) >= 4294967296);
                lemma_num_val_prefix(d, j + 1 - i);
                assert(num_val(d) >= 4294967296);
                assert(!num_token_ok(s@, i as int, e as int));
            }
            return Result::Err(Error::NumberOverflow);
        }
        v = v * 10 + dv;
        j = j + 1;
    }
    assert(d.take(e - i) =~= d);
    proof {
        if d.len() > 1 {
            assert(d[0] == s@[i as int]);
        }
        lemma_dec_of_num(d);
    }
    Result::Ok((v, e))
}

/// The digit run never outruns the identifier run.
proof fn lemma_digits_within_id_chars(s: Seq<char>, i: int)
    requires
        0 <= i <= s.len(),
    ensures
        digits_end(s, i) <= id_chars_end(s, i),
    decreases s.len() - i,
{
    lemma_id_chars_end_bounds(s, i);
    if i < s.len() && is_digit_char(s[i]) {
        assert(is_id_char(s[i]));
        lemma_digits_within_id_chars(s, i + 1);
    }
}

/// Appending an identifier to a rendered list appends a dot and its text.
proof fn lemma_suffix_push(ids: Seq<IdView>, x: IdView, j: int)
    requires
        0 <= j <= ids.len(),
    ensures
        ids_suffix_str(ids.push(x), j) == if j == ids.len() {
            id_str(x)
        } else {
            ids_suffix_str(ids, j) + seq!['.'] + id_str(x)
        },
    decreases ids.len() - j,
{
    let p = ids.push(x);
    assert(p.len() == ids.len() + 1);
    if j == ids.len() {
        assert(p[j] == x);
    } else {
        lemma_suffix_push(ids, x, j + 1);
        assert(p[j] == ids[j]);
        if j == ids.len() - 1 {
            assert(ids_suffix_str(ids, j) == id_str(ids[j]));
            assert(ids_suffix_str(p, j) == id_str(p[j]) + seq!['.'] + ids_suffix_str(p, j + 1));
        } else {
            assert(ids_suffix_str(p, j) == id_str(p[j]) + seq!['.'] + ids_suffix_str(p, j + 1));
            assert(ids_suffix_str(ids, j) == id_str(ids[j]) + seq!['.'] + ids_suffix_str(
                ids,
                j + 1,
            ));
            assert(ids_suffix_str(p, j) =~= ids_suffix_str(ids, j) + seq!['.'] + id_str(x));
        }
    }
}

/// Parse the pre-release identifier starting at `i`.
fn parse_id_token(s: &str, n: usize, i: usize) -> (r: Result<(Identifier, usize), Error>)
    requires
        n == s@.len(),
        i <= n,
    ensures
        match r {
            Result::Ok((id, e)) => {
                &&& e == id_chars_end(s@, i as int)
                &&& id_token_ok(s@, i as int, e as int)
                &&& wf_id(id@)
                &&& id_str(id@) == s@.subrange(i as int, e as int)
                &&& id@ == id_view_at(s@, i as int)
                &&& i < e <= n
            },
            Result::Err(_) => !id_token_ok(s@, i as int, id_chars_end(s@, i as int)),
        },
{
    let e = scan_id_chars(s, n, i);
    proof {
        lemma_id_chars_end_bounds(s@, i as int);
        lemma_digits_within_id_chars(s@, i as int);
        lemma_digits_end_bounds(s@, i as int);
    }
    if e == i {
        if i < n {
            return Result::Err(Error::UnexpectedChar(s.get_char(i)));
        }
        return Result::Err(Error::UnexpectedEnd);
    }
    let d_end = scan_digits(s, n, i);
    if d_end == e {
        // A pure decimal: it must be a canonical number.
        match parse_num(s, n, i) {
            Result::Ok((v, e2)) => {
                assert(e2 == e);
                let id = Identifier::Numeric(v);
                assert(id@ == id_view_at(s@, i as int));
                Result::Ok((id, e))
            },
            Result::Err(err) => {
                assert(!id_token_ok(s@, i as int, e as int));
                Result::Err(err)
            },
        }
    } else {
        // Not a pure decimal: take it verbatim.
        assert(d_end < e);
        assert(!is_digit_char(s@[d_end as int]));
        let piece = s.substring_char(i, e).to_owned();
        let id = Identifier::AlphaNumeric(piece);
        proof {
            let sub = s@.subrange(i as int, e as int);
            assert(sub[d_end - i] == s@[d_end as int]);
            assert(!all_digits(s@, i as int, e as int));
            assert forall|k: int| 0 <= k < sub.len() implies is_id_char(#[trigger] sub[k]) by {
                assert(sub[k] == s@[i + k]);
            }
            assert(!is_digit_char(sub[d_end - i]));
            assert(id@ == id_view_at(s@, i as int));
        }
        Result::Ok((id, e))
    }
}

/// Parse a full version literal starting at `i`; on success the returned
/// version is well formed and renders exactly to the consumed text.
#[verifier::rlimit(60)]
pub(crate) fn parse_version_at(s: &str, n: usize, i: usize) -> (r: Result<(Version, usize), Error>)
    requires
        n == s@.len(),
        i <= n,
    ensures
        match r {
            Result::Ok((v, e)) => {
                &&& version_lit_end(s@, i as int) == e
                &&& wf_version(v@)
                &&& version_str(v@) == s@.subrange(i as int, e as int)
                &&& v@ == bound_view_at(s@, i as int)
                &&& i < e <= n
            },
            Result::Err(_) => version_lit_end(s@, i as int) == -1,
        },
{
    let (major, e1) = match parse_num(s, n, i) {
        Result::Ok(x) => x,
        Result::Err(err) => {
            return Result::Err(err);
        },
    };
    if e1 >= n {
        return Result::Err(Error::UnexpectedEnd);
    }
    if s.get_char(e1) != '.' {
        return Result::Err(Error::UnexpectedChar(s.get_char(e1)));
    }
    let (minor, e2) = match parse_num(s, n, e1 + 1) {
        Result::Ok(x) => x,
        Result::Err(err) => {
            return Result::Err(err);
        },
    };
    if e2 >= n {
        return Result::Err(Error::UnexpectedEnd);
    }
    if s.get_char(e2) != '.' {
        return Result::Err(Error::UnexpectedChar(s.get_char(e2)));
    }
    let (patch, e3) = match parse_num(s, n, e2 + 1) {
        Result::Ok(x) => x,
        Result::Err(err) => {
            return Result::Err(err);
        },
    };

    let mut pre: Vec<Identifier> = Vec::new();
    let mut p: usize = e3;
    if e3 < n && s.get_char(e3) == '-' {
        let ghost pre_start = e3 + 1;
        let mut j: usize = e3 + 1;
        assert(version_lit_end(s@, i as int) == lit_end_from_pre(
            s@,
            pre_ids_end(s@, pre_start as int),
        ));
        loop
            invariant_except_break
                pre@.len() == 0 ==> j == pre_start,
                pre@.len() > 0 ==> ids_suffix_str(
                    pre@.map_values(|id: Identifier| id@),
                    0,
                ) + seq!['.'] =~= s@.subrange(pre_start as int, j as int),
                pre_ids_views(s@, pre_start as int) =~= pre@.map_values(|id: Identifier| id@)
                    + pre_ids_views(s@, j as int),
            invariant
                e3 + 1 <= j <= n,
                n == s@.len(),
                pre_start == e3 + 1,
                version_lit_end(s@, i as int) == lit_end_from_pre(
                    s@,
                    pre_ids_end(s@, pre_start as int),
                ),
                pre_ids_end(s@, pre_start as int) == pre_ids_end(s@, j as int),
                forall|k: int| 0 <= k < pre@.len() ==> wf_id(#[trigger] pre@[k]@),
            ensures
                pre@.len() > 0,
                pre_start <= p <= n,
                pre_ids_end(s@, pre_start as int) == p,
                pre_ids_views(s@, pre_start as int) =~= pre@.map_values(|id: Identifier| id@),
                ids_suffix_str(pre@.map_values(|id: Identifier| id@), 0) =~= s@.subrange(
                    pre_start as int,
                    p as int,
                ),
            decreases n - j,
        {
            let (id, e) = match parse_id_token(s, n, j) {
                Result::Ok(x) => x,
                Result::Err(err) => {
                    return Result::Err(err);
                },
            };
            let ghost old_ids = pre@.map_values(|id2: Identifier| id2@);
            pre.push(id);
            proof {
                let new_ids = pre@.map_values(|id2: Identifier| id2@);
                assert(new_ids =~= old_ids.push(id@));
                assert(pre_ids_views(s@, j as int) == seq![id_view_at(s@, j as int)]
                    + pre_ids_views(s@, e + 1) || pre_ids_views(s@, j as int) == seq![
                    id_view_at(s@, j as int),
                ]);
                lemma_suffix_push(old_ids, id@, 0);
                if old_ids.len() == 0 {
                    assert(ids_suffix_str(new_ids, 0) == id_str(id@));
                    assert(ids_suffix_str(new_ids, 0) =~= s@.subrange(
                        pre_start as int,
                        e as int,
                    ));
                } else {
                    assert(ids_suffix_str(new_ids, 0) == ids_suffix_str(old_ids, 0)
                        + seq!['.'] + id_str(id@));
                    assert(s@.subrange(pre_start as int, j as int) + s@.subrange(
                        j as int,
                        e as int,
                    ) =~= s@.subrange(pre_start as int, e as int));
                    assert(ids_suffix_str(new_ids, 0) =~= s@.subrange(
                        pre_start as int,
                        e as int,
                    ));
                }
            }
            if e < n && s.get_char(e) == '.' {
                proof {
                    assert(pre_ids_end(s@, j as int) == pre_ids_end(s@, e + 1));
                    assert(pre_ids_views(s@, j as int) =~= seq![id_view_at(s@, j as int)]
                        + pre_ids_views(s@, e + 1));
                    assert(pre_ids_views(s@, pre_start as int) =~= pre@.map_values(
                        |id2: Identifier| id2@,
                    ) + pre_ids_views(s@, e + 1));
                    assert(s@.subrange(pre_start as int, e as int) + s@.subrange(
                        e as int,
                        e + 1,
                    ) =~= s@.subrange(pre_start as int, e + 1));
                    assert(s@.subrange(e as int, e + 1) =~= seq![s@[e as int]]);
                }
                j = e + 1;
            } else {
                proof {
                    assert(pre_ids_end(s@, j as int) == e);
                    assert(pre_ids_views(s@, j as int) =~= seq![id_view_at(s@, j as int)]);
                    assert(pre_ids_views(s@, pre_start as int) =~= pre@.map_values(
                        |id2: Identifier| id2@,
                    ));
                }
                p = e;
                break;
            }
        }
    }

    let mut build: Option<String> = None;
    let mut end: usize = p;
    if p < n && s.get_char(p) == '+' {
        let b = scan_build_chars(s, n, p + 1);
        proof {
            lemma_build_chars_end_bounds(s@, p + 1);
        }
        if b == p + 1 {
            if p + 1 < n {
                return Result::Err(Error::UnexpectedChar(s.get_char(p + 1)));
            }
            return Result::Err(Error::UnexpectedEnd);
        }
        let piece = s.substring_char(p + 1, b).to_owned();
        proof {
            let sub = s@.subrange(p + 1, b as int);
            assert forall|k: int| 0 <= k < sub.len() implies is_build_char(#[trigger] sub[k]) by {
                assert(sub[k] == s@[p + 1 + k]);
            }
        }
        build = Some(piece);
        end = b;
    }

    let v = Version { major, minor, patch, pre, build };
    proof {
        assert(version_lit_end(s@, i as int) == end);
        let vv = v@;
        assert(vv.pre == v.pre@.map_values(|id2: Identifier| id2@));
        assert(wf_version(vv));
        // The rendering is exactly the consumed text, piece by piece.
        let whole = s@.subrange(i as int, end as int);
        assert(s@.subrange(i as int, e1 as int) == dec_str(vv.major));
        assert(s@.subrange(e1 + 1, e2 as int) == dec_str(vv.minor));
        assert(s@.subrange(e2 + 1, e3 as int) == dec_str(vv.patch));
        if vv.pre.len() > 0 {
            assert(s@.subrange(e3 as int, p as int) =~= seq!['-'] + ids_suffix_str(vv.pre, 0));
            assert(s@.subrange(e3 as int, p as int) == pre_str(vv.pre));
        } else {
            assert(p == e3);
        }
        match vv.build {
            Option::None => {
                assert(end == p);
            },
            Option::Some(bs) => {
                assert(s@.subrange(p as int, end as int) =~= seq!['+'] + bs);
            },
        }
        assert(version_str(vv) =~= whole);
        // The value is exactly the one the grammar denotes at `i`.
        if e3 < n && s@[e3 as int] == '-' {
            assert(vv.pre =~= pre_ids_views(s@, e3 + 1));
        } else {
            assert(vv.pre =~= Seq::<IdView>::empty());
        }
        assert(vv =~~= bound_view_at(s@, i as int));
    }
    Result::Ok((v, end))
}

impl Version {
    /// Parse a version literal; the whole input must be consumed.
    ///
    /// On success the returned version is well formed, is exactly the
    /// value the grammar denotes at the start of the input, and renders
    /// back to the input, character for character.
    pub fn parse(input: &str) -> (r: Result<Version, Error>)
        ensures
            r matches Ok(v) ==> wf_version(v@) && version_str(v@) == input@ && v@
                == bound_view_at(input@, 0),
            r is Ok <==> version_lit_end(input@, 0) == input@.len(),
    {
        let n = input.unicode_len();
        match parse_version_at(input, n, 0) {
            Result::Ok((v, e)) => {
                if e == n {
                    assert(input@.subrange(0, n as int) =~= input@);
                    Result::Ok(v)
                } else {
                    let rest = input.substring_char(e, n).to_owned();
                    Result::Err(Error::MoreInput(rest))
                }
            },
            Result::Err(err) => Result::Err(err),
        }
    }
}

// ---------------------------------------------------------------------------
// Executable requirement parsing.
// ---------------------------------------------------------------------------

fn is_ws_exec(c: char) -> (r: bool)
    ensures
        r == is_ws(c),
{
    c == ' ' || c == '\t' || c == '\n' || c == '\r'
}

/// End of the whitespace run starting at `i`.
fn scan_ws(s: &str, n: usize, i: usize) -> (e: usize)
    requires
        n == s@.len(),
        i <= n,
    ensures
        e == ws_end(s@, i as int),
        i <= e <= n,
{
    let mut j: usize = i;
    while j < n && is_ws_exec(s.get_char(j))
        invariant
            i <= j <= n,
            n == s@.len(),
            ws_end(s@, i as int) == ws_end(s@, j as int),
        decreases n - j,
    {
        j = j + 1;
    }
    j
}

/// Read the operator written at `i`.
fn parse_op(s: &str, n: usize, i: usize) -> (r: (RangeOp, usize))
    requires
        n == s@.len(),
        i <= n,
    ensures
        (r.0, r.1 as int) == op_at(s@, i as int),
        i + r.1 <= n,
{
    if i >= n {
        return (RangeOp::Exact, 0);
    }
    let c0 = s.get_char(i);
    if i + 1 < n {
        let c1 = s.get_char(i + 1);
        if c0 == '=' && c1 == '=' {
            return (RangeOp::Exact, 2);
        }
        if c0 == '!' && c1 == '=' {
            return (RangeOp::Neq, 2);
        }
        if c0 == '>' && c1 == '=' {
            return (RangeOp::Gte, 2);
        }
        if c0 == '<' && c1 == '=' {
            return (RangeOp::Lte, 2);
        }
        if c0 == '~' && c1 == '>' {
            return (RangeOp::Pessimistic, 2);
        }
    }
    if c0 == '>' {
        (RangeOp::Gt, 1)
    } else if c0 == '<' {
        (RangeOp::Lt, 1)
    } else {
        (RangeOp::Exact, 0)
    }
}

/// Parse a version literal of one, two or three components starting at
/// `i`; missing components are zero.
fn parse_partial_at(s: &str, n: usize, i: usize) -> (r: Result<(Version, usize, usize), Error>)
    requires
        n == s@.len(),
        i <= n,
    ensures
        match r {
            Result::Ok((v, e, ar)) => {
                &&& partial_end(s@, i as int) == e
                &&& v@ == bound_view_at(s@, i as int)
                &&& wf_version(v@)
                &&& ar == partial_arity(s@, i as int)
                &&& i < e <= n
            },
            Result::Err(_) => partial_end(s@, i as int) == -1,
        },
{
    let (major, e1) = match parse_num(s, n, i) {
        Result::Ok(x) => x,
        Result::Err(err) => {
            return Result::Err(err);
        },
    };
    if e1 < n && s.get_char(e1) == '.' {
        let (minor, e2) = match parse_num(s, n, e1 + 1) {
            Result::Ok(x) => x,
            Result::Err(err) => {
                return Result::Err(err);
            },
        };
        if e2 < n && s.get_char(e2) == '.' {
            match parse_version_at(s, n, i) {
                Result::Ok((v, e)) => Result::Ok((v, e, 3)),
                Result::Err(err) => Result::Err(err),
            }
        } else {
            let v = Version { major, minor, patch: 0, pre: Vec::new(), build: None };
            assert(v@ =~~= bound_view_at(s@, i as int));
            Result::Ok((v, e2, 2))
        }
    } else {
        let v = Version { major, minor: 0, patch: 0, pre: Vec::new(), build: None };
        assert(v@ =~~= bound_view_at(s@, i as int));
        Result::Ok((v, e1, 1))
    }
}

/// Build the compiled intervals of one requirement atom.
fn compile_atom(op: RangeOp, b: Version, has_patch: bool) -> (r: Intervals)
    requires
        op == RangeOp::Pessimistic && has_patch ==> b@.minor < 4294967295,
        op == RangeOp::Pessimistic && !has_patch ==> b@.major < 4294967295,
    ensures
        forall|v: VersionView| #[trigger] member(r.list@, v) == atom_allows(op, b@, has_patch, v),
{
    let ghost bv = b@;
    let allow = b.is_pre();
    let mut list: Vec<Interval> = Vec::new();
    match op {
        RangeOp::Exact => {
            let hi = b.clone_exact();
            list.push(Interval { lo: Edge::Incl(b), hi: Edge::Incl(hi), allow_pre: true });
        },
        RangeOp::Neq => {
            let b2 = b.clone_exact();
            list.push(Interval { lo: Edge::Unbounded, hi: Edge::Excl(b), allow_pre: true });
            list.push(Interval { lo: Edge::Excl(b2), hi: Edge::Unbounded, allow_pre: true });
        },
        RangeOp::Gt => {
            list.push(Interval { lo: Edge::Excl(b), hi: Edge::Unbounded, allow_pre: allow });
        },
        RangeOp::Gte => {
            list.push(Interval { lo: Edge::Incl(b), hi: Edge::Unbounded, allow_pre: allow });
        },
        RangeOp::Lt => {
            list.push(Interval { lo: Edge::Unbounded, hi: Edge::Excl(b), allow_pre: allow });
        },
        RangeOp::Lte => {
            list.push(Interval { lo: Edge::Unbounded, hi: Edge::Incl(b), allow_pre: allow });
        },
        RangeOp::Pessimistic => {
            let upper = if has_patch {
                Version::new(b.major, b.minor + 1, 0)
            } else {
                Version::new(b.major + 1, 0, 0)
            };
            assert(upper@ =~~= pess_upper(bv, has_patch));
            list.push(Interval { lo: Edge::Incl(b), hi: Edge::Excl(upper), allow_pre: allow });
        },
    }
    let r = Intervals { list };
    proof {
        assert forall|v: VersionView| #[trigger]
            member(r.list@, v) == atom_allows(op, bv, has_patch, v) by {
            crate::version::lemma_version_order_flip(bv, v);
            crate::version::lemma_cmp_ids_eq(v.pre, bv.pre);
            if member(r.list@, v) {
                let k = choose|k: int|
                    0 <= k < r.list@.len() && crate::version::interval::in_interval(
                        #[trigger] r.list@[k],
                        v,
                    );
            }
            match op {
                RangeOp::Exact => {
                    if atom_allows(op, bv, has_patch, v) {
                        assert(crate::version::interval::in_interval(r.list@[0], v));
                    }
                },
                RangeOp::Neq => {
                    if atom_allows(op, bv, has_patch, v) {
                        if version_lt(v, bv) {
                            assert(crate::version::interval::in_interval(r.list@[0], v));
                        } else {
                            assert(crate::version::interval::in_interval(r.list@[1], v));
                        }
                    }
                },
                _ => {
                    if atom_allows(op, bv, has_patch, v) {
                        assert(crate::version::interval::in_interval(r.list@[0], v));
                    }
                },
            }
        }
    }
    r
}

/// Parse one requirement atom starting at `i` and compile it.
fn parse_atom(s: &str, n: usize, i: usize) -> (r: Result<(Intervals, usize), Error>)
    requires
        n == s@.len(),
        i <= n,
    ensures
        match r {
            Result::Ok((iv, e)) => {
                &&& atom_end(s@, i as int) == e
                &&& i <= e <= n
                &&& forall|v: VersionView|
                    #[trigger] member(iv.list@, v) == atom_sem(s@, i as int, v)
            },
            Result::Err(_) => atom_end(s@, i as int) == -1,
        },
{
    let (op, ol) = parse_op(s, n, i);
    let w = scan_ws(s, n, i + ol);
    let (b, e, ar) = match parse_partial_at(s, n, w) {
        Result::Ok(x) => x,
        Result::Err(err) => {
            return Result::Err(err);
        },
    };
    if matches!(op, RangeOp::Pessimistic) {
        if ar == 1 {
            return Result::Err(Error::PessimisticArity);
        }
        if ar == 3 && b.minor == 4294967295 {
            return Result::Err(Error::NumberOverflow);
        }
        if ar == 2 && b.major == 4294967295 {
            return Result::Err(Error::NumberOverflow);
        }
    }
    let iv = compile_atom(op, b, ar == 3);
    assert(atom_end(s@, i as int) == e);
    Result::Ok((iv, e))
}

/// A parsed requirement: the text it was built from, kept verbatim, and
/// the compiled union of intervals the solver works with.
#[derive(Debug, Clone)]
pub struct Range {
    source: String,
    compiled: Intervals,
}

impl Range {
    /// The text the requirement was built from.
    pub closed spec fn text(self) -> Seq<char> {
        self.source@
    }

    /// The set of versions the compiled requirement accepts.
    pub closed spec fn accepts(self, v: VersionView) -> bool {
        member(self.compiled.list@, v)
    }

    /// A requirement is well formed when its text is a valid requirement
    /// and its compiled form accepts exactly what the text means.
    pub open spec fn wf(self) -> bool {
        range_accepted(self.text()) && forall|v: VersionView|
            #[trigger] self.accepts(v) == range_sem(self.text(), v)
    }

    /// Parse and compile a requirement such as `~> 1.2` or
    /// `> 1 and < 2 or == 4.5.2`. The original text is preserved verbatim
    /// for display.
    pub fn new(text: String) -> (r: Result<Range, Error>)
        ensures
            r matches Ok(rg) ==> rg.text() == text@ && rg.wf(),
            r is Ok <==> range_accepted(text@),
    {
        let s = text.as_str();
        let n = s.unicode_len();
        let w0 = scan_ws(s, n, 0);
        let (first, mut i) = match parse_atom(s, n, w0) {
            Result::Ok(x) => x,
            Result::Err(err) => {
                return Result::Err(err);
            },
        };
        let mut result = Intervals::none();
        let mut cur = first;
        loop
            invariant
                0 <= i <= n,
                n == s@.len(),
                s@ == text@,
                range_accepted(s@) == range_rest_ok(s@, i as int),
                forall|v: VersionView|
                    #[trigger] range_sem(s@, v) == (member(result.list@, v) || range_rest_sem(
                        s@,
                        i as int,
                        member(cur.list@, v),
                        v,
                    )),
            decreases n - i,
        {
            let w = scan_ws(s, n, i);
            if w == n {
                let done = result.union(cur);
                return Result::Ok(Range { source: text, compiled: done });
            }
            if w == i {
                return Result::Err(Error::UnexpectedChar(s.get_char(w)));
            }
            let k = scan_id_chars(s, n, w);
            let ghost kw = s@.subrange(w as int, k as int);
            let is_and = k - w == 3 && s.get_char(w) == 'a' && s.get_char(w + 1) == 'n'
                && s.get_char(w + 2) == 'd';
            let is_or = k - w == 2 && s.get_char(w) == 'o' && s.get_char(w + 1) == 'r';
            proof {
                assert(kw.len() == k - w);
                if is_and {
                    assert(kw =~= and_kw());
                } else {
                    assert(kw[0] == s@[w as int] || kw.len() != 3);
                    assert(kw != and_kw());
                }
                if is_or {
                    assert(kw =~= or_kw());
                } else {
                    assert(kw != or_kw());
                }
            }
            if !is_and && !is_or {
                return Result::Err(Error::UnexpectedChar(s.get_char(w)));
            }
            let w2 = scan_ws(s, n, k);
            let (atom_iv, e) = match parse_atom(s, n, w2) {
                Result::Ok(x) => x,
                Result::Err(err) => {
                    return Result::Err(err);
                },
            };
            proof {
                assert(next_pos(s@, i as int, e as int) == e) by {
                    lemma_atom_end_bounds(s@, w2 as int);
                }
            }
            if is_and {
                cur = cur.intersect(&atom_iv);
            } else {
                result = result.union(cur);
                cur = atom_iv;
            }
            proof {
                lemma_atom_end_bounds(s@, w2 as int);
            }
            i = e;
        }
    }

    /// The hard requirement that pins one version: its text is the
    /// version's rendering, and it accepts exactly the versions that
    /// compare equal to it.
    pub fn from_version(v: &Version) -> (r: Range)
        ensures
            r.text() == version_str(v@),
            forall|w: VersionView| #[trigger] r.accepts(w) == version_eq(w, v@),
    {
        let source = v.to_version_string();
        let compiled = crate::version::interval::exact(v.clone_exact());
        Range { source, compiled }
    }

    /// The compiled intervals, as a value of their own: they accept the
    /// same versions as this requirement.
    pub fn to_intervals(&self) -> (r: Intervals)
        ensures
            forall|v: VersionView| #[trigger] member(r.list@, v) == self.accepts(v),
    {
        self.compiled.duplicate()
    }

    /// Render the requirement: exactly the text it was built from.
    pub fn to_display_string(&self) -> (r: String)
        ensures
            r@ == self.text(),
    {
        self.source.clone()
    }

    /// Whether the version satisfies the requirement.
    pub fn contains(&self, v: &Version) -> (r: bool)
        ensures
            r == self.accepts(v@),
            self.wf() ==> r == range_sem(self.text(), v@),
    {
        proof {
            if self.wf() {
                assert(self.accepts(v@) == range_sem(self.text(), v@));
            }
        }
        self.compiled.contains(v)
    }

    /// An exact copy.
    pub fn duplicate(&self) -> (r: Range)
        ensures
            r.text() == self.text(),
            forall|v: VersionView| #[trigger] r.accepts(v) == self.accepts(v),
            self.wf() ==> r.wf(),
    {
        let r = Range { source: self.source.clone(), compiled: self.compiled.duplicate() };
        proof {
            if self.wf() {
                assert forall|v: VersionView| #[trigger]
                    r.accepts(v) == range_sem(r.text(), v) by {
                    assert(self.accepts(v) == range_sem(self.text(), v));
                }
            }
        }
        r
    }
}

} // verus!
