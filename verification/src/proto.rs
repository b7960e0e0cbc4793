//! Plain mirrors of the registry's wire messages. The registry defines
//! these messages externally; a transport layer decodes the bytes into
//! these shapes, and the conversions into the domain model are verified
//! against them.

pub mod package;
pub mod signed;
pub mod versions;
