//! A binary cache of a mapping file.
//!
//! A cache holds the classes and members of a mapping in fixed-size
//! little-endian records, followed by a table of the strings they refer to.
//! After a header of 36 bytes and 4 bytes of padding come the class records,
//! one per class record of the mapping and in its order; the member records,
//! those of each class one after the other, but for a record without line
//! information of a method that has a line range; once more the member records
//! that map frames by their parameters; the outline pairs, rewrite rules and
//! their conditions and actions; and the strings. A string is referred to by
//! its offset in the string table, `u32::MAX` standing for none.

use vstd::prelude::*;

mod agree;
mod debug;
mod decode;
mod entries;
mod keep;
mod laws;
mod raw;
mod strings;
mod writer;

pub use debug::{ClassDebug, MemberDebug};
pub use entries::{
    Header, OutlinePair, RawClass, RawMember, RewriteComponent, RewriteRuleEntry, PRGCACHE_VERSION,
};
pub use raw::{spec_cache_remap_class, spec_parse, spec_test, CacheModel, ProguardCache};

verus! {

/// What went wrong while reading a cache.
#[derive(Clone, Copy, Debug, PartialEq, Eq)]
pub enum CacheErrorKind {
    /// The file is too short to hold a header.
    InvalidHeader,
    /// The magic bytes are those of a cache of the other endianness.
    WrongEndianness,
    /// The magic bytes are not those of a cache.
    WrongFormat,
    /// The cache has another format version.
    WrongVersion,
    /// The class records do not fit in the file.
    InvalidClasses,
    /// The member records, or what they refer to, do not fit in the file.
    InvalidMembers,
    /// The string section is shorter than the header says.
    UnexpectedStringBytes {
        /// The number of string bytes the header announces.
        expected: usize,
        /// The number of bytes that are there.
        found: usize,
    },
}

/// An error while reading a cache.
#[derive(Clone, Copy, Debug, PartialEq, Eq)]
pub struct CacheError {
    kind: CacheErrorKind,
}

impl View for CacheError {
    type V = CacheErrorKind;

    closed spec fn view(&self) -> CacheErrorKind {
        self.kind
    }
}

impl CacheError {
    /// An error of kind `kind`.
    pub fn new(kind: CacheErrorKind) -> (r: Self)
        ensures
            r@ == kind,
    {
        CacheError { kind }
    }

    /// What went wrong.
    pub fn kind(&self) -> (r: CacheErrorKind)
        ensures
            r == self@,
    {
        self.kind
    }
}

} // verus!
