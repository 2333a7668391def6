//! The records of a cache with their strings read, for display.

use vstd::prelude::*;
use vstd::string::*;

use crate::cache::entries::{RawClass, RawMember};
use crate::cache::raw::{CacheModel, ProguardCache};
use crate::cache::strings::spec_table_read;
use crate::mapping::opt_bytes;

verus! {

/// What is read at `offset` of the string section, as it reads.
pub open spec fn read_at(m: CacheModel, offset: u32) -> Option<Seq<u8>> {
    spec_table_read(m.string_bytes, offset as int)
}

/// A class record of a cache with its strings read.
#[derive(Clone, Copy, Debug)]
pub struct ClassDebug<'data> {
    /// The class record itself.
    pub raw: RawClass,
    /// The obfuscated name, if it can be read.
    pub obfuscated_name: Option<&'data str>,
    /// The original name, if it can be read.
    pub original_name: Option<&'data str>,
    /// The file name, if it can be read.
    pub file_name: Option<&'data str>,
}

/// A member record of a cache with its strings read.
#[derive(Clone, Copy, Debug)]
pub struct MemberDebug<'data> {
    /// The member record itself.
    pub raw: RawMember,
    /// The obfuscated method name, if it can be read.
    pub obfuscated_name: Option<&'data str>,
    /// The start of the range covered.
    pub startline: u32,
    /// The end of the range covered.
    pub endline: u32,
    /// The class the method was inlined from, if it can be read.
    pub original_class: Option<&'data str>,
    /// The original file name, if it can be read.
    pub original_file: Option<&'data str>,
    /// The original method name, if it can be read.
    pub original_name: Option<&'data str>,
    /// The original start line.
    pub original_startline: u32,
    /// The original end line.
    pub original_endline: u32,
    /// The parameter string, if it can be read.
    pub params: Option<&'data str>,
}

/// Whether `d` shows class record `k` of `m`.
pub open spec fn shows_class(m: CacheModel, d: ClassDebug, k: int) -> bool {
    let r = m.classes[k];
    &&& d.raw == r
    &&& opt_bytes(d.obfuscated_name) == read_at(m, r.obfuscated_name_offset)
    &&& opt_bytes(d.original_name) == read_at(m, r.original_name_offset)
    &&& opt_bytes(d.file_name) == read_at(m, r.file_name_offset)
}

/// Whether `d` shows member record `k` of `m`.
pub open spec fn shows_member(m: CacheModel, d: MemberDebug, k: int) -> bool {
    let r = m.members[k];
    &&& d.raw == r
    &&& opt_bytes(d.obfuscated_name) == read_at(m, r.obfuscated_name_offset)
    &&& d.startline == r.startline
    &&& d.endline == r.endline
    &&& opt_bytes(d.original_class) == read_at(m, r.original_class_offset)
    &&& opt_bytes(d.original_file) == read_at(m, r.original_file_offset)
    &&& opt_bytes(d.original_name) == read_at(m, r.original_name_offset)
    &&& d.original_startline == r.original_startline
    &&& d.original_endline == r.original_endline
    &&& opt_bytes(d.params) == read_at(m, r.params_offset)
}

impl<'data> ProguardCache<'data> {
    /// The string at `offset`, as an optional string slice.
    fn read_opt(&self, offset: u32) -> (r: Option<&'data str>)
        ensures
            opt_bytes(r) == read_at(self@, offset),
    {
        self.read_string(offset)
    }

    /// The class records of this cache, with their strings read.
    pub fn debug_classes(&self) -> (r: Vec<ClassDebug<'data>>)
        ensures
            r@.len() == self@.classes.len(),
            forall|k: int| 0 <= k < r@.len() ==> shows_class(self@, #[trigger] r@[k], k),
    {
        let mut out: Vec<ClassDebug<'data>> = Vec::new();
        let mut k: usize = 0;
        while k < self.class_count()
            invariant
                k <= self@.classes.len(),
                out@.len() == k,
                forall|j: int| 0 <= j < k ==> shows_class(self@, #[trigger] out@[j], j),
            decreases self@.classes.len() - k,
        {
            let c = self.class_record(k);
            let d = ClassDebug {
                raw: c,
                obfuscated_name: self.read_opt(c.obfuscated_name_offset),
                original_name: self.read_opt(c.original_name_offset),
                file_name: self.read_opt(c.file_name_offset),
            };
            out.push(d);
            k = k + 1;
        }
        out
    }

    /// The member records of this cache, with their strings read.
    pub fn debug_members(&self) -> (r: Vec<MemberDebug<'data>>)
        ensures
            r@.len() == self@.members.len(),
            forall|k: int| 0 <= k < r@.len() ==> shows_member(self@, #[trigger] r@[k], k),
    {
        let mut out: Vec<MemberDebug<'data>> = Vec::new();
        let mut k: usize = 0;
        while k < self.member_count()
            invariant
                k <= self@.members.len(),
                out@.len() == k,
                forall|j: int| 0 <= j < k ==> shows_member(self@, #[trigger] out@[j], j),
            decreases self@.members.len() - k,
        {
            let m = self.member_record(k);
            let d = MemberDebug {
                raw: m,
                obfuscated_name: self.read_opt(m.obfuscated_name_offset),
                startline: m.startline,
                endline: m.endline,
                original_class: self.read_opt(m.original_class_offset),
                original_file: self.read_opt(m.original_file_offset),
                original_name: self.read_opt(m.original_name_offset),
                original_startline: m.original_startline,
                original_endline: m.original_endline,
                params: self.read_opt(m.params_offset),
            };
            out.push(d);
            k = k + 1;
        }
        out
    }
}

} // verus!
