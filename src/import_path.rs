//! The part of a dotted import path under the cursor.
//!
//! On `foo` in `import foo.bar.baz`, go-to-definition targets the module
//! `foo`, so only the path up to the end of the segment under the cursor is
//! resolved, and the range shown is that of the segment alone.
use vstd::prelude::*;
use vstd::string::StringSliceAdditionalSpecFns;

verus! {

/// Helpers on import statements.
pub struct AstUtils;

/// Part of a dotted name to resolve for a cursor position.
pub struct ImportPrefix {
    /// Length in bytes of the prefix to resolve.
    pub prefix_len: usize,
    /// Range, in the file, of the last segment of the prefix.
    pub range_start: u32,
    pub range_end: u32,
    /// Whether the prefix is the whole name.
    pub is_last: bool,
}

/// Position of the first `.` at or after `i`, or the length.
pub open spec fn first_dot_from(b: Seq<u8>, i: int) -> int
    decreases b.len() - i,
{
    if i < 0 || i >= b.len() {
        b.len() as int
    } else if b[i] == 46u8 {
        i
    } else {
        first_dot_from(b, i + 1)
    }
}

/// Position of the last `.` before `j`, or -1.
pub open spec fn last_dot_before(b: Seq<u8>, j: int) -> int
    decreases j,
{
    if j <= 0 || j > b.len() {
        -1
    } else if b[j - 1] == 46u8 {
        j - 1
    } else {
        last_dot_before(b, j - 1)
    }
}

impl AstUtils {
    /// For a cursor at `offset` in a dotted name that spans `start..end` in
    /// the file: the prefix ending at the first `.` after the cursor, and the
    /// range of its last segment; or, when no `.` follows, the whole name.
    pub fn import_prefix_at(name: &str, start: u32, end: u32, offset: u32) -> (r: ImportPrefix)
        requires
            start <= offset,
            offset - start <= name.spec_bytes().len(),
            start + name.spec_bytes().len() <= u32::MAX,
        ensures
            ({
                let b = name.spec_bytes();
                let d = first_dot_from(b, offset - start);
                if d < b.len() {
                    &&& !r.is_last
                    &&& r.prefix_len == d
                    &&& r.range_start == start + last_dot_before(b, d) + 1
                    &&& r.range_end == start + d
                } else {
                    &&& r.is_last
                    &&& r.prefix_len == b.len()
                    &&& r.range_start == start
                    &&& r.range_end == end
                }
            }),
    {
        let b = name.as_bytes();
        let rel = (offset - start) as usize;
        let mut d: usize = rel;
        while d < b.len() && b[d] != 46u8
            invariant
                rel <= d <= b@.len(),
                first_dot_from(b@, rel as int) == first_dot_from(b@, d as int),
            decreases b@.len() - d,
        {
            d = d + 1;
        }
        if d >= b.len() {
            return ImportPrefix { prefix_len: b.len(), range_start: start, range_end: end, is_last: true };
        }
        let mut p: usize = d;
        while p > 0 && b[p - 1] != 46u8
            invariant
                p <= d < b@.len(),
                last_dot_before(b@, d as int) == last_dot_before(b@, p as int),
            decreases p,
        {
            p = p - 1;
        }
        ImportPrefix { prefix_len: d, range_start: start + p as u32, range_end: start + d as u32, is_last: false }
    }
}

} // verus!
