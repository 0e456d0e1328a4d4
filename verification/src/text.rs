//! Byte-string helpers shared by the routing code.
//!
//! Patterns and paths are handled as byte strings: the pattern syntax
//! (`/`, `:`, `*`) is pure ASCII, so matching and splitting work
//! byte-by-byte on the UTF-8 encoding of the input strings.

use vstd::prelude::*;

verus! {

/// The `/` separator of path segments.
pub const SLASH: u8 = 47;

/// The `:` sigil opening a parameter segment.
pub const COLON: u8 = 58;

/// The `*` sigil opening a wildcard segment.
pub const STAR: u8 = 42;

/// Compares two byte strings for equality.
pub fn bytes_eq(a: &[u8], b: &[u8]) -> (r: bool)
    ensures
        r == (a@ == b@),
{
    if a.len() != b.len() {
        assert(a@ != b@) by {
            assert(a@.len() != b@.len());
        }
        return false;
    }
    let mut i: usize = 0;
    while i < a.len()
        invariant
            i <= a.len(),
            a.len() == b.len(),
            forall|j: int| 0 <= j < i ==> a@[j] == b@[j],
        decreases a.len() - i,
    {
        if a[i] != b[i] {
            return false;
        }
        i = i + 1;
    }
    assert(a@ =~= b@);
    true
}

/// Does `a` start with `pre`, byte for byte?
pub fn starts_with(a: &[u8], pre: &[u8]) -> (r: bool)
    ensures
        r == is_prefix_of(pre@, a@),
{
    if pre.len() > a.len() {
        return false;
    }
    let mut i: usize = 0;
    while i < pre.len()
        invariant
            i <= pre.len(),
            pre.len() <= a.len(),
            forall|j: int| 0 <= j < i ==> a@[j] == pre@[j],
        decreases pre.len() - i,
    {
        if a[i] != pre[i] {
            return false;
        }
        i = i + 1;
    }
    assert(a@.subrange(0, pre@.len() as int) =~= pre@);
    true
}

/// `pre` is a prefix of `s`.
pub open spec fn is_prefix_of(pre: Seq<u8>, s: Seq<u8>) -> bool {
    pre.len() <= s.len() && s.subrange(0, pre.len() as int) == pre
}

/// Copies `s[from..to]` into a fresh vector.
pub fn copy_range(s: &[u8], from: usize, to: usize) -> (r: Vec<u8>)
    requires
        from <= to <= s@.len(),
    ensures
        r@ == s@.subrange(from as int, to as int),
{
    let mut r: Vec<u8> = Vec::new();
    let mut i: usize = from;
    while i < to
        invariant
            from <= i <= to <= s@.len(),
            r@ == s@.subrange(from as int, i as int),
        decreases to - i,
    {
        r.push(s[i]);
        assert(r@ =~= s@.subrange(from as int, (i + 1) as int));
        i = i + 1;
    }
    r
}

/// Appends all of `src` to `dst`.
pub fn push_all(dst: &mut Vec<u8>, src: &[u8])
    ensures
        final(dst)@ == old(dst)@ + src@,
{
    let mut i: usize = 0;
    while i < src.len()
        invariant
            i <= src@.len(),
            dst@ == old(dst)@ + src@.subrange(0, i as int),
        decreases src@.len() - i,
    {
        dst.push(src[i]);
        assert(dst@ =~= old(dst)@ + src@.subrange(0, (i + 1) as int));
        i = i + 1;
    }
    assert(dst@ =~= old(dst)@ + src@);
}

} // verus!
