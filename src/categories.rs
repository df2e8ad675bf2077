//! Block categories told apart by the suffix of a block's internal name.

use vstd::prelude::*;
use vstd::string::StringSliceAdditionalSpecFns;

verus! {

/// `s` ends with `suffix`.
pub open spec fn ends_with_bytes(s: Seq<u8>, suffix: Seq<u8>) -> bool {
    &&& suffix.len() <= s.len()
    &&& s.subrange(s.len() - suffix.len(), s.len() as int) == suffix
}

/// Whether the bytes of `name` end with those of `suffix`.
pub fn name_ends_with(name: &str, suffix: &str) -> (r: bool)
    ensures
        r == ends_with_bytes(name.spec_bytes(), suffix.spec_bytes()),
{
    let s = name.as_bytes();
    let t = suffix.as_bytes();
    if t.len() > s.len() {
        return false;
    }
    let slen = s.len();
    let start = slen - t.len();
    let mut i: usize = 0;
    while i < t.len()
        invariant
            s@ == name.spec_bytes(),
            t@ == suffix.spec_bytes(),
            t@.len() <= s@.len(),
            start + t@.len() == s@.len(),
            slen == s@.len(),
            i <= t@.len(),
            forall|j: int| 0 <= j < i ==> s@[start + j] == t@[j],
        decreases t@.len() - i,
    {
        assert(start + i < slen);
        if s[start + i] != t[i] {
            assert(s@.subrange(start as int, s@.len() as int)[i as int] != t@[i as int]);
            return false;
        }
        i = i + 1;
    }
    assert(s@.subrange(start as int, s@.len() as int) =~= t@);
    true
}

/// Whether the block named `internal_name` is a staircase.
pub fn is_stairs(internal_name: &str) -> (r: bool)
    ensures
        r == ends_with_bytes(internal_name.spec_bytes(), "_stairs".spec_bytes()),
{
    name_ends_with(internal_name, "_stairs")
}

/// Whether the block named `internal_name` is a trapdoor.
pub fn is_trapdoor(internal_name: &str) -> (r: bool)
    ensures
        r == ends_with_bytes(internal_name.spec_bytes(), "_trapdoor".spec_bytes()),
{
    name_ends_with(internal_name, "_trapdoor")
}

/// Whether the block named `internal_name` is a slab.
pub fn is_slab(internal_name: &str) -> (r: bool)
    ensures
        r == ends_with_bytes(internal_name.spec_bytes(), "_slab".spec_bytes()),
{
    name_ends_with(internal_name, "_slab")
}

/// Whether the block named `internal_name` is a wall.
pub fn is_wall(internal_name: &str) -> (r: bool)
    ensures
        r == ends_with_bytes(internal_name.spec_bytes(), "_wall".spec_bytes()),
{
    name_ends_with(internal_name, "_wall")
}

/// Whether the block named `internal_name` is a fence or a fence gate.
pub fn is_fence(internal_name: &str) -> (r: bool)
    ensures
        r == (ends_with_bytes(internal_name.spec_bytes(), "_fence".spec_bytes()) || ends_with_bytes(
            internal_name.spec_bytes(),
            "_fence_gate".spec_bytes(),
        )),
{
    name_ends_with(internal_name, "_fence") || name_ends_with(internal_name, "_fence_gate")
}

/// Whether the block named `internal_name` is a portal.
pub fn is_portal(internal_name: &str) -> (r: bool)
    ensures
        r == ends_with_bytes(internal_name.spec_bytes(), "_portal".spec_bytes()),
{
    name_ends_with(internal_name, "_portal")
}

/// Whether the block named `internal_name` has an axis (a log or a basalt).
pub fn has_axis(internal_name: &str) -> (r: bool)
    ensures
        r == (ends_with_bytes(internal_name.spec_bytes(), "_log".spec_bytes()) || ends_with_bytes(
            internal_name.spec_bytes(),
            "_basalt".spec_bytes(),
        )),
{
    name_ends_with(internal_name, "_log") || name_ends_with(internal_name, "_basalt")
}

} // verus!
