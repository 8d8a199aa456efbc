//! Names of partitions, namespaces and keys.
//!
//! On the device a name ends at its first NUL byte. A string that a caller
//! hands in is read the same way: up to its first NUL byte, or whole where
//! it has none.

use vstd::prelude::*;
use vstd::string::StringSliceAdditionalSpecFns;

verus! {

/// The place of the first NUL byte of `s` at or behind `from`; the length
/// of `s` where there is none.
pub open spec fn first_nul(s: Seq<u8>, from: int) -> int
    decreases s.len() - from,
{
    if from >= s.len() {
        s.len() as int
    } else if s[from] == 0 {
        from
    } else {
        first_nul(s, from + 1)
    }
}

/// The name that the bytes `s` spell: what stands before their first NUL.
pub open spec fn cut_at_nul(s: Seq<u8>) -> Seq<u8> {
    s.take(first_nul(s, 0))
}

/// The first NUL byte lies inside the bytes or at their end, and no NUL
/// byte stands before it.
pub proof fn lemma_first_nul(s: Seq<u8>, from: int)
    requires
        0 <= from <= s.len(),
    ensures
        from <= first_nul(s, from) <= s.len(),
        forall|k: int| from <= k < first_nul(s, from) ==> s[k] != 0,
        first_nul(s, from) < s.len() ==> s[first_nul(s, from)] == 0,
    decreases s.len() - from,
{
    if from < s.len() && s[from] != 0 {
        lemma_first_nul(s, from + 1);
    }
}

/// Bytes without a NUL byte spell themselves, whatever follows a NUL byte
/// behind them.
pub proof fn lemma_cut_padded(name: Seq<u8>, rest: Seq<u8>)
    requires
        forall|k: int| 0 <= k < name.len() ==> name[k] != 0,
        rest.len() == 0 || rest[0] == 0,
    ensures
        cut_at_nul(name + rest) == name,
{
    let s = name + rest;
    lemma_first_nul(s, 0);
    let f = first_nul(s, 0);
    if f < name.len() {
        assert(s[f] == name[f]);
    }
    if f > name.len() {
        assert(s[name.len() as int] == rest[0]);
    }
    assert(s.take(f) =~= name);
}

/// The name that `s` spells.
pub fn name_of(s: &[u8]) -> (name: Vec<u8>)
    ensures
        name@ == cut_at_nul(s@),
{
    let mut name: Vec<u8> = Vec::new();
    let mut i: usize = 0;
    while i < s.len() && s[i] != 0
        invariant
            i <= s@.len(),
            first_nul(s@, 0) == first_nul(s@, i as int),
            name@ == s@.take(i as int),
        decreases s@.len() - i,
    {
        name.push(s[i]);
        proof {
            assert(s@.take(i as int).push(s@[i as int]) =~= s@.take(i + 1));
        }
        i = i + 1;
    }
    name
}

/// The name that the string `s` spells.
pub fn name_of_str(s: &str) -> (name: Vec<u8>)
    ensures
        name@ == cut_at_nul(s.spec_bytes()),
{
    name_of(s.as_bytes())
}

} // verus!
