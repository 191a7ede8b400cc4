//! The permitted alphabet: the identifier-like bytes that printable
//! candidates are drawn from, as a membership test and as the fixed
//! enumeration order used to extend candidates with prefixes.

use vstd::prelude::*;

verus! {

/// A byte is in the permitted alphabet: a letter, a digit or an underscore.
pub open spec fn spec_permitted(b: u8) -> bool {
    (97 <= b <= 122) || (65 <= b <= 90) || (48 <= b <= 57) || b == 95
}

/// The enumeration order of the alphabet: lower-case letters, upper-case
/// letters, the ten digits followed by a repeated zero, and underscore —
/// 64 entries in all.
pub open spec fn permitted_at(i: int) -> u8 {
    if 0 <= i < 26 {
        (97 + i) as u8
    } else if 26 <= i < 52 {
        (65 + (i - 26)) as u8
    } else if 52 <= i < 62 {
        (48 + (i - 52)) as u8
    } else if i == 62 {
        48u8
    } else {
        95u8
    }
}

/// The 64-entry enumeration sequence of the permitted alphabet.
pub open spec fn permitted_seq() -> Seq<u8> {
    Seq::new(64, |i: int| permitted_at(i))
}

/// Every entry of the enumeration sequence is a permitted byte.
pub proof fn lemma_permitted_seq_members()
    ensures
        forall|k: int| 0 <= k < 64 ==> spec_permitted(#[trigger] permitted_seq()[k]),
{
}

/// Every permitted byte occurs in the enumeration sequence.
pub proof fn lemma_permitted_in_seq(b: u8)
    requires
        spec_permitted(b),
    ensures
        exists|x: int| 0 <= x < 64 && #[trigger] permitted_seq()[x] == b,
{
    if 97 <= b <= 122 {
        assert(permitted_seq()[b - 97] == b);
    } else if 65 <= b <= 90 {
        assert(permitted_seq()[26 + (b - 65)] == b);
    } else if 48 <= b <= 57 {
        assert(permitted_seq()[52 + (b - 48)] == b);
    } else {
        assert(permitted_seq()[63] == b);
    }
}

/// Membership test for the permitted alphabet.
pub fn is_permitted(b: u8) -> (r: bool)
    ensures
        r == spec_permitted(b),
{
    (b >= 97 && b <= 122) || (b >= 65 && b <= 90) || (b >= 48 && b <= 57) || b == 95
}

/// The permitted bytes in their enumeration order.
pub fn permitted_chars() -> (r: Vec<u8>)
    ensures
        r@ == permitted_seq(),
{
    let mut v: Vec<u8> = Vec::new();
    for i in 0..26u8
        invariant
            v@.len() == i,
            forall|k: int| 0 <= k < i ==> v@[k] == permitted_at(k),
    {
        v.push(97 + i);
    }
    for i in 0..26u8
        invariant
            v@.len() == 26 + i,
            forall|k: int| 0 <= k < 26 + i ==> v@[k] == permitted_at(k),
    {
        v.push(65 + i);
    }
    for i in 0..10u8
        invariant
            v@.len() == 52 + i,
            forall|k: int| 0 <= k < 52 + i ==> v@[k] == permitted_at(k),
    {
        v.push(48 + i);
    }
    v.push(48);
    v.push(95);
    proof {
        assert(v@ =~= permitted_seq());
    }
    v
}

} // verus!
