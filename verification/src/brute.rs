//! Brute-force baseline: enumerate every string of a fixed length over a
//! small alphabet by integer id, compute its forward CRC32 and keep exact
//! matches. The id space partitions into contiguous ranges, so disjoint
//! ranges can be searched independently and their results concatenated.

use vstd::prelude::*;
use crate::crc::{crc_of, CRC32};

verus! {

/// The candidate encoded by `id`: a mixed-radix counter over the alphabet,
/// least significant position first.
pub open spec fn candidate_of(alpha: Seq<u8>, len: nat, id: int) -> Seq<u8>
    recommends
        alpha.len() >= 1,
        id >= 0,
    decreases len,
{
    if len == 0 {
        Seq::<u8>::empty()
    } else {
        seq![alpha[id % (alpha.len() as int)]] + candidate_of(
            alpha,
            (len - 1) as nat,
            id / (alpha.len() as int),
        )
    }
}

pub proof fn lemma_candidate_len(alpha: Seq<u8>, len: nat, id: int)
    ensures
        candidate_of(alpha, len, id).len() == len,
    decreases len,
{
    if len > 0 {
        lemma_candidate_len(alpha, (len - 1) as nat, id / (alpha.len() as int));
    }
}

/// The default brute-force alphabet: the lower-case letters and underscore.
pub fn brute_alphabet() -> (r: Vec<u8>)
    ensures
        r@.len() == 27,
        forall|k: int| 0 <= k < 26 ==> r@[k] == (97 + k) as u8,
        r@[26] == 95u8,
{
    let mut v: Vec<u8> = Vec::new();
    for i in 0..26u8
        invariant
            v@.len() == i,
            forall|k: int| 0 <= k < i ==> v@[k] == (97 + k) as u8,
    {
        v.push(97 + i);
    }
    v.push(95);
    v
}

/// Decode `id` into its candidate over the alphabet, by repeated division.
pub fn index_to_candidate(alphabet: &Vec<u8>, len: usize, id: u64) -> (r: Vec<u8>)
    requires
        alphabet@.len() >= 1,
    ensures
        r@ == candidate_of(alphabet@, len as nat, id as int),
        r@.len() == len,
{
    let n: u64 = alphabet.len() as u64;
    let mut r: Vec<u8> = Vec::new();
    let mut cur: u64 = id;
    for k in 0..len
        invariant
            r@.len() == k,
            n == alphabet@.len(),
            n >= 1,
            n <= usize::MAX,
            candidate_of(alphabet@, len as nat, id as int) == r@ + candidate_of(
                alphabet@,
                (len - k) as nat,
                cur as int,
            ),
    {
        let d = (cur % n) as usize;
        let ghost before = r@;
        r.push(alphabet[d]);
        proof {
            lemma_candidate_len(alphabet@, (len - k) as nat, cur as int);
            lemma_candidate_len(
                alphabet@,
                (len - k - 1) as nat,
                cur as int / (alphabet@.len() as int),
            );
            assert(cur % n < n);
            assert(d as int == cur as int % (alphabet@.len() as int));
            assert(candidate_of(alphabet@, (len - k) as nat, cur as int) == seq![
                alphabet@[cur as int % (alphabet@.len() as int)],
            ] + candidate_of(alphabet@, (len - k - 1) as nat, cur as int / (alphabet@.len() as int)));
            assert(before + candidate_of(alphabet@, (len - k) as nat, cur as int) =~= r@
                + candidate_of(alphabet@, (len - k - 1) as nat, cur as int / (
            alphabet@.len() as int)));
        }
        cur = cur / n;
    }
    proof {
        assert(r@ + candidate_of(alphabet@, 0, cur as int) =~= r@);
        lemma_candidate_len(alphabet@, len as nat, id as int);
    }
    r
}

/// Every entry of `r` is the candidate of some id in the range and its CRC32
/// from accumulator zero equals `target`.
pub open spec fn brute_sound(
    t: Seq<u32>,
    alpha: Seq<u8>,
    len: nat,
    target: u32,
    start: int,
    end: int,
    r: Seq<Vec<u8>>,
) -> bool {
    forall|k: int|
        #![trigger r[k]]
        0 <= k < r.len() ==> exists|id: int|
            start <= id < end && r[k]@ == #[trigger] candidate_of(alpha, len, id) && crc_of(
                t,
                r[k]@,
                0,
            ) == target
}

/// Every id in the range whose candidate's CRC32 from accumulator zero
/// equals `target` has its candidate in `r`.
pub open spec fn brute_complete(
    t: Seq<u32>,
    alpha: Seq<u8>,
    len: nat,
    target: u32,
    start: int,
    end: int,
    r: Seq<Vec<u8>>,
) -> bool {
    forall|id: int|
        start <= id < end && crc_of(t, #[trigger] candidate_of(alpha, len, id), 0) == target
            ==> exists|k: int| 0 <= k < r.len() && (#[trigger] r[k])@ == candidate_of(
            alpha,
            len,
            id,
        )
}

/// Search one contiguous id range exhaustively: the result holds the
/// candidate of an id in the range if and only if its CRC32 from accumulator
/// zero equals `target`, each matching id contributing its candidate.
pub fn brute_force(
    crc32: &CRC32,
    target: u32,
    len: usize,
    alphabet: &Vec<u8>,
    start: u64,
    end: u64,
) -> (r: Vec<Vec<u8>>)
    requires
        crc32.table@.len() == 256,
        alphabet@.len() >= 1,
        start <= end,
    ensures
        brute_sound(crc32.table@, alphabet@, len as nat, target, start as int, end as int, r@),
        brute_complete(crc32.table@, alphabet@, len as nat, target, start as int, end as int, r@),
{
    let mut out: Vec<Vec<u8>> = Vec::new();
    let mut id: u64 = start;
    while id < end
        invariant
            crc32.table@.len() == 256,
            alphabet@.len() >= 1,
            start <= id <= end,
            brute_sound(crc32.table@, alphabet@, len as nat, target, start as int, end as int, out@),
            brute_complete(crc32.table@, alphabet@, len as nat, target, start as int, id as int, out@),
        decreases end - id,
    {
        let cand = index_to_candidate(alphabet, len, id);
        let c = crc32._calc(cand.as_slice(), 0);
        if c == target {
            let ghost pre = out@;
            out.push(cand);
            proof {
                assert(out@.last()@ == candidate_of(alphabet@, len as nat, id as int));
                assert forall|i: int|
                    start <= i < id + 1 && crc_of(
                        crc32.table@,
                        #[trigger] candidate_of(alphabet@, len as nat, i),
                        0,
                    ) == target implies exists|k: int|
                    0 <= k < out@.len() && (#[trigger] out@[k])@ == candidate_of(
                        alphabet@,
                        len as nat,
                        i,
                    ) by {
                    if i < id {
                        let k = choose|k: int|
                            0 <= k < pre.len() && (#[trigger] pre[k])@ == candidate_of(
                                alphabet@,
                                len as nat,
                                i,
                            );
                        assert(out@[k]@ == candidate_of(alphabet@, len as nat, i));
                    } else {
                        assert(out@[out@.len() - 1]@ == candidate_of(alphabet@, len as nat, i));
                    }
                }
                assert forall|k: int|
                    #![trigger out@[k]]
                    0 <= k < out@.len() implies exists|i: int|
                    start <= i < end && out@[k]@ == #[trigger] candidate_of(
                        alphabet@,
                        len as nat,
                        i,
                    ) && crc_of(crc32.table@, out@[k]@, 0) == target by {
                    if k < pre.len() {
                        assert(pre[k] == out@[k]);
                        let i = choose|i: int|
                            start <= i < end && pre[k]@ == #[trigger] candidate_of(
                                alphabet@,
                                len as nat,
                                i,
                            ) && crc_of(crc32.table@, pre[k]@, 0) == target;
                        assert(out@[k]@ == candidate_of(alphabet@, len as nat, i));
                    } else {
                        assert(out@[k]@ == candidate_of(alphabet@, len as nat, id as int));
                    }
                }
            }
        }
        id = id + 1;
    }
    out
}

} // verus!
