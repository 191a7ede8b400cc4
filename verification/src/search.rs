//! The constrained enumerator: extending the four-byte tail search with
//! permitted one- and two-byte prefixes to produce printable candidates of
//! length four, five or six whose CRC32 equals a target.

use vstd::prelude::*;
use crate::crc::{crc_of, crc_regs, ieee_table, lemma_is_table_ieee, lemma_crc_regs_concat};
use crate::reverse::{CRC32Reverse, lemma_not_not};
use crate::alphabet::{spec_permitted, permitted_seq, permitted_chars, is_permitted,
    lemma_permitted_seq_members, lemma_permitted_in_seq};

verus! {

/// The characters that a sequence of ASCII bytes decodes to, one per byte.
pub open spec fn chars_of(b: Seq<u8>) -> Seq<char> {
    b.map_values(|x: u8| x as char)
}

/// Every byte of the sequence is in the permitted alphabet.
pub open spec fn all_permitted(s: Seq<u8>) -> bool {
    forall|k: int| 0 <= k < s.len() ==> spec_permitted(#[trigger] s[k])
}

/// Every permitted four-byte completion of `patch` that reaches `desired`
/// appears in `out`, rendered as a string.
pub open spec fn appends_all_tails(
    t: Seq<u32>,
    patch: Seq<u8>,
    desired: u32,
    accum: u32,
    out: Seq<String>,
) -> bool {
    forall|c: Seq<u8>|
        c.len() == 4 && all_permitted(c) && #[trigger] crc_of(t, patch + c, accum) == desired
            ==> exists|k: int| 0 <= k < out.len() && (#[trigger] out[k])@ == chars_of(patch + c)
}

/// A finished candidate byte string: the given prefix followed by four more
/// bytes, every byte permitted, and its CRC32 from `accum` equal to
/// `desired`.
pub open spec fn is_candidate(
    t: Seq<u32>,
    bytes: Seq<u8>,
    patch: Seq<u8>,
    desired: u32,
    accum: u32,
) -> bool {
    &&& bytes.len() == patch.len() + 4
    &&& bytes.take(patch.len() as int) == patch
    &&& forall|k: int| 0 <= k < bytes.len() ==> spec_permitted(#[trigger] bytes[k])
    &&& crc_of(t, bytes, accum) == desired
}

/// A candidate rendered as a string, one character per byte.
pub open spec fn is_candidate_str(
    t: Seq<u32>,
    s: Seq<char>,
    patch: Seq<u8>,
    desired: u32,
    accum: u32,
) -> bool {
    exists|bytes: Seq<u8>| s == chars_of(bytes) && is_candidate(t, bytes, patch, desired, accum)
}

/// A collision for the default polynomial: a permitted byte string of length
/// `n` whose CRC32 from accumulator zero equals `target`, as a string.
pub open spec fn collision_str(s: Seq<char>, target: u32, n: int) -> bool {
    exists|bytes: Seq<u8>|
        {
            &&& s == chars_of(bytes)
            &&& bytes.len() == n
            &&& 4 <= n <= 6
            &&& forall|k: int| 0 <= k < bytes.len() ==> spec_permitted(#[trigger] bytes[k])
            &&& crc_of(ieee_table(), bytes, 0) == target
        }
}

/// A collision of any of the supported lengths.
pub open spec fn any_collision_str(s: Seq<char>, target: u32) -> bool {
    exists|n: int| 4 <= n <= 6 && collision_str(s, target, n)
}

/// The rendering of `bytes` appears in `out`.
pub open spec fn out_has(out: Seq<String>, bytes: Seq<u8>) -> bool {
    exists|k: int| 0 <= k < out.len() && (#[trigger] out[k])@ == chars_of(bytes)
}

/// Every permitted byte string of length `n` whose CRC32 from accumulator
/// zero equals `target` appears in `out`.
pub open spec fn covers_len(target: u32, n: int, out: Seq<String>) -> bool {
    forall|bytes: Seq<u8>|
        bytes.len() == n && all_permitted(bytes) && #[trigger] crc_of(ieee_table(), bytes, 0)
            == target ==> out_has(out, bytes)
}

/// Every permitted collision of the requested length appears in `r`.
pub open spec fn collision_complete(target: u32, n: int, r: Seq<String>) -> bool {
    forall|bytes: Seq<u8>|
        bytes.len() == n && 4 <= n <= 6 && all_permitted(bytes) && #[trigger] crc_of(
            ieee_table(),
            bytes,
            0,
        ) == target ==> out_has(r, bytes)
}

/// An entry survives extension of the output in place.
pub proof fn lemma_out_has_extends(pre: Seq<String>, post: Seq<String>, bytes: Seq<u8>)
    requires
        out_has(pre, bytes),
        post.len() >= pre.len(),
        forall|k: int| 0 <= k < pre.len() ==> post[k] == pre[k],
    ensures
        out_has(post, bytes),
{
    let k = choose|k: int| 0 <= k < pre.len() && (#[trigger] pre[k])@ == chars_of(bytes);
    assert(post[k]@ == chars_of(bytes));
}

/// Length coverage survives extension of the output in place.
pub proof fn lemma_covers_extends(target: u32, n: int, pre: Seq<String>, post: Seq<String>)
    requires
        covers_len(target, n, pre),
        post.len() >= pre.len(),
        forall|k: int| 0 <= k < pre.len() ==> post[k] == pre[k],
    ensures
        covers_len(target, n, post),
{
    assert forall|bytes: Seq<u8>|
        bytes.len() == n && all_permitted(bytes) && #[trigger] crc_of(ieee_table(), bytes, 0)
            == target implies out_has(post, bytes) by {
        lemma_out_has_extends(pre, post, bytes);
    }
}

/// Round trip: rewinding the CRC32 of one permitted byte recovers the
/// accumulator it was computed from. Any output that meets the rewind
/// contract on the byte and its checksum contains the original accumulator.
pub proof fn lemma_round_trip(t: Seq<u32>, b: u8, a: u32, rewound: Seq<u32>)
    requires
        spec_permitted(b),
        forall|a0: u32|
            crc_of(t, seq![b], a0) == crc_of(t, seq![b], a) ==> rewound.contains(a0),
    ensures
        rewound.contains(a),
{
    assert(crc_of(t, seq![b], a) == crc_of(t, seq![b], a));
}

/// Relies on String::from_utf8_lossy: bytes below 128 are valid UTF-8 and
/// decode to exactly one character per byte, the character with the byte's
/// code point.
#[verifier::external_body]
fn ascii_to_string(bytes: &Vec<u8>) -> (r: String)
    requires
        forall|k: int| 0 <= k < bytes@.len() ==> bytes@[k] < 128,
    ensures
        r@ == chars_of(bytes@),
{
    String::from_utf8_lossy(bytes.as_slice()).to_string()
}

/// A fresh vector holding the bytes of `a` followed by those of `b`.
fn concat_bytes(a: &[u8], b: &Vec<u8>) -> (r: Vec<u8>)
    ensures
        r@ == a@ + b@,
{
    let mut r: Vec<u8> = Vec::new();
    for k in 0..a.len()
        invariant
            r@ == a@.take(k as int),
    {
        r.push(a[k]);
        proof {
            assert(r@ =~= a@.take(k as int + 1));
        }
    }
    proof {
        assert(a@.take(a@.len() as int) =~= a@);
        assert(a@ + b@.take(0) =~= a@);
    }
    for k in 0..b.len()
        invariant
            r@ == a@ + b@.take(k as int),
    {
        r.push(b[k]);
        proof {
            assert(r@ =~= a@ + b@.take(k as int + 1));
        }
    }
    proof {
        assert(a@ + b@.take(b@.len() as int) =~= a@ + b@);
    }
    r
}

/// Find every tail completion of `patch`: compute the accumulator after the
/// prefix, search for four-byte tails reaching `desired` from it, keep the
/// tails made of permitted bytes, and append the decoded `patch + tail`
/// strings to `out`. Existing entries are untouched; every appended string is
/// a permitted candidate with prefix `patch` and CRC32 `desired`.
pub fn print_permitted_reverse(
    out: &mut Vec<String>,
    crc32_reverse: &CRC32Reverse,
    patch: &[u8],
    desired: u32,
    accum: u32,
)
    requires
        crc32_reverse.wf(),
        forall|k: int| 0 <= k < patch@.len() ==> spec_permitted(#[trigger] patch@[k]),
    ensures
        final(out)@.len() >= old(out)@.len(),
        forall|k: int| 0 <= k < old(out)@.len() ==> final(out)@[k] == old(out)@[k],
        forall|k: int|
            old(out)@.len() <= k < final(out)@.len() ==> is_candidate_str(
                crc32_reverse.table@,
                (#[trigger] final(out)@[k])@,
                patch@,
                desired,
                accum,
            ),
        appends_all_tails(crc32_reverse.table@, patch@, desired, accum, final(out)@),
{
    let ghost t = crc32_reverse.table@;
    let ghost base = out@;
    let ap = crc32_reverse.calc(patch, accum);
    let patches = crc32_reverse.find_reverse(desired, ap);
    proof {
        assert forall|c: Seq<u8>|
            c.len() == 4 && all_permitted(c) && #[trigger] crc_of(t, patch@ + c, accum)
                == desired implies exists|q: int|
            0 <= q < patches@.len() && (#[trigger] patches@[q])@ == c by {
            lemma_not_not(crc_regs(t, patch@, !accum));
            lemma_crc_regs_concat(t, patch@, c, !accum);
            assert(crc_of(t, c, ap) == desired);
        }
    }
    for n in 0..patches.len()
        invariant
            crc32_reverse.wf(),
            t == crc32_reverse.table@,
            base == old(out)@,
            ap == crc_of(t, patch@, accum),
            forall|k: int| 0 <= k < patch@.len() ==> spec_permitted(#[trigger] patch@[k]),
            forall|k: int|
                0 <= k < patches@.len() ==> (#[trigger] patches@[k])@.len() == 4 && crc_of(
                    t,
                    patches@[k]@,
                    ap,
                ) == desired,
            out@.len() >= base.len(),
            forall|k: int| 0 <= k < base.len() ==> out@[k] == base[k],
            forall|k: int|
                base.len() <= k < out@.len() ==> is_candidate_str(
                    t,
                    (#[trigger] out@[k])@,
                    patch@,
                    desired,
                    accum,
                ),
            forall|c: Seq<u8>|
                c.len() == 4 && all_permitted(c) && #[trigger] crc_of(t, patch@ + c, accum)
                    == desired ==> (exists|k: int|
                    0 <= k < out@.len() && (#[trigger] out@[k])@ == chars_of(patch@ + c)) || (
                exists|q: int|
                    n <= q < patches@.len() && (#[trigger] patches@[q])@ == c),
    {
        let ghost oout = out@;
        let last_4_bytes = &patches[n];
        let mut allp = true;
        for q in 0..last_4_bytes.len()
            invariant
                allp == (forall|z: int|
                    0 <= z < q ==> spec_permitted(#[trigger] last_4_bytes@[z])),
        {
            if !is_permitted(last_4_bytes[q]) {
                allp = false;
            }
        }
        if allp {
            let patch2 = concat_bytes(patch, last_4_bytes);
            proof {
                lemma_not_not(crc_regs(t, patch@, !accum));
                lemma_crc_regs_concat(t, patch@, last_4_bytes@, !accum);
                assert(crc_of(t, patch2@, accum) == desired);
                assert(patch2@.take(patch@.len() as int) =~= patch@);
                assert(is_candidate(t, patch2@, patch@, desired, accum));
            }
            let s = ascii_to_string(&patch2);
            out.push(s);
            proof {
                assert(out@.last()@ == chars_of(patch2@));
                assert(is_candidate_str(t, out@.last()@, patch@, desired, accum));
                assert forall|c: Seq<u8>|
                    c.len() == 4 && all_permitted(c) && #[trigger] crc_of(t, patch@ + c, accum)
                        == desired implies (exists|k: int|
                    0 <= k < out@.len() && (#[trigger] out@[k])@ == chars_of(patch@ + c)) || (
                exists|q: int|
                    n + 1 <= q < patches@.len() && (#[trigger] patches@[q])@ == c) by {
                    if exists|k: int|
                        0 <= k < oout.len() && (#[trigger] oout[k])@ == chars_of(patch@ + c) {
                        let k = choose|k: int|
                            0 <= k < oout.len() && (#[trigger] oout[k])@ == chars_of(patch@ + c);
                        assert(out@[k]@ == chars_of(patch@ + c));
                    } else {
                        let q = choose|q: int|
                            n <= q < patches@.len() && (#[trigger] patches@[q])@ == c;
                        if q == n {
                            assert(last_4_bytes@ == c);
                            assert(patch2@ == patch@ + c);
                            assert(out@.last()@ == chars_of(patch@ + c));
                        } else {
                            assert(q >= n + 1);
                        }
                    }
                }
            }
        } else {
            proof {
                assert forall|c: Seq<u8>|
                    c.len() == 4 && all_permitted(c) && #[trigger] crc_of(t, patch@ + c, accum)
                        == desired implies (exists|k: int|
                    0 <= k < out@.len() && (#[trigger] out@[k])@ == chars_of(patch@ + c)) || (
                exists|q: int|
                    n + 1 <= q < patches@.len() && (#[trigger] patches@[q])@ == c) by {
                    if !(exists|k: int|
                        0 <= k < out@.len() && (#[trigger] out@[k])@ == chars_of(patch@ + c)) {
                        let q = choose|q: int|
                            n <= q < patches@.len() && (#[trigger] patches@[q])@ == c;
                        if q == n {
                            assert(last_4_bytes@ == c);
                            assert(forall|z: int|
                                0 <= z < 4 ==> spec_permitted(#[trigger] last_4_bytes@[z]));
                            assert(false);
                        }
                    }
                }
            }
        }
    }
}

/// Enumerate every printable CRC32 collision for `target_crc` under the
/// default polynomial: four-byte tails alone, then every permitted one-byte
/// and two-byte prefix extended with tails, keeping the candidates whose
/// length is `_byte_count`. Every returned string is a permitted byte string
/// of that length whose CRC32 from accumulator zero is `target_crc`.
pub fn crc_collision(target_crc: u32, _byte_count: usize) -> (r: Vec<String>)
    ensures
        forall|k: int|
            0 <= k < r@.len() ==> collision_str(
                (#[trigger] r@[k])@,
                target_crc,
                _byte_count as int,
            ),
        collision_complete(target_crc, _byte_count as int, r@),
{
    let poly: u32 = 0xEDB88320;
    let start: u32 = 0;
    let crc32_reverse = CRC32Reverse::new(poly);
    let ghost t = crc32_reverse.table@;
    proof {
        lemma_is_table_ieee(t);
    }
    let desired = target_crc;
    let mut out: Vec<String> = Vec::new();

    let empty: Vec<u8> = Vec::new();
    print_permitted_reverse(&mut out, &crc32_reverse, empty.as_slice(), desired, start);
    proof {
        assert forall|k: int| 0 <= k < out@.len() implies any_collision_str(
            (#[trigger] out@[k])@,
            target_crc,
        ) by {
            let bytes = choose|bytes: Seq<u8>|
                out@[k]@ == chars_of(bytes) && is_candidate(t, bytes, empty@, desired, start);
            assert(collision_str(out@[k]@, target_crc, 4));
        }
        assert forall|bytes: Seq<u8>|
            bytes.len() == 4 && all_permitted(bytes) && #[trigger] crc_of(ieee_table(), bytes, 0)
                == target_crc implies out_has(out@, bytes) by {
            assert(empty@ + bytes =~= bytes);
            assert(crc_of(t, empty@ + bytes, start) == desired);
            let k = choose|k: int|
                0 <= k < out@.len() && (#[trigger] out@[k])@ == chars_of(empty@ + bytes);
            assert(out@[k]@ == chars_of(bytes));
        }
        assert(covers_len(target_crc, 4, out@));
    }

    let alphabet = permitted_chars();
    proof {
        lemma_permitted_seq_members();
        assert forall|bytes: Seq<u8>|
            bytes.len() == 5 && all_permitted(bytes) && #[trigger] crc_of(ieee_table(), bytes, 0)
                == target_crc implies out_has(out@, bytes) || (exists|x2: int|
            0 <= x2 < 64 && #[trigger] permitted_seq()[x2] == bytes[0]) by {
            if !out_has(out@, bytes) {
                assert(spec_permitted(bytes[0]));
                lemma_permitted_in_seq(bytes[0]);
            }
        }
    }
    for x in 0..alphabet.len()
        invariant
            crc32_reverse.wf(),
            t == crc32_reverse.table@,
            t == ieee_table(),
            alphabet@ == permitted_seq(),
            desired == target_crc,
            start == 0,
            forall|k: int|
                0 <= k < out@.len() ==> any_collision_str((#[trigger] out@[k])@, target_crc),
            covers_len(target_crc, 4, out@),
            forall|bytes: Seq<u8>|
                bytes.len() == 5 && all_permitted(bytes) && #[trigger] crc_of(
                    ieee_table(),
                    bytes,
                    0,
                ) == target_crc ==> out_has(out@, bytes) || (exists|x2: int|
                    x <= x2 < 64 && #[trigger] permitted_seq()[x2] == bytes[0]),
    {
        let mut prefix: Vec<u8> = Vec::new();
        prefix.push(alphabet[x]);
        proof {
            lemma_permitted_seq_members();
            assert(spec_permitted(permitted_seq()[x as int]));
        }
        let ghost pre = out@;
        print_permitted_reverse(&mut out, &crc32_reverse, prefix.as_slice(), desired, start);
        proof {
            assert forall|k: int| 0 <= k < out@.len() implies any_collision_str(
                (#[trigger] out@[k])@,
                target_crc,
            ) by {
                if k >= pre.len() {
                    let bytes = choose|bytes: Seq<u8>|
                        out@[k]@ == chars_of(bytes) && is_candidate(
                            t,
                            bytes,
                            prefix@,
                            desired,
                            start,
                        );
                    assert(collision_str(out@[k]@, target_crc, 5));
                }
            }
            lemma_covers_extends(target_crc, 4, pre, out@);
            assert forall|bytes: Seq<u8>|
                bytes.len() == 5 && all_permitted(bytes) && #[trigger] crc_of(
                    ieee_table(),
                    bytes,
                    0,
                ) == target_crc implies out_has(out@, bytes) || (exists|x2: int|
                x + 1 <= x2 < 64 && #[trigger] permitted_seq()[x2] == bytes[0]) by {
                if !out_has(out@, bytes) {
                    if out_has(pre, bytes) {
                        lemma_out_has_extends(pre, out@, bytes);
                    } else {
                        let x2 = choose|x2: int|
                            x <= x2 < 64 && #[trigger] permitted_seq()[x2] == bytes[0];
                        if x2 == x {
                            assert(prefix@ =~= seq![bytes[0]]);
                            let tail = bytes.skip(1);
                            assert(tail.len() == 4);
                            assert forall|z: int| 0 <= z < tail.len() implies spec_permitted(
                                #[trigger] tail[z],
                            ) by {
                                assert(tail[z] == bytes[z + 1]);
                            }
                            assert(all_permitted(tail));
                            assert(prefix@ + tail =~= bytes);
                            assert(crc_of(t, prefix@ + tail, start) == desired);
                            let k = choose|k: int|
                                0 <= k < out@.len() && (#[trigger] out@[k])@ == chars_of(
                                    prefix@ + tail,
                                );
                            assert(out@[k]@ == chars_of(bytes));
                            assert(false);
                        } else {
                            assert(x2 >= x + 1);
                        }
                    }
                }
            }
        }
    }
    proof {
        assert forall|bytes: Seq<u8>|
            bytes.len() == 5 && all_permitted(bytes) && #[trigger] crc_of(ieee_table(), bytes, 0)
                == target_crc implies out_has(out@, bytes) by {}
        assert(covers_len(target_crc, 5, out@));
        assert forall|bytes: Seq<u8>|
            bytes.len() == 6 && all_permitted(bytes) && #[trigger] crc_of(ieee_table(), bytes, 0)
                == target_crc implies out_has(out@, bytes) || (exists|x2: int|
            0 <= x2 < 64 && #[trigger] permitted_seq()[x2] == bytes[0]) by {
            if !out_has(out@, bytes) {
                assert(spec_permitted(bytes[0]));
                lemma_permitted_in_seq(bytes[0]);
            }
        }
    }

    for x in 0..alphabet.len()
        invariant
            crc32_reverse.wf(),
            t == crc32_reverse.table@,
            t == ieee_table(),
            alphabet@ == permitted_seq(),
            desired == target_crc,
            start == 0,
            forall|k: int|
                0 <= k < out@.len() ==> any_collision_str((#[trigger] out@[k])@, target_crc),
            covers_len(target_crc, 4, out@),
            covers_len(target_crc, 5, out@),
            forall|bytes: Seq<u8>|
                bytes.len() == 6 && all_permitted(bytes) && #[trigger] crc_of(
                    ieee_table(),
                    bytes,
                    0,
                ) == target_crc ==> out_has(out@, bytes) || (exists|x2: int|
                    x <= x2 < 64 && #[trigger] permitted_seq()[x2] == bytes[0]),
    {
        proof {
            assert forall|bytes: Seq<u8>|
                bytes.len() == 6 && all_permitted(bytes) && #[trigger] crc_of(
                    ieee_table(),
                    bytes,
                    0,
                ) == target_crc implies out_has(out@, bytes) || (permitted_seq()[x as int]
                == bytes[0] && exists|y2: int|
                0 <= y2 < 64 && #[trigger] permitted_seq()[y2] == bytes[1]) || (exists|x2: int|
                x + 1 <= x2 < 64 && #[trigger] permitted_seq()[x2] == bytes[0]) by {
                if !out_has(out@, bytes) {
                    let x2 = choose|x2: int|
                        x <= x2 < 64 && #[trigger] permitted_seq()[x2] == bytes[0];
                    if permitted_seq()[x as int] == bytes[0] {
                        assert(spec_permitted(bytes[1]));
                        lemma_permitted_in_seq(bytes[1]);
                    } else {
                        assert(x2 >= x + 1);
                    }
                }
            }
        }
        for y in 0..alphabet.len()
            invariant
                crc32_reverse.wf(),
                t == crc32_reverse.table@,
                t == ieee_table(),
                alphabet@ == permitted_seq(),
                desired == target_crc,
                start == 0,
                x < alphabet@.len(),
                forall|k: int|
                    0 <= k < out@.len() ==> any_collision_str((#[trigger] out@[k])@, target_crc),
                covers_len(target_crc, 4, out@),
                covers_len(target_crc, 5, out@),
                forall|bytes: Seq<u8>|
                    bytes.len() == 6 && all_permitted(bytes) && #[trigger] crc_of(
                        ieee_table(),
                        bytes,
                        0,
                    ) == target_crc ==> out_has(out@, bytes) || (permitted_seq()[x as int]
                        == bytes[0] && exists|y2: int|
                        y <= y2 < 64 && #[trigger] permitted_seq()[y2] == bytes[1]) || (exists|
                        x2: int,
                    |
                        x + 1 <= x2 < 64 && #[trigger] permitted_seq()[x2] == bytes[0]),
        {
            let mut prefix: Vec<u8> = Vec::new();
            prefix.push(alphabet[x]);
            prefix.push(alphabet[y]);
            proof {
                lemma_permitted_seq_members();
                assert(spec_permitted(permitted_seq()[x as int]));
                assert(spec_permitted(permitted_seq()[y as int]));
            }
            let ghost pre = out@;
            print_permitted_reverse(&mut out, &crc32_reverse, prefix.as_slice(), desired, start);
            proof {
                assert forall|k: int| 0 <= k < out@.len() implies any_collision_str(
                    (#[trigger] out@[k])@,
                    target_crc,
                ) by {
                    if k >= pre.len() {
                        let bytes = choose|bytes: Seq<u8>|
                            out@[k]@ == chars_of(bytes) && is_candidate(
                                t,
                                bytes,
                                prefix@,
                                desired,
                                start,
                            );
                        assert(collision_str(out@[k]@, target_crc, 6));
                    }
                }
                lemma_covers_extends(target_crc, 4, pre, out@);
                lemma_covers_extends(target_crc, 5, pre, out@);
                assert forall|bytes: Seq<u8>|
                    bytes.len() == 6 && all_permitted(bytes) && #[trigger] crc_of(
                        ieee_table(),
                        bytes,
                        0,
                    ) == target_crc implies out_has(out@, bytes) || (permitted_seq()[x as int]
                    == bytes[0] && exists|y2: int|
                    y + 1 <= y2 < 64 && #[trigger] permitted_seq()[y2] == bytes[1]) || (exists|
                    x2: int,
                |
                    x + 1 <= x2 < 64 && #[trigger] permitted_seq()[x2] == bytes[0]) by {
                    if !out_has(out@, bytes) {
                        if out_has(pre, bytes) {
                            lemma_out_has_extends(pre, out@, bytes);
                        } else if permitted_seq()[x as int] == bytes[0] && (exists|y2: int|
                            y <= y2 < 64 && #[trigger] permitted_seq()[y2] == bytes[1]) {
                            let y2 = choose|y2: int|
                                y <= y2 < 64 && #[trigger] permitted_seq()[y2] == bytes[1];
                            if y2 == y {
                                assert(prefix@ =~= seq![bytes[0], bytes[1]]);
                                let tail = bytes.skip(2);
                                assert(tail.len() == 4);
                                assert forall|z: int| 0 <= z < tail.len() implies spec_permitted(
                                    #[trigger] tail[z],
                                ) by {
                                    assert(tail[z] == bytes[z + 2]);
                                }
                                assert(all_permitted(tail));
                                assert(prefix@ + tail =~= bytes);
                                assert(crc_of(t, prefix@ + tail, start) == desired);
                                let k = choose|k: int|
                                    0 <= k < out@.len() && (#[trigger] out@[k])@ == chars_of(
                                        prefix@ + tail,
                                    );
                                assert(out@[k]@ == chars_of(bytes));
                                assert(false);
                            } else {
                                assert(y2 >= y + 1);
                            }
                        }
                    }
                }
            }
        }
        proof {
            assert forall|bytes: Seq<u8>|
                bytes.len() == 6 && all_permitted(bytes) && #[trigger] crc_of(
                    ieee_table(),
                    bytes,
                    0,
                ) == target_crc implies out_has(out@, bytes) || (exists|x2: int|
                x + 1 <= x2 < 64 && #[trigger] permitted_seq()[x2] == bytes[0]) by {}
        }
    }
    proof {
        assert forall|bytes: Seq<u8>|
            bytes.len() == 6 && all_permitted(bytes) && #[trigger] crc_of(ieee_table(), bytes, 0)
                == target_crc implies out_has(out@, bytes) by {}
        assert(covers_len(target_crc, 6, out@));
    }

    let mut filtered: Vec<String> = Vec::new();
    proof {
        assert forall|bytes: Seq<u8>|
            bytes.len() == _byte_count && 4 <= _byte_count <= 6 && all_permitted(bytes)
                && #[trigger] crc_of(ieee_table(), bytes, 0) == target_crc implies out_has(
            filtered@,
            bytes,
        ) || (exists|q: int|
            0 <= q < out@.len() && (#[trigger] out@[q])@ == chars_of(bytes)) by {
            if _byte_count == 4 || _byte_count == 5 || _byte_count == 6 {
                assert(out_has(out@, bytes));
                let k = choose|k: int|
                    0 <= k < out@.len() && (#[trigger] out@[k])@ == chars_of(bytes);
            }
        }
    }
    for n in 0..out.len()
        invariant
            forall|k: int|
                0 <= k < out@.len() ==> any_collision_str((#[trigger] out@[k])@, target_crc),
            forall|k: int|
                0 <= k < filtered@.len() ==> collision_str(
                    (#[trigger] filtered@[k])@,
                    target_crc,
                    _byte_count as int,
                ),
            forall|bytes: Seq<u8>|
                bytes.len() == _byte_count && 4 <= _byte_count <= 6 && all_permitted(bytes)
                    && #[trigger] crc_of(ieee_table(), bytes, 0) == target_crc ==> out_has(
                    filtered@,
                    bytes,
                ) || (exists|q: int|
                    n <= q < out@.len() && (#[trigger] out@[q])@ == chars_of(bytes)),
    {
        let s = &out[n];
        let ghost pre_filtered = filtered@;
        if s.as_str().unicode_len() == _byte_count {
            let copied = s.clone();
            proof {
                let nn = choose|nn: int| 4 <= nn <= 6 && collision_str(out@[n as int]@, target_crc, nn);
                let bytes = choose|bytes: Seq<u8>|
                    {
                        &&& out@[n as int]@ == chars_of(bytes)
                        &&& bytes.len() == nn
                        &&& 4 <= nn <= 6
                        &&& forall|k: int|
                            0 <= k < bytes.len() ==> spec_permitted(#[trigger] bytes[k])
                        &&& crc_of(ieee_table(), bytes, 0) == target_crc
                    };
                assert(out@[n as int]@.len() == bytes.len());
                assert(nn == _byte_count as int);
            }
            filtered.push(copied);
            proof {
                assert(filtered@.last()@ == out@[n as int]@);
                assert forall|bytes: Seq<u8>|
                    bytes.len() == _byte_count && 4 <= _byte_count <= 6 && all_permitted(bytes)
                        && #[trigger] crc_of(ieee_table(), bytes, 0) == target_crc implies
                    out_has(filtered@, bytes) || (exists|q: int|
                    n + 1 <= q < out@.len() && (#[trigger] out@[q])@ == chars_of(bytes)) by {
                    if out_has(pre_filtered, bytes) {
                        lemma_out_has_extends(pre_filtered, filtered@, bytes);
                    } else {
                        let q = choose|q: int|
                            n <= q < out@.len() && (#[trigger] out@[q])@ == chars_of(bytes);
                        if q == n {
                            assert(filtered@.last()@ == chars_of(bytes));
                            assert(out_has(filtered@, bytes));
                        } else {
                            assert(q >= n + 1);
                        }
                    }
                }
            }
        } else {
            proof {
                assert forall|bytes: Seq<u8>|
                    bytes.len() == _byte_count && 4 <= _byte_count <= 6 && all_permitted(bytes)
                        && #[trigger] crc_of(ieee_table(), bytes, 0) == target_crc implies
                    out_has(filtered@, bytes) || (exists|q: int|
                    n + 1 <= q < out@.len() && (#[trigger] out@[q])@ == chars_of(bytes)) by {
                    if !out_has(filtered@, bytes) {
                        let q = choose|q: int|
                            n <= q < out@.len() && (#[trigger] out@[q])@ == chars_of(bytes);
                        if q == n {
                            assert(chars_of(bytes).len() == bytes.len());
                            assert(out@[n as int]@.len() == _byte_count);
                            assert(false);
                        } else {
                            assert(q >= n + 1);
                        }
                    }
                }
            }
        }
    }
    proof {
        assert forall|bytes: Seq<u8>|
            bytes.len() == _byte_count && 4 <= _byte_count <= 6 && all_permitted(bytes)
                && #[trigger] crc_of(ieee_table(), bytes, 0) == target_crc implies out_has(
            filtered@,
            bytes,
        ) by {}
        assert(collision_complete(target_crc, _byte_count as int, filtered@));
    }
    filtered
}

} // verus!
