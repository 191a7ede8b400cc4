//! Backward CRC32: the reverse (byte-bucket) table derived from the forward
//! table, rewinding an accumulator across a known buffer, and the bounded
//! depth-four search for tail bytes that land on a target checksum.

use vstd::prelude::*;
use crate::crc::{crc_step, crc_regs, crc_of, is_table, CRC32, lemma_low_byte_bound, lemma_shr8_mask};

verus! {

/// Bits 24 and up of a 32-bit value fit in a byte, so masking them is
/// redundant and they index a 256-entry table safely.
pub proof fn lemma_top_byte_bound(x: u32)
    by (bit_vector)
    ensures
        (x >> 24) & 0xFF == x >> 24,
        x >> 24 < 256,
{
}

/// Complementing twice gives the value back.
pub proof fn lemma_not_not(x: u32)
    by (bit_vector)
    ensures
        !(!x) == x,
{
}

/// The table index that the forward step from register `w` consumes when it
/// processes byte `b`.
pub open spec fn idx_of(w: u32, b: u8) -> u8 {
    ((w ^ (b as u32)) & 0xFF) as u8
}

/// Powers of 257, the termination potential of one search node: popping a
/// node spends its power and pushes at most 256 nodes of the next smaller
/// power.
pub open spec fn pow257(n: nat) -> nat
    decreases n,
{
    if n == 0 {
        1
    } else {
        257 * pow257((n - 1) as nat)
    }
}

pub proof fn lemma_pow257_pos(n: nat)
    ensures
        pow257(n) >= 1,
    decreases n,
{
    if n > 0 {
        lemma_pow257_pos((n - 1) as nat);
        assert(257 * pow257((n - 1) as nat) >= pow257((n - 1) as nat)) by (nonlinear_arith)
            requires
                pow257((n - 1) as nat) >= 1,
        ;
    }
}

/// Termination potential of the rewind stack: the sum of the node powers of
/// its offsets.
pub open spec fn rpot(s: Seq<(usize, u32)>) -> nat
    decreases s.len(),
{
    if s.len() == 0 {
        0
    } else {
        rpot(s.drop_last()) + pow257(s.last().0 as nat)
    }
}

pub proof fn lemma_rpot_push(s: Seq<(usize, u32)>, x: (usize, u32))
    ensures
        rpot(s.push(x)) == rpot(s) + pow257(x.0 as nat),
{
    assert(s.push(x).drop_last() =~= s);
    assert(s.push(x).last() == x);
}

/// An element of a sequence survives a push.
pub proof fn lemma_contains_push<A>(s: Seq<A>, x: A, y: A)
    requires
        s.contains(y),
    ensures
        s.push(x).contains(y),
{
    let w = choose|w: int| 0 <= w < s.len() && s[w] == y;
    assert(s.push(x)[w] == y);
}

/// An element of a nonempty sequence is its last element or survives
/// dropping it.
pub proof fn lemma_contains_drop_last<A>(s: Seq<A>, y: A)
    requires
        s.len() > 0,
        s.contains(y),
    ensures
        y == s.last() || s.drop_last().contains(y),
{
    let w = choose|w: int| 0 <= w < s.len() && s[w] == y;
    if w < s.len() - 1 {
        assert(s.drop_last()[w] == y);
    }
}

/// Appending one byte to the data extends the register fold by one step.
pub proof fn lemma_crc_regs_push(t: Seq<u32>, s: Seq<u8>, b: u8, r: u32)
    ensures
        crc_regs(t, s.push(b), r) == crc_step(t, crc_regs(t, s, r), b),
    decreases s.len(),
{
    let e = s.push(b);
    assert(e.len() > 0);
    assert(crc_regs(t, e, r) == crc_regs(t, e.drop_first(), crc_step(t, r, e[0])));
    if s.len() == 0 {
        assert(e.drop_first() =~= Seq::<u8>::empty());
        assert(e[0] == b);
        assert(crc_regs(t, e.drop_first(), crc_step(t, r, b)) == crc_step(t, r, b));
    } else {
        assert(e.drop_first() =~= s.drop_first().push(b));
        assert(e[0] == s[0]);
        lemma_crc_regs_push(t, s.drop_first(), b, crc_step(t, r, s[0]));
        assert(crc_regs(t, s, r) == crc_regs(t, s.drop_first(), crc_step(t, r, s[0])));
    }
}

/// A reconstructed predecessor register steps forward to the node it was
/// derived from: the byte selects the bucket member as table index, and the
/// xor-shift undoes the reconstruction.
pub proof fn lemma_backstep(tv: u32, node: u32, i: u8, b: u8, prev: u32)
    by (bit_vector)
    requires
        tv >> 24 == node >> 24,
        prev == ((node ^ tv) << 8) | ((i as u32) ^ (b as u32)),
    ensures
        (prev ^ (b as u32)) & 0xFF == i as u32,
        tv ^ (prev >> 8) == node,
{
}

/// The backward reconstruction is exact: from the node that one forward step
/// out of register `w` produced, the bucket member it consumed rebuilds `w`
/// itself.
pub proof fn lemma_backstep_exact(tv: u32, w: u32, b: u8, node: u32)
    by (bit_vector)
    requires
        node == tv ^ (w >> 8),
    ensures
        node >> 24 == tv >> 24,
        ((node ^ tv) << 8) | ((idx_of(w, b) as u32) ^ (b as u32)) == w,
        (w ^ (b as u32)) & 0xFF == idx_of(w, b) as u32,
{
}

/// Replays forward register transitions whose table indices are already
/// known, consuming `idxs` from its end: the backward search discovers the
/// last byte's index first, so the index of the first byte processed forward
/// sits at the end of the path.
pub open spec fn steps_rev(t: Seq<u32>, reg: u32, idxs: Seq<u8>) -> u32
    recommends
        t.len() == 256,
    decreases idxs.len(),
{
    if idxs.len() == 0 {
        reg
    } else {
        steps_rev(t, t[idxs.last() as int] ^ (reg >> 8), idxs.drop_last())
    }
}

/// The two registers agree on every bit from position `8 * m` up.
pub open spec fn agrees_high(a: u32, v: u32, m: nat) -> bool
    recommends
        m <= 3,
{
    a >> ((8 * m) as u32) == v >> ((8 * m) as u32)
}

/// The meaning of a backward-search node: a node at depth `m` fixes the top
/// `8 * (4 - m)` bits of the register that the forward replay of its path
/// must start from, and every such start reaches the target register.
pub open spec fn node_ok(t: Seq<u32>, v: u32, path: Seq<u8>, target: u32) -> bool
    recommends
        t.len() == 256,
        path.len() <= 3,
{
    forall|a: u32| #[trigger] agrees_high(a, v, path.len()) ==> steps_rev(t, a, path) == target
}

pub proof fn lemma_shr0(x: u32)
    by (bit_vector)
    ensures
        x >> 0 == x,
{
}

pub proof fn lemma_xor_comm(x: u32, y: u32)
    by (bit_vector)
    ensures
        x ^ y == y ^ x,
{
}

/// A fresh byte-for-byte copy of a byte vector.
fn copy_bytes(v: &Vec<u8>) -> (r: Vec<u8>)
    ensures
        r@ == v@,
{
    let mut r: Vec<u8> = Vec::new();
    for k in 0..v.len()
        invariant
            r@ == v@.take(k as int),
    {
        r.push(v[k]);
        proof {
            assert(r@ =~= v@.take(k as int + 1));
        }
    }
    proof {
        assert(v@.take(v@.len() as int) =~= v@);
    }
    r
}

/// The root of the backward search: the complemented target itself, with an
/// empty path.
pub proof fn lemma_node_ok_base(t: Seq<u32>, target: u32)
    ensures
        node_ok(t, target, Seq::<u8>::empty(), target),
{
    assert forall|a: u32| #[trigger] agrees_high(a, target, 0) implies steps_rev(
        t,
        a,
        Seq::<u8>::empty(),
    ) == target by {
        lemma_shr0(a);
        lemma_shr0(target);
    }
}

/// Expanding a node through a bucket member `j` yields a valid child: the
/// child state pins one more byte of the start register, and the extended
/// path still replays to the target.
pub proof fn lemma_node_ok_child(t: Seq<u32>, v: u32, path: Seq<u8>, target: u32, j: u8)
    requires
        t.len() == 256,
        path.len() <= 2,
        node_ok(t, v, path, target),
        t[j as int] >> 24 == v >> 24,
    ensures
        node_ok(t, (v ^ t[j as int]) << 8, path.push(j), target),
{
    let tv = t[j as int];
    let v2 = (v ^ tv) << 8;
    let m = path.len();
    assert forall|a: u32| #[trigger] agrees_high(a, v2, path.push(j).len()) implies steps_rev(
        t,
        a,
        path.push(j),
    ) == target by {
        let step = tv ^ (a >> 8);
        if m == 0 {
            assert(tv ^ (a >> 8) == v) by (bit_vector)
                requires
                    a >> 8 == ((v ^ tv) << 8) >> 8,
                    tv >> 24 == v >> 24,
            ;
            lemma_shr0(step);
            lemma_shr0(v);
            assert(agrees_high(step, v, 0));
        } else if m == 1 {
            assert((tv ^ (a >> 8)) >> 8 == v >> 8) by (bit_vector)
                requires
                    a >> 16 == ((v ^ tv) << 8) >> 16,
                    tv >> 24 == v >> 24,
            ;
            assert(agrees_high(step, v, 1));
        } else {
            assert((tv ^ (a >> 8)) >> 16 == v >> 16) by (bit_vector)
                requires
                    a >> 24 == ((v ^ tv) << 8) >> 24,
                    tv >> 24 == v >> 24,
            ;
            assert(agrees_high(step, v, 2));
        }
        assert(steps_rev(t, step, path) == target);
        assert(path.push(j).last() == j);
        assert(path.push(j).drop_last() =~= path);
        assert(steps_rev(t, a, path.push(j)) == steps_rev(t, tv ^ (a >> 8), path));
    }
}

/// The first forward replay step lands in the top-byte window of the
/// depth-three node it was expanded from.
pub proof fn lemma_first_step_agrees(tv: u32, a0: u32)
    by (bit_vector)
    ensures
        (tv ^ (a0 >> 8)) >> 24 == tv >> 24,
{
}

/// The byte materialized from register `a` and table index `jj` makes the
/// forward step consume exactly index `jj`.
pub proof fn lemma_mat_index(a: u32, jj: u8)
    by (bit_vector)
    ensures
        (a ^ ((a ^ (jj as u32)) as u8 as u32)) & 0xFF == jj as u32,
{
}

/// The register after the first `k` bytes of candidate tail `c`, starting
/// from live accumulator `accum`.
pub open spec fn tail_reg(t: Seq<u32>, c: Seq<u8>, accum: u32, k: int) -> u32 {
    crc_regs(t, c.take(k), !accum)
}

/// The table index that the forward step over byte `k` of candidate `c`
/// consumes.
pub open spec fn tail_idx(t: Seq<u32>, c: Seq<u8>, accum: u32, k: int) -> u8 {
    idx_of(tail_reg(t, c, accum, k), c[k])
}

/// The backward-search path that leads to candidate `c` after `m`
/// expansions: the indices of its forward steps, last step first.
pub open spec fn tail_path(t: Seq<u32>, c: Seq<u8>, accum: u32, m: int) -> Seq<u8> {
    Seq::new(m as nat, |q: int| tail_idx(t, c, accum, 3 - q))
}

/// A search node is candidate `c`'s witness: its path holds `c`'s last
/// indices and its state agrees with `c`'s matching forward register on the
/// bits that the search has not yet pinned.
pub open spec fn is_tail_witness(t: Seq<u32>, c: Seq<u8>, accum: u32, node: (u32, Vec<u8>)) -> bool {
    let m = node.1@.len() as int;
    &&& m <= 3
    &&& node.1@ == tail_path(t, c, accum, m)
    &&& agrees_high(tail_reg(t, c, accum, 4 - m), node.0, node.1@.len())
}

/// One forward step of candidate `c`, phrased over its register and index
/// chain.
pub proof fn lemma_tail_step(t: Seq<u32>, c: Seq<u8>, accum: u32, k: int)
    requires
        t.len() == 256,
        0 <= k < c.len(),
    ensures
        (tail_reg(t, c, accum, k) ^ (c[k] as u32)) & 0xFF == tail_idx(t, c, accum, k) as u32,
        tail_reg(t, c, accum, k + 1) == t[tail_idx(t, c, accum, k) as int] ^ (tail_reg(
            t,
            c,
            accum,
            k,
        ) >> 8),
{
    let w = tail_reg(t, c, accum, k);
    lemma_low_byte_bound(w ^ (c[k] as u32));
    assert(((w ^ (c[k] as u32)) & 0xFF) as int == tail_idx(t, c, accum, k) as int);
    assert(c.take(k + 1) =~= c.take(k).push(c[k]));
    lemma_crc_regs_push(t, c.take(k), c[k], !accum);
    assert(tail_reg(t, c, accum, k + 1) == crc_step(t, w, c[k]));
}

/// Registers that agree above some pinned byte boundary agree on the top
/// byte in particular.
pub proof fn lemma_agrees_top(a: u32, v: u32, m: nat)
    requires
        m <= 3,
        agrees_high(a, v, m),
    ensures
        a >> 24 == v >> 24,
{
    if m == 0 {
        lemma_shr0(a);
        lemma_shr0(v);
    } else if m == 1 {
        assert(a >> 24 == v >> 24) by (bit_vector)
            requires
                a >> 8 == v >> 8,
        ;
    } else if m == 2 {
        assert(a >> 24 == v >> 24) by (bit_vector)
            requires
                a >> 16 == v >> 16,
        ;
    }
}

/// Expanding a witness node through the candidate's next index yields the
/// witness of the next depth: the child state pins one more byte of the
/// preceding forward register.
pub proof fn lemma_child_witness(tv: u32, v: u32, w: u32, m: nat)
    requires
        m <= 2,
        agrees_high(tv ^ (w >> 8), v, m),
    ensures
        agrees_high(w, (v ^ tv) << 8, m + 1),
{
    if m == 0 {
        lemma_shr0(tv ^ (w >> 8));
        lemma_shr0(v);
        assert(w >> 8 == ((v ^ tv) << 8) >> 8) by (bit_vector)
            requires
                v == tv ^ (w >> 8),
        ;
    } else if m == 1 {
        assert(w >> 16 == ((v ^ tv) << 8) >> 16) by (bit_vector)
            requires
                (tv ^ (w >> 8)) >> 8 == v >> 8,
        ;
    } else {
        assert(w >> 24 == ((v ^ tv) << 8) >> 24) by (bit_vector)
            requires
                (tv ^ (w >> 8)) >> 16 == v >> 16,
        ;
    }
}

/// The byte materialized from a register and the index that the candidate's
/// own forward step consumes is the candidate's byte itself.
pub proof fn lemma_mat_byte(w: u32, b: u8)
    by (bit_vector)
    ensures
        (w ^ (idx_of(w, b) as u32)) as u8 == b,
{
}

/// Every four-byte preimage of `desired` from `accum` appears in `r`.
pub open spec fn finds_all_tails(t: Seq<u32>, desired: u32, accum: u32, r: Seq<Vec<u8>>) -> bool {
    forall|c: Seq<u8>|
        c.len() == 4 && #[trigger] crc_of(t, c, accum) == desired ==> exists|k: int|
            0 <= k < r.len() && (#[trigger] r[k])@ == c
}

/// Mid-search coverage: every four-byte preimage is already a solution or
/// still has a witness node on the stack.
pub open spec fn tails_covered(
    t: Seq<u32>,
    desired: u32,
    accum: u32,
    stack: Seq<(u32, Vec<u8>)>,
    sols: Seq<Vec<u8>>,
) -> bool {
    forall|c: Seq<u8>|
        c.len() == 4 && #[trigger] crc_of(t, c, accum) == desired ==> (exists|k: int|
            0 <= k < sols.len() && (#[trigger] sols[k])@ == c) || (exists|k: int|
            0 <= k < stack.len() && is_tail_witness(t, c, accum, #[trigger] stack[k]))
}

/// Termination potential of one tail-search node at path depth `m`.
pub open spec fn fnode_pot(m: nat) -> nat {
    if m <= 4 {
        pow257((4 - m) as nat)
    } else {
        1
    }
}

/// Termination potential of the tail-search stack.
pub open spec fn fpot(s: Seq<(u32, Vec<u8>)>) -> nat
    decreases s.len(),
{
    if s.len() == 0 {
        0
    } else {
        fpot(s.drop_last()) + fnode_pot(s.last().1@.len())
    }
}

pub proof fn lemma_fpot_push(s: Seq<(u32, Vec<u8>)>, x: (u32, Vec<u8>))
    ensures
        fpot(s.push(x)) == fpot(s) + fnode_pot(x.1@.len()),
{
    assert(s.push(x).drop_last() =~= s);
    assert(s.push(x).last() == x);
}


/// Strictly increasing byte sequences with the same members are identical.
proof fn lemma_sorted_same_members(s1: Seq<u8>, s2: Seq<u8>)
    requires
        forall|k1: int, k2: int| 0 <= k1 < k2 < s1.len() ==> s1[k1] < s1[k2],
        forall|k1: int, k2: int| 0 <= k1 < k2 < s2.len() ==> s2[k1] < s2[k2],
        forall|b: u8| s1.contains(b) <==> s2.contains(b),
    ensures
        s1 == s2,
    decreases s1.len(),
{
    if s1.len() == 0 {
        if s2.len() > 0 {
            assert(s2.contains(s2[0]));
            assert(s1.contains(s2[0]));
            let w = choose|w: int| 0 <= w < s1.len() && s1[w] == s2[0];
            assert(false);
        }
        assert(s1 =~= s2);
    } else {
        assert(s1.contains(s1[0]));
        assert(s2.contains(s1[0]));
        let w2 = choose|w2: int| 0 <= w2 < s2.len() && s2[w2] == s1[0];
        assert(s2[0] <= s1[0]);
        assert(s2.contains(s2[0]));
        assert(s1.contains(s2[0]));
        let w1 = choose|w1: int| 0 <= w1 < s1.len() && s1[w1] == s2[0];
        assert(s1[0] <= s2[0]);
        let t1 = s1.drop_first();
        let t2 = s2.drop_first();
        assert forall|k1: int, k2: int| 0 <= k1 < k2 < t1.len() implies t1[k1] < t1[k2] by {
            assert(t1[k1] == s1[k1 + 1]);
            assert(t1[k2] == s1[k2 + 1]);
        }
        assert forall|k1: int, k2: int| 0 <= k1 < k2 < t2.len() implies t2[k1] < t2[k2] by {
            assert(t2[k1] == s2[k1 + 1]);
            assert(t2[k2] == s2[k2 + 1]);
        }
        assert forall|b: u8| t1.contains(b) <==> t2.contains(b) by {
            if t1.contains(b) {
                let k = choose|k: int| 0 <= k < t1.len() && t1[k] == b;
                assert(s1[k + 1] == b);
                assert(s1[0] < s1[k + 1]);
                assert(s1.contains(b));
                assert(s2.contains(b));
                let k2 = choose|k2: int| 0 <= k2 < s2.len() && s2[k2] == b;
                assert(k2 != 0);
                assert(t2[k2 - 1] == b);
                assert(t2.contains(b));
            }
            if t2.contains(b) {
                let k = choose|k: int| 0 <= k < t2.len() && t2[k] == b;
                assert(s2[k + 1] == b);
                assert(s2[0] < s2[k + 1]);
                assert(s2.contains(b));
                assert(s1.contains(b));
                let k1 = choose|k1: int| 0 <= k1 < s1.len() && s1[k1] == b;
                assert(k1 != 0);
                assert(t1[k1 - 1] == b);
                assert(t1.contains(b));
            }
        }
        lemma_sorted_same_members(t1, t2);
        assert forall|k: int| 0 <= k < s1.len() implies s1[k] == s2[k] by {
            if k > 0 {
                assert(s1[k] == t1[k - 1]);
                assert(s2[k] == t2[k - 1]);
            }
        }
        assert(s1 =~= s2);
    }
}

/// Deriving the reverse table is deterministic: two well-formed reverse
/// structures for the same polynomial, with their buckets in increasing
/// order, are bit-identical, buckets included.
pub proof fn lemma_reverse_build_deterministic(r1: &CRC32Reverse, r2: &CRC32Reverse, poly: u32)
    requires
        r1.wf(),
        r2.wf(),
        is_table(r1.table@, poly),
        is_table(r2.table@, poly),
        forall|tb: int, k1: int, k2: int|
            0 <= tb < 256 && 0 <= k1 < k2 < r1.table_reverse@[tb]@.len()
                ==> (#[trigger] r1.table_reverse@[tb]@[k1]) < (#[trigger] r1.table_reverse@[tb]@[k2]),
        forall|tb: int, k1: int, k2: int|
            0 <= tb < 256 && 0 <= k1 < k2 < r2.table_reverse@[tb]@.len()
                ==> (#[trigger] r2.table_reverse@[tb]@[k1]) < (#[trigger] r2.table_reverse@[tb]@[k2]),
    ensures
        r1.table@ == r2.table@,
        forall|tb: int|
            0 <= tb < 256 ==> (#[trigger] r1.table_reverse@[tb])@ == r2.table_reverse@[tb]@,
{
    crate::crc::lemma_build_deterministic(poly, r1.table@, r2.table@);
    assert forall|tb: int| 0 <= tb < 256 implies (#[trigger] r1.table_reverse@[tb])@
        == r2.table_reverse@[tb]@ by {
        let b1 = r1.table_reverse@[tb]@;
        let b2 = r2.table_reverse@[tb]@;
        assert forall|b: u8| b1.contains(b) <==> b2.contains(b) by {
            if b1.contains(b) {
                let k = choose|k: int| 0 <= k < b1.len() && b1[k] == b;
                assert(r1.table@[r1.table_reverse@[tb]@[k] as int] >> 24 == tb as u32);
                assert(r2.table@[b as int] >> 24 == tb as u32);
                assert(r2.table_reverse@[(r2.table@[b as int] >> 24) as int]@.contains(
                    (b as int) as u8,
                ));
                assert(b2.contains(b));
            }
            if b2.contains(b) {
                let k = choose|k: int| 0 <= k < b2.len() && b2[k] == b;
                assert(r2.table@[r2.table_reverse@[tb]@[k] as int] >> 24 == tb as u32);
                assert(r1.table@[b as int] >> 24 == tb as u32);
                assert(r1.table_reverse@[(r1.table@[b as int] >> 24) as int]@.contains(
                    (b as int) as u8,
                ));
                assert(b1.contains(b));
            }
        }
        assert forall|k1: int, k2: int| 0 <= k1 < k2 < b1.len() implies b1[k1] < b1[k2] by {
            assert(r1.table_reverse@[tb]@[k1] < r1.table_reverse@[tb]@[k2]);
        }
        assert forall|k1: int, k2: int| 0 <= k1 < k2 < b2.len() implies b2[k1] < b2[k2] by {
            assert(r2.table_reverse@[tb]@[k1] < r2.table_reverse@[tb]@[k2]);
        }
        lemma_sorted_same_members(b1, b2);
    }
}

/// The forward table together with its partition into buckets keyed by the
/// top byte of each entry.
pub struct CRC32Reverse {
    pub table: Vec<u32>,
    pub table_reverse: Vec<Vec<u8>>,
}

impl CRC32Reverse {
    /// The bucket structure is faithful to the forward table: every bucket
    /// member's table entry has the bucket's key as its top byte (soundness),
    /// every input byte appears in the bucket of its entry's top byte
    /// (completeness), and no bucket outgrows the 256 inputs.
    pub open spec fn wf(&self) -> bool {
        &&& self.table@.len() == 256
        &&& self.table_reverse@.len() == 256
        &&& forall|tb: int, k: int|
            0 <= tb < 256 && 0 <= k < self.table_reverse@[tb]@.len()
                ==> self.table@[#[trigger] self.table_reverse@[tb]@[k] as int] >> 24 == tb as u32
        &&& forall|j: int|
            0 <= j < 256 ==> self.table_reverse@[(#[trigger] self.table@[j] >> 24) as int]@.contains(
                j as u8,
            )
        &&& forall|tb: int| 0 <= tb < 256 ==> (#[trigger] self.table_reverse@[tb])@.len() <= 256
    }

    /// Build the forward table for `poly` and partition its entries into
    /// buckets by top byte, each bucket listing input bytes in increasing
    /// order.
    pub fn new(poly: u32) -> (r: CRC32Reverse)
        ensures
            r.wf(),
            is_table(r.table@, poly),
            forall|tb: int, k1: int, k2: int|
                0 <= tb < 256 && 0 <= k1 < k2 < r.table_reverse@[tb]@.len()
                    ==> (#[trigger] r.table_reverse@[tb]@[k1]) < (#[trigger] r.table_reverse@[tb]@[k2]),
    {
        let crc32 = CRC32::new(poly);
        let mut table_reverse: Vec<Vec<u8>> = Vec::new();
        for tb in 0..256usize
            invariant
                is_table(crc32.table@, poly),
                table_reverse@.len() == tb,
                forall|tbi: int, k: int|
                    0 <= tbi < tb && 0 <= k < table_reverse@[tbi]@.len()
                        ==> crc32.table@[#[trigger] table_reverse@[tbi]@[k] as int] >> 24
                            == tbi as u32,
                forall|tbi: int, j: int|
                    0 <= tbi < tb && 0 <= j < 256 && crc32.table@[j] >> 24 == tbi as u32
                        ==> #[trigger] table_reverse@[tbi]@.contains(j as u8),
                forall|tbi: int| 0 <= tbi < tb ==> (#[trigger] table_reverse@[tbi])@.len() <= 256,
                forall|tbi: int, k1: int, k2: int|
                    0 <= tbi < tb && 0 <= k1 < k2 < table_reverse@[tbi]@.len()
                        ==> (#[trigger] table_reverse@[tbi]@[k1]) < (#[trigger] table_reverse@[
                    tbi]@[k2]),
        {
            let mut bucket: Vec<u8> = Vec::new();
            for j in 0..256usize
                invariant
                    is_table(crc32.table@, poly),
                    bucket@.len() <= j,
                    forall|k: int|
                        0 <= k < bucket@.len()
                            ==> crc32.table@[#[trigger] bucket@[k] as int] >> 24 == tb as u32,
                    forall|ji: int|
                        0 <= ji < j && crc32.table@[ji] >> 24 == tb as u32 ==> bucket@.contains(
                            ji as u8,
                        ),
                    forall|k: int| 0 <= k < bucket@.len() ==> (#[trigger] bucket@[k]) < j,
                    forall|k1: int, k2: int|
                        0 <= k1 < k2 < bucket@.len() ==> (#[trigger] bucket@[k1]) < (
                        #[trigger] bucket@[k2]),
            {
                let ghost ob = bucket@;
                if (crc32.table[j] >> 24) == tb as u32 {
                    bucket.push(j as u8);
                    proof {
                        assert(bucket@[ob.len() as int] == j as u8);
                        assert(j as u8 as int == j);
                        assert forall|ji: int|
                            0 <= ji < j + 1 && crc32.table@[ji] >> 24 == tb as u32 implies bucket@
                            .contains(ji as u8) by {
                            if ji == j {
                                assert(bucket@[ob.len() as int] == ji as u8);
                            } else {
                                let w = choose|w: int| 0 <= w < ob.len() && ob[w] == ji as u8;
                                assert(bucket@[w] == ji as u8);
                            }
                        }
                    }
                }
            }
            table_reverse.push(bucket);
        }
        proof {
            assert forall|j: int| 0 <= j < 256 implies table_reverse@[(
                #[trigger] crc32.table@[j] >> 24) as int]@.contains(j as u8) by {
                lemma_top_byte_bound(crc32.table@[j]);
            }
        }
        CRC32Reverse { table: crc32.table, table_reverse }
    }

    /// Walk `data` from its end backward, branching on every bucket member
    /// that shares the current state's top byte, and collect the accumulators
    /// from which processing `data` forward yields `accum`. The result is
    /// exactly that set: every returned value reproduces `accum`, and every
    /// accumulator that reproduces `accum` is returned. Empty data returns
    /// the single accumulator itself.
    pub fn _rewind(&self, data: &[u8], accum: u32) -> (r: Vec<u32>)
        requires
            self.wf(),
        ensures
            forall|k: int|
                0 <= k < r@.len() ==> crc_of(self.table@, data@, #[trigger] r@[k]) == accum,
            forall|a0: u32| crc_of(self.table@, data@, a0) == accum ==> r@.contains(a0),
            data@.len() == 0 ==> r@ == seq![accum],
    {
        let ghost t = self.table@;
        let mut solutions: Vec<u32> = Vec::new();
        if data.len() == 0 {
            solutions.push(accum);
            proof {
                assert(solutions@ =~= seq![accum]);
                lemma_not_not(accum);
                assert forall|a0: u32| crc_of(t, data@, a0) == accum implies solutions@.contains(
                    a0,
                ) by {
                    lemma_not_not(a0);
                    assert(solutions@[0] == accum);
                }
            }
            return solutions;
        }
        let mut stack: Vec<(usize, u32)> = Vec::new();
        stack.push((data.len(), !accum));
        proof {
            assert(data@.skip(data@.len() as int) =~= Seq::<u8>::empty());
            assert(data@.take(data@.len() as int) =~= data@);
            assert(stack@[0] == (data@.len() as usize, !accum));
            assert forall|a0: u32| crc_of(t, data@, a0) == accum implies exists|off: int|
                1 <= off <= data@.len() && stack@.contains(
                    (off as usize, crc_regs(t, data@.take(off), !a0)),
                ) by {
                lemma_not_not(crc_regs(t, data@, !a0));
                assert(crc_regs(t, data@.take(data@.len() as int), !a0) == !accum);
                assert(stack@.contains((data@.len() as usize, !accum)));
            }
        }
        while stack.len() > 0
            invariant
                self.wf(),
                self.table@ == t,
                data@.len() > 0,
                forall|k: int| 0 <= k < stack@.len() ==> 1 <= (#[trigger] stack@[k]).0 <= data@.len(),
                forall|k: int|
                    0 <= k < stack@.len() ==> crc_regs(
                        t,
                        data@.skip((#[trigger] stack@[k]).0 as int),
                        stack@[k].1,
                    ) == !accum,
                forall|k: int|
                    0 <= k < solutions@.len() ==> crc_of(t, data@, #[trigger] solutions@[k])
                        == accum,
                forall|a0: u32|
                    crc_of(t, data@, a0) == accum ==> solutions@.contains(a0) || exists|off: int|
                        1 <= off <= data@.len() && stack@.contains(
                            (off as usize, crc_regs(t, data@.take(off), !a0)),
                        ),
            decreases rpot(stack@),
        {
            let ghost pre_stack = stack@;
            let popped = stack.pop().unwrap();
            let offset = popped.0;
            let node = popped.1;
            proof {
                assert(stack@ =~= pre_stack.drop_last());
                assert(pre_stack.last() == (offset, node));
                assert(rpot(pre_stack) == rpot(stack@) + pow257(offset as nat));
            }
            let prev_offset = offset - 1;
            let b = data[prev_offset];
            proof {
                lemma_top_byte_bound(node);
            }
            let tbi = ((node >> 24) & 0xFF) as usize;
            let bucket = &self.table_reverse[tbi];
            let ghost rpot0 = rpot(stack@);
            let ghost cpot = pow257(prev_offset as nat);
            proof {
                assert(bucket@ == self.table_reverse@[tbi as int]@);
                assert forall|a0: u32| crc_of(t, data@, a0) == accum implies solutions@.contains(
                    a0,
                ) || (exists|off: int|
                    1 <= off <= data@.len() && stack@.contains(
                        (off as usize, crc_regs(t, data@.take(off), !a0)),
                    )) || (node == crc_regs(t, data@.take(offset as int), !a0) && exists|q: int|
                    0 <= q < bucket@.len() && bucket@[q] == idx_of(
                        crc_regs(t, data@.take(prev_offset as int), !a0),
                        b,
                    )) by {
                    if !solutions@.contains(a0) {
                        let off = choose|off: int|
                            1 <= off <= data@.len() && pre_stack.contains(
                                (off as usize, crc_regs(t, data@.take(off), !a0)),
                            );
                        let wit = (off as usize, crc_regs(t, data@.take(off), !a0));
                        lemma_contains_drop_last(pre_stack, wit);
                        if !stack@.contains(wit) {
                            assert(wit == (offset, node));
                            let w = crc_regs(t, data@.take(prev_offset as int), !a0);
                            let ii = idx_of(w, b);
                            assert(data@.take(offset as int) =~= data@.take(
                                prev_offset as int,
                            ).push(b));
                            lemma_crc_regs_push(t, data@.take(prev_offset as int), b, !a0);
                            lemma_low_byte_bound(w ^ (b as u32));
                            assert(((w ^ (b as u32)) & 0xFF) as int == ii as int);
                            assert(node == t[ii as int] ^ (w >> 8));
                            lemma_backstep_exact(t[ii as int], w, b, node);
                            assert(self.table_reverse@[(self.table@[ii as int] >> 24) as int]@
                                .contains((ii as int) as u8));
                            assert(bucket@.contains(ii));
                            let q = choose|q: int| 0 <= q < bucket@.len() && bucket@[q] == ii;
                            assert(bucket@[q] == idx_of(w, b));
                        }
                    }
                }
            }
            for p in 0..bucket.len()
                invariant
                    self.wf(),
                    self.table@ == t,
                    data@.len() > 0,
                    1 <= offset <= data@.len(),
                    prev_offset == offset - 1,
                    b == data@[prev_offset as int],
                    tbi == (node >> 24) as int,
                    tbi < 256,
                    bucket@ == self.table_reverse@[tbi as int]@,
                    crc_regs(t, data@.skip(offset as int), node) == !accum,
                    forall|k: int|
                        0 <= k < stack@.len() ==> 1 <= (#[trigger] stack@[k]).0 <= data@.len(),
                    forall|k: int|
                        0 <= k < stack@.len() ==> crc_regs(
                            t,
                            data@.skip((#[trigger] stack@[k]).0 as int),
                            stack@[k].1,
                        ) == !accum,
                    forall|k: int|
                        0 <= k < solutions@.len() ==> crc_of(t, data@, #[trigger] solutions@[k])
                            == accum,
                    rpot(stack@) as int <= rpot0 as int + (p as int) * (cpot as int),
                    cpot == pow257(prev_offset as nat),
                    forall|a0: u32|
                        crc_of(t, data@, a0) == accum ==> solutions@.contains(a0) || (exists|
                            off: int,
                        |
                            1 <= off <= data@.len() && stack@.contains(
                                (off as usize, crc_regs(t, data@.take(off), !a0)),
                            )) || (node == crc_regs(t, data@.take(offset as int), !a0) && exists|
                            q: int,
                        |
                            p <= q < bucket@.len() && bucket@[q] == idx_of(
                                crc_regs(t, data@.take(prev_offset as int), !a0),
                                b,
                            )),
            {
                let i: u8 = bucket[p];
                let tv = self.table[i as usize];
                let prev_crc = ((node ^ tv) << 8) | ((i as u32) ^ (b as u32));
                proof {
                    assert(self.table_reverse@[tbi as int]@[p as int] == i);
                    assert(self.table@[self.table_reverse@[tbi as int]@[p as int] as int] >> 24
                        == (tbi as int) as u32);
                    assert(t[i as int] >> 24 == tbi as u32);
                    lemma_backstep(tv, node, i, b, prev_crc);
                    assert(crc_step(t, prev_crc, b) == node);
                    assert(data@.skip(prev_offset as int).drop_first() =~= data@.skip(
                        offset as int,
                    ));
                    assert(data@.skip(prev_offset as int)[0] == b);
                    assert(crc_regs(t, data@.skip(prev_offset as int), prev_crc) == !accum);
                }
                let ghost mid_stack = stack@;
                let ghost mid_sols = solutions@;
                if prev_offset > 0 {
                    stack.push((prev_offset, prev_crc));
                    proof {
                        lemma_rpot_push(mid_stack, (prev_offset, prev_crc));
                        assert((p as int + 1) * (cpot as int) == (p as int) * (cpot as int)
                            + cpot as int) by (nonlinear_arith);
                    }
                } else {
                    solutions.push(!prev_crc);
                    proof {
                        lemma_not_not(prev_crc);
                        lemma_not_not(accum);
                        assert(data@.skip(0) =~= data@);
                        assert(crc_of(t, data@, !prev_crc) == accum);
                        assert((p as int + 1) * (cpot as int) == (p as int) * (cpot as int)
                            + cpot as int) by (nonlinear_arith);
                        lemma_pow257_pos(prev_offset as nat);
                    }
                }
                proof {
                    assert forall|a0: u32| crc_of(t, data@, a0) == accum implies solutions@
                        .contains(a0) || (exists|off: int|
                        1 <= off <= data@.len() && stack@.contains(
                            (off as usize, crc_regs(t, data@.take(off), !a0)),
                        )) || (node == crc_regs(t, data@.take(offset as int), !a0) && exists|q: int|
                        p + 1 <= q < bucket@.len() && bucket@[q] == idx_of(
                            crc_regs(t, data@.take(prev_offset as int), !a0),
                            b,
                        )) by {
                        let w = crc_regs(t, data@.take(prev_offset as int), !a0);
                        let ii = idx_of(w, b);
                        assert(mid_sols.contains(a0) || (exists|off: int|
                            1 <= off <= data@.len() && mid_stack.contains(
                                (off as usize, crc_regs(t, data@.take(off), !a0)),
                            )) || (node == crc_regs(t, data@.take(offset as int), !a0)
                            && exists|q: int|
                            p <= q < bucket@.len() && bucket@[q] == idx_of(w, b)));
                        if mid_sols.contains(a0) {
                            if solutions@ == mid_sols {
                            } else {
                                lemma_contains_push(mid_sols, !prev_crc, a0);
                            }
                        } else if exists|off: int|
                            1 <= off <= data@.len() && mid_stack.contains(
                                (off as usize, crc_regs(t, data@.take(off), !a0)),
                            ) {
                            let off = choose|off: int|
                                1 <= off <= data@.len() && mid_stack.contains(
                                    (off as usize, crc_regs(t, data@.take(off), !a0)),
                                );
                            if stack@ == mid_stack {
                            } else {
                                lemma_contains_push(
                                    mid_stack,
                                    (prev_offset, prev_crc),
                                    (off as usize, crc_regs(t, data@.take(off), !a0)),
                                );
                            }
                            assert(stack@.contains(
                                (off as usize, crc_regs(t, data@.take(off), !a0)),
                            ));
                        } else if node == crc_regs(t, data@.take(offset as int), !a0) {
                            assert(data@.take(offset as int) =~= data@.take(
                                prev_offset as int,
                            ).push(b));
                            lemma_crc_regs_push(t, data@.take(prev_offset as int), b, !a0);
                            assert(node == crc_step(t, w, b));
                            lemma_low_byte_bound(w ^ (b as u32));
                            assert(((w ^ (b as u32)) & 0xFF) as int == ii as int);
                            assert(node == t[ii as int] ^ (w >> 8));
                            lemma_backstep_exact(t[ii as int], w, b, node);
                            if i == ii {
                                assert(prev_crc == w);
                                if prev_offset > 0 {
                                    assert(stack@.last() == (
                                        prev_offset,
                                        crc_regs(t, data@.take(prev_offset as int), !a0),
                                    ));
                                    assert(stack@.contains(
                                        (
                                            prev_offset as usize,
                                            crc_regs(t, data@.take(prev_offset as int), !a0),
                                        ),
                                    ));
                                } else {
                                    assert(data@.take(0) =~= Seq::<u8>::empty());
                                    assert(w == !a0);
                                    lemma_not_not(a0);
                                    assert(solutions@.last() == a0);
                                    assert(solutions@.contains(a0));
                                }
                            } else {
                                let q = choose|q: int|
                                    p <= q < bucket@.len() && bucket@[q] == ii;
                                assert(q != p);
                            }
                        }
                    }
                }
            }
            proof {
                assert(bucket@.len() <= 256);
                assert(rpot(stack@) as int <= rpot0 as int + (bucket@.len() as int) * (
                cpot as int));
                lemma_pow257_pos(prev_offset as nat);
                assert((bucket@.len() as int) * (cpot as int) <= 256 * (cpot as int))
                    by (nonlinear_arith)
                    requires
                        0 <= bucket@.len() <= 256,
                        cpot as int >= 1,
                ;
                assert(pow257(offset as nat) == 257 * pow257((offset - 1) as nat));
                assert(rpot(stack@) < rpot(pre_stack));
            }
        }
        solutions
    }

    /// Search backward from `desired` through the reverse table for every
    /// four-byte tail that, processed forward from accumulator `accum`,
    /// produces `desired`: every returned sequence has length four and
    /// reproduces `desired` exactly.
    pub fn find_reverse(&self, desired: u32, accum: u32) -> (r: Vec<Vec<u8>>)
        requires
            self.wf(),
        ensures
            forall|k: int|
                0 <= k < r@.len() ==> (#[trigger] r@[k])@.len() == 4 && crc_of(
                    self.table@,
                    r@[k]@,
                    accum,
                ) == desired,
            finds_all_tails(self.table@, desired, accum, r@),
    {
        let ghost t = self.table@;
        let ghost target = !desired;
        let mut solutions: Vec<Vec<u8>> = Vec::new();
        let areg = !accum;
        let mut stack: Vec<(u32, Vec<u8>)> = Vec::new();
        stack.push((!desired, Vec::new()));
        proof {
            lemma_node_ok_base(t, target);
            assert(stack@[0].1@ =~= Seq::<u8>::empty());
            assert(node_ok(t, stack@[0].0, stack@[0].1@, target));
            assert forall|c: Seq<u8>| c.len() == 4 && #[trigger] crc_of(t, c, accum)
                == desired implies exists|k: int|
                0 <= k < stack@.len() && is_tail_witness(t, c, accum, #[trigger] stack@[k]) by {
                lemma_not_not(crc_regs(t, c, !accum));
                assert(c.take(4) =~= c);
                assert(tail_reg(t, c, accum, 4) == !desired);
                assert(tail_path(t, c, accum, 0) =~= Seq::<u8>::empty());
                lemma_shr0(tail_reg(t, c, accum, 4));
                lemma_shr0(!desired);
                assert(agrees_high(tail_reg(t, c, accum, 4), !desired, 0));
                assert(is_tail_witness(t, c, accum, stack@[0]));
            }
        }
        while stack.len() > 0
            invariant
                self.wf(),
                self.table@ == t,
                target == !desired,
                areg == !accum,
                forall|k: int|
                    0 <= k < stack@.len() ==> (#[trigger] stack@[k]).1@.len() <= 3 && node_ok(
                        t,
                        stack@[k].0,
                        stack@[k].1@,
                        target,
                    ),
                forall|k: int|
                    0 <= k < solutions@.len() ==> (#[trigger] solutions@[k])@.len() == 4 && crc_of(
                        t,
                        solutions@[k]@,
                        accum,
                    ) == desired,
                tails_covered(t, desired, accum, stack@, solutions@),
            decreases fpot(stack@),
        {
            let ghost pre_stack = stack@;
            let popped = stack.pop().unwrap();
            let v = popped.0;
            let s = popped.1;
            proof {
                assert(stack@ =~= pre_stack.drop_last());
                assert(pre_stack.last() == (v, s));
                assert(fpot(pre_stack) == fpot(stack@) + fnode_pot(s@.len()));
                lemma_top_byte_bound(v);
            }
            let tbi = ((v >> 24) & 0xFF) as usize;
            let bucket = &self.table_reverse[tbi];
            let ghost fpot0 = fpot(stack@);
            let ghost cpot = fnode_pot((s@.len() + 1) as nat);
            proof {
                assert(bucket@ == self.table_reverse@[tbi as int]@);
                assert forall|c: Seq<u8>| c.len() == 4 && #[trigger] crc_of(t, c, accum)
                    == desired implies (exists|k: int|
                    0 <= k < solutions@.len() && (#[trigger] solutions@[k])@ == c) || (exists|
                    k: int,
                |
                    0 <= k < stack@.len() && is_tail_witness(t, c, accum, #[trigger] stack@[k]))
                    || (is_tail_witness(t, c, accum, (v, s)) && exists|q: int|
                    0 <= q < bucket@.len() && bucket@[q] == tail_idx(
                        t,
                        c,
                        accum,
                        3 - s@.len(),
                    )) by {
                    if !(exists|k: int|
                        0 <= k < solutions@.len() && (#[trigger] solutions@[k])@ == c) {
                        let k0 = choose|k0: int|
                            0 <= k0 < pre_stack.len() && is_tail_witness(
                                t,
                                c,
                                accum,
                                #[trigger] pre_stack[k0],
                            );
                        if k0 < pre_stack.len() - 1 {
                            assert(stack@[k0] == pre_stack[k0]);
                            assert(is_tail_witness(t, c, accum, stack@[k0]));
                        } else {
                            assert(pre_stack[k0] == (v, s));
                            let m = s@.len() as int;
                            let jstar = tail_idx(t, c, accum, 3 - m);
                            lemma_tail_step(t, c, accum, 3 - m);
                            lemma_first_step_agrees(
                                t[jstar as int],
                                tail_reg(t, c, accum, 3 - m),
                            );
                            assert(tail_reg(t, c, accum, 4 - m) >> 24 == t[jstar as int] >> 24);
                            lemma_agrees_top(tail_reg(t, c, accum, 4 - m), v, s@.len());
                            assert(v >> 24 == t[jstar as int] >> 24);
                            assert(self.table_reverse@[(self.table@[jstar as int] >> 24) as int]@
                                .contains((jstar as int) as u8));
                            assert(bucket@.contains(jstar));
                        }
                    }
                }
            }
            for p in 0..bucket.len()
                invariant
                    self.wf(),
                    self.table@ == t,
                    target == !desired,
                    areg == !accum,
                    tbi == (v >> 24) as int,
                    tbi < 256,
                    bucket@ == self.table_reverse@[tbi as int]@,
                    s@.len() <= 3,
                    node_ok(t, v, s@, target),
                    forall|k: int|
                        0 <= k < stack@.len() ==> (#[trigger] stack@[k]).1@.len() <= 3 && node_ok(
                            t,
                            stack@[k].0,
                            stack@[k].1@,
                            target,
                        ),
                    forall|k: int|
                        0 <= k < solutions@.len() ==> (#[trigger] solutions@[k])@.len() == 4
                            && crc_of(t, solutions@[k]@, accum) == desired,
                    fpot(stack@) as int <= fpot0 as int + (p as int) * (cpot as int),
                    cpot == fnode_pot((s@.len() + 1) as nat),
                    forall|c: Seq<u8>|
                        c.len() == 4 && #[trigger] crc_of(t, c, accum) == desired ==> (exists|
                            k: int,
                        |
                            0 <= k < solutions@.len() && (#[trigger] solutions@[k])@ == c) || (
                        exists|k: int|
                            0 <= k < stack@.len() && is_tail_witness(
                                t,
                                c,
                                accum,
                                #[trigger] stack@[k],
                            )) || (is_tail_witness(t, c, accum, (v, s)) && exists|q: int|
                            p <= q < bucket@.len() && bucket@[q] == tail_idx(
                                t,
                                c,
                                accum,
                                3 - s@.len(),
                            )),
            {
                let j: u8 = bucket[p];
                proof {
                    assert(self.table_reverse@[tbi as int]@[p as int] == j);
                    assert(self.table@[self.table_reverse@[tbi as int]@[p as int] as int] >> 24
                        == (tbi as int) as u32);
                    assert(t[j as int] >> 24 == v >> 24);
                }
                let mut next_str = copy_bytes(&s);
                next_str.push(j);
                proof {
                    assert(next_str@ == s@.push(j));
                }
                if next_str.len() == 4 {
                    let ghost full = next_str@;
                    let mut a: u32 = areg;
                    let mut data: Vec<u8> = Vec::new();
                    proof {
                        lemma_first_step_agrees(t[j as int], areg);
                        assert(s@.len() == 3);
                        assert(agrees_high(t[j as int] ^ (areg >> 8), v, s@.len()));
                        assert(steps_rev(t, t[j as int] ^ (areg >> 8), s@) == target);
                        assert(full.last() == j);
                        assert(full.drop_last() =~= s@);
                        assert(steps_rev(t, areg, full) == target);
                        assert(full.take(4) =~= full);
                        assert forall|c: Seq<u8>|
                            c.len() == 4 && #[trigger] crc_of(t, c, accum) == desired
                                && tail_path(t, c, accum, 4) == full implies data@ == c.take(0)
                            && a == tail_reg(t, c, accum, 0) by {
                            assert(c.take(0) =~= Seq::<u8>::empty());
                            assert(data@ =~= Seq::<u8>::empty());
                        }
                    }
                    for k in 0..4usize
                        invariant
                            self.table@ == t,
                            t.len() == 256,
                            areg == !accum,
                            target == !desired,
                            full == next_str@,
                            next_str@.len() == 4,
                            data@.len() == k,
                            a == crc_regs(t, data@, !accum),
                            steps_rev(t, a, full.take(4 - k as int)) == target,
                            forall|c: Seq<u8>|
                                c.len() == 4 && #[trigger] crc_of(t, c, accum) == desired
                                    && tail_path(t, c, accum, 4) == full ==> data@ == c.take(
                                    k as int,
                                ) && a == tail_reg(t, c, accum, k as int),
                    {
                        let idx: usize = 3 - k;
                        let jj: u8 = next_str[idx];
                        let bb: u8 = (a ^ jj as u32) as u8;
                        let na: u32 = (a >> 8) ^ self.table[jj as usize];
                        let ghost od = data@;
                        data.push(bb);
                        proof {
                            lemma_mat_index(a, jj);
                            lemma_xor_comm(a >> 8, t[jj as int]);
                            assert(((a ^ (bb as u32)) & 0xFF) as int == jj as int);
                            assert(na == crc_step(t, a, bb));
                            lemma_crc_regs_push(t, od, bb, !accum);
                            assert(od.push(bb) == data@);
                            assert(crc_regs(t, data@, !accum) == na);
                            assert(full.take(4 - k as int).last() == jj);
                            assert(full.take(4 - k as int).drop_last() =~= full.take(
                                4 - (k + 1) as int,
                            ));
                            assert(steps_rev(t, a, full.take(4 - k as int)) == steps_rev(
                                t,
                                t[jj as int] ^ (a >> 8),
                                full.take(4 - (k + 1) as int),
                            ));
                            assert forall|c: Seq<u8>|
                                c.len() == 4 && #[trigger] crc_of(t, c, accum) == desired
                                    && tail_path(t, c, accum, 4) == full implies data@ == c.take(
                                k as int + 1,
                            ) && na == tail_reg(t, c, accum, k as int + 1) by {
                                assert(od == c.take(k as int));
                                assert(a == tail_reg(t, c, accum, k as int));
                                assert(full[3 - k as int] == tail_idx(t, c, accum, k as int));
                                assert(jj == tail_idx(t, c, accum, k as int));
                                lemma_mat_byte(a, c[k as int]);
                                assert(bb == c[k as int]);
                                assert(c.take(k as int + 1) =~= c.take(k as int).push(
                                    c[k as int],
                                ));
                                lemma_tail_step(t, c, accum, k as int);
                                assert(na == tail_reg(t, c, accum, k as int + 1));
                            }
                        }
                        a = na;
                    }
                    proof {
                        assert(full.take(0) =~= Seq::<u8>::empty());
                        assert(a == target);
                        lemma_not_not(desired);
                        assert(crc_of(t, data@, accum) == desired);
                    }
                    let ghost pre_sols = solutions@;
                    solutions.push(data);
                    proof {
                        assert((p as int + 1) * (cpot as int) >= (p as int) * (cpot as int))
                            by (nonlinear_arith)
                            requires
                                p >= 0,
                                cpot as int >= 0,
                        ;
                        assert(solutions@.last()@ == data@);
                        assert forall|c: Seq<u8>|
                            c.len() == 4 && #[trigger] crc_of(t, c, accum) == desired implies (
                        exists|k2: int|
                            0 <= k2 < solutions@.len() && (#[trigger] solutions@[k2])@ == c) || (
                        exists|k2: int|
                            0 <= k2 < stack@.len() && is_tail_witness(
                                t,
                                c,
                                accum,
                                #[trigger] stack@[k2],
                            )) || (is_tail_witness(t, c, accum, (v, s)) && exists|q: int|
                            p + 1 <= q < bucket@.len() && bucket@[q] == tail_idx(
                                t,
                                c,
                                accum,
                                3 - s@.len(),
                            )) by {
                            if exists|k2: int|
                                0 <= k2 < pre_sols.len() && (#[trigger] pre_sols[k2])@ == c {
                                let k2 = choose|k2: int|
                                    0 <= k2 < pre_sols.len() && (#[trigger] pre_sols[k2])@ == c;
                                assert(solutions@[k2]@ == c);
                            } else if exists|k2: int|
                                0 <= k2 < stack@.len() && is_tail_witness(
                                    t,
                                    c,
                                    accum,
                                    #[trigger] stack@[k2],
                                ) {
                            } else if is_tail_witness(t, c, accum, (v, s)) {
                                let q = choose|q: int|
                                    p <= q < bucket@.len() && bucket@[q] == tail_idx(
                                        t,
                                        c,
                                        accum,
                                        3 - s@.len(),
                                    );
                                if q == p {
                                    assert(j == tail_idx(t, c, accum, 0));
                                    assert(s@ == tail_path(t, c, accum, 3));
                                    assert(tail_path(t, c, accum, 4) =~= tail_path(
                                        t,
                                        c,
                                        accum,
                                        3,
                                    ).push(tail_idx(t, c, accum, 0)));
                                    assert(tail_path(t, c, accum, 4) == full);
                                    assert(data@ == c.take(4));
                                    assert(c.take(4) =~= c);
                                    assert(solutions@.last()@ == c);
                                } else {
                                    assert(q >= p + 1);
                                }
                            }
                        }
                    }
                } else {
                    let tv = self.table[j as usize];
                    let ghost mid_stack = stack@;
                    let ghost mid_sols = solutions@;
                    stack.push(((v ^ tv) << 8, next_str));
                    proof {
                        lemma_node_ok_child(t, v, s@, target, j);
                        lemma_fpot_push(mid_stack, ((v ^ tv) << 8, next_str));
                        assert((p as int + 1) * (cpot as int) == (p as int) * (cpot as int)
                            + cpot as int) by (nonlinear_arith);
                        assert(stack@.last().1@ == s@.push(j));
                        assert(stack@.last().0 == (v ^ tv) << 8);
                        assert forall|c: Seq<u8>|
                            c.len() == 4 && #[trigger] crc_of(t, c, accum) == desired implies (
                        exists|k2: int|
                            0 <= k2 < solutions@.len() && (#[trigger] solutions@[k2])@ == c) || (
                        exists|k2: int|
                            0 <= k2 < stack@.len() && is_tail_witness(
                                t,
                                c,
                                accum,
                                #[trigger] stack@[k2],
                            )) || (is_tail_witness(t, c, accum, (v, s)) && exists|q: int|
                            p + 1 <= q < bucket@.len() && bucket@[q] == tail_idx(
                                t,
                                c,
                                accum,
                                3 - s@.len(),
                            )) by {
                            if exists|k2: int|
                                0 <= k2 < mid_sols.len() && (#[trigger] mid_sols[k2])@ == c {
                            } else if exists|k2: int|
                                0 <= k2 < mid_stack.len() && is_tail_witness(
                                    t,
                                    c,
                                    accum,
                                    #[trigger] mid_stack[k2],
                                ) {
                                let k2 = choose|k2: int|
                                    0 <= k2 < mid_stack.len() && is_tail_witness(
                                        t,
                                        c,
                                        accum,
                                        #[trigger] mid_stack[k2],
                                    );
                                assert(stack@[k2] == mid_stack[k2]);
                                assert(is_tail_witness(t, c, accum, stack@[k2]));
                            } else if is_tail_witness(t, c, accum, (v, s)) {
                                let m = s@.len();
                                let q = choose|q: int|
                                    p <= q < bucket@.len() && bucket@[q] == tail_idx(
                                        t,
                                        c,
                                        accum,
                                        3 - m as int,
                                    );
                                if q == p {
                                    assert(j == tail_idx(t, c, accum, 3 - m as int));
                                    lemma_tail_step(t, c, accum, 3 - m as int);
                                    assert(tv ^ (tail_reg(t, c, accum, 3 - m as int) >> 8)
                                        == tail_reg(t, c, accum, 4 - m as int));
                                    lemma_child_witness(
                                        tv,
                                        v,
                                        tail_reg(t, c, accum, 3 - m as int),
                                        m,
                                    );
                                    assert(tail_path(t, c, accum, m as int + 1) =~= tail_path(
                                        t,
                                        c,
                                        accum,
                                        m as int,
                                    ).push(tail_idx(t, c, accum, 3 - m as int)));
                                    assert(stack@.last().1@ == tail_path(
                                        t,
                                        c,
                                        accum,
                                        m as int + 1,
                                    ));
                                    assert(agrees_high(
                                        tail_reg(t, c, accum, 3 - m as int),
                                        (v ^ tv) << 8,
                                        m + 1,
                                    ));
                                    assert(is_tail_witness(t, c, accum, stack@.last()));
                                    assert(stack@[stack@.len() - 1] == stack@.last());
                                } else {
                                    assert(q >= p + 1);
                                }
                            }
                        }
                    }
                }
            }
            proof {
                assert forall|c: Seq<u8>| c.len() == 4 && #[trigger] crc_of(t, c, accum)
                    == desired implies (exists|k: int|
                    0 <= k < solutions@.len() && (#[trigger] solutions@[k])@ == c) || (exists|
                    k: int,
                |
                    0 <= k < stack@.len() && is_tail_witness(
                        t,
                        c,
                        accum,
                        #[trigger] stack@[k],
                    )) by {}
                assert(tails_covered(t, desired, accum, stack@, solutions@));
                assert(bucket@.len() <= 256);
                lemma_pow257_pos((3 - s@.len()) as nat);
                assert(cpot == pow257((3 - s@.len()) as nat));
                assert((bucket@.len() as int) * (cpot as int) <= 256 * (cpot as int))
                    by (nonlinear_arith)
                    requires
                        0 <= bucket@.len() <= 256,
                        cpot as int >= 1,
                ;
                assert(fnode_pot(s@.len()) == 257 * pow257((3 - s@.len()) as nat));
                assert(fpot(stack@) < fpot(pre_stack));
            }
        }
        proof {
            assert forall|c: Seq<u8>| c.len() == 4 && #[trigger] crc_of(t, c, accum)
                == desired implies exists|k: int|
                0 <= k < solutions@.len() && (#[trigger] solutions@[k])@ == c by {
                assert(stack@.len() == 0);
            }
            assert(finds_all_tails(t, desired, accum, solutions@));
        }
        solutions
    }

    /// Table-driven CRC32 of `data` starting from accumulator `accum`; the
    /// same computation as `CRC32::_calc`, carried on the shared table.
    pub fn calc(&self, data: &[u8], accum: u32) -> (r: u32)
        requires
            self.table@.len() == 256,
        ensures
            r == crc_of(self.table@, data@, accum),
    {
        let ghost t = self.table@;
        let mut a: u32 = !accum;
        proof {
            assert(data@.skip(0) =~= data@);
        }
        for k in 0..data.len()
            invariant
                self.table@ == t,
                t.len() == 256,
                crc_regs(t, data@.skip(k as int), a) == crc_regs(t, data@, !accum),
        {
            let b = data[k];
            proof {
                lemma_low_byte_bound(a ^ (b as u32));
                lemma_shr8_mask(a);
                assert(data@.skip(k as int).drop_first() =~= data@.skip(k as int + 1));
                assert(data@.skip(k as int)[0] == b);
            }
            a = self.table[((a ^ b as u32) & 0xFF) as usize] ^ ((a >> 8) & 0x00FFFFFF);
        }
        proof {
            assert(data@.skip(data@.len() as int) =~= Seq::<u8>::empty());
        }
        !a
    }
}

} // verus!
