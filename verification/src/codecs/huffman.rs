//! Order-0 Huffman coding: a byte-frequency table, a merge-built code tree,
//! and the streaming encoder and decoder around them.

use crate::util::BitQueue;
use std::collections::VecDeque;
use crate::util::bits_of;
use crate::util::bools_to_bytes;
use crate::util::lemma_bits_of_append;
use crate::util::lemma_bits_of_len;
use crate::util::lemma_bits_of_pack;
use crate::util::lemma_pack_append_aligned;
use crate::util::lemma_pack_bits_of;
use crate::util::pack_bits;
use crate::util::pad_len;
use crate::util::zeros;
use vstd::multiset::Multiset;
use vstd::prelude::*;
use vstd::seq_lib::*;

verus! {

broadcast use vstd::seq_lib::group_to_multiset_ensures;

/// A node of the code tree: a terminal carries a byte value and its weight, an
/// interior node carries the subtree reached on a zero bit and the subtree
/// reached on a one bit.
pub enum HuffmanNode {
    Interior(Box<HuffmanNode>, Box<HuffmanNode>),
    Terminal(u8, u64),
}

/// The byte values at the leaves of `n`, leftmost leaf first.
pub open spec fn leaves(n: HuffmanNode) -> Seq<u8>
    decreases n,
{
    match n {
        HuffmanNode::Terminal(v, _) => seq![v],
        HuffmanNode::Interior(l, r) => leaves(*l) + leaves(*r),
    }
}

/// The weight of `n`: a terminal's own count, an interior node's sum over its
/// children.
pub open spec fn spec_weight(n: HuffmanNode) -> nat
    decreases n,
{
    match n {
        HuffmanNode::Terminal(_, w) => w as nat,
        HuffmanNode::Interior(l, r) => spec_weight(*l) + spec_weight(*r),
    }
}

/// Every interior node of `n` has at least as many leaves under its zero
/// child as under its one child. Trees built here keep this shape, so any
/// all-zero path from a node with `2^k` leaves stays inside the tree for `k`
/// steps; the up-to-seven zero padding bits at the end of a stream can then
/// never complete a code.
pub open spec fn left_heavy(n: HuffmanNode) -> bool
    decreases n,
{
    match n {
        HuffmanNode::Terminal(_, _) => true,
        HuffmanNode::Interior(l, r) => leaves(*l).len() >= leaves(*r).len() && left_heavy(*l)
            && left_heavy(*r),
    }
}

/// Index of the first node of least weight, the deterministic tie-break of
/// the merge step.
pub open spec fn is_first_min(ns: Seq<HuffmanNode>, i: int) -> bool {
    &&& 0 <= i < ns.len()
    &&& forall|j: int| 0 <= j < ns.len() ==> spec_weight(ns[i]) <= spec_weight(#[trigger] ns[j])
    &&& forall|j: int| 0 <= j < i ==> spec_weight(#[trigger] ns[j]) > spec_weight(ns[i])
}

pub open spec fn first_min_idx(ns: Seq<HuffmanNode>) -> int {
    choose|i: int| is_first_min(ns, i)
}

proof fn lemma_first_min_exists(ns: Seq<HuffmanNode>)
    requires
        ns.len() >= 1,
    ensures
        exists|i: int| is_first_min(ns, i),
    decreases ns.len(),
{
    if ns.len() == 1 {
        assert(is_first_min(ns, 0));
    } else {
        let pre = ns.drop_last();
        lemma_first_min_exists(pre);
        let m = choose|i: int| is_first_min(pre, i);
        let last = ns.len() - 1;
        if spec_weight(ns[last]) < spec_weight(pre[m]) {
            assert(forall|j: int| 0 <= j < last ==> pre[j] == ns[j]);
            assert(is_first_min(ns, last));
        } else {
            assert(forall|j: int| 0 <= j < last ==> pre[j] == ns[j]);
            assert(is_first_min(ns, m));
        }
    }
}

proof fn lemma_first_min_unique(ns: Seq<HuffmanNode>, a: int, b: int)
    requires
        is_first_min(ns, a),
        is_first_min(ns, b),
    ensures
        a == b,
{
    if a < b {
        assert(spec_weight(ns[a]) > spec_weight(ns[b]));
        assert(spec_weight(ns[b]) <= spec_weight(ns[a]));
    }
    if b < a {
        assert(spec_weight(ns[b]) > spec_weight(ns[a]));
        assert(spec_weight(ns[a]) <= spec_weight(ns[b]));
    }
}

/// The parent formed from the two popped nodes; the child with more leaves
/// takes the zero side.
pub open spec fn merge_node(a: HuffmanNode, b: HuffmanNode) -> HuffmanNode {
    if leaves(a).len() >= leaves(b).len() {
        HuffmanNode::Interior(Box::new(a), Box::new(b))
    } else {
        HuffmanNode::Interior(Box::new(b), Box::new(a))
    }
}

/// One merge step: remove the two lightest nodes (first occurrence on ties)
/// and append their parent.
pub open spec fn merge_once(ns: Seq<HuffmanNode>) -> Seq<HuffmanNode> {
    let i = first_min_idx(ns);
    let rest = ns.remove(i);
    let j = first_min_idx(rest);
    rest.remove(j).push(merge_node(ns[i], rest[j]))
}

/// The tree left after merging the forest down to a single node.
pub open spec fn merge_all(ns: Seq<HuffmanNode>) -> HuffmanNode
    decreases ns.len()
        via merge_all_decreases
{
    if ns.len() <= 1 {
        ns[0]
    } else {
        merge_all(merge_once(ns))
    }
}

#[via_fn]
proof fn merge_all_decreases(ns: Seq<HuffmanNode>) {
    if ns.len() > 1 {
        lemma_merge_once_len(ns);
    }
}

proof fn lemma_merge_once_len(ns: Seq<HuffmanNode>)
    requires
        ns.len() >= 2,
    ensures
        merge_once(ns).len() == ns.len() - 1,
{
    lemma_first_min_exists(ns);
    let i = first_min_idx(ns);
    assert(is_first_min(ns, i));
    let rest = ns.remove(i);
    lemma_first_min_exists(rest);
    let j = first_min_idx(rest);
    assert(is_first_min(rest, j));
}

/// The multiset of leaf values over a whole forest.
pub open spec fn lmset(ns: Seq<HuffmanNode>) -> Multiset<u8>
    decreases ns.len(),
{
    if ns.len() == 0 {
        Multiset::empty()
    } else {
        leaves(ns[0]).to_multiset().add(lmset(ns.drop_first()))
    }
}

/// The total weight of a forest.
pub open spec fn fweight(ns: Seq<HuffmanNode>) -> nat
    decreases ns.len(),
{
    if ns.len() == 0 {
        0
    } else {
        spec_weight(ns[0]) + fweight(ns.drop_first())
    }
}

/// Every node of the forest is left-heavy.
pub open spec fn all_left_heavy(ns: Seq<HuffmanNode>) -> bool {
    forall|k: int| 0 <= k < ns.len() ==> left_heavy(#[trigger] ns[k])
}

proof fn lemma_forest_remove(ns: Seq<HuffmanNode>, i: int)
    requires
        0 <= i < ns.len(),
    ensures
        lmset(ns) =~= leaves(ns[i]).to_multiset().add(lmset(ns.remove(i))),
        fweight(ns) == spec_weight(ns[i]) + fweight(ns.remove(i)),
    decreases ns.len(),
{
    if i == 0 {
        assert(ns.remove(0) =~= ns.drop_first());
    } else {
        let df = ns.drop_first();
        lemma_forest_remove(df, i - 1);
        assert(ns.remove(i).drop_first() =~= df.remove(i - 1));
        assert(ns.remove(i)[0] == ns[0]);
        assert(lmset(ns.remove(i)) == leaves(ns[0]).to_multiset().add(lmset(df.remove(i - 1))));
        assert(df[i - 1] == ns[i]);
        assert(lmset(ns) =~= leaves(ns[i]).to_multiset().add(lmset(ns.remove(i))));
    }
}

proof fn lemma_forest_push(ns: Seq<HuffmanNode>, n: HuffmanNode)
    ensures
        lmset(ns.push(n)) =~= lmset(ns).add(leaves(n).to_multiset()),
        fweight(ns.push(n)) == fweight(ns) + spec_weight(n),
    decreases ns.len(),
{
    if ns.len() == 0 {
        assert(ns.push(n)[0] == n);
        assert(ns.push(n).drop_first() =~= Seq::<HuffmanNode>::empty());
        assert(lmset(ns) == Multiset::<u8>::empty());
        assert(lmset(ns.push(n).drop_first()) == Multiset::<u8>::empty());
        assert(lmset(ns.push(n)) == leaves(n).to_multiset().add(Multiset::<u8>::empty()));
        assert(lmset(ns.push(n)) =~= lmset(ns).add(leaves(n).to_multiset()));
        assert(fweight(ns.push(n)) == spec_weight(n) + fweight(ns.push(n).drop_first()));
    } else {
        lemma_forest_push(ns.drop_first(), n);
        assert(ns.push(n).drop_first() =~= ns.drop_first().push(n));
        assert(ns.push(n)[0] == ns[0]);
        assert(lmset(ns.push(n)) == leaves(ns[0]).to_multiset().add(
            lmset(ns.drop_first().push(n)),
        ));
        assert(lmset(ns.push(n)) =~= lmset(ns).add(leaves(n).to_multiset()));
        assert(fweight(ns.push(n)) == spec_weight(ns[0]) + fweight(ns.drop_first().push(n)));
    }
}

proof fn lemma_merge_once_props(ns: Seq<HuffmanNode>)
    requires
        ns.len() >= 2,
    ensures
        merge_once(ns).len() == ns.len() - 1,
        lmset(merge_once(ns)) =~= lmset(ns),
        fweight(merge_once(ns)) == fweight(ns),
        all_left_heavy(ns) ==> all_left_heavy(merge_once(ns)),
{
    lemma_first_min_exists(ns);
    let i = first_min_idx(ns);
    assert(is_first_min(ns, i));
    let rest = ns.remove(i);
    lemma_first_min_exists(rest);
    let j = first_min_idx(rest);
    assert(is_first_min(rest, j));
    let a = ns[i];
    let b = rest[j];
    let m = merge_node(a, b);
    lemma_forest_remove(ns, i);
    lemma_forest_remove(rest, j);
    lemma_forest_push(rest.remove(j), m);
    lemma_multiset_commutative(leaves(*m->Interior_0), leaves(*m->Interior_1));
    assert(leaves(m).to_multiset() =~= leaves(a).to_multiset().add(leaves(b).to_multiset()));
    assert(spec_weight(m) == spec_weight(a) + spec_weight(b));
    assert(lmset(merge_once(ns)) =~= lmset(ns));
    if all_left_heavy(ns) {
        assert forall|k: int| 0 <= k < merge_once(ns).len() implies left_heavy(
            #[trigger] merge_once(ns)[k],
        ) by {
            if k < merge_once(ns).len() - 1 {
                let k1: int = if k < j {
                    k
                } else {
                    k + 1
                };
                assert(rest.remove(j)[k] == rest[k1]);
                let k2: int = if k1 < i {
                    k1
                } else {
                    k1 + 1
                };
                assert(rest[k1] == ns[k2]);
            } else {
                assert(merge_once(ns)[k] == m);
                let i2: int = if j < i {
                    j
                } else {
                    j + 1
                };
                assert(b == ns[i2]);
                assert(left_heavy(a) && left_heavy(b));
            }
        }
    }
}

proof fn lemma_merge_all_props(ns: Seq<HuffmanNode>)
    requires
        ns.len() >= 1,
        all_left_heavy(ns),
    ensures
        leaves(merge_all(ns)).to_multiset() =~= lmset(ns),
        spec_weight(merge_all(ns)) == fweight(ns),
        left_heavy(merge_all(ns)),
    decreases ns.len(),
{
    if ns.len() == 1 {
        assert(ns.drop_first() =~= Seq::<HuffmanNode>::empty());
        assert(lmset(ns.drop_first()) == Multiset::<u8>::empty());
        assert(fweight(ns.drop_first()) == 0);
        assert(lmset(ns) == leaves(ns[0]).to_multiset().add(Multiset::<u8>::empty()));
        assert(lmset(ns) =~= leaves(ns[0]).to_multiset());
        assert(fweight(ns) == spec_weight(ns[0]));
    } else {
        lemma_merge_once_props(ns);
        lemma_merge_all_props(merge_once(ns));
    }
}

/// The 256 byte values in order.
pub open spec fn byte_seq() -> Seq<u8> {
    Seq::new(256, |i: int| i as u8)
}

/// The starting forest for a table: one terminal per byte value, in byte
/// order, carrying that byte's count as its weight.
pub open spec fn init_nodes(c: Seq<u64>) -> Seq<HuffmanNode> {
    Seq::new(256, |i: int| HuffmanNode::Terminal(i as u8, c[i]))
}

/// The tree that `build` produces from a 256-entry table.
pub open spec fn spec_build(c: Seq<u64>) -> HuffmanNode {
    merge_all(init_nodes(c))
}

proof fn lemma_lmset_init_suffix(c: Seq<u64>, k: int)
    requires
        c.len() == 256,
        0 <= k <= 256,
    ensures
        lmset(init_nodes(c).skip(k)) =~= byte_seq().skip(k).to_multiset(),
    decreases 256 - k,
{
    if k == 256 {
        assert(init_nodes(c).skip(k) =~= Seq::<HuffmanNode>::empty());
        assert(byte_seq().skip(k) =~= Seq::<u8>::empty());
        assert(Seq::<u8>::empty().to_multiset() =~= Multiset::<u8>::empty());
    } else {
        lemma_lmset_init_suffix(c, k + 1);
        let s = init_nodes(c).skip(k);
        assert(s[0] == HuffmanNode::Terminal(k as u8, c[k]));
        assert(s.drop_first() =~= init_nodes(c).skip(k + 1));
        let bs = byte_seq().skip(k);
        assert(bs[0] == k as u8);
        assert(bs.drop_first() =~= byte_seq().skip(k + 1));
        assert(bs.to_multiset() =~= bs.drop_first().to_multiset().insert(k as u8)) by {
            assert(bs =~= bs.drop_first().insert(0, k as u8));
            bs.drop_first().to_multiset_ensures();
            assert(bs.drop_first().insert(0, k as u8).to_multiset() =~= bs.drop_first().to_multiset().insert(
                k as u8,
            ));
        }
        assert(leaves(s[0]) =~= seq![k as u8]);
        assert(seq![k as u8].to_multiset() =~= Multiset::<u8>::empty().insert(k as u8)) by {
            assert(seq![k as u8].drop_first() =~= Seq::<u8>::empty());
        }
        assert(lmset(s) =~= bs.to_multiset());
    }
}

proof fn lemma_byte_seq_facts()
    ensures
        byte_seq().no_duplicates(),
        forall|b: u8| byte_seq().to_multiset().count(b) == 1,
{
    assert forall|i: int, j: int| 0 <= i < 256 && 0 <= j < 256 && i != j implies byte_seq()[i]
        != byte_seq()[j] by {
        assert(byte_seq()[i] as int == i);
        assert(byte_seq()[j] as int == j);
    }
    assert(byte_seq().no_duplicates());
    byte_seq().lemma_multiset_has_no_duplicates();
    assert forall|b: u8| byte_seq().to_multiset().count(b) == 1 by {
        assert(byte_seq()[b as int] == b);
        assert(byte_seq().contains(b));
        assert(byte_seq().to_multiset().count(b) > 0);
        assert(byte_seq().to_multiset().contains(b));
    }
}

/// Tree completeness: the tree built from any full table has exactly 256
/// leaves, one for every byte value, with no duplicates — whatever the
/// counts, including a table concentrated on a single byte.
pub proof fn lemma_tree_completeness(c: Seq<u64>)
    requires
        c.len() == 256,
    ensures
        leaves(spec_build(c)).len() == 256,
        leaves(spec_build(c)).no_duplicates(),
        forall|b: u8| leaves(spec_build(c)).contains(b),
        left_heavy(spec_build(c)),
        spec_weight(spec_build(c)) == fweight(init_nodes(c)),
{
    let ns = init_nodes(c);
    assert(all_left_heavy(ns)) by {
        assert(forall|k: int|
            0 <= k < 256 ==> #[trigger] ns[k] == HuffmanNode::Terminal(k as u8, c[k]));
    }
    lemma_merge_all_props(ns);
    lemma_lmset_init_suffix(c, 0);
    assert(ns.skip(0) =~= ns);
    assert(byte_seq().skip(0) =~= byte_seq());
    lemma_byte_seq_facts();
    let lv = leaves(spec_build(c));
    assert(lv.to_multiset() =~= byte_seq().to_multiset());
    assert(lv.len() == lv.to_multiset().len());
    assert(byte_seq().len() == byte_seq().to_multiset().len());
    lv.lemma_multiset_has_no_duplicates_conv();
    assert forall|b: u8| lv.contains(b) by {
        assert(lv.to_multiset().count(b) == 1);
    }
}

/// The code of byte `v` in tree `n`: its root-to-leaf path, a zero bit for
/// the zero-side child, a one bit for the other.
pub open spec fn code_in(n: HuffmanNode, v: u8) -> Seq<bool>
    decreases n,
{
    match n {
        HuffmanNode::Terminal(_, _) => Seq::empty(),
        HuffmanNode::Interior(l, r) => if leaves(*l).contains(v) {
            seq![false] + code_in(*l, v)
        } else {
            seq![true] + code_in(*r, v)
        },
    }
}

/// One decoding step: walk `bits` downward from `n` until a terminal. The
/// decoded byte and the number of bits consumed, or `None` when the bits run
/// out in the middle of a path.
pub open spec fn decode_one(n: HuffmanNode, bits: Seq<bool>) -> Option<(u8, int)>
    decreases n,
{
    match n {
        HuffmanNode::Terminal(v, _) => Some((v, 0)),
        HuffmanNode::Interior(l, r) => if bits.len() == 0 {
            None
        } else {
            let sub = if !bits[0] {
                *l
            } else {
                *r
            };
            match decode_one(sub, bits.drop_first()) {
                Some(p) => Some((p.0, p.1 + 1)),
                None => None,
            }
        },
    }
}

/// Greedy decoding of as many whole codes as `bits` holds, with the
/// undecodable remainder.
pub open spec fn decode_all(n: HuffmanNode, bits: Seq<bool>) -> (Seq<u8>, Seq<bool>)
    decreases bits.len(),
{
    match decode_one(n, bits) {
        Some(p) => if 1 <= p.1 <= bits.len() {
            let rec = decode_all(n, bits.skip(p.1));
            (seq![p.0] + rec.0, rec.1)
        } else {
            (Seq::empty(), bits)
        },
        None => (Seq::empty(), bits),
    }
}

/// The concatenated codes of the bytes of `s` under tree `n`.
pub open spec fn payload_bits(n: HuffmanNode, s: Seq<u8>) -> Seq<bool>
    decreases s.len(),
{
    if s.len() == 0 {
        Seq::empty()
    } else {
        code_in(n, s[0]) + payload_bits(n, s.drop_first())
    }
}

proof fn lemma_decode_one_bound(n: HuffmanNode, bits: Seq<bool>)
    ensures
        decode_one(n, bits) matches Some(p) ==> 0 <= p.1 <= bits.len(),
    decreases n,
{
    match n {
        HuffmanNode::Terminal(_, _) => {},
        HuffmanNode::Interior(l, r) => {
            if bits.len() > 0 {
                lemma_decode_one_bound(*l, bits.drop_first());
                lemma_decode_one_bound(*r, bits.drop_first());
            }
        },
    }
}

proof fn lemma_decode_one_ext(n: HuffmanNode, bits: Seq<bool>, ext: Seq<bool>)
    requires
        decode_one(n, bits) is Some,
    ensures
        decode_one(n, bits + ext) == decode_one(n, bits),
    decreases n,
{
    match n {
        HuffmanNode::Terminal(_, _) => {},
        HuffmanNode::Interior(l, r) => {
            assert(bits.len() > 0);
            assert((bits + ext)[0] == bits[0]);
            assert((bits + ext).len() > 0);
            assert((bits + ext).drop_first() =~= bits.drop_first() + ext);
            let sub = if !bits[0] {
                *l
            } else {
                *r
            };
            lemma_decode_one_ext(sub, bits.drop_first(), ext);
        },
    }
}

/// Walking a code: from any node whose leaves include `v`, the bits of `v`'s
/// code lead exactly to `v`'s terminal, whatever follows them.
proof fn lemma_code_decodes(n: HuffmanNode, v: u8, rest: Seq<bool>)
    requires
        leaves(n).contains(v),
    ensures
        decode_one(n, code_in(n, v) + rest) == Some((v, code_in(n, v).len() as int)),
    decreases n,
{
    match n {
        HuffmanNode::Terminal(u, _) => {
            assert(leaves(n) =~= seq![u]);
            assert(v == u);
            assert(code_in(n, v) + rest =~= rest);
        },
        HuffmanNode::Interior(l, r) => {
            let c = code_in(n, v);
            let bits = c + rest;
            if leaves(*l).contains(v) {
                assert(c == seq![false] + code_in(*l, v));
                assert(bits[0] == false);
                assert(bits.drop_first() =~= code_in(*l, v) + rest);
                lemma_code_decodes(*l, v, rest);
            } else {
                assert(leaves(n) =~= leaves(*l) + leaves(*r));
                assert(leaves(*r).contains(v)) by {
                    let k = choose|k: int| 0 <= k < leaves(n).len() && leaves(n)[k] == v;
                    assert(leaves(n)[k] == v);
                    if k < leaves(*l).len() {
                        assert(leaves(*l)[k] == v);
                    } else {
                        assert(leaves(*r)[k - leaves(*l).len()] == v);
                    }
                }
                assert(c == seq![true] + code_in(*r, v));
                assert(bits[0] == true);
                assert(bits.drop_first() =~= code_in(*r, v) + rest);
                lemma_code_decodes(*r, v, rest);
            }
        },
    }
}

/// Padding safety: in a left-heavy tree with more than `2^k` leaves, `k`
/// all-zero bits cannot reach a terminal.
proof fn lemma_zero_walk(n: HuffmanNode, bits: Seq<bool>)
    requires
        left_heavy(n),
        forall|i: int| 0 <= i < bits.len() ==> !bits[i],
        leaves(n).len() > vstd::arithmetic::power2::pow2(bits.len() as nat),
    ensures
        decode_one(n, bits) == None::<(u8, int)>,
    decreases bits.len(),
{
    vstd::arithmetic::power2::lemma_pow2_unfold(bits.len() as nat + 1);
    match n {
        HuffmanNode::Terminal(_, _) => {
            assert(vstd::arithmetic::power2::pow2(bits.len() as nat) >= 1) by {
                vstd::arithmetic::power2::lemma_pow2_pos(bits.len() as nat);
            }
            assert(leaves(n).len() == 1);
            assert(false);
        },
        HuffmanNode::Interior(l, r) => {
            if bits.len() == 0 {
            } else {
                assert(!bits[0]);
                assert(leaves(n) =~= leaves(*l) + leaves(*r));
                assert(leaves(*l).len() >= leaves(*r).len());
                let k1 = (bits.len() - 1) as nat;
                vstd::arithmetic::power2::lemma_pow2_unfold(bits.len() as nat);
                assert(leaves(*l).len() > vstd::arithmetic::power2::pow2(k1));
                assert(forall|i: int|
                    0 <= i < bits.drop_first().len() ==> !bits.drop_first()[i]);
                lemma_zero_walk(*l, bits.drop_first());
            }
        },
    }
}

/// Decoding a stream of whole codes followed by an undecodable tail yields
/// exactly the encoded bytes and that tail.
proof fn lemma_decode_payload(n: HuffmanNode, s: Seq<u8>, tail: Seq<bool>)
    requires
        n is Interior,
        forall|b: u8| leaves(n).contains(b),
        decode_one(n, tail) == None::<(u8, int)>,
    ensures
        decode_all(n, payload_bits(n, s) + tail) == (s, tail),
    decreases s.len(),
{
    if s.len() == 0 {
        assert(payload_bits(n, s) + tail =~= tail);
        assert(decode_all(n, tail) == (Seq::<u8>::empty(), tail));
        assert(s =~= Seq::<u8>::empty());
    } else {
        let c = code_in(n, s[0]);
        let bits = payload_bits(n, s) + tail;
        assert(bits =~= c + (payload_bits(n, s.drop_first()) + tail));
        lemma_code_decodes(n, s[0], payload_bits(n, s.drop_first()) + tail);
        assert(c.len() >= 1);
        lemma_decode_one_bound(n, bits);
        assert(bits.skip(c.len() as int) =~= payload_bits(n, s.drop_first()) + tail);
        lemma_decode_payload(n, s.drop_first(), tail);
        assert(seq![s[0]] + s.drop_first() =~= s);
    }
}

/// Greedy decoding processes an extended bit stream exactly as it processes
/// the old stream and then the remainder joined with the new bits.
proof fn lemma_decode_all_append(n: HuffmanNode, bits: Seq<bool>, ext: Seq<bool>)
    ensures
        decode_all(n, bits + ext) == (decode_all(n, bits).0 + decode_all(
            n,
            decode_all(n, bits).1 + ext,
        ).0, decode_all(n, decode_all(n, bits).1 + ext).1),
    decreases bits.len(),
{
    lemma_decode_one_bound(n, bits);
    match decode_one(n, bits) {
        Some(p) => {
            lemma_decode_one_ext(n, bits, ext);
            if 1 <= p.1 <= bits.len() {
                assert((bits + ext).skip(p.1) =~= bits.skip(p.1) + ext);
                lemma_decode_all_append(n, bits.skip(p.1), ext);
                assert(seq![p.0] + (decode_all(n, bits.skip(p.1)).0 + decode_all(
                    n,
                    decode_all(n, bits.skip(p.1)).1 + ext,
                ).0) =~= (seq![p.0] + decode_all(n, bits.skip(p.1)).0) + decode_all(
                    n,
                    decode_all(n, bits.skip(p.1)).1 + ext,
                ).0);
            } else {
                assert(p.1 == 0);
                assert(decode_all(n, bits) == (Seq::<u8>::empty(), bits));
                assert(decode_one(n, bits + ext) == Some((p.0, 0int)));
                assert(decode_all(n, bits + ext) == (Seq::<u8>::empty(), bits + ext));
                assert(Seq::<u8>::empty() + decode_all(n, bits + ext).0 =~= decode_all(
                    n,
                    bits + ext,
                ).0);
            }
        },
        None => {
            assert(decode_all(n, bits) == (Seq::<u8>::empty(), bits));
            assert(Seq::<u8>::empty() + decode_all(n, bits + ext).0 =~= decode_all(
                n,
                bits + ext,
            ).0);
        },
    }
}

impl HuffmanNode {
    /// The weight of this node: a terminal's count, an interior node's sum
    /// over its children.
    pub fn weight(&self) -> (r: u128)
        requires
            spec_weight(*self) <= u128::MAX,
        ensures
            r as nat == spec_weight(*self),
        decreases *self,
    {
        match self {
            HuffmanNode::Terminal(_, w) => *w as u128,
            HuffmanNode::Interior(l, r) => l.weight() + r.weight(),
        }
    }

    /// The byte values at the leaves below this node, leftmost first.
    pub fn values(&self) -> (r: Vec<u8>)
        ensures
            r@ == leaves(*self),
        decreases *self,
    {
        match self {
            HuffmanNode::Terminal(v, _) => {
                let mut vals: Vec<u8> = Vec::new();
                vals.push(*v);
                proof {
                    assert(vals@ =~= seq![*v]);
                }
                vals
            },
            HuffmanNode::Interior(l, r) => {
                let mut vals = l.values();
                let mut rv = r.values();
                vals.append(&mut rv);
                vals
            },
        }
    }

    /// The number of leaves below this node.
    fn num_leaves(&self) -> (r: usize)
        requires
            leaves(*self).len() <= usize::MAX,
        ensures
            r == leaves(*self).len(),
        decreases *self,
    {
        match self {
            HuffmanNode::Terminal(_, _) => 1,
            HuffmanNode::Interior(l, r) => l.num_leaves() + r.num_leaves(),
        }
    }
}

/// The code tree plus the per-byte code index derived from it once.
pub struct HuffmanTree {
    pub root: HuffmanNode,
    pub index: Vec<BitQueue>,
}

impl HuffmanTree {
    /// The tree covers all 256 byte values with distinct leaves, keeps its
    /// heavier-leafed child on the zero side, and its index holds each
    /// byte's root-to-leaf code.
    pub open spec fn wf(&self) -> bool {
        &&& self.index@.len() == 256
        &&& forall|b: int| 0 <= b < 256 ==> self.index@[b]@ == code_in(self.root, b as u8)
        &&& leaves(self.root).len() == 256
        &&& leaves(self.root).no_duplicates()
        &&& forall|b: u8| leaves(self.root).contains(b)
        &&& left_heavy(self.root)
        &&& self.root is Interior
    }

    /// The bit code of `byte`, root-to-leaf; present for every byte of a
    /// well-formed tree.
    pub fn encode(&self, byte: u8) -> (r: Option<&BitQueue>)
        requires
            self.wf(),
        ensures
            r matches Some(q) && q@ == code_in(self.root, byte),
    {
        let val: &BitQueue = &self.index[byte as usize];
        Some(val)
    }
}

/// A bit queue holding exactly the given bits, front of the queue first.
fn bitqueue_of_bits(bits: &Vec<bool>) -> (r: BitQueue)
    ensures
        r@ == bits@,
{
    let mut q = BitQueue::new();
    q.extend(bits.as_slice());
    proof {
        assert(Seq::<bool>::empty() + bits@ =~= bits@);
    }
    q
}

/// Fills `index` with the code of every leaf below `n`, each prefixed by the
/// path that led to `n`.
fn assign_codes(n: &HuffmanNode, prefix: &mut Vec<bool>, index: &mut Vec<BitQueue>)
    requires
        leaves(*n).no_duplicates(),
        old(index)@.len() == 256,
    ensures
        final (index)@.len() == 256,
        forall|b: int|
            0 <= b < 256 ==> final (index)@[b]@ == (if leaves(*n).contains(b as u8) {
                old(prefix)@ + code_in(*n, b as u8)
            } else {
                old(index)@[b]@
            }),
        final (prefix)@ == old(prefix)@,
    decreases *n,
{
    match n {
        HuffmanNode::Terminal(v, _) => {
            let q = bitqueue_of_bits(prefix);
            index[*v as usize] = q;
            proof {
                assert(leaves(*n) =~= seq![*v]);
                assert forall|b: int| 0 <= b < 256 implies index@[b]@ == (if leaves(*n).contains(
                    b as u8,
                ) {
                    prefix@ + code_in(*n, b as u8)
                } else {
                    old(index)@[b]@
                }) by {
                    if leaves(*n).contains(b as u8) {
                        assert(leaves(*n)[0] == *v);
                        assert(b as u8 == *v);
                        assert(b == *v as int);
                        assert(code_in(*n, b as u8) =~= Seq::<bool>::empty());
                        assert(prefix@ + code_in(*n, b as u8) =~= prefix@);
                    } else {
                        assert(b as u8 != *v) by {
                            if b as u8 == *v {
                                assert(leaves(*n)[0] == *v);
                                assert(leaves(*n).contains(b as u8));
                            }
                        }
                        assert(b != *v as int);
                    }
                }
            }
        },
        HuffmanNode::Interior(l, r) => {
            proof {
                assert(leaves(*n) =~= leaves(**l) + leaves(**r));
                assert(leaves(**l).no_duplicates() && leaves(**r).no_duplicates() && forall|x: u8|
                    !(leaves(**l).contains(x) && leaves(**r).contains(x))) by {
                    let ll = leaves(**l);
                    let rr = leaves(**r);
                    let cc = leaves(*n);
                    assert forall|i: int, j: int|
                        0 <= i < ll.len() && 0 <= j < ll.len() && i != j implies ll[i] != ll[j] by {
                        assert(cc[i] == ll[i] && cc[j] == ll[j]);
                    }
                    assert forall|i: int, j: int|
                        0 <= i < rr.len() && 0 <= j < rr.len() && i != j implies rr[i] != rr[j] by {
                        assert(cc[i + ll.len()] == rr[i] && cc[j + ll.len()] == rr[j]);
                    }
                    assert forall|x: u8| leaves(**l).contains(x) implies !leaves(**r).contains(
                        x,
                    ) by {
                        let i = choose|i: int| 0 <= i < ll.len() && ll[i] == x;
                        if rr.contains(x) {
                            let j = choose|j: int| 0 <= j < rr.len() && rr[j] == x;
                            assert(cc[i] == x && cc[j + ll.len()] == x);
                        }
                    }
                }
            }
            let ghost p0 = prefix@;
            let ghost idx0 = index@;
            prefix.push(false);
            assign_codes(l, prefix, index);
            let _ = prefix.pop();
            proof {
                assert((p0 + seq![false]).drop_last() =~= p0);
            }
            let ghost idx1 = index@;
            prefix.push(true);
            assign_codes(r, prefix, index);
            let _ = prefix.pop();
            proof {
                assert((p0 + seq![true]).drop_last() =~= p0);
                assert forall|b: int| 0 <= b < 256 implies index@[b]@ == (if leaves(*n).contains(
                    b as u8,
                ) {
                    p0 + code_in(*n, b as u8)
                } else {
                    idx0[b]@
                }) by {
                    let x = b as u8;
                    if leaves(**l).contains(x) {
                        assert(!leaves(**r).contains(x));
                        assert(leaves(*n).contains(x)) by {
                            let i = choose|i: int|
                                0 <= i < leaves(**l).len() && leaves(**l)[i] == x;
                            assert(leaves(*n)[i] == x);
                        }
                        assert(index@[b]@ == idx1[b]@);
                        assert(idx1[b]@ == (p0 + seq![false]) + code_in(**l, x));
                        assert(code_in(*n, x) == seq![false] + code_in(**l, x));
                        assert((p0 + seq![false]) + code_in(**l, x) =~= p0 + (seq![false]
                            + code_in(**l, x)));
                    } else if leaves(**r).contains(x) {
                        assert(leaves(*n).contains(x)) by {
                            let i = choose|i: int|
                                0 <= i < leaves(**r).len() && leaves(**r)[i] == x;
                            assert(leaves(*n)[i + leaves(**l).len()] == x);
                        }
                        assert(index@[b]@ == (p0 + seq![true]) + code_in(**r, x));
                        assert(code_in(*n, x) == seq![true] + code_in(**r, x));
                        assert((p0 + seq![true]) + code_in(**r, x) =~= p0 + (seq![true] + code_in(
                            **r,
                            x,
                        )));
                    } else {
                        assert(!leaves(*n).contains(x)) by {
                            if leaves(*n).contains(x) {
                                let i = choose|i: int|
                                    0 <= i < leaves(*n).len() && leaves(*n)[i] == x;
                                if i < leaves(**l).len() {
                                    assert(leaves(**l)[i] == x);
                                } else {
                                    assert(leaves(**r)[i - leaves(**l).len()] == x);
                                }
                            }
                        }
                        assert(index@[b]@ == idx1[b]@);
                        assert(idx1[b]@ == idx0[b]@);
                    }
                }
            }
        },
    }
}

proof fn lemma_node_bounds(ns: Seq<HuffmanNode>, k: int)
    requires
        0 <= k < ns.len(),
    ensures
        spec_weight(ns[k]) <= fweight(ns),
        leaves(ns[k]).len() <= lmset(ns).len(),
{
    lemma_forest_remove(ns, k);
    assert(lmset(ns).len() == leaves(ns[k]).to_multiset().len() + lmset(ns.remove(k)).len());
    assert(leaves(ns[k]).to_multiset().len() == leaves(ns[k]).len());
}

proof fn lemma_init_weight(c: Seq<u64>, k: int)
    requires
        c.len() == 256,
        0 <= k <= 256,
    ensures
        fweight(init_nodes(c).skip(k)) <= (256 - k) * 0xffff_ffff_ffff_ffff,
    decreases 256 - k,
{
    if k == 256 {
        assert(init_nodes(c).skip(k) =~= Seq::<HuffmanNode>::empty());
    } else {
        lemma_init_weight(c, k + 1);
        let s = init_nodes(c).skip(k);
        assert(s[0] == HuffmanNode::Terminal(k as u8, c[k]));
        assert(s.drop_first() =~= init_nodes(c).skip(k + 1));
        assert(spec_weight(s[0]) <= 0xffff_ffff_ffff_ffff);
        assert((256 - k) * 0xffff_ffff_ffff_ffff == 0xffff_ffff_ffff_ffff + (256 - (k + 1))
            * 0xffff_ffff_ffff_ffff) by (nonlinear_arith);
    }
}

/// Index of the first lowest-weight node of the forest.
#[verifier::loop_isolation(false)]
fn argmin(nodes: &Vec<HuffmanNode>) -> (r: usize)
    requires
        nodes@.len() >= 1,
        forall|k: int| 0 <= k < nodes@.len() ==> spec_weight(#[trigger] nodes@[k]) <= u128::MAX,
    ensures
        is_first_min(nodes@, r as int),
{
    let mut best: usize = 0;
    let mut best_w: u128 = nodes[0].weight();
    let mut k: usize = 1;
    while k < nodes.len()
        invariant
            1 <= k <= nodes@.len(),
            best < k,
            best_w as nat == spec_weight(nodes@[best as int]),
            forall|j: int| 0 <= j < k ==> best_w as nat <= spec_weight(#[trigger] nodes@[j]),
            forall|j: int| 0 <= j < best ==> spec_weight(#[trigger] nodes@[j]) > best_w as nat,
        decreases nodes@.len() - k,
    {
        let w = nodes[k].weight();
        if w < best_w {
            best = k;
            best_w = w;
        }
        k += 1;
    }
    best
}

/// How many occurrences of byte `b` the sequence `s` holds.
pub open spec fn count_of(s: Seq<u8>, b: u8) -> nat
    decreases s.len(),
{
    if s.len() == 0 {
        0
    } else {
        count_of(s.drop_last(), b) + (if s.last() == b {
            1nat
        } else {
            0nat
        })
    }
}

/// The frequency table of `s` as 256 64-bit counters, one per byte value.
pub open spec fn hist64(s: Seq<u8>) -> Seq<u64> {
    Seq::new(256, |i: int| count_of(s, i as u8) as u64)
}

/// `c` is the 256-entry histogram of `s`.
pub open spec fn counts_match(c: Seq<u64>, s: Seq<u8>) -> bool {
    c.len() == 256 && forall|b: int| 0 <= b < 256 ==> (#[trigger] c[b]) as nat == count_of(
        s,
        b as u8,
    )
}

proof fn lemma_count_le_len(s: Seq<u8>, b: u8)
    ensures
        count_of(s, b) <= s.len(),
    decreases s.len(),
{
    if s.len() > 0 {
        lemma_count_le_len(s.drop_last(), b);
    }
}

proof fn lemma_counts_match_hist(c: Seq<u64>, s: Seq<u8>)
    requires
        counts_match(c, s),
        s.len() <= u64::MAX,
    ensures
        c == hist64(s),
{
    assert forall|b: int| 0 <= b < 256 implies c[b] == hist64(s)[b] by {
        lemma_count_le_len(s, b as u8);
    }
    assert(c =~= hist64(s));
}

/// The 64 bits of one counter, most significant first.
pub open spec fn u64_bits(x: u64) -> Seq<bool> {
    Seq::new(64, |k: int| (x >> ((63 - k) as u64)) & 1 == 1)
}

/// The bit form of a table: each counter as 64 bits, most significant first.
pub open spec fn header_bits(c: Seq<u64>) -> Seq<bool>
    decreases c.len(),
{
    if c.len() == 0 {
        Seq::empty()
    } else {
        u64_bits(c[0]) + header_bits(c.drop_first())
    }
}

/// The value of an MSB-first bit sequence.
pub open spec fn parse_bits(bits: Seq<bool>) -> nat
    decreases bits.len(),
{
    if bits.len() == 0 {
        0
    } else {
        2 * parse_bits(bits.drop_last()) + (if bits.last() {
            1nat
        } else {
            0nat
        })
    }
}

/// The first `n` 64-bit counters read from the front of `bits`.
pub open spec fn parse_counts(bits: Seq<bool>, n: nat) -> Seq<u64>
    decreases n,
{
    if n == 0 {
        Seq::empty()
    } else {
        seq![parse_bits(bits.take(64)) as u64] + parse_counts(bits.skip(64), (n - 1) as nat)
    }
}

proof fn lemma_parse_prefix(x: u64, k: int)
    requires
        1 <= k <= 64,
    ensures
        parse_bits(u64_bits(x).take(k)) == (x >> ((64 - k) as u64)) as nat,
    decreases k,
{
    let t = u64_bits(x).take(k);
    assert(t.last() == u64_bits(x)[k - 1]);
    assert(u64_bits(x)[k - 1] == ((x >> ((64 - k) as u64)) & 1 == 1));
    if k == 1 {
        assert(t.drop_last() =~= Seq::<bool>::empty());
        assert(parse_bits(t.drop_last()) == 0);
        assert(t.len() == 1);
        assert(parse_bits(t) == 2 * parse_bits(t.drop_last()) + (if t.last() {
            1nat
        } else {
            0nat
        }));
        assert(t.last() == ((x >> 63u64) & 1 == 1));
        assert((x >> 63u64) & 1 == x >> 63u64) by (bit_vector);
        assert(x >> 63u64 <= 1) by (bit_vector);
        assert((64 - k) as u64 == 63u64);
    } else {
        lemma_parse_prefix(x, k - 1);
        assert(t.drop_last() =~= u64_bits(x).take(k - 1));
        let s = (64 - k) as u64;
        assert((64 - (k - 1)) as u64 == s + 1);
        assert(s <= 62 ==> x >> s == 2 * (x >> (s + 1)) + ((x >> s) & 1)) by (bit_vector);
        assert((x >> s) & 1 <= 1) by (bit_vector);
        assert(parse_bits(t) == 2 * parse_bits(u64_bits(x).take(k - 1)) + (if (x >> s) & 1 == 1 {
            1nat
        } else {
            0nat
        }));
        assert(parse_bits(u64_bits(x).take(k - 1)) == (x >> (s + 1)) as nat);
        assert(parse_bits(t) == (x >> s) as nat);
    }
}

proof fn lemma_parse_u64(x: u64)
    ensures
        parse_bits(u64_bits(x)) == x,
{
    lemma_parse_prefix(x, 64);
    assert(u64_bits(x).take(64) =~= u64_bits(x));
    assert(x >> 0u64 == x) by (bit_vector);
}

proof fn lemma_header_bits_len(c: Seq<u64>)
    ensures
        header_bits(c).len() == 64 * c.len(),
    decreases c.len(),
{
    if c.len() > 0 {
        lemma_header_bits_len(c.drop_first());
    }
}

proof fn lemma_parse_header(c: Seq<u64>, rest: Seq<bool>)
    ensures
        parse_counts(header_bits(c) + rest, c.len() as nat) == c,
    decreases c.len(),
{
    if c.len() == 0 {
        assert(parse_counts(header_bits(c) + rest, 0) =~= c);
    } else {
        let bits = header_bits(c) + rest;
        let tail = header_bits(c.drop_first()) + rest;
        assert(bits =~= u64_bits(c[0]) + tail);
        lemma_header_bits_len(c.drop_first());
        assert(bits.take(64) =~= u64_bits(c[0]));
        assert(bits.skip(64) =~= tail);
        lemma_parse_u64(c[0]);
        lemma_parse_header(c.drop_first(), rest);
        assert(parse_counts(bits, c.len() as nat) == seq![c[0]] + c.drop_first());
        assert(seq![c[0]] + c.drop_first() =~= c);
    }
}

proof fn lemma_payload_push(n: HuffmanNode, s: Seq<u8>, x: u8)
    ensures
        payload_bits(n, s.push(x)) == payload_bits(n, s) + code_in(n, x),
    decreases s.len(),
{
    if s.len() == 0 {
        assert(s.push(x)[0] == x);
        assert(s.push(x).drop_first() =~= Seq::<u8>::empty());
        assert(payload_bits(n, Seq::<u8>::empty()) == Seq::<bool>::empty());
        assert(s.push(x).len() == 1);
        assert(payload_bits(n, s.push(x)) == code_in(n, s.push(x)[0]) + payload_bits(
            n,
            s.push(x).drop_first(),
        ));
        assert(payload_bits(n, s.push(x)) == code_in(n, x) + Seq::<bool>::empty());
        assert(code_in(n, x) + Seq::<bool>::empty() =~= Seq::<bool>::empty() + code_in(n, x));
    } else {
        lemma_payload_push(n, s.drop_first(), x);
        assert(s.push(x)[0] == s[0]);
        assert(s.push(x).drop_first() =~= s.drop_first().push(x));
        assert(payload_bits(n, s.push(x)) == code_in(n, s[0]) + (payload_bits(n, s.drop_first())
            + code_in(n, x)));
        assert(code_in(n, s[0]) + (payload_bits(n, s.drop_first()) + code_in(n, x)) =~= (code_in(
            n,
            s[0],
        ) + payload_bits(n, s.drop_first())) + code_in(n, x));
    }
}

/// The node reached from `n` along path `p`.
pub open spec fn node_at(n: HuffmanNode, p: Seq<bool>) -> HuffmanNode
    decreases p.len(),
{
    if p.len() == 0 {
        n
    } else {
        match n {
            HuffmanNode::Interior(l, r) => node_at(
                if !p[0] {
                    *l
                } else {
                    *r
                },
                p.drop_first(),
            ),
            HuffmanNode::Terminal(_, _) => n,
        }
    }
}

/// The path `p` stays inside the tree: it crosses interior nodes only.
pub open spec fn path_ok(n: HuffmanNode, p: Seq<bool>) -> bool
    decreases p.len(),
{
    p.len() == 0 || match n {
        HuffmanNode::Interior(l, r) => path_ok(
            if !p[0] {
                *l
            } else {
                *r
            },
            p.drop_first(),
        ),
        HuffmanNode::Terminal(_, _) => false,
    }
}

proof fn lemma_walk_terminal(n: HuffmanNode, p: Seq<bool>, rest: Seq<bool>)
    requires
        path_ok(n, p),
        node_at(n, p) is Terminal,
    ensures
        decode_one(n, p + rest) == Some((node_at(n, p)->Terminal_0, p.len() as int)),
    decreases p.len(),
{
    if p.len() == 0 {
        assert(p + rest =~= rest);
    } else {
        let sub = if !p[0] {
            *n->Interior_0
        } else {
            *n->Interior_1
        };
        assert((p + rest)[0] == p[0]);
        assert((p + rest).drop_first() =~= p.drop_first() + rest);
        lemma_walk_terminal(sub, p.drop_first(), rest);
    }
}

proof fn lemma_walk_interior(n: HuffmanNode, p: Seq<bool>)
    requires
        path_ok(n, p),
        node_at(n, p) is Interior,
    ensures
        decode_one(n, p) == None::<(u8, int)>,
    decreases p.len(),
{
    if p.len() == 0 {
    } else {
        let sub = if !p[0] {
            *n->Interior_0
        } else {
            *n->Interior_1
        };
        lemma_walk_interior(sub, p.drop_first());
    }
}

proof fn lemma_walk_extend(n: HuffmanNode, p: Seq<bool>, bit: bool)
    requires
        path_ok(n, p),
        node_at(n, p) is Interior,
    ensures
        path_ok(n, p.push(bit)),
        node_at(n, p.push(bit)) == (if !bit {
            *node_at(n, p)->Interior_0
        } else {
            *node_at(n, p)->Interior_1
        }),
    decreases p.len(),
{
    if p.len() == 0 {
        assert(p.push(bit)[0] == bit);
        assert(p.push(bit).drop_first() =~= Seq::<bool>::empty());
        let c = if !bit {
            *n->Interior_0
        } else {
            *n->Interior_1
        };
        assert(path_ok(c, p.push(bit).drop_first()));
        assert(node_at(c, p.push(bit).drop_first()) == c);
        assert(node_at(n, p) == n);
    } else {
        let sub = if !p[0] {
            *n->Interior_0
        } else {
            *n->Interior_1
        };
        assert(p.push(bit)[0] == p[0]);
        assert(p.push(bit).drop_first() =~= p.drop_first().push(bit));
        lemma_walk_extend(sub, p.drop_first(), bit);
    }
}

proof fn lemma_header_snoc(c: Seq<u64>, x: u64)
    ensures
        header_bits(c.push(x)) == header_bits(c) + u64_bits(x),
    decreases c.len(),
{
    if c.len() == 0 {
        assert(c.push(x)[0] == x);
        assert(c.push(x).drop_first() =~= Seq::<u64>::empty());
        assert(header_bits(Seq::<u64>::empty()) == Seq::<bool>::empty());
        assert(c.push(x).len() == 1);
        assert(header_bits(c.push(x)) == u64_bits(c.push(x)[0]) + header_bits(
            c.push(x).drop_first(),
        ));
        assert(header_bits(c.push(x)) == u64_bits(x) + Seq::<bool>::empty());
        assert(u64_bits(x) + Seq::<bool>::empty() =~= Seq::<bool>::empty() + u64_bits(x));
    } else {
        lemma_header_snoc(c.drop_first(), x);
        assert(c.push(x)[0] == c[0]);
        assert(c.push(x).drop_first() =~= c.drop_first().push(x));
        assert(header_bits(c.push(x)) == u64_bits(c[0]) + (header_bits(c.drop_first())
            + u64_bits(x)));
        assert(u64_bits(c[0]) + (header_bits(c.drop_first()) + u64_bits(x)) =~= (u64_bits(c[0])
            + header_bits(c.drop_first())) + u64_bits(x));
    }
}

/// Appends the 64 bits of `x`, most significant first, at the back of `q`.
fn write_u64_bits(q: &mut BitQueue, x: u64)
    ensures
        final (q)@ == old(q)@ + u64_bits(x),
{
    let mut k: usize = 0;
    proof {
        assert(old(q)@ + u64_bits(x).take(0) =~= old(q)@);
    }
    while k < 64
        invariant
            k <= 64,
            q@ == old(q)@ + u64_bits(x).take(k as int),
        decreases 64 - k,
    {
        let sh: u64 = (63 - k) as u64;
        q.push_back((x >> sh) & 1 == 1);
        proof {
            assert(u64_bits(x)[k as int] == ((x >> ((63 - k as int) as u64)) & 1 == 1));
            assert(((63 - k as int) as u64) == sh);
            assert(u64_bits(x).take(k + 1) =~= u64_bits(x).take(k as int).push(
                u64_bits(x)[k as int],
            ));
            assert(old(q)@ + u64_bits(x).take(k + 1) =~= (old(q)@ + u64_bits(x).take(
                k as int,
            )).push(u64_bits(x)[k as int]));
        }
        k += 1;
    }
    proof {
        assert(u64_bits(x).take(64) =~= u64_bits(x));
    }
}

/// Empties `q` into packed bytes, zero-padding a final partial byte.
fn drain_bytes(q: &mut BitQueue) -> (r: Vec<u8>)
    ensures
        final (q)@ == Seq::<bool>::empty(),
        r@ == pack_bits(old(q)@),
{
    let mut bits: Vec<bool> = Vec::with_capacity(q.len());
    proof {
        assert(bits@ + q@ =~= old(q)@);
    }
    while q.len() > 0
        invariant
            old(q)@ == bits@ + q@,
        decreases q@.len(),
    {
        let ghost qpre = q@;
        let b = q.pop_front().unwrap();
        bits.push(b);
        proof {
            assert(bits@ + q@ =~= old(q)@) by {
                assert(qpre[0] == b);
                assert(qpre =~= seq![b] + qpre.drop_first());
            }
        }
    }
    proof {
        assert(bits@ =~= old(q)@);
    }
    bools_to_bytes(bits.as_slice())
}

/// The bytes a complete encoder session emits for input `s` frozen at table
/// `cf`: the 2048-byte header, then every byte's code, zero-padded to a byte
/// boundary.
pub open spec fn encoder_stream(cf: Seq<u64>, s: Seq<u8>) -> Seq<u8> {
    pack_bits(header_bits(cf) + payload_bits(spec_build(cf), s))
}

/// A per-byte occurrence table over the 256 byte values, the statistics from
/// which the Huffman tree is built.
pub struct HuffmanBuilder {
    counts: Vec<u64>,
}

impl HuffmanBuilder {
    /// The table as a sequence of 256 counters.
    pub closed spec fn view(&self) -> Seq<u64> {
        self.counts@
    }

    /// Whether the table has its full 256 entries.
    pub open spec fn wf(&self) -> bool {
        self@.len() == 256
    }

    /// A table with all 256 counters at zero.
    pub fn new() -> (r: Self)
        ensures
            r.wf(),
            forall|i: int| 0 <= i < 256 ==> r@[i] == 0,
    {
        let mut counts: Vec<u64> = Vec::with_capacity(256);
        let mut i: usize = 0;
        while i < 256
            invariant
                counts@.len() == i,
                i <= 256,
                forall|k: int| 0 <= k < i ==> counts@[k] == 0,
            decreases 256 - i,
        {
            counts.push(0);
            i += 1;
        }
        HuffmanBuilder { counts }
    }

    /// The 256 counters in byte-value order.
    pub fn serialize(&self) -> (r: Vec<u64>)
        requires
            self.wf(),
        ensures
            r@ == self@,
    {
        let mut out: Vec<u64> = Vec::with_capacity(256);
        let mut i: usize = 0;
        while i < self.counts.len()
            invariant
                i <= self.counts@.len(),
                out@ == self.counts@.take(i as int),
            decreases self.counts@.len() - i,
        {
            out.push(self.counts[i]);
            proof {
                assert(self.counts@.take(i + 1) == self.counts@.take(i as int).push(
                    self.counts@[i as int],
                ));
            }
            i += 1;
        }
        proof {
            assert(self.counts@.take(self.counts@.len() as int) == self.counts@);
        }
        out
    }

    /// A table holding exactly the given 256 counters.
    pub fn deserialize(counts: Vec<u64>) -> (r: Self)
        requires
            counts@.len() == 256,
        ensures
            r.wf(),
            r@ == counts@,
    {
        HuffmanBuilder { counts }
    }

    /// Counts one more occurrence of `byte`.
    pub fn push(&mut self, byte: u8)
        requires
            old(self).wf(),
            old(self)@[byte as int] < u64::MAX,
        ensures
            final (self).wf(),
            final (self)@ == old(self)@.update(byte as int, (old(self)@[byte as int] + 1) as u64),
    {
        let idx = byte as usize;
        let c = self.counts[idx];
        self.counts[idx] = c + 1;
    }

    /// Builds the code tree for the current table: seeds one terminal per
    /// byte value (zero-weight ones included), merges the two lightest nodes
    /// until a single root remains, then derives the per-byte code index in
    /// one root-to-leaf traversal.
    #[verifier::loop_isolation(false)]
    pub fn build(&mut self) -> (r: HuffmanTree)
        requires
            old(self).wf(),
        ensures
            final (self)@ == old(self)@,
            r.wf(),
            r.root == spec_build(old(self)@),
    {
        let ghost c = self@;
        let mut nodes: Vec<HuffmanNode> = Vec::with_capacity(256);
        let mut i: usize = 0;
        while i < 256
            invariant
                i <= 256,
                nodes@ == init_nodes(c).take(i as int),
                self@ == c,
            decreases 256 - i,
        {
            nodes.push(HuffmanNode::Terminal(i as u8, self.counts[i]));
            proof {
                assert(init_nodes(c)[i as int] == HuffmanNode::Terminal(i as u8, c[i as int]));
                assert(init_nodes(c).take(i + 1) =~= init_nodes(c).take(i as int).push(
                    init_nodes(c)[i as int],
                ));
            }
            i += 1;
        }
        let ghost init = init_nodes(c);
        proof {
            assert(init.take(256) =~= init);
            lemma_lmset_init_suffix(c, 0);
            assert(init.skip(0) =~= init);
            assert(byte_seq().skip(0) =~= byte_seq());
            lemma_byte_seq_facts();
            assert(byte_seq().to_multiset().len() == 256);
            assert(lmset(init).len() == 256);
            lemma_init_weight(c, 0);
            assert(fweight(init) <= 256 * 0xffff_ffff_ffff_ffff);
        }
        while nodes.len() >= 2
            invariant
                nodes@.len() >= 1,
                merge_all(nodes@) == merge_all(init),
                lmset(nodes@) =~= lmset(init),
                fweight(nodes@) == fweight(init),
            decreases nodes@.len(),
        {
            let ghost ns0 = nodes@;
            proof {
                assert forall|k: int| 0 <= k < ns0.len() implies spec_weight(
                    #[trigger] ns0[k],
                ) <= u128::MAX by {
                    lemma_node_bounds(ns0, k);
                }
            }
            let i = argmin(&nodes);
            let a = nodes.remove(i);
            let ghost ga = a;
            let ghost rest = ns0.remove(i as int);
            proof {
                lemma_forest_remove(ns0, i as int);
                assert forall|k: int| 0 <= k < rest.len() implies spec_weight(
                    #[trigger] rest[k],
                ) <= u128::MAX by {
                    lemma_node_bounds(rest, k);
                }
            }
            let j = argmin(&nodes);
            let b = nodes.remove(j);
            let ghost gb = b;
            proof {
                lemma_node_bounds(ns0, i as int);
                lemma_node_bounds(rest, j as int);
                assert(leaves(ga).len() <= 256);
                assert(leaves(gb).len() <= 256);
            }
            let al = a.num_leaves();
            let bl = b.num_leaves();
            let node = if al >= bl {
                HuffmanNode::Interior(Box::new(a), Box::new(b))
            } else {
                HuffmanNode::Interior(Box::new(b), Box::new(a))
            };
            proof {
                assert(node == merge_node(ga, gb));
            }
            nodes.push(node);
            proof {
                assert(is_first_min(ns0, first_min_idx(ns0))) by {
                    assert(is_first_min(ns0, i as int));
                }
                lemma_first_min_unique(ns0, first_min_idx(ns0), i as int);
                assert(is_first_min(rest, first_min_idx(rest))) by {
                    assert(is_first_min(rest, j as int));
                }
                lemma_first_min_unique(rest, first_min_idx(rest), j as int);
                assert(nodes@ =~= merge_once(ns0));
                lemma_merge_once_props(ns0);
                assert(merge_all(ns0) == merge_all(merge_once(ns0)));
            }
        }
        let root = nodes.pop().unwrap();
        proof {
            assert(root == merge_all(init));
            lemma_tree_completeness(c);
            assert(root is Interior) by {
                if root is Terminal {
                    assert(leaves(root).len() == 1);
                }
            }
        }
        let mut index: Vec<BitQueue> = Vec::with_capacity(256);
        let mut k: usize = 0;
        while k < 256
            invariant
                index@.len() == k,
                k <= 256,
            decreases 256 - k,
        {
            index.push(BitQueue::new());
            k += 1;
        }
        let mut prefix: Vec<bool> = Vec::new();
        assign_codes(&root, &mut prefix, &mut index);
        proof {
            assert forall|b: int| 0 <= b < 256 implies index@[b]@ == code_in(root, b as u8) by {
                assert(leaves(root).contains(b as u8));
                assert(Seq::<bool>::empty() + code_in(root, b as u8) =~= code_in(root, b as u8));
            }
        }
        HuffmanTree { root, index }
    }
}

/// The streaming Huffman compressor. It counts incoming bytes while
/// collecting, freezes the table into a tree once more than the configured
/// number of bytes is pending (or on flush), then emits the 2048-byte header
/// followed by the codes of every byte fed, zero-padded at flush.
pub struct HuffmanEncoder {
    tree: Option<HuffmanTree>,
    builder: HuffmanBuilder,
    buffer_in: VecDeque<u8>,
    buffer_out: BitQueue,
    build_tree_after: u64,
    fed: Ghost<Seq<u8>>,
    frozen: Ghost<Seq<u64>>,
    emitted: Ghost<Seq<u8>>,
}

impl HuffmanEncoder {
    /// Every byte fed to `process` so far.
    pub closed spec fn fed(&self) -> Seq<u8> {
        self.fed@
    }

    /// The concatenation of every chunk returned so far.
    pub closed spec fn emitted(&self) -> Seq<u8> {
        self.emitted@
    }

    /// The pending-byte count above which the table freezes.
    pub closed spec fn threshold(&self) -> u64 {
        self.build_tree_after
    }

    /// The table the tree was built from, once frozen.
    pub closed spec fn frozen_counts(&self) -> Seq<u64> {
        self.frozen@
    }

    /// Whether the statistics have frozen into a tree.
    pub closed spec fn is_frozen(&self) -> bool {
        self.tree is Some
    }

    /// The session invariant: while collecting, the table counts exactly the
    /// fed bytes and nothing has been emitted; once frozen, the bits emitted
    /// so far followed by the bit buffer are exactly the header and the
    /// codes of every byte already encoded, and the pending bytes are the
    /// fed suffix not yet encoded.
    pub closed spec fn inv(&self) -> bool {
        &&& self.builder.wf()
        &&& match self.tree {
            None => {
                &&& self.buffer_in@ == self.fed@
                &&& counts_match(self.builder@, self.fed@)
                &&& self.buffer_out@ == Seq::<bool>::empty()
                &&& self.emitted@ == Seq::<u8>::empty()
            },
            Some(t) => {
                let k = self.fed@.len() - self.buffer_in@.len();
                &&& t.wf()
                &&& t.root == spec_build(self.frozen@)
                &&& self.frozen@.len() == 256
                &&& self.buffer_in@.len() <= self.fed@.len()
                &&& self.buffer_in@ == self.fed@.skip(k)
                &&& bits_of(self.emitted@) + self.buffer_out@ == header_bits(self.frozen@)
                    + payload_bits(t.root, self.fed@.take(k))
            },
        }
    }

    /// A fresh encoder whose table freezes once more than `build_tree_after`
    /// bytes are pending.
    pub fn new(build_tree_after: u64) -> (r: Self)
        ensures
            r.inv(),
            r.fed() == Seq::<u8>::empty(),
            r.emitted() == Seq::<u8>::empty(),
            !r.is_frozen(),
            r.threshold() == build_tree_after,
    {
        HuffmanEncoder {
            tree: None,
            builder: HuffmanBuilder::new(),
            buffer_in: VecDeque::new(),
            buffer_out: BitQueue::with_capacity(32768),
            build_tree_after,
            fed: Ghost(Seq::empty()),
            frozen: Ghost(Seq::empty()),
            emitted: Ghost(Seq::empty()),
        }
    }

    /// Freezes the table when forced or when the pending bytes exceed the
    /// threshold, encodes everything pending, and emits whole output bytes
    /// whenever the bit buffer is byte-aligned (always, when forced).
    #[verifier::loop_isolation(false)]
    fn process_buffer(&mut self, force_push: bool) -> (r: Vec<u8>)
        requires
            old(self).inv(),
            old(self).fed().len() <= u64::MAX,
        ensures
            final (self).fed() == old(self).fed(),
            final (self).threshold() == old(self).threshold(),
            final (self).emitted() == old(self).emitted() + r@,
            old(self).is_frozen() ==> final (self).is_frozen() && final (self).frozen_counts()
                == old(self).frozen_counts(),
            !old(self).is_frozen() && (force_push || old(self).fed().len() > old(
                self,
            ).threshold()) ==> final (self).is_frozen() && final (self).frozen_counts()
                == hist64(old(self).fed()),
            !old(self).is_frozen() && !(force_push || old(self).fed().len() > old(
                self,
            ).threshold()) ==> !final (self).is_frozen() && r@ == Seq::<u8>::empty(),
            !force_push ==> final (self).inv(),
            force_push ==> final (self).is_frozen() && final (self).emitted()
                == encoder_stream(final (self).frozen_counts(), old(self).fed()),
    {
        let pending_len = self.buffer_in.len();
        proof {
            if self.tree is None {
                assert(pending_len == self.fed@.len());
            }
        }
        if self.tree.is_none() && (force_push || pending_len as u64 > self.build_tree_after) {
            let tree = self.builder.build();
            self.frozen = Ghost(self.builder@);
            proof {
                lemma_counts_match_hist(self.builder@, self.fed@);
            }
            let counts = self.builder.serialize();
            let mut ci: usize = 0;
            proof {
                assert(header_bits(counts@.take(0)) =~= Seq::<bool>::empty());
                assert(self.buffer_out@ =~= header_bits(counts@.take(0)));
            }
            while ci < 256
                invariant
                    ci <= 256,
                    self.buffer_out@ == header_bits(counts@.take(ci as int)),
                    self.tree is None,
                    self.builder.wf(),
                    self.builder@ == old(self).builder@,
                    self.buffer_in@ == old(self).buffer_in@,
                    self.build_tree_after == old(self).build_tree_after,
                    self.fed@ == old(self).fed@,
                    self.frozen@ == self.builder@,
                    self.emitted@ == old(self).emitted@,
                decreases 256 - ci,
            {
                write_u64_bits(&mut self.buffer_out, counts[ci]);
                proof {
                    lemma_header_snoc(counts@.take(ci as int), counts@[ci as int]);
                    assert(counts@.take(ci + 1) =~= counts@.take(ci as int).push(
                        counts@[ci as int],
                    ));
                }
                ci += 1;
            }
            self.tree = Some(tree);
            proof {
                assert(counts@.take(256) =~= counts@);
                assert(self.fed@.skip(0) =~= self.fed@);
                assert(self.fed@.take(0) =~= Seq::<u8>::empty());
                assert(payload_bits(tree.root, Seq::<u8>::empty()) == Seq::<bool>::empty());
                assert(bits_of(self.emitted@) == Seq::<bool>::empty());
                assert(bits_of(self.emitted@) + self.buffer_out@ =~= header_bits(self.frozen@)
                    + payload_bits(tree.root, self.fed@.take(0)));
            }
        }
        let ghost fed = self.fed@;
        let ghost frozen = self.frozen@;
        let ghost em0 = self.emitted@;
        match &self.tree {
            Some(tree) => {
                while self.buffer_in.len() > 0
                    invariant
                        self.tree == Some(*tree),
                        tree.wf(),
                        tree.root == spec_build(frozen),
                        frozen.len() == 256,
                        self.fed@ == fed,
                        self.frozen@ == frozen,
                        self.emitted@ == em0,
                        self.builder.wf(),
                        self.build_tree_after == old(self).build_tree_after,
                        self.buffer_in@.len() <= fed.len(),
                        self.buffer_in@ == fed.skip(fed.len() - self.buffer_in@.len()),
                        bits_of(self.emitted@) + self.buffer_out@ == header_bits(frozen)
                            + payload_bits(tree.root, fed.take(fed.len() - self.buffer_in@.len())),
                    decreases self.buffer_in@.len(),
                {
                    let ghost k = fed.len() - self.buffer_in@.len();
                    let byte = self.buffer_in.pop_front().unwrap();
                    proof {
                        assert(fed.skip(k)[0] == fed[k]);
                        assert(byte == fed[k]);
                        assert(fed.skip(k).drop_first() =~= fed.skip(k + 1));
                    }
                    let code = tree.encode(byte).unwrap();
                    self.buffer_out.copy_from(code);
                    proof {
                        lemma_payload_push(tree.root, fed.take(k), byte);
                        assert(fed.take(k).push(byte) =~= fed.take(k + 1));
                        assert((header_bits(frozen) + payload_bits(tree.root, fed.take(k)))
                            + code_in(tree.root, byte) =~= header_bits(frozen) + (payload_bits(
                            tree.root,
                            fed.take(k),
                        ) + code_in(tree.root, byte)));
                        assert((bits_of(self.emitted@) + self.buffer_out@) =~= bits_of(
                            self.emitted@,
                        ) + self.buffer_out@);
                    }
                }
                proof {
                    assert(fed.take(fed.len() as int) =~= fed);
                }
            },
            None => {},
        }
        let out_len = self.buffer_out.len();
        if force_push || out_len % 8 == 0 {
            let ghost outbits = self.buffer_out@;
            let r = drain_bytes(&mut self.buffer_out);
            self.emitted = Ghost(self.emitted@ + r@);
            proof {
                lemma_bits_of_append(em0, r@);
                lemma_bits_of_pack(outbits);
                lemma_bits_of_len(em0);
                if outbits.len() % 8 == 0 {
                    assert(zeros(pad_len(outbits.len())) =~= Seq::<bool>::empty());
                    assert(bits_of(r@) =~= outbits);
                    assert(bits_of(self.emitted@) + self.buffer_out@ =~= bits_of(em0) + outbits);
                }
                if force_push {
                    match &self.tree {
                        Some(t) => {
                            assert(bits_of(em0) + outbits == header_bits(frozen) + payload_bits(
                                t.root,
                                fed,
                            ));
                            lemma_pack_append_aligned(bits_of(em0), outbits);
                            lemma_pack_bits_of(em0);
                            assert(pack_bits(bits_of(em0) + outbits) == em0 + pack_bits(outbits));
                            assert(self.emitted@ == encoder_stream(frozen, fed));
                        },
                        None => {
                            assert(false);
                        },
                    }
                }
            }
            r
        } else {
            proof {
                assert(self.emitted@ + Seq::<u8>::empty() =~= self.emitted@);
            }
            Vec::new()
        }
    }

    /// Feeds one chunk. While the table is collecting (and stays at or under
    /// the threshold) the bytes are only counted and buffered and nothing
    /// comes back; once frozen, the header and the codes of every fed byte
    /// stream out whenever the output is byte-aligned.
    #[verifier::loop_isolation(false)]
    pub fn process(&mut self, buffer: Vec<u8>) -> (r: Vec<u8>)
        requires
            old(self).inv(),
            old(self).fed().len() + buffer@.len() <= u64::MAX,
        ensures
            final (self).inv(),
            final (self).fed() == old(self).fed() + buffer@,
            final (self).threshold() == old(self).threshold(),
            final (self).emitted() == old(self).emitted() + r@,
            old(self).is_frozen() ==> final (self).is_frozen() && final (self).frozen_counts()
                == old(self).frozen_counts(),
            !old(self).is_frozen() && old(self).fed().len() + buffer@.len() <= old(
                self,
            ).threshold() ==> !final (self).is_frozen() && r@ == Seq::<u8>::empty(),
            !old(self).is_frozen() && final (self).is_frozen() ==> final (self).frozen_counts()
                == hist64(old(self).fed() + buffer@),
    {
        let ghost fed0 = self.fed@;
        if self.tree.is_none() {
            let mut i: usize = 0;
            proof {
                assert(fed0 + buffer@.take(0) =~= fed0);
            }
            while i < buffer.len()
                invariant
                    i <= buffer@.len(),
                    self.builder.wf(),
                    counts_match(self.builder@, fed0 + buffer@.take(i as int)),
                    self.tree == old(self).tree,
                    self.buffer_in@ == old(self).buffer_in@,
                    self.buffer_out@ == old(self).buffer_out@,
                    self.build_tree_after == old(self).build_tree_after,
                    self.fed@ == fed0,
                    self.frozen@ == old(self).frozen@,
                    self.emitted@ == old(self).emitted@,
                decreases buffer@.len() - i,
            {
                let ghost sofar = fed0 + buffer@.take(i as int);
                proof {
                    lemma_count_le_len(sofar, buffer@[i as int]);
                }
                self.builder.push(buffer[i]);
                proof {
                    assert(fed0 + buffer@.take(i + 1) =~= sofar.push(buffer@[i as int]));
                    assert forall|b: int| 0 <= b < 256 implies (#[trigger] self.builder@[b]) as nat
                        == count_of(fed0 + buffer@.take(i + 1), b as u8) by {
                        let nxt = sofar.push(buffer@[i as int]);
                        assert(nxt.drop_last() =~= sofar);
                        assert(nxt.last() == buffer@[i as int]);
                        assert(count_of(nxt, b as u8) == count_of(sofar, b as u8) + (if buffer@[i
                            as int] == b as u8 {
                            1nat
                        } else {
                            0nat
                        }));
                    }
                }
                i += 1;
            }
            proof {
                assert(buffer@.take(buffer@.len() as int) =~= buffer@);
            }
        }
        let mut i: usize = 0;
        let ghost bin0 = self.buffer_in@;
        while i < buffer.len()
            invariant
                i <= buffer@.len(),
                self.buffer_in@ == bin0 + buffer@.take(i as int),
                self.builder.wf(),
                counts_match(self.builder@, fed0 + buffer@) || self.tree is Some,
                self.tree == old(self).tree,
                self.buffer_out@ == old(self).buffer_out@,
                self.build_tree_after == old(self).build_tree_after,
                self.fed@ == fed0,
                self.frozen@ == old(self).frozen@,
                self.emitted@ == old(self).emitted@,
            decreases buffer@.len() - i,
        {
            self.buffer_in.push_back(buffer[i]);
            proof {
                assert(buffer@.take(i + 1) =~= buffer@.take(i as int).push(buffer@[i as int]));
                assert(bin0 + buffer@.take(i + 1) =~= (bin0 + buffer@.take(i as int)).push(
                    buffer@[i as int],
                ));
            }
            i += 1;
        }
        proof {
            assert(buffer@.take(buffer@.len() as int) =~= buffer@);
        }
        self.fed = Ghost(fed0 + buffer@);
        proof {
            if self.tree is Some {
                let k0 = fed0.len() - bin0.len();
                let k = self.fed@.len() - self.buffer_in@.len();
                assert(self.buffer_in@ =~= bin0 + buffer@);
                assert(k == k0);
                assert(self.fed@.skip(k) =~= bin0 + buffer@);
                assert(self.fed@.take(k) =~= fed0.take(k0));
            } else {
                assert(self.buffer_in@ =~= self.fed@);
            }
        }
        self.process_buffer(false)
    }

    /// Ends the stream: freezes the table if it has not frozen yet, encodes
    /// everything pending and returns all remaining output, zero-padded to a
    /// byte boundary. The concatenation of every chunk this session returned
    /// is then the complete stream for the fed bytes — the same bytes,
    /// however the input was split across `process` calls.
    pub fn flush(&mut self) -> (r: Vec<u8>)
        requires
            old(self).inv(),
            old(self).fed().len() <= u64::MAX,
        ensures
            final (self).fed() == old(self).fed(),
            final (self).emitted() == old(self).emitted() + r@,
            final (self).is_frozen(),
            final (self).frozen_counts() == (if old(self).is_frozen() {
                old(self).frozen_counts()
            } else {
                hist64(old(self).fed())
            }),
            final (self).emitted() == encoder_stream(
                final (self).frozen_counts(),
                old(self).fed(),
            ),
    {
        self.process_buffer(true)
    }
}

proof fn lemma_parse_counts_prefix(x: Seq<bool>, ext: Seq<bool>, n: nat)
    requires
        x.len() >= 64 * n,
    ensures
        parse_counts(x + ext, n) == parse_counts(x, n),
    decreases n,
{
    if n > 0 {
        assert((x + ext).take(64) =~= x.take(64));
        assert((x + ext).skip(64) =~= x.skip(64) + ext);
        lemma_parse_counts_prefix(x.skip(64), ext, (n - 1) as nat);
    }
}

/// Reads one 64-bit big-endian counter from the front of the queue.
fn parse_u64(q: &mut BitQueue) -> (r: u64)
    requires
        old(q)@.len() >= 64,
    ensures
        final (q)@ == old(q)@.skip(64),
        r as nat == parse_bits(old(q)@.take(64)),
{
    let mut val: u64 = 0;
    let mut k: usize = 0;
    proof {
        assert(old(q)@.skip(0) =~= old(q)@);
        assert(old(q)@.take(0) =~= Seq::<bool>::empty());
        vstd::arithmetic::power2::lemma2_to64();
        vstd::arithmetic::power2::lemma2_to64_rest();
    }
    while k < 64
        invariant
            k <= 64,
            q@ == old(q)@.skip(k as int),
            old(q)@.len() >= 64,
            val as nat == parse_bits(old(q)@.take(k as int)),
            (val as nat) < vstd::arithmetic::power2::pow2(k as nat),
            vstd::arithmetic::power2::pow2(63) == 0x8000000000000000,
        decreases 64 - k,
    {
        let bit = q.pop_front().unwrap();
        proof {
            if k < 63 {
                vstd::arithmetic::power2::lemma_pow2_strictly_increases(k as nat, 63);
            }
            assert((val as nat) < 0x8000000000000000);
        }
        val = val * 2 + (if bit {
            1
        } else {
            0
        });
        proof {
            let t = old(q)@.take(k + 1);
            assert(t.drop_last() =~= old(q)@.take(k as int));
            assert(t.last() == old(q)@[k as int]);
            assert(old(q)@.skip(k as int)[0] == old(q)@[k as int]);
            assert(bit == old(q)@[k as int]);
            assert(old(q)@.skip(k as int).drop_first() =~= old(q)@.skip(k + 1));
            assert(parse_bits(t) == 2 * parse_bits(old(q)@.take(k as int)) + (if t.last() {
                1nat
            } else {
                0nat
            }));
            vstd::arithmetic::power2::lemma_pow2_unfold((k + 1) as nat);
        }
        k += 1;
    }
    proof {
        assert(old(q)@.take(64) =~= old(q)@.take(64));
    }
    val
}

/// What a decoder session has produced once `fed` bytes have gone in: empty
/// until the 2048-byte header is complete, then every byte whose whole code
/// has arrived, in order.
pub open spec fn spec_decoder_output(fed: Seq<u8>) -> Seq<u8> {
    if fed.len() < 2048 {
        Seq::empty()
    } else {
        decode_all(spec_build(parse_counts(bits_of(fed), 256)), bits_of(fed).skip(16384)).0
    }
}

/// Round trip: a complete encoder session's output, decoded, is exactly the
/// byte sequence that went in — for every input sequence and every freeze
/// table. The up-to-seven zero padding bits can never decode to a spurious
/// byte, because the built tree keeps its leaf-heavier subtree on the zero
/// side, so the all-zero path stays interior for at least eight steps.
pub proof fn lemma_round_trip(cf: Seq<u64>, s: Seq<u8>)
    requires
        cf.len() == 256,
    ensures
        spec_decoder_output(encoder_stream(cf, s)) == s,
{
    let root = spec_build(cf);
    lemma_tree_completeness(cf);
    let hb = header_bits(cf);
    let pb = payload_bits(root, s);
    let hp = hb + pb;
    let enc = encoder_stream(cf, s);
    lemma_header_bits_len(cf);
    lemma_bits_of_pack(hp);
    lemma_bits_of_len(enc);
    let pad = zeros(pad_len(hp.len()));
    assert(enc.len() >= 2048) by {
        assert(8 * enc.len() >= 16384);
    }
    assert(bits_of(enc) =~= hb + (pb + pad));
    lemma_parse_header(cf, pb + pad);
    assert(parse_counts(bits_of(enc), 256) == cf);
    assert(bits_of(enc).skip(16384) =~= pb + pad);
    assert(root is Interior) by {
        if root is Terminal {
            assert(leaves(root).len() == 1);
        }
    }
    assert(decode_one(root, pad) == None::<(u8, int)>) by {
        vstd::arithmetic::power2::lemma2_to64();
        vstd::arithmetic::power2::lemma_pow2_strictly_increases(pad.len() as nat, 8);
        assert(leaves(root).len() > vstd::arithmetic::power2::pow2(pad.len() as nat));
        lemma_zero_walk(root, pad);
    }
    lemma_decode_payload(root, s, pad);
}

/// The streaming Huffman decompressor: buffers bits until the 2048-byte
/// header is complete, rebuilds the tree from it, then walks the tree bit by
/// bit, carrying a partial path across calls so codes split between chunks
/// are never lost.
pub struct HuffmanDecoder {
    tree: Option<HuffmanTree>,
    buffer_in: BitQueue,
    fed: Ghost<Seq<u8>>,
    emitted: Ghost<Seq<u8>>,
}

impl HuffmanDecoder {
    /// Every byte fed to `process` so far.
    pub closed spec fn fed(&self) -> Seq<u8> {
        self.fed@
    }

    /// The concatenation of every chunk returned so far.
    pub closed spec fn emitted(&self) -> Seq<u8> {
        self.emitted@
    }

    /// The session invariant: before the header completes nothing has been
    /// produced and every bit is buffered; afterwards the produced bytes and
    /// the undecodable remainder in the buffer are exactly what greedy
    /// decoding of everything after the header yields.
    pub closed spec fn inv(&self) -> bool {
        match self.tree {
            None => {
                &&& self.fed@.len() < 2048
                &&& self.buffer_in@ == bits_of(self.fed@)
                &&& self.emitted@ == Seq::<u8>::empty()
            },
            Some(t) => {
                &&& self.fed@.len() >= 2048
                &&& t.wf()
                &&& t.root == spec_build(parse_counts(bits_of(self.fed@), 256))
                &&& self.emitted@ == decode_all(t.root, bits_of(self.fed@).skip(16384)).0
                &&& self.buffer_in@ == decode_all(t.root, bits_of(self.fed@).skip(16384)).1
            },
        }
    }

    /// A fresh decoder awaiting a stream's header.
    pub fn new() -> (r: Self)
        ensures
            r.inv(),
            r.fed() == Seq::<u8>::empty(),
            r.emitted() == Seq::<u8>::empty(),
    {
        HuffmanDecoder {
            tree: None,
            buffer_in: BitQueue::with_capacity(32),
            fed: Ghost(Seq::empty()),
            emitted: Ghost(Seq::empty()),
        }
    }

    /// Feeds one chunk of encoded bytes and returns every byte whose whole
    /// code has now arrived. Whatever the chunk boundaries, even inside a
    /// code, the concatenation of everything returned depends only on the
    /// concatenation of everything fed.
    #[verifier::loop_isolation(false)]
    pub fn process(&mut self, buffer: Vec<u8>) -> (r: Vec<u8>)
        requires
            old(self).inv(),
        ensures
            final (self).inv(),
            final (self).fed() == old(self).fed() + buffer@,
            final (self).emitted() == old(self).emitted() + r@,
            final (self).emitted() == spec_decoder_output(old(self).fed() + buffer@),
    {
        let ghost fed0 = self.fed@;
        let ghost was_frozen = self.tree is Some;
        let ghost oldrem = self.buffer_in@;
        self.buffer_in.push_back_u8s(buffer.as_slice());
        self.fed = Ghost(fed0 + buffer@);
        proof {
            lemma_bits_of_append(fed0, buffer@);
            lemma_bits_of_len(fed0);
            lemma_bits_of_len(buffer@);
            lemma_bits_of_len(self.fed@);
        }
        if self.tree.is_none() && self.buffer_in.len() >= 16384 {
            let ghost bin0 = self.buffer_in@;
            let mut counts: Vec<u64> = Vec::with_capacity(256);
            let mut ci: usize = 0;
            proof {
                assert(bin0.skip(0) =~= bin0);
                assert(Seq::<u64>::empty() + parse_counts(bin0, 256) =~= parse_counts(bin0, 256));
            }
            while ci < 256
                invariant
                    ci <= 256,
                    bin0.len() >= 16384,
                    self.buffer_in@ == bin0.skip(64 * ci),
                    counts@.len() == ci,
                    parse_counts(bin0, 256) == counts@ + parse_counts(
                        bin0.skip(64 * ci),
                        (256 - ci) as nat,
                    ),
                    self.tree is None,
                    self.fed@ == fed0 + buffer@,
                    self.emitted@ == old(self).emitted@,
                decreases 256 - ci,
            {
                let ghost pre = bin0.skip(64 * ci);
                let x = parse_u64(&mut self.buffer_in);
                counts.push(x);
                proof {
                    assert(pre.skip(64) =~= bin0.skip(64 * (ci + 1)));
                    assert(x as nat == parse_bits(pre.take(64)));
                    assert(parse_counts(pre, (256 - ci) as nat) == seq![
                        parse_bits(pre.take(64)) as u64,
                    ] + parse_counts(pre.skip(64), (256 - (ci + 1)) as nat));
                    assert(seq![parse_bits(pre.take(64)) as u64] =~= seq![x]);
                    assert(counts@ + parse_counts(bin0.skip(64 * (ci + 1)), (256 - (ci + 1)) as nat)
                        =~= (counts@.drop_last() + seq![x]) + parse_counts(
                        bin0.skip(64 * (ci + 1)),
                        (256 - (ci + 1)) as nat,
                    )) by {
                        assert(counts@.drop_last().push(x) =~= counts@);
                        assert(counts@.drop_last() + seq![x] =~= counts@);
                    }
                    assert((counts@.drop_last() + seq![x]) + parse_counts(
                        bin0.skip(64 * (ci + 1)),
                        (256 - (ci + 1)) as nat,
                    ) =~= counts@.drop_last() + (seq![x] + parse_counts(
                        bin0.skip(64 * (ci + 1)),
                        (256 - (ci + 1)) as nat,
                    )));
                }
                ci += 1;
            }
            proof {
                assert(parse_counts(bin0.skip(16384), 0) == Seq::<u64>::empty());
                assert(counts@ + Seq::<u64>::empty() =~= counts@);
                assert(counts@ == parse_counts(bin0, 256));
            }
            let mut fresh = HuffmanBuilder::deserialize(counts);
            let tree = fresh.build();
            self.tree = Some(tree);
        }
        let mut out: Vec<u8> = Vec::new();
        let ghost pp = bits_of(self.fed@).skip(16384);
        proof {
            match &self.tree {
                Some(t) => {
                    if was_frozen {
                        assert(bits_of(self.fed@).skip(16384) =~= bits_of(fed0).skip(16384)
                            + bits_of(buffer@));
                        lemma_parse_counts_prefix(bits_of(fed0), bits_of(buffer@), 256);
                        lemma_decode_all_append(t.root, bits_of(fed0).skip(16384), bits_of(buffer@));
                        assert(self.buffer_in@ =~= oldrem + bits_of(buffer@));
                        assert(decode_all(t.root, pp).0 == self.emitted@ + decode_all(
                            t.root,
                            self.buffer_in@,
                        ).0);
                        assert(decode_all(t.root, pp).1 == decode_all(t.root, self.buffer_in@).1);
                    } else {
                        assert(self.buffer_in@ =~= pp);
                        assert(self.emitted@ + decode_all(t.root, self.buffer_in@).0 =~= decode_all(
                            t.root,
                            self.buffer_in@,
                        ).0);
                    }
                },
                None => {},
            }
        }
        match &self.tree {
            Some(tree) => {
                let ghost root = tree.root;
                let ghost bstart = self.buffer_in@;
                let ghost em0 = self.emitted@;
                let mut followed = BitQueue::with_capacity(64);
                let mut current: &HuffmanNode = &tree.root;
                let mut done = false;
                proof {
                    assert(followed@ + bstart =~= bstart);
                }
                while !done
                    invariant
                        self.tree == Some(*tree),
                        tree.wf(),
                        tree.root == root,
                        path_ok(root, followed@),
                        node_at(root, followed@) == *current,
                        decode_all(root, bstart).0 == out@ + decode_all(
                            root,
                            followed@ + self.buffer_in@,
                        ).0,
                        decode_all(root, bstart).1 == decode_all(
                            root,
                            followed@ + self.buffer_in@,
                        ).1,
                        done ==> self.buffer_in@.len() == 0 && (*current) is Interior,
                        self.fed@ == fed0 + buffer@,
                        self.emitted@ == em0,
                    decreases
                            self.buffer_in@.len(),
                            (if (*current) is Terminal {
                                1int
                            } else {
                                0int
                            }),
                            (if done {
                                0int
                            } else {
                                1int
                            }),
                {
                    match current {
                        HuffmanNode::Terminal(v, _) => {
                            proof {
                                let p = followed@;
                                assert(p.len() >= 1) by {
                                    if p.len() == 0 {
                                        assert(node_at(root, p) == root);
                                    }
                                }
                                lemma_walk_terminal(root, p, self.buffer_in@);
                                lemma_decode_one_bound(root, p + self.buffer_in@);
                                assert((p + self.buffer_in@).skip(p.len() as int) =~= self.buffer_in@);
                                assert(decode_all(root, p + self.buffer_in@) == (seq![*v]
                                    + decode_all(root, self.buffer_in@).0, decode_all(
                                    root,
                                    self.buffer_in@,
                                ).1));
                            }
                            out.push(*v);
                            proof {
                                assert(out@ + decode_all(root, self.buffer_in@).0 =~= out@.drop_last()
                                    + (seq![*v] + decode_all(root, self.buffer_in@).0)) by {
                                    assert(out@.drop_last().push(*v) =~= out@);
                                    assert(out@.drop_last() + seq![*v] =~= out@);
                                    assert((out@.drop_last() + seq![*v]) + decode_all(
                                        root,
                                        self.buffer_in@,
                                    ).0 =~= out@.drop_last() + (seq![*v] + decode_all(
                                        root,
                                        self.buffer_in@,
                                    ).0));
                                }
                            }
                            followed.clear();
                            current = &tree.root;
                            proof {
                                assert(followed@ + self.buffer_in@ =~= self.buffer_in@);
                            }
                        },
                        HuffmanNode::Interior(l, r) => {
                            let ghost p = followed@;
                            let ghost bpre = self.buffer_in@;
                            let popped = self.buffer_in.pop_front();
                            match popped {
                                None => {
                                    done = true;
                                },
                                Some(bit) => {
                                    followed.push_back(bit);
                                    proof {
                                        lemma_walk_extend(root, p, bit);
                                        assert(followed@ =~= p.push(bit));
                                        assert(node_at(root, p) == *current);
                                        assert((*current)->Interior_0 == *l);
                                        assert(followed@ + self.buffer_in@ =~= p + bpre) by {
                                            assert(bpre[0] == bit);
                                            assert(self.buffer_in@ =~= bpre.drop_first());
                                        }
                                    }
                                    current = if !bit {
                                        &**l
                                    } else {
                                        &**r
                                    };
                                },
                            }
                        },
                    }
                }
                let ghost pfin = followed@;
                self.buffer_in.append(&mut followed);
                proof {
                    assert(pfin + Seq::<bool>::empty() =~= pfin);
                    lemma_walk_interior(root, pfin);
                    assert(decode_all(root, pfin) == (Seq::<u8>::empty(), pfin));
                    assert(out@ + Seq::<u8>::empty() =~= out@);
                    assert(decode_all(root, bstart).0 == out@);
                    assert(decode_all(root, bstart).1 == pfin);
                    assert(self.buffer_in@ =~= pfin);
                    assert(decode_all(root, pp).0 == em0 + out@);
                    assert(decode_all(root, pp).1 == self.buffer_in@);
                }
            },
            None => {},
        }
        self.emitted = Ghost(self.emitted@ + out@);
        proof {
            match &self.tree {
                Some(t) => {
                    assert(self.emitted@ == decode_all(t.root, pp).0);
                    assert(self.fed@.len() >= 2048) by {
                        assert(8 * self.fed@.len() >= 16384);
                    }
                },
                None => {
                    assert(self.buffer_in@ =~= bits_of(self.fed@));
                    assert(self.buffer_in@.len() < 16384);
                    assert(self.fed@.len() < 2048);
                    assert(self.emitted@ + out@ =~= self.emitted@);
                },
            }
        }
        out
    }
}

} // verus!
