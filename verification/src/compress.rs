//! Frequency analysis and deterministic Huffman tree construction.
//!
//! The pool of pending trees is ordered by ascending weight; ties are broken
//! by the smallest symbol reachable in the tree, ascending, and then by
//! position in the pool (earliest first). Each merge takes the two least
//! trees, the first extracted becoming the left child, so the whole build is
//! a function of the input alone and the resulting bit patterns are
//! reproducible across runs.

use vstd::multiset::Multiset;
use vstd::prelude::*;

use crate::tree::{leaf_node, lemma_labels_from_shape, Node, Subtree, Symbol};
use vstd::string::{StrSliceExecFns, StringExecFns};

verus! {

/// How many times `c` occurs in `s`.
pub open spec fn count_of(s: Seq<char>, c: char) -> nat
    decreases s.len(),
{
    if s.len() == 0 {
        0
    } else {
        count_of(s.drop_last(), c) + if s.last() == c {
            1nat
        } else {
            0nat
        }
    }
}

/// The distinct symbols of `s`, in order of first appearance.
pub open spec fn distinct_syms(s: Seq<char>) -> Seq<char>
    decreases s.len(),
{
    if s.len() == 0 {
        Seq::empty()
    } else {
        let d = distinct_syms(s.drop_last());
        if d.contains(s.last()) {
            d
        } else {
            d.push(s.last())
        }
    }
}

/// The frequency leaf for the symbol `c`: its weight is the count of `c` in `s`.
pub open spec fn leaf_for(s: Seq<char>, c: char) -> Node {
    leaf_node(Symbol { value: c, count: count_of(s, c) as u64, label: -1i32 })
}

/// One frequency leaf for each symbol of `d`, in order.
pub open spec fn leaves_for(d: Seq<char>, s: Seq<char>) -> Seq<Node>
    decreases d.len(),
{
    if d.len() == 0 {
        Seq::empty()
    } else {
        leaves_for(d.drop_last(), s).push(leaf_for(s, d.last()))
    }
}

/// The frequency table of `s` as a pool of leaves: one leaf per distinct
/// symbol, in order of first appearance, weighted by its occurrence count.
pub open spec fn leaves_of(s: Seq<char>) -> Seq<Node> {
    leaves_for(distinct_syms(s), s)
}

pub proof fn lemma_leaves_for_index(d: Seq<char>, s: Seq<char>)
    ensures
        leaves_for(d, s).len() == d.len(),
        forall|i: int| 0 <= i < d.len() ==> leaves_for(d, s)[i] == leaf_for(s, d[i]),
    decreases d.len(),
{
    if d.len() > 0 {
        lemma_leaves_for_index(d.drop_last(), s);
        assert(forall|i: int|
            0 <= i < d.len() - 1 ==> leaves_for(d, s)[i] == leaves_for(d.drop_last(), s)[i]);
    }
}

/// The sum of the weights of a pool of trees.
pub open spec fn total_count(ns: Seq<Node>) -> int
    decreases ns.len(),
{
    if ns.len() == 0 {
        0
    } else {
        total_count(ns.drop_last()) + ns.last().value.count
    }
}

/// All leaf symbols of a pool of trees, with multiplicity.
pub open spec fn pool_syms(ns: Seq<Node>) -> Multiset<char>
    decreases ns.len(),
{
    if ns.len() == 0 {
        Multiset::empty()
    } else {
        pool_syms(ns.drop_last()).add(ns.last().syms().to_multiset())
    }
}

/// The priority order of the pool: ascending weight, ties broken by the
/// ascending smallest-reachable-symbol key.
pub open spec fn key_lt(a: Symbol, b: Symbol) -> bool {
    a.count < b.count || (a.count == b.count && (a.value as u32) < (b.value as u32))
}

pub open spec fn key_le(a: Symbol, b: Symbol) -> bool {
    !key_lt(b, a)
}

/// The index of the least tree of the pool; on full ties, the earliest.
pub open spec fn min_index(ns: Seq<Node>) -> int
    decreases ns.len(),
{
    if ns.len() <= 1 {
        0
    } else {
        let m = min_index(ns.drop_last());
        if key_le(ns[m].value, ns.last().value) {
            m
        } else {
            ns.len() - 1
        }
    }
}

pub proof fn lemma_min_index_bounds(ns: Seq<Node>)
    requires
        ns.len() >= 1,
    ensures
        0 <= min_index(ns) < ns.len(),
    decreases ns.len(),
{
    if ns.len() > 1 {
        lemma_min_index_bounds(ns.drop_last());
    }
}

/// The merge of the two least trees: weights add, the first extracted becomes
/// the left child, and the tie-break key is the smaller of the two keys.
pub open spec fn merge2(a: Node, b: Node) -> Node {
    Node {
        value: Symbol {
            value: if (a.value.value as u32) <= (b.value.value as u32) {
                a.value.value
            } else {
                b.value.value
            },
            count: (a.value.count + b.value.count) as u64,
            label: -1i32,
        },
        left: Subtree(Some(Box::new(a))),
        right: Subtree(Some(Box::new(b))),
    }
}

/// One round of tree construction: extract the two least trees and put their
/// merge at the end of the pool.
pub open spec fn merge_step(ns: Seq<Node>) -> Seq<Node>
    recommends
        ns.len() >= 2,
{
    let i = min_index(ns);
    let n1 = ns[i];
    let rest = ns.remove(i);
    let j = min_index(rest);
    let n2 = rest[j];
    rest.remove(j).push(merge2(n1, n2))
}

/// The finished pool: merge rounds repeated until at most one tree remains.
pub open spec fn build_spec(ns: Seq<Node>) -> Seq<Node>
    decreases ns.len(),
    via build_spec_dec
{
    if ns.len() <= 1 {
        ns
    } else {
        build_spec(merge_step(ns))
    }
}

#[via_fn]
proof fn build_spec_dec(ns: Seq<Node>) {
    if ns.len() > 1 {
        lemma_merge_step_len(ns);
    }
}

pub proof fn lemma_merge_step_len(ns: Seq<Node>)
    requires
        ns.len() >= 2,
    ensures
        merge_step(ns).len() == ns.len() - 1,
{
    lemma_min_index_bounds(ns);
    lemma_min_index_bounds(ns.remove(min_index(ns)));
}

/// The Huffman tree of a non-empty input: the lone survivor of the merge
/// rounds over the input's frequency leaves.
pub open spec fn huffman_tree(s: Seq<char>) -> Node {
    build_spec(leaves_of(s))[0]
}

pub proof fn lemma_count_le_len(s: Seq<char>, c: char)
    ensures
        count_of(s, c) <= s.len(),
    decreases s.len(),
{
    if s.len() > 0 {
        lemma_count_le_len(s.drop_last(), c);
    }
}

/// A symbol is absent from a sequence exactly when its count is zero.
pub proof fn lemma_count_zero(s: Seq<char>, c: char)
    ensures
        s.contains(c) <==> count_of(s, c) > 0,
    decreases s.len(),
{
    if s.len() > 0 {
        lemma_count_zero(s.drop_last(), c);
        if s.contains(c) {
            let i = choose|i: int| 0 <= i < s.len() && s[i] == c;
            if i < s.len() - 1 {
                assert(s.drop_last()[i] == c);
                assert(s.drop_last().contains(c));
            }
        }
        if s.drop_last().contains(c) {
            let i = choose|i: int| 0 <= i < s.drop_last().len() && s.drop_last()[i] == c;
            assert(s[i] == c);
        }
    }
}

/// The distinct symbols are exactly the symbols that occur.
pub proof fn lemma_distinct_contains(s: Seq<char>, c: char)
    ensures
        distinct_syms(s).contains(c) <==> s.contains(c),
    decreases s.len(),
{
    if s.len() > 0 {
        lemma_distinct_contains(s.drop_last(), c);
        let d = distinct_syms(s.drop_last());
        if s.contains(c) {
            let i = choose|i: int| 0 <= i < s.len() && s[i] == c;
            if i < s.len() - 1 {
                assert(s.drop_last()[i] == c);
                assert(s.drop_last().contains(c));
                if !d.contains(s.last()) {
                    assert(d.push(s.last())[choose|k: int| 0 <= k < d.len() && d[k] == c] == c);
                }
            } else {
                assert(s.last() == c);
                if !d.contains(c) {
                    assert(d.push(c)[d.len() as int] == c);
                }
            }
        }
        if distinct_syms(s).contains(c) {
            let i = choose|i: int| 0 <= i < distinct_syms(s).len() && distinct_syms(s)[i] == c;
            if d.contains(s.last()) {
            } else {
                if i < d.len() {
                    assert(d[i] == c);
                } else {
                    assert(c == s.last());
                }
            }
            if s.drop_last().contains(c) {
                let k = choose|k: int| 0 <= k < s.drop_last().len() && s.drop_last()[k] == c;
                assert(s[k] == c);
            } else if c == s.last() {
                assert(s[s.len() - 1] == c);
            }
        }
    }
}

/// The distinct symbols contain no repeats.
pub proof fn lemma_distinct_no_dup(s: Seq<char>)
    ensures
        distinct_syms(s).no_duplicates(),
    decreases s.len(),
{
    if s.len() > 0 {
        lemma_distinct_no_dup(s.drop_last());
    }
}

pub proof fn lemma_total_nonneg(ns: Seq<Node>)
    ensures
        total_count(ns) >= 0,
    decreases ns.len(),
{
    if ns.len() > 0 {
        lemma_total_nonneg(ns.drop_last());
    }
}

pub proof fn lemma_total_remove(ns: Seq<Node>, i: int)
    requires
        0 <= i < ns.len(),
    ensures
        total_count(ns) == total_count(ns.remove(i)) + ns[i].value.count,
    decreases ns.len(),
{
    if i == ns.len() - 1 {
        assert(ns.remove(i) =~= ns.drop_last());
    } else {
        lemma_total_remove(ns.drop_last(), i);
        assert(ns.remove(i).drop_last() =~= ns.drop_last().remove(i));
        assert(ns.remove(i).last() == ns.last());
    }
}

pub proof fn lemma_total_push(ns: Seq<Node>, n: Node)
    ensures
        total_count(ns.push(n)) == total_count(ns) + n.value.count,
{
    assert(ns.push(n).drop_last() =~= ns);
}

pub proof fn lemma_pool_remove(ns: Seq<Node>, i: int)
    requires
        0 <= i < ns.len(),
    ensures
        pool_syms(ns) == pool_syms(ns.remove(i)).add(ns[i].syms().to_multiset()),
    decreases ns.len(),
{
    if i == ns.len() - 1 {
        assert(ns.remove(i) =~= ns.drop_last());
    } else {
        lemma_pool_remove(ns.drop_last(), i);
        assert(ns.remove(i).drop_last() =~= ns.drop_last().remove(i));
        assert(ns.remove(i).last() == ns.last());
        assert(pool_syms(ns.drop_last().remove(i)).add(ns[i].syms().to_multiset()).add(
            ns.last().syms().to_multiset(),
        ) =~= pool_syms(ns.drop_last().remove(i)).add(ns.last().syms().to_multiset()).add(
            ns[i].syms().to_multiset(),
        ));
    }
}

pub proof fn lemma_pool_push(ns: Seq<Node>, n: Node)
    ensures
        pool_syms(ns.push(n)) == pool_syms(ns).add(n.syms().to_multiset()),
{
    assert(ns.push(n).drop_last() =~= ns);
}

/// Pools with the same length and pointwise equal weights have equal totals.
proof fn lemma_total_congruence(a: Seq<Node>, b: Seq<Node>)
    requires
        a.len() == b.len(),
        forall|i: int| 0 <= i < a.len() ==> a[i].value.count == b[i].value.count,
    ensures
        total_count(a) == total_count(b),
    decreases a.len(),
{
    if a.len() > 0 {
        lemma_total_congruence(a.drop_last(), b.drop_last());
    }
}

/// Raising one weight by one raises the total by one.
proof fn lemma_total_bump(a: Seq<Node>, b: Seq<Node>, k: int)
    requires
        a.len() == b.len(),
        0 <= k < a.len(),
        forall|i: int| 0 <= i < a.len() && i != k ==> a[i].value.count == b[i].value.count,
        b[k].value.count == a[k].value.count + 1,
    ensures
        total_count(b) == total_count(a) + 1,
    decreases a.len(),
{
    if k == a.len() - 1 {
        lemma_total_congruence(a.drop_last(), b.drop_last());
    } else {
        lemma_total_bump(a.drop_last(), b.drop_last(), k);
    }
}

/// The weights of the frequency leaves sum to the length of the input.
pub proof fn lemma_leaves_total(s: Seq<char>)
    requires
        s.len() <= u64::MAX,
    ensures
        total_count(leaves_of(s)) == s.len(),
    decreases s.len(),
{
    if s.len() == 0 {
    } else {
        let prev = s.drop_last();
        let c = s.last();
        lemma_leaves_total(prev);
        lemma_distinct_no_dup(prev);
        lemma_distinct_contains(prev, c);
        let d_prev = distinct_syms(prev);
        let la = leaves_of(prev);
        let lb = leaves_of(s);
        lemma_leaves_for_index(d_prev, prev);
        lemma_leaves_for_index(distinct_syms(s), s);
        assert(forall|x: char| count_of(s, x) == count_of(prev, x) + if x == c {
            1nat
        } else {
            0nat
        });
        if d_prev.contains(c) {
            assert(distinct_syms(s) == d_prev);
            let k = choose|k: int| 0 <= k < d_prev.len() && d_prev[k] == c;
            assert forall|i: int| 0 <= i < la.len() && i != k implies la[i].value.count
                == lb[i].value.count by {
                assert(d_prev[i] != c);
                lemma_count_le_len(prev, d_prev[i]);
            }
            assert(lb[k].value.count == la[k].value.count + 1) by {
                lemma_count_le_len(prev, c);
            }
            lemma_total_bump(la, lb, k);
        } else {
            assert(distinct_syms(s) == d_prev.push(c));
            assert(lb.len() == la.len() + 1);
            assert forall|i: int| 0 <= i < la.len() implies lb.drop_last()[i].value.count
                == la[i].value.count by {
                assert(lb.drop_last()[i] == lb[i]);
                assert(d_prev.contains(d_prev[i]));
                assert(d_prev[i] != c);
                lemma_count_le_len(prev, d_prev[i]);
            }
            assert(lb.drop_last().len() == la.len());
            lemma_total_congruence(la, lb.drop_last());
            lemma_count_zero(prev, c);
            assert(lb.last().value.count == 1);
            assert(total_count(lb) == total_count(lb.drop_last()) + 1);
        }
    }
}

/// The pool of frequency leaves carries each distinct symbol exactly once.
pub proof fn lemma_pool_of_leaves(s: Seq<char>)
    ensures
        pool_syms(leaves_of(s)) == distinct_syms(s).to_multiset(),
{
    lemma_pool_leaves_for(distinct_syms(s), s);
}

proof fn lemma_pool_leaves_for(d: Seq<char>, s: Seq<char>)
    ensures
        pool_syms(leaves_for(d, s)) == d.to_multiset(),
    decreases d.len(),
{
    broadcast use vstd::seq_lib::group_to_multiset_ensures;

    let m = leaves_for(d, s);
    if d.len() == 0 {
        assert(d.to_multiset() =~= Multiset::<char>::empty());
    } else {
        lemma_pool_leaves_for(d.drop_last(), s);
        assert(m.drop_last() =~= leaves_for(d.drop_last(), s));
        assert(m.last() == leaf_for(s, d.last()));
        assert(m.last().syms() =~= Seq::<char>::empty().push(d.last()));
        assert(Seq::<char>::empty().to_multiset() =~= Multiset::<char>::empty());
        assert(m.last().syms().to_multiset() =~= Multiset::<char>::empty().insert(d.last()));
        assert(d.drop_last().push(d.last()) =~= d);
        assert(d.to_multiset() =~= d.drop_last().to_multiset().insert(d.last()));
        assert(pool_syms(m) =~= d.to_multiset());
    }
}


/// Whether `v` holds `c`.
fn contains_char(v: &Vec<char>, c: char) -> (r: bool)
    ensures
        r == v@.contains(c),
{
    let mut i: usize = 0;
    while i < v.len()
        invariant
            i <= v@.len(),
            forall|j: int| 0 <= j < i ==> v@[j] != c,
        decreases v@.len() - i,
    {
        if v[i] == c {
            return true;
        }
        i += 1;
    }
    false
}

/// How many entries of `v` equal `c`.
fn count_char(v: &Vec<char>, c: char) -> (r: u64)
    ensures
        r as nat == count_of(v@, c),
{
    let mut cnt: u64 = 0;
    let mut i: usize = 0;
    while i < v.len()
        invariant
            i <= v@.len(),
            cnt as nat == count_of(v@.take(i as int), c),
            cnt <= i,
        decreases v@.len() - i,
    {
        proof {
            assert(v@.take(i as int + 1).drop_last() =~= v@.take(i as int));
            assert(v@.take(i as int + 1).last() == v@[i as int]);
        }
        if v[i] == c {
            cnt += 1;
        }
        i += 1;
    }
    proof {
        assert(v@.take(v@.len() as int) =~= v@);
    }
    cnt
}

/// The index of the least tree of the pool, earliest on ties.
fn min_node_index(nodes: &Vec<Node>) -> (r: usize)
    requires
        nodes@.len() >= 1,
    ensures
        r as int == min_index(nodes@),
        r < nodes@.len(),
{
    let mut m: usize = 0;
    let mut i: usize = 1;
    while i < nodes.len()
        invariant
            nodes@.len() >= 1,
            1 <= i <= nodes@.len(),
            m < i,
            m as int == min_index(nodes@.take(i as int)),
        decreases nodes@.len() - i,
    {
        let lt = nodes[i].value.count < nodes[m].value.count || (nodes[i].value.count
            == nodes[m].value.count && (nodes[i].value.value as u32) < (
        nodes[m].value.value as u32));
        proof {
            assert(lt == key_lt(nodes@[i as int].value, nodes@[m as int].value));
            assert(nodes@.take(i as int + 1).drop_last() =~= nodes@.take(i as int));
            assert(nodes@.take(i as int + 1).last() == nodes@[i as int]);
        }
        if lt {
            m = i;
        }
        i += 1;
    }
    proof {
        assert(nodes@.take(nodes@.len() as int) =~= nodes@);
    }
    m
}

/// A compression session over one in-memory input.
pub struct Compress {
    contents: Vec<char>,
}

impl View for Compress {
    type V = Seq<char>;

    closed spec fn view(&self) -> Seq<char> {
        self.contents@
    }
}

impl Compress {
    /// Hold the symbols of `s` for encoding.
    pub fn new(s: &str) -> (r: Self)
        ensures
            r@ == s@,
    {
        let mut contents: Vec<char> = Vec::new();
        let n = s.unicode_len();
        let mut i: usize = 0;
        while i < n
            invariant
                n == s@.len(),
                i <= n,
                contents@ == s@.take(i as int),
            decreases n - i,
        {
            let c = s.get_char(i);
            contents.push(c);
            proof {
                assert(s@.take(i as int + 1) =~= s@.take(i as int).push(s@[i as int]));
            }
            i += 1;
        }
        proof {
            assert(s@.take(s@.len() as int) =~= s@);
        }
        Compress { contents }
    }

    /// The frequency table of the input, as a pool of leaves: one leaf per
    /// distinct symbol, in order of first appearance, each weighted by its
    /// occurrence count.
    pub fn freq_counter(&self) -> (r: Vec<Node>)
        ensures
            r@ == leaves_of(self@),
    {
        leaves_from(&self.contents)
    }
}

/// The frequency leaves of `v`: one per distinct symbol, in order of first
/// appearance, weighted by occurrence count.
pub fn leaves_from(v: &Vec<char>) -> (r: Vec<Node>)
    ensures
        r@ == leaves_of(v@),
{
    let mut distinct: Vec<char> = Vec::new();
    let mut i: usize = 0;
    while i < v.len()
        invariant
            i <= v@.len(),
            distinct@ == distinct_syms(v@.take(i as int)),
        decreases v@.len() - i,
    {
        proof {
            assert(v@.take(i as int + 1).drop_last() =~= v@.take(i as int));
            assert(v@.take(i as int + 1).last() == v@[i as int]);
        }
        let c = v[i];
        if !contains_char(&distinct, c) {
            distinct.push(c);
        }
        i += 1;
    }
    proof {
        assert(v@.take(v@.len() as int) =~= v@);
        lemma_leaves_for_index(distinct_syms(v@), v@);
    }
    let mut leaves: Vec<Node> = Vec::new();
    let mut k: usize = 0;
    while k < distinct.len()
        invariant
            k <= distinct@.len(),
            distinct@ == distinct_syms(v@),
            leaves@.len() == k,
            leaves_of(v@).len() == distinct@.len(),
            forall|j: int|
                0 <= j < distinct@.len() ==> leaves_of(v@)[j] == leaf_for(
                    v@,
                    distinct@[j],
                ),
            forall|j: int| 0 <= j < k ==> leaves@[j] == leaves_of(v@)[j],
        decreases distinct@.len() - k,
    {
        let c = distinct[k];
        let cnt = count_char(&v, c);
        leaves.push(Node::new(Symbol { value: c, count: cnt, label: -1 }));
        k += 1;
    }
    proof {
        assert(leaves@ =~= leaves_of(v@));
    }
    leaves
}

impl Compress {
    /// Build the Huffman tree from a pool of weighted trees: repeatedly merge
    /// the two least trees (by weight, then smallest reachable symbol, then
    /// position) until one remains, then assign its edge labels. Returns
    /// `None` exactly when the pool is empty.
    pub fn produce_tree(heap: &mut Vec<Node>) -> (r: Option<Node>)
        requires
            total_count(old(heap)@) <= u64::MAX,
            forall|i: int| 0 <= i < old(heap)@.len() ==> (#[trigger] old(heap)@[i]).wf(),
        ensures
            final (heap)@.len() == 0,
            r is Some <==> old(heap)@.len() >= 1,
            r is Some ==> r.unwrap().labels_from(
                build_spec(old(heap)@)[0],
                build_spec(old(heap)@)[0].value.label,
            ),
            r is Some ==> r.unwrap().wf(),
            r is Some ==> r.unwrap().syms().to_multiset() == pool_syms(old(heap)@),
    {
        let ghost orig = heap@;
        while heap.len() > 1
            invariant
                total_count(heap@) == total_count(orig),
                total_count(orig) <= u64::MAX,
                pool_syms(heap@) == pool_syms(orig),
                build_spec(heap@) == build_spec(orig),
                forall|i: int| 0 <= i < heap@.len() ==> (#[trigger] heap@[i]).wf(),
                orig.len() >= 1 ==> heap@.len() >= 1,
                orig.len() == 0 ==> heap@ == orig,
            decreases heap@.len(),
        {
            let ghost before = heap@;
            let i = min_node_index(heap);
            let n1 = heap.remove(i);
            let ghost rest1 = heap@;
            let j = min_node_index(heap);
            let n2 = heap.remove(j);
            let ghost rest2 = heap@;
            proof {
                lemma_total_remove(before, i as int);
                lemma_total_remove(rest1, j as int);
                lemma_total_nonneg(rest2);
                lemma_pool_remove(before, i as int);
                lemma_pool_remove(rest1, j as int);
            }
            let ghost g1 = n1;
            let ghost g2 = n2;
            let count = n1.value.count + n2.value.count;
            let value = if (n1.value.value as u32) <= (n2.value.value as u32) {
                n1.value.value
            } else {
                n2.value.value
            };
            let merged = Node {
                value: Symbol { value, count, label: -1 },
                left: Subtree(Some(Box::new(n1))),
                right: Subtree(Some(Box::new(n2))),
            };
            heap.push(merged);
            proof {
                assert(merged == merge2(g1, g2));
                assert(heap@ == merge_step(before));
                lemma_total_push(rest2, merge2(g1, g2));
                lemma_pool_push(rest2, merge2(g1, g2));
                assert(merge2(g1, g2).syms() == g1.syms() + g2.syms());
                vstd::seq_lib::lemma_multiset_commutative(g1.syms(), g2.syms());
                assert(pool_syms(heap@) =~= pool_syms(orig));
            }
        }
        let ghost at_exit = heap@;
        let root = heap.pop();
        match root {
            None => {
                proof {
                    assert(old(heap)@.len() == 0);
                }
                None
            },
            Some(mut root_node) => {
                let ghost b0 = build_spec(orig)[0];
                proof {
                    assert(root_node == b0);
                }
                root_node.assign_labels();
                proof {
                    broadcast use vstd::multiset::group_multiset_axioms;

                    lemma_labels_from_shape(root_node, b0, b0.value.label);
                    let single = Seq::<Node>::empty().push(b0);
                    assert(single.drop_last() =~= Seq::<Node>::empty());
                    assert(pool_syms(single) == pool_syms(Seq::<Node>::empty()).add(
                        b0.syms().to_multiset(),
                    ));
                    assert(pool_syms(single) =~= b0.syms().to_multiset());
                    assert(at_exit =~= single);
                    assert(pool_syms(at_exit) == pool_syms(orig));
                }
                Some(root_node)
            },
        }
    }
}



/// The bits of a stream written as the characters '0' and '1'.
pub open spec fn bits_to_chars(b: Seq<bool>) -> Seq<char> {
    b.map_values(
        |x: bool|
            if x {
                '1'
            } else {
                '0'
            },
    )
}

/// What compressing a non-empty input yields: the deterministic Huffman bit
/// stream of the input, one character per bit.
pub open spec fn compressed_spec(s: Seq<char>) -> Seq<char> {
    bits_to_chars(crate::codec::encode_bits(huffman_tree(s), s))
}

impl Compress {
    /// Compress the input: count frequencies, build the tree and its code
    /// table, and return the packed bit stream written as '0'/'1' characters.
    /// Fails with `EmptyInput` exactly when the input is empty: there is
    /// nothing to build a table or tree from, and no partial result.
    pub fn compress(&self) -> (r: Result<String, crate::CodecError>)
        ensures
            self@.len() == 0 <==> r is Err,
            r is Err ==> r == Err::<String, crate::CodecError>(crate::CodecError::EmptyInput),
            r matches Ok(text) ==> text@ == compressed_spec(self@),
    {
        match crate::codec::encode(&self.contents) {
            Err(e) => Err(e),
            Ok(enc) => {
                let mut out = String::new();
                let mut i: usize = 0;
                proof {
                    assert(bits_to_chars(enc.bits@.take(0)) =~= Seq::<char>::empty());
                }
                while i < enc.bits.len()
                    invariant
                        i <= enc.bits@.len(),
                        out@ == bits_to_chars(enc.bits@.take(i as int)),
                    decreases enc.bits@.len() - i,
                {
                    if enc.bits[i] {
                        out.append("1");
                    } else {
                        out.append("0");
                    }
                    proof {
                        reveal_strlit("0");
                        reveal_strlit("1");
                        assert("1"@ =~= seq!['1']);
                        assert("0"@ =~= seq!['0']);
                        assert(bits_to_chars(enc.bits@.take(i as int + 1)) =~= bits_to_chars(
                            enc.bits@.take(i as int),
                        ) + (if enc.bits@[i as int] {
                            seq!['1']
                        } else {
                            seq!['0']
                        }));
                    }
                    i += 1;
                }
                proof {
                    assert(enc.bits@.take(enc.bits@.len() as int) =~= enc.bits@);
                }
                Ok(out)
            },
        }
    }
}


} // verus!
