//! The laws the codec obeys: prefix-freedom of the generated codes, the
//! encode/decode round trip, failure on truncated streams, and determinism
//! of the whole pipeline.

use vstd::prelude::*;
use vstd::seq_lib::group_to_multiset_ensures;

use crate::codec::{
    decode_spec, encode_bits, lemma_contains_concat, repeated, table_for, walk_spec,
};
use crate::compress::{
    count_of, distinct_syms, huffman_tree, lemma_count_zero, lemma_distinct_contains,
    lemma_distinct_no_dup,
};
use crate::tree::Node;

verus! {

proof fn lemma_prefix_concat(a: Seq<bool>, b: Seq<bool>)
    ensures
        a.is_prefix_of(a + b),
{
    assert(a =~= (a + b).subrange(0, a.len() as int));
}

proof fn lemma_prefix_trans(a: Seq<bool>, b: Seq<bool>, c: Seq<bool>)
    requires
        a.is_prefix_of(b),
        b.is_prefix_of(c),
    ensures
        a.is_prefix_of(c),
{
    assert(a =~= c.subrange(0, a.len() as int)) by {
        assert(forall|i: int| 0 <= i < a.len() ==> a[i] == b[i] && b[i] == c[i]);
    }
}

proof fn lemma_common_prefixes(a: Seq<bool>, b: Seq<bool>, c: Seq<bool>)
    requires
        a.is_prefix_of(c),
        b.is_prefix_of(c),
        a.len() <= b.len(),
    ensures
        a.is_prefix_of(b),
{
    assert(a =~= b.subrange(0, a.len() as int)) by {
        assert(forall|i: int| 0 <= i < a.len() ==> a[i] == c[i]);
        assert(forall|i: int| 0 <= i < b.len() ==> b[i] == c[i]);
    }
}

proof fn lemma_strip_prefix(p: Seq<bool>, x: Seq<bool>, y: Seq<bool>)
    requires
        (p + x).is_prefix_of(p + y),
    ensures
        x.is_prefix_of(y),
{
    assert(x =~= y.subrange(0, x.len() as int)) by {
        assert(forall|i: int|
            0 <= i < x.len() ==> x[i] == (p + x)[p.len() + i] && (p + x)[p.len() + i] == (p + y)[
                p.len() + i
            ]);
    }
}

proof fn lemma_first_bit_differs(a: Seq<bool>, b: Seq<bool>)
    requires
        a.len() >= 1,
        b.len() >= 1,
        a[0] != b[0],
    ensures
        !a.is_prefix_of(b),
{
    if a.is_prefix_of(b) {
        assert(a[0] == b.subrange(0, a.len() as int)[0]);
    }
}

/// A concatenation without repeats has parts without repeats and no symbol on
/// both sides.
proof fn lemma_concat_no_dup(a: Seq<char>, b: Seq<char>)
    requires
        (a + b).no_duplicates(),
    ensures
        a.no_duplicates(),
        b.no_duplicates(),
        forall|x: char| !(#[trigger] a.contains(x) && b.contains(x)),
{
    assert forall|i: int, j: int| 0 <= i < a.len() && 0 <= j < a.len() && i != j implies a[i]
        != a[j] by {
        assert((a + b)[i] == a[i] && (a + b)[j] == a[j]);
    }
    assert forall|i: int, j: int| 0 <= i < b.len() && 0 <= j < b.len() && i != j implies b[i]
        != b[j] by {
        assert((a + b)[a.len() + i] == b[i] && (a + b)[a.len() + j] == b[j]);
    }
    assert forall|x: char| !(#[trigger] a.contains(x) && b.contains(x)) by {
        if a.contains(x) && b.contains(x) {
            let i = choose|i: int| 0 <= i < a.len() && a[i] == x;
            let j = choose|j: int| 0 <= j < b.len() && b[j] == x;
            assert((a + b)[i] == x && (a + b)[a.len() + j] == x);
        }
    }
}

proof fn lemma_prefix_free_of(t: Node, c1: char, c2: char)
    requires
        t.wf(),
        t.syms().contains(c1),
        t.syms().contains(c2),
        c1 != c2,
    ensures
        !t.code_of(c1).is_prefix_of(t.code_of(c2)),
        !t.code_of(c2).is_prefix_of(t.code_of(c1)),
    decreases t,
{
    match (t.left.0, t.right.0) {
        (Some(l), Some(r)) => {
            lemma_contains_concat(l.syms(), r.syms(), c1);
            lemma_contains_concat(l.syms(), r.syms(), c2);
            if l.syms().contains(c1) && l.syms().contains(c2) {
                lemma_prefix_free_of(*l, c1, c2);
                lemma_cons_prefix(false, l.code_of(c1), l.code_of(c2));
                lemma_cons_prefix(false, l.code_of(c2), l.code_of(c1));
            } else if !l.syms().contains(c1) && !l.syms().contains(c2) {
                lemma_prefix_free_of(*r, c1, c2);
                lemma_cons_prefix(true, r.code_of(c1), r.code_of(c2));
                lemma_cons_prefix(true, r.code_of(c2), r.code_of(c1));
            } else {
                lemma_first_bit_differs(t.code_of(c1), t.code_of(c2));
                lemma_first_bit_differs(t.code_of(c2), t.code_of(c1));
            }
        },
        _ => {
            let i = choose|i: int| 0 <= i < t.syms().len() && t.syms()[i] == c1;
            let j = choose|j: int| 0 <= j < t.syms().len() && t.syms()[j] == c2;
            assert(false);
        },
    }
}

proof fn lemma_cons_prefix(x: bool, a: Seq<bool>, b: Seq<bool>)
    ensures
        (seq![x] + a).is_prefix_of(seq![x] + b) <==> a.is_prefix_of(b),
{
    if a.is_prefix_of(b) {
        assert((seq![x] + a) =~= (seq![x] + b).subrange(0, a.len() as int + 1)) by {
            assert(forall|i: int| 0 <= i < a.len() ==> a[i] == b[i]);
        }
    }
    if (seq![x] + a).is_prefix_of(seq![x] + b) {
        assert(a =~= b.subrange(0, a.len() as int)) by {
            assert(forall|i: int|
                0 <= i < a.len() ==> #[trigger] a[i] == (seq![x] + a)[i + 1] && (seq![x] + a)[i
                    + 1] == (seq![x] + b)[i + 1]);
        }
    }
}

/// Prefix-freedom: for any two distinct symbols of a tree, neither one's
/// code is a prefix of the other's. This holds of the encoder's table as
/// well, the one-leaf tree included.
pub proof fn lemma_prefix_free(t: Node, c1: char, c2: char)
    requires
        t.wf(),
        t.syms().contains(c1),
        t.syms().contains(c2),
        c1 != c2,
    ensures
        !t.code_for(c1).is_prefix_of(t.code_for(c2)),
        !t.code_for(c2).is_prefix_of(t.code_for(c1)),
{
    if t.is_leaf() {
        let i = choose|i: int| 0 <= i < t.syms().len() && t.syms()[i] == c1;
        let j = choose|j: int| 0 <= j < t.syms().len() && t.syms()[j] == c2;
        assert(false);
    } else {
        lemma_prefix_free_of(t, c1, c2);
    }
}

/// Walking the code of a symbol of the tree reaches that symbol and leaves
/// exactly the trailing bits unread.
proof fn lemma_walk_code(t: Node, c: char, rest: Seq<bool>)
    requires
        t.wf(),
        t.syms().contains(c),
    ensures
        walk_spec(t, t.code_of(c) + rest) == Some((c, rest)),
    decreases t,
{
    match (t.left.0, t.right.0) {
        (Some(l), Some(r)) => {
            lemma_contains_concat(l.syms(), r.syms(), c);
            if l.syms().contains(c) {
                lemma_walk_code(*l, c, rest);
                assert((seq![false] + l.code_of(c)) + rest =~= seq![false] + (l.code_of(c)
                    + rest));
                assert((seq![false] + (l.code_of(c) + rest)).drop_first() =~= l.code_of(c) + rest);
            } else {
                lemma_walk_code(*r, c, rest);
                assert((seq![true] + r.code_of(c)) + rest =~= seq![true] + (r.code_of(c) + rest));
                assert((seq![true] + (r.code_of(c) + rest)).drop_first() =~= r.code_of(c) + rest);
            }
        },
        _ => {
            let i = choose|i: int| 0 <= i < t.syms().len() && t.syms()[i] == c;
            assert(c == t.value.value);
            assert(t.code_of(c) + rest =~= rest);
        },
    }
}

/// Under a one-leaf tree every symbol costs one bit.
proof fn lemma_encode_leaf_len(t: Node, s: Seq<char>)
    requires
        t.is_leaf(),
    ensures
        encode_bits(t, s).len() == s.len(),
    decreases s.len(),
{
    if s.len() > 0 {
        lemma_encode_leaf_len(t, s.drop_first());
    }
}

proof fn lemma_repeated_eq(s: Seq<char>, c: char)
    requires
        forall|i: int| 0 <= i < s.len() ==> s[i] == c,
    ensures
        s == repeated(c, s.len()),
    decreases s.len(),
{
    if s.len() > 0 {
        lemma_repeated_eq(s.drop_last(), c);
        assert(s =~= s.drop_last().push(s.last()));
    }
}

/// Round trip: decoding an encoded stream with the same tree and the
/// original symbol count recovers the input exactly.
pub proof fn lemma_round_trip(t: Node, s: Seq<char>)
    requires
        t.wf(),
        forall|i: int| 0 <= i < s.len() ==> t.syms().contains(#[trigger] s[i]),
    ensures
        decode_spec(t, encode_bits(t, s), s.len()) == Some(s),
    decreases s.len(),
{
    if t.is_leaf() {
        lemma_encode_leaf_len(t, s);
        assert forall|i: int| 0 <= i < s.len() implies s[i] == t.value.value by {
            let j = choose|j: int| 0 <= j < t.syms().len() && t.syms()[j] == s[i];
        }
        lemma_repeated_eq(s, t.value.value);
    } else if s.len() == 0 {
        assert(encode_bits(t, s).len() == 0);
    } else {
        lemma_walk_code(t, s[0], encode_bits(t, s.drop_first()));
        assert(forall|i: int|
            0 <= i < s.drop_first().len() ==> s.drop_first()[i] == s[i + 1]);
        lemma_round_trip(t, s.drop_first());
        assert(seq![s[0]] + s.drop_first() =~= s);
    }
}

/// A successful walk read off exactly the code of the symbol it found.
proof fn lemma_walk_sound(t: Node, bits: Seq<bool>, c: char, rest: Seq<bool>)
    requires
        t.wf(),
        t.syms().no_duplicates(),
        walk_spec(t, bits) == Some((c, rest)),
    ensures
        t.syms().contains(c),
        bits == t.code_of(c) + rest,
    decreases t,
{
    match (t.left.0, t.right.0) {
        (Some(l), Some(r)) => {
            lemma_concat_no_dup(l.syms(), r.syms());
            assert(bits.len() > 0);
            if bits[0] {
                lemma_walk_sound(*r, bits.drop_first(), c, rest);
                lemma_contains_concat(l.syms(), r.syms(), c);
                assert(!l.syms().contains(c));
                assert(bits =~= seq![true] + bits.drop_first());
                assert(seq![true] + (r.code_of(c) + rest) =~= (seq![true] + r.code_of(c)) + rest);
            } else {
                lemma_walk_sound(*l, bits.drop_first(), c, rest);
                lemma_contains_concat(l.syms(), r.syms(), c);
                assert(bits =~= seq![false] + bits.drop_first());
                assert(seq![false] + (l.code_of(c) + rest) =~= (seq![false] + l.code_of(c))
                    + rest);
            }
        },
        _ => {
            assert(c == t.value.value && rest == bits);
            assert(t.syms()[0] == c);
            assert(t.code_of(c) + rest =~= bits);
        },
    }
}

/// A successful decode of an internal-rooted tree read off exactly the
/// encoding of what it returned.
proof fn lemma_decode_sound(t: Node, bits: Seq<bool>, n: nat, s: Seq<char>)
    requires
        t.wf(),
        !t.is_leaf(),
        t.syms().no_duplicates(),
        decode_spec(t, bits, n) == Some(s),
    ensures
        s.len() == n,
        forall|i: int| 0 <= i < s.len() ==> t.syms().contains(#[trigger] s[i]),
        encode_bits(t, s) == bits,
    decreases n,
{
    if n == 0 {
        assert(bits.len() == 0);
        assert(s =~= Seq::<char>::empty());
        assert(bits =~= Seq::<bool>::empty());
    } else {
        match walk_spec(t, bits) {
            None => {
                assert(false);
            },
            Some((c, rest)) => {
                lemma_walk_sound(t, bits, c, rest);
                match decode_spec(t, rest, (n - 1) as nat) {
                    None => {
                        assert(false);
                    },
                    Some(tail) => {
                        lemma_decode_sound(t, rest, (n - 1) as nat, tail);
                        assert(s == seq![c] + tail);
                        assert(s[0] == c);
                        assert(s.drop_first() =~= tail);
                        assert(encode_bits(t, s) == t.code_for(c) + encode_bits(t, tail));
                        assert(t.code_of(c) + rest =~= bits);
                    },
                }
            },
        }
    }
}

/// Equal-length inputs whose encodings are prefix-related are the same input.
proof fn lemma_enc_prefix_inj(t: Node, s1: Seq<char>, s2: Seq<char>)
    requires
        t.wf(),
        !t.is_leaf(),
        t.syms().no_duplicates(),
        s1.len() == s2.len(),
        forall|i: int| 0 <= i < s1.len() ==> t.syms().contains(#[trigger] s1[i]),
        forall|i: int| 0 <= i < s2.len() ==> t.syms().contains(#[trigger] s2[i]),
        encode_bits(t, s1).is_prefix_of(encode_bits(t, s2)),
    ensures
        s1 == s2,
    decreases s1.len(),
{
    if s1.len() == 0 {
        assert(s1 =~= s2);
    } else {
        let c1 = s1[0];
        let c2 = s2[0];
        let r1 = encode_bits(t, s1.drop_first());
        let r2 = encode_bits(t, s2.drop_first());
        let e1 = encode_bits(t, s1);
        let e2 = encode_bits(t, s2);
        assert(e1 == t.code_of(c1) + r1);
        assert(e2 == t.code_of(c2) + r2);
        lemma_prefix_concat(t.code_of(c1), r1);
        lemma_prefix_concat(t.code_of(c2), r2);
        lemma_prefix_trans(t.code_of(c1), e1, e2);
        if c1 != c2 {
            lemma_prefix_free_of(t, c1, c2);
            if t.code_of(c1).len() <= t.code_of(c2).len() {
                lemma_common_prefixes(t.code_of(c1), t.code_of(c2), e2);
            } else {
                lemma_common_prefixes(t.code_of(c2), t.code_of(c1), e2);
            }
            assert(false);
        }
        assert(t.code_of(c1) == t.code_of(c2));
        lemma_strip_prefix(t.code_of(c1), r1, r2);
        assert(forall|i: int| 0 <= i < s1.drop_first().len() ==> s1.drop_first()[i] == s1[i + 1]);
        assert(forall|i: int| 0 <= i < s2.drop_first().len() ==> s2.drop_first()[i] == s2[i + 1]);
        lemma_enc_prefix_inj(t, s1.drop_first(), s2.drop_first());
        assert forall|i: int| 0 <= i < s1.len() implies s1[i] == s2[i] by {
            if i > 0 {
                assert(s1.drop_first()[i - 1] == s1[i]);
                assert(s2.drop_first()[i - 1] == s2[i]);
            }
        }
        assert(s1 =~= s2);
    }
}

/// Truncation: a non-empty input encodes to at least one bit, and dropping
/// the final bit makes decoding with the original symbol count fail.
pub proof fn lemma_truncation(t: Node, s: Seq<char>)
    requires
        t.wf(),
        t.syms().no_duplicates(),
        s.len() >= 1,
        forall|i: int| 0 <= i < s.len() ==> t.syms().contains(#[trigger] s[i]),
    ensures
        encode_bits(t, s).len() >= 1,
        decode_spec(t, encode_bits(t, s).drop_last(), s.len()) is None,
{
    let e = encode_bits(t, s);
    assert(e == t.code_for(s[0]) + encode_bits(t, s.drop_first()));
    assert(t.code_for(s[0]).len() >= 1);
    if t.is_leaf() {
        lemma_encode_leaf_len(t, s);
    } else {
        let tr = e.drop_last();
        match decode_spec(t, tr, s.len()) {
            None => {},
            Some(s2) => {
                lemma_decode_sound(t, tr, s.len(), s2);
                assert(tr.is_prefix_of(e)) by {
                    assert(tr =~= e.subrange(0, tr.len() as int));
                }
                lemma_enc_prefix_inj(t, s2, s);
                assert(encode_bits(t, s2) == e);
                assert(false);
            },
        }
    }
}

/// The leaf symbols of the tree built for an input have no repeats: one leaf
/// per distinct symbol.
pub proof fn lemma_tree_syms_no_dup(t: Node, s: Seq<char>)
    requires
        t.syms().to_multiset() == distinct_syms(s).to_multiset(),
    ensures
        t.syms().no_duplicates(),
{
    broadcast use group_to_multiset_ensures;

    lemma_distinct_no_dup(s);
    distinct_syms(s).lemma_multiset_has_no_duplicates();
    t.syms().lemma_multiset_has_no_duplicates_conv();
}

proof fn lemma_labels_functional(a1: Node, a2: Node, b: Node, lab: i32)
    requires
        a1.labels_from(b, lab),
        a2.labels_from(b, lab),
    ensures
        a1 == a2,
    decreases b,
{
    match (a1.left.0, a2.left.0, b.left.0) {
        (Some(x1), Some(x2), Some(y)) => {
            lemma_labels_functional(*x1, *x2, *y, 0);
            assert(a1.left == a2.left);
        },
        _ => {
            assert(a1.left == a2.left);
        },
    }
    match (a1.right.0, a2.right.0, b.right.0) {
        (Some(x1), Some(x2), Some(y)) => {
            lemma_labels_functional(*x1, *x2, *y, 1);
            assert(a1.right == a2.right);
        },
        _ => {
            assert(a1.right == a2.right);
        },
    }
    assert(a1.value == a2.value);
}

/// Determinism: the tree, code table and bit stream that `encode` promises
/// are functions of the input alone, so encoding the same input twice gives
/// identical results bit for bit.
pub proof fn lemma_encode_deterministic(t1: Node, t2: Node, s: Seq<char>)
    requires
        t1.labels_from(huffman_tree(s), huffman_tree(s).value.label),
        t2.labels_from(huffman_tree(s), huffman_tree(s).value.label),
    ensures
        t1 == t2,
        table_for(t1) == table_for(t2),
        encode_bits(t1, s) == encode_bits(t2, s),
{
    lemma_labels_functional(t1, t2, huffman_tree(s), huffman_tree(s).value.label);
}


/// The degenerate one-symbol input: its tree is a single leaf holding that
/// symbol, and its code table is one entry with the non-empty code `0`.
pub proof fn lemma_degenerate_single_symbol(t: Node, s: Seq<char>)
    requires
        distinct_syms(s).len() == 1,
        s.len() <= u64::MAX,
        t.labels_from(huffman_tree(s), huffman_tree(s).value.label),
    ensures
        t.is_leaf(),
        t.value.value == distinct_syms(s)[0],
        table_for(t) == seq![(t.value.value, seq![false])],
{
    crate::compress::lemma_leaves_for_index(distinct_syms(s), s);
    assert(crate::compress::leaves_of(s).len() == 1);
    assert(huffman_tree(s) == crate::compress::leaf_for(s, distinct_syms(s)[0]));
    crate::tree::lemma_labels_from_shape(t, huffman_tree(s), huffman_tree(s).value.label);
}


/// The bits the codes of `t` spend on an input with the symbol counts of
/// `s`: for each symbol of `d`, its occurrence count times its code length,
/// summed.
pub open spec fn weighted_cost(t: Node, d: Seq<char>, s: Seq<char>) -> int
    decreases d.len(),
{
    if d.len() == 0 {
        0
    } else {
        weighted_cost(t, d.drop_last(), s) + count_of(s, d.last()) * t.code_for(d.last()).len()
    }
}

proof fn lemma_cost_congruence(t: Node, d: Seq<char>, s1: Seq<char>, s2: Seq<char>)
    requires
        forall|i: int| 0 <= i < d.len() ==> count_of(s1, #[trigger] d[i]) == count_of(s2, d[i]),
    ensures
        weighted_cost(t, d, s1) == weighted_cost(t, d, s2),
    decreases d.len(),
{
    if d.len() > 0 {
        lemma_cost_congruence(t, d.drop_last(), s1, s2);
    }
}

proof fn lemma_cost_bump(t: Node, d: Seq<char>, s_new: Seq<char>, s_old: Seq<char>, c: char)
    requires
        d.no_duplicates(),
        d.contains(c),
        forall|x: char| count_of(s_new, x) == count_of(s_old, x) + if x == c {
            1nat
        } else {
            0nat
        },
    ensures
        weighted_cost(t, d, s_new) == weighted_cost(t, d, s_old) + t.code_for(c).len(),
    decreases d.len(),
{
    let ln = t.code_for(c).len();
    if d.last() == c {
        assert forall|i: int| 0 <= i < d.drop_last().len() implies count_of(
            s_new,
            #[trigger] d.drop_last()[i],
        ) == count_of(s_old, d.drop_last()[i]) by {
            assert(d[i] == d.drop_last()[i]);
            assert(d[i] != c);
        }
        lemma_cost_congruence(t, d.drop_last(), s_new, s_old);
        assert((count_of(s_old, c) + 1) * ln == count_of(s_old, c) * ln + ln)
            by (nonlinear_arith);
    } else {
        let i = choose|i: int| 0 <= i < d.len() && d[i] == c;
        assert(d.drop_last()[i] == c);
        assert(d.drop_last().contains(c));
        lemma_cost_bump(t, d.drop_last(), s_new, s_old, c);
        assert(d.last() != c);
    }
}

proof fn lemma_cost_snoc(t: Node, s: Seq<char>)
    requires
        s.len() > 0,
    ensures
        weighted_cost(t, distinct_syms(s), s) == weighted_cost(
            t,
            distinct_syms(s.drop_last()),
            s.drop_last(),
        ) + t.code_for(s.last()).len(),
{
    let prev = s.drop_last();
    let c = s.last();
    let d_prev = distinct_syms(prev);
    lemma_distinct_no_dup(prev);
    lemma_distinct_contains(prev, c);
    assert(forall|x: char| count_of(s, x) == count_of(prev, x) + if x == c {
        1nat
    } else {
        0nat
    });
    if d_prev.contains(c) {
        assert(distinct_syms(s) == d_prev);
        lemma_cost_bump(t, d_prev, s, prev, c);
    } else {
        assert(distinct_syms(s) == d_prev.push(c));
        assert(d_prev.push(c).drop_last() =~= d_prev);
        assert(d_prev.push(c).last() == c);
        assert forall|i: int| 0 <= i < d_prev.len() implies count_of(s, #[trigger] d_prev[i])
            == count_of(prev, d_prev[i]) by {
            assert(d_prev.contains(d_prev[i]));
            assert(d_prev[i] != c);
        }
        lemma_cost_congruence(t, d_prev, s, prev);
        lemma_count_zero(prev, c);
        assert(count_of(s, c) == 1);
    }
}

proof fn lemma_encode_bits_snoc(t: Node, s: Seq<char>)
    requires
        s.len() > 0,
    ensures
        encode_bits(t, s) == encode_bits(t, s.drop_last()) + t.code_for(s.last()),
    decreases s.len(),
{
    if s.len() == 1 {
        assert(s.drop_first() =~= Seq::<char>::empty());
        assert(s.drop_last() =~= Seq::<char>::empty());
        assert(t.code_for(s[0]) + Seq::<bool>::empty() =~= t.code_for(s[0]));
        assert(Seq::<bool>::empty() + t.code_for(s.last()) =~= t.code_for(s.last()));
    } else {
        lemma_encode_bits_snoc(t, s.drop_first());
        assert(s.drop_first().drop_last() =~= s.drop_last().drop_first());
        assert(s.drop_first().last() == s.last());
        assert(s.drop_last()[0] == s[0]);
        assert(t.code_for(s[0]) + (encode_bits(t, s.drop_last().drop_first()) + t.code_for(
            s.last(),
        )) =~= (t.code_for(s[0]) + encode_bits(t, s.drop_last().drop_first())) + t.code_for(
            s.last(),
        ));
    }
}

/// The total encoded bit length equals the weighted sum of code lengths
/// over the frequency table: each distinct symbol's occurrence count times
/// the length of its code.
pub proof fn lemma_encoded_length_is_weighted_cost(t: Node, s: Seq<char>)
    ensures
        encode_bits(t, s).len() == weighted_cost(t, distinct_syms(s), s),
    decreases s.len(),
{
    if s.len() > 0 {
        lemma_encoded_length_is_weighted_cost(t, s.drop_last());
        lemma_encode_bits_snoc(t, s);
        lemma_cost_snoc(t, s);
    }
}

} // verus!
