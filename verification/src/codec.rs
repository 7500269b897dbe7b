//! The encoder and decoder: from a symbol sequence to a packed bit sequence
//! under the deterministic Huffman code, and back.

use vstd::prelude::*;

use crate::compress::{
    distinct_syms, huffman_tree, leaves_from, leaves_of, lemma_distinct_contains,
    lemma_leaves_for_index, lemma_leaves_total, lemma_pool_of_leaves, Compress,
};
use crate::tree::{clone_bits, lemma_labels_from_shape, table_view, Node};
use crate::CodecError;

verus! {

/// The result of a successful encode: the packed bits, the tree and code
/// table needed to decode them, and the number of symbols encoded (a Huffman
/// bit stream is not self-terminating, so the count must travel with it).
pub struct Encoded {
    pub bits: Vec<bool>,
    pub tree: Node,
    pub table: Vec<(char, Vec<bool>)>,
    pub symbol_count: usize,
}

/// `n` copies of `c`.
pub open spec fn repeated(c: char, n: nat) -> Seq<char>
    decreases n,
{
    if n == 0 {
        Seq::empty()
    } else {
        repeated(c, (n - 1) as nat).push(c)
    }
}

/// One decoding step: follow the bits down from `t`, false to the left child
/// and true to the right, until a leaf; the leaf's symbol and the unread rest
/// of the bits, or nothing if the bits run out first.
pub open spec fn walk_spec(t: Node, bits: Seq<bool>) -> Option<(char, Seq<bool>)>
    decreases t,
{
    match (t.left.0, t.right.0) {
        (Some(l), Some(r)) => if bits.len() == 0 {
            None
        } else if bits[0] {
            walk_spec(*r, bits.drop_first())
        } else {
            walk_spec(*l, bits.drop_first())
        },
        _ => Some((t.value.value, bits)),
    }
}

/// What decoding `n` symbols from `bits` under `t` must return: the walk is
/// repeated `n` times and the bits must be exactly consumed. A tree that is a
/// single leaf carries one bit per symbol, whose value the decoder does not
/// inspect.
pub open spec fn decode_spec(t: Node, bits: Seq<bool>, n: nat) -> Option<Seq<char>>
    decreases n,
{
    if t.is_leaf() {
        if bits.len() == n {
            Some(repeated(t.value.value, n))
        } else {
            None
        }
    } else if n == 0 {
        if bits.len() == 0 {
            Some(Seq::empty())
        } else {
            None
        }
    } else {
        match walk_spec(t, bits) {
            None => None,
            Some((c, rest)) => match decode_spec(t, rest, (n - 1) as nat) {
                None => None,
                Some(tail) => Some(seq![c] + tail),
            },
        }
    }
}

/// The bit stream of `s` under the codes of `t`, in input order.
pub open spec fn encode_bits(t: Node, s: Seq<char>) -> Seq<bool>
    decreases s.len(),
{
    if s.len() == 0 {
        Seq::empty()
    } else {
        t.code_for(s[0]) + encode_bits(t, s.drop_first())
    }
}

/// The first code for `c` in the table, if any.
pub open spec fn lookup(table: Seq<(char, Seq<bool>)>, c: char) -> Option<Seq<bool>>
    decreases table.len(),
{
    if table.len() == 0 {
        None
    } else if table[0].0 == c {
        Some(table[0].1)
    } else {
        lookup(table.drop_first(), c)
    }
}

/// The bit stream of `s` under a code table: the concatenation of the looked
/// up codes, or nothing if some symbol of `s` has no code.
pub open spec fn enc_table(table: Seq<(char, Seq<bool>)>, s: Seq<char>) -> Option<Seq<bool>>
    decreases s.len(),
{
    if s.len() == 0 {
        Some(Seq::empty())
    } else {
        match lookup(table, s[0]) {
            None => None,
            Some(code) => match enc_table(table, s.drop_first()) {
                None => None,
                Some(rest) => Some(code + rest),
            },
        }
    }
}

/// The code table the encoder uses: the table read off the tree, except that
/// a tree that is one leaf gets the one-bit code `0` for its one symbol.
pub open spec fn table_for(t: Node) -> Seq<(char, Seq<bool>)> {
    if t.is_leaf() {
        seq![(t.value.value, seq![false])]
    } else {
        t.table_of(Seq::empty())
    }
}

/// A symbol occurs in a concatenation exactly when it occurs in a part.
pub proof fn lemma_contains_concat(a: Seq<char>, b: Seq<char>, x: char)
    ensures
        (a + b).contains(x) <==> a.contains(x) || b.contains(x),
{
    if (a + b).contains(x) {
        let i = choose|i: int| 0 <= i < (a + b).len() && (a + b)[i] == x;
        if i < a.len() {
            assert(a[i] == x);
        } else {
            assert(b[i - a.len()] == x);
        }
    }
    if a.contains(x) {
        let i = choose|i: int| 0 <= i < a.len() && a[i] == x;
        assert((a + b)[i] == x);
    }
    if b.contains(x) {
        let i = choose|i: int| 0 <= i < b.len() && b[i] == x;
        assert((a + b)[a.len() + i] == x);
    }
}

/// A lookup in a concatenated table takes the first table's entry if there is
/// one, else the second's.
proof fn lemma_lookup_concat(a: Seq<(char, Seq<bool>)>, b: Seq<(char, Seq<bool>)>, c: char)
    ensures
        lookup(a + b, c) == match lookup(a, c) {
            Some(code) => Some(code),
            None => lookup(b, c),
        },
    decreases a.len(),
{
    if a.len() == 0 {
        assert(a + b =~= b);
    } else {
        assert((a + b)[0] == a[0]);
        if a[0].0 != c {
            lemma_lookup_concat(a.drop_first(), b, c);
            assert((a + b).drop_first() =~= a.drop_first() + b);
        }
    }
}

/// A lookup in the table read off a tree finds the accumulated prefix plus
/// the symbol's path code, exactly for the symbols of the tree.
proof fn lemma_lookup_table_of(t: Node, pre: Seq<bool>, c: char)
    requires
        t.wf(),
    ensures
        t.syms().contains(c) ==> lookup(t.table_of(pre), c) == Some(pre + t.code_of(c)),
        !t.syms().contains(c) ==> lookup(t.table_of(pre), c) is None,
    decreases t,
{
    match (t.left.0, t.right.0) {
        (Some(l), Some(r)) => {
            lemma_lookup_table_of(*l, pre.push(false), c);
            lemma_lookup_table_of(*r, pre.push(true), c);
            lemma_lookup_concat(l.table_of(pre.push(false)), r.table_of(pre.push(true)), c);
            lemma_contains_concat(l.syms(), r.syms(), c);
            if l.syms().contains(c) {
                assert(pre.push(false) + l.code_of(c) =~= pre + (seq![false] + l.code_of(c)));
            } else if r.syms().contains(c) {
                assert(pre.push(true) + r.code_of(c) =~= pre + (seq![true] + r.code_of(c)));
            } else {
                assert(lookup(l.table_of(pre.push(false)), c) is None);
                assert(lookup(r.table_of(pre.push(true)), c) is None);
                assert(!(l.syms() + r.syms()).contains(c));
            }
        },
        _ => {
            assert(t.table_of(pre) == seq![(t.value.value, pre)]);
            assert(t.syms() == seq![t.value.value]);
            if c == t.value.value {
                assert(t.syms()[0] == c);
                assert(t.syms().contains(c));
                assert(pre + t.code_of(c) =~= pre);
            } else {
                if t.syms().contains(c) {
                    let i = choose|i: int| 0 <= i < t.syms().len() && t.syms()[i] == c;
                    assert(false);
                }
                assert(t.table_of(pre).drop_first() =~= Seq::<(char, Seq<bool>)>::empty());
                assert(lookup(Seq::<(char, Seq<bool>)>::empty(), c) is None);
            }
        },
    }
}

/// A lookup in the encoder's table finds exactly the code of each symbol of
/// the tree, the one-leaf tree included.
pub proof fn lemma_lookup_table_for(t: Node, c: char)
    requires
        t.wf(),
    ensures
        t.syms().contains(c) ==> lookup(table_for(t), c) == Some(t.code_for(c)),
        !t.syms().contains(c) ==> lookup(table_for(t), c) is None,
{
    if t.is_leaf() {
        assert(t.syms() == seq![t.value.value]);
        if c == t.value.value {
            assert(t.syms()[0] == c);
            assert(t.syms().contains(c));
        } else {
            if t.syms().contains(c) {
                let i = choose|i: int| 0 <= i < t.syms().len() && t.syms()[i] == c;
                assert(false);
            }
            assert(table_for(t).drop_first() =~= Seq::<(char, Seq<bool>)>::empty());
            assert(lookup(Seq::<(char, Seq<bool>)>::empty(), c) is None);
        }
    } else {
        lemma_lookup_table_of(t, Seq::empty(), c);
        if t.syms().contains(c) {
            assert(Seq::<bool>::empty() + t.code_of(c) =~= t.code_of(c));
        }
    }
}

/// Encoding through the code table agrees with encoding along the tree, for
/// inputs whose symbols the tree holds.
pub proof fn lemma_enc_table_codes(t: Node, s: Seq<char>)
    requires
        t.wf(),
        forall|i: int| 0 <= i < s.len() ==> t.syms().contains(#[trigger] s[i]),
    ensures
        enc_table(table_for(t), s) == Some(encode_bits(t, s)),
    decreases s.len(),
{
    if s.len() > 0 {
        lemma_lookup_table_for(t, s[0]);
        assert(forall|i: int| 0 <= i < s.drop_first().len() ==> s.drop_first()[i] == s[i + 1]);
        lemma_enc_table_codes(t, s.drop_first());
    }
}

/// Trees that assign the same code to every symbol encode every input alike.
pub proof fn lemma_encode_bits_congruence(t1: Node, t2: Node, s: Seq<char>)
    requires
        forall|c: char| #[trigger] t1.code_for(c) == t2.code_for(c),
    ensures
        encode_bits(t1, s) == encode_bits(t2, s),
    decreases s.len(),
{
    if s.len() > 0 {
        lemma_encode_bits_congruence(t1, t2, s.drop_first());
    }
}

/// Append the bits of `src` to `dst`.
fn append_bits(dst: &mut Vec<bool>, src: &Vec<bool>)
    ensures
        final (dst)@ == old(dst)@ + src@,
{
    proof {
        assert(old(dst)@ + src@.take(0) =~= old(dst)@);
    }
    let mut i: usize = 0;
    while i < src.len()
        invariant
            i <= src@.len(),
            dst@ == old(dst)@ + src@.take(i as int),
        decreases src@.len() - i,
    {
        dst.push(src[i]);
        proof {
            assert(old(dst)@ + src@.take(i as int + 1) =~= (old(dst)@ + src@.take(i as int)).push(
                src@[i as int],
            ));
        }
        i += 1;
    }
    proof {
        assert(old(dst)@ + src@.take(src@.len() as int) =~= old(dst)@ + src@);
    }
}

/// The first code for `c` in the table, if any.
fn lookup_code(codes: &Vec<(char, Vec<bool>)>, c: char) -> (r: Option<Vec<bool>>)
    ensures
        match r {
            Some(v) => lookup(table_view(codes@), c) == Some(v@),
            None => lookup(table_view(codes@), c) is None,
        },
{
    let ghost tv = table_view(codes@);
    let mut j: usize = 0;
    proof {
        assert(tv.skip(0) =~= tv);
    }
    while j < codes.len()
        invariant
            j <= codes@.len(),
            tv == table_view(codes@),
            tv.len() == codes@.len(),
            lookup(tv, c) == lookup(tv.skip(j as int), c),
        decreases codes@.len() - j,
    {
        proof {
            assert(tv.skip(j as int)[0] == tv[j as int]);
            assert(tv.skip(j as int).drop_first() =~= tv.skip(j as int + 1));
        }
        let entry = &codes[j];
        if entry.0 == c {
            let bits = clone_bits(&entry.1);
            return Some(bits);
        }
        j += 1;
    }
    proof {
        assert(tv.skip(codes@.len() as int) =~= Seq::<(char, Seq<bool>)>::empty());
    }
    None
}

/// Encode `symbols` with the given code table, in input order. Fails with
/// `UnknownSymbol` exactly when some symbol of the input has no code; the
/// table and the input are read only.
pub fn encode_symbols(symbols: &Vec<char>, codes: &Vec<(char, Vec<bool>)>) -> (r: Result<
    Vec<bool>,
    CodecError,
>)
    ensures
        match r {
            Ok(bits) => enc_table(table_view(codes@), symbols@) == Some(bits@),
            Err(e) => e == CodecError::UnknownSymbol && enc_table(table_view(codes@), symbols@)
                is None,
        },
{
    let ghost tv = table_view(codes@);
    let mut out: Vec<bool> = Vec::new();
    let mut i: usize = 0;
    proof {
        assert(symbols@.skip(0) =~= symbols@);
        match enc_table(tv, symbols@) {
            Some(b) => {
                assert(Seq::<bool>::empty() + b =~= b);
            },
            None => {},
        }
    }
    while i < symbols.len()
        invariant
            i <= symbols@.len(),
            tv == table_view(codes@),
            match enc_table(tv, symbols@.skip(i as int)) {
                Some(rest) => enc_table(tv, symbols@) == Some(out@ + rest),
                None => enc_table(tv, symbols@) is None,
            },
        decreases symbols@.len() - i,
    {
        let c = symbols[i];
        proof {
            assert(symbols@.skip(i as int)[0] == c);
            assert(symbols@.skip(i as int).drop_first() =~= symbols@.skip(i as int + 1));
        }
        match lookup_code(codes, c) {
            None => {
                return Err(CodecError::UnknownSymbol);
            },
            Some(code) => {
                let ghost out_old = out@;
                append_bits(&mut out, &code);
                proof {
                    match enc_table(tv, symbols@.skip(i as int + 1)) {
                        Some(rest2) => {
                            assert(enc_table(tv, symbols@.skip(i as int)) == Some(code@ + rest2));
                            assert(out_old + (code@ + rest2) =~= (out_old + code@) + rest2);
                        },
                        None => {},
                    }
                }
            },
        }
        i += 1;
    }
    proof {
        assert(symbols@.skip(symbols@.len() as int) =~= Seq::<char>::empty());
        assert(out@ + Seq::<bool>::empty() =~= out@);
    }
    Ok(out)
}

/// Build the frequency table, tree, code table and bit stream for `symbols`.
/// Fails with `EmptyInput` exactly when `symbols` is empty; every detail of a
/// successful result is a function of the input alone.
pub fn encode(symbols: &Vec<char>) -> (r: Result<Encoded, CodecError>)
    ensures
        symbols@.len() == 0 <==> r is Err,
        r is Err ==> r == Err::<Encoded, CodecError>(CodecError::EmptyInput),
        r matches Ok(enc) ==> enc.symbol_count as nat == symbols@.len(),
        r matches Ok(enc) ==> enc.tree.wf(),
        r matches Ok(enc) ==> enc.tree.labels_from(
            huffman_tree(symbols@),
            huffman_tree(symbols@).value.label,
        ),
        r matches Ok(enc) ==> enc.tree.syms().to_multiset() == distinct_syms(
            symbols@,
        ).to_multiset(),
        r matches Ok(enc) ==> table_view(enc.table@) == table_for(enc.tree),
        r matches Ok(enc) ==> enc.bits@ == encode_bits(enc.tree, symbols@),
        r matches Ok(enc) ==> enc.bits@ == encode_bits(huffman_tree(symbols@), symbols@),
        r matches Ok(enc) ==> forall|i: int|
            0 <= i < symbols@.len() ==> enc.tree.syms().contains(#[trigger] symbols@[i]),
{
    if symbols.len() == 0 {
        return Err(CodecError::EmptyInput);
    }
    let mut heap = leaves_from(symbols);
    proof {
        lemma_leaves_total(symbols@);
        lemma_leaves_for_index(distinct_syms(symbols@), symbols@);
        assert forall|i: int| 0 <= i < leaves_of(symbols@).len() implies (#[trigger] leaves_of(
            symbols@,
        )[i]).wf() by {
            assert(leaves_of(symbols@)[i] == crate::compress::leaf_for(
                symbols@,
                distinct_syms(symbols@)[i],
            ));
        }
        lemma_distinct_contains(symbols@, symbols@[0]);
        assert(symbols@.contains(symbols@[0]));
        let w = choose|w: int|
            0 <= w < distinct_syms(symbols@).len() && distinct_syms(symbols@)[w] == symbols@[0];
        assert(leaves_of(symbols@).len() >= 1);
    }
    let root = Compress::produce_tree(&mut heap);
    let root_node = match root {
        Some(n) => n,
        None => {
            proof {
                assert(false);
            }
            return Err(CodecError::EmptyInput);
        },
    };
    let ghost b0 = crate::compress::build_spec(leaves_of(symbols@))[0];
    proof {
        lemma_labels_from_shape(root_node, b0, b0.value.label);
        lemma_pool_of_leaves(symbols@);
        broadcast use vstd::seq_lib::group_to_multiset_ensures;

        assert forall|i: int| 0 <= i < symbols@.len() implies root_node.syms().contains(
            #[trigger] symbols@[i],
        ) by {
            lemma_distinct_contains(symbols@, symbols@[i]);
            assert(distinct_syms(symbols@).to_multiset().count(symbols@[i]) > 0);
            assert(root_node.syms().to_multiset().count(symbols@[i]) > 0);
        }
    }
    let mut codes: Vec<(char, Vec<bool>)> = Vec::new();
    let prefix: Vec<bool> = Vec::new();
    root_node.generate_codes(prefix, &mut codes);
    proof {
        assert(root_node.gen_table(Seq::empty()) == table_for(root_node));
        assert(table_view(codes@) =~= table_for(root_node));
    }
    proof {
        lemma_enc_table_codes(root_node, symbols@);
    }
    let bits = match encode_symbols(symbols, &codes) {
        Ok(b) => b,
        Err(_) => {
            proof {
                assert(false);
            }
            return Err(CodecError::EmptyInput);
        },
    };
    proof {
        lemma_encode_bits_congruence(root_node, huffman_tree(symbols@), symbols@);
    }
    let count = symbols.len();
    Ok(Encoded { bits, tree: root_node, table: codes, symbol_count: count })
}


/// Decode `symbol_count` symbols from `bits` by walking `tree`: from the
/// root, a false bit moves to the left child and a true bit to the right; a
/// leaf emits its symbol and the walk restarts at the root. A tree that is a
/// single leaf consumes one bit per symbol without inspecting it. Fails with
/// `CorruptStream` exactly when the tree is malformed, the bits run out
/// mid-walk, or bits are left over after the last symbol.
pub fn decode(tree: &Node, bits: &Vec<bool>, symbol_count: usize) -> (r: Result<
    Vec<char>,
    CodecError,
>)
    ensures
        match r {
            Ok(out) => tree.wf() && decode_spec(*tree, bits@, symbol_count as nat) == Some(out@),
            Err(e) => e == CodecError::CorruptStream && (!tree.wf() || decode_spec(
                *tree,
                bits@,
                symbol_count as nat,
            ) is None),
        },
{
    if !tree.check_wf() {
        return Err(CodecError::CorruptStream);
    }
    if tree.left.0.is_none() {
        proof {
            assert(tree.is_leaf());
        }
        if bits.len() != symbol_count {
            return Err(CodecError::CorruptStream);
        }
        let mut out: Vec<char> = Vec::new();
        let mut i: usize = 0;
        while i < symbol_count
            invariant
                i <= symbol_count,
                out@ == repeated(tree.value.value, i as nat),
            decreases symbol_count - i,
        {
            out.push(tree.value.value);
            i += 1;
        }
        return Ok(out);
    }
    let mut out: Vec<char> = Vec::new();
    let mut pos: usize = 0;
    let mut i: usize = 0;
    proof {
        assert(bits@.skip(0) =~= bits@);
        match decode_spec(*tree, bits@, symbol_count as nat) {
            Some(rest) => {
                assert(Seq::<char>::empty() + rest =~= rest);
            },
            None => {},
        }
    }
    while i < symbol_count
        invariant
            tree.wf(),
            !tree.is_leaf(),
            i <= symbol_count,
            pos <= bits@.len(),
            match decode_spec(*tree, bits@.skip(pos as int), (symbol_count - i) as nat) {
                Some(rest) => decode_spec(*tree, bits@, symbol_count as nat) == Some(out@ + rest),
                None => decode_spec(*tree, bits@, symbol_count as nat) is None,
            },
        decreases symbol_count - i,
    {
        let ghost start = pos as int;
        let ghost rem = (symbol_count - i) as nat;
        let mut cur: &Node = tree;
        while cur.left.0.is_some()
            invariant
                tree.wf(),
                !tree.is_leaf(),
                cur.wf(),
                start <= pos as int,
                pos <= bits@.len(),
                i < symbol_count,
                rem == (symbol_count - i) as nat,
                walk_spec(*tree, bits@.skip(start)) == walk_spec(*cur, bits@.skip(pos as int)),
                match decode_spec(*tree, bits@.skip(start), rem) {
                    Some(rest) => decode_spec(*tree, bits@, symbol_count as nat) == Some(
                        out@ + rest,
                    ),
                    None => decode_spec(*tree, bits@, symbol_count as nat) is None,
                },
            decreases cur.height(),
        {
            if pos >= bits.len() {
                proof {
                    assert(i < symbol_count);
                    assert(rem > 0);
                    assert(cur.right.0 is Some);
                    assert(bits@.skip(pos as int).len() == 0);
                    assert(walk_spec(*cur, bits@.skip(pos as int)) is None);
                    assert(walk_spec(*tree, bits@.skip(start)) is None);
                    assert(decode_spec(*tree, bits@.skip(start), rem) is None);
                }
                return Err(CodecError::CorruptStream);
            }
            let b = bits[pos];
            proof {
                assert(bits@.skip(pos as int)[0] == b);
                assert(bits@.skip(pos as int).drop_first() =~= bits@.skip(pos as int + 1));
            }
            let next: &Node = if b {
                match &cur.right.0 {
                    Some(n) => &**n,
                    None => {
                        proof {
                            assert(false);
                        }
                        cur
                    },
                }
            } else {
                match &cur.left.0 {
                    Some(n) => &**n,
                    None => {
                        proof {
                            assert(false);
                        }
                        cur
                    },
                }
            };
            proof {
                assert(next.height() < cur.height());
                assert(walk_spec(*cur, bits@.skip(pos as int)) == walk_spec(
                    *next,
                    bits@.skip(pos as int + 1),
                ));
            }
            pos += 1;
            cur = next;
        }
        proof {
            assert(cur.is_leaf());
            assert(walk_spec(*cur, bits@.skip(pos as int)) == Some(
                (cur.value.value, bits@.skip(pos as int)),
            ));
        }
        let ghost out_old = out@;
        out.push(cur.value.value);
        proof {
            let c = cur.value.value;
            assert(rem > 0);
            assert(walk_spec(*tree, bits@.skip(start)) == Some((c, bits@.skip(pos as int))));
            match decode_spec(*tree, bits@.skip(pos as int), (rem - 1) as nat) {
                Some(tail) => {
                    assert(decode_spec(*tree, bits@.skip(start), rem) == Some(seq![c] + tail));
                    assert(out_old + (seq![c] + tail) =~= out@ + tail);
                },
                None => {
                    assert(decode_spec(*tree, bits@.skip(start), rem) is None);
                },
            }
        }
        i += 1;
    }
    if pos != bits.len() {
        proof {
            assert(bits@.skip(pos as int).len() > 0);
            assert(decode_spec(*tree, bits@.skip(pos as int), 0) is None);
        }
        return Err(CodecError::CorruptStream);
    }
    proof {
        assert(bits@.skip(pos as int) =~= Seq::<bool>::empty());
        assert(decode_spec(*tree, bits@.skip(pos as int), 0) == Some(Seq::<char>::empty()));
        assert(out@ + Seq::<char>::empty() =~= out@);
    }
    Ok(out)
}

} // verus!
