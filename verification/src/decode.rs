//! The decoder: walk the tree bit by bit, emitting a symbol at each leaf.

use vstd::prelude::*;
use crate::tree::HuffmanNode;
use crate::codes::{tree_codes, code_concat, lemma_tree_codes_extend, CodeTable};
use crate::bits::{unpack_bytes, unpack};

verus! {

/// Walk down from a node, left on `false` and right on `true`, to the first
/// leaf: that leaf's symbol and the bits not consumed.  Running out of bits
/// on the way down yields nothing.
pub open spec fn walk(t: HuffmanNode, bits: Seq<bool>) -> Option<(u8, Seq<bool>)>
    decreases bits.len(), t,
{
    match t {
        HuffmanNode::Leaf { symbol } => Some((symbol, bits)),
        HuffmanNode::Internal { left, right } => if bits.len() == 0 {
            None
        } else {
            walk(
                if bits[0] {
                    *right
                } else {
                    *left
                },
                bits.drop_first(),
            )
        },
    }
}

/// Read one symbol off the front of the bits.  A lone leaf root consumes one
/// bit per symbol — the mirror of its one-bit code; any other root is
/// walked.
pub open spec fn decode_one(t: HuffmanNode, bits: Seq<bool>) -> Option<(u8, Seq<bool>)> {
    match t {
        HuffmanNode::Leaf { symbol } => if bits.len() >= 1 {
            Some((symbol, bits.drop_first()))
        } else {
            None
        },
        HuffmanNode::Internal { .. } => walk(t, bits),
    }
}

/// Decode exactly `count` symbols, restarting at the root after each one;
/// whatever bits follow the last symbol (the padding) are ignored.
pub open spec fn decode_bits(t: HuffmanNode, bits: Seq<bool>, count: nat) -> Option<Seq<u8>>
    decreases count,
{
    if count == 0 {
        Some(Seq::empty())
    } else {
        match decode_one(t, bits) {
            Some((s, rest)) => match decode_bits(t, rest, (count - 1) as nat) {
                Some(tail) => Some(seq![s] + tail),
                None => None,
            },
            None => None,
        }
    }
}

/// Walking a recorded code (with its generating prefix stripped) from the
/// node it was recorded under lands exactly on that symbol's leaf and leaves
/// the rest of the bits untouched.
pub proof fn lemma_walk_code(t: HuffmanNode, prefix: Seq<bool>, s: u8, rest: Seq<bool>)
    requires
        tree_codes(t, prefix).contains_key(s),
        prefix.len() >= 1 || t is Internal,
    ensures
        walk(t, tree_codes(t, prefix)[s].skip(prefix.len() as int) + rest) == Some((s, rest)),
    decreases t,
{
    let code = tree_codes(t, prefix)[s];
    let n = prefix.len() as int;
    match t {
        HuffmanNode::Leaf { symbol } => {
            assert(code == prefix);
            assert(code.skip(n) + rest =~= rest);
        },
        HuffmanNode::Internal { left, right } => {
            let lm = tree_codes(*left, prefix.push(false));
            let rm = tree_codes(*right, prefix.push(true));
            lemma_tree_codes_extend(*left, prefix.push(false));
            lemma_tree_codes_extend(*right, prefix.push(true));
            if rm.contains_key(s) {
                assert(code == rm[s]);
                assert(code.take(n + 1) == prefix.push(true));
                assert(code[n] == code.take(n + 1)[n]);
                assert(code[n] == true);
                assert((code.skip(n) + rest)[0] == code[n]);
                lemma_walk_code(*right, prefix.push(true), s, rest);
                assert((code.skip(n) + rest).drop_first() =~= code.skip(n + 1) + rest);
            } else {
                assert(lm.contains_key(s));
                assert(code == lm[s]);
                assert(code.take(n + 1) == prefix.push(false));
                assert(code[n] == code.take(n + 1)[n]);
                assert(code[n] == false);
                assert((code.skip(n) + rest)[0] == code[n]);
                lemma_walk_code(*left, prefix.push(false), s, rest);
                assert((code.skip(n) + rest).drop_first() =~= code.skip(n + 1) + rest);
            }
        },
    }
}

/// Decoding one symbol undoes prepending that symbol's code, whatever the
/// tree shape.
pub proof fn lemma_decode_one_code(t: HuffmanNode, s: u8, rest: Seq<bool>)
    requires
        tree_codes(t, Seq::empty()).contains_key(s),
    ensures
        decode_one(t, tree_codes(t, Seq::empty())[s] + rest) == Some((s, rest)),
{
    let code = tree_codes(t, Seq::empty())[s];
    match t {
        HuffmanNode::Leaf { symbol } => {
            assert(code == seq![false]);
            assert((code + rest).drop_first() =~= rest);
        },
        HuffmanNode::Internal { .. } => {
            lemma_walk_code(t, Seq::empty(), s, rest);
            assert(code.skip(0) + rest =~= code + rest);
        },
    }
}

/// The concatenation of codes decomposes at the front.
pub proof fn lemma_code_concat_first(data: Seq<u8>, m: Map<u8, Seq<bool>>)
    requires
        data.len() > 0,
    ensures
        code_concat(data, m) == (if m.contains_key(data[0]) {
            m[data[0]]
        } else {
            Seq::<bool>::empty()
        }) + code_concat(data.drop_first(), m),
    decreases data.len(),
{
    let c0 = if m.contains_key(data[0]) {
        m[data[0]]
    } else {
        Seq::<bool>::empty()
    };
    if data.len() == 1 {
        assert(data.drop_last() =~= Seq::<u8>::empty());
        assert(data.drop_first() =~= Seq::<u8>::empty());
        assert(data.last() == data[0]);
        assert(code_concat(data, m) =~= c0 + code_concat(data.drop_first(), m));
    } else {
        lemma_code_concat_first(data.drop_last(), m);
        assert(data.drop_last()[0] == data[0]);
        assert(data.drop_first().drop_last() =~= data.drop_last().drop_first());
        assert(data.drop_first().last() == data.last());
        assert(data.drop_first().len() > 0);
        assert(code_concat(data, m) =~= c0 + code_concat(data.drop_first(), m));
    }
}

/// Decoding undoes encoding: the concatenated codes of a covered symbol
/// sequence, followed by any padding, decode back to that sequence when the
/// decoder is told how many symbols to read.
pub proof fn lemma_decode_concat(t: HuffmanNode, data: Seq<u8>, pad: Seq<bool>)
    requires
        forall|i: int| 0 <= i < data.len() ==> tree_codes(t, Seq::empty()).contains_key(
            #[trigger] data[i],
        ),
    ensures
        decode_bits(t, code_concat(data, tree_codes(t, Seq::empty())) + pad, data.len())
            == Some(data),
    decreases data.len(),
{
    let m = tree_codes(t, Seq::empty());
    if data.len() == 0 {
        assert(data =~= Seq::<u8>::empty());
    } else {
        let c0 = m[data[0]];
        let tail = data.drop_first();
        lemma_code_concat_first(data, m);
        assert(code_concat(data, m) + pad =~= c0 + (code_concat(tail, m) + pad));
        lemma_decode_one_code(t, data[0], code_concat(tail, m) + pad);
        assert(forall|i: int| 0 <= i < tail.len() ==> tail[i] == data[i + 1]);
        lemma_decode_concat(t, tail, pad);
        assert(seq![data[0]] + tail =~= data);
    }
}

/// Decoding at a lone leaf root emits the leaf's symbol once per bit
/// consumed, so it needs at least `count` bits.
pub proof fn lemma_decode_leaf(s: u8, bits: Seq<bool>, count: nat)
    ensures
        bits.len() >= count ==> decode_bits(
            HuffmanNode::Leaf { symbol: s },
            bits,
            count,
        ) == Some(Seq::new(count, |i: int| s)),
        bits.len() < count ==> decode_bits(HuffmanNode::Leaf { symbol: s }, bits, count) is None,
    decreases count,
{
    let t = HuffmanNode::Leaf { symbol: s };
    if count > 0 {
        if bits.len() >= 1 {
            lemma_decode_leaf(s, bits.drop_first(), (count - 1) as nat);
            if bits.len() >= count {
                assert(seq![s] + Seq::new((count - 1) as nat, |i: int| s)
                    =~= Seq::new(count, |i: int| s));
            }
        }
    }
}

/// Prepending already-decoded symbols to what decoding will still yield.
pub open spec fn opt_prepend(p: Seq<u8>, o: Option<Seq<u8>>) -> Option<Seq<u8>> {
    match o {
        Some(s) => Some(p + s),
        None => None,
    }
}

proof fn lemma_opt_prepend_step(p: Seq<u8>, s: u8, o: Option<Seq<u8>>)
    ensures
        opt_prepend(
            p,
            match o {
                Some(tail) => Some(seq![s] + tail),
                None => None::<Seq<u8>>,
            },
        ) == opt_prepend(p.push(s), o),
{
    match o {
        Some(tail) => {
            assert(p + (seq![s] + tail) =~= p.push(s) + tail);
        },
        None => {},
    }
}

/// Decode a packed payload against a tree, reading bytes most-significant
/// bit first and emitting exactly `count` symbols: left on `0`, right on
/// `1`, restart at the root after each leaf; a lone leaf root emits its
/// symbol once per bit.  Yields nothing when the bits run out before `count`
/// symbols are read; padding bits after the last symbol are ignored.
pub fn decode_data(compressed: &Vec<u8>, root: &HuffmanNode, count: usize) -> (r: Option<Vec<u8>>)
    ensures
        match decode_bits(*root, unpack_bytes(compressed@), count as nat) {
            Some(d) => r matches Some(v) && v@ == d,
            None => r is None,
        },
{
    let bits = unpack(compressed);
    match root {
        HuffmanNode::Leaf { symbol } => {
            proof {
                lemma_decode_leaf(*symbol, bits@, count as nat);
            }
            if count <= bits.len() {
                let mut out: Vec<u8> = Vec::new();
                let mut k: usize = 0;
                while k < count
                    invariant
                        k <= count,
                        out@ =~= Seq::new(k as nat, |i: int| *symbol),
                    decreases count - k,
                {
                    out.push(*symbol);
                    proof {
                        assert(out@ =~= Seq::new((k + 1) as nat, |i: int| *symbol));
                    }
                    k = k + 1;
                }
                Some(out)
            } else {
                None
            }
        },
        HuffmanNode::Internal { .. } => {
            let mut out: Vec<u8> = Vec::new();
            let mut pos: usize = 0;
            let mut k: usize = 0;
            proof {
                assert(bits@.skip(0) =~= bits@);
                assert(opt_prepend(out@, decode_bits(*root, bits@, count as nat))
                    == decode_bits(*root, bits@, count as nat));
            }
            while k < count
                invariant
                    k <= count,
                    pos <= bits@.len(),
                    out@.len() == k,
                    bits@ == unpack_bytes(compressed@),
                    root is Internal,
                    decode_bits(*root, bits@, count as nat) == opt_prepend(
                        out@,
                        decode_bits(*root, bits@.skip(pos as int), (count - k) as nat),
                    ),
                decreases count - k,
            {
                let ghost sp = pos;
                let mut cur: &HuffmanNode = root;
                loop
                    invariant
                        sp <= pos <= bits@.len(),
                        k < count,
                        out@.len() == k,
                        bits@ == unpack_bytes(compressed@),
                        root is Internal,
                        decode_bits(*root, bits@, count as nat) == opt_prepend(
                            out@,
                            decode_bits(*root, bits@.skip(sp as int), (count - k) as nat),
                        ),
                        walk(*root, bits@.skip(sp as int)) == walk(*cur, bits@.skip(pos as int)),
                    ensures
                        sp <= pos <= bits@.len(),
                        cur is Leaf,
                        walk(*root, bits@.skip(sp as int)) == walk(*cur, bits@.skip(pos as int)),
                    decreases bits@.len() - pos,
                {
                    match cur {
                        HuffmanNode::Leaf { .. } => {
                            break;
                        },
                        HuffmanNode::Internal { left, right } => {
                            if pos >= bits.len() {
                                proof {
                                    assert(bits@.skip(pos as int) =~= Seq::<bool>::empty());
                                    assert(walk(*cur, bits@.skip(pos as int)) is None);
                                    assert(decode_one(*root, bits@.skip(sp as int)) is None);
                                    assert(decode_bits(
                                        *root,
                                        bits@.skip(sp as int),
                                        (count - k) as nat,
                                    ) is None);
                                }
                                return None;
                            }
                            let b = bits[pos];
                            proof {
                                assert(bits@.skip(pos as int)[0] == bits@[pos as int]);
                                assert(bits@.skip(pos as int).drop_first()
                                    =~= bits@.skip(pos + 1 as int));
                            }
                            pos = pos + 1;
                            cur = if b {
                                &**right
                            } else {
                                &**left
                            };
                        },
                    }
                }
                let sym: u8 = match cur {
                    HuffmanNode::Leaf { symbol } => *symbol,
                    HuffmanNode::Internal { .. } => {
                        proof {
                            assert(false);
                        }
                        0
                    },
                };
                proof {
                    assert(walk(*cur, bits@.skip(pos as int)) == Some(
                        (sym, bits@.skip(pos as int))));
                    assert(decode_one(*root, bits@.skip(sp as int)) == Some(
                        (sym, bits@.skip(pos as int))));
                    assert(decode_bits(*root, bits@.skip(sp as int), (count - k) as nat)
                        == match decode_bits(
                        *root,
                        bits@.skip(pos as int),
                        (count - k - 1) as nat,
                    ) {
                        Some(tail) => Some(seq![sym] + tail),
                        None => None::<Seq<u8>>,
                    });
                    lemma_opt_prepend_step(
                        out@,
                        sym,
                        decode_bits(*root, bits@.skip(pos as int), (count - k - 1) as nat),
                    );
                }
                out.push(sym);
                k = k + 1;
            }
            proof {
                assert(decode_bits(*root, bits@.skip(pos as int), 0) == Some(Seq::<u8>::empty()));
                assert(out@ + Seq::<u8>::empty() =~= out@);
            }
            Some(out)
        },
    }
}

/// The smallest symbol below `n` whose code is `c`.
pub open spec fn lookup_upto(m: Map<u8, Seq<bool>>, c: Seq<bool>, n: nat) -> Option<u8>
    decreases n,
{
    if n == 0 {
        None
    } else {
        match lookup_upto(m, c, (n - 1) as nat) {
            Some(s) => Some(s),
            None => if m.contains_key((n - 1) as u8) && m[(n - 1) as u8] == c {
                Some((n - 1) as u8)
            } else {
                None
            },
        }
    }
}

/// The smallest symbol whose code is `c`, if any: the reverse code lookup.
pub open spec fn table_lookup(m: Map<u8, Seq<bool>>, c: Seq<bool>) -> Option<u8> {
    lookup_upto(m, c, 256)
}

proof fn lemma_lookup_found(m: Map<u8, Seq<bool>>, c: Seq<bool>, k: nat, n: nat)
    requires
        k <= n,
        lookup_upto(m, c, k) is Some,
    ensures
        lookup_upto(m, c, n) == lookup_upto(m, c, k),
    decreases n,
{
    if k < n {
        lemma_lookup_found(m, c, k, (n - 1) as nat);
    }
}

/// Whether two bit strings are equal.
fn bits_eq(a: &Vec<bool>, b: &Vec<bool>) -> (r: bool)
    ensures
        r == (a@ == b@),
{
    if a.len() != b.len() {
        return false;
    }
    let mut i: usize = 0;
    while i < a.len()
        invariant
            i <= a@.len(),
            a@.len() == b@.len(),
            forall|j: int| 0 <= j < i ==> a@[j] == b@[j],
        decreases a@.len() - i,
    {
        if a[i] != b[i] {
            return false;
        }
        i = i + 1;
    }
    proof {
        assert(a@ =~= b@);
    }
    true
}

/// The smallest symbol whose recorded code is `c`, by one scan of the table.
fn find_symbol(codes: &CodeTable, c: &Vec<bool>) -> (r: Option<u8>)
    requires
        codes.wf(),
    ensures
        r == table_lookup(codes.as_map(), c@),
{
    let mut s: usize = 0;
    while s < 256
        invariant
            s <= 256,
            codes.wf(),
            lookup_upto(codes.as_map(), c@, s as nat) is None,
        decreases 256 - s,
    {
        match codes.get_code(s as u8) {
            Some(code) => {
                if bits_eq(code, c) {
                    proof {
                        assert(lookup_upto(codes.as_map(), c@, (s + 1) as nat) == Some(s as u8));
                        lemma_lookup_found(codes.as_map(), c@, (s + 1) as nat, 256);
                    }
                    return Some(s as u8);
                }
            },
            None => {},
        }
        s = s + 1;
    }
    None
}

/// Greedy table-driven decoding: bits are accumulated one at a time, and as
/// soon as the accumulator equals some symbol's code that symbol (the
/// smallest on a code collision) is emitted and the accumulator cleared.
/// Bits left in the accumulator at the end are dropped.
pub open spec fn decode_tbl(bits: Seq<bool>, m: Map<u8, Seq<bool>>, cur: Seq<bool>) -> Seq<u8>
    decreases bits.len(),
{
    if bits.len() == 0 {
        Seq::empty()
    } else {
        let cur2 = cur.push(bits[0]);
        match table_lookup(m, cur2) {
            Some(s) => seq![s] + decode_tbl(bits.drop_first(), m, Seq::empty()),
            None => decode_tbl(bits.drop_first(), m, cur2),
        }
    }
}

/// Decode a packed payload with the code table alone: read the first
/// `bit_length` bits (or all of them, when fewer), match greedily against
/// the table as `decode_tbl` says, and drop any unmatched trailing bits.
pub fn decode_text(encoded: &Vec<u8>, codes: &CodeTable, bit_length: usize) -> (r: Vec<u8>)
    requires
        codes.wf(),
    ensures
        r@ == decode_tbl(
            unpack_bytes(encoded@).take(
                vstd::math::min(bit_length as int, 8 * encoded@.len() as int),
            ),
            codes.as_map(),
            Seq::empty(),
        ),
{
    let bits = unpack(encoded);
    let limit = if bit_length < bits.len() {
        bit_length
    } else {
        bits.len()
    };
    let ghost lim_bits = bits@.take(limit as int);
    let mut out: Vec<u8> = Vec::new();
    let mut cur: Vec<bool> = Vec::new();
    let mut i: usize = 0;
    proof {
        assert(lim_bits.skip(0) =~= lim_bits);
        assert(out@ + decode_tbl(lim_bits, codes.as_map(), cur@)
            =~= decode_tbl(lim_bits, codes.as_map(), Seq::empty()));
    }
    while i < limit
        invariant
            i <= limit <= bits@.len(),
            codes.wf(),
            lim_bits == bits@.take(limit as int),
            decode_tbl(lim_bits, codes.as_map(), Seq::empty()) == out@ + decode_tbl(
                lim_bits.skip(i as int),
                codes.as_map(),
                cur@,
            ),
        decreases limit - i,
    {
        let ghost cur_old = cur@;
        let ghost out_old = out@;
        cur.push(bits[i]);
        proof {
            assert(lim_bits.skip(i as int)[0] == lim_bits[i as int]);
            assert(lim_bits[i as int] == bits@[i as int]);
            assert(lim_bits.skip(i as int).drop_first() =~= lim_bits.skip(i + 1 as int));
        }
        match find_symbol(codes, &cur) {
            Some(s) => {
                out.push(s);
                cur = Vec::new();
                proof {
                    assert(out_old + (seq![s] + decode_tbl(
                        lim_bits.skip(i + 1 as int),
                        codes.as_map(),
                        Seq::empty(),
                    )) =~= out@ + decode_tbl(
                        lim_bits.skip(i + 1 as int),
                        codes.as_map(),
                        cur@,
                    ));
                }
            },
            None => {},
        }
        i = i + 1;
    }
    proof {
        assert(lim_bits.skip(limit as int) =~= Seq::<bool>::empty());
        assert(out@ + Seq::<u8>::empty() =~= out@);
        assert(lim_bits =~= unpack_bytes(encoded@).take(
            vstd::math::min(bit_length as int, 8 * encoded@.len() as int)));
    }
    out
}

} // verus!
