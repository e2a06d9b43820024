//! A lossless byte-stream compressor built on a prefix-free (Huffman) code.
//!
//! The pipeline: count symbol frequencies, build an optimal prefix tree by
//! greedy minimum-weight merging, derive a code table, serialize the tree in
//! pre-order, and bit-pack the coded payload.  Decompression deserializes the
//! tree and walks it bit by bit.  The artifact carries no bit-length field,
//! and trailing zero padding is ambiguous on its own, so the decoder is told
//! the original symbol count; storing that count is the container layer's
//! business.  A one-symbol alphabet is given the one-bit code `0`, and its
//! decoder consumes one bit per symbol to match.

use vstd::prelude::*;

pub mod bits;
pub mod codec;
pub mod codes;
pub mod decode;
pub mod freq;
pub mod tree;

use crate::bits::{pack_bits, unpack_bytes, zero_bits, pad_len, lemma_unpack_pack};
use crate::codec::{
    FormatError, ser_spec, deser_spec, serialize_tree, deserialize_tree, lemma_deser_ser,
};
use crate::codes::{tree_codes, code_concat, make_code_table, encode_data, lemma_tree_codes_dom};
use crate::decode::{decode_bits, decode_data, lemma_decode_concat};
use crate::freq::{
    freq_spec, calculate_frequencies, lemma_freq_spec_weight, lemma_freq_symbols, lemma_count_pos,
};
use crate::tree::{
    HuffmanNode, build_tree_spec, build_huffman_tree, initial_work, table_symbols, total_weight,
    lemma_build_loop_some, lemma_build_tree_symbols,
};

verus! {

/// The whole compressed artifact: the pre-order tree encoding, then the
/// packed payload.  Empty input compresses to an empty artifact.
pub open spec fn compress_spec(data: Seq<u8>) -> Seq<u8> {
    if data.len() == 0 {
        Seq::empty()
    } else {
        let t = build_tree_spec(freq_spec(data))->0;
        ser_spec(t) + pack_bits(code_concat(data, tree_codes(t, Seq::empty())))
    }
}

/// What decompressing an artifact into `count` symbols yields: nothing to
/// read for a zero count; otherwise the tree is parsed off the front and the
/// remaining bytes are decoded against it, or nothing if either step fails.
pub open spec fn decompress_spec(artifact: Seq<u8>, count: nat) -> Option<Seq<u8>> {
    if count == 0 {
        Some(Seq::empty())
    } else {
        match deser_spec(artifact) {
            Some((t, used)) => decode_bits(t, unpack_bytes(artifact.skip(used as int)), count),
            None => None,
        }
    }
}

/// Every symbol of the data has a code in the table its own tree generates.
pub proof fn lemma_tree_covers_data(data: Seq<u8>)
    requires
        1 <= data.len() <= usize::MAX,
    ensures
        build_tree_spec(freq_spec(data)) is Some,
        forall|i: int| 0 <= i < data.len() ==> tree_codes(
            build_tree_spec(freq_spec(data))->0,
            Seq::empty(),
        ).contains_key(#[trigger] data[i]),
{
    let table = freq_spec(data);
    lemma_freq_spec_weight(data);
    assert(initial_work(table).len() == table.len());
    if table.len() == 0 {
        assert(initial_work(table) =~= Seq::<(usize, HuffmanNode)>::empty());
        assert(total_weight(initial_work(table)) == 0);
    }
    lemma_build_loop_some(initial_work(table));
    let t = build_tree_spec(table)->0;
    lemma_build_tree_symbols(table);
    lemma_tree_codes_dom(t, Seq::empty());
    lemma_freq_symbols(data);
    assert forall|i: int| 0 <= i < data.len() implies tree_codes(t, Seq::empty()).contains_key(
        #[trigger] data[i],
    ) by {
        lemma_count_pos(data, i);
        assert(table_symbols(table).contains(data[i]));
        assert(t.symbols().contains(data[i]));
    }
}

/// Round-trip: any non-empty byte sequence, compressed and then decompressed
/// with its own length as the symbol count, comes back unchanged.
pub proof fn lemma_round_trip(data: Seq<u8>)
    requires
        1 <= data.len() <= usize::MAX,
    ensures
        decompress_spec(compress_spec(data), data.len()) == Some(data),
{
    lemma_tree_covers_data(data);
    let t = build_tree_spec(freq_spec(data))->0;
    let m = tree_codes(t, Seq::empty());
    let payload_bits = code_concat(data, m);
    let artifact = compress_spec(data);
    lemma_deser_ser(t, pack_bits(payload_bits));
    assert(artifact.skip(ser_spec(t).len() as int) =~= pack_bits(payload_bits));
    lemma_unpack_pack(payload_bits);
    lemma_decode_concat(t, data, zero_bits(pad_len(payload_bits.len())));
}

/// Determinism: equal frequency tables build equal trees, and those trees
/// carry equal code tables.  Together with the builder's contract — its
/// result equals `build_tree_spec` of its input — two runs over the same
/// table return the same tree and the same codes.
pub proof fn lemma_build_deterministic(table1: Seq<(u8, usize)>, table2: Seq<(u8, usize)>)
    requires
        table1 == table2,
    ensures
        build_tree_spec(table1) == build_tree_spec(table2),
        build_tree_spec(table1) matches Some(t) ==> tree_codes(t, Seq::empty()) == tree_codes(
            build_tree_spec(table2)->0,
            Seq::empty(),
        ),
{
}

/// Copy the bytes of `src` onto the end of `dst`.
fn append_bytes(dst: &mut Vec<u8>, src: &Vec<u8>)
    ensures
        final(dst)@ == old(dst)@ + src@,
{
    let mut i: usize = 0;
    proof {
        assert(dst@ =~= old(dst)@ + src@.take(0));
    }
    while i < src.len()
        invariant
            i <= src@.len(),
            dst@ == old(dst)@ + src@.take(i as int),
        decreases src@.len() - i,
    {
        dst.push(src[i]);
        proof {
            assert(old(dst)@ + src@.take(i + 1) =~= (old(dst)@ + src@.take(i as int)).push(
                src@[i as int]));
        }
        i = i + 1;
    }
    proof {
        assert(src@.take(src@.len() as int) =~= src@);
    }
}

/// Compress a byte sequence into a self-describing artifact: the pre-order
/// encoding of its Huffman tree followed by the bit-packed payload.  Empty
/// input yields an empty artifact.  The artifact does not record the input
/// length; `decompress` must be told how many symbols to read.
pub fn compress(data: &Vec<u8>) -> (r: Vec<u8>)
    ensures
        r@ == compress_spec(data@),
{
    if data.len() == 0 {
        proof {
            assert(compress_spec(data@) =~= Seq::<u8>::empty());
        }
        return Vec::new();
    }
    let frequencies = calculate_frequencies(data);
    proof {
        lemma_freq_spec_weight(data@);
        lemma_tree_covers_data(data@);
    }
    let tree = match build_huffman_tree(&frequencies) {
        Some(tree) => tree,
        None => {
            proof {
                assert(false);
            }
            HuffmanNode::Leaf { symbol: 0 }
        },
    };
    let codes = make_code_table(&tree);
    let mut artifact: Vec<u8> = Vec::new();
    serialize_tree(&tree, &mut artifact);
    let payload = encode_data(data, &codes);
    append_bytes(&mut artifact, &payload);
    artifact
}

/// Decompress an artifact back into `count` symbols: parse the tree off the
/// front, then decode the remaining bytes against it.  A zero count reads
/// nothing.  A malformed or truncated tree encoding, or a payload too short
/// for `count` symbols, is a `FormatError` — exactly when `decompress_spec`
/// yields nothing.
pub fn decompress(artifact: &Vec<u8>, count: usize) -> (r: Result<Vec<u8>, FormatError>)
    ensures
        match decompress_spec(artifact@, count as nat) {
            Some(d) => r matches Ok(v) && v@ == d,
            None => r is Err,
        },
{
    if count == 0 {
        return Ok(Vec::new());
    }
    proof {
        assert(artifact@.skip(0) =~= artifact@);
    }
    match deserialize_tree(artifact, 0) {
        Ok((tree, used)) => {
            let mut payload: Vec<u8> = Vec::new();
            let mut i: usize = used;
            proof {
                assert(artifact@.subrange(used as int, used as int) =~= Seq::<u8>::empty());
            }
            while i < artifact.len()
                invariant
                    used <= i <= artifact@.len(),
                    payload@ == artifact@.subrange(used as int, i as int),
                decreases artifact@.len() - i,
            {
                payload.push(artifact[i]);
                proof {
                    assert(artifact@.subrange(used as int, i + 1)
                        =~= artifact@.subrange(used as int, i as int).push(artifact@[i as int]));
                }
                i = i + 1;
            }
            proof {
                assert(payload@ =~= artifact@.skip(used as int));
            }
            match decode_data(&payload, &tree, count) {
                Some(v) => Ok(v),
                None => Err(FormatError),
            }
        },
        Err(e) => Err(e),
    }
}

} // verus!
