//! Pre-order serialization of the prefix tree, and its inverse.

use vstd::prelude::*;
use crate::tree::{HuffmanNode, build_tree_spec, initial_work, lemma_build_loop_some};

verus! {

/// The error a malformed serialized tree raises: the byte stream is
/// truncated mid-node, or a tag byte is neither `0` nor `1`.
#[derive(Debug, PartialEq, Eq, Structural)]
pub struct FormatError;

/// The pre-order encoding of a tree: tag `1` followed by the symbol for a
/// leaf; tag `0` followed by the encoded left then right subtree for an
/// internal node.
pub open spec fn ser_spec(t: HuffmanNode) -> Seq<u8>
    decreases t,
{
    match t {
        HuffmanNode::Leaf { symbol } => seq![1u8, symbol],
        HuffmanNode::Internal { left, right } => seq![0u8] + ser_spec(*left) + ser_spec(*right),
    }
}

/// What parsing a pre-order stream yields: the tree and the number of bytes
/// it occupies, or nothing when the stream is truncated or a tag is
/// unrecognized.
pub open spec fn deser_spec(s: Seq<u8>) -> Option<(HuffmanNode, nat)>
    decreases s.len(),
{
    if s.len() == 0 {
        None
    } else if s[0] == 1 {
        if s.len() >= 2 {
            Some((HuffmanNode::Leaf { symbol: s[1] }, 2))
        } else {
            None
        }
    } else if s[0] == 0 {
        match deser_spec(s.skip(1)) {
            Some((l, n1)) => if 1 + n1 <= s.len() {
                match deser_spec(s.skip(1 + n1 as int)) {
                    Some((r, n2)) => Some(
                        (
                            HuffmanNode::Internal { left: Box::new(l), right: Box::new(r) },
                            1 + n1 + n2,
                        ),
                    ),
                    None => None,
                }
            } else {
                None
            },
            None => None,
        }
    } else {
        None
    }
}

/// A successful parse consumes at least one and at most all of the bytes.
pub proof fn lemma_deser_consumed(s: Seq<u8>)
    ensures
        deser_spec(s) matches Some(p) ==> 1 <= p.1 <= s.len(),
    decreases s.len(),
{
    if s.len() > 0 && s[0] == 0 {
        lemma_deser_consumed(s.skip(1));
        if let Some((l, n1)) = deser_spec(s.skip(1)) {
            if 1 + n1 <= s.len() {
                lemma_deser_consumed(s.skip(1 + n1 as int));
            }
        }
    }
}

/// Parsing the encoding of a tree, whatever follows it, gives back that tree
/// and consumes exactly the encoding.
pub proof fn lemma_deser_ser(t: HuffmanNode, rest: Seq<u8>)
    ensures
        deser_spec(ser_spec(t) + rest) == Some((t, ser_spec(t).len())),
    decreases t,
{
    let s = ser_spec(t) + rest;
    match t {
        HuffmanNode::Leaf { symbol } => {
            assert(s[0] == 1 && s[1] == symbol && s.len() >= 2);
        },
        HuffmanNode::Internal { left, right } => {
            lemma_deser_ser(*left, ser_spec(*right) + rest);
            lemma_deser_ser(*right, rest);
            assert(s[0] == 0);
            assert(s.skip(1) =~= ser_spec(*left) + (ser_spec(*right) + rest));
            let n1 = ser_spec(*left).len();
            assert(s.skip(1 + n1 as int) =~= ser_spec(*right) + rest);
        },
    }
}

/// Append the pre-order encoding of a tree to an output buffer: tag `1` and
/// the symbol for a leaf, tag `0` then both subtrees for an internal node.
pub fn serialize_tree(node: &HuffmanNode, output: &mut Vec<u8>)
    ensures
        final(output)@ == old(output)@ + ser_spec(*node),
    decreases *node,
{
    match node {
        HuffmanNode::Leaf { symbol } => {
            output.push(1);
            output.push(*symbol);
            proof {
                assert(output@ =~= old(output)@ + ser_spec(*node));
            }
        },
        HuffmanNode::Internal { left, right } => {
            output.push(0);
            serialize_tree(left, output);
            serialize_tree(right, output);
            proof {
                assert(output@ =~= old(output)@ + ser_spec(*node));
            }
        },
    }
}

/// Parse one pre-order tree from `data` starting at `pos`.  On success the
/// result is the tree and the number of bytes it occupied; a truncated
/// stream or an unrecognized tag is a `FormatError`.  Success and failure
/// follow `deser_spec` exactly.
pub fn deserialize_tree(data: &Vec<u8>, pos: usize) -> (r: Result<(HuffmanNode, usize), FormatError>)
    requires
        pos <= data@.len(),
    ensures
        match deser_spec(data@.skip(pos as int)) {
            Some(p) => r matches Ok(q) && q.0 == p.0 && q.1 == p.1 && pos + q.1 <= data@.len(),
            None => r is Err,
        },
    decreases data@.len() - pos,
{
    proof {
        lemma_deser_consumed(data@.skip(pos as int));
    }
    if pos >= data.len() {
        return Err(FormatError);
    }
    let tag = data[pos];
    if tag == 1 {
        if pos + 1 < data.len() {
            Ok((HuffmanNode::Leaf { symbol: data[pos + 1] }, 2))
        } else {
            Err(FormatError)
        }
    } else if tag == 0 {
        proof {
            assert(data@.skip(pos as int).skip(1) =~= data@.skip(pos + 1 as int));
        }
        match deserialize_tree(data, pos + 1) {
            Ok((l, n1)) => {
                proof {
                    assert(data@.skip(pos as int).skip(1 + n1 as int)
                        =~= data@.skip(pos + 1 + n1 as int));
                }
                match deserialize_tree(data, pos + 1 + n1) {
                    Ok((rt, n2)) => Ok(
                        (
                            HuffmanNode::Internal { left: Box::new(l), right: Box::new(rt) },
                            1 + n1 + n2,
                        ),
                    ),
                    Err(e) => Err(e),
                }
            },
            Err(e) => Err(e),
        }
    } else {
        Err(FormatError)
    }
}

/// Tree round-trip: a tree built from a frequency table with at least one
/// entry survives serialization and deserialization structurally unchanged.
pub proof fn lemma_tree_round_trip(table: Seq<(u8, usize)>)
    requires
        table.len() >= 1,
    ensures
        build_tree_spec(table) is Some,
        build_tree_spec(table) matches Some(t) ==> deser_spec(ser_spec(t)) == Some(
            (t, ser_spec(t).len()),
        ),
{
    assert(initial_work(table).len() == table.len());
    lemma_build_loop_some(initial_work(table));
    if let Some(t) = build_tree_spec(table) {
        lemma_deser_ser(t, Seq::empty());
        assert(ser_spec(t) + Seq::<u8>::empty() =~= ser_spec(t));
    }
}

} // verus!
