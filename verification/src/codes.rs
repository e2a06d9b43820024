//! The code table — from symbol to bit-string code — and the encoders.

use vstd::prelude::*;
use vstd::pervasive::VecAdditionalExecFns;
use crate::tree::HuffmanNode;
use crate::bits::{pack_bits, pack};

verus! {

/// A mapping from symbol to its code, a non-empty bit string: one slot per
/// possible byte value.
pub struct CodeTable {
    slots: Vec<Option<Vec<bool>>>,
}

impl CodeTable {
    /// The table is well formed: one slot for each of the 256 symbols.
    pub closed spec fn wf(&self) -> bool {
        self.slots@.len() == 256
    }

    /// The mapping the table holds.
    pub closed spec fn as_map(&self) -> Map<u8, Seq<bool>> {
        Map::new(
            |s: u8| self.slots@[s as int] is Some,
            |s: u8| (self.slots@[s as int]->0)@,
        )
    }

    /// An empty table.
    pub fn new() -> (r: CodeTable)
        ensures
            r.wf(),
            r.as_map() == Map::<u8, Seq<bool>>::empty(),
    {
        let mut slots: Vec<Option<Vec<bool>>> = Vec::new();
        let mut n: usize = 0;
        while n < 256
            invariant
                slots@.len() == n,
                n <= 256,
                forall|s: int| 0 <= s < n ==> slots@[s] is None,
            decreases 256 - n,
        {
            slots.push(None);
            n = n + 1;
        }
        let r = CodeTable { slots };
        proof {
            assert(r.as_map() =~= Map::<u8, Seq<bool>>::empty());
        }
        r
    }

    /// Record the code for one symbol, replacing any earlier one.
    pub fn set_code(&mut self, symbol: u8, code: Vec<bool>)
        requires
            old(self).wf(),
        ensures
            final(self).wf(),
            final(self).as_map() == old(self).as_map().insert(symbol, code@),
    {
        self.slots.set(symbol as usize, Some(code));
        proof {
            assert(self.as_map() =~= old(self).as_map().insert(symbol, code@));
        }
    }

    /// Look up the code for one symbol.
    pub fn get_code(&self, symbol: u8) -> (r: Option<&Vec<bool>>)
        requires
            self.wf(),
        ensures
            r is Some <==> self.as_map().contains_key(symbol),
            r matches Some(c) ==> c@ == self.as_map()[symbol],
    {
        match &self.slots[symbol as usize] {
            Some(c) => Some(c),
            None => None,
        }
    }
}

/// The codes a tree assigns: the path from the root, `false` for left and
/// `true` for right, recorded at each leaf; on a duplicated symbol the
/// rightmost leaf wins.  A lone root leaf gets the single-bit code `0` by
/// convention, so every code is non-empty.
pub open spec fn tree_codes(t: HuffmanNode, prefix: Seq<bool>) -> Map<u8, Seq<bool>>
    decreases t,
{
    match t {
        HuffmanNode::Leaf { symbol } => Map::empty().insert(
            symbol,
            if prefix.len() == 0 {
                seq![false]
            } else {
                prefix
            },
        ),
        HuffmanNode::Internal { left, right } => tree_codes(
            *left,
            prefix.push(false),
        ).union_prefer_right(tree_codes(*right, prefix.push(true))),
    }
}

/// A tree assigns a code to exactly its leaf symbols.
pub proof fn lemma_tree_codes_dom(t: HuffmanNode, prefix: Seq<bool>)
    ensures
        tree_codes(t, prefix).dom() == t.symbols(),
    decreases t,
{
    match t {
        HuffmanNode::Leaf { symbol } => {
            assert(tree_codes(t, prefix).dom() =~= set![symbol]);
        },
        HuffmanNode::Internal { left, right } => {
            lemma_tree_codes_dom(*left, prefix.push(false));
            lemma_tree_codes_dom(*right, prefix.push(true));
            assert(tree_codes(t, prefix).dom() =~= t.symbols());
        },
    }
}

/// Every code a tree assigns extends the prefix it was generated under, and
/// under an internal node it is strictly longer than that prefix.
pub proof fn lemma_tree_codes_extend(t: HuffmanNode, prefix: Seq<bool>)
    ensures
        forall|s: u8| #[trigger]
            tree_codes(t, prefix).contains_key(s) ==> {
                let code = tree_codes(t, prefix)[s];
                &&& code.len() >= prefix.len()
                &&& code.take(prefix.len() as int) == prefix
                &&& (t is Internal ==> code.len() > prefix.len())
            },
    decreases t,
{
    match t {
        HuffmanNode::Leaf { symbol } => {
            if prefix.len() == 0 {
                assert(seq![false].take(0) =~= prefix);
            } else {
                assert(prefix.take(prefix.len() as int) =~= prefix);
            }
        },
        HuffmanNode::Internal { left, right } => {
            lemma_tree_codes_extend(*left, prefix.push(false));
            lemma_tree_codes_extend(*right, prefix.push(true));
            assert forall|s: u8| #[trigger]
                tree_codes(t, prefix).contains_key(s) implies {
                let code = tree_codes(t, prefix)[s];
                &&& code.len() >= prefix.len()
                &&& code.take(prefix.len() as int) == prefix
                &&& (t is Internal ==> code.len() > prefix.len())
            } by {
                let code = tree_codes(t, prefix)[s];
                if tree_codes(*right, prefix.push(true)).contains_key(s) {
                    assert(code.take(prefix.len() + 1 as int) == prefix.push(true));
                    assert(code.take(prefix.len() as int)
                        =~= code.take(prefix.len() + 1 as int).take(prefix.len() as int));
                    assert(prefix.push(true).take(prefix.len() as int) =~= prefix);
                } else {
                    assert(tree_codes(*left, prefix.push(false)).contains_key(s));
                    assert(code.take(prefix.len() + 1 as int) == prefix.push(false));
                    assert(code.take(prefix.len() as int)
                        =~= code.take(prefix.len() + 1 as int).take(prefix.len() as int));
                    assert(prefix.push(false).take(prefix.len() as int) =~= prefix);
                }
            }
        },
    }
}

/// Among the codes generated under one prefix, no code of one symbol is a
/// prefix of a different symbol's code.
pub proof fn lemma_tree_codes_prefix_free(t: HuffmanNode, prefix: Seq<bool>, a: u8, b: u8)
    requires
        tree_codes(t, prefix).contains_key(a),
        tree_codes(t, prefix).contains_key(b),
        a != b,
    ensures
        !tree_codes(t, prefix)[a].is_prefix_of(tree_codes(t, prefix)[b]),
    decreases t,
{
    match t {
        HuffmanNode::Leaf { symbol } => {
            assert(a == symbol && b == symbol);
        },
        HuffmanNode::Internal { left, right } => {
            let lm = tree_codes(*left, prefix.push(false));
            let rm = tree_codes(*right, prefix.push(true));
            let ca = tree_codes(t, prefix)[a];
            let cb = tree_codes(t, prefix)[b];
            lemma_tree_codes_extend(*left, prefix.push(false));
            lemma_tree_codes_extend(*right, prefix.push(true));
            if rm.contains_key(a) && rm.contains_key(b) {
                lemma_tree_codes_prefix_free(*right, prefix.push(true), a, b);
            } else if !rm.contains_key(a) && !rm.contains_key(b) {
                lemma_tree_codes_prefix_free(*left, prefix.push(false), a, b);
            } else {
                let n = prefix.len() as int;
                if rm.contains_key(a) {
                    assert(lm.contains_key(b) && !rm.contains_key(b));
                    assert(ca.take(n + 1) == prefix.push(true));
                    assert(cb.take(n + 1) == prefix.push(false));
                    assert(ca[n] == ca.take(n + 1)[n]);
                    assert(cb[n] == cb.take(n + 1)[n]);
                    assert(ca[n] != cb[n]);
                } else {
                    assert(lm.contains_key(a) && rm.contains_key(b));
                    assert(ca.take(n + 1) == prefix.push(false));
                    assert(cb.take(n + 1) == prefix.push(true));
                    assert(ca[n] == ca.take(n + 1)[n]);
                    assert(cb[n] == cb.take(n + 1)[n]);
                    assert(ca[n] != cb[n]);
                }
                if ca.is_prefix_of(cb) {
                    assert(cb.subrange(0, ca.len() as int) == ca);
                    assert(ca[n] == cb.subrange(0, ca.len() as int)[n]);
                    assert(ca[n] == cb[n]);
                }
            }
        },
    }
}

/// Prefix-free property: in the code table generated from any tree, no
/// symbol's code is a prefix of a different symbol's code.
pub proof fn lemma_prefix_free(t: HuffmanNode, a: u8, b: u8)
    requires
        tree_codes(t, Seq::empty()).contains_key(a),
        tree_codes(t, Seq::empty()).contains_key(b),
        a != b,
    ensures
        !tree_codes(t, Seq::empty())[a].is_prefix_of(tree_codes(t, Seq::empty())[b]),
{
    lemma_tree_codes_prefix_free(t, Seq::empty(), a, b);
}

/// Copy the bits of `src` onto the end of `dst`.
fn append_bits(dst: &mut Vec<bool>, src: &Vec<bool>)
    ensures
        final(dst)@ == old(dst)@ + src@,
{
    let mut i: usize = 0;
    proof {
        assert(dst@ =~= old(dst)@ + src@.take(0));
    }
    while i < src.len()
        invariant
            i <= src@.len(),
            dst@ == old(dst)@ + src@.take(i as int),
        decreases src@.len() - i,
    {
        dst.push(src[i]);
        proof {
            assert(old(dst)@ + src@.take(i + 1) =~= (old(dst)@ + src@.take(i as int)).push(
                src@[i as int]));
        }
        i = i + 1;
    }
    proof {
        assert(src@.take(src@.len() as int) =~= src@);
    }
}

/// Walk the tree depth first and record each leaf's path as its symbol's
/// code: left appends a `0`, right appends a `1`; a leaf met again replaces
/// the earlier code.  A lone root leaf records the one-bit code `0`.
pub fn generate_codes(node: &HuffmanNode, prefix: &mut Vec<bool>, codes: &mut CodeTable)
    requires
        old(codes).wf(),
    ensures
        final(codes).wf(),
        final(prefix)@ == old(prefix)@,
        final(codes).as_map() == old(codes).as_map().union_prefer_right(
            tree_codes(*node, old(prefix)@),
        ),
    decreases *node,
{
    match node {
        HuffmanNode::Leaf { symbol } => {
            let mut code: Vec<bool> = Vec::new();
            if prefix.len() == 0 {
                code.push(false);
                proof {
                    assert(code@ =~= seq![false]);
                }
            } else {
                append_bits(&mut code, prefix);
                proof {
                    assert(code@ =~= prefix@);
                }
            }
            codes.set_code(*symbol, code);
            proof {
                assert(codes.as_map() =~= old(codes).as_map().union_prefer_right(
                    tree_codes(*node, old(prefix)@)));
            }
        },
        HuffmanNode::Internal { left, right } => {
            prefix.push(false);
            generate_codes(left, prefix, codes);
            prefix.pop();
            proof {
                assert(prefix@ =~= old(prefix)@);
            }
            prefix.push(true);
            generate_codes(right, prefix, codes);
            prefix.pop();
            proof {
                assert(prefix@ =~= old(prefix)@);
                assert(codes.as_map() =~= old(codes).as_map().union_prefer_right(
                    tree_codes(*node, old(prefix)@)));
            }
        },
    }
}

/// The code table of a whole tree: each leaf symbol mapped to its path from
/// the root, a lone root leaf to the one-bit code `0`.
pub fn make_code_table(node: &HuffmanNode) -> (r: CodeTable)
    ensures
        r.wf(),
        r.as_map() == tree_codes(*node, Seq::empty()),
{
    let mut codes = CodeTable::new();
    let mut prefix: Vec<bool> = Vec::new();
    generate_codes(node, &mut prefix, &mut codes);
    proof {
        assert(codes.as_map() =~= tree_codes(*node, Seq::empty()));
    }
    codes
}

/// The concatenation, in order, of the codes of the symbols of `data` that
/// the mapping covers; symbols without a code contribute nothing.
pub open spec fn code_concat(data: Seq<u8>, m: Map<u8, Seq<bool>>) -> Seq<bool>
    decreases data.len(),
{
    if data.len() == 0 {
        Seq::empty()
    } else {
        code_concat(data.drop_last(), m) + if m.contains_key(data.last()) {
            m[data.last()]
        } else {
            Seq::empty()
        }
    }
}

/// Encode a symbol sequence with a covering code table and pack the result:
/// each symbol's code in order, eight bits per byte most-significant first,
/// the last byte zero-padded.  A symbol without a code would be an internal
/// invariant violation, so such inputs are ruled out rather than handled.
pub fn encode_data(data: &Vec<u8>, codes: &CodeTable) -> (r: Vec<u8>)
    requires
        codes.wf(),
        forall|i: int| 0 <= i < data@.len() ==> codes.as_map().contains_key(#[trigger] data@[i]),
    ensures
        r@ == pack_bits(code_concat(data@, codes.as_map())),
{
    let mut all_bits: Vec<bool> = Vec::new();
    let mut i: usize = 0;
    proof {
        assert(data@.take(0) =~= Seq::<u8>::empty());
    }
    while i < data.len()
        invariant
            i <= data@.len(),
            codes.wf(),
            forall|j: int| 0 <= j < data@.len() ==> codes.as_map().contains_key(
                #[trigger] data@[j],
            ),
            all_bits@ == code_concat(data@.take(i as int), codes.as_map()),
        decreases data@.len() - i,
    {
        proof {
            assert(data@.take(i + 1).drop_last() =~= data@.take(i as int));
            assert(data@.take(i + 1).last() == data@[i as int]);
        }
        match codes.get_code(data[i]) {
            Some(code) => {
                append_bits(&mut all_bits, code);
            },
            None => {
                proof {
                    assert(false);
                }
            },
        }
        i = i + 1;
    }
    proof {
        assert(data@.take(data@.len() as int) =~= data@);
    }
    pack(&all_bits)
}

/// Encode like `encode_data`, but silently skip any symbol the table does
/// not cover, as the text front end does.
pub fn encode_text(text: &Vec<u8>, codes: &CodeTable) -> (r: Vec<u8>)
    requires
        codes.wf(),
    ensures
        r@ == pack_bits(code_concat(text@, codes.as_map())),
{
    let mut all_bits: Vec<bool> = Vec::new();
    let mut i: usize = 0;
    proof {
        assert(text@.take(0) =~= Seq::<u8>::empty());
    }
    while i < text.len()
        invariant
            i <= text@.len(),
            codes.wf(),
            all_bits@ == code_concat(text@.take(i as int), codes.as_map()),
        decreases text@.len() - i,
    {
        proof {
            assert(text@.take(i + 1).drop_last() =~= text@.take(i as int));
            assert(text@.take(i + 1).last() == text@[i as int]);
        }
        match codes.get_code(text[i]) {
            Some(code) => {
                append_bits(&mut all_bits, code);
            },
            None => {
                proof {
                    assert(all_bits@ + Seq::<bool>::empty() =~= all_bits@);
                }
            },
        }
        i = i + 1;
    }
    proof {
        assert(text@.take(text@.len() as int) =~= text@);
    }
    pack(&all_bits)
}

} // verus!
