//! The Huffman prefix tree and its greedy builder.

use vstd::prelude::*;

verus! {

/// A node of the prefix tree: a leaf holds one symbol (a byte); an internal
/// node holds exactly two children and no symbol.  Weights are not stored in
/// the tree; they matter only while the tree is being built.
#[derive(Debug, PartialEq, Eq)]
pub enum HuffmanNode {
    Leaf { symbol: u8 },
    Internal { left: Box<HuffmanNode>, right: Box<HuffmanNode> },
}

impl HuffmanNode {
    /// The set of symbols found at the leaves.
    pub open spec fn symbols(self) -> Set<u8>
        decreases self,
    {
        match self {
            HuffmanNode::Leaf { symbol } => set![symbol],
            HuffmanNode::Internal { left, right } => left.symbols().union(right.symbols()),
        }
    }

    /// A fresh leaf for one symbol.
    pub fn new(symbol: u8) -> (r: HuffmanNode)
        ensures
            r == (HuffmanNode::Leaf { symbol }),
    {
        HuffmanNode::Leaf { symbol }
    }
}

/// The index of the first entry of minimal weight in a working set.  Ties go
/// to the earliest entry, so the builder's choices are reproducible.
pub open spec fn min_index(work: Seq<(usize, HuffmanNode)>) -> int
    recommends
        work.len() > 0,
    decreases work.len(),
{
    if work.len() <= 1 {
        0
    } else {
        let m = min_index(work.drop_first()) + 1;
        if work[0].0 <= work[m].0 {
            0
        } else {
            m
        }
    }
}

pub proof fn lemma_min_index(work: Seq<(usize, HuffmanNode)>)
    requires
        work.len() > 0,
    ensures
        0 <= min_index(work) < work.len(),
        forall|j: int| 0 <= j < work.len() ==> work[min_index(work)].0 <= #[trigger] work[j].0,
        forall|j: int| 0 <= j < min_index(work) ==> #[trigger] work[j].0 > work[min_index(work)].0,
    decreases work.len(),
{
    if work.len() > 1 {
        lemma_min_index(work.drop_first());
        assert(forall|j: int| 1 <= j < work.len() ==> work[j] == work.drop_first()[j - 1]);
    }
}

/// The sum of the weights of a working set.
pub open spec fn total_weight(work: Seq<(usize, HuffmanNode)>) -> int
    decreases work.len(),
{
    if work.len() == 0 {
        0
    } else {
        work[0].0 + total_weight(work.drop_first())
    }
}

pub proof fn lemma_total_weight_nonneg(work: Seq<(usize, HuffmanNode)>)
    ensures
        total_weight(work) >= 0,
    decreases work.len(),
{
    if work.len() > 0 {
        lemma_total_weight_nonneg(work.drop_first());
    }
}

pub proof fn lemma_total_weight_remove(work: Seq<(usize, HuffmanNode)>, i: int)
    requires
        0 <= i < work.len(),
    ensures
        total_weight(work.remove(i)) == total_weight(work) - work[i].0,
    decreases work.len(),
{
    if i == 0 {
        assert(work.remove(0) =~= work.drop_first());
    } else {
        lemma_total_weight_remove(work.drop_first(), i - 1);
        assert(work.remove(i).drop_first() =~= work.drop_first().remove(i - 1));
    }
}

pub proof fn lemma_total_weight_push(work: Seq<(usize, HuffmanNode)>, p: (usize, HuffmanNode))
    ensures
        total_weight(work.push(p)) == total_weight(work) + p.0,
    decreases work.len(),
{
    if work.len() == 0 {
        assert(work.push(p).drop_first() =~= Seq::<(usize, HuffmanNode)>::empty());
        assert(total_weight(work.push(p).drop_first()) == 0);
    } else {
        lemma_total_weight_push(work.drop_first(), p);
        assert(work.push(p).drop_first() =~= work.drop_first().push(p));
    }
}

/// The union of the leaf symbols over a working set.
pub open spec fn work_symbols(work: Seq<(usize, HuffmanNode)>) -> Set<u8>
    decreases work.len(),
{
    if work.len() == 0 {
        Set::empty()
    } else {
        work[0].1.symbols().union(work_symbols(work.drop_first()))
    }
}

pub proof fn lemma_work_symbols_remove(work: Seq<(usize, HuffmanNode)>, i: int)
    requires
        0 <= i < work.len(),
    ensures
        work_symbols(work) == work_symbols(work.remove(i)).union(work[i].1.symbols()),
    decreases work.len(),
{
    if i == 0 {
        assert(work.remove(0) =~= work.drop_first());
        assert(work_symbols(work.drop_first()).union(work[0].1.symbols())
            =~= work[0].1.symbols().union(work_symbols(work.drop_first())));
    } else {
        lemma_work_symbols_remove(work.drop_first(), i - 1);
        assert(work.remove(i).drop_first() =~= work.drop_first().remove(i - 1));
        assert(work_symbols(work.remove(i)).union(work[i].1.symbols())
            =~= work[0].1.symbols().union(
                work_symbols(work.drop_first().remove(i - 1)).union(work[i].1.symbols())));
    }
}

pub proof fn lemma_work_symbols_push(work: Seq<(usize, HuffmanNode)>, p: (usize, HuffmanNode))
    ensures
        work_symbols(work.push(p)) == work_symbols(work).union(p.1.symbols()),
    decreases work.len(),
{
    if work.len() == 0 {
        assert(work.push(p).drop_first() =~= Seq::<(usize, HuffmanNode)>::empty());
        assert(work_symbols(work.push(p).drop_first()) =~= Set::<u8>::empty());
        assert(work_symbols(work.push(p)) =~= work_symbols(work).union(p.1.symbols()));
    } else {
        lemma_work_symbols_push(work.drop_first(), p);
        assert(work.push(p).drop_first() =~= work.drop_first().push(p));
        assert(work[0].1.symbols().union(work_symbols(work.drop_first()).union(p.1.symbols()))
            =~= work_symbols(work).union(p.1.symbols()));
    }
}

/// One round of greedy merging after another, until at most one node is left.
/// Each round takes out the two lightest entries (earliest first on ties) and
/// appends an internal node carrying their combined weight, the first pick on
/// the left.
pub open spec fn build_loop(work: Seq<(usize, HuffmanNode)>) -> Option<HuffmanNode>
    decreases work.len(),
{
    if work.len() == 0 {
        None
    } else if work.len() == 1 {
        Some(work[0].1)
    } else {
        proof {
            lemma_min_index(work);
        }
        let first = work[min_index(work)];
        let rest1 = work.remove(min_index(work));
        proof {
            lemma_min_index(rest1);
        }
        let second = rest1[min_index(rest1)];
        let rest2 = rest1.remove(min_index(rest1));
        let merged = (
            ((first.0 + second.0) as usize),
            HuffmanNode::Internal { left: Box::new(first.1), right: Box::new(second.1) },
        );
        build_loop(rest2.push(merged))
    }
}

/// The leaf symbols of the built tree are exactly the symbols of the working
/// set it was built from.
pub proof fn lemma_build_loop_symbols(work: Seq<(usize, HuffmanNode)>)
    ensures
        build_loop(work) matches Some(t) ==> t.symbols() == work_symbols(work),
    decreases work.len(),
{
    if work.len() == 1 {
        assert(work_symbols(work.drop_first()) =~= Set::<u8>::empty());
        assert(work_symbols(work) =~= work[0].1.symbols());
    } else if work.len() > 1 {
        lemma_min_index(work);
        let i = min_index(work);
        let first = work[i];
        let rest1 = work.remove(i);
        lemma_min_index(rest1);
        let j = min_index(rest1);
        let second = rest1[j];
        let rest2 = rest1.remove(j);
        let merged = (
            ((first.0 + second.0) as usize),
            HuffmanNode::Internal { left: Box::new(first.1), right: Box::new(second.1) },
        );
        lemma_build_loop_symbols(rest2.push(merged));
        lemma_work_symbols_push(rest2, merged);
        lemma_work_symbols_remove(rest1, j);
        lemma_work_symbols_remove(work, i);
        assert(work_symbols(rest2).union(merged.1.symbols())
            =~= work_symbols(rest2).union(second.1.symbols()).union(first.1.symbols()));
    }
}

/// The working set a frequency table starts from: one leaf per entry, in the
/// table's own order.
pub open spec fn initial_work(table: Seq<(u8, usize)>) -> Seq<(usize, HuffmanNode)> {
    table.map_values(|p: (u8, usize)| (p.1, HuffmanNode::Leaf { symbol: p.0 }))
}

/// The sum of the counts of a frequency table.
pub open spec fn table_weight(table: Seq<(u8, usize)>) -> int {
    total_weight(initial_work(table))
}

/// The symbols of a frequency table.
pub open spec fn table_symbols(table: Seq<(u8, usize)>) -> Set<u8> {
    work_symbols(initial_work(table))
}

/// What the greedy builder returns for a frequency table: no tree for an
/// empty table, a lone leaf for one entry, and otherwise the result of the
/// weight-ordered merges.
pub open spec fn build_tree_spec(table: Seq<(u8, usize)>) -> Option<HuffmanNode> {
    build_loop(initial_work(table))
}

/// The tree built from a table holds exactly the table's symbols at its
/// leaves.
pub proof fn lemma_build_tree_symbols(table: Seq<(u8, usize)>)
    ensures
        build_tree_spec(table) matches Some(t) ==> t.symbols() == table_symbols(table),
{
    lemma_build_loop_symbols(initial_work(table));
}

/// A non-empty table always yields a tree.
pub proof fn lemma_build_loop_some(work: Seq<(usize, HuffmanNode)>)
    requires
        work.len() > 0,
    ensures
        build_loop(work) is Some,
    decreases work.len(),
{
    if work.len() > 1 {
        lemma_min_index(work);
        let first = work[min_index(work)];
        let rest1 = work.remove(min_index(work));
        lemma_min_index(rest1);
        let second = rest1[min_index(rest1)];
        let rest2 = rest1.remove(min_index(rest1));
        let merged = (
            ((first.0 + second.0) as usize),
            HuffmanNode::Internal { left: Box::new(first.1), right: Box::new(second.1) },
        );
        lemma_build_loop_some(rest2.push(merged));
    }
}

/// The first index of minimal weight, found by one scan.
fn find_min(nodes: &Vec<(usize, HuffmanNode)>) -> (i: usize)
    requires
        nodes@.len() > 0,
    ensures
        i == min_index(nodes@),
{
    let mut best: usize = 0;
    let mut k: usize = 1;
    while k < nodes.len()
        invariant
            0 <= best < k <= nodes@.len(),
            forall|j: int| 0 <= j < k ==> nodes@[best as int].0 <= #[trigger] nodes@[j].0,
            forall|j: int| 0 <= j < best ==> #[trigger] nodes@[j].0 > nodes@[best as int].0,
        decreases nodes@.len() - k,
    {
        if nodes[k].0 < nodes[best].0 {
            best = k;
        }
        k = k + 1;
    }
    proof {
        lemma_min_index(nodes@);
    }
    best
}

/// Build the prefix tree for a frequency table by greedy minimum-weight
/// merging: the two lightest entries (the earliest inserted on ties) are
/// merged, the merged node is appended to the working set, and so on until
/// one root is left.  An empty table yields no tree; one entry yields a lone
/// leaf.  The result is exactly `build_tree_spec`, so two builds from the
/// same table agree.
pub fn build_huffman_tree(frequencies: &Vec<(u8, usize)>) -> (r: Option<HuffmanNode>)
    requires
        table_weight(frequencies@) <= usize::MAX,
    ensures
        r == build_tree_spec(frequencies@),
{
    let mut nodes: Vec<(usize, HuffmanNode)> = Vec::new();
    let mut k: usize = 0;
    while k < frequencies.len()
        invariant
            k <= frequencies@.len(),
            nodes@ == initial_work(frequencies@.take(k as int)),
        decreases frequencies@.len() - k,
    {
        let symbol = frequencies[k].0;
        let count = frequencies[k].1;
        nodes.push((count, HuffmanNode::Leaf { symbol }));
        proof {
            assert(frequencies@.take(k + 1 as int).map_values(
                |p: (u8, usize)| (p.1, HuffmanNode::Leaf { symbol: p.0 }))
                =~= initial_work(frequencies@.take(k as int)).push(
                    (count, HuffmanNode::Leaf { symbol })));
        }
        k = k + 1;
    }
    proof {
        assert(frequencies@.take(frequencies@.len() as int) =~= frequencies@);
    }
    while nodes.len() > 1
        invariant
            build_loop(nodes@) == build_tree_spec(frequencies@),
            total_weight(nodes@) == table_weight(frequencies@),
            table_weight(frequencies@) <= usize::MAX,
        decreases nodes@.len(),
    {
        let ghost work = nodes@;
        proof {
            lemma_min_index(work);
        }
        let i = find_min(&nodes);
        let first = nodes.remove(i);
        let ghost rest1 = nodes@;
        proof {
            lemma_min_index(rest1);
            lemma_total_weight_remove(work, i as int);
        }
        let j = find_min(&nodes);
        let second = nodes.remove(j);
        let ghost rest2 = nodes@;
        proof {
            lemma_total_weight_remove(rest1, j as int);
            lemma_total_weight_nonneg(rest2);
        }
        let w = first.0 + second.0;
        let node = HuffmanNode::Internal { left: Box::new(first.1), right: Box::new(second.1) };
        nodes.push((w, node));
        proof {
            lemma_total_weight_push(rest2, (w, node));
        }
    }
    if nodes.len() == 0 {
        None
    } else {
        let (_, root) = nodes.pop().unwrap();
        Some(root)
    }
}

} // verus!
