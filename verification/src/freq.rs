//! Symbol frequency counting.

use vstd::prelude::*;
use vstd::pervasive::VecAdditionalExecFns;
use crate::tree::{initial_work, table_weight, table_symbols, lemma_total_weight_push};

verus! {

/// How many times a symbol occurs in a byte sequence.
pub open spec fn count_sym(data: Seq<u8>, s: u8) -> nat
    decreases data.len(),
{
    if data.len() == 0 {
        0
    } else {
        count_sym(data.drop_last(), s) + if data.last() == s {
            1nat
        } else {
            0nat
        }
    }
}

pub proof fn lemma_count_le_len(data: Seq<u8>, s: u8)
    ensures
        count_sym(data, s) <= data.len(),
    decreases data.len(),
{
    if data.len() > 0 {
        lemma_count_le_len(data.drop_last(), s);
    }
}

/// The frequency table restricted to symbols below `n`, in ascending symbol
/// order: every such symbol that occurs, paired with its exact count.
pub open spec fn freq_upto(data: Seq<u8>, n: nat) -> Seq<(u8, usize)>
    recommends
        n <= 256,
    decreases n,
{
    if n == 0 {
        Seq::empty()
    } else {
        let s = (n - 1) as u8;
        freq_upto(data, (n - 1) as nat) + if count_sym(data, s) > 0 {
            seq![(s, count_sym(data, s) as usize)]
        } else {
            Seq::empty()
        }
    }
}

/// The frequency table of a byte sequence: one entry per distinct symbol
/// present, in ascending symbol order, each with its exact count.
pub open spec fn freq_spec(data: Seq<u8>) -> Seq<(u8, usize)> {
    freq_upto(data, 256)
}

/// The sum of the counts of the symbols below `n`.
pub open spec fn count_below(data: Seq<u8>, n: nat) -> int
    decreases n,
{
    if n == 0 {
        0
    } else {
        count_below(data, (n - 1) as nat) + count_sym(data, (n - 1) as u8)
    }
}

pub proof fn lemma_count_below_push(data: Seq<u8>, b: u8, n: nat)
    requires
        n <= 256,
    ensures
        count_below(data.push(b), n) == count_below(data, n) + if (b as nat) < n {
            1int
        } else {
            0int
        },
    decreases n,
{
    if n > 0 {
        lemma_count_below_push(data, b, (n - 1) as nat);
        let s = (n - 1) as u8;
        assert(data.push(b).drop_last() =~= data);
        assert(count_sym(data.push(b), s) == count_sym(data, s) + if b == s {
            1nat
        } else {
            0nat
        });
    }
}

/// All 256 per-symbol counts add up to the length of the data.
pub proof fn lemma_count_below_all(data: Seq<u8>)
    ensures
        count_below(data, 256) == data.len(),
    decreases data.len(),
{
    if data.len() == 0 {
        assert forall|n: nat| n <= 256 implies count_below(data, n) == 0 by {
            lemma_count_below_zero(data, n);
        }
    } else {
        let prefix = data.drop_last();
        lemma_count_below_all(prefix);
        lemma_count_below_push(prefix, data.last(), 256);
        assert(prefix.push(data.last()) =~= data);
    }
}

proof fn lemma_count_below_zero(data: Seq<u8>, n: nat)
    requires
        data.len() == 0,
    ensures
        count_below(data, n) == 0,
    decreases n,
{
    if n > 0 {
        lemma_count_below_zero(data, (n - 1) as nat);
    }
}

/// The weights of the table `freq_upto` builds add up to the combined count
/// of the symbols it covers.
pub proof fn lemma_freq_upto_weight(data: Seq<u8>, n: nat)
    requires
        data.len() <= usize::MAX,
    ensures
        table_weight(freq_upto(data, n)) == count_below(data, n),
    decreases n,
{
    if n == 0 {
        assert(initial_work(freq_upto(data, 0)) =~= Seq::<(usize, crate::tree::HuffmanNode)>::empty());
    } else {
        lemma_freq_upto_weight(data, (n - 1) as nat);
        let s = (n - 1) as u8;
        let prev = freq_upto(data, (n - 1) as nat);
        if count_sym(data, s) > 0 {
            lemma_count_le_len(data, s);
            let p = (s, count_sym(data, s) as usize);
            assert(freq_upto(data, n) =~= prev.push(p));
            assert(initial_work(prev.push(p)) =~= initial_work(prev).push(
                (p.1, crate::tree::HuffmanNode::Leaf { symbol: p.0 })));
            lemma_total_weight_push(
                initial_work(prev),
                (p.1, crate::tree::HuffmanNode::Leaf { symbol: p.0 }),
            );
        } else {
            assert(freq_upto(data, n) =~= prev);
        }
    }
}

/// The total weight of the frequency table of a byte sequence is the
/// sequence's length.
pub proof fn lemma_freq_spec_weight(data: Seq<u8>)
    requires
        data.len() <= usize::MAX,
    ensures
        table_weight(freq_spec(data)) == data.len(),
{
    lemma_freq_upto_weight(data, 256);
    lemma_count_below_all(data);
}

/// A symbol that occurs in the data has a positive count.
pub proof fn lemma_count_pos(data: Seq<u8>, i: int)
    requires
        0 <= i < data.len(),
    ensures
        count_sym(data, data[i]) > 0,
    decreases data.len(),
{
    if i < data.len() - 1 {
        lemma_count_pos(data.drop_last(), i);
        assert(data.drop_last()[i] == data[i]);
    }
}

pub proof fn lemma_freq_upto_symbols(data: Seq<u8>, n: nat)
    requires
        n <= 256,
    ensures
        forall|s: u8| #[trigger] table_symbols(freq_upto(data, n)).contains(s) <==> ((s as nat) < n
            && count_sym(data, s) > 0),
    decreases n,
{
    if n == 0 {
        assert(initial_work(freq_upto(data, 0))
            =~= Seq::<(usize, crate::tree::HuffmanNode)>::empty());
        assert(table_symbols(freq_upto(data, 0)) =~= Set::<u8>::empty());
    } else {
        lemma_freq_upto_symbols(data, (n - 1) as nat);
        let s = (n - 1) as u8;
        let prev = freq_upto(data, (n - 1) as nat);
        if count_sym(data, s) > 0 {
            lemma_count_le_len(data, s);
            let p = (s, count_sym(data, s) as usize);
            let leaf = (p.1, crate::tree::HuffmanNode::Leaf { symbol: p.0 });
            assert(freq_upto(data, n) =~= prev.push(p));
            assert(initial_work(prev.push(p)) =~= initial_work(prev).push(leaf));
            crate::tree::lemma_work_symbols_push(initial_work(prev), leaf);
            assert(leaf.1.symbols() =~= set![s]);
            assert(forall|t: u8| #[trigger] table_symbols(freq_upto(data, n)).contains(t)
                <==> (table_symbols(prev).contains(t) || t == s));
        } else {
            assert(freq_upto(data, n) =~= prev);
        }
    }
}

/// The symbols of the frequency table are exactly the symbols that occur in
/// the data.
pub proof fn lemma_freq_symbols(data: Seq<u8>)
    ensures
        forall|s: u8| #[trigger] table_symbols(freq_spec(data)).contains(s) <==> count_sym(
            data,
            s,
        ) > 0,
{
    lemma_freq_upto_symbols(data, 256);
}

/// Scan the data and produce its frequency table: exactly the distinct
/// symbols present, in ascending symbol order, each with its exact count.
/// Empty input yields an empty table.
pub fn calculate_frequencies(data: &Vec<u8>) -> (r: Vec<(u8, usize)>)
    ensures
        r@ == freq_spec(data@),
{
    let mut counts: Vec<usize> = Vec::new();
    let mut n: usize = 0;
    while n < 256
        invariant
            counts@.len() == n,
            n <= 256,
            forall|s: int| 0 <= s < n ==> counts@[s] == 0,
        decreases 256 - n,
    {
        counts.push(0);
        n = n + 1;
    }
    let mut i: usize = 0;
    proof {
        assert(data@.take(0) =~= Seq::<u8>::empty());
    }
    while i < data.len()
        invariant
            i <= data@.len(),
            counts@.len() == 256,
            forall|s: u8| counts@[s as int] == count_sym(data@.take(i as int), s),
        decreases data@.len() - i,
    {
        let b = data[i];
        proof {
            assert(data@.take(i + 1).drop_last() =~= data@.take(i as int));
            assert(data@.take(i + 1).last() == data@[i as int]);
            lemma_count_le_len(data@.take(i as int), b);
        }
        let old_count = counts[b as usize];
        counts.set(b as usize, old_count + 1);
        proof {
            assert forall|s: u8| counts@[s as int] == count_sym(data@.take(i + 1), s) by {
                assert(data@.take(i + 1).drop_last() =~= data@.take(i as int));
            }
        }
        i = i + 1;
    }
    proof {
        assert(data@.take(data@.len() as int) =~= data@);
    }
    let mut table: Vec<(u8, usize)> = Vec::new();
    let mut s: usize = 0;
    while s < 256
        invariant
            s <= 256,
            counts@.len() == 256,
            forall|t: u8| counts@[t as int] == count_sym(data@, t),
            table@ == freq_upto(data@, s as nat),
        decreases 256 - s,
    {
        let c = counts[s];
        if c > 0 {
            table.push((s as u8, c));
            proof {
                assert(freq_upto(data@, (s + 1) as nat) =~= freq_upto(data@, s as nat).push(
                    (s as u8, count_sym(data@, s as u8) as usize)));
            }
        } else {
            proof {
                assert(freq_upto(data@, (s + 1) as nat) =~= freq_upto(data@, s as nat));
            }
        }
        s = s + 1;
    }
    table
}

} // verus!
