//! Bit strings and their byte packing: eight bits per byte, most-significant
//! bit first, the last byte zero-padded on its low-order bits.

use vstd::prelude::*;

verus! {

/// Two to the `k`th power.
pub open spec fn two_to(k: nat) -> nat
    decreases k,
{
    if k == 0 {
        1
    } else {
        2 * two_to((k - 1) as nat)
    }
}

pub proof fn lemma_two_to_pos(k: nat)
    ensures
        two_to(k) >= 1,
    decreases k,
{
    if k > 0 {
        lemma_two_to_pos((k - 1) as nat);
    }
}

pub proof fn lemma_two_to_mono(a: nat, b: nat)
    requires
        a <= b,
    ensures
        two_to(a) <= two_to(b),
    decreases b,
{
    if a < b {
        lemma_two_to_mono(a, (b - 1) as nat);
        lemma_two_to_pos((b - 1) as nat);
    }
}

pub proof fn lemma_two_to_bounds(k: nat)
    ensures
        k <= 7 ==> two_to(k) <= 128,
        k <= 8 ==> two_to(k) <= 256,
        two_to(k) >= 1,
{
    lemma_two_to_pos(k);
    if k <= 7 {
        lemma_two_to_mono(k, 7);
        assert(two_to(7) == 128) by {
            reveal_with_fuel(two_to, 8);
        }
    } else if k == 8 {
        assert(two_to(8) == 256) by {
            reveal_with_fuel(two_to, 9);
        }
    }
}

/// The value of a bit string read most-significant-bit first.
pub open spec fn bits_val(bits: Seq<bool>) -> nat
    decreases bits.len(),
{
    if bits.len() == 0 {
        0
    } else {
        2 * bits_val(bits.drop_last()) + if bits.last() {
            1nat
        } else {
            0nat
        }
    }
}

pub proof fn lemma_bits_val_bound(bits: Seq<bool>)
    ensures
        bits_val(bits) < two_to(bits.len()),
    decreases bits.len(),
{
    if bits.len() > 0 {
        lemma_bits_val_bound(bits.drop_last());
    }
}

/// The `k` low-order bits of `v`, most significant first.
pub open spec fn bits_of(v: nat, k: nat) -> Seq<bool>
    decreases k,
{
    if k == 0 {
        Seq::empty()
    } else {
        bits_of(v / 2, (k - 1) as nat).push(v % 2 == 1)
    }
}

pub proof fn lemma_bits_of_len(v: nat, k: nat)
    ensures
        bits_of(v, k).len() == k,
    decreases k,
{
    if k > 0 {
        lemma_bits_of_len(v / 2, (k - 1) as nat);
    }
}

/// Reading back the value of a bit string gives the string itself.
pub proof fn lemma_bits_of_val(bits: Seq<bool>)
    ensures
        bits_of(bits_val(bits), bits.len()) == bits,
    decreases bits.len(),
{
    if bits.len() > 0 {
        lemma_bits_of_val(bits.drop_last());
        let v = bits_val(bits);
        assert(v / 2 == bits_val(bits.drop_last()));
        assert((v % 2 == 1) == bits.last());
        assert(bits_of(v, bits.len()) =~= bits);
    }
}

/// A run of `k` zero bits.
pub open spec fn zero_bits(k: nat) -> Seq<bool> {
    Seq::new(k, |i: int| false)
}

/// A bit string of at most eight bits, zero-padded at the low end to a full
/// byte.
pub open spec fn pad8(bits: Seq<bool>) -> Seq<bool>
    recommends
        bits.len() <= 8,
{
    bits + zero_bits((8 - bits.len()) as nat)
}

/// Pack a bit string into bytes: eight bits per byte, most-significant bit
/// first, the final partial byte zero-padded on its low-order bits.
pub open spec fn pack_bits(bits: Seq<bool>) -> Seq<u8>
    decreases bits.len(),
{
    if bits.len() == 0 {
        Seq::empty()
    } else if bits.len() < 8 {
        seq![bits_val(pad8(bits)) as u8]
    } else {
        seq![bits_val(bits.take(8)) as u8] + pack_bits(bits.skip(8))
    }
}

/// All the bits of a byte string, most-significant bit of each byte first.
pub open spec fn unpack_bytes(bytes: Seq<u8>) -> Seq<bool>
    decreases bytes.len(),
{
    if bytes.len() == 0 {
        Seq::empty()
    } else {
        unpack_bytes(bytes.drop_last()) + bits_of(bytes.last() as nat, 8)
    }
}

pub proof fn lemma_unpack_len(bytes: Seq<u8>)
    ensures
        unpack_bytes(bytes).len() == 8 * bytes.len(),
    decreases bytes.len(),
{
    if bytes.len() > 0 {
        lemma_unpack_len(bytes.drop_last());
        lemma_bits_of_len(bytes.last() as nat, 8);
    }
}

pub proof fn lemma_unpack_append(a: Seq<u8>, b: Seq<u8>)
    ensures
        unpack_bytes(a + b) == unpack_bytes(a) + unpack_bytes(b),
    decreases b.len(),
{
    if b.len() == 0 {
        assert(a + b =~= a);
        assert(unpack_bytes(a) + unpack_bytes(b) =~= unpack_bytes(a));
    } else {
        lemma_unpack_append(a, b.drop_last());
        assert((a + b).drop_last() =~= a + b.drop_last());
        assert((a + b).last() == b.last());
        assert(unpack_bytes(a) + (unpack_bytes(b.drop_last()) + bits_of(b.last() as nat, 8))
            =~= unpack_bytes(a) + unpack_bytes(b));
    }
}

/// How many padding bits packing appends to a bit string of length `n`.
pub open spec fn pad_len(n: nat) -> nat {
    ((8 - n % 8) % 8) as nat
}

/// Unpacking a packed bit string gives the string back, followed only by its
/// zero padding.
pub proof fn lemma_unpack_pack(bits: Seq<bool>)
    ensures
        unpack_bytes(pack_bits(bits)) == bits + zero_bits(pad_len(bits.len())),
    decreases bits.len(),
{
    if bits.len() == 0 {
        assert(bits + zero_bits(pad_len(0)) =~= Seq::<bool>::empty());
        assert(unpack_bytes(pack_bits(bits)) =~= Seq::<bool>::empty());
    } else if bits.len() < 8 {
        let padded = pad8(bits);
        lemma_bits_val_bound(padded);
        lemma_two_to_bounds(padded.len());
        let v = bits_val(padded);
        let packed = pack_bits(bits);
        assert(packed =~= seq![v as u8]);
        assert(packed.drop_last() =~= Seq::<u8>::empty());
        assert(unpack_bytes(packed.drop_last()) =~= Seq::<bool>::empty());
        assert(packed.last() == v as u8);
        assert((v as u8) as nat == v);
        assert(unpack_bytes(packed) =~= bits_of(v, 8));
        lemma_bits_of_val(padded);
        assert(bits_of(v, 8) == padded);
        assert(padded =~= bits + zero_bits(pad_len(bits.len())));
    } else {
        let head = bits.take(8);
        let tail = bits.skip(8);
        lemma_unpack_pack(tail);
        lemma_bits_val_bound(head);
        lemma_two_to_bounds(head.len());
        let v = bits_val(head);
        lemma_unpack_append(seq![v as u8], pack_bits(tail));
        assert(pack_bits(bits) =~= seq![v as u8] + pack_bits(tail));
        assert(seq![v as u8].drop_last() =~= Seq::<u8>::empty());
        assert(unpack_bytes(seq![v as u8].drop_last()) =~= Seq::<bool>::empty());
        assert((v as u8) as nat == v);
        assert(unpack_bytes(seq![v as u8]) =~= bits_of(v, 8));
        lemma_bits_of_val(head);
        assert((bits.len() - 8) % 8 == bits.len() % 8);
        assert(unpack_bytes(pack_bits(bits)) =~= head + (tail + zero_bits(pad_len(tail.len()))));
        assert(head + (tail + zero_bits(pad_len(tail.len())))
            =~= bits + zero_bits(pad_len(bits.len())));
    }
}

proof fn lemma_bits_of_byte(v: nat)
    requires
        v < 256,
    ensures
        bits_of(v, 8) == seq![
            v / 128 % 2 == 1,
            v / 64 % 2 == 1,
            v / 32 % 2 == 1,
            v / 16 % 2 == 1,
            v / 8 % 2 == 1,
            v / 4 % 2 == 1,
            v / 2 % 2 == 1,
            v % 2 == 1,
        ],
{
    assert((v / 2) / 2 == v / 4) by (nonlinear_arith);
    assert((v / 4) / 2 == v / 8) by (nonlinear_arith);
    assert((v / 8) / 2 == v / 16) by (nonlinear_arith);
    assert((v / 16) / 2 == v / 32) by (nonlinear_arith);
    assert((v / 32) / 2 == v / 64) by (nonlinear_arith);
    assert((v / 64) / 2 == v / 128) by (nonlinear_arith);
    assert(bits_of(v, 8) =~= seq![
        v / 128 % 2 == 1,
        v / 64 % 2 == 1,
        v / 32 % 2 == 1,
        v / 16 % 2 == 1,
        v / 8 % 2 == 1,
        v / 4 % 2 == 1,
        v / 2 % 2 == 1,
        v % 2 == 1,
    ]) by {
        reveal_with_fuel(bits_of, 9);
    }
}

/// Append the eight bits of one byte, most significant first.
fn push_byte_bits(out: &mut Vec<bool>, b: u8)
    ensures
        final(out)@ == old(out)@ + bits_of(b as nat, 8),
{
    out.push(b / 128 % 2 == 1);
    out.push(b / 64 % 2 == 1);
    out.push(b / 32 % 2 == 1);
    out.push(b / 16 % 2 == 1);
    out.push(b / 8 % 2 == 1);
    out.push(b / 4 % 2 == 1);
    out.push(b / 2 % 2 == 1);
    out.push(b % 2 == 1);
    proof {
        lemma_bits_of_byte(b as nat);
        assert(out@ =~= old(out)@ + bits_of(b as nat, 8));
    }
}

/// Unpack a byte string into the string of all its bits, most-significant
/// bit of each byte first.
pub fn unpack(bytes: &Vec<u8>) -> (r: Vec<bool>)
    ensures
        r@ == unpack_bytes(bytes@),
        r@.len() == 8 * bytes@.len(),
{
    let mut out: Vec<bool> = Vec::new();
    let mut i: usize = 0;
    proof {
        assert(bytes@.take(0) =~= Seq::<u8>::empty());
    }
    while i < bytes.len()
        invariant
            i <= bytes@.len(),
            out@ == unpack_bytes(bytes@.take(i as int)),
        decreases bytes@.len() - i,
    {
        push_byte_bits(&mut out, bytes[i]);
        proof {
            assert(bytes@.take(i + 1).drop_last() =~= bytes@.take(i as int));
            assert(bytes@.take(i + 1).last() == bytes@[i as int]);
        }
        i = i + 1;
    }
    proof {
        assert(bytes@.take(bytes@.len() as int) =~= bytes@);
        lemma_unpack_len(bytes@);
    }
    out
}

/// Pack a bit string into bytes, eight bits per byte most-significant bit
/// first, zero-padding the unused low-order bits of the final byte.
pub fn pack(bits: &Vec<bool>) -> (r: Vec<u8>)
    ensures
        r@ == pack_bits(bits@),
{
    let mut out: Vec<u8> = Vec::new();
    let mut acc: u8 = 0;
    let mut count: usize = 0;
    let mut i: usize = 0;
    proof {
        assert(bits@.skip(0) =~= bits@);
        assert(bits@.subrange(0, 0) =~= Seq::<bool>::empty());
        assert(Seq::<u8>::empty() + pack_bits(bits@) =~= pack_bits(bits@));
    }
    while i < bits.len()
        invariant
            count <= 7,
            count <= i <= bits@.len(),
            8 * out@.len() + count == i,
            acc as nat == bits_val(bits@.subrange(i - count, i as int)),
            pack_bits(bits@) == out@ + pack_bits(bits@.skip(i - count)),
        decreases bits@.len() - i,
    {
        let ghost start = i - count;
        let bit = bits[i];
        proof {
            lemma_bits_val_bound(bits@.subrange(start, i as int));
            lemma_two_to_bounds(count as nat);
            assert(bits@.subrange(start, i + 1).drop_last() =~= bits@.subrange(start, i as int));
            assert(bits@.subrange(start, i + 1).last() == bits@[i as int]);
        }
        acc = acc * 2 + if bit {
            1
        } else {
            0
        };
        count = count + 1;
        if count == 8 {
            proof {
                let chunk = bits@.subrange(start, i + 1);
                lemma_bits_val_bound(chunk);
                lemma_two_to_bounds(8);
                assert(bits@.skip(start).take(8) =~= chunk);
                assert(bits@.skip(start).skip(8) =~= bits@.skip(start + 8));
                assert(bits@.skip(start).len() >= 8);
            }
            out.push(acc);
            acc = 0;
            count = 0;
        }
        i = i + 1;
    }
    let ghost start = i - count;
    if count > 0 {
        let ghost chunk = bits@.subrange(start, i as int);
        let mut j: usize = count;
        while j < 8
            invariant
                count <= j <= 8,
                1 <= count <= 7,
                0 <= start,
                i - count == start,
                i == bits@.len(),
                chunk == bits@.subrange(start, i as int),
                chunk.len() == count,
                acc as nat == bits_val(chunk + zero_bits((j - count) as nat)),
            decreases 8 - j,
        {
            proof {
                let padded = chunk + zero_bits((j - count) as nat);
                lemma_bits_val_bound(padded);
                lemma_two_to_bounds(padded.len());
                assert(padded.len() == j);
                assert((chunk + zero_bits((j + 1 - count) as nat)).drop_last() =~= padded);
                assert((chunk + zero_bits((j + 1 - count) as nat)).last() == false);
            }
            acc = acc * 2;
            j = j + 1;
        }
        proof {
            assert(bits@.skip(start) =~= chunk);
            assert(chunk.len() == count);
            assert(pad8(chunk) =~= chunk + zero_bits((8 - count) as nat));
            lemma_bits_val_bound(pad8(chunk));
            lemma_two_to_bounds(8);
            assert(pack_bits(bits@.skip(start)) =~= seq![bits_val(pad8(chunk)) as u8]);
        }
        out.push(acc);
        proof {
            assert(out@ =~= pack_bits(bits@));
        }
    } else {
        proof {
            assert(bits@.skip(start) =~= Seq::<bool>::empty());
            assert(pack_bits(bits@.skip(start)) =~= Seq::<u8>::empty());
            assert(out@ =~= pack_bits(bits@));
        }
    }
    out
}

/// How many trailing zero bits a byte has, looking at no more than `k` of
/// its low-order bits.
pub open spec fn low_zero_bits(v: nat, k: nat) -> nat
    decreases k,
{
    if k == 0 {
        0
    } else if v % 2 == 1 {
        0
    } else {
        1 + low_zero_bits(v / 2, (k - 1) as nat)
    }
}

pub proof fn lemma_low_zero_bits_le(v: nat, k: nat)
    ensures
        low_zero_bits(v, k) <= k,
    decreases k,
{
    if k > 0 && v % 2 == 0 {
        lemma_low_zero_bits_le(v / 2, (k - 1) as nat);
    }
}

/// Recover a payload's bit length from the convention that the final byte's
/// unused low-order bits are zero: all bits of the full bytes, plus the bits
/// of the last byte above its trailing zero run.  An empty payload has zero
/// bits.
pub fn get_encoded_bit_length(encoded: &Vec<u8>) -> (r: usize)
    requires
        encoded@.len() * 8 <= usize::MAX,
    ensures
        encoded@.len() == 0 ==> r == 0,
        encoded@.len() > 0 ==> r == (encoded@.len() - 1) * 8 + 8 - low_zero_bits(
            encoded@.last() as nat,
            8,
        ),
{
    if encoded.len() == 0 {
        return 0;
    }
    let last = encoded[encoded.len() - 1];
    let mut v: u8 = last;
    let mut z: usize = 0;
    while z < 8 && v % 2 == 0
        invariant
            z <= 8,
            low_zero_bits(last as nat, 8) == z + low_zero_bits(v as nat, (8 - z) as nat),
        decreases 8 - z,
    {
        v = v / 2;
        z = z + 1;
    }
    proof {
        assert(low_zero_bits(v as nat, (8 - z) as nat) == 0);
        lemma_low_zero_bits_le(last as nat, 8);
    }
    (encoded.len() - 1) * 8 + (8 - z)
}

} // verus!
