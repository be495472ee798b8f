//! The scrambling of KiriKiri text files ("ksd"): the header that names the
//! mode, and the two reversible byte transformations of modes 0 and 1.

use vstd::prelude::*;

verus! {

/// Swaps each even bit of a byte with the odd bit above it.
pub open spec fn swap_bit_pairs(b: u8) -> u8 {
    (((b & 0xAA) >> 1) | ((b & 0x55) << 1)) as u8
}

/// The result of the mode 1 transformation: every byte of the whole two-byte
/// chunks has its bit pairs swapped; a trailing odd byte is left as it is.
pub open spec fn mode1_transformed(data: Seq<u8>) -> Seq<u8> {
    Seq::new(
        data.len(),
        |i: int|
            if i < data.len() - data.len() % 2 {
                swap_bit_pairs(data[i])
            } else {
                data[i]
            },
    )
}

proof fn lemma_swap_chunk(b0: u8, b1: u8)
    ensures
        ({
            let c: u16 = (b0 as u16) | ((b1 as u16) << 8u16);
            let s: u16 = ((c & 0xAAAA) >> 1u16) | ((c & 0x5555) << 1u16);
            &&& (s as u8) == swap_bit_pairs(b0)
            &&& ((s >> 8u16) as u8) == swap_bit_pairs(b1)
        }),
{
    assert({
        let c: u16 = (b0 as u16) | ((b1 as u16) << 8u16);
        let s: u16 = ((c & 0xAAAA) >> 1u16) | ((c & 0x5555) << 1u16);
        &&& (s as u8) == (((b0 & 0xAA) >> 1u8) | ((b0 & 0x55) << 1u8)) as u8
        &&& ((s >> 8u16) as u8) == (((b1 & 0xAA) >> 1u8) | ((b1 & 0x55) << 1u8)) as u8
    }) by (bit_vector);
}

fn transform_mode1(data: &mut [u8])
    ensures
        final(data)@ == mode1_transformed(old(data)@),
{
    let n = data.len();
    let mut i: usize = 0;
    while i + 1 < n
        invariant
            n == data@.len(),
            n == old(data)@.len(),
            i % 2 == 0,
            i <= n,
            forall|j: int|
                0 <= j < n ==> #[trigger] data@[j] == (if j < i {
                    swap_bit_pairs(old(data)@[j])
                } else {
                    old(data)@[j]
                }),
        decreases n - i,
    {
        let b0 = data[i];
        let b1 = data[i + 1];
        let c: u16 = (b0 as u16) | ((b1 as u16) << 8u16);
        let scrambled: u16 = ((c & 0xAAAA) >> 1u16) | ((c & 0x5555) << 1u16);
        proof {
            lemma_swap_chunk(b0, b1);
        }
        data[i] = scrambled as u8;
        data[i + 1] = (scrambled >> 8u16) as u8;
        i = i + 2;
    }
    assert(data@ =~= mode1_transformed(old(data)@));
}

/// Scrambles text in mode 1: the bit pairs of every byte of the whole two-byte
/// chunks are swapped.
pub fn scramble_mode1(data: &mut [u8])
    ensures
        final(data)@ == mode1_transformed(old(data)@),
{
    transform_mode1(data);
}

/// Descrambles text in mode 1, which undoes `scramble_mode1`.
pub fn descramble_mode1(data: &mut [u8])
    ensures
        final(data)@ == mode1_transformed(old(data)@),
{
    transform_mode1(data);
}

/// Mode 1 undoes itself: descrambling scrambled data gives the data back.
pub proof fn lemma_mode1_roundtrip(data: Seq<u8>)
    ensures
        mode1_transformed(mode1_transformed(data)) == data,
{
    assert forall|b: u8| #[trigger] swap_bit_pairs(swap_bit_pairs(b)) == b by {
        assert((((((b & 0xAA) >> 1u8) | ((b & 0x55) << 1u8)) as u8 & 0xAA) >> 1u8 | (((((b & 0xAA)
            >> 1u8) | ((b & 0x55) << 1u8)) as u8 & 0x55) << 1u8)) as u8 == b) by (bit_vector);
    }
    assert(mode1_transformed(mode1_transformed(data)) =~= data);
}

/// A pair of bytes that mode 0 leaves as it is: a UTF-16 code unit below 0x20.
pub open spec fn mode0_kept(a: u8, b: u8) -> bool {
    b == 0 && a < 0x20
}

/// Mode 0 scrambling of one two-byte chunk.
pub open spec fn mode0_scramble_pair(a: u8, b: u8) -> (u8, u8) {
    if mode0_kept(a, b) {
        (a, b)
    } else {
        let a1 = a ^ 1u8;
        (a1, b ^ (a1 & 0xFEu8))
    }
}

/// Mode 0 descrambling of one two-byte chunk.
pub open spec fn mode0_descramble_pair(a: u8, b: u8) -> (u8, u8) {
    if mode0_kept(a, b) {
        (a, b)
    } else {
        (a ^ 1u8, b ^ (a & 0xFEu8))
    }
}

/// Applies a transformation of two-byte chunks to every whole chunk of `data`;
/// a trailing odd byte is left as it is.
pub open spec fn map_pairs(data: Seq<u8>, f: spec_fn(u8, u8) -> (u8, u8)) -> Seq<u8> {
    Seq::new(
        data.len(),
        |i: int|
            if i >= data.len() - data.len() % 2 {
                data[i]
            } else if i % 2 == 0 {
                f(data[i], data[i + 1]).0
            } else {
                f(data[i - 1], data[i]).1
            },
    )
}

/// The result of mode 0 scrambling.
pub open spec fn mode0_scrambled(data: Seq<u8>) -> Seq<u8> {
    map_pairs(data, |a: u8, b: u8| mode0_scramble_pair(a, b))
}

/// The result of mode 0 descrambling.
pub open spec fn mode0_descrambled(data: Seq<u8>) -> Seq<u8> {
    map_pairs(data, |a: u8, b: u8| mode0_descramble_pair(a, b))
}

/// Scrambles text in mode 0. Every two-byte chunk that is not a code unit
/// below 0x20 has its low bit of the first byte flipped, and then its second
/// byte XORed with the new first byte without its low bit.
pub fn scramble_mode0(data: &mut [u8])
    requires
        old(data)@.len() % 2 == 0,
    ensures
        final(data)@ == mode0_scrambled(old(data)@),
{
    let n = data.len();
    let mut i: usize = 0;
    while i < n
        invariant
            n == data@.len(),
            n == old(data)@.len(),
            n % 2 == 0,
            i % 2 == 0,
            i <= n,
            forall|j: int|
                0 <= j < n ==> #[trigger] data@[j] == (if j < i {
                    mode0_scrambled(old(data)@)[j]
                } else {
                    old(data)@[j]
                }),
        decreases n - i,
    {
        let c0 = data[i];
        let c1 = data[i + 1];
        if !(c1 == 0 && c0 < 0x20) {
            let a1 = c0 ^ 1u8;
            data[i] = a1;
            data[i + 1] = c1 ^ (a1 & 0xFEu8);
        }
        i = i + 2;
    }
    assert(data@ =~= mode0_scrambled(old(data)@));
}

/// Descrambles text in mode 0: the steps of `scramble_mode0` in reverse on
/// every whole two-byte chunk; a trailing odd byte is left as it is.
pub fn descramble_mode0(data: &mut [u8])
    ensures
        final(data)@ == mode0_descrambled(old(data)@),
{
    let n = data.len();
    let mut i: usize = 0;
    while i + 1 < n
        invariant
            n == data@.len(),
            n == old(data)@.len(),
            i % 2 == 0,
            i <= n,
            forall|j: int|
                0 <= j < n ==> #[trigger] data@[j] == (if j < i {
                    mode0_descrambled(old(data)@)[j]
                } else {
                    old(data)@[j]
                }),
        decreases n - i,
    {
        let c0 = data[i];
        let c1 = data[i + 1];
        if !(c1 == 0 && c0 < 0x20) {
            data[i + 1] = c1 ^ (c0 & 0xFEu8);
            data[i] = c0 ^ 1u8;
        }
        i = i + 2;
    }
    assert(data@ =~= mode0_descrambled(old(data)@));
}

/// A chunk that mode 0 can take back: it is kept as it is, or its scrambled
/// form is not one that mode 0 keeps.
pub open spec fn mode0_reversible_pair(a: u8, b: u8) -> bool {
    mode0_kept(a, b) || !mode0_kept(mode0_scramble_pair(a, b).0, mode0_scramble_pair(a, b).1)
}

/// Every whole chunk of `data` can be taken back by mode 0.
pub open spec fn mode0_reversible(data: Seq<u8>) -> bool {
    forall|i: int|
        0 <= i < data.len() - 1 && i % 2 == 0 ==> #[trigger] mode0_reversible_pair(
            data[i],
            data[i + 1],
        )
}

proof fn lemma_mode0_pair_roundtrip(a: u8, b: u8)
    requires
        mode0_reversible_pair(a, b),
    ensures
        mode0_descramble_pair(mode0_scramble_pair(a, b).0, mode0_scramble_pair(a, b).1) == (a, b),
{
    if !mode0_kept(a, b) {
        assert((b ^ ((a ^ 1u8) & 0xFEu8)) ^ ((a ^ 1u8) & 0xFEu8) == b && (a ^ 1u8) ^ 1u8 == a)
            by (bit_vector);
    }
}

/// Descrambling scrambled text in mode 0 gives the text back, wherever no
/// scrambled chunk falls among those that mode 0 keeps as they are.
pub proof fn lemma_mode0_roundtrip(data: Seq<u8>)
    requires
        data.len() % 2 == 0,
        mode0_reversible(data),
    ensures
        mode0_descrambled(mode0_scrambled(data)) == data,
{
    let s = mode0_scrambled(data);
    assert forall|i: int| 0 <= i < data.len() implies #[trigger] mode0_descrambled(s)[i]
        == data[i] by {
        let k = i - i % 2;
        assert(mode0_reversible_pair(data[k], data[k + 1]));
        lemma_mode0_pair_roundtrip(data[k], data[k + 1]);
    }
    assert(mode0_descrambled(s) =~= data);
}


/// Bit `k` of a byte.
pub open spec fn bit_of(b: u8, k: u8) -> bool {
    (b >> k) & 1u8 == 1u8
}

/// Mode 1 swaps each even bit with the odd bit above it: bit `k` of every
/// byte of the whole two-byte chunks of the result is bit `k ^ 1` of the same
/// byte of the data; a trailing odd byte is left as it is. The length is
/// kept.
pub proof fn lemma_mode1_bits(data: Seq<u8>)
    ensures
        mode1_transformed(data).len() == data.len(),
        forall|i: int, k: u8|
            0 <= i < data.len() - data.len() % 2 && k < 8 ==> #[trigger] bit_of(
                mode1_transformed(data)[i],
                k,
            ) == bit_of(data[i], k ^ 1u8),
        data.len() % 2 == 1 ==> mode1_transformed(data)[data.len() - 1] == data[data.len() - 1],
{
    assert forall|i: int, k: u8|
        0 <= i < data.len() - data.len() % 2 && k < 8 implies #[trigger] bit_of(
        mode1_transformed(data)[i],
        k,
    ) == bit_of(data[i], k ^ 1u8) by {
        let b = data[i];
        assert(k < 8 ==> ((((((b & 0xAA) >> 1u8) | ((b & 0x55) << 1u8)) as u8) >> k) & 1u8 == 1u8)
            == ((b >> (k ^ 1u8)) & 1u8 == 1u8)) by (bit_vector);
    }
}

/// Mode 0 keeps a two-byte chunk as it is exactly when it is a UTF-16 code
/// unit below 0x20 (a control character: second byte 0, first byte below
/// 0x20); every other chunk, the space 0x0020 among them, changes. A changed
/// chunk has the low bit of its first byte flipped and its second byte XORed
/// with the new first byte without its low bit; descrambling takes such a
/// chunk back by the same steps in reverse. A trailing odd byte is left as it
/// is, and the length is kept.
pub proof fn lemma_mode0_chunks(data: Seq<u8>)
    ensures
        mode0_scrambled(data).len() == data.len(),
        mode0_descrambled(data).len() == data.len(),
        forall|i: int|
            0 <= i && i + 1 < data.len() && i % 2 == 0 ==> {
                let a = data[i];
                let b = data[i + 1];
                let s0 = #[trigger] mode0_scrambled(data)[i];
                let s1 = mode0_scrambled(data)[i + 1];
                &&& (s0 == a && s1 == b) <==> (b == 0 && a < 0x20)
                &&& !(b == 0 && a < 0x20) ==> s0 == a ^ 1u8 && s1 == b ^ (s0 & 0xFEu8)
            },
        forall|i: int|
            0 <= i && i + 1 < data.len() && i % 2 == 0 ==> {
                let a = data[i];
                let b = data[i + 1];
                let d0 = #[trigger] mode0_descrambled(data)[i];
                let d1 = mode0_descrambled(data)[i + 1];
                &&& (d0 == a && d1 == b) <==> (b == 0 && a < 0x20)
                &&& !(b == 0 && a < 0x20) ==> d0 == a ^ 1u8 && d1 == b ^ (a & 0xFEu8)
            },
        data.len() % 2 == 1 ==> mode0_scrambled(data)[data.len() - 1] == data[data.len() - 1]
            && mode0_descrambled(data)[data.len() - 1] == data[data.len() - 1],
{
    assert forall|i: int| 0 <= i && i + 1 < data.len() && i % 2 == 0 implies {
        let a = data[i];
        let b = data[i + 1];
        let s0 = #[trigger] mode0_scrambled(data)[i];
        let s1 = mode0_scrambled(data)[i + 1];
        &&& (s0 == a && s1 == b) <==> (b == 0 && a < 0x20)
        &&& !(b == 0 && a < 0x20) ==> s0 == a ^ 1u8 && s1 == b ^ (s0 & 0xFEu8)
    } by {
        let a = data[i];
        assert(a ^ 1u8 != a) by (bit_vector);
        assert(i < data.len() - data.len() % 2);
    }
    assert forall|i: int| 0 <= i && i + 1 < data.len() && i % 2 == 0 implies {
        let a = data[i];
        let b = data[i + 1];
        let d0 = #[trigger] mode0_descrambled(data)[i];
        let d1 = mode0_descrambled(data)[i + 1];
        &&& (d0 == a && d1 == b) <==> (b == 0 && a < 0x20)
        &&& !(b == 0 && a < 0x20) ==> d0 == a ^ 1u8 && d1 == b ^ (a & 0xFEu8)
    } by {
        let a = data[i];
        assert(a ^ 1u8 != a) by (bit_vector);
        assert(i < data.len() - data.len() % 2);
    }
}

} // verus!
