//! The bar pattern of the simplified Code-128 style barcode: a start
//! code, eleven bars per byte of the data's UTF-8 encoding, a stop code.
//! Laying the bars out on the page is the caller's part.
use vstd::prelude::*;
use vstd::string::StrSliceExecFns;
use vstd::utf8::encode_utf8;

verus! {

/// The bars that open every code (1 = dark).
pub open spec fn start_code() -> Seq<u8> {
    seq![1u8, 1, 0, 1, 0, 0, 1, 0, 0, 0, 0]
}

/// The bars that close every code (1 = dark).
pub open spec fn stop_code() -> Seq<u8> {
    seq![1u8, 1, 0, 0, 0, 1, 1, 1, 0, 1, 0, 1, 1]
}

/// `2^k` for `k < 7`.
pub open spec fn bit_weight(k: int) -> nat {
    if k == 0 { 1 } else if k == 1 { 2 } else if k == 2 { 4 } else if k == 3 { 8 }
    else if k == 4 { 16 } else if k == 5 { 32 } else { 64 }
}

/// The eleven bars of one byte: with `v = b % 100`, bar `i` is bit
/// `i % 7` of `v`.
pub open spec fn byte_pattern(b: u8) -> Seq<u8> {
    Seq::new(11, |i: int| (((b % 100) as nat / bit_weight(i % 7)) % 2) as u8)
}

/// The bars of a sequence of bytes, in order.
pub open spec fn bytes_pattern(bs: Seq<u8>) -> Seq<u8>
    decreases bs.len(),
{
    if bs.len() == 0 {
        Seq::empty()
    } else {
        bytes_pattern(bs.drop_last()) + byte_pattern(bs.last())
    }
}

/// The bars of the code for `data`.
pub open spec fn code_bits(data: Seq<char>) -> Seq<u8> {
    start_code() + bytes_pattern(encode_utf8(data)) + stop_code()
}

fn weight(k: usize) -> (w: usize)
    requires
        k < 7,
    ensures
        w == bit_weight(k as int),
{
    if k == 0 { 1 } else if k == 1 { 2 } else if k == 2 { 4 } else if k == 3 { 8 }
    else if k == 4 { 16 } else if k == 5 { 32 } else { 64 }
}

fn push_all(v: &mut Vec<u8>, items: &[u8])
    ensures
        final(v)@ == old(v)@ + items@,
{
    let n = items.len();
    let mut i: usize = 0;
    while i < n
        invariant
            i <= n,
            n == items@.len(),
            v@ == old(v)@ + items@.take(i as int),
        decreases n - i,
    {
        v.push(items[i]);
        assert(items@.take(i + 1) =~= items@.take(i as int).push(items@[i as int]));
        i += 1;
    }
    assert(items@.take(n as int) =~= items@);
}

/// The bars (1 = dark, 0 = light) of the barcode for `data`.
pub fn barcode_bits(data: &str) -> (r: Vec<u8>)
    ensures
        r@ == code_bits(data@),
{
    let mut bits: Vec<u8> = Vec::new();
    let start: [u8; 11] = [1, 1, 0, 1, 0, 0, 1, 0, 0, 0, 0];
    push_all(&mut bits, &start);
    assert(bits@ =~= start_code());
    let bytes = data.as_bytes_vec();
    let n = bytes.len();
    let mut j: usize = 0;
    assert(bytes@.take(0) =~= Seq::<u8>::empty());
    while j < n
        invariant
            j <= n,
            n == bytes@.len(),
            bytes@ == encode_utf8(data@),
            bits@ == start_code() + bytes_pattern(bytes@.take(j as int)),
        decreases n - j,
    {
        let ghost before = bits@;
        let val: usize = (bytes[j] % 100) as usize;
        let mut bit: usize = 0;
        while bit < 11
            invariant
                bit <= 11,
                val == (bytes@[j as int] % 100) as usize,
                bits@ == before + byte_pattern(bytes@[j as int]).take(bit as int),
            decreases 11 - bit,
        {
            let w = weight(bit % 7);
            bits.push(((val / w) % 2) as u8);
            assert(byte_pattern(bytes@[j as int]).take(bit + 1)
                =~= byte_pattern(bytes@[j as int]).take(bit as int).push(byte_pattern(bytes@[j as int])[bit as int]));
            bit += 1;
        }
        proof {
            assert(byte_pattern(bytes@[j as int]).take(11) =~= byte_pattern(bytes@[j as int]));
            assert(bytes@.take(j + 1).drop_last() =~= bytes@.take(j as int));
            assert(bytes@.take(j + 1).last() == bytes@[j as int]);
            assert(bits@ =~= start_code() + bytes_pattern(bytes@.take(j + 1)));
        }
        j += 1;
    }
    assert(bytes@.take(n as int) =~= bytes@);
    let stop: [u8; 13] = [1, 1, 0, 0, 0, 1, 1, 1, 0, 1, 0, 1, 1];
    push_all(&mut bits, &stop);
    assert(stop@ =~= stop_code());
    bits
}

} // verus!
