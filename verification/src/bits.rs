//! Sizes and masks of the operation codes that a channel packs into `u32` words,
//! and the JavaScript snippets that pick bit ranges out of such words.
use vstd::prelude::*;
use vstd::arithmetic::power2::{pow2, lemma2_to64};
use vstd::bits::{lemma_u32_shl_is_mul, lemma_u64_shl_is_mul};
use crate::text::{decimal, push_decimal};

verus! {

/// The `u32` whose low `n` bits are set (all 32 of them once `n >= 32`).
pub open spec fn low_mask_u32(n: nat) -> u32 {
    if n >= 32 { 0xffff_ffffu32 } else { (pow2(n) - 1) as u32 }
}

/// Number of codes of `op_size` bits that one `u32` word holds.
pub open spec fn reads_per_word(op_size: nat) -> nat
    recommends op_size > 0,
{
    ((32 + (op_size - 1)) / op_size as int) as nat
}

/// Bits of each operation code of a channel with `function_count`
/// functions: every operation takes one byte, four to a `u32` word. The
/// codes `0..=function_count` (one per function and one that ends a message)
/// must fit in that byte; more functions are refused.
pub fn function_discriminant_size_bits(function_count: u32) -> (bits: usize)
    requires
        function_count <= 255,
    ensures
        bits == 8,
{
    8
}

/// The `u32` with the low `n` bits set, as `(1 << n) - 1` computed in 64 bits
/// and truncated to 32 (so every bit is set once `n >= 32`). A shift by 64 or
/// more would overflow, which `requires` leaves out.
pub fn with_n_1_bits(n: usize) -> (mask: u32)
    requires
        n < 64,
    ensures
        mask == low_mask_u32(n as nat),
{
    let shifted: u64 = 1u64 << n as u64;
    proof {
        vstd::bits::lemma_u64_pow2_no_overflow(n as nat);
        lemma_u64_shl_is_mul(1, n as u64);
        vstd::arithmetic::power2::lemma_pow2_pos(n as nat);
    }
    let full = shifted.saturating_sub(1);
    assert(full == pow2(n as nat) - 1);
    let m = n as u64;
    if n >= 32 {
        assert(((1u64 << m) - 1) as u32 == 0xffff_ffffu32) by (bit_vector)
            requires
                32 <= m < 64,
        ;
    } else {
        assert(((1u64 << m) - 1) as u32 == (1u64 << m) - 1) by (bit_vector)
            requires
                m < 32,
        ;
    }
    full as u32
}

/// The JavaScript expression that `select_bits_js_inner` writes: `from` shifted
/// right (unsigned) by `pos`, masked to `len` bits unless the bits above
/// `pos + len` are already past the top of a `size`-bit value.
pub open spec fn select_bits_js(from: Seq<char>, size: nat, pos: nat, len: nat) -> Seq<char> {
    let shifted = if pos != 0 { from + ">>>"@ + decimal(pos) } else { from };
    if pos + len < size {
        if pos == 0 {
            shifted + "&"@ + decimal(low_mask_u32(len) as nat)
        } else {
            "("@ + shifted + ")&"@ + decimal(low_mask_u32(len) as nat)
        }
    } else {
        shifted
    }
}

/// JavaScript that selects bits `pos..pos + len` of the `size`-bit value held
/// in the variable `from`. A range that covers the whole value must start at
/// bit 0 and a range may not be wider than the value: both are refused, as is a
/// mask of 64 bits or more.
pub fn select_bits_js_inner(from: &str, size: usize, pos: usize, len: usize) -> (js: String)
    requires
        len <= size,
        len == size ==> pos == 0,
        pos + len <= usize::MAX,
        pos + len < size ==> len < 64,
    ensures
        js@ == select_bits_js(from@, size as nat, pos as nat, len as nat),
{
    let mut s = String::new();
    if pos != 0 {
        s.append(from);
        s.append(">>>");
        push_decimal(&mut s, pos as u64);
    } else {
        s.append(from);
    }
    if pos + len < size {
        let mask = with_n_1_bits(len);
        if pos == 0 {
            s.append("&");
            push_decimal(&mut s, mask as u64);
        } else {
            let mut wrapped = String::new();
            wrapped.append("(");
            wrapped.append(s.as_str());
            wrapped.append(")&");
            push_decimal(&mut wrapped, mask as u64);
            s = wrapped;
        }
    }
    s
}

/// Every code of a channel with `function_count` functions, `0` up to the
/// fill code `function_count + 1`, fits in the byte of a code, and four codes
/// fill a word.
pub proof fn lemma_codes_fit(function_count: nat)
    requires
        function_count + 2 <= 256,
    ensures
        function_count + 1 < pow2(8),
        reads_per_word(8) * 8 == 32,
        low_mask_u32(8) == 255,
{
    lemma2_to64();
    assert(reads_per_word(8) == 4);
}

/// The mask of `n` low bits keeps exactly the low `n` bits of a `u32`: the
/// value modulo `2^n`, or the whole value once `n >= 32`.
pub proof fn lemma_mask_keeps_low_bits(x: u32, n: nat)
    ensures
        n < 32 ==> x & low_mask_u32(n) == x % (pow2(n) as u32),
        n >= 32 ==> x & low_mask_u32(n) == x,
{
    if n < 32 {
        vstd::bits::lemma_u32_low_bits_mask_is_mod(x, n);
        vstd::bits::lemma_u32_pow2_no_overflow(n);
        assert(low_mask_u32(n) == vstd::bits::low_bits_mask(n) as u32);
    } else {
        assert(x & 0xffff_ffffu32 == x) by (bit_vector);
    }
}

/// The expression starts from `from`: shifted right by `pos` when `pos != 0`
/// (in brackets when a mask follows), untouched when `pos == 0`.
pub proof fn lemma_select_bits_shifts_by_pos(from: Seq<char>, size: nat, pos: nat, len: nat)
    ensures
        ({
            let js = select_bits_js(from, size, pos, len);
            let shifted = from + ">>>"@ + decimal(pos);
            &&& pos == 0 ==> js.subrange(0, from.len() as int) == from
            &&& pos != 0 && pos + len >= size ==> js == shifted
            &&& pos != 0 && pos + len < size ==> js.subrange(0, shifted.len() + 2int) == "("@
                + shifted + ")"@
        }),
{
    let js = select_bits_js(from, size, pos, len);
    let shifted = from + ">>>"@ + decimal(pos);
    reveal_strlit(")&");
    reveal_strlit(")");
    reveal_strlit("(");
    reveal_strlit("&");
    if pos == 0 {
        assert(js.subrange(0, from.len() as int) =~= from);
    } else if pos + len < size {
        assert(js.subrange(0, shifted.len() + 2int) =~= "("@ + shifted + ")"@);
    }
}

/// Whenever the bits asked for end below the top of the value, the
/// expression ends with the mask of `len` low bits, `&` and `2^len - 1` in
/// decimal (every bit of a `u32` once `len >= 32`): a range that stops short
/// of the top is always masked.
pub proof fn lemma_inner_range_is_masked(from: Seq<char>, size: nat, pos: nat, len: nat)
    requires
        pos + len < size,
    ensures
        ({
            let js = select_bits_js(from, size, pos, len);
            let mask: nat = if len < 32 { (pow2(len) - 1) as nat } else { 0xffff_ffff };
            let tail = "&"@ + decimal(mask);
            &&& tail.len() <= js.len()
            &&& js.subrange(js.len() - tail.len(), js.len() as int) == tail
        }),
{
    lemma2_to64();
    if len < 32 {
        vstd::arithmetic::power2::lemma_pow2_pos(len);
        vstd::bits::lemma_u32_pow2_no_overflow(len);
        assert(low_mask_u32(len) as nat == (pow2(len) - 1) as nat);
    }
    let js = select_bits_js(from, size, pos, len);
    let mask: nat = if len < 32 { (pow2(len) - 1) as nat } else { 0xffff_ffff };
    let d = decimal(mask);
    assert(low_mask_u32(len) as nat == mask);
    let shifted = if pos != 0 { from + ">>>"@ + decimal(pos) } else { from };
    let tail = "&"@ + d;
    if pos == 0 {
        assert(js =~= shifted + tail);
    } else {
        assert(js =~= ("("@ + shifted + ")"@) + tail) by {
            reveal_strlit(")&");
            reveal_strlit(")");
            reveal_strlit("&");
            assert(")&"@ =~= ")"@ + "&"@);
        }
    }
    assert(js.subrange(js.len() - tail.len(), js.len() as int) =~= tail);
}

/// Where `select_bits_js` leaves the mask out (`pos + len >= size`), the
/// shift alone already keeps only the `len` bits asked for: on a value of
/// `size` bits, masking the shifted value changes nothing.
pub proof fn lemma_omitted_mask_keeps_value(x: u32, size: u32, pos: u32, len: u32)
    requires
        size <= 32,
        pos < 32,
        len <= size,
        pos + len >= size,
        (x as nat) < pow2(size as nat),
    ensures
        (x >> pos) & low_mask_u32(len as nat) == x >> pos,
{
    lemma2_to64();
    vstd::arithmetic::power2::lemma_pow2_pos(size as nat);
    if size < 32 {
        lemma_u32_shl_is_mul(1, size);
        assert(x < (1u32 << size));
    }
    if len < 32 {
        lemma_u32_shl_is_mul(1, len);
        assert(low_mask_u32(len as nat) == (1u32 << len) - 1);
    }
    let m: u32 = low_mask_u32(len as nat);
    assert((x >> pos) & m == x >> pos) by (bit_vector)
        requires
            size <= 32,
            pos < 32,
            len <= size,
            pos + len >= size,
            size < 32 ==> x < (1u32 << size),
            len < 32 ==> m == (1u32 << len) - 1,
            len >= 32 ==> m == 0xffff_ffffu32,
    ;
}

} // verus!
