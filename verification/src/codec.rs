//! Byte-level building blocks of the writer: UTF-8 text, decimal numerals,
//! fixed-width integers in either byte order, and sequence concatenation.
use vstd::prelude::*;

verus! {

/// The bytes a UTF-8 string contributes to the output stream.
pub open spec fn str_bytes(s: Seq<char>) -> Seq<u8> {
    vstd::utf8::encode_utf8(s)
}

/// Concatenation of a sequence of byte sequences, in order.
pub open spec fn concat_bytes(ss: Seq<Seq<u8>>) -> Seq<u8>
    decreases ss.len(),
{
    if ss.len() == 0 {
        Seq::empty()
    } else {
        concat_bytes(ss.drop_last()) + ss.last()
    }
}

/// Chunks joined by a single ASCII space between neighbours.
pub open spec fn join_space(ss: Seq<Seq<u8>>) -> Seq<u8>
    decreases ss.len(),
{
    if ss.len() == 0 {
        Seq::empty()
    } else if ss.len() == 1 {
        ss[0]
    } else {
        join_space(ss.drop_last()) + seq![32u8] + ss.last()
    }
}

pub proof fn lemma_concat_bytes_prefix(ss: Seq<Seq<u8>>, i: int)
    requires
        0 <= i < ss.len(),
    ensures
        concat_bytes(ss.subrange(0, i + 1)) == concat_bytes(ss.subrange(0, i)) + ss[i],
{
    let pre = ss.subrange(0, i + 1);
    assert(pre.drop_last() =~= ss.subrange(0, i));
    assert(pre.last() == ss[i]);
}

/// Joining two non-empty chunk sequences puts one space at the seam.
pub proof fn lemma_join_space_concat(a: Seq<Seq<u8>>, b: Seq<Seq<u8>>)
    requires
        a.len() > 0,
        b.len() > 0,
    ensures
        join_space(a + b) == join_space(a) + seq![32u8] + join_space(b),
    decreases b.len(),
{
    if b.len() == 1 {
        assert((a + b).drop_last() =~= a);
        assert((a + b).last() == b[0]);
    } else {
        lemma_join_space_concat(a, b.drop_last());
        assert((a + b).drop_last() =~= a + b.drop_last());
        assert((a + b).last() == b.last());
        assert(join_space(a) + seq![32u8] + (join_space(b.drop_last()) + seq![32u8] + b.last())
            =~= (join_space(a) + seq![32u8] + join_space(b.drop_last())) + seq![32u8] + b.last());
    }
}

/// Append every byte of `s` to `out`.
pub fn push_bytes(out: &mut Vec<u8>, s: &[u8])
    ensures
        final(out)@ == old(out)@ + s@,
{
    let mut i: usize = 0;
    while i < s.len()
        invariant
            0 <= i <= s@.len(),
            out@ == old(out)@ + s@.subrange(0, i as int),
        decreases s@.len() - i,
    {
        out.push(s[i]);
        proof {
            assert(s@.subrange(0, i + 1 as int) =~= s@.subrange(0, i as int) + seq![s@[i as int]]);
        }
        i = i + 1;
    }
    proof {
        assert(s@.subrange(0, s@.len() as int) =~= s@);
    }
}

/// Append the UTF-8 bytes of `s` to `out`.
pub fn push_str(out: &mut Vec<u8>, s: &str)
    ensures
        final(out)@ == old(out)@ + str_bytes(s@),
{
    push_bytes(out, s.as_bytes());
}

/// Decimal numeral of a non-negative number, most significant digit first.
pub open spec fn dec_nat(n: nat) -> Seq<u8>
    decreases n,
{
    if n < 10 {
        seq![(48 + n) as u8]
    } else {
        dec_nat(n / 10) + seq![(48 + n % 10) as u8]
    }
}

/// Decimal numeral of an integer: a leading `-` for negative values.
pub open spec fn dec_int(v: int) -> Seq<u8> {
    if v < 0 {
        seq![45u8] + dec_nat((-v) as nat)
    } else {
        dec_nat(v as nat)
    }
}

/// Every byte of a non-negative numeral is an ASCII digit.
pub proof fn lemma_dec_nat_digits(n: nat)
    ensures
        dec_nat(n).len() > 0,
        forall|i: int| 0 <= i < dec_nat(n).len() ==> 48 <= #[trigger] dec_nat(n)[i] <= 57,
    decreases n,
{
    if n >= 10 {
        lemma_dec_nat_digits(n / 10);
    }
}

/// Numerals never hold a space, carriage return or line feed.
pub proof fn lemma_dec_int_no_space(v: int)
    ensures
        dec_int(v).len() > 0,
        forall|i: int|
            0 <= i < dec_int(v).len() ==> #[trigger] dec_int(v)[i] != 32 && dec_int(v)[i] != 13
                && dec_int(v)[i] != 10,
{
    if v < 0 {
        lemma_dec_nat_digits((-v) as nat);
    } else {
        lemma_dec_nat_digits(v as nat);
    }
}

pub fn push_dec_u64(out: &mut Vec<u8>, v: u64)
    ensures
        final(out)@ == old(out)@ + dec_nat(v as nat),
    decreases v,
{
    if v >= 10 {
        push_dec_u64(out, v / 10);
    }
    out.push((v % 10) as u8 + 48);
    proof {
        if v >= 10 {
            assert((old(out)@ + dec_nat((v / 10) as nat)) + seq![(48 + v as nat % 10) as u8]
                =~= old(out)@ + (dec_nat((v / 10) as nat) + seq![(48 + v as nat % 10) as u8]));
        }
    }
}

pub fn push_dec_i64(out: &mut Vec<u8>, v: i64)
    ensures
        final(out)@ == old(out)@ + dec_int(v as int),
{
    if v < 0 {
        out.push(45);
        let m: u64 = ((-(v + 1)) as u64) + 1;
        assert(m as nat == (-(v as int)) as nat);
        push_dec_u64(out, m);
        proof {
            assert((old(out)@ + seq![45u8]) + dec_nat(m as nat) =~= old(out)@ + (seq![45u8]
                + dec_nat(m as nat)));
        }
    } else {
        push_dec_u64(out, v as u64);
    }
}

pub fn push_dec_usize(out: &mut Vec<u8>, v: usize)
    ensures
        final(out)@ == old(out)@ + dec_nat(v as nat),
{
    push_dec_u64(out, v as u64);
}

/// The two bytes of `v`, most significant first when `be` is set.
pub open spec fn u16_bytes(v: u16, be: bool) -> Seq<u8> {
    if be {
        seq![((v >> 8) & 0xff) as u8, (v & 0xff) as u8]
    } else {
        seq![(v & 0xff) as u8, ((v >> 8) & 0xff) as u8]
    }
}

pub open spec fn u32_bytes(v: u32, be: bool) -> Seq<u8> {
    if be {
        seq![
            ((v >> 24) & 0xff) as u8,
            ((v >> 16) & 0xff) as u8,
            ((v >> 8) & 0xff) as u8,
            (v & 0xff) as u8,
        ]
    } else {
        seq![
            (v & 0xff) as u8,
            ((v >> 8) & 0xff) as u8,
            ((v >> 16) & 0xff) as u8,
            ((v >> 24) & 0xff) as u8,
        ]
    }
}

pub open spec fn u64_bytes(v: u64, be: bool) -> Seq<u8> {
    if be {
        seq![
            ((v >> 56) & 0xff) as u8,
            ((v >> 48) & 0xff) as u8,
            ((v >> 40) & 0xff) as u8,
            ((v >> 32) & 0xff) as u8,
            ((v >> 24) & 0xff) as u8,
            ((v >> 16) & 0xff) as u8,
            ((v >> 8) & 0xff) as u8,
            (v & 0xff) as u8,
        ]
    } else {
        seq![
            (v & 0xff) as u8,
            ((v >> 8) & 0xff) as u8,
            ((v >> 16) & 0xff) as u8,
            ((v >> 24) & 0xff) as u8,
            ((v >> 32) & 0xff) as u8,
            ((v >> 40) & 0xff) as u8,
            ((v >> 48) & 0xff) as u8,
            ((v >> 56) & 0xff) as u8,
        ]
    }
}

/// The value the two bytes stand for in the given byte order.
pub open spec fn u16_of_bytes(s: Seq<u8>, be: bool) -> u16
    recommends
        s.len() == 2,
{
    if be {
        ((s[0] as u16) << 8) | (s[1] as u16)
    } else {
        (s[0] as u16) | ((s[1] as u16) << 8)
    }
}

pub open spec fn u32_of_bytes(s: Seq<u8>, be: bool) -> u32
    recommends
        s.len() == 4,
{
    if be {
        ((s[0] as u32) << 24) | ((s[1] as u32) << 16) | ((s[2] as u32) << 8) | (s[3] as u32)
    } else {
        (s[0] as u32) | ((s[1] as u32) << 8) | ((s[2] as u32) << 16) | ((s[3] as u32) << 24)
    }
}

pub open spec fn u64_of_bytes(s: Seq<u8>, be: bool) -> u64
    recommends
        s.len() == 8,
{
    if be {
        ((s[0] as u64) << 56) | ((s[1] as u64) << 48) | ((s[2] as u64) << 40) | ((s[3] as u64)
            << 32) | ((s[4] as u64) << 24) | ((s[5] as u64) << 16) | ((s[6] as u64) << 8) | (
        s[7] as u64)
    } else {
        (s[0] as u64) | ((s[1] as u64) << 8) | ((s[2] as u64) << 16) | ((s[3] as u64) << 24) | ((
        s[4] as u64) << 32) | ((s[5] as u64) << 40) | ((s[6] as u64) << 48) | ((s[7] as u64) << 56)
    }
}

/// Reading the two bytes back in the same byte order restores the value.
pub proof fn lemma_u16_bytes_round_trip(v: u16, be: bool)
    ensures
        u16_bytes(v, be).len() == 2,
        u16_of_bytes(u16_bytes(v, be), be) == v,
{
    assert((((v >> 8) & 0xff) as u8 as u16) << 8 | ((v & 0xff) as u8 as u16) == v)
        by (bit_vector);
    assert(((v & 0xff) as u8 as u16) | (((v >> 8) & 0xff) as u8 as u16) << 8 == v)
        by (bit_vector);
}

pub proof fn lemma_u32_bytes_round_trip(v: u32, be: bool)
    ensures
        u32_bytes(v, be).len() == 4,
        u32_of_bytes(u32_bytes(v, be), be) == v,
{
    assert((((v >> 24) & 0xff) as u8 as u32) << 24 | (((v >> 16) & 0xff) as u8 as u32) << 16 | (((v
        >> 8) & 0xff) as u8 as u32) << 8 | ((v & 0xff) as u8 as u32) == v) by (bit_vector);
    assert(((v & 0xff) as u8 as u32) | (((v >> 8) & 0xff) as u8 as u32) << 8 | (((v >> 16)
        & 0xff) as u8 as u32) << 16 | (((v >> 24) & 0xff) as u8 as u32) << 24 == v)
        by (bit_vector);
}

pub proof fn lemma_u64_bytes_round_trip(v: u64, be: bool)
    ensures
        u64_bytes(v, be).len() == 8,
        u64_of_bytes(u64_bytes(v, be), be) == v,
{
    assert((((v >> 56) & 0xff) as u8 as u64) << 56 | (((v >> 48) & 0xff) as u8 as u64) << 48 | (((v
        >> 40) & 0xff) as u8 as u64) << 40 | (((v >> 32) & 0xff) as u8 as u64) << 32 | (((v >> 24)
        & 0xff) as u8 as u64) << 24 | (((v >> 16) & 0xff) as u8 as u64) << 16 | (((v >> 8)
        & 0xff) as u8 as u64) << 8 | ((v & 0xff) as u8 as u64) == v) by (bit_vector);
    assert(((v & 0xff) as u8 as u64) | (((v >> 8) & 0xff) as u8 as u64) << 8 | (((v >> 16)
        & 0xff) as u8 as u64) << 16 | (((v >> 24) & 0xff) as u8 as u64) << 24 | (((v >> 32)
        & 0xff) as u8 as u64) << 32 | (((v >> 40) & 0xff) as u8 as u64) << 40 | (((v >> 48)
        & 0xff) as u8 as u64) << 48 | (((v >> 56) & 0xff) as u8 as u64) << 56 == v)
        by (bit_vector);
}

pub fn push_u16_bytes(out: &mut Vec<u8>, v: u16, be: bool)
    ensures
        final(out)@ == old(out)@ + u16_bytes(v, be),
{
    proof {
        assert((v >> 8) & 0xff < 256 && v & 0xff < 256) by (bit_vector);
    }
    if be {
        out.push(((v >> 8) & 0xff) as u8);
        out.push((v & 0xff) as u8);
    } else {
        out.push((v & 0xff) as u8);
        out.push(((v >> 8) & 0xff) as u8);
    }
    proof {
        assert(out@ =~= old(out)@ + u16_bytes(v, be));
    }
}

pub fn push_u32_bytes(out: &mut Vec<u8>, v: u32, be: bool)
    ensures
        final(out)@ == old(out)@ + u32_bytes(v, be),
{
    proof {
        assert((v >> 24) & 0xff < 256 && (v >> 16) & 0xff < 256 && (v >> 8) & 0xff < 256 && v
            & 0xff < 256) by (bit_vector);
    }
    if be {
        out.push(((v >> 24) & 0xff) as u8);
        out.push(((v >> 16) & 0xff) as u8);
        out.push(((v >> 8) & 0xff) as u8);
        out.push((v & 0xff) as u8);
    } else {
        out.push((v & 0xff) as u8);
        out.push(((v >> 8) & 0xff) as u8);
        out.push(((v >> 16) & 0xff) as u8);
        out.push(((v >> 24) & 0xff) as u8);
    }
    proof {
        assert(out@ =~= old(out)@ + u32_bytes(v, be));
    }
}

pub fn push_u64_bytes(out: &mut Vec<u8>, v: u64, be: bool)
    ensures
        final(out)@ == old(out)@ + u64_bytes(v, be),
{
    proof {
        assert((v >> 56) & 0xff < 256 && (v >> 48) & 0xff < 256 && (v >> 40) & 0xff < 256 && (v
            >> 32) & 0xff < 256 && (v >> 24) & 0xff < 256 && (v >> 16) & 0xff < 256 && (v >> 8)
            & 0xff < 256 && v & 0xff < 256) by (bit_vector);
    }
    if be {
        out.push(((v >> 56) & 0xff) as u8);
        out.push(((v >> 48) & 0xff) as u8);
        out.push(((v >> 40) & 0xff) as u8);
        out.push(((v >> 32) & 0xff) as u8);
        out.push(((v >> 24) & 0xff) as u8);
        out.push(((v >> 16) & 0xff) as u8);
        out.push(((v >> 8) & 0xff) as u8);
        out.push((v & 0xff) as u8);
    } else {
        out.push((v & 0xff) as u8);
        out.push(((v >> 8) & 0xff) as u8);
        out.push(((v >> 16) & 0xff) as u8);
        out.push(((v >> 24) & 0xff) as u8);
        out.push(((v >> 32) & 0xff) as u8);
        out.push(((v >> 40) & 0xff) as u8);
        out.push(((v >> 48) & 0xff) as u8);
        out.push(((v >> 56) & 0xff) as u8);
    }
    proof {
        assert(out@ =~= old(out)@ + u64_bytes(v, be));
    }
}

/// Decimal text of the IEEE-754 single-precision value with these bits.
pub uninterp spec fn f32_text(bits: u32) -> Seq<u8>;

/// Decimal text of the IEEE-754 double-precision value with these bits.
pub uninterp spec fn f64_text(bits: u64) -> Seq<u8>;

/// Whether a piece of text is non-empty and free of spaces and line breaks,
/// so that it stays one token of an ASCII row.
pub open spec fn token_clean(s: Seq<u8>) -> bool {
    s.len() > 0 && forall|i: int| 0 <= i < s.len() ==> #[trigger] s[i] != 32 && s[i] != 13 && s[i]
        != 10
}

/// Relies on `rustc_apfloat::ieee::Single`'s `Display`: the decimal text of
/// the single-precision value with the given bits, a function of the bits
/// alone; it writes digits, sign, point, exponent, `Inf` or `NaN`, never a
/// space or a line break, and never nothing. The digits identify the value
/// bit-exactly but may differ from `std`'s shortest form: the digit count is
/// conservative (0.1 as single precision prints as 0.100000001), large and
/// small magnitudes use `E` exponent notation, and the non-finite spellings
/// are `+Inf`, `-Inf` and `NaN`.
#[verifier::external_body]
pub fn push_f32_text(out: &mut Vec<u8>, bits: u32) -> (n: usize)
    ensures
        final(out)@ == old(out)@ + f32_text(bits),
        n == f32_text(bits).len(),
        token_clean(final(out)@.skip(old(out)@.len() as int)),
{
    let v = <rustc_apfloat::ieee::Single as rustc_apfloat::Float>::from_bits(bits as u128);
    let t = format!("{}", v);
    out.extend_from_slice(t.as_bytes());
    t.len()
}

/// Relies on `rustc_apfloat::ieee::Double`'s `Display`: the decimal text of
/// the double-precision value with the given bits, a function of the bits
/// alone; same shape of output, and same departures from `std`'s shortest
/// form, as for single precision.
#[verifier::external_body]
pub fn push_f64_text(out: &mut Vec<u8>, bits: u64) -> (n: usize)
    ensures
        final(out)@ == old(out)@ + f64_text(bits),
        n == f64_text(bits).len(),
        token_clean(final(out)@.skip(old(out)@.len() as int)),
{
    let v = <rustc_apfloat::ieee::Double as rustc_apfloat::Float>::from_bits(bits as u128);
    let t = format!("{}", v);
    out.extend_from_slice(t.as_bytes());
    t.len()
}

} // verus!
