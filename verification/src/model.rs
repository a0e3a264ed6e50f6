use vstd::prelude::*;

verus! {

/// The abstract value model both codec directions agree on. No executable
/// code builds one: values exist only in specifications.
///
/// - Integers are a sign and a magnitude; the wire class is a function of
///   the pair.
/// - Floats are carried as IEEE-754 bit patterns; `FloatLit` is a numeric
///   literal whose bits only the caller's float parser can produce.
/// - Strings are UTF-8 byte sequences; lengths count bytes.
/// - A map is a flat sequence: keys at even positions, values at odd ones,
///   insertion order preserved, duplicate keys permitted.
pub enum JVal {
    Null,
    False,
    True,
    Int { neg: bool, mag: nat },
    Float64(u64),
    Float32(u32),
    FloatLit(Seq<char>),
    Str(Seq<u8>),
    Arr(Seq<JVal>),
    Obj(Seq<JVal>),
}

/// How many positions of `s` lie at or after `i` (zero once `i` is past the
/// end): the termination measure of the specification recursions.
pub open spec fn tail_len<T>(s: Seq<T>, i: int) -> int {
    if i <= s.len() {
        s.len() - i
    } else {
        0
    }
}

/// A UTF-8 continuation byte.
pub open spec fn cont_byte(b: u8) -> bool {
    0x80 <= b && b <= 0xBF
}

/// Exactly the byte sequences std accepts as UTF-8: no overlong forms, no
/// surrogate code points, nothing above 0x10FFFF.
pub open spec fn valid_utf8(bs: Seq<u8>) -> bool
    decreases bs.len(),
{
    if bs.len() == 0 {
        true
    } else {
        let b0 = bs[0];
        if b0 < 0x80 {
            valid_utf8(bs.skip(1))
        } else if 0xC2 <= b0 && b0 <= 0xDF {
            bs.len() >= 2 && cont_byte(bs[1]) && valid_utf8(bs.skip(2))
        } else if b0 == 0xE0 {
            bs.len() >= 3 && 0xA0 <= bs[1] && bs[1] <= 0xBF && cont_byte(bs[2]) && valid_utf8(
                bs.skip(3),
            )
        } else if 0xE1 <= b0 && b0 <= 0xEF && b0 != 0xED {
            bs.len() >= 3 && cont_byte(bs[1]) && cont_byte(bs[2]) && valid_utf8(bs.skip(3))
        } else if b0 == 0xED {
            bs.len() >= 3 && 0x80 <= bs[1] && bs[1] <= 0x9F && cont_byte(bs[2]) && valid_utf8(
                bs.skip(3),
            )
        } else if b0 == 0xF0 {
            bs.len() >= 4 && 0x90 <= bs[1] && bs[1] <= 0xBF && cont_byte(bs[2]) && cont_byte(bs[3])
                && valid_utf8(bs.skip(4))
        } else if 0xF1 <= b0 && b0 <= 0xF3 {
            bs.len() >= 4 && cont_byte(bs[1]) && cont_byte(bs[2]) && cont_byte(bs[3]) && valid_utf8(
                bs.skip(4),
            )
        } else if b0 == 0xF4 {
            bs.len() >= 4 && 0x80 <= bs[1] && bs[1] <= 0x8F && cont_byte(bs[2]) && cont_byte(bs[3])
                && valid_utf8(bs.skip(4))
        } else {
            false
        }
    }
}

/// A Unicode scalar value: any code point except the UTF-16 surrogates.
pub open spec fn valid_cp(cp: int) -> bool {
    (0 <= cp && cp < 0xD800) || (0xE000 <= cp && cp <= 0x10FFFF)
}

/// The UTF-8 bytes of one code point.
pub open spec fn utf8_cp(cp: int) -> Seq<u8> {
    if cp < 0x80 {
        seq![cp as u8]
    } else if cp < 0x800 {
        seq![(0xC0 + cp / 64) as u8, (0x80 + cp % 64) as u8]
    } else if cp < 0x10000 {
        seq![(0xE0 + cp / 4096) as u8, (0x80 + (cp / 64) % 64) as u8, (0x80 + cp % 64) as u8]
    } else {
        seq![
            (0xF0 + cp / 262144) as u8,
            (0x80 + (cp / 4096) % 64) as u8,
            (0x80 + (cp / 64) % 64) as u8,
            (0x80 + cp % 64) as u8,
        ]
    }
}

/// The decimal digits of `n`, most significant first, no leading zeros.
pub open spec fn dec_digits(n: nat) -> Seq<u8>
    decreases n,
{
    if n < 10 {
        seq![(0x30 + n) as u8]
    } else {
        dec_digits(n / 10) + seq![(0x30 + n % 10) as u8]
    }
}

/// The two big-endian bytes of `n` (for `n < 0x10000`).
pub open spec fn be2(n: nat) -> Seq<u8> {
    seq![((n / 0x100) % 0x100) as u8, (n % 0x100) as u8]
}

/// The four big-endian bytes of `n` (for `n < 0x1_0000_0000`).
pub open spec fn be4(n: nat) -> Seq<u8> {
    seq![
        ((n / 0x100_0000) % 0x100) as u8,
        ((n / 0x1_0000) % 0x100) as u8,
        ((n / 0x100) % 0x100) as u8,
        (n % 0x100) as u8,
    ]
}

/// The eight big-endian bytes of `n` (for `n <= u64::MAX`).
pub open spec fn be8(n: nat) -> Seq<u8> {
    seq![
        ((n / 0x100_0000_0000_0000) % 0x100) as u8,
        ((n / 0x1_0000_0000_0000) % 0x100) as u8,
        ((n / 0x100_0000_0000) % 0x100) as u8,
        ((n / 0x1_0000_0000) % 0x100) as u8,
        ((n / 0x100_0000) % 0x100) as u8,
        ((n / 0x1_0000) % 0x100) as u8,
        ((n / 0x100) % 0x100) as u8,
        (n % 0x100) as u8,
    ]
}

/// The value of the two big-endian bytes at `i`.
pub open spec fn be2v(b: Seq<u8>, i: int) -> nat {
    (b[i] * 0x100 + b[i + 1]) as nat
}

/// The value of the four big-endian bytes at `i`.
pub open spec fn be4v(b: Seq<u8>, i: int) -> nat {
    (b[i] * 0x100_0000 + b[i + 1] * 0x1_0000 + b[i + 2] * 0x100 + b[i + 3]) as nat
}

/// The value of the eight big-endian bytes at `i`.
pub open spec fn be8v(b: Seq<u8>, i: int) -> nat {
    (b[i] * 0x100_0000_0000_0000 + b[i + 1] * 0x1_0000_0000_0000 + b[i + 2] * 0x100_0000_0000 + b[i
        + 3] * 0x1_0000_0000 + b[i + 4] * 0x100_0000 + b[i + 5] * 0x1_0000 + b[i + 6] * 0x100 + b[i
        + 7]) as nat
}

/// The smallest wire form of an integer: positive or negative fixint, then
/// unsigned 8/16/32/64-bit, or two's-complement signed 8/16/32/64-bit.
/// Meaningful whenever `wf` holds of the value.
pub open spec fn int_bytes(neg: bool, mag: nat) -> Seq<u8> {
    if !neg {
        if mag <= 0x7F {
            seq![mag as u8]
        } else if mag <= 0xFF {
            seq![0xCCu8, mag as u8]
        } else if mag <= 0xFFFF {
            seq![0xCDu8] + be2(mag)
        } else if mag <= 0xFFFF_FFFF {
            seq![0xCEu8] + be4(mag)
        } else {
            seq![0xCFu8] + be8(mag)
        }
    } else {
        if mag <= 32 {
            seq![(0x100 - mag) as u8]
        } else if mag <= 0x80 {
            seq![0xD0u8, (0x100 - mag) as u8]
        } else if mag <= 0x8000 {
            seq![0xD1u8] + be2((0x1_0000 - mag) as nat)
        } else if mag <= 0x8000_0000 {
            seq![0xD2u8] + be4((0x1_0000_0000 - mag) as nat)
        } else {
            seq![0xD3u8] + be8((0x1_0000_0000_0000_0000 - mag) as nat)
        }
    }
}

/// The smallest array header for `n` elements: fixarray, array16, array32.
pub open spec fn arr_header_s(n: nat) -> Seq<u8> {
    if n <= 15 {
        seq![(0x90 + n) as u8]
    } else if n <= 0xFFFF {
        seq![0xDCu8] + be2(n)
    } else {
        seq![0xDDu8] + be4(n)
    }
}

/// The smallest map header for `n` pairs: fixmap, map16, map32.
pub open spec fn map_header_s(n: nat) -> Seq<u8> {
    if n <= 15 {
        seq![(0x80 + n) as u8]
    } else if n <= 0xFFFF {
        seq![0xDEu8] + be2(n)
    } else {
        seq![0xDFu8] + be4(n)
    }
}

/// The smallest string header for `n` bytes: fixstr, str8, str16, str32.
pub open spec fn str_header_s(n: nat) -> Seq<u8> {
    if n <= 31 {
        seq![(0xA0 + n) as u8]
    } else if n <= 0xFF {
        seq![0xD9u8, n as u8]
    } else if n <= 0xFFFF {
        seq![0xDAu8] + be2(n)
    } else {
        seq![0xDBu8] + be4(n)
    }
}

/// The values the wire format can carry: integers within 64 bits, strings
/// that are UTF-8 and fit a str32 header, containers that fit a 32-bit
/// count, a map list of even length, no unparsed float literals, and a
/// normalized sign (no negative zero).
pub open spec fn wf(v: JVal) -> bool
    decreases v, 0int,
{
    match v {
        JVal::Null => true,
        JVal::False => true,
        JVal::True => true,
        JVal::Int { neg, mag } => if neg {
            1 <= mag && mag <= 0x8000_0000_0000_0000
        } else {
            mag <= 0xFFFF_FFFF_FFFF_FFFF
        },
        JVal::Float64(_) => true,
        JVal::Float32(_) => true,
        JVal::FloatLit(_) => false,
        JVal::Str(bs) => bs.len() <= 0xFFFF_FFFF && valid_utf8(bs),
        JVal::Arr(vs) => vs.len() <= 0xFFFF_FFFF && wf_list(vs, 0),
        JVal::Obj(kvs) => kvs.len() % 2 == 0 && kvs.len() / 2 <= 0xFFFF_FFFF && wf_list(kvs, 0),
    }
}

/// `wf` of every element of `vs` from position `k` on.
pub open spec fn wf_list(vs: Seq<JVal>, k: int) -> bool
    decreases vs, tail_len(vs, k), 1int,
{
    if k < 0 || k >= vs.len() {
        true
    } else {
        wf(vs[k]) && wf_list(vs, k + 1)
    }
}

/// The MessagePack encoding of a value: the smallest header for its kind
/// followed by its body. Meaningful whenever `wf` holds.
pub open spec fn spec_enc(v: JVal) -> Seq<u8>
    decreases v, 0int,
{
    match v {
        JVal::Null => seq![0xC0u8],
        JVal::False => seq![0xC2u8],
        JVal::True => seq![0xC3u8],
        JVal::Int { neg, mag } => int_bytes(neg, mag),
        JVal::Float64(bits) => seq![0xCBu8] + be8(bits as nat),
        JVal::Float32(bits) => seq![0xCAu8] + be4(bits as nat),
        JVal::FloatLit(_) => Seq::empty(),
        JVal::Str(bs) => str_header_s(bs.len()) + bs,
        JVal::Arr(vs) => arr_header_s(vs.len()) + spec_enc_list(vs, 0),
        JVal::Obj(kvs) => map_header_s((kvs.len() / 2) as nat) + spec_enc_list(kvs, 0),
    }
}

/// The concatenated encodings of the elements of `vs` from position `k` on.
pub open spec fn spec_enc_list(vs: Seq<JVal>, k: int) -> Seq<u8>
    decreases vs, tail_len(vs, k), 1int,
{
    if k < 0 || k >= vs.len() {
        Seq::empty()
    } else {
        spec_enc(vs[k]) + spec_enc_list(vs, k + 1)
    }
}

/// `bs` with every quote byte replaced by backslash-quote. No other byte is
/// escaped when a decoded string is printed back as JSON text.
pub open spec fn esc_quotes(bs: Seq<u8>) -> Seq<u8>
    decreases bs.len(),
{
    if bs.len() == 0 {
        Seq::empty()
    } else {
        (if bs[0] == 0x22 {
            seq![0x5Cu8, 0x22u8]
        } else {
            seq![bs[0]]
        }) + esc_quotes(bs.skip(1))
    }
}

/// The decimal text of an integer: a minus sign for negative values, then
/// the digits of the magnitude.
pub open spec fn int_text(neg: bool, mag: nat) -> Seq<u8> {
    if neg {
        seq![0x2Du8] + dec_digits(mag)
    } else {
        dec_digits(mag)
    }
}

} // verus!
