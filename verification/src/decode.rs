use vstd::prelude::*;

use crate::err::Error;
use crate::model::{JVal, be2v, be4v, be8v, dec_digits, esc_quotes, int_text, tail_len, valid_utf8};
use crate::pieces::{TextPiece, TextPieceS, tview};

verus! {

// ---------------------------------------------------------------------------
// Specification: one value decoded from a byte position, and the JSON text
// printed for it.
// ---------------------------------------------------------------------------

/// The signed value of a byte (two's complement).
pub open spec fn s8v(n: nat) -> int {
    if n >= 0x80 {
        n - 0x100
    } else {
        n as int
    }
}

/// The magnitude of an integer.
pub open spec fn mag_of(v: int) -> nat {
    if v < 0 {
        (-v) as nat
    } else {
        v as nat
    }
}

/// Decode the string body of `n` raw bytes at `i`: the bytes must all be
/// present and form valid UTF-8.
pub open spec fn spec_dec_str(b: Seq<u8>, i: int, n: nat) -> Result<(JVal, int), Error> {
    if i < 0 || i + n > b.len() {
        Err(Error::UnterminatedContainer)
    } else {
        let bs = b.subrange(i, i + n);
        if valid_utf8(bs) {
            Ok((JVal::Str(bs), i + n))
        } else {
            Err(Error::UnexpectedByte)
        }
    }
}

/// Decode one MessagePack value at position `i`: dispatch on the tag byte,
/// then consume exactly the declared length.
pub open spec fn spec_dec_value(b: Seq<u8>, i: int) -> Result<(JVal, int), Error>
    decreases tail_len(b, i), 0nat, 1int,
{
    if i < 0 || i >= b.len() {
        Err(Error::UnterminatedContainer)
    } else {
        let t = b[i];
        if t <= 0x7F {
            Ok((JVal::Int { neg: false, mag: t as nat }, i + 1))
        } else if t <= 0x8F {
            match spec_dec_seq(b, i + 1, 2 * ((t - 0x80) as nat)) {
                Ok((vs, j)) => Ok((JVal::Obj(vs), j)),
                Err(e) => Err(e),
            }
        } else if t <= 0x9F {
            match spec_dec_seq(b, i + 1, (t - 0x90) as nat) {
                Ok((vs, j)) => Ok((JVal::Arr(vs), j)),
                Err(e) => Err(e),
            }
        } else if t <= 0xBF {
            spec_dec_str(b, i + 1, (t - 0xA0) as nat)
        } else if t == 0xC0 {
            Ok((JVal::Null, i + 1))
        } else if t == 0xC1 {
            Err(Error::UnexpectedByte)
        } else if t == 0xC2 {
            Ok((JVal::False, i + 1))
        } else if t == 0xC3 {
            Ok((JVal::True, i + 1))
        } else if t <= 0xC9 {
            Err(Error::UnsupportedFormatTag)
        } else if t == 0xCA {
            if i + 5 <= b.len() {
                Ok((JVal::Float32(be4v(b, i + 1) as u32), i + 5))
            } else {
                Err(Error::UnterminatedContainer)
            }
        } else if t == 0xCB {
            if i + 9 <= b.len() {
                Ok((JVal::Float64(be8v(b, i + 1) as u64), i + 9))
            } else {
                Err(Error::UnterminatedContainer)
            }
        } else if t == 0xCC {
            if i + 2 <= b.len() {
                Ok((JVal::Int { neg: false, mag: b[i + 1] as nat }, i + 2))
            } else {
                Err(Error::UnterminatedContainer)
            }
        } else if t == 0xCD {
            if i + 3 <= b.len() {
                Ok((JVal::Int { neg: false, mag: be2v(b, i + 1) }, i + 3))
            } else {
                Err(Error::UnterminatedContainer)
            }
        } else if t == 0xCE {
            if i + 5 <= b.len() {
                Ok((JVal::Int { neg: false, mag: be4v(b, i + 1) }, i + 5))
            } else {
                Err(Error::UnterminatedContainer)
            }
        } else if t == 0xCF {
            if i + 9 <= b.len() {
                Ok((JVal::Int { neg: false, mag: be8v(b, i + 1) }, i + 9))
            } else {
                Err(Error::UnterminatedContainer)
            }
        } else if t == 0xD0 {
            if i + 2 <= b.len() {
                let w = s8v(b[i + 1] as nat);
                Ok((JVal::Int { neg: w < 0, mag: mag_of(w) }, i + 2))
            } else {
                Err(Error::UnterminatedContainer)
            }
        } else if t == 0xD1 {
            if i + 3 <= b.len() {
                let n = be2v(b, i + 1);
                let w: int = if n >= 0x8000 {
                    n - 0x1_0000
                } else {
                    n as int
                };
                Ok((JVal::Int { neg: w < 0, mag: mag_of(w) }, i + 3))
            } else {
                Err(Error::UnterminatedContainer)
            }
        } else if t == 0xD2 {
            if i + 5 <= b.len() {
                let n = be4v(b, i + 1);
                let w: int = if n >= 0x8000_0000 {
                    n - 0x1_0000_0000
                } else {
                    n as int
                };
                Ok((JVal::Int { neg: w < 0, mag: mag_of(w) }, i + 5))
            } else {
                Err(Error::UnterminatedContainer)
            }
        } else if t == 0xD3 {
            if i + 9 <= b.len() {
                let n = be8v(b, i + 1);
                let w: int = if n >= 0x8000_0000_0000_0000 {
                    n - 0x1_0000_0000_0000_0000
                } else {
                    n as int
                };
                Ok((JVal::Int { neg: w < 0, mag: mag_of(w) }, i + 9))
            } else {
                Err(Error::UnterminatedContainer)
            }
        } else if t <= 0xD8 {
            Err(Error::UnsupportedFormatTag)
        } else if t == 0xD9 {
            if i + 2 <= b.len() {
                spec_dec_str(b, i + 2, b[i + 1] as nat)
            } else {
                Err(Error::UnterminatedContainer)
            }
        } else if t == 0xDA {
            if i + 3 <= b.len() {
                spec_dec_str(b, i + 3, be2v(b, i + 1))
            } else {
                Err(Error::UnterminatedContainer)
            }
        } else if t == 0xDB {
            if i + 5 <= b.len() {
                spec_dec_str(b, i + 5, be4v(b, i + 1))
            } else {
                Err(Error::UnterminatedContainer)
            }
        } else if t == 0xDC {
            if i + 3 <= b.len() {
                match spec_dec_seq(b, i + 3, be2v(b, i + 1)) {
                    Ok((vs, j)) => Ok((JVal::Arr(vs), j)),
                    Err(e) => Err(e),
                }
            } else {
                Err(Error::UnterminatedContainer)
            }
        } else if t == 0xDD {
            if i + 5 <= b.len() {
                match spec_dec_seq(b, i + 5, be4v(b, i + 1)) {
                    Ok((vs, j)) => Ok((JVal::Arr(vs), j)),
                    Err(e) => Err(e),
                }
            } else {
                Err(Error::UnterminatedContainer)
            }
        } else if t == 0xDE {
            if i + 3 <= b.len() {
                match spec_dec_seq(b, i + 3, 2 * be2v(b, i + 1)) {
                    Ok((vs, j)) => Ok((JVal::Obj(vs), j)),
                    Err(e) => Err(e),
                }
            } else {
                Err(Error::UnterminatedContainer)
            }
        } else if t == 0xDF {
            if i + 5 <= b.len() {
                match spec_dec_seq(b, i + 5, 2 * be4v(b, i + 1)) {
                    Ok((vs, j)) => Ok((JVal::Obj(vs), j)),
                    Err(e) => Err(e),
                }
            } else {
                Err(Error::UnterminatedContainer)
            }
        } else {
            Ok((JVal::Int { neg: true, mag: (0x100 - t) as nat }, i + 1))
        }
    }
}

/// Decode `n` consecutive values starting at `i`.
pub open spec fn spec_dec_seq(b: Seq<u8>, i: int, n: nat) -> Result<(Seq<JVal>, int), Error>
    decreases tail_len(b, i), n, 2int,
{
    if n == 0 {
        Ok((Seq::empty(), i))
    } else {
        match spec_dec_value(b, i) {
            Ok((v, j)) => {
                let j2 = if j > i {
                    j
                } else {
                    i + 1
                };
                match spec_dec_seq(b, j2, (n - 1) as nat) {
                    Ok((vs, e)) => Ok((seq![v] + vs, e)),
                    Err(e) => Err(e),
                }
            },
            Err(e) => Err(e),
        }
    }
}

/// A successful sequence decode yields exactly `n` values at a position
/// not before the start.
pub proof fn lemma_dec_seq_shape(b: Seq<u8>, i: int, n: nat)
    ensures
        spec_dec_seq(b, i, n) matches Ok(q) ==> q.0.len() == n && i <= q.1,
    decreases tail_len(b, i), n, 3int,
{
    if n != 0 {
        match spec_dec_value(b, i) {
            Ok((v, j)) => {
                let j2 = if j > i {
                    j
                } else {
                    i + 1
                };
                lemma_dec_seq_shape(b, j2, (n - 1) as nat);
            },
            Err(_) => {},
        }
    }
}

/// The JSON text fragments printed for one decoded value.
pub open spec fn spec_print_pieces(v: JVal) -> Seq<TextPieceS>
    decreases v, 0int,
{
    match v {
        JVal::Null => seq![TextPieceS::Bytes(seq![0x6Eu8, 0x75u8, 0x6Cu8, 0x6Cu8])],
        JVal::False => seq![TextPieceS::Bytes(seq![0x66u8, 0x61u8, 0x6Cu8, 0x73u8, 0x65u8])],
        JVal::True => seq![TextPieceS::Bytes(seq![0x74u8, 0x72u8, 0x75u8, 0x65u8])],
        JVal::Int { neg, mag } => seq![TextPieceS::Bytes(int_text(neg, mag))],
        JVal::Float64(bits) => seq![TextPieceS::Float64(bits)],
        JVal::Float32(bits) => seq![TextPieceS::Float32(bits)],
        JVal::FloatLit(_) => Seq::empty(),
        JVal::Str(bs) => seq![TextPieceS::Bytes(seq![0x22u8] + esc_quotes(bs) + seq![0x22u8])],
        JVal::Arr(vs) => seq![TextPieceS::Bytes(seq![0x5Bu8])] + spec_print_list(vs, 0) + seq![
            TextPieceS::Bytes(seq![0x5Du8]),
        ],
        JVal::Obj(kvs) => seq![TextPieceS::Bytes(seq![0x7Bu8])] + spec_print_map_list(kvs, 0)
            + seq![TextPieceS::Bytes(seq![0x7Du8])],
    }
}

/// The fragments for the array elements of `vs` from `k` on, a comma after
/// each element but the last.
pub open spec fn spec_print_list(vs: Seq<JVal>, k: int) -> Seq<TextPieceS>
    decreases vs, tail_len(vs, k),
{
    if k < 0 || k >= vs.len() {
        Seq::empty()
    } else {
        spec_print_pieces(vs[k]) + (if k + 1 < vs.len() {
            seq![TextPieceS::Bytes(seq![0x2Cu8])]
        } else {
            Seq::empty()
        }) + spec_print_list(vs, k + 1)
    }
}

/// The fragments for the key/value pairs of the flat list `kvs` from `k`
/// on: `key:value`, a comma after each pair but the last.
pub open spec fn spec_print_map_list(kvs: Seq<JVal>, k: int) -> Seq<TextPieceS>
    decreases kvs, tail_len(kvs, k),
{
    if k < 0 || k + 1 >= kvs.len() {
        Seq::empty()
    } else {
        spec_print_pieces(kvs[k]) + seq![TextPieceS::Bytes(seq![0x3Au8])] + spec_print_pieces(
            kvs[k + 1],
        ) + (if k + 2 < kvs.len() {
            seq![TextPieceS::Bytes(seq![0x2Cu8])]
        } else {
            Seq::empty()
        }) + spec_print_map_list(kvs, k + 2)
    }
}

/// The fragments for the array elements of `vs` before `k` (the printed
/// prefix after `k` elements), comma rule as in the full list.
pub open spec fn spec_print_list_pre(vs: Seq<JVal>, k: int) -> Seq<TextPieceS>
    decreases k,
{
    if k <= 0 || k > vs.len() {
        Seq::empty()
    } else {
        spec_print_list_pre(vs, k - 1) + spec_print_pieces(vs[k - 1]) + (if k < vs.len() {
            seq![TextPieceS::Bytes(seq![0x2Cu8])]
        } else {
            Seq::empty()
        })
    }
}

/// The fragments for the pairs of `kvs` before `k`.
pub open spec fn spec_print_map_list_pre(kvs: Seq<JVal>, k: int) -> Seq<TextPieceS>
    decreases k,
{
    if k <= 0 || k > kvs.len() || k % 2 != 0 {
        Seq::empty()
    } else {
        spec_print_map_list_pre(kvs, k - 2) + spec_print_pieces(kvs[k - 2]) + seq![
            TextPieceS::Bytes(seq![0x3Au8]),
        ] + spec_print_pieces(kvs[k - 1]) + (if k < kvs.len() {
            seq![TextPieceS::Bytes(seq![0x2Cu8])]
        } else {
            Seq::empty()
        })
    }
}

/// The printed prefix and the remaining list together are the whole list.
pub proof fn lemma_print_list_split(vs: Seq<JVal>, k: int)
    requires
        0 <= k <= vs.len(),
    ensures
        spec_print_list_pre(vs, k) + spec_print_list(vs, k) == spec_print_list(vs, 0),
    decreases k,
{
    if k == 0 {
        assert(spec_print_list_pre(vs, 0) + spec_print_list(vs, 0) =~= spec_print_list(vs, 0));
    } else {
        lemma_print_list_split(vs, k - 1);
        assert(spec_print_list_pre(vs, k) + spec_print_list(vs, k) =~= spec_print_list_pre(
            vs,
            k - 1,
        ) + spec_print_list(vs, k - 1));
    }
}

/// The printed prefix of pairs and the remaining pairs together are the
/// whole pair list.
pub proof fn lemma_print_map_list_split(kvs: Seq<JVal>, k: int)
    requires
        0 <= k <= kvs.len(),
        k % 2 == 0,
    ensures
        spec_print_map_list_pre(kvs, k) + spec_print_map_list(kvs, k) == spec_print_map_list(
            kvs,
            0,
        ),
    decreases k,
{
    if k == 0 {
        assert(spec_print_map_list_pre(kvs, 0) + spec_print_map_list(kvs, 0)
            =~= spec_print_map_list(kvs, 0));
    } else {
        lemma_print_map_list_split(kvs, k - 2);
        assert(spec_print_map_list_pre(kvs, k) + spec_print_map_list(kvs, k)
            =~= spec_print_map_list_pre(kvs, k - 2) + spec_print_map_list(kvs, k - 2));
    }
}

/// One decoded value at `i`, as the fragments of its JSON text and the
/// position just past it.
pub open spec fn spec_m2j(b: Seq<u8>, i: int) -> Result<(Seq<TextPieceS>, int), Error> {
    match spec_dec_value(b, i) {
        Ok((v, j)) => Ok((spec_print_pieces(v), j)),
        Err(e) => Err(e),
    }
}

/// The mathematical form of an executable decode result.
pub open spec fn m2j_res_view(r: Result<(Vec<TextPiece>, usize), Error>) -> Result<
    (Seq<TextPieceS>, int),
    Error,
> {
    match r {
        Ok((ps, j)) => Ok((tview(ps@), j as int)),
        Err(e) => Err(e),
    }
}

// ---------------------------------------------------------------------------
// Executable decoding.
// ---------------------------------------------------------------------------

/// The decimal text of `n`.
pub fn fmt_u64(n: u64) -> (r: Vec<u8>)
    ensures
        r@ == dec_digits(n as nat),
    decreases n,
{
    if n < 10 {
        let mut r: Vec<u8> = Vec::new();
        r.push(0x30 + n as u8);
        proof {
            assert(r@ =~= dec_digits(n as nat));
        }
        r
    } else {
        let mut r = fmt_u64(n / 10);
        r.push(0x30 + (n % 10) as u8);
        proof {
            assert(r@ =~= dec_digits(n as nat));
        }
        r
    }
}

/// The decimal text of `v`, a minus sign first when it is negative.
pub fn fmt_i64(v: i64) -> (r: Vec<u8>)
    ensures
        r@ == int_text(v < 0, mag_of(v as int)),
{
    if v >= 0 {
        let r = fmt_u64(v as u64);
        proof {
            assert(r@ =~= int_text(false, mag_of(v as int)));
        }
        r
    } else {
        let mut r: Vec<u8> = Vec::new();
        r.push(0x2D);
        let m: u64 = ((-(v + 1)) as u64) + 1;
        assert(m as nat == mag_of(v as int));
        let mut d = fmt_u64(m);
        r.append(&mut d);
        proof {
            assert(r@ =~= int_text(true, mag_of(v as int)));
        }
        r
    }
}

/// A single text fragment holding the given bytes.
fn single_text(bytes: Vec<u8>) -> (r: Vec<TextPiece>)
    ensures
        tview(r@) == seq![TextPieceS::Bytes(bytes@)],
{
    let ghost bs = bytes@;
    let mut r: Vec<TextPiece> = Vec::new();
    r.push(TextPiece::Bytes(bytes));
    proof {
        assert(tview(r@) =~= seq![TextPieceS::Bytes(bs)]);
    }
    r
}

/// Read the byte at `i`.
pub fn get_1byte(b: &Vec<u8>, i: usize) -> (r: Result<(u8, usize), Error>)
    ensures
        i < b@.len() ==> r == Ok::<(u8, usize), Error>((b@[i as int], (i + 1) as usize)),
        i >= b@.len() ==> r == Err::<(u8, usize), Error>(Error::UnterminatedContainer),
{
    if i < b.len() {
        Ok((b[i], i + 1))
    } else {
        Err(Error::UnterminatedContainer)
    }
}

/// Read the two bytes at `i`.
pub fn get_2bytes(b: &Vec<u8>, i: usize) -> (r: Result<(Vec<u8>, usize), Error>)
    ensures
        i + 2 <= b@.len() ==> (r matches Ok(p) && p.0@ == b@.subrange(i as int, i + 2) && p.1 == i
            + 2),
        i + 2 > b@.len() ==> r == Err::<(Vec<u8>, usize), Error>(Error::UnterminatedContainer),
{
    if b.len() >= 2 && i <= b.len() - 2 {
        let mut v: Vec<u8> = Vec::new();
        v.push(b[i]);
        v.push(b[i + 1]);
        proof {
            assert(v@ =~= b@.subrange(i as int, i + 2));
        }
        Ok((v, i + 2))
    } else {
        Err(Error::UnterminatedContainer)
    }
}

/// Read the four bytes at `i`.
pub fn get_4bytes(b: &Vec<u8>, i: usize) -> (r: Result<(Vec<u8>, usize), Error>)
    ensures
        i + 4 <= b@.len() ==> (r matches Ok(p) && p.0@ == b@.subrange(i as int, i + 4) && p.1 == i
            + 4),
        i + 4 > b@.len() ==> r == Err::<(Vec<u8>, usize), Error>(Error::UnterminatedContainer),
{
    if b.len() >= 4 && i <= b.len() - 4 {
        let mut v: Vec<u8> = Vec::new();
        v.push(b[i]);
        v.push(b[i + 1]);
        v.push(b[i + 2]);
        v.push(b[i + 3]);
        proof {
            assert(v@ =~= b@.subrange(i as int, i + 4));
        }
        Ok((v, i + 4))
    } else {
        Err(Error::UnterminatedContainer)
    }
}

/// Read the eight bytes at `i`.
pub fn get_8bytes(b: &Vec<u8>, i: usize) -> (r: Result<(Vec<u8>, usize), Error>)
    ensures
        i + 8 <= b@.len() ==> (r matches Ok(p) && p.0@ == b@.subrange(i as int, i + 8) && p.1 == i
            + 8),
        i + 8 > b@.len() ==> r == Err::<(Vec<u8>, usize), Error>(Error::UnterminatedContainer),
{
    if b.len() >= 8 && i <= b.len() - 8 {
        let mut v: Vec<u8> = Vec::new();
        v.push(b[i]);
        v.push(b[i + 1]);
        v.push(b[i + 2]);
        v.push(b[i + 3]);
        v.push(b[i + 4]);
        v.push(b[i + 5]);
        v.push(b[i + 6]);
        v.push(b[i + 7]);
        proof {
            assert(v@ =~= b@.subrange(i as int, i + 8));
        }
        Ok((v, i + 8))
    } else {
        Err(Error::UnterminatedContainer)
    }
}

/// The unsigned value of the byte at `i`.
pub fn get_u8(b: &Vec<u8>, i: usize) -> (r: Result<(u8, usize), Error>)
    ensures
        i + 1 <= b@.len() ==> r == Ok::<(u8, usize), Error>((b@[i as int], (i + 1) as usize)),
        i + 1 > b@.len() ==> r == Err::<(u8, usize), Error>(Error::UnterminatedContainer),
{
    get_1byte(b, i)
}

/// The unsigned big-endian 16-bit value at `i`.
pub fn get_u16(b: &Vec<u8>, i: usize) -> (r: Result<(u16, usize), Error>)
    ensures
        i + 2 <= b@.len() ==> r == Ok::<(u16, usize), Error>(
            (be2v(b@, i as int) as u16, (i + 2) as usize),
        ),
        i + 2 > b@.len() ==> r == Err::<(u16, usize), Error>(Error::UnterminatedContainer),
{
    match get_2bytes(b, i) {
        Ok((bs, j)) => {
            let n: u16 = (bs[0] as u16) * 0x100 + (bs[1] as u16);
            Ok((n, j))
        },
        Err(e) => Err(e),
    }
}

/// The unsigned big-endian 32-bit value at `i`.
pub fn get_u32(b: &Vec<u8>, i: usize) -> (r: Result<(u32, usize), Error>)
    ensures
        i + 4 <= b@.len() ==> r == Ok::<(u32, usize), Error>(
            (be4v(b@, i as int) as u32, (i + 4) as usize),
        ),
        i + 4 > b@.len() ==> r == Err::<(u32, usize), Error>(Error::UnterminatedContainer),
{
    match get_4bytes(b, i) {
        Ok((bs, j)) => {
            let n: u32 = (bs[0] as u32) * 0x100_0000 + (bs[1] as u32) * 0x1_0000 + (bs[2] as u32)
                * 0x100 + (bs[3] as u32);
            Ok((n, j))
        },
        Err(e) => Err(e),
    }
}

/// The unsigned big-endian 64-bit value at `i`.
pub fn get_u64(b: &Vec<u8>, i: usize) -> (r: Result<(u64, usize), Error>)
    ensures
        i + 8 <= b@.len() ==> r == Ok::<(u64, usize), Error>(
            (be8v(b@, i as int) as u64, (i + 8) as usize),
        ),
        i + 8 > b@.len() ==> r == Err::<(u64, usize), Error>(Error::UnterminatedContainer),
{
    match get_8bytes(b, i) {
        Ok((bs, j)) => {
            let n: u64 = (bs[0] as u64) * 0x100_0000_0000_0000 + (bs[1] as u64) * 0x1_0000_0000_0000
                + (bs[2] as u64) * 0x100_0000_0000 + (bs[3] as u64) * 0x1_0000_0000 + (bs[4]
                as u64) * 0x100_0000 + (bs[5] as u64) * 0x1_0000 + (bs[6] as u64) * 0x100 + (bs[7]
                as u64);
            Ok((n, j))
        },
        Err(e) => Err(e),
    }
}

/// The signed 8-bit value at `i`.
pub fn get_i8(b: &Vec<u8>, i: usize) -> (r: Result<(i8, usize), Error>)
    ensures
        i + 1 <= b@.len() ==> (r matches Ok(p) && p.0 as int == s8v(b@[i as int] as nat) && p.1 == i
            + 1),
        i + 1 > b@.len() ==> r == Err::<(i8, usize), Error>(Error::UnterminatedContainer),
{
    proof {
        assert(b.len() == b@.len());
    }
    match get_1byte(b, i) {
        Ok((a, j)) => {
            let v: i8 = if a < 0x80 {
                a as i8
            } else {
                proof {
                    assert(a >= 0x80 ==> ((a as i16) - 0x100) as i8 == (a as i8)) by (bit_vector);
                    assert(a >= 0x80 ==> (a as i8) as int == a - 0x100) by (bit_vector);
                }
                ((a as i16) - 0x100) as i8
            };
            Ok((v, j))
        },
        Err(e) => Err(e),
    }
}

/// The signed big-endian 16-bit value at `i`.
pub fn get_i16(b: &Vec<u8>, i: usize) -> (r: Result<(i16, usize), Error>)
    ensures
        i + 2 <= b@.len() ==> (r matches Ok(p) && p.0 as int == (if be2v(b@, i as int) >= 0x8000 {
            be2v(b@, i as int) - 0x1_0000
        } else {
            be2v(b@, i as int) as int
        }) && p.1 == i + 2),
        i + 2 > b@.len() ==> r == Err::<(i16, usize), Error>(Error::UnterminatedContainer),
{
    proof {
        assert(b.len() == b@.len());
    }
    match get_u16(b, i) {
        Ok((n, j)) => {
            let v: i16 = if n < 0x8000 {
                n as i16
            } else {
                proof {
                    assert(n >= 0x8000 ==> ((n as i32) - 0x1_0000) as i16 == (n as i16))
                        by (bit_vector);
                    assert(n >= 0x8000 ==> (n as i16) as int == n - 0x1_0000) by (bit_vector);
                }
                ((n as i32) - 0x1_0000) as i16
            };
            Ok((v, j))
        },
        Err(e) => Err(e),
    }
}

/// The signed big-endian 32-bit value at `i`.
pub fn get_i32(b: &Vec<u8>, i: usize) -> (r: Result<(i32, usize), Error>)
    ensures
        i + 4 <= b@.len() ==> (r matches Ok(p) && p.0 as int == (if be4v(b@, i as int)
            >= 0x8000_0000 {
            be4v(b@, i as int) - 0x1_0000_0000
        } else {
            be4v(b@, i as int) as int
        }) && p.1 == i + 4),
        i + 4 > b@.len() ==> r == Err::<(i32, usize), Error>(Error::UnterminatedContainer),
{
    proof {
        assert(b.len() == b@.len());
    }
    match get_u32(b, i) {
        Ok((n, j)) => {
            let v: i32 = if n < 0x8000_0000 {
                n as i32
            } else {
                proof {
                    assert(n >= 0x8000_0000 ==> ((n as i64) - 0x1_0000_0000) as i32 == (n as i32))
                        by (bit_vector);
                    assert(n >= 0x8000_0000 ==> (n as i32) as int == n - 0x1_0000_0000)
                        by (bit_vector);
                }
                ((n as i64) - 0x1_0000_0000) as i32
            };
            Ok((v, j))
        },
        Err(e) => Err(e),
    }
}

/// The signed big-endian 64-bit value at `i`.
pub fn get_i64(b: &Vec<u8>, i: usize) -> (r: Result<(i64, usize), Error>)
    ensures
        i + 8 <= b@.len() ==> (r matches Ok(p) && p.0 as int == (if be8v(b@, i as int)
            >= 0x8000_0000_0000_0000 {
            be8v(b@, i as int) - 0x1_0000_0000_0000_0000
        } else {
            be8v(b@, i as int) as int
        }) && p.1 == i + 8),
        i + 8 > b@.len() ==> r == Err::<(i64, usize), Error>(Error::UnterminatedContainer),
{
    proof {
        assert(b.len() == b@.len());
    }
    match get_u64(b, i) {
        Ok((n, j)) => {
            let v: i64 = if n < 0x8000_0000_0000_0000 {
                n as i64
            } else {
                proof {
                    assert(n >= 0x8000_0000_0000_0000 ==> ((n as i128) - 0x1_0000_0000_0000_0000)
                        as i64 == (n as i64)) by (bit_vector);
                    assert(n >= 0x8000_0000_0000_0000 ==> (n as i64) as int == n
                        - 0x1_0000_0000_0000_0000) by (bit_vector);
                }
                ((n as i128) - 0x1_0000_0000_0000_0000) as i64
            };
            Ok((v, j))
        },
        Err(e) => Err(e),
    }
}

/// Decode one MessagePack value at `i` and print its JSON text: dispatch on
/// the tag byte, read exactly the declared length, recurse for containers.
/// Reserved tag 0xC1 and the bin/ext/fixext families are fatal.
#[verifier::rlimit(100)]
#[verifier::spinoff_prover]
pub fn main_impl(b: &Vec<u8>, i: usize) -> (r: Result<(Vec<TextPiece>, usize), Error>)
    ensures
        m2j_res_view(r) == spec_m2j(b@, i as int),
        r matches Ok(p) ==> i < p.1 && p.1 <= b@.len(),
    decreases tail_len(b@, i as int), 1int,
{
    if i >= b.len() {
        return Err(Error::UnterminatedContainer);
    }
    let t = b[i];
    if t <= 0x7F {
        Ok((single_text(fmt_u64(t as u64)), i + 1))
    } else if t <= 0x8F {
        print_map((t - 0x80) as usize, b, i + 1)
    } else if t <= 0x9F {
        print_array((t - 0x90) as usize, b, i + 1)
    } else if t <= 0xBF {
        print_str((t - 0xA0) as u64, b, i + 1)
    } else if t == 0xC0 {
        let mut w: Vec<u8> = Vec::new();
        w.push(0x6E);
        w.push(0x75);
        w.push(0x6C);
        w.push(0x6C);
        proof {
            assert(w@ =~= seq![0x6Eu8, 0x75u8, 0x6Cu8, 0x6Cu8]);
        }
        Ok((single_text(w), i + 1))
    } else if t == 0xC1 {
        Err(Error::UnexpectedByte)
    } else if t == 0xC2 {
        let mut w: Vec<u8> = Vec::new();
        w.push(0x66);
        w.push(0x61);
        w.push(0x6C);
        w.push(0x73);
        w.push(0x65);
        proof {
            assert(w@ =~= seq![0x66u8, 0x61u8, 0x6Cu8, 0x73u8, 0x65u8]);
        }
        Ok((single_text(w), i + 1))
    } else if t == 0xC3 {
        let mut w: Vec<u8> = Vec::new();
        w.push(0x74);
        w.push(0x72);
        w.push(0x75);
        w.push(0x65);
        proof {
            assert(w@ =~= seq![0x74u8, 0x72u8, 0x75u8, 0x65u8]);
        }
        Ok((single_text(w), i + 1))
    } else if t <= 0xC9 {
        Err(Error::UnsupportedFormatTag)
    } else if t == 0xCA {
        match get_u32(b, i + 1) {
            Ok((bits, j)) => {
                let mut ps: Vec<TextPiece> = Vec::new();
                ps.push(TextPiece::Float32(bits));
                proof {
                    assert(tview(ps@) =~= seq![TextPieceS::Float32(bits)]);
                }
                Ok((ps, j))
            },
            Err(e) => Err(e),
        }
    } else if t == 0xCB {
        match get_u64(b, i + 1) {
            Ok((bits, j)) => {
                let mut ps: Vec<TextPiece> = Vec::new();
                ps.push(TextPiece::Float64(bits));
                proof {
                    assert(tview(ps@) =~= seq![TextPieceS::Float64(bits)]);
                }
                Ok((ps, j))
            },
            Err(e) => Err(e),
        }
    } else if t == 0xCC {
        match get_u8(b, i + 1) {
            Ok((n, j)) => Ok((single_text(fmt_u64(n as u64)), j)),
            Err(e) => Err(e),
        }
    } else if t == 0xCD {
        match get_u16(b, i + 1) {
            Ok((n, j)) => Ok((single_text(fmt_u64(n as u64)), j)),
            Err(e) => Err(e),
        }
    } else if t == 0xCE {
        match get_u32(b, i + 1) {
            Ok((n, j)) => Ok((single_text(fmt_u64(n as u64)), j)),
            Err(e) => Err(e),
        }
    } else if t == 0xCF {
        match get_u64(b, i + 1) {
            Ok((n, j)) => Ok((single_text(fmt_u64(n)), j)),
            Err(e) => Err(e),
        }
    } else if t == 0xD0 {
        match get_i8(b, i + 1) {
            Ok((v, j)) => Ok((single_text(fmt_i64(v as i64)), j)),
            Err(e) => Err(e),
        }
    } else if t == 0xD1 {
        match get_i16(b, i + 1) {
            Ok((v, j)) => Ok((single_text(fmt_i64(v as i64)), j)),
            Err(e) => Err(e),
        }
    } else if t == 0xD2 {
        match get_i32(b, i + 1) {
            Ok((v, j)) => Ok((single_text(fmt_i64(v as i64)), j)),
            Err(e) => Err(e),
        }
    } else if t == 0xD3 {
        match get_i64(b, i + 1) {
            Ok((v, j)) => Ok((single_text(fmt_i64(v)), j)),
            Err(e) => Err(e),
        }
    } else if t <= 0xD8 {
        Err(Error::UnsupportedFormatTag)
    } else if t == 0xD9 {
        match get_u8(b, i + 1) {
            Ok((n, j)) => print_str(n as u64, b, j),
            Err(e) => Err(e),
        }
    } else if t == 0xDA {
        match get_u16(b, i + 1) {
            Ok((n, j)) => print_str(n as u64, b, j),
            Err(e) => Err(e),
        }
    } else if t == 0xDB {
        match get_u32(b, i + 1) {
            Ok((n, j)) => print_str(n as u64, b, j),
            Err(e) => Err(e),
        }
    } else if t == 0xDC {
        match get_u16(b, i + 1) {
            Ok((n, j)) => print_array(n as usize, b, j),
            Err(e) => Err(e),
        }
    } else if t == 0xDD {
        match get_u32(b, i + 1) {
            Ok((n, j)) => print_array(n as usize, b, j),
            Err(e) => Err(e),
        }
    } else if t == 0xDE {
        match get_u16(b, i + 1) {
            Ok((n, j)) => print_map(n as usize, b, j),
            Err(e) => Err(e),
        }
    } else if t == 0xDF {
        match get_u32(b, i + 1) {
            Ok((n, j)) => print_map(n as usize, b, j),
            Err(e) => Err(e),
        }
    } else {
        proof {
            assert(t >= 0xE0 ==> ((t as i8) as i64) == (t as i64) - 0x100) by (bit_vector);
        }
        Ok((single_text(fmt_i64((t as i8) as i64)), i + 1))
    }
}

/// Decode `length` key/value pairs at `i` and print them surrounded by
/// braces, pairs as `key:value`, a comma between pairs.
#[verifier::loop_isolation(false)]
#[verifier::rlimit(100)]
#[verifier::spinoff_prover]
pub fn print_map(length: usize, b: &Vec<u8>, i: usize) -> (r: Result<(Vec<TextPiece>, usize), Error>)
    ensures
        (match spec_dec_seq(b@, i as int, 2 * length as nat) {
            Ok((vs, j)) => r matches Ok(p) && tview(p.0@) == seq![
                TextPieceS::Bytes(seq![0x7Bu8]),
            ] + spec_print_map_list(vs, 0) + seq![TextPieceS::Bytes(seq![0x7Du8])] && p.1 == j,
            Err(e) => r matches Err(re) && re == e,
        }),
        r matches Ok(p) ==> i <= p.1 && (p.1 <= b@.len() || p.1 == i),
    decreases tail_len(b@, i as int), 2int,
{
    let ghost gr = spec_dec_seq(b@, i as int, 2 * length as nat);
    let mut open: Vec<u8> = Vec::new();
    open.push(0x7B);
    let mut out: Vec<TextPiece> = Vec::new();
    out.push(TextPiece::Bytes(open));
    proof {
        lemma_dec_seq_shape(b@, i as int, 2 * length as nat);
        match gr {
            Ok(p) => {
                assert(p.0.skip(0) =~= p.0);
                assert(spec_print_map_list_pre(p.0, 0) =~= Seq::<TextPieceS>::empty());
                assert(tview(out@) =~= seq![TextPieceS::Bytes(seq![0x7Bu8])]
                    + spec_print_map_list_pre(p.0, 0));
            },
            Err(_) => {},
        }
    }
    let mut cur = i;
    let mut k: usize = 0;
    while k < length
        invariant
            0 <= k <= length,
            i <= cur,
            cur <= b@.len() || cur == i,
            gr matches Ok(p) ==> {
                &&& spec_dec_seq(b@, cur as int, 2 * (length - k) as nat) matches Ok(q)
                &&& q.0 == p.0.skip(2 * k as int)
                &&& q.1 == p.1
                &&& tview(out@) == seq![TextPieceS::Bytes(seq![0x7Bu8])] + spec_print_map_list_pre(
                    p.0,
                    2 * k as int,
                )
                &&& p.0.len() == 2 * length
            },
            gr matches Err(e) ==> spec_dec_seq(b@, cur as int, 2 * (length - k) as nat) == Err::<
                (Seq<JVal>, int),
                Error,
            >(e),
        decreases length - k,
    {
        proof {
            assert(2 * (length - k) as nat >= 2);
            assert((2 * (length - k) as nat - 1) as nat >= 1);
            assert((2 * (length - k) as nat - 1 - 1) as nat == 2 * (length - (k + 1)) as nat);
        }
        let key = match main_impl(b, cur) {
            Ok(p) => p,
            Err(e) => {
                proof {
                    assert(spec_dec_value(b@, cur as int) == Err::<(JVal, int), Error>(e));
                    assert(spec_dec_seq(b@, cur as int, 2 * (length - k) as nat) == Err::<
                        (Seq<JVal>, int),
                        Error,
                    >(e));
                }
                return Err(e);
            },
        };
        let mut kp = key.0;
        let kj = key.1;
        let ghost kps = kp@;
        let val = match main_impl(b, kj) {
            Ok(p) => p,
            Err(e) => {
                proof {
                    assert(spec_dec_value(b@, cur as int) matches Ok(kq) && kq.1 == kj);
                    assert(spec_dec_value(b@, kj as int) == Err::<(JVal, int), Error>(e));
                    assert(spec_dec_seq(b@, kj as int, (2 * (length - k) as nat - 1) as nat)
                        == Err::<(Seq<JVal>, int), Error>(e));
                    assert(spec_dec_seq(b@, cur as int, 2 * (length - k) as nat) == Err::<
                        (Seq<JVal>, int),
                        Error,
                    >(e));
                }
                return Err(e);
            },
        };
        let mut vp = val.0;
        let vj = val.1;
        let ghost vps = vp@;
        let ghost out0 = out@;
        out.append(&mut kp);
        proof {
            assert(tview(out@) =~= tview(out0) + tview(kps));
        }
        let mut colon: Vec<u8> = Vec::new();
        colon.push(0x3A);
        let ghost out1 = out@;
        proof {
            assert(colon@ =~= seq![0x3Au8]);
        }
        out.push(TextPiece::Bytes(colon));
        proof {
            assert(tview(out@) =~= tview(out1) + seq![TextPieceS::Bytes(seq![0x3Au8])]);
        }
        let ghost out2 = out@;
        out.append(&mut vp);
        proof {
            assert(tview(out@) =~= tview(out2) + tview(vps));
        }
        if k < length - 1 {
            let mut comma: Vec<u8> = Vec::new();
            comma.push(0x2C);
            let ghost out3 = out@;
            proof {
                assert(comma@ =~= seq![0x2Cu8]);
            }
            out.push(TextPiece::Bytes(comma));
            proof {
                assert(tview(out@) =~= tview(out3) + seq![TextPieceS::Bytes(seq![0x2Cu8])]);
            }
        }
        proof {
            match gr {
                Ok(p) => {
                    let vs = p.0;
                    let tail = vs.skip(2 * k as int);
                    assert(seq![tail[0]] + tail.skip(1) =~= tail);
                    assert(seq![tail.skip(1)[0]] + tail.skip(1).skip(1) =~= tail.skip(1));
                    assert(tail.skip(1).skip(1) =~= vs.skip(2 * (k + 1) as int));
                    assert(tail[0] == vs[2 * k as int]);
                    assert(tail.skip(1)[0] == vs[2 * k + 1]);
                    assert((2 * (length - k) as nat - 1 - 1) as nat == 2 * (length - (k + 1))
                        as nat);
                    assert(tview(out@) =~= seq![TextPieceS::Bytes(seq![0x7Bu8])]
                        + spec_print_map_list_pre(vs, 2 * (k + 1) as int));
                },
                Err(_) => {},
            }
        }
        cur = vj;
        k = k + 1;
    }
    let mut close: Vec<u8> = Vec::new();
    close.push(0x7D);
    let ghost out4 = out@;
    proof {
        assert(close@ =~= seq![0x7Du8]);
    }
    out.push(TextPiece::Bytes(close));
    proof {
        assert(tview(out@) =~= tview(out4) + seq![TextPieceS::Bytes(seq![0x7Du8])]);
        match gr {
            Ok(p) => {
                lemma_print_map_list_split(p.0, 2 * length as int);
                assert(p.0.skip(2 * length as int) =~= Seq::<JVal>::empty());
                assert(spec_print_map_list(p.0, 2 * length as int) =~= Seq::<TextPieceS>::empty());
                assert(spec_print_map_list_pre(p.0, 2 * length as int) + spec_print_map_list(
                    p.0,
                    2 * length as int,
                ) =~= spec_print_map_list_pre(p.0, 2 * length as int));
                assert(tview(out@) =~= seq![TextPieceS::Bytes(seq![0x7Bu8])] + spec_print_map_list(
                    p.0,
                    0,
                ) + seq![TextPieceS::Bytes(seq![0x7Du8])]);
                assert(p.1 == cur);
            },
            Err(_) => {},
        }
    }
    Ok((out, cur))
}

/// Decode `length` values at `i` and print them surrounded by brackets, a
/// comma between elements.
#[verifier::loop_isolation(false)]
#[verifier::rlimit(100)]
#[verifier::spinoff_prover]
pub fn print_array(length: usize, b: &Vec<u8>, i: usize) -> (r: Result<
    (Vec<TextPiece>, usize),
    Error,
>)
    ensures
        (match spec_dec_seq(b@, i as int, length as nat) {
            Ok((vs, j)) => r matches Ok(p) && tview(p.0@) == seq![
                TextPieceS::Bytes(seq![0x5Bu8]),
            ] + spec_print_list(vs, 0) + seq![TextPieceS::Bytes(seq![0x5Du8])] && p.1 == j,
            Err(e) => r matches Err(re) && re == e,
        }),
        r matches Ok(p) ==> i <= p.1 && (p.1 <= b@.len() || p.1 == i),
    decreases tail_len(b@, i as int), 2int,
{
    let ghost gr = spec_dec_seq(b@, i as int, length as nat);
    let mut open: Vec<u8> = Vec::new();
    open.push(0x5B);
    let mut out: Vec<TextPiece> = Vec::new();
    out.push(TextPiece::Bytes(open));
    proof {
        lemma_dec_seq_shape(b@, i as int, length as nat);
        match gr {
            Ok(p) => {
                assert(p.0.skip(0) =~= p.0);
                assert(spec_print_list_pre(p.0, 0) =~= Seq::<TextPieceS>::empty());
                assert(tview(out@) =~= seq![TextPieceS::Bytes(seq![0x5Bu8])] + spec_print_list_pre(
                    p.0,
                    0,
                ));
            },
            Err(_) => {},
        }
    }
    let mut cur = i;
    let mut k: usize = 0;
    while k < length
        invariant
            0 <= k <= length,
            i <= cur,
            cur <= b@.len() || cur == i,
            gr matches Ok(p) ==> {
                &&& spec_dec_seq(b@, cur as int, (length - k) as nat) matches Ok(q)
                &&& q.0 == p.0.skip(k as int)
                &&& q.1 == p.1
                &&& tview(out@) == seq![TextPieceS::Bytes(seq![0x5Bu8])] + spec_print_list_pre(
                    p.0,
                    k as int,
                )
                &&& p.0.len() == length
            },
            gr matches Err(e) ==> spec_dec_seq(b@, cur as int, (length - k) as nat) == Err::<
                (Seq<JVal>, int),
                Error,
            >(e),
        decreases length - k,
    {
        proof {
            assert((length - k) as nat >= 1);
            assert(((length - k) as nat - 1) as nat == (length - (k + 1)) as nat);
        }
        let el = match main_impl(b, cur) {
            Ok(p) => p,
            Err(e) => {
                proof {
                    assert(spec_dec_value(b@, cur as int) == Err::<(JVal, int), Error>(e));
                    assert(spec_dec_seq(b@, cur as int, (length - k) as nat) == Err::<
                        (Seq<JVal>, int),
                        Error,
                    >(e));
                }
                return Err(e);
            },
        };
        let mut ep = el.0;
        let ej = el.1;
        let ghost eps = ep@;
        let ghost out0 = out@;
        out.append(&mut ep);
        proof {
            assert(tview(out@) =~= tview(out0) + tview(eps));
        }
        if k < length - 1 {
            let mut comma: Vec<u8> = Vec::new();
            comma.push(0x2C);
            let ghost out1 = out@;
            proof {
                assert(comma@ =~= seq![0x2Cu8]);
            }
            out.push(TextPiece::Bytes(comma));
            proof {
                assert(tview(out@) =~= tview(out1) + seq![TextPieceS::Bytes(seq![0x2Cu8])]);
            }
        }
        proof {
            match gr {
                Ok(p) => {
                    let vs = p.0;
                    let tail = vs.skip(k as int);
                    assert(seq![tail[0]] + tail.skip(1) =~= tail);
                    assert(tail.skip(1) =~= vs.skip(k + 1));
                    assert(tail[0] == vs[k as int]);
                    assert(tview(out@) =~= seq![TextPieceS::Bytes(seq![0x5Bu8])]
                        + spec_print_list_pre(vs, k + 1));
                },
                Err(_) => {},
            }
        }
        cur = ej;
        k = k + 1;
    }
    let mut close: Vec<u8> = Vec::new();
    close.push(0x5D);
    let ghost out2 = out@;
    proof {
        assert(close@ =~= seq![0x5Du8]);
    }
    out.push(TextPiece::Bytes(close));
    proof {
        assert(tview(out@) =~= tview(out2) + seq![TextPieceS::Bytes(seq![0x5Du8])]);
        match gr {
            Ok(p) => {
                lemma_print_list_split(p.0, length as int);
                assert(p.0.skip(length as int) =~= Seq::<JVal>::empty());
                assert(spec_print_list(p.0, length as int) =~= Seq::<TextPieceS>::empty());
                assert(spec_print_list_pre(p.0, length as int) + spec_print_list(p.0, length as int)
                    =~= spec_print_list_pre(p.0, length as int));
                assert(tview(out@) =~= seq![TextPieceS::Bytes(seq![0x5Bu8])] + spec_print_list(p.0, 0)
                    + seq![TextPieceS::Bytes(seq![0x5Du8])]);
            },
            Err(_) => {},
        }
    }
    Ok((out, cur))
}

/// Read `length` raw bytes at `i`, require them to be valid UTF-8, and
/// print them quoted, each quote byte escaped as backslash-quote.
#[verifier::loop_isolation(false)]
#[verifier::rlimit(80)]
pub fn print_str(length: u64, b: &Vec<u8>, i: usize) -> (r: Result<(Vec<TextPiece>, usize), Error>)
    ensures
        (match spec_dec_str(b@, i as int, length as nat) {
            Ok((v, j)) => r matches Ok(p) && v matches JVal::Str(bs) && tview(p.0@) == seq![
                TextPieceS::Bytes(seq![0x22u8] + esc_quotes(bs) + seq![0x22u8]),
            ] && p.1 == j,
            Err(e) => r matches Err(re) && re == e,
        }),
        r matches Ok(p) ==> i <= p.1 && p.1 <= b@.len(),
{
    if i > b.len() || length > ((b.len() - i) as u64) {
        return Err(Error::UnterminatedContainer);
    }
    let n = length as usize;
    let end = i + n;
    let ghost sub = b@.subrange(i as int, i + n as int);
    proof {
        assert(sub.skip(0) =~= sub);
    }
    // First pass: check that the bytes are UTF-8 as std accepts it.
    let mut cur = i;
    while cur < end
        invariant
            i <= cur <= end,
            end == i + n,
            end <= b@.len(),
            valid_utf8(sub) == valid_utf8(sub.skip(cur - i)),
        decreases end - cur,
    {
        let ghost q = cur - i;
        proof {
            assert(sub.skip(q) =~= b@.subrange(cur as int, end as int));
        }
        let b0 = b[cur];
        let left = end - cur;
        if b0 < 0x80 {
            proof {
                assert(sub.skip(q).skip(1) =~= sub.skip(q + 1));
            }
            cur = cur + 1;
        } else if 0xC2 <= b0 && b0 <= 0xDF {
            if left < 2 || !(0x80 <= b[cur + 1] && b[cur + 1] <= 0xBF) {
                return Err(Error::UnexpectedByte);
            }
            proof {
                assert(sub.skip(q).skip(2) =~= sub.skip(q + 2));
            }
            cur = cur + 2;
        } else if b0 == 0xE0 {
            if left < 3 || !(0xA0 <= b[cur + 1] && b[cur + 1] <= 0xBF) || !(0x80 <= b[cur + 2]
                && b[cur + 2] <= 0xBF) {
                return Err(Error::UnexpectedByte);
            }
            proof {
                assert(sub.skip(q).skip(3) =~= sub.skip(q + 3));
            }
            cur = cur + 3;
        } else if 0xE1 <= b0 && b0 <= 0xEF && b0 != 0xED {
            if left < 3 || !(0x80 <= b[cur + 1] && b[cur + 1] <= 0xBF) || !(0x80 <= b[cur + 2]
                && b[cur + 2] <= 0xBF) {
                return Err(Error::UnexpectedByte);
            }
            proof {
                assert(sub.skip(q).skip(3) =~= sub.skip(q + 3));
            }
            cur = cur + 3;
        } else if b0 == 0xED {
            if left < 3 || !(0x80 <= b[cur + 1] && b[cur + 1] <= 0x9F) || !(0x80 <= b[cur + 2]
                && b[cur + 2] <= 0xBF) {
                return Err(Error::UnexpectedByte);
            }
            proof {
                assert(sub.skip(q).skip(3) =~= sub.skip(q + 3));
            }
            cur = cur + 3;
        } else if b0 == 0xF0 {
            if left < 4 || !(0x90 <= b[cur + 1] && b[cur + 1] <= 0xBF) || !(0x80 <= b[cur + 2]
                && b[cur + 2] <= 0xBF) || !(0x80 <= b[cur + 3] && b[cur + 3] <= 0xBF) {
                return Err(Error::UnexpectedByte);
            }
            proof {
                assert(sub.skip(q).skip(4) =~= sub.skip(q + 4));
            }
            cur = cur + 4;
        } else if 0xF1 <= b0 && b0 <= 0xF3 {
            if left < 4 || !(0x80 <= b[cur + 1] && b[cur + 1] <= 0xBF) || !(0x80 <= b[cur + 2]
                && b[cur + 2] <= 0xBF) || !(0x80 <= b[cur + 3] && b[cur + 3] <= 0xBF) {
                return Err(Error::UnexpectedByte);
            }
            proof {
                assert(sub.skip(q).skip(4) =~= sub.skip(q + 4));
            }
            cur = cur + 4;
        } else if b0 == 0xF4 {
            if left < 4 || !(0x80 <= b[cur + 1] && b[cur + 1] <= 0x8F) || !(0x80 <= b[cur + 2]
                && b[cur + 2] <= 0xBF) || !(0x80 <= b[cur + 3] && b[cur + 3] <= 0xBF) {
                return Err(Error::UnexpectedByte);
            }
            proof {
                assert(sub.skip(q).skip(4) =~= sub.skip(q + 4));
            }
            cur = cur + 4;
        } else {
            return Err(Error::UnexpectedByte);
        }
    }
    proof {
        assert(sub.skip(n as int) =~= Seq::<u8>::empty());
    }
    // Second pass: copy the bytes, escaping each quote.
    let mut w: Vec<u8> = Vec::new();
    w.push(0x22);
    let mut q: usize = 0;
    while q < n
        invariant
            0 <= q <= n,
            end == i + n,
            end <= b@.len(),
            w@ == seq![0x22u8] + esc_quotes(sub.take(q as int)),
        decreases n - q,
    {
        let c = b[i + q];
        if c == 0x22 {
            w.push(0x5C);
            w.push(0x22);
        } else {
            w.push(c);
        }
        proof {
            lemma_esc_quotes_concat(sub.take(q as int), seq![sub[q as int]]);
            assert(seq![sub[q as int]].skip(1) =~= Seq::<u8>::empty());
            assert(sub.take(q as int) + seq![sub[q as int]] =~= sub.take(q + 1 as int));
            assert(esc_quotes(seq![sub[q as int]]) =~= (if sub[q as int] == 0x22 {
                seq![0x5Cu8, 0x22u8]
            } else {
                seq![sub[q as int]]
            }) + esc_quotes(Seq::<u8>::empty()));
            assert(w@ =~= seq![0x22u8] + esc_quotes(sub.take(q + 1 as int)));
        }
        q = q + 1;
    }
    w.push(0x22);
    proof {
        assert(sub.take(n as int) =~= sub);
        assert(w@ =~= seq![0x22u8] + esc_quotes(sub) + seq![0x22u8]);
    }
    Ok((single_text(w), end))
}

/// Escaping a concatenation escapes the parts.
pub proof fn lemma_esc_quotes_concat(a: Seq<u8>, c: Seq<u8>)
    ensures
        esc_quotes(a + c) == esc_quotes(a) + esc_quotes(c),
    decreases a.len(),
{
    if a.len() == 0 {
        assert(a + c =~= c);
        assert(esc_quotes(a) + esc_quotes(c) =~= esc_quotes(c));
    } else {
        lemma_esc_quotes_concat(a.skip(1), c);
        assert((a + c).skip(1) =~= a.skip(1) + c);
        assert(esc_quotes(a + c) =~= esc_quotes(a) + esc_quotes(c));
    }
}

/// Decode the first MessagePack value of `b` and return the fragments of
/// its JSON text; bytes past that value are ignored.
pub fn msgpack_to_json(b: &Vec<u8>) -> (r: Result<Vec<TextPiece>, Error>)
    ensures
        (match spec_m2j(b@, 0) {
            Ok((ps, j)) => r matches Ok(rp) && tview(rp@) == ps,
            Err(e) => r matches Err(re) && re == e,
        }),
{
    match main_impl(b, 0) {
        Ok((ps, _)) => Ok(ps),
        Err(e) => Err(e),
    }
}

} // verus!
