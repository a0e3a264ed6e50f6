use vstd::prelude::*;

use crate::err::Error;
use crate::model::{
    JVal, arr_header_s, int_bytes, map_header_s, spec_enc, str_header_s, tail_len, utf8_cp,
    valid_cp,
};
use crate::pieces::{BinPiece, BinPieceS, bview};

verus! {

broadcast use vstd::utf8::char_is_scalar;

// ---------------------------------------------------------------------------
// Specification: one JSON value parsed from a character position.
// ---------------------------------------------------------------------------

/// A character that ends a numeric literal.
pub open spec fn structural_char(c: char) -> bool {
    c == '[' || c == '{' || c == ']' || c == '}' || c == ':' || c == ','
}

/// The numeric literal starting at `i`: every character up to the next
/// structural character or the end of the input.
pub open spec fn spec_num_lit(s: Seq<char>, i: int) -> (Seq<char>, int)
    decreases tail_len(s, i),
{
    if i < 0 || i >= s.len() || structural_char(s[i]) {
        (Seq::empty(), i)
    } else {
        let (rest, j) = spec_num_lit(s, i + 1);
        (seq![s[i]] + rest, j)
    }
}

/// An ASCII decimal digit.
pub open spec fn is_digit(c: char) -> bool {
    0x30 <= c as u32 && c as u32 <= 0x39
}

/// Every character of `d` is a digit.
pub open spec fn all_digits(d: Seq<char>) -> bool {
    forall|k: int| 0 <= k < d.len() ==> is_digit(#[trigger] d[k])
}

/// The value of a digit string, most significant digit first.
pub open spec fn digits_val(d: Seq<char>) -> nat
    decreases d.len(),
{
    if d.len() == 0 {
        0
    } else {
        (digits_val(d.drop_last()) * 10 + d.last() as u32 - 0x30) as nat
    }
}

/// Whether the literal carries a minus sign.
pub open spec fn lit_neg(l: Seq<char>) -> bool {
    l.len() >= 1 && l[0] == '-'
}

/// The literal with an optional leading sign removed.
pub open spec fn lit_digits(l: Seq<char>) -> Seq<char> {
    if l.len() >= 1 && (l[0] == '-' || l[0] == '+') {
        l.skip(1)
    } else {
        l
    }
}

/// The shape every integer interpretation accepts: an optional sign, then
/// one or more digits.
pub open spec fn int_shape(l: Seq<char>) -> bool {
    lit_digits(l).len() >= 1 && all_digits(lit_digits(l))
}

/// The first position at or after `i` holding `a` or `b2`, or the length.
pub open spec fn find_ch2(m: Seq<char>, a: char, b2: char, i: int) -> int
    decreases tail_len(m, i),
{
    if i < 0 || i >= m.len() {
        m.len() as int
    } else if m[i] == a || m[i] == b2 {
        i
    } else {
        find_ch2(m, a, b2, i + 1)
    }
}

/// The code point of `c` with an ASCII capital letter lowered.
pub open spec fn lower_cp(c: int) -> int {
    if 0x41 <= c && c <= 0x5A {
        c + 0x20
    } else {
        c
    }
}

/// `l` spells `w` up to ASCII case.
pub open spec fn ci_word(l: Seq<char>, w: Seq<char>) -> bool {
    l.len() == w.len() && forall|k: int|
        0 <= k < l.len() ==> lower_cp(#[trigger] l[k] as u32 as int) == w[k] as u32 as int
}

/// A float mantissa: digits, with at most one point, at least one digit.
pub open spec fn mant_ok(m: Seq<char>) -> bool {
    let p = find_ch2(m, '.', '.', 0);
    if p == m.len() {
        m.len() >= 1 && all_digits(m)
    } else {
        all_digits(m.take(p)) && all_digits(m.skip(p + 1)) && (p >= 1 || m.len() - p - 1 >= 1)
    }
}

/// The unsigned part of a float literal as std's float parser accepts it:
/// a mantissa with an optional exponent, or inf/infinity/nan in any case.
pub open spec fn float_body_ok(bdy: Seq<char>) -> bool {
    ||| ci_word(bdy, seq!['i', 'n', 'f'])
    ||| ci_word(bdy, seq!['i', 'n', 'f', 'i', 'n', 'i', 't', 'y'])
    ||| ci_word(bdy, seq!['n', 'a', 'n'])
    ||| {
        let ep = find_ch2(bdy, 'e', 'E', 0);
        &&& mant_ok(bdy.take(ep))
        &&& (ep == bdy.len() || int_shape(bdy.skip(ep + 1)))
    }
}

/// A numeric literal std's float parser accepts: an optional sign, then a
/// float body.
pub open spec fn float_lit_ok(l: Seq<char>) -> bool {
    float_body_ok(lit_digits(l))
}

/// Parse a numeric literal at `i` through the ordered interpretations:
/// unsigned 64-bit magnitudes become integers, signed ones within 64 bits
/// become negative integers, anything else must be a float literal.
pub open spec fn spec_parse_number(s: Seq<char>, i: int) -> Result<(JVal, int), Error> {
    let (lit, j) = spec_num_lit(s, i);
    if int_shape(lit) {
        let mag = digits_val(lit_digits(lit));
        if !lit_neg(lit) && mag <= 0xFFFF_FFFF_FFFF_FFFF {
            Ok((JVal::Int { neg: false, mag }, j))
        } else if lit_neg(lit) && mag <= 0x8000_0000_0000_0000 {
            Ok((JVal::Int { neg: mag > 0, mag }, j))
        } else if float_lit_ok(lit) {
            Ok((JVal::FloatLit(lit), j))
        } else {
            Err(Error::NoApplicableEncoding)
        }
    } else if float_lit_ok(lit) {
        Ok((JVal::FloatLit(lit), j))
    } else {
        Err(Error::NoApplicableEncoding)
    }
}

/// Consume exactly the characters of `w` at `i`.
pub open spec fn spec_expect(s: Seq<char>, i: int, w: Seq<char>) -> Result<int, Error>
    decreases w.len(),
{
    if w.len() == 0 {
        Ok(i)
    } else if i < 0 || i >= s.len() {
        Err(Error::UnterminatedContainer)
    } else if s[i] != w[0] {
        Err(Error::UnexpectedToken)
    } else {
        spec_expect(s, i + 1, w.skip(1))
    }
}

/// The value of a hexadecimal digit, or -1.
pub open spec fn spec_hexval(c: char) -> int {
    if 0x30 <= c as u32 && c as u32 <= 0x39 {
        c as u32 - 0x30
    } else if 0x61 <= c as u32 && c as u32 <= 0x66 {
        c as u32 - 0x57
    } else if 0x41 <= c as u32 && c as u32 <= 0x46 {
        c as u32 - 0x37
    } else {
        -1
    }
}

/// The UTF-8 bytes of a string body starting just after the opening quote:
/// characters are copied, escapes resolved, the closing quote consumed.
pub open spec fn spec_str_body(s: Seq<char>, i: int) -> Result<(Seq<u8>, int), Error>
    decreases tail_len(s, i), 0int,
{
    if i < 0 || i >= s.len() {
        Err(Error::UnterminatedContainer)
    } else {
        let c = s[i];
        if c == '"' {
            Ok((Seq::empty(), i + 1))
        } else if c == '\\' {
            if i + 1 >= s.len() {
                Err(Error::UnterminatedContainer)
            } else {
                let e = s[i + 1];
                if e == '"' || e == '\\' || e == '/' {
                    match spec_str_body(s, i + 2) {
                        Ok((bs, j)) => Ok((utf8_cp(e as u32 as int) + bs, j)),
                        Err(er) => Err(er),
                    }
                } else if e == 'b' || e == 'f' || e == 'n' || e == 'r' || e == 't' {
                    let cp: int = if e == 'b' {
                        0x08
                    } else if e == 'f' {
                        0x0C
                    } else if e == 'n' {
                        0x0A
                    } else if e == 'r' {
                        0x0D
                    } else {
                        0x09
                    };
                    match spec_str_body(s, i + 2) {
                        Ok((bs, j)) => Ok((utf8_cp(cp) + bs, j)),
                        Err(er) => Err(er),
                    }
                } else if e == 'u' {
                    if i + 6 > s.len() {
                        Err(Error::UnterminatedContainer)
                    } else {
                        let h0 = spec_hexval(s[i + 2]);
                        let h1 = spec_hexval(s[i + 3]);
                        let h2 = spec_hexval(s[i + 4]);
                        let h3 = spec_hexval(s[i + 5]);
                        if h0 < 0 || h1 < 0 || h2 < 0 || h3 < 0 {
                            Err(Error::InvalidEscape)
                        } else {
                            let cp = h0 * 0x1000 + h1 * 0x100 + h2 * 0x10 + h3;
                            if !valid_cp(cp) {
                                Err(Error::InvalidEscape)
                            } else {
                                match spec_str_body(s, i + 6) {
                                    Ok((bs, j)) => Ok((utf8_cp(cp) + bs, j)),
                                    Err(er) => Err(er),
                                }
                            }
                        }
                    }
                } else {
                    Err(Error::InvalidEscape)
                }
            }
        } else if (c as u32) < 0x20 {
            Err(Error::UnexpectedToken)
        } else {
            match spec_str_body(s, i + 1) {
                Ok((bs, j)) => Ok((utf8_cp(c as u32 as int) + bs, j)),
                Err(er) => Err(er),
            }
        }
    }
}

/// Parse a quoted string at `i`; its UTF-8 body must fit a str32 header.
pub open spec fn spec_parse_string(s: Seq<char>, i: int) -> Result<(JVal, int), Error>
    decreases tail_len(s, i), 1int,
{
    if i < 0 || i >= s.len() {
        Err(Error::UnterminatedContainer)
    } else if s[i] != '"' {
        Err(Error::UnexpectedToken)
    } else {
        match spec_str_body(s, i + 1) {
            Ok((bs, j)) => if bs.len() <= 0xFFFF_FFFF {
                Ok((JVal::Str(bs), j))
            } else {
                Err(Error::NoApplicableEncoding)
            },
            Err(e) => Err(e),
        }
    }
}

/// Parse one member, `string ':' value`, as the two-element list key then
/// value.
pub open spec fn spec_parse_member(s: Seq<char>, i: int) -> Result<(Seq<JVal>, int), Error>
    decreases tail_len(s, i), 2int,
{
    if i < 0 || i >= s.len() {
        Err(Error::UnterminatedContainer)
    } else {
    match spec_parse_string(s, i) {
        Ok((k, j)) => {
            if j >= s.len() {
                Err(Error::UnterminatedContainer)
            } else if s[j] != ':' {
                Err(Error::UnexpectedToken)
            } else {
                let vi = if j + 1 > i + 1 {
                    j + 1
                } else {
                    i + 1
                };
                match spec_parse_value(s, vi) {
                    Ok((v, e)) => Ok((seq![k, v], e)),
                    Err(er) => Err(er),
                }
            }
        },
        Err(e) => Err(e),
    }
    }
}

/// Parse members separated by commas until a closing brace, starting at a
/// member.
pub open spec fn spec_member_list(s: Seq<char>, i: int) -> Result<(Seq<JVal>, int), Error>
    decreases tail_len(s, i), 4int,
{
    if i < 0 || i >= s.len() {
        Err(Error::UnterminatedContainer)
    } else {
    match spec_parse_member(s, i) {
        Ok((kv, j)) => {
            if j >= s.len() {
                Err(Error::UnterminatedContainer)
            } else if s[j] == '}' {
                Ok((kv, j + 1))
            } else if s[j] == ',' {
                let ni = if j + 1 > i + 1 {
                    j + 1
                } else {
                    i + 1
                };
                match spec_member_list(s, ni) {
                    Ok((rest, e)) => Ok((kv + rest, e)),
                    Err(er) => Err(er),
                }
            } else {
                Err(Error::UnexpectedToken)
            }
        },
        Err(e) => Err(e),
    }
    }
}

/// The member list of an object body: empty before an immediate closing
/// brace, else a comma-separated member list.
pub open spec fn spec_members0(s: Seq<char>, i: int) -> Result<(Seq<JVal>, int), Error>
    decreases tail_len(s, i), 5int,
{
    if i < 0 || i >= s.len() {
        Err(Error::UnterminatedContainer)
    } else if s[i] == '}' {
        Ok((Seq::empty(), i + 1))
    } else {
        spec_member_list(s, i)
    }
}

/// Parse an object at `i`; its pair count must fit a map32 header.
pub open spec fn spec_parse_object(s: Seq<char>, i: int) -> Result<(JVal, int), Error>
    decreases tail_len(s, i), 1int,
{
    if i < 0 || i >= s.len() {
        Err(Error::UnterminatedContainer)
    } else if s[i] != '{' {
        Err(Error::UnexpectedToken)
    } else {
        match spec_members0(s, i + 1) {
            Ok((kvs, j)) => if kvs.len() / 2 <= 0xFFFF_FFFF {
                Ok((JVal::Obj(kvs), j))
            } else {
                Err(Error::NoApplicableEncoding)
            },
            Err(e) => Err(e),
        }
    }
}

/// Parse elements separated by commas until a closing bracket, starting at
/// a value.
pub open spec fn spec_elem_list(s: Seq<char>, i: int) -> Result<(Seq<JVal>, int), Error>
    decreases tail_len(s, i), 4int,
{
    if i < 0 || i >= s.len() {
        Err(Error::UnterminatedContainer)
    } else {
    match spec_parse_value(s, i) {
        Ok((v, j)) => {
            if j >= s.len() {
                Err(Error::UnterminatedContainer)
            } else if s[j] == ']' {
                Ok((seq![v], j + 1))
            } else if s[j] == ',' {
                let ni = if j + 1 > i + 1 {
                    j + 1
                } else {
                    i + 1
                };
                match spec_elem_list(s, ni) {
                    Ok((rest, e)) => Ok((seq![v] + rest, e)),
                    Err(er) => Err(er),
                }
            } else {
                Err(Error::UnexpectedToken)
            }
        },
        Err(e) => Err(e),
    }
    }
}

/// The element list of an array body.
pub open spec fn spec_elems0(s: Seq<char>, i: int) -> Result<(Seq<JVal>, int), Error>
    decreases tail_len(s, i), 5int,
{
    if i < 0 || i >= s.len() {
        Err(Error::UnterminatedContainer)
    } else if s[i] == ']' {
        Ok((Seq::empty(), i + 1))
    } else {
        spec_elem_list(s, i)
    }
}

/// Parse an array at `i`; its element count must fit an array32 header.
pub open spec fn spec_parse_array(s: Seq<char>, i: int) -> Result<(JVal, int), Error>
    decreases tail_len(s, i), 1int,
{
    if i < 0 || i >= s.len() {
        Err(Error::UnterminatedContainer)
    } else if s[i] != '[' {
        Err(Error::UnexpectedToken)
    } else {
        match spec_elems0(s, i + 1) {
            Ok((vs, j)) => if vs.len() <= 0xFFFF_FFFF {
                Ok((JVal::Arr(vs), j))
            } else {
                Err(Error::NoApplicableEncoding)
            },
            Err(e) => Err(e),
        }
    }
}

/// Parse one JSON value at `i`, dispatching on its first character.
pub open spec fn spec_parse_value(s: Seq<char>, i: int) -> Result<(JVal, int), Error>
    decreases tail_len(s, i), 3int,
{
    if i < 0 || i >= s.len() {
        Err(Error::UnterminatedContainer)
    } else {
        let c = s[i];
        if c == 'f' {
            match spec_expect(s, i, seq!['f', 'a', 'l', 's', 'e']) {
                Ok(j) => Ok((JVal::False, j)),
                Err(e) => Err(e),
            }
        } else if c == 'n' {
            match spec_expect(s, i, seq!['n', 'u', 'l', 'l']) {
                Ok(j) => Ok((JVal::Null, j)),
                Err(e) => Err(e),
            }
        } else if c == 't' {
            match spec_expect(s, i, seq!['t', 'r', 'u', 'e']) {
                Ok(j) => Ok((JVal::True, j)),
                Err(e) => Err(e),
            }
        } else if c == '{' {
            spec_parse_object(s, i)
        } else if c == '[' {
            spec_parse_array(s, i)
        } else if c == '-' || is_digit(c) {
            spec_parse_number(s, i)
        } else if c == '"' {
            spec_parse_string(s, i)
        } else {
            Err(Error::UnexpectedToken)
        }
    }
}

/// The encoded fragments of a value: float literals stand alone, containers
/// are a header fragment followed by their children's fragments, everything
/// else is one byte fragment.
pub open spec fn spec_enc_pieces(v: JVal) -> Seq<BinPieceS>
    decreases v, 0int,
{
    match v {
        JVal::FloatLit(l) => seq![BinPieceS::FloatLit(l)],
        JVal::Arr(vs) => seq![BinPieceS::Bytes(arr_header_s(vs.len()))] + spec_enc_pieces_list(
            vs,
            0,
        ),
        JVal::Obj(kvs) => seq![BinPieceS::Bytes(map_header_s((kvs.len() / 2) as nat))]
            + spec_enc_pieces_list(kvs, 0),
        _ => seq![BinPieceS::Bytes(spec_enc(v))],
    }
}

/// The concatenated fragments of the elements of `vs` from `k` on.
pub open spec fn spec_enc_pieces_list(vs: Seq<JVal>, k: int) -> Seq<BinPieceS>
    decreases vs, tail_len(vs, k),
{
    if k < 0 || k >= vs.len() {
        Seq::empty()
    } else {
        spec_enc_pieces(vs[k]) + spec_enc_pieces_list(vs, k + 1)
    }
}

/// The fragments of a concatenation are the concatenated fragments.
pub proof fn lemma_epl_concat(a: Seq<JVal>, c: Seq<JVal>)
    ensures
        spec_enc_pieces_list(a + c, 0) == spec_enc_pieces_list(a, 0) + spec_enc_pieces_list(c, 0),
    decreases a.len(),
{
    if a.len() == 0 {
        assert(a + c =~= c);
        assert(spec_enc_pieces_list(a, 0) + spec_enc_pieces_list(c, 0) =~= spec_enc_pieces_list(
            c,
            0,
        ));
    } else {
        lemma_epl_concat(a.skip(1), c);
        assert((a + c).skip(1) =~= a.skip(1) + c);
        lemma_epl_step(a + c);
        lemma_epl_step(a);
        assert(spec_enc_pieces_list(a + c, 0) =~= spec_enc_pieces_list(a, 0)
            + spec_enc_pieces_list(c, 0));
    }
}

/// A nonempty fragment list is its head's fragments then the rest's.
pub proof fn lemma_epl_step(vs: Seq<JVal>)
    requires
        vs.len() >= 1,
    ensures
        spec_enc_pieces_list(vs, 0) == spec_enc_pieces(vs[0]) + spec_enc_pieces_list(vs.skip(1), 0),
    decreases vs.len(),
{
    lemma_epl_shift(vs, 1);
}

/// The fragments from `k` on equal the fragments of the `k`-shifted list.
pub proof fn lemma_epl_shift(vs: Seq<JVal>, k: int)
    requires
        0 <= k <= vs.len(),
    ensures
        spec_enc_pieces_list(vs, k) == spec_enc_pieces_list(vs.skip(k), 0),
    decreases vs.len() - k,
{
    if k == vs.len() {
        assert(spec_enc_pieces_list(vs.skip(k), 0) =~= Seq::<BinPieceS>::empty());
    } else {
        lemma_epl_shift(vs, k + 1);
        lemma_epl_shift(vs.skip(k), 1);
        assert(vs.skip(k).skip(1) =~= vs.skip(k + 1));
        assert(vs.skip(k)[0] == vs[k]);
        lemma_epl_head(vs.skip(k));
        assert(spec_enc_pieces_list(vs, k) =~= spec_enc_pieces_list(vs.skip(k), 0));
    }
}

/// Unfold one step of a nonempty fragment list.
pub proof fn lemma_epl_head(vs: Seq<JVal>)
    requires
        vs.len() >= 1,
    ensures
        spec_enc_pieces_list(vs, 0) == spec_enc_pieces(vs[0]) + spec_enc_pieces_list(vs, 1),
{
}

/// One parsed value at `i`, as its encoded fragments and the position just
/// past it.
pub open spec fn spec_j2m(s: Seq<char>, i: int) -> Result<(Seq<BinPieceS>, int), Error> {
    match spec_parse_value(s, i) {
        Ok((v, j)) => Ok((spec_enc_pieces(v), j)),
        Err(e) => Err(e),
    }
}

/// The mathematical form of an executable encode result.
pub open spec fn j2m_res_view(r: Result<(Vec<BinPiece>, usize), Error>) -> Result<
    (Seq<BinPieceS>, int),
    Error,
> {
    match r {
        Ok((ps, j)) => Ok((bview(ps@), j as int)),
        Err(e) => Err(e),
    }
}

// ---------------------------------------------------------------------------
// Executable encoding.
// ---------------------------------------------------------------------------

/// A single encoded fragment holding the given bytes.
fn single_bin(bytes: Vec<u8>) -> (r: Vec<BinPiece>)
    ensures
        bview(r@) == seq![BinPieceS::Bytes(bytes@)],
{
    let ghost bs = bytes@;
    let mut r: Vec<BinPiece> = Vec::new();
    r.push(BinPiece::Bytes(bytes));
    proof {
        assert(bview(r@) =~= seq![BinPieceS::Bytes(bs)]);
    }
    r
}

/// Append the two big-endian bytes of `n`.
fn push_be2(w: &mut Vec<u8>, n: u64)
    requires
        n <= 0xFFFF,
    ensures
        final(w)@ == old(w)@ + crate::model::be2(n as nat),
{
    let ghost o = w@;
    w.push(((n / 0x100) % 0x100) as u8);
    w.push((n % 0x100) as u8);
    proof {
        assert(w@ =~= o + crate::model::be2(n as nat));
    }
}

/// Append the four big-endian bytes of `n`.
fn push_be4(w: &mut Vec<u8>, n: u64)
    requires
        n <= 0xFFFF_FFFF,
    ensures
        final(w)@ == old(w)@ + crate::model::be4(n as nat),
{
    let ghost o = w@;
    w.push(((n / 0x100_0000) % 0x100) as u8);
    w.push(((n / 0x1_0000) % 0x100) as u8);
    w.push(((n / 0x100) % 0x100) as u8);
    w.push((n % 0x100) as u8);
    proof {
        assert(w@ =~= o + crate::model::be4(n as nat));
    }
}

/// Append the eight big-endian bytes of `n`.
fn push_be8(w: &mut Vec<u8>, n: u64)
    ensures
        final(w)@ == old(w)@ + crate::model::be8(n as nat),
{
    let ghost o = w@;
    w.push(((n / 0x100_0000_0000_0000) % 0x100) as u8);
    w.push(((n / 0x1_0000_0000_0000) % 0x100) as u8);
    w.push(((n / 0x100_0000_0000) % 0x100) as u8);
    w.push(((n / 0x1_0000_0000) % 0x100) as u8);
    w.push(((n / 0x100_0000) % 0x100) as u8);
    w.push(((n / 0x1_0000) % 0x100) as u8);
    w.push(((n / 0x100) % 0x100) as u8);
    w.push((n % 0x100) as u8);
    proof {
        assert(w@ =~= o + crate::model::be8(n as nat));
    }
}

/// The smallest string header for `n` body bytes, or the fatal report that
/// no header class can hold `n`.
pub fn str_header(n: usize) -> (r: Result<Vec<u8>, Error>)
    ensures
        n <= 0xFFFF_FFFF ==> (r matches Ok(w) && w@ == str_header_s(n as nat)),
        n > 0xFFFF_FFFF ==> r == Err::<Vec<u8>, Error>(Error::NoApplicableEncoding),
{
    let mut w: Vec<u8> = Vec::new();
    if n <= 31 {
        w.push(0xA0 + n as u8);
        proof {
            assert(w@ =~= str_header_s(n as nat));
        }
        Ok(w)
    } else if n <= 0xFF {
        w.push(0xD9);
        w.push(n as u8);
        proof {
            assert(w@ =~= str_header_s(n as nat));
        }
        Ok(w)
    } else if n <= 0xFFFF {
        w.push(0xDA);
        push_be2(&mut w, n as u64);
        proof {
            assert(w@ =~= str_header_s(n as nat));
        }
        Ok(w)
    } else if n as u64 <= 0xFFFF_FFFF {
        w.push(0xDB);
        push_be4(&mut w, n as u64);
        proof {
            assert(w@ =~= str_header_s(n as nat));
        }
        Ok(w)
    } else {
        Err(Error::NoApplicableEncoding)
    }
}

/// The smallest array header for `n` elements, or the fatal report that no
/// header class can hold `n`.
pub fn arr_header(n: usize) -> (r: Result<Vec<u8>, Error>)
    ensures
        n <= 0xFFFF_FFFF ==> (r matches Ok(w) && w@ == arr_header_s(n as nat)),
        n > 0xFFFF_FFFF ==> r == Err::<Vec<u8>, Error>(Error::NoApplicableEncoding),
{
    let mut w: Vec<u8> = Vec::new();
    if n <= 15 {
        w.push(0x90 + n as u8);
        proof {
            assert(w@ =~= arr_header_s(n as nat));
        }
        Ok(w)
    } else if n <= 0xFFFF {
        w.push(0xDC);
        push_be2(&mut w, n as u64);
        proof {
            assert(w@ =~= arr_header_s(n as nat));
        }
        Ok(w)
    } else if n as u64 <= 0xFFFF_FFFF {
        w.push(0xDD);
        push_be4(&mut w, n as u64);
        proof {
            assert(w@ =~= arr_header_s(n as nat));
        }
        Ok(w)
    } else {
        Err(Error::NoApplicableEncoding)
    }
}

/// The smallest map header for `n` pairs, or the fatal report that no
/// header class can hold `n`.
pub fn map_header(n: usize) -> (r: Result<Vec<u8>, Error>)
    ensures
        n <= 0xFFFF_FFFF ==> (r matches Ok(w) && w@ == map_header_s(n as nat)),
        n > 0xFFFF_FFFF ==> r == Err::<Vec<u8>, Error>(Error::NoApplicableEncoding),
{
    let mut w: Vec<u8> = Vec::new();
    if n <= 15 {
        w.push(0x80 + n as u8);
        proof {
            assert(w@ =~= map_header_s(n as nat));
        }
        Ok(w)
    } else if n <= 0xFFFF {
        w.push(0xDE);
        push_be2(&mut w, n as u64);
        proof {
            assert(w@ =~= map_header_s(n as nat));
        }
        Ok(w)
    } else if n as u64 <= 0xFFFF_FFFF {
        w.push(0xDF);
        push_be4(&mut w, n as u64);
        proof {
            assert(w@ =~= map_header_s(n as nat));
        }
        Ok(w)
    } else {
        Err(Error::NoApplicableEncoding)
    }
}

/// The smallest wire form of an integer within the supported ranges.
fn int_wire(neg: bool, mag: u64) -> (r: Vec<u8>)
    requires
        neg ==> 1 <= mag && mag <= 0x8000_0000_0000_0000,
    ensures
        r@ == int_bytes(neg, mag as nat),
{
    let mut w: Vec<u8> = Vec::new();
    if !neg {
        if mag <= 0x7F {
            w.push(mag as u8);
        } else if mag <= 0xFF {
            w.push(0xCC);
            w.push(mag as u8);
        } else if mag <= 0xFFFF {
            w.push(0xCD);
            push_be2(&mut w, mag);
        } else if mag <= 0xFFFF_FFFF {
            w.push(0xCE);
            push_be4(&mut w, mag);
        } else {
            w.push(0xCF);
            push_be8(&mut w, mag);
        }
    } else {
        if mag <= 32 {
            w.push((0x100u16 - mag as u16) as u8);
        } else if mag <= 0x80 {
            w.push(0xD0);
            w.push((0x100u16 - mag as u16) as u8);
        } else if mag <= 0x8000 {
            w.push(0xD1);
            push_be2(&mut w, 0x1_0000 - mag);
        } else if mag <= 0x8000_0000 {
            w.push(0xD2);
            push_be4(&mut w, 0x1_0000_0000 - mag);
        } else {
            w.push(0xD3);
            push_be8(&mut w, ((0x1_0000_0000_0000_0000u128 - mag as u128) as u64));
        }
    }
    proof {
        assert(w@ =~= int_bytes(neg, mag as nat));
    }
    w
}

/// Append the UTF-8 bytes of one code point.
fn push_utf8(v: &mut Vec<u8>, cp: u32)
    requires
        valid_cp(cp as int),
    ensures
        final(v)@ == old(v)@ + utf8_cp(cp as int),
{
    let ghost o = v@;
    if cp < 0x80 {
        v.push(cp as u8);
    } else if cp < 0x800 {
        assert(cp / 64 < 32);
        v.push(0xC0 + (cp / 64) as u8);
        v.push(0x80 + (cp % 64) as u8);
    } else if cp < 0x10000 {
        assert(cp / 4096 < 16);
        v.push(0xE0 + (cp / 4096) as u8);
        v.push(0x80 + ((cp / 64) % 64) as u8);
        v.push(0x80 + (cp % 64) as u8);
    } else {
        assert(cp / 262144 < 8);
        v.push(0xF0 + (cp / 262144) as u8);
        v.push(0x80 + ((cp / 4096) % 64) as u8);
        v.push(0x80 + ((cp / 64) % 64) as u8);
        v.push(0x80 + (cp % 64) as u8);
    }
    proof {
        assert(v@ =~= o + utf8_cp(cp as int));
    }
}

/// The value of a hexadecimal digit character, or -1.
fn hexval(c: char) -> (r: i32)
    ensures
        r as int == spec_hexval(c),
{
    let x = c as u32;
    if 0x30 <= x && x <= 0x39 {
        (x - 0x30) as i32
    } else if 0x61 <= x && x <= 0x66 {
        (x - 0x57) as i32
    } else if 0x41 <= x && x <= 0x46 {
        (x - 0x37) as i32
    } else {
        -1
    }
}

/// Whether `c` ends a numeric literal.
fn is_structural(c: char) -> (r: bool)
    ensures
        r == structural_char(c),
{
    c == '[' || c == '{' || c == ']' || c == '}' || c == ':' || c == ','
}

/// The code point of `c`, ASCII capitals lowered.
fn lower32(c: char) -> (r: u32)
    ensures
        r as int == lower_cp(c as u32 as int),
{
    let x = c as u32;
    if 0x41 <= x && x <= 0x5A {
        x + 0x20
    } else {
        x
    }
}

/// Whether `lit` from `st` on spells `w` up to ASCII case.
#[verifier::loop_isolation(false)]
fn ci_match(lit: &Vec<char>, st: usize, w: &Vec<char>) -> (r: bool)
    requires
        st <= lit@.len(),
    ensures
        r == ci_word(lit@.skip(st as int), w@),
{
    proof {
        assert(lit.len() == lit@.len());
    }
    if lit.len() - st != w.len() {
        return false;
    }
    let mut k: usize = 0;
    while k < w.len()
        invariant
            0 <= k <= w@.len(),
            st + w@.len() == lit@.len(),
            forall|t: int|
                0 <= t < k ==> lower_cp(#[trigger] lit@.skip(st as int)[t] as u32 as int) == w@[t] as u32 as int,
        decreases w@.len() - k,
    {
        let a = lower32(lit[st + k]);
        let b2 = w[k] as u32;
        proof {
            assert(lit@.skip(st as int)[k as int] == lit@[st + k]);
        }
        if a != b2 {
            return false;
        }
        proof {
            assert(lower_cp(lit@.skip(st as int)[k as int] as u32 as int) == w@[k as int] as u32 as int);
        }
        k = k + 1;
    }
    true
}

/// Whether every character of `lit` in `from..to` is a decimal digit.
#[verifier::loop_isolation(false)]
fn all_digits_chk(lit: &Vec<char>, from: usize, to: usize) -> (r: bool)
    requires
        from <= to <= lit@.len(),
    ensures
        r == all_digits(lit@.subrange(from as int, to as int)),
{
    let mut k = from;
    while k < to
        invariant
            from <= k <= to <= lit@.len(),
            forall|t: int|
                from <= t < k ==> is_digit(#[trigger] lit@[t]),
        decreases to - k,
    {
        let x = lit[k] as u32;
        if !(0x30 <= x && x <= 0x39) {
            proof {
                assert(lit@.subrange(from as int, to as int)[k - from] == lit@[k as int]);
            }
            return false;
        }
        proof {
            assert(is_digit(lit@[k as int]));
        }
        k = k + 1;
    }
    proof {
        assert forall|t: int| 0 <= t < to - from implies is_digit(
            #[trigger] lit@.subrange(from as int, to as int)[t],
        ) by {
            assert(lit@.subrange(from as int, to as int)[t] == lit@[from + t]);
        }
    }
    true
}

/// Whether `lit` is a float literal as std's float parser accepts it.
#[verifier::loop_isolation(false)]
#[verifier::rlimit(100)]
#[verifier::spinoff_prover]
fn float_lit_chk(lit: &Vec<char>) -> (r: bool)
    ensures
        r == float_lit_ok(lit@),
{
    proof {
        assert(lit.len() == lit@.len());
    }
    let n = lit.len();
    let st: usize = if n >= 1 && (lit[0] == '-' || lit[0] == '+') {
        1
    } else {
        0
    };
    let ghost bdy = lit_digits(lit@);
    proof {
        assert(bdy =~= lit@.skip(st as int));
    }
    let mut w1: Vec<char> = Vec::new();
    w1.push('i');
    w1.push('n');
    w1.push('f');
    proof {
        assert(w1@ =~= seq!['i', 'n', 'f']);
    }
    if ci_match(lit, st, &w1) {
        return true;
    }
    let mut w2: Vec<char> = Vec::new();
    w2.push('i');
    w2.push('n');
    w2.push('f');
    w2.push('i');
    w2.push('n');
    w2.push('i');
    w2.push('t');
    w2.push('y');
    proof {
        assert(w2@ =~= seq!['i', 'n', 'f', 'i', 'n', 'i', 't', 'y']);
    }
    if ci_match(lit, st, &w2) {
        return true;
    }
    let mut w3: Vec<char> = Vec::new();
    w3.push('n');
    w3.push('a');
    w3.push('n');
    proof {
        assert(w3@ =~= seq!['n', 'a', 'n']);
    }
    if ci_match(lit, st, &w3) {
        return true;
    }
    // decimal form: mantissa, optional exponent
    let blen = n - st;
    let mut k: usize = 0;
    while k < blen
        invariant
            0 <= k <= blen,
            blen == bdy.len(),
            st + blen == lit@.len(),
            bdy =~= lit@.skip(st as int),
            find_ch2(bdy, 'e', 'E', 0) == find_ch2(bdy, 'e', 'E', k as int),
            forall|t: int| 0 <= t < k ==> !(bdy[t] == 'e' || bdy[t] == 'E'),
        decreases blen - k,
    {
        let c = lit[st + k];
        proof {
            assert(bdy[k as int] == lit@[st + k]);
        }
        if c == 'e' || c == 'E' {
            break;
        }
        k = k + 1;
    }
    let ep = k;
    proof {
        if ep == blen {
            assert(find_ch2(bdy, 'e', 'E', ep as int) == bdy.len());
        }
        assert(find_ch2(bdy, 'e', 'E', 0) == ep);
    }
    // mantissa: bdy[0 .. ep]: find the dot
    let ghost m = bdy.take(ep as int);
    let mut p: usize = 0;
    while p < ep
        invariant
            0 <= p <= ep <= blen,
            blen == bdy.len(),
            st + blen == lit@.len(),
            bdy =~= lit@.skip(st as int),
            m =~= bdy.take(ep as int),
            find_ch2(m, '.', '.', 0) == find_ch2(m, '.', '.', p as int),
            forall|t: int| 0 <= t < p ==> m[t] != '.',
        decreases ep - p,
    {
        let c = lit[st + p];
        proof {
            assert(m[p as int] == lit@[st + p]);
        }
        if c == '.' {
            break;
        }
        p = p + 1;
    }
    proof {
        if p == ep {
            assert(find_ch2(m, '.', '.', p as int) == m.len());
        }
        assert(find_ch2(m, '.', '.', 0) == p);
    }
    let mant_good: bool;
    if p == ep {
        mant_good = ep >= 1 && all_digits_chk(lit, st, st + ep);
        proof {
            assert(m =~= lit@.subrange(st as int, (st + ep) as int));
        }
    } else {
        let ip_ok = all_digits_chk(lit, st, st + p);
        let fp_ok = all_digits_chk(lit, st + p + 1, st + ep);
        mant_good = ip_ok && fp_ok && (p >= 1 || ep - p - 1 >= 1);
        proof {
            assert(m.take(p as int) =~= lit@.subrange(st as int, (st + p) as int));
            assert(m.skip(p + 1) =~= lit@.subrange((st + p + 1) as int, (st + ep) as int));
        }
    }
    if !mant_good {
        return false;
    }
    if ep == blen {
        return true;
    }
    // exponent: bdy[ep + 1 .. blen]: an optional sign then digits
    let efrom = st + ep + 1;
    let ghost ex = bdy.skip(ep + 1);
    proof {
        assert(ex =~= lit@.subrange(efrom as int, n as int));
    }
    let est: usize = if n - efrom >= 1 && (lit[efrom] == '-' || lit[efrom] == '+') {
        efrom + 1
    } else {
        efrom
    };
    proof {
        assert(lit_digits(ex) =~= lit@.subrange(est as int, n as int));
    }
    let r = n - est >= 1 && all_digits_chk(lit, est, n);
    r
}

/// Parse the keyword `false` at `i` and yield its one-byte encoding.
pub fn parse_false(s: &Vec<char>, i: usize) -> (r: Result<(Vec<BinPiece>, usize), Error>)
    ensures
        (match spec_expect(s@, i as int, seq!['f', 'a', 'l', 's', 'e']) {
            Ok(j) => r matches Ok(p) && bview(p.0@) == seq![BinPieceS::Bytes(seq![0xC2u8])] && p.1
                == j,
            Err(e) => r matches Err(re) && re == e,
        }),
        r matches Ok(p) ==> i < p.1 && p.1 <= s@.len(),
{
    proof {
        reveal_with_fuel(spec_expect, 6);
        assert(s.len() == s@.len());
        assert(seq!['f', 'a', 'l', 's', 'e'].skip(1) =~= seq!['a', 'l', 's', 'e']);
        assert(seq!['a', 'l', 's', 'e'].skip(1) =~= seq!['l', 's', 'e']);
        assert(seq!['l', 's', 'e'].skip(1) =~= seq!['s', 'e']);
        assert(seq!['s', 'e'].skip(1) =~= seq!['e']);
        assert(seq!['e'].skip(1) =~= Seq::<char>::empty());
    }
    if i >= s.len() {
        return Err(Error::UnterminatedContainer);
    }
    if s[i] != 'f' {
        return Err(Error::UnexpectedToken);
    }
    if i + 1 >= s.len() {
        return Err(Error::UnterminatedContainer);
    }
    if s[i + 1] != 'a' {
        return Err(Error::UnexpectedToken);
    }
    if i + 2 >= s.len() {
        return Err(Error::UnterminatedContainer);
    }
    if s[i + 2] != 'l' {
        return Err(Error::UnexpectedToken);
    }
    if i + 3 >= s.len() {
        return Err(Error::UnterminatedContainer);
    }
    if s[i + 3] != 's' {
        return Err(Error::UnexpectedToken);
    }
    if i + 4 >= s.len() {
        return Err(Error::UnterminatedContainer);
    }
    if s[i + 4] != 'e' {
        return Err(Error::UnexpectedToken);
    }
    let mut w: Vec<u8> = Vec::new();
    w.push(0xC2);
    proof {
        assert(w@ =~= seq![0xC2u8]);
    }
    Ok((single_bin(w), i + 5))
}

/// Parse the keyword `null` at `i` and yield its one-byte encoding.
pub fn parse_null(s: &Vec<char>, i: usize) -> (r: Result<(Vec<BinPiece>, usize), Error>)
    ensures
        (match spec_expect(s@, i as int, seq!['n', 'u', 'l', 'l']) {
            Ok(j) => r matches Ok(p) && bview(p.0@) == seq![BinPieceS::Bytes(seq![0xC0u8])] && p.1
                == j,
            Err(e) => r matches Err(re) && re == e,
        }),
        r matches Ok(p) ==> i < p.1 && p.1 <= s@.len(),
{
    proof {
        reveal_with_fuel(spec_expect, 5);
        assert(s.len() == s@.len());
        assert(seq!['n', 'u', 'l', 'l'].skip(1) =~= seq!['u', 'l', 'l']);
        assert(seq!['u', 'l', 'l'].skip(1) =~= seq!['l', 'l']);
        assert(seq!['l', 'l'].skip(1) =~= seq!['l']);
        assert(seq!['l'].skip(1) =~= Seq::<char>::empty());
    }
    if i >= s.len() {
        return Err(Error::UnterminatedContainer);
    }
    if s[i] != 'n' {
        return Err(Error::UnexpectedToken);
    }
    if i + 1 >= s.len() {
        return Err(Error::UnterminatedContainer);
    }
    if s[i + 1] != 'u' {
        return Err(Error::UnexpectedToken);
    }
    if i + 2 >= s.len() {
        return Err(Error::UnterminatedContainer);
    }
    if s[i + 2] != 'l' {
        return Err(Error::UnexpectedToken);
    }
    if i + 3 >= s.len() {
        return Err(Error::UnterminatedContainer);
    }
    if s[i + 3] != 'l' {
        return Err(Error::UnexpectedToken);
    }
    let mut w: Vec<u8> = Vec::new();
    w.push(0xC0);
    proof {
        assert(w@ =~= seq![0xC0u8]);
    }
    Ok((single_bin(w), i + 4))
}

/// Parse the keyword `true` at `i` and yield its one-byte encoding.
pub fn parse_true(s: &Vec<char>, i: usize) -> (r: Result<(Vec<BinPiece>, usize), Error>)
    ensures
        (match spec_expect(s@, i as int, seq!['t', 'r', 'u', 'e']) {
            Ok(j) => r matches Ok(p) && bview(p.0@) == seq![BinPieceS::Bytes(seq![0xC3u8])] && p.1
                == j,
            Err(e) => r matches Err(re) && re == e,
        }),
        r matches Ok(p) ==> i < p.1 && p.1 <= s@.len(),
{
    proof {
        reveal_with_fuel(spec_expect, 5);
        assert(s.len() == s@.len());
        assert(seq!['t', 'r', 'u', 'e'].skip(1) =~= seq!['r', 'u', 'e']);
        assert(seq!['r', 'u', 'e'].skip(1) =~= seq!['u', 'e']);
        assert(seq!['u', 'e'].skip(1) =~= seq!['e']);
        assert(seq!['e'].skip(1) =~= Seq::<char>::empty());
    }
    if i >= s.len() {
        return Err(Error::UnterminatedContainer);
    }
    if s[i] != 't' {
        return Err(Error::UnexpectedToken);
    }
    if i + 1 >= s.len() {
        return Err(Error::UnterminatedContainer);
    }
    if s[i + 1] != 'r' {
        return Err(Error::UnexpectedToken);
    }
    if i + 2 >= s.len() {
        return Err(Error::UnterminatedContainer);
    }
    if s[i + 2] != 'u' {
        return Err(Error::UnexpectedToken);
    }
    if i + 3 >= s.len() {
        return Err(Error::UnterminatedContainer);
    }
    if s[i + 3] != 'e' {
        return Err(Error::UnexpectedToken);
    }
    let mut w: Vec<u8> = Vec::new();
    w.push(0xC3);
    proof {
        assert(w@ =~= seq![0xC3u8]);
    }
    Ok((single_bin(w), i + 4))
}

/// Capture the numeric literal at `i` and try the ordered interpretations:
/// the first unsigned width that holds it, then the signed widths, then a
/// float literal left for the caller; anything else is fatal.
#[verifier::loop_isolation(false)]
#[verifier::rlimit(100)]
#[verifier::spinoff_prover]
pub fn parse_number(s: &Vec<char>, i: usize) -> (r: Result<(Vec<BinPiece>, usize), Error>)
    ensures
        (match spec_parse_number(s@, i as int) {
            Ok((v, j)) => r matches Ok(p) && bview(p.0@) == spec_enc_pieces(v) && p.1 == j,
            Err(e) => r matches Err(re) && re == e,
        }),
        r matches Ok(p) ==> i <= p.1 && p.1 <= s@.len(),
{
    proof {
        assert(s.len() == s@.len());
    }
    // capture the literal
    let mut lit: Vec<char> = Vec::new();
    let mut cur = i;
    while cur < s.len() && !is_structural(s[cur])
        invariant
            i <= cur,
            cur <= s@.len() || cur == i,
            spec_num_lit(s@, i as int).0 == lit@ + spec_num_lit(s@, cur as int).0,
            spec_num_lit(s@, i as int).1 == spec_num_lit(s@, cur as int).1,
        decreases tail_len(s@, cur as int),
    {
        lit.push(s[cur]);
        proof {
            assert(lit@.drop_last() + (seq![s@[cur as int]] + spec_num_lit(s@, cur + 1).0) =~= lit@
                + spec_num_lit(s@, cur + 1).0);
        }
        cur = cur + 1;
    }
    proof {
        assert(lit@ + Seq::<char>::empty() =~= lit@);
        assert(spec_num_lit(s@, i as int).0 == lit@);
        assert(spec_num_lit(s@, i as int).1 == cur);
    }
    let n = lit.len();
    let st: usize = if n >= 1 && (lit[0] == '-' || lit[0] == '+') {
        1
    } else {
        0
    };
    let neg = n >= 1 && lit[0] == '-';
    proof {
        assert(lit_digits(lit@) =~= lit@.subrange(st as int, n as int));
        assert(neg == lit_neg(lit@));
    }
    // scan the digits, accumulating the magnitude
    let mut k = st;
    let mut acc: u128 = 0;
    let mut big = false;
    let mut digs = true;
    while k < n
        invariant
            st <= k <= n,
            n == lit@.len(),
            digs == all_digits(lit@.subrange(st as int, k as int)),
            digs && !big ==> acc as nat == digits_val(lit@.subrange(st as int, k as int)),
            digs && big ==> digits_val(lit@.subrange(st as int, k as int))
                > 0xFFFF_FFFF_FFFF_FFFF,
        decreases n - k,
    {
        let c = lit[k];
        let x = c as u32;
        let ghost pre = lit@.subrange(st as int, k as int);
        let ghost post = lit@.subrange(st as int, (k + 1) as int);
        proof {
            assert(post.drop_last() =~= pre);
            assert(post.last() == lit@[k as int]);
            assert forall|t: int| 0 <= t < post.len() && all_digits(pre) && is_digit(
                lit@[k as int],
            ) implies is_digit(#[trigger] post[t]) by {
                if t < pre.len() {
                    assert(post[t] == pre[t]);
                }
            }
        }
        if 0x30 <= x && x <= 0x39 {
            let d = (x - 0x30) as u128;
            if digs {
                if !big {
                    if acc > 0xFFFF_FFFF_FFFF_FFFF {
                        big = true;
                        proof {
                            assert(digits_val(post) == digits_val(pre) * 10 + (x - 0x30));
                            assert(digits_val(pre) * 10 >= digits_val(pre)) by (nonlinear_arith);
                        }
                    } else {
                        acc = acc * 10 + d;
                    }
                } else {
                    proof {
                        assert(digits_val(post) == digits_val(pre) * 10 + (x - 0x30));
                        assert(digits_val(pre) * 10 >= digits_val(pre)) by (nonlinear_arith);
                    }
                }
            }
        } else {
            digs = false;
            proof {
                assert(!is_digit(post[(k - st) as int]));
            }
        }
        k = k + 1;
    }
    proof {
        assert(lit@.subrange(st as int, n as int) =~= lit_digits(lit@));
    }
    let shape = digs && n - st >= 1;
    proof {
        assert(shape == int_shape(lit@));
    }
    if shape && !neg && !big && acc <= 0xFFFF_FFFF_FFFF_FFFFu128 {
        let w = int_wire(false, acc as u64);
        return Ok((single_bin(w), cur));
    }
    if shape && neg && !big && acc <= 0x8000_0000_0000_0000u128 {
        let m = acc as u64;
        let w = int_wire(m > 0, m);
        return Ok((single_bin(w), cur));
    }
    if float_lit_chk(&lit) {
        let ghost l = lit@;
        let mut out: Vec<BinPiece> = Vec::new();
        out.push(BinPiece::FloatLit(lit));
        proof {
            assert(bview(out@) =~= seq![BinPieceS::FloatLit(l)]);
        }
        return Ok((out, cur));
    }
    Err(Error::NoApplicableEncoding)
}

/// Parse a quoted string at `i` and yield its header and UTF-8 body as one
/// fragment: characters are copied, escapes resolved, four hex digits after
/// a backslash-u becoming one code point (surrogates are fatal).
#[verifier::loop_isolation(false)]
#[verifier::rlimit(100)]
#[verifier::spinoff_prover]
pub fn parse_string(s: &Vec<char>, i: usize) -> (r: Result<(Vec<BinPiece>, usize), Error>)
    ensures
        (match spec_parse_string(s@, i as int) {
            Ok((v, j)) => r matches Ok(p) && bview(p.0@) == spec_enc_pieces(v) && p.1 == j,
            Err(e) => r matches Err(re) && re == e,
        }),
        r matches Ok(p) ==> i < p.1 && p.1 <= s@.len(),
{
    proof {
        assert(s.len() == s@.len());
    }
    if i >= s.len() {
        return Err(Error::UnterminatedContainer);
    }
    if s[i] != '"' {
        return Err(Error::UnexpectedToken);
    }
    let ghost gb = spec_str_body(s@, i + 1);
    let mut body: Vec<u8> = Vec::new();
    let mut cur = i + 1;
    loop
        invariant
            i + 1 <= cur,
            cur <= s@.len() + 1,
            (match spec_str_body(s@, cur as int) {
                Ok((t, e)) => gb matches Ok(g) && g.0 == body@ + t && g.1 == e,
                Err(er) => gb matches Err(ger) && ger == er,
            }),
        decreases s@.len() - cur,
    {
        if cur >= s.len() {
            return Err(Error::UnterminatedContainer);
        }
        let c = s[cur];
        if c == '"' {
            proof {
                assert(body@ + Seq::<u8>::empty() =~= body@);
            }
            let hdr = match str_header(body.len()) {
                Ok(h) => h,
                Err(e2) => {
                    return Err(e2);
                },
            };
            let ghost hs = hdr@;
            let ghost bs = body@;
            let mut w = hdr;
            w.append(&mut body);
            proof {
                assert(w@ =~= hs + bs);
            }
            return Ok((single_bin(w), cur + 1));
        }
        if c == '\\' {
            if cur + 1 >= s.len() {
                return Err(Error::UnterminatedContainer);
            }
            let e = s[cur + 1];
            if e == '"' || e == '\\' || e == '/' {
                let ghost b0 = body@;
                push_utf8(&mut body, e as u32);
                proof {
                    match spec_str_body(s@, cur + 2) {
                        Ok(t2) => {
                            assert(b0 + (utf8_cp(e as u32 as int) + t2.0) =~= body@ + t2.0);
                        },
                        Err(_) => {},
                    }
                }
                cur = cur + 2;
            } else if e == 'b' || e == 'f' || e == 'n' || e == 'r' || e == 't' {
                let cp: u32 = if e == 'b' {
                    0x08
                } else if e == 'f' {
                    0x0C
                } else if e == 'n' {
                    0x0A
                } else if e == 'r' {
                    0x0D
                } else {
                    0x09
                };
                let ghost b0 = body@;
                push_utf8(&mut body, cp);
                proof {
                    match spec_str_body(s@, cur + 2) {
                        Ok(t2) => {
                            assert(b0 + (utf8_cp(cp as int) + t2.0) =~= body@ + t2.0);
                        },
                        Err(_) => {},
                    }
                }
                cur = cur + 2;
            } else if e == 'u' {
                if s.len() - cur < 6 {
                    return Err(Error::UnterminatedContainer);
                }
                let h0 = hexval(s[cur + 2]);
                let h1 = hexval(s[cur + 3]);
                let h2 = hexval(s[cur + 4]);
                let h3 = hexval(s[cur + 5]);
                if h0 < 0 || h1 < 0 || h2 < 0 || h3 < 0 {
                    return Err(Error::InvalidEscape);
                }
                let cp: u32 = (h0 as u32) * 0x1000 + (h1 as u32) * 0x100 + (h2 as u32) * 0x10 + (
                h3 as u32);
                if 0xD800 <= cp && cp <= 0xDFFF {
                    return Err(Error::InvalidEscape);
                }
                let ghost b0 = body@;
                push_utf8(&mut body, cp);
                proof {
                    match spec_str_body(s@, cur + 6) {
                        Ok(t2) => {
                            assert(b0 + (utf8_cp(cp as int) + t2.0) =~= body@ + t2.0);
                        },
                        Err(_) => {},
                    }
                }
                cur = cur + 6;
            } else {
                return Err(Error::InvalidEscape);
            }
        } else {
            let x = c as u32;
            if x < 0x20 {
                return Err(Error::UnexpectedToken);
            }
            let ghost b0 = body@;
            proof {
                vstd::utf8::char_is_scalar(c);
                assert(valid_cp(x as int));
            }
            push_utf8(&mut body, x);
            proof {
                match spec_str_body(s@, cur + 1) {
                    Ok(t2) => {
                        assert(b0 + (utf8_cp(c as u32 as int) + t2.0) =~= body@ + t2.0);
                    },
                    Err(_) => {},
                }
            }
            cur = cur + 1;
        }
    }
}

/// Parse one member, `string ':' value`, and yield the key's fragment
/// followed by the value's fragments.
pub fn parse_member(s: &Vec<char>, i: usize) -> (r: Result<(Vec<BinPiece>, usize), Error>)
    ensures
        (match spec_parse_member(s@, i as int) {
            Ok((kv, j)) => r matches Ok(p) && bview(p.0@) == spec_enc_pieces_list(kv, 0) && p.1
                == j,
            Err(e) => r matches Err(re) && re == e,
        }),
        r matches Ok(p) ==> i < p.1 && p.1 <= s@.len(),
    decreases tail_len(s@, i as int), 2int,
{
    proof {
        assert(s.len() == s@.len());
    }
    if i >= s.len() {
        return Err(Error::UnterminatedContainer);
    }
    let key = match parse_string(s, i) {
        Ok(p) => p,
        Err(e) => {
            return Err(e);
        },
    };
    let mut kp = key.0;
    let kj = key.1;
    if kj >= s.len() {
        return Err(Error::UnterminatedContainer);
    }
    if s[kj] != ':' {
        return Err(Error::UnexpectedToken);
    }
    let val = match parse_value(s, kj + 1) {
        Ok(p) => p,
        Err(e) => {
            return Err(e);
        },
    };
    let mut vp = val.0;
    let vj = val.1;
    let ghost kps = kp@;
    let ghost vps = vp@;
    let mut out = kp;
    out.append(&mut vp);
    proof {
        assert(bview(out@) =~= bview(kps) + bview(vps));
        match (spec_parse_string(s@, i as int), spec_parse_value(s@, kj + 1)) {
            (Ok((kv, _)), Ok((vv, _))) => {
                let pair = seq![kv, vv];
                assert(pair.skip(1) =~= seq![vv]);
                assert(seq![vv].skip(1) =~= Seq::<JVal>::empty());
                lemma_epl_head(pair);
                lemma_epl_shift(pair, 1);
                lemma_epl_head(seq![vv]);
                lemma_epl_shift(seq![vv], 1);
                assert(spec_enc_pieces_list(Seq::<JVal>::empty(), 0) =~= Seq::<
                    BinPieceS,
                >::empty());
                assert(spec_enc_pieces_list(pair, 0) =~= spec_enc_pieces(kv) + spec_enc_pieces(
                    vv,
                ));
                assert(bview(out@) =~= spec_enc_pieces_list(pair, 0));
            },
            _ => {},
        }
    }
    Ok((out, vj))
}

/// Parse an object at `i`: a brace, members separated by commas, a closing
/// brace; the fragments are the smallest map header then the members'.
#[verifier::loop_isolation(false)]
#[verifier::rlimit(100)]
#[verifier::spinoff_prover]
pub fn parse_object(s: &Vec<char>, i: usize) -> (r: Result<(Vec<BinPiece>, usize), Error>)
    ensures
        (match spec_parse_object(s@, i as int) {
            Ok((v, j)) => r matches Ok(p) && bview(p.0@) == spec_enc_pieces(v) && p.1 == j,
            Err(e) => r matches Err(re) && re == e,
        }),
        r matches Ok(p) ==> i < p.1 && p.1 <= s@.len(),
    decreases tail_len(s@, i as int), 1int,
{
    proof {
        assert(s.len() == s@.len());
    }
    if i >= s.len() {
        return Err(Error::UnterminatedContainer);
    }
    if s[i] != '{' {
        return Err(Error::UnexpectedToken);
    }
    let start = i + 1;
    if start >= s.len() {
        return Err(Error::UnterminatedContainer);
    }
    if s[start] == '}' {
        let hdr = match map_header(0) {
            Ok(h) => h,
            Err(e) => {
                return Err(e);
            },
        };
        let ghost hs = hdr@;
        let mut out: Vec<BinPiece> = Vec::new();
        out.push(BinPiece::Bytes(hdr));
        proof {
            assert(spec_enc_pieces_list(Seq::<JVal>::empty(), 0) =~= Seq::<BinPieceS>::empty());
            assert(bview(out@) =~= spec_enc_pieces(JVal::Obj(Seq::empty())));
        }
        return Ok((out, start + 1));
    }
    let ghost gm = spec_member_list(s@, start as int);
    let mut body: Vec<BinPiece> = Vec::new();
    let ghost mut cvs: Seq<JVal> = Seq::empty();
    let mut n: usize = 0;
    let mut cur = start;
    loop
        invariant
            start <= cur <= s@.len(),
            start == i + 1,
            i < s@.len(),
            s@[i as int] == '{',
            start < s@.len(),
            s@[start as int] != '}',
            cvs.len() == 2 * n,
            n <= cur - start,
            bview(body@) == spec_enc_pieces_list(cvs, 0),
            (match spec_member_list(s@, cur as int) {
                Ok((t, e)) => gm matches Ok(g) && g.0 == cvs + t && g.1 == e,
                Err(er) => gm matches Err(ger) && ger == er,
            }),
        decreases tail_len(s@, cur as int),
    {
        let mem = match parse_member(s, cur) {
            Ok(p) => p,
            Err(e) => {
                return Err(e);
            },
        };
        let mut mp = mem.0;
        let mj = mem.1;
        let ghost mps = mp@;
        let ghost kv = (match spec_parse_member(s@, cur as int) {
            Ok((kv0, _)) => kv0,
            Err(_) => Seq::empty(),
        });
        body.append(&mut mp);
        proof {
            lemma_epl_concat(cvs, kv);
            assert(bview(body@) =~= spec_enc_pieces_list(cvs + kv, 0));
            cvs = cvs + kv;
        }
        n = n + 1;
        if mj >= s.len() {
            return Err(Error::UnterminatedContainer);
        }
        let d = s[mj];
        if d == '}' {
            let hdr = match map_header(n) {
                Ok(h) => h,
                Err(e) => {
                    return Err(e);
                },
            };
            let ghost hs = hdr@;
            let ghost bps = body@;
            let mut out: Vec<BinPiece> = Vec::new();
            out.push(BinPiece::Bytes(hdr));
            out.append(&mut body);
            proof {
                assert(bview(out@) =~= seq![BinPieceS::Bytes(hs)] + bview(bps));
            }
            return Ok((out, mj + 1));
        } else if d == ',' {
            cur = mj + 1;
        } else {
            return Err(Error::UnexpectedToken);
        }
    }
}

/// Parse an array at `i`: a bracket, values separated by commas, a closing
/// bracket; the fragments are the smallest array header then the elements'.
#[verifier::loop_isolation(false)]
#[verifier::rlimit(100)]
#[verifier::spinoff_prover]
pub fn parse_array(s: &Vec<char>, i: usize) -> (r: Result<(Vec<BinPiece>, usize), Error>)
    ensures
        (match spec_parse_array(s@, i as int) {
            Ok((v, j)) => r matches Ok(p) && bview(p.0@) == spec_enc_pieces(v) && p.1 == j,
            Err(e) => r matches Err(re) && re == e,
        }),
        r matches Ok(p) ==> i < p.1 && p.1 <= s@.len(),
    decreases tail_len(s@, i as int), 1int,
{
    proof {
        assert(s.len() == s@.len());
    }
    if i >= s.len() {
        return Err(Error::UnterminatedContainer);
    }
    if s[i] != '[' {
        return Err(Error::UnexpectedToken);
    }
    let start = i + 1;
    if start >= s.len() {
        return Err(Error::UnterminatedContainer);
    }
    if s[start] == ']' {
        let hdr = match arr_header(0) {
            Ok(h) => h,
            Err(e) => {
                return Err(e);
            },
        };
        let mut out: Vec<BinPiece> = Vec::new();
        out.push(BinPiece::Bytes(hdr));
        proof {
            assert(spec_enc_pieces_list(Seq::<JVal>::empty(), 0) =~= Seq::<BinPieceS>::empty());
            assert(bview(out@) =~= spec_enc_pieces(JVal::Arr(Seq::empty())));
        }
        return Ok((out, start + 1));
    }
    let ghost ge = spec_elem_list(s@, start as int);
    let mut body: Vec<BinPiece> = Vec::new();
    let ghost mut cvs: Seq<JVal> = Seq::empty();
    let mut n: usize = 0;
    let mut cur = start;
    loop
        invariant
            start <= cur <= s@.len(),
            start == i + 1,
            i < s@.len(),
            s@[i as int] == '[',
            start < s@.len(),
            s@[start as int] != ']',
            cvs.len() == n,
            n <= cur - start,
            bview(body@) == spec_enc_pieces_list(cvs, 0),
            (match spec_elem_list(s@, cur as int) {
                Ok((t, e)) => ge matches Ok(g) && g.0 == cvs + t && g.1 == e,
                Err(er) => ge matches Err(ger) && ger == er,
            }),
        decreases tail_len(s@, cur as int),
    {
        let el = match parse_value(s, cur) {
            Ok(p) => p,
            Err(e) => {
                return Err(e);
            },
        };
        let mut epc = el.0;
        let ej = el.1;
        let ghost eps = epc@;
        let ghost vv = (match spec_parse_value(s@, cur as int) {
            Ok((v0, _)) => v0,
            Err(_) => JVal::Null,
        });
        body.append(&mut epc);
        proof {
            lemma_epl_concat(cvs, seq![vv]);
            lemma_epl_head(seq![vv]);
            assert(seq![vv].skip(1) =~= Seq::<JVal>::empty());
            assert(spec_enc_pieces_list(seq![vv], 1) =~= Seq::<BinPieceS>::empty());
            assert(bview(body@) =~= spec_enc_pieces_list(cvs + seq![vv], 0));
            cvs = cvs + seq![vv];
        }
        n = n + 1;
        if ej >= s.len() {
            return Err(Error::UnterminatedContainer);
        }
        let d = s[ej];
        if d == ']' {
            let hdr = match arr_header(n) {
                Ok(h) => h,
                Err(e) => {
                    return Err(e);
                },
            };
            let ghost hs = hdr@;
            let ghost bps = body@;
            let mut out: Vec<BinPiece> = Vec::new();
            out.push(BinPiece::Bytes(hdr));
            out.append(&mut body);
            proof {
                assert(bview(out@) =~= seq![BinPieceS::Bytes(hs)] + bview(bps));
            }
            return Ok((out, ej + 1));
        } else if d == ',' {
            cur = ej + 1;
        } else {
            return Err(Error::UnexpectedToken);
        }
    }
}

/// Parse one JSON value at `i`, dispatching on its first character, and
/// yield the fragments of its MessagePack encoding and the position just
/// past it. Insignificant whitespace must already be stripped.
#[verifier::rlimit(100)]
#[verifier::spinoff_prover]
pub fn parse_value(s: &Vec<char>, i: usize) -> (r: Result<(Vec<BinPiece>, usize), Error>)
    ensures
        j2m_res_view(r) == spec_j2m(s@, i as int),
        r matches Ok(p) ==> i < p.1 && p.1 <= s@.len(),
    decreases tail_len(s@, i as int), 3int,
{
    proof {
        assert(s.len() == s@.len());
    }
    if i >= s.len() {
        return Err(Error::UnterminatedContainer);
    }
    let c = s[i];
    if c == 'f' {
        parse_false(s, i)
    } else if c == 'n' {
        parse_null(s, i)
    } else if c == 't' {
        parse_true(s, i)
    } else if c == '{' {
        parse_object(s, i)
    } else if c == '[' {
        parse_array(s, i)
    } else if c == '-' || (0x30 <= c as u32 && c as u32 <= 0x39) {
        let nr = parse_number(s, i);
        proof {
            lemma_num_lit_pos(s@, i as int);
        }
        nr
    } else if c == '"' {
        parse_string(s, i)
    } else {
        Err(Error::UnexpectedToken)
    }
}

/// A nonempty captured literal ends past its start.
proof fn lemma_num_lit_pos(s: Seq<char>, i: int)
    requires
        0 <= i < s.len(),
        !structural_char(s[i]),
    ensures
        spec_num_lit(s, i).1 > i,
        spec_num_lit(s, i).1 <= s.len(),
    decreases tail_len(s, i),
{
    lemma_num_lit_end(s, i + 1);
}

/// The captured literal never ends past the input.
proof fn lemma_num_lit_end(s: Seq<char>, i: int)
    requires
        0 <= i,
    ensures
        spec_num_lit(s, i).1 >= i,
        spec_num_lit(s, i).1 <= s.len() || spec_num_lit(s, i).1 == i,
    decreases tail_len(s, i),
{
    if !(i >= s.len() || structural_char(s[i])) {
        lemma_num_lit_end(s, i + 1);
    }
}

/// Parse the first JSON value of `s` (whitespace already stripped) and
/// return the fragments of its MessagePack encoding; characters past that
/// value are ignored.
pub fn json_to_msgpack(s: &Vec<char>) -> (r: Result<Vec<BinPiece>, Error>)
    ensures
        (match spec_j2m(s@, 0) {
            Ok((ps, j)) => r matches Ok(rp) && bview(rp@) == ps,
            Err(e) => r matches Err(re) && re == e,
        }),
{
    match parse_value(s, 0) {
        Ok((ps, _)) => Ok(ps),
        Err(e) => Err(e),
    }
}

} // verus!
