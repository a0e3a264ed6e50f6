use vstd::prelude::*;

use crate::decode::{spec_dec_seq, spec_dec_value, spec_m2j};
use crate::err::Error;
use crate::model::{JVal, spec_enc, spec_enc_list, tail_len, wf, wf_list};
use crate::pieces::TextPieceS;

verus! {

/// Two big-endian bytes reassemble to their value.
proof fn lemma_be2_rt(n: u64)
    requires
        n <= 0xFFFF,
    ensures
        ((n / 0x100) % 0x100) * 0x100 + (n % 0x100) == n,
{
    assert(n <= 0xFFFF ==> ((n / 0x100) % 0x100) * 0x100 + (n % 0x100) == n) by (bit_vector);
}

/// Four big-endian bytes reassemble to their value.
proof fn lemma_be4_rt(n: u64)
    requires
        n <= 0xFFFF_FFFF,
    ensures
        ((n / 0x100_0000) % 0x100) * 0x100_0000 + ((n / 0x1_0000) % 0x100) * 0x1_0000 + ((n / 0x100)
            % 0x100) * 0x100 + (n % 0x100) == n,
{
    assert(n <= 0xFFFF_FFFF ==> ((n / 0x100_0000) % 0x100) * 0x100_0000 + ((n / 0x1_0000) % 0x100)
        * 0x1_0000 + ((n / 0x100) % 0x100) * 0x100 + (n % 0x100) == n) by (bit_vector);
}

/// Eight big-endian bytes reassemble to their value.
proof fn lemma_be8_rt(n: u64)
    ensures
        ((n / 0x100_0000_0000_0000) % 0x100) * 0x100_0000_0000_0000 + ((n / 0x1_0000_0000_0000)
            % 0x100) * 0x1_0000_0000_0000 + ((n / 0x100_0000_0000) % 0x100) * 0x100_0000_0000 + ((n
            / 0x1_0000_0000) % 0x100) * 0x1_0000_0000 + ((n / 0x100_0000) % 0x100) * 0x100_0000 + ((
        n / 0x1_0000) % 0x100) * 0x1_0000 + ((n / 0x100) % 0x100) * 0x100 + (n % 0x100) == n,
{
    assert(((n / 0x100_0000_0000_0000) % 0x100) * 0x100_0000_0000_0000 + ((n / 0x1_0000_0000_0000)
        % 0x100) * 0x1_0000_0000_0000 + ((n / 0x100_0000_0000) % 0x100) * 0x100_0000_0000 + ((n
        / 0x1_0000_0000) % 0x100) * 0x1_0000_0000 + ((n / 0x100_0000) % 0x100) * 0x100_0000 + ((n
        / 0x1_0000) % 0x100) * 0x1_0000 + ((n / 0x100) % 0x100) * 0x100 + (n % 0x100) == n)
        by (bit_vector);
}


/// The four bytes of `be4(n)` placed at `i` read back as `n`.
proof fn lemma_be4v_of(b: Seq<u8>, i: int, n: u64)
    requires
        n <= 0xFFFF_FFFF,
        0 <= i,
        i + 4 <= b.len(),
        b[i] == crate::model::be4(n as nat)[0],
        b[i + 1] == crate::model::be4(n as nat)[1],
        b[i + 2] == crate::model::be4(n as nat)[2],
        b[i + 3] == crate::model::be4(n as nat)[3],
    ensures
        crate::model::be4v(b, i) == n,
{
    lemma_be4_rt(n);
}

/// The eight bytes of `be8(n)` placed at `i` read back as `n`.
proof fn lemma_be8v_of(b: Seq<u8>, i: int, n: u64)
    requires
        0 <= i,
        i + 8 <= b.len(),
        b[i] == crate::model::be8(n as nat)[0],
        b[i + 1] == crate::model::be8(n as nat)[1],
        b[i + 2] == crate::model::be8(n as nat)[2],
        b[i + 3] == crate::model::be8(n as nat)[3],
        b[i + 4] == crate::model::be8(n as nat)[4],
        b[i + 5] == crate::model::be8(n as nat)[5],
        b[i + 6] == crate::model::be8(n as nat)[6],
        b[i + 7] == crate::model::be8(n as nat)[7],
    ensures
        crate::model::be8v(b, i) == n,
{
    lemma_be8_rt(n);
}

/// Every encodable value takes at least one byte on the wire.
proof fn lemma_enc_len_pos(v: JVal)
    requires
        wf(v),
    ensures
        spec_enc(v).len() >= 1,
{
}


/// Decoding reads back exactly the integer whose encoding sits at `i`.
#[verifier::rlimit(100)]
#[verifier::spinoff_prover]
proof fn lemma_rt_int(neg: bool, mag: nat, b: Seq<u8>, i: int)
    requires
        wf(JVal::Int { neg, mag }),
        0 <= i,
        i + spec_enc(JVal::Int { neg, mag }).len() <= b.len(),
        b.subrange(i, i + spec_enc(JVal::Int { neg, mag }).len()) == spec_enc(
            JVal::Int { neg, mag },
        ),
    ensures
        spec_dec_value(b, i) == Ok::<(JVal, int), Error>(
            (JVal::Int { neg, mag }, i + spec_enc(JVal::Int { neg, mag }).len()),
        ),
{
    let v = JVal::Int { neg, mag };
    let e = spec_enc(v);
    let l = e.len() as int;
    assert forall|t: int| 0 <= t < l implies #[trigger] b[i + t] == e[t] by {
        assert(b.subrange(i, i + l)[t] == b[i + t]);
    }
    assert(b[i] == e[0]) by {
        assert(b.subrange(i, i + l)[0] == b[i + 0]);
    }
            if !neg {
                if mag <= 0x7F {
                } else if mag <= 0xFF {
                    assert(b[i + 1] == mag as u8);
                } else if mag <= 0xFFFF {
                    lemma_be2_rt(mag as u64);
                    assert(crate::model::be2v(b, i + 1) == mag);
                } else if mag <= 0xFFFF_FFFF {
                    assert(b[i + 1] == crate::model::be4((mag) as nat)[0]);
                    assert(b[i + 2] == crate::model::be4((mag) as nat)[1]);
                    assert(b[i + 3] == crate::model::be4((mag) as nat)[2]);
                    assert(b[i + 4] == crate::model::be4((mag) as nat)[3]);
                    lemma_be4v_of(b, i + 1, (mag) as u64);
                } else {
                    assert(b[i + 1] == crate::model::be8((mag) as nat)[0]);
                    assert(b[i + 2] == crate::model::be8((mag) as nat)[1]);
                    assert(b[i + 3] == crate::model::be8((mag) as nat)[2]);
                    assert(b[i + 4] == crate::model::be8((mag) as nat)[3]);
                    assert(b[i + 5] == crate::model::be8((mag) as nat)[4]);
                    assert(b[i + 6] == crate::model::be8((mag) as nat)[5]);
                    assert(b[i + 7] == crate::model::be8((mag) as nat)[6]);
                    assert(b[i + 8] == crate::model::be8((mag) as nat)[7]);
                    lemma_be8v_of(b, i + 1, (mag) as u64);
                }
            } else {
                if mag <= 32 {
                    assert(b[i] == (0x100 - mag) as u8);
                } else if mag <= 0x80 {
                    assert(b[i + 1] == (0x100 - mag) as u8);
                } else if mag <= 0x8000 {
                    lemma_be2_rt((0x1_0000 - mag) as u64);
                    assert(crate::model::be2v(b, i + 1) == 0x1_0000 - mag);
                } else if mag <= 0x8000_0000 {
                    assert(b[i + 1] == crate::model::be4((0x1_0000_0000 - mag) as nat)[0]);
                    assert(b[i + 2] == crate::model::be4((0x1_0000_0000 - mag) as nat)[1]);
                    assert(b[i + 3] == crate::model::be4((0x1_0000_0000 - mag) as nat)[2]);
                    assert(b[i + 4] == crate::model::be4((0x1_0000_0000 - mag) as nat)[3]);
                    lemma_be4v_of(b, i + 1, (0x1_0000_0000 - mag) as u64);
                } else {
                    assert(b[i + 1] == crate::model::be8((0x1_0000_0000_0000_0000 - mag) as nat)[0]);
                    assert(b[i + 2] == crate::model::be8((0x1_0000_0000_0000_0000 - mag) as nat)[1]);
                    assert(b[i + 3] == crate::model::be8((0x1_0000_0000_0000_0000 - mag) as nat)[2]);
                    assert(b[i + 4] == crate::model::be8((0x1_0000_0000_0000_0000 - mag) as nat)[3]);
                    assert(b[i + 5] == crate::model::be8((0x1_0000_0000_0000_0000 - mag) as nat)[4]);
                    assert(b[i + 6] == crate::model::be8((0x1_0000_0000_0000_0000 - mag) as nat)[5]);
                    assert(b[i + 7] == crate::model::be8((0x1_0000_0000_0000_0000 - mag) as nat)[6]);
                    assert(b[i + 8] == crate::model::be8((0x1_0000_0000_0000_0000 - mag) as nat)[7]);
                    lemma_be8v_of(b, i + 1, (0x1_0000_0000_0000_0000 - mag) as u64);
                }
            }
}

/// Decoding reads back exactly the value whose encoding sits at `i`.
#[verifier::rlimit(100)]
#[verifier::spinoff_prover]
proof fn lemma_rt_at(v: JVal, b: Seq<u8>, i: int)
    requires
        wf(v),
        0 <= i,
        i + spec_enc(v).len() <= b.len(),
        b.subrange(i, i + spec_enc(v).len()) == spec_enc(v),
    ensures
        spec_dec_value(b, i) == Ok::<(JVal, int), Error>((v, i + spec_enc(v).len())),
    decreases v, 0int,
{
    let e = spec_enc(v);
    let l = e.len() as int;
    assert forall|t: int| 0 <= t < l implies #[trigger] b[i + t] == e[t] by {
        assert(b.subrange(i, i + l)[t] == b[i + t]);
    }
    assert(b[i] == e[0]) by {
        assert(b.subrange(i, i + l)[0] == b[i + 0]);
    }
    match v {
        JVal::Null => {},
        JVal::False => {},
        JVal::True => {},
        JVal::Int { neg, mag } => {
            lemma_rt_int(neg, mag, b, i);
        },
        JVal::Float64(bits) => {
            assert(b[i + 1] == crate::model::be8((bits) as nat)[0]);
            assert(b[i + 2] == crate::model::be8((bits) as nat)[1]);
            assert(b[i + 3] == crate::model::be8((bits) as nat)[2]);
            assert(b[i + 4] == crate::model::be8((bits) as nat)[3]);
            assert(b[i + 5] == crate::model::be8((bits) as nat)[4]);
            assert(b[i + 6] == crate::model::be8((bits) as nat)[5]);
            assert(b[i + 7] == crate::model::be8((bits) as nat)[6]);
            assert(b[i + 8] == crate::model::be8((bits) as nat)[7]);
            lemma_be8v_of(b, i + 1, (bits) as u64);
        },
        JVal::Float32(bits) => {
            assert(b[i + 1] == crate::model::be4((bits) as nat)[0]);
            assert(b[i + 2] == crate::model::be4((bits) as nat)[1]);
            assert(b[i + 3] == crate::model::be4((bits) as nat)[2]);
            assert(b[i + 4] == crate::model::be4((bits) as nat)[3]);
            lemma_be4v_of(b, i + 1, (bits) as u64);
        },
        JVal::FloatLit(_) => {},
        JVal::Str(bs) => {
            let hl = l - bs.len() as int;
            if bs.len() <= 31 {
            } else if bs.len() <= 0xFF {
                assert(b[i + 1] == bs.len() as u8);
            } else if bs.len() <= 0xFFFF {
                lemma_be2_rt(bs.len() as u64);
                assert(crate::model::be2v(b, i + 1) == bs.len());
            } else {
                assert(b[i + 1] == crate::model::be4((bs.len()) as nat)[0]);
                assert(b[i + 2] == crate::model::be4((bs.len()) as nat)[1]);
                assert(b[i + 3] == crate::model::be4((bs.len()) as nat)[2]);
                assert(b[i + 4] == crate::model::be4((bs.len()) as nat)[3]);
                lemma_be4v_of(b, i + 1, (bs.len()) as u64);
            }
            assert forall|t: int| 0 <= t < bs.len() implies b.subrange(i + hl, i + l)[t] == bs[t]
                by {
                assert(b.subrange(i + hl, i + l)[t] == b[i + hl + t]);
                assert(b.subrange(i, i + l)[hl + t] == b[i + (hl + t)]);
                assert(spec_enc(v)[hl + t] == bs[t]);
            }
            assert(b.subrange(i + hl, i + l) =~= bs);
        },
        JVal::Arr(vs) => {
            let hl = l - spec_enc_list(vs, 0).len() as int;
            if vs.len() <= 15 {
            } else if vs.len() <= 0xFFFF {
                lemma_be2_rt(vs.len() as u64);
                assert(crate::model::be2v(b, i + 1) == vs.len());
            } else {
                assert(b[i + 1] == crate::model::be4((vs.len()) as nat)[0]);
                assert(b[i + 2] == crate::model::be4((vs.len()) as nat)[1]);
                assert(b[i + 3] == crate::model::be4((vs.len()) as nat)[2]);
                assert(b[i + 4] == crate::model::be4((vs.len()) as nat)[3]);
                lemma_be4v_of(b, i + 1, (vs.len()) as u64);
            }
            assert forall|t: int| 0 <= t < spec_enc_list(vs, 0).len() implies b.subrange(
                i + hl,
                i + l,
            )[t] == spec_enc_list(vs, 0)[t] by {
                assert(b.subrange(i + hl, i + l)[t] == b[i + hl + t]);
                assert(b.subrange(i, i + l)[hl + t] == b[i + (hl + t)]);
                assert(spec_enc(v)[hl + t] == spec_enc_list(vs, 0)[t]);
            }
            assert(b.subrange(i + hl, i + l) =~= spec_enc_list(vs, 0));
            lemma_rt_list(vs, 0, b, i + hl);
            assert(vs.skip(0) =~= vs);
        },
        JVal::Obj(kvs) => {
            let np = (kvs.len() / 2) as nat;
            let hl = l - spec_enc_list(kvs, 0).len() as int;
            if np <= 15 {
            } else if np <= 0xFFFF {
                lemma_be2_rt(np as u64);
                assert(crate::model::be2v(b, i + 1) == np);
            } else {
                assert(b[i + 1] == crate::model::be4((np) as nat)[0]);
                assert(b[i + 2] == crate::model::be4((np) as nat)[1]);
                assert(b[i + 3] == crate::model::be4((np) as nat)[2]);
                assert(b[i + 4] == crate::model::be4((np) as nat)[3]);
                lemma_be4v_of(b, i + 1, (np) as u64);
            }
            assert(2 * np == kvs.len());
            assert forall|t: int| 0 <= t < spec_enc_list(kvs, 0).len() implies b.subrange(
                i + hl,
                i + l,
            )[t] == spec_enc_list(kvs, 0)[t] by {
                assert(b.subrange(i + hl, i + l)[t] == b[i + hl + t]);
                assert(b.subrange(i, i + l)[hl + t] == b[i + (hl + t)]);
                assert(spec_enc(v)[hl + t] == spec_enc_list(kvs, 0)[t]);
            }
            assert(b.subrange(i + hl, i + l) =~= spec_enc_list(kvs, 0));
            lemma_rt_list(kvs, 0, b, i + hl);
            assert(kvs.skip(0) =~= kvs);
        },
    }
}

/// Decoding `vs.len() - k` values reads back exactly the tail of `vs` whose
/// encodings sit at `i`.
proof fn lemma_rt_list(vs: Seq<JVal>, k: int, b: Seq<u8>, i: int)
    requires
        0 <= k <= vs.len(),
        wf_list(vs, k),
        0 <= i,
        i + spec_enc_list(vs, k).len() <= b.len(),
        b.subrange(i, i + spec_enc_list(vs, k).len()) == spec_enc_list(vs, k),
    ensures
        spec_dec_seq(b, i, (vs.len() - k) as nat) == Ok::<(Seq<JVal>, int), Error>(
            (vs.skip(k), i + spec_enc_list(vs, k).len()),
        ),
    decreases vs, tail_len(vs, k),
{
    if k == vs.len() {
        assert(vs.skip(k) =~= Seq::<JVal>::empty());
    } else {
        let e0 = spec_enc(vs[k]);
        let rest = spec_enc_list(vs, k + 1);
        let l0 = e0.len() as int;
        let l = spec_enc_list(vs, k).len() as int;
        assert forall|t: int| 0 <= t < l0 implies b.subrange(i, i + l0)[t] == e0[t] by {
            assert(b.subrange(i, i + l0)[t] == b[i + t]);
            assert(b.subrange(i, i + l)[t] == b[i + t]);
            assert(spec_enc_list(vs, k)[t] == e0[t]);
        }
        assert(b.subrange(i, i + l0) =~= e0);
        lemma_rt_at(vs[k], b, i);
        lemma_enc_len_pos(vs[k]);
        assert forall|t: int| 0 <= t < rest.len() implies b.subrange(i + l0, i + l)[t] == rest[t]
            by {
            assert(b.subrange(i + l0, i + l)[t] == b[i + l0 + t]);
            assert(b.subrange(i, i + l)[l0 + t] == b[i + (l0 + t)]);
            assert(spec_enc_list(vs, k)[l0 + t] == rest[t]);
        }
        assert(b.subrange(i + l0, i + l) =~= rest);
        lemma_rt_list(vs, k + 1, b, i + l0);
        assert(seq![vs[k]] + vs.skip(k + 1) =~= vs.skip(k));
    }
}

/// Round trip: decoding the encoding of any encodable value yields that
/// value back, consuming exactly its bytes. Numbers come back with the
/// normalized sign (the model holds no negative zero), strings byte for
/// byte, containers in order with duplicate keys kept, floats bit for bit.
pub proof fn lemma_round_trip(v: JVal)
    requires
        wf(v),
    ensures
        spec_dec_value(spec_enc(v), 0) == Ok::<(JVal, int), Error>((v, spec_enc(v).len() as int)),
{
    let e = spec_enc(v);
    assert(e.subrange(0, e.len() as int) =~= e);
    lemma_rt_at(v, e, 0);
}

/// The reserved tag 0xC1 and the bin/ext/fixext tag families are fatal
/// wherever they stand: 0xC1 is an unexpected byte, the others deliberately
/// unsupported.
pub proof fn lemma_reserved_tags_fatal(b: Seq<u8>, i: int)
    requires
        0 <= i < b.len(),
    ensures
        b[i] == 0xC1 ==> spec_m2j(b, i) == Err::<(Seq<TextPieceS>, int), Error>(
            Error::UnexpectedByte,
        ),
        (0xC4 <= b[i] && b[i] <= 0xC9) || (0xD4 <= b[i] && b[i] <= 0xD8) ==> spec_m2j(b, i)
            == Err::<(Seq<TextPieceS>, int), Error>(Error::UnsupportedFormatTag),
{
}

/// One encoded code point followed by valid UTF-8 is valid UTF-8.
proof fn lemma_utf8_cp_valid(cp: int, rest: Seq<u8>)
    requires
        crate::model::valid_cp(cp),
        crate::model::valid_utf8(rest),
    ensures
        crate::model::valid_utf8(crate::model::utf8_cp(cp) + rest),
{
    let e = crate::model::utf8_cp(cp);
    let w = e + rest;
    if cp < 0x80 {
        assert(w.skip(1) =~= rest);
    } else if cp < 0x800 {
        assert(cp / 64 >= 2 && cp / 64 < 32);
        assert(w.skip(2) =~= rest);
    } else if cp < 0x10000 {
        assert(cp / 4096 < 16);
        if cp < 0x1000 {
            assert(cp / 64 >= 32 && cp / 64 < 64);
            assert((cp / 64) % 64 >= 32);
        }
        if 0xD000 <= cp && cp < 0xD800 {
            assert(cp / 64 >= 0x340 && cp / 64 < 0x360);
            assert((cp / 64) % 64 <= 0x1F);
        }
        assert(w.skip(3) =~= rest);
    } else {
        assert(cp / 262144 <= 4);
        if cp < 0x40000 {
            assert(cp / 4096 >= 16 && cp / 4096 < 64);
            assert((cp / 4096) % 64 >= 16);
        }
        if cp >= 0x100000 {
            assert(cp / 4096 >= 0x100 && cp / 4096 <= 0x10F);
            assert((cp / 4096) % 64 <= 15);
        }
        assert(w.skip(4) =~= rest);
    }
}

/// Every string body the parser accepts is valid UTF-8.
proof fn lemma_str_body_valid(s: Seq<char>, i: int)
    ensures
        crate::encode::spec_str_body(s, i) matches Ok(p) ==> crate::model::valid_utf8(p.0),
    decreases tail_len(s, i), 0int,
{
    if 0 <= i && i < s.len() {
        let c = s[i];
        if c == '"' {
        } else if c == '\\' {
            if i + 1 < s.len() {
                let e = s[i + 1];
                if e == '"' || e == '\\' || e == '/' {
                    lemma_str_body_valid(s, i + 2);
                    match crate::encode::spec_str_body(s, i + 2) {
                        Ok(p2) => {
                            vstd::utf8::char_is_scalar(e);
                            lemma_utf8_cp_valid(e as u32 as int, p2.0);
                        },
                        Err(_) => {},
                    }
                } else if e == 'b' || e == 'f' || e == 'n' || e == 'r' || e == 't' {
                    lemma_str_body_valid(s, i + 2);
                    match crate::encode::spec_str_body(s, i + 2) {
                        Ok(p2) => {
                            let cp: int = if e == 'b' {
                                0x08
                            } else if e == 'f' {
                                0x0C
                            } else if e == 'n' {
                                0x0A
                            } else if e == 'r' {
                                0x0D
                            } else {
                                0x09
                            };
                            lemma_utf8_cp_valid(cp, p2.0);
                        },
                        Err(_) => {},
                    }
                } else if e == 'u' {
                    if i + 6 <= s.len() {
                        lemma_str_body_valid(s, i + 6);
                        match crate::encode::spec_str_body(s, i + 6) {
                            Ok(p2) => {
                                let h0 = crate::encode::spec_hexval(s[i + 2]);
                                let h1 = crate::encode::spec_hexval(s[i + 3]);
                                let h2 = crate::encode::spec_hexval(s[i + 4]);
                                let h3 = crate::encode::spec_hexval(s[i + 5]);
                                let cp = h0 * 0x1000 + h1 * 0x100 + h2 * 0x10 + h3;
                                if h0 >= 0 && h1 >= 0 && h2 >= 0 && h3 >= 0
                                    && crate::model::valid_cp(cp) {
                                    lemma_utf8_cp_valid(cp, p2.0);
                                }
                            },
                            Err(_) => {},
                        }
                    }
                }
            }
        } else if c as u32 >= 0x20 {
            lemma_str_body_valid(s, i + 1);
            match crate::encode::spec_str_body(s, i + 1) {
                Ok(p2) => {
                    vstd::utf8::char_is_scalar(c);
                    lemma_utf8_cp_valid(c as u32 as int, p2.0);
                },
                Err(_) => {},
            }
        }
    }
}

/// Whether a value is free of float literals, which only the caller's
/// float parser can turn into wire bytes.
pub open spec fn no_float_lit(v: JVal) -> bool
    decreases v, 0int,
{
    match v {
        JVal::FloatLit(_) => false,
        JVal::Arr(vs) => no_float_lit_list(vs, 0),
        JVal::Obj(kvs) => no_float_lit_list(kvs, 0),
        _ => true,
    }
}

/// `no_float_lit` of every element of `vs` from `k` on.
pub open spec fn no_float_lit_list(vs: Seq<JVal>, k: int) -> bool
    decreases vs, tail_len(vs, k),
{
    if k < 0 || k >= vs.len() {
        true
    } else {
        no_float_lit(vs[k]) && no_float_lit_list(vs, k + 1)
    }
}

/// Every parsed value without float literals is encodable, so the round
/// trip law covers every parsed JSON document apart from its floats.
pub proof fn lemma_parse_wf(s: Seq<char>, i: int)
    ensures
        crate::encode::spec_parse_value(s, i) matches Ok(p) ==> (no_float_lit(p.0) ==> wf(p.0)),
    decreases tail_len(s, i), 3int,
{
    if 0 <= i && i < s.len() {
        let c = s[i];
        if c == '{' {
            lemma_members0_wf(s, i + 1);
        } else if c == '[' {
            lemma_elems0_wf(s, i + 1);
        } else if c == '"' {
            lemma_str_body_valid(s, i + 1);
        }
    }
}

/// Members parsed after an opening brace are well formed, pairwise.
proof fn lemma_members0_wf(s: Seq<char>, i: int)
    ensures
        crate::encode::spec_members0(s, i) matches Ok(p) ==> p.0.len() % 2 == 0 && (
        no_float_lit_list(p.0, 0) ==> wf_list(p.0, 0)),
    decreases tail_len(s, i), 5int,
{
    if 0 <= i && i < s.len() && s[i] != '}' {
        lemma_member_list_wf(s, i);
    }
}

/// A comma-separated member list is well formed, pairwise.
proof fn lemma_member_list_wf(s: Seq<char>, i: int)
    ensures
        crate::encode::spec_member_list(s, i) matches Ok(p) ==> p.0.len() % 2 == 0 && (
        no_float_lit_list(p.0, 0) ==> wf_list(p.0, 0)),
    decreases tail_len(s, i), 4int,
{
    if 0 <= i && i < s.len() {
        match crate::encode::spec_parse_member(s, i) {
            Ok((kv, j)) => {
                lemma_member_wf(s, i);
                if j < s.len() && s[j] == ',' {
                    let ni = if j + 1 > i + 1 {
                        j + 1
                    } else {
                        i + 1
                    };
                    lemma_member_list_wf(s, ni);
                    match crate::encode::spec_member_list(s, ni) {
                        Ok((rest, _)) => {
                            lemma_wf_list_concat(kv, rest);
                        },
                        Err(_) => {},
                    }
                }
            },
            Err(_) => {},
        }
    }
}

/// One parsed member is a well-formed key/value pair.
proof fn lemma_member_wf(s: Seq<char>, i: int)
    ensures
        crate::encode::spec_parse_member(s, i) matches Ok(p) ==> p.0.len() == 2 && (
        no_float_lit_list(p.0, 0) ==> wf_list(p.0, 0)),
    decreases tail_len(s, i), 2int,
{
    if 0 <= i && i < s.len() {
        match crate::encode::spec_parse_string(s, i) {
            Ok((k, j)) => {
                lemma_str_body_valid(s, i + 1);
                if j < s.len() && s[j] == ':' {
                    let vi = if j + 1 > i + 1 {
                        j + 1
                    } else {
                        i + 1
                    };
                    lemma_parse_wf(s, vi);
                    match crate::encode::spec_parse_value(s, vi) {
                        Ok((v, _)) => {
                            lemma_wf_list_index(seq![k, v]);
                        },
                        Err(_) => {},
                    }
                }
            },
            Err(_) => {},
        }
    }
}

/// Elements parsed after an opening bracket are well formed.
proof fn lemma_elems0_wf(s: Seq<char>, i: int)
    ensures
        crate::encode::spec_elems0(s, i) matches Ok(p) ==> (no_float_lit_list(p.0, 0) ==> wf_list(
            p.0,
            0,
        )),
    decreases tail_len(s, i), 5int,
{
    if 0 <= i && i < s.len() && s[i] != ']' {
        lemma_elem_list_wf(s, i);
    }
}

/// A comma-separated element list is well formed.
proof fn lemma_elem_list_wf(s: Seq<char>, i: int)
    ensures
        crate::encode::spec_elem_list(s, i) matches Ok(p) ==> (no_float_lit_list(p.0, 0)
            ==> wf_list(p.0, 0)),
    decreases tail_len(s, i), 4int,
{
    if 0 <= i && i < s.len() {
        match crate::encode::spec_parse_value(s, i) {
            Ok((v, j)) => {
                lemma_parse_wf(s, i);
                lemma_wf_list_index(seq![v]);
                if j < s.len() && s[j] == ',' {
                    let ni = if j + 1 > i + 1 {
                        j + 1
                    } else {
                        i + 1
                    };
                    lemma_elem_list_wf(s, ni);
                    match crate::encode::spec_elem_list(s, ni) {
                        Ok((rest, _)) => {
                            lemma_wf_list_concat(seq![v], rest);
                        },
                        Err(_) => {},
                    }
                }
            },
            Err(_) => {},
        }
    }
}

/// Pointwise properties of a concatenation are the parts' together.
proof fn lemma_wf_list_concat(a: Seq<JVal>, c: Seq<JVal>)
    ensures
        no_float_lit_list(a + c, 0) <==> (no_float_lit_list(a, 0) && no_float_lit_list(c, 0)),
        wf_list(a + c, 0) <==> (wf_list(a, 0) && wf_list(c, 0)),
{
    lemma_wf_list_index(a + c);
    lemma_wf_list_index(a);
    lemma_wf_list_index(c);
    assert forall|t: int| 0 <= t < a.len() implies #[trigger] a[t] == (a + c)[t] by {}
    assert forall|t: int| 0 <= t < c.len() implies #[trigger] c[t] == (a + c)[a.len() + t] by {}
    assert forall|t: int| 0 <= t < (a + c).len() implies #[trigger] (a + c)[t] == (if t < a.len() {
        a[t]
    } else {
        c[t - a.len()]
    }) by {}
}

/// A list predicate is its pointwise form.
proof fn lemma_wf_list_index(vs: Seq<JVal>)
    ensures
        wf_list(vs, 0) <==> (forall|t: int| 0 <= t < vs.len() ==> wf(#[trigger] vs[t])),
        no_float_lit_list(vs, 0) <==> (forall|t: int|
            0 <= t < vs.len() ==> no_float_lit(#[trigger] vs[t])),
{
    lemma_wf_list_index_from(vs, 0);
}

/// A list predicate from `k` on is its pointwise form.
proof fn lemma_wf_list_index_from(vs: Seq<JVal>, k: int)
    requires
        0 <= k <= vs.len(),
    ensures
        wf_list(vs, k) <==> (forall|t: int| k <= t < vs.len() ==> wf(#[trigger] vs[t])),
        no_float_lit_list(vs, k) <==> (forall|t: int|
            k <= t < vs.len() ==> no_float_lit(#[trigger] vs[t])),
    decreases vs.len() - k,
{
    if k < vs.len() {
        lemma_wf_list_index_from(vs, k + 1);
    }
}

} // verus!
