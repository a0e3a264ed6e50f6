use msgpack_json::{BinPiece, Error, TextPiece};

fn enc(text: &str) -> Result<Vec<u8>, Error> {
    let chars: Vec<char> = text.chars().collect();
    let pieces = msgpack_json::encode::json_to_msgpack(&chars)?;
    let mut out: Vec<u8> = Vec::new();
    for p in pieces {
        match p {
            BinPiece::Bytes(b) => out.extend_from_slice(&b),
            BinPiece::FloatLit(l) => {
                let lit: String = l.iter().collect();
                match lit.parse::<f64>() {
                    Ok(x) => {
                        out.push(0xCB);
                        out.extend_from_slice(&x.to_bits().to_be_bytes());
                    },
                    Err(_) => return Err(Error::NoApplicableEncoding),
                }
            },
        }
    }
    Ok(out)
}

fn dec(bytes: &[u8]) -> Result<String, Error> {
    let v: Vec<u8> = bytes.to_vec();
    let pieces = msgpack_json::decode::msgpack_to_json(&v)?;
    let mut out: Vec<u8> = Vec::new();
    for p in pieces {
        match p {
            TextPiece::Bytes(b) => out.extend_from_slice(&b),
            TextPiece::Float64(bits) => {
                out.extend_from_slice(format!("{}", f64::from_bits(bits)).as_bytes())
            },
            TextPiece::Float32(bits) => {
                out.extend_from_slice(format!("{}", f32::from_bits(bits)).as_bytes())
            },
        }
    }
    Ok(String::from_utf8(out).unwrap())
}

#[test]
fn scenario_map_with_array() {
    assert_eq!(
        enc("{\"a\":1,\"b\":[true,false,null]}").unwrap(),
        vec![0x82, 0xA1, 0x61, 0x01, 0xA1, 0x62, 0x93, 0xC3, 0xC2, 0xC0]
    );
}

#[test]
fn scenario_decode_small_map() {
    assert_eq!(dec(&[0x81, 0xA1, 0x61, 0x01]).unwrap(), "{\"a\":1}");
}

#[test]
fn scenario_quote_escape_round_trip() {
    let text = "\"he said \\\"hi\\\"\"";
    let b = enc(text).unwrap();
    assert_eq!(b[0], 0xA0 + 12);
    assert_eq!(&b[1..], "he said \"hi\"".as_bytes());
    assert_eq!(dec(&b).unwrap(), text);
}

#[test]
fn scenario_reserved_tag_fatal() {
    assert_eq!(dec(&[0xC1]), Err(Error::UnexpectedByte));
}

#[test]
fn scenario_empty_containers() {
    assert_eq!(enc("[]").unwrap(), vec![0x90]);
    assert_eq!(enc("{}").unwrap(), vec![0x80]);
    assert_eq!(dec(&[0x90]).unwrap(), "[]");
    assert_eq!(dec(&[0x80]).unwrap(), "{}");
}

#[test]
fn numeric_precedence() {
    assert_eq!(enc("127").unwrap(), vec![0x7F]);
    assert_eq!(enc("128").unwrap(), vec![0xCC, 0x80]);
    assert_eq!(enc("-1").unwrap(), vec![0xFF]);
    assert_eq!(enc("-33").unwrap(), vec![0xD0, 0xDF]);
    assert_eq!(enc("65536").unwrap(), vec![0xCE, 0x00, 0x01, 0x00, 0x00]);
    assert_eq!(enc("-200").unwrap(), vec![0xD1, 0xFF, 0x38]);
}

#[test]
fn numeric_widths() {
    assert_eq!(enc("255").unwrap(), vec![0xCC, 0xFF]);
    assert_eq!(enc("256").unwrap(), vec![0xCD, 0x01, 0x00]);
    assert_eq!(enc("-32").unwrap(), vec![0xE0]);
    assert_eq!(enc("-128").unwrap(), vec![0xD0, 0x80]);
    assert_eq!(enc("-129").unwrap(), vec![0xD1, 0xFF, 0x7F]);
    assert_eq!(
        enc("4294967296").unwrap(),
        vec![0xCF, 0x00, 0x00, 0x00, 0x01, 0x00, 0x00, 0x00, 0x00]
    );
    assert_eq!(
        enc("-2147483649").unwrap(),
        vec![0xD3, 0xFF, 0xFF, 0xFF, 0xFF, 0x7F, 0xFF, 0xFF, 0xFF]
    );
    assert_eq!(enc("18446744073709551615").unwrap()[0], 0xCF);
    // one past u64: falls through to the float interpretation
    assert_eq!(enc("18446744073709551616").unwrap()[0], 0xCB);
    assert_eq!(enc("-0").unwrap(), vec![0x00]);
}

#[test]
fn float_encoding() {
    let mut want = vec![0xCB];
    want.extend_from_slice(&1.5f64.to_bits().to_be_bytes());
    assert_eq!(enc("1.5").unwrap(), want);
    assert_eq!(enc("1e3").unwrap()[0], 0xCB);
    // a bare keyword never reaches the number parser, but a signed one does
    let mut neg_inf = vec![0xCB];
    neg_inf.extend_from_slice(&f64::NEG_INFINITY.to_bits().to_be_bytes());
    assert_eq!(enc("-inf").unwrap(), neg_inf);
}

#[test]
fn float_decoding() {
    assert_eq!(dec(&[0xCB, 0x3F, 0xF8, 0, 0, 0, 0, 0, 0]).unwrap(), "1.5");
    assert_eq!(dec(&[0xCA, 0x3F, 0xC0, 0, 0]).unwrap(), "1.5");
}

#[test]
fn decode_integer_tags() {
    assert_eq!(dec(&[0x05]).unwrap(), "5");
    assert_eq!(dec(&[0xCC, 0x80]).unwrap(), "128");
    assert_eq!(dec(&[0xCD, 0x01, 0x00]).unwrap(), "256");
    assert_eq!(dec(&[0xCE, 0, 1, 0, 0]).unwrap(), "65536");
    assert_eq!(dec(&[0xCF, 0xFF, 0xFF, 0xFF, 0xFF, 0xFF, 0xFF, 0xFF, 0xFF]).unwrap(),
        "18446744073709551615");
    assert_eq!(dec(&[0xD0, 0xDF]).unwrap(), "-33");
    assert_eq!(dec(&[0xD1, 0xFF, 0x38]).unwrap(), "-200");
    assert_eq!(dec(&[0xD2, 0xFF, 0xFF, 0xFF, 0x00]).unwrap(), "-256");
    assert_eq!(dec(&[0xD3, 0x80, 0, 0, 0, 0, 0, 0, 0]).unwrap(), "-9223372036854775808");
    assert_eq!(dec(&[0xE0]).unwrap(), "-32");
    assert_eq!(dec(&[0xFF]).unwrap(), "-1");
}

#[test]
fn unsupported_tags_fatal() {
    for t in 0xC4u8..=0xC9u8 {
        assert_eq!(dec(&[t]), Err(Error::UnsupportedFormatTag));
    }
    for t in 0xD4u8..=0xD8u8 {
        assert_eq!(dec(&[t]), Err(Error::UnsupportedFormatTag));
    }
    // inside a container the same tags are just as fatal
    assert_eq!(dec(&[0x91, 0xC4]), Err(Error::UnsupportedFormatTag));
    assert_eq!(dec(&[0x91, 0xC1]), Err(Error::UnexpectedByte));
}

#[test]
fn error_variants() {
    assert_eq!(enc("x"), Err(Error::UnexpectedToken));
    assert_eq!(enc("[1,"), Err(Error::UnterminatedContainer));
    assert_eq!(enc("1.5.6"), Err(Error::NoApplicableEncoding));
    assert_eq!(enc("\"\\x\""), Err(Error::InvalidEscape));
    assert_eq!(enc("\"\\ud800\""), Err(Error::InvalidEscape));
    assert_eq!(dec(&[0xA1, 0xFF]), Err(Error::UnexpectedByte));
    assert_eq!(dec(&[0xA2, 0x61]), Err(Error::UnterminatedContainer));
    assert_eq!(enc("{\"a\":1,}"), Err(Error::UnexpectedToken));
    assert_eq!(enc("falze"), Err(Error::UnexpectedToken));
    assert_eq!(enc("fal"), Err(Error::UnterminatedContainer));
}

#[test]
fn string_escapes() {
    assert_eq!(enc("\"\\u0041\"").unwrap(), vec![0xA1, 0x41]);
    assert_eq!(enc("\"\\u00e9\"").unwrap(), vec![0xA2, 0xC3, 0xA9]);
    assert_eq!(enc("\"\u{e9}\"").unwrap(), vec![0xA2, 0xC3, 0xA9]);
    assert_eq!(enc("\"\\n\\t\\b\\f\\r\\/\\\\\"").unwrap(),
        vec![0xA7, 0x0A, 0x09, 0x08, 0x0C, 0x0D, 0x2F, 0x5C]);
    assert_eq!(enc("\"\\u4e16\"").unwrap(), vec![0xA3, 0xE4, 0xB8, 0x96]);
}

#[test]
fn text_round_trips() {
    for text in [
        "null",
        "true",
        "false",
        "[]",
        "{}",
        "{\"a\":1}",
        "[1,[2,[3]]]",
        "{\"k\":\"v\",\"k\":\"v2\"}",
        "[-32,-33,255,256,65535,65536]",
        "{\"deep\":[{\"x\":[[]]}]}",
    ] {
        let b = enc(text).unwrap();
        assert_eq!(dec(&b).unwrap(), text, "round trip of {}", text);
    }
}

#[test]
fn trailing_input_ignored() {
    assert_eq!(enc("[1]garbage").unwrap(), vec![0x91, 0x01]);
    assert_eq!(dec(&[0xC0, 0xC1, 0xC4]).unwrap(), "null");
}
