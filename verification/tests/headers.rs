use msgpack_json::Error;
use msgpack_json::encode::{arr_header, map_header, str_header};

#[test]
fn string_header_boundaries() {
    assert_eq!(str_header(0).unwrap(), vec![0xA0]);
    assert_eq!(str_header(31).unwrap(), vec![0xBF]);
    assert_eq!(str_header(32).unwrap(), vec![0xD9, 32]);
    assert_eq!(str_header(255).unwrap(), vec![0xD9, 255]);
    assert_eq!(str_header(256).unwrap(), vec![0xDA, 0x01, 0x00]);
    assert_eq!(str_header(65535).unwrap(), vec![0xDA, 0xFF, 0xFF]);
    assert_eq!(str_header(65536).unwrap(), vec![0xDB, 0x00, 0x01, 0x00, 0x00]);
    assert_eq!(str_header(4294967295).unwrap(), vec![0xDB, 0xFF, 0xFF, 0xFF, 0xFF]);
    assert_eq!(str_header(4294967296), Err(Error::NoApplicableEncoding));
}

#[test]
fn array_header_boundaries() {
    assert_eq!(arr_header(0).unwrap(), vec![0x90]);
    assert_eq!(arr_header(15).unwrap(), vec![0x9F]);
    assert_eq!(arr_header(16).unwrap(), vec![0xDC, 0x00, 16]);
    assert_eq!(arr_header(65535).unwrap(), vec![0xDC, 0xFF, 0xFF]);
    assert_eq!(arr_header(65536).unwrap(), vec![0xDD, 0x00, 0x01, 0x00, 0x00]);
    assert_eq!(arr_header(4294967296), Err(Error::NoApplicableEncoding));
}

#[test]
fn map_header_boundaries() {
    assert_eq!(map_header(0).unwrap(), vec![0x80]);
    assert_eq!(map_header(15).unwrap(), vec![0x8F]);
    assert_eq!(map_header(16).unwrap(), vec![0xDE, 0x00, 16]);
    assert_eq!(map_header(65535).unwrap(), vec![0xDE, 0xFF, 0xFF]);
    assert_eq!(map_header(65536).unwrap(), vec![0xDF, 0x00, 0x01, 0x00, 0x00]);
    assert_eq!(map_header(4294967296), Err(Error::NoApplicableEncoding));
}

fn enc_bytes(text: &str) -> Vec<u8> {
    let chars: Vec<char> = text.chars().collect();
    let pieces = msgpack_json::encode::json_to_msgpack(&chars).unwrap();
    let mut out: Vec<u8> = Vec::new();
    for p in pieces {
        match p {
            msgpack_json::BinPiece::Bytes(b) => out.extend_from_slice(&b),
            msgpack_json::BinPiece::FloatLit(_) => panic!(),
        }
    }
    out
}

#[test]
fn full_encode_selects_boundary_headers() {
    // a 32-byte string takes a str8 header, a 31-byte one stays fixstr
    let s31 = format!("\"{}\"", "a".repeat(31));
    assert_eq!(enc_bytes(&s31)[0], 0xBF);
    let s32 = format!("\"{}\"", "a".repeat(32));
    assert_eq!(&enc_bytes(&s32)[..2], &[0xD9, 32]);
    let s65536 = format!("\"{}\"", "a".repeat(65536));
    assert_eq!(&enc_bytes(&s65536)[..5], &[0xDB, 0x00, 0x01, 0x00, 0x00]);
    // a 16-element array takes an array16 header
    let a15 = format!("[{}]", vec!["0"; 15].join(","));
    assert_eq!(enc_bytes(&a15)[0], 0x9F);
    let a16 = format!("[{}]", vec!["0"; 16].join(","));
    assert_eq!(&enc_bytes(&a16)[..3], &[0xDC, 0x00, 0x10]);
    let a65536 = format!("[{}]", vec!["0"; 65536].join(","));
    assert_eq!(&enc_bytes(&a65536)[..5], &[0xDD, 0x00, 0x01, 0x00, 0x00]);
    // a 16-pair object takes a map16 header
    let pairs: Vec<String> = (0..16).map(|k| format!("\"k{}\":0", k)).collect();
    let m16 = format!("{{{}}}", pairs.join(","));
    assert_eq!(&enc_bytes(&m16)[..3], &[0xDE, 0x00, 0x10]);
}
