use percent_encoding_lite::{decode, encode, Bitmask};

#[test]
fn urldecode_test() {
    let encoded = "Anno+1404.Gold+Edition.v+2.1.5010.0.(%D0%9D%D0%BE%D0%B2%D1%8B%D0%B9+%D0%94%D0%B8%D1%81%D0%BA).(2010).Repack";
    let decoded = String::from_utf8(decode(encoded)).unwrap();
    let correct = "Anno 1404.Gold Edition.v 2.1.5010.0.(Новый Диск).(2010).Repack";
    assert_eq!(&decoded, correct);

    let encoded = "The+Elder+Scrolls+V.+Skyrim.+Anniversary+Edition+v.1.6.640.0.8+(2011-2021)";
    let decoded = String::from_utf8(decode(encoded)).unwrap();
    let correct = "The Elder Scrolls V. Skyrim. Anniversary Edition v.1.6.640.0.8 (2011-2021)";
    assert_eq!(&decoded, correct);
}

#[test]
fn urlencode_test() {
    let orig = "Microsoft Windows 10, version 22H2, build 19045.2846 (updated April 2023) - Оригинальные образы от Microsoft MSDN [Ru]";
    let encoded = encode(orig.as_bytes(), Bitmask::uri_component());
    let correct = "Microsoft+Windows+10%2C+version+22H2%2C+build+19045.2846+(updated+April+2023)+-+%D0%9E%D1%80%D0%B8%D0%B3%D0%B8%D0%BD%D0%B0%D0%BB%D1%8C%D0%BD%D1%8B%D0%B5+%D0%BE%D0%B1%D1%80%D0%B0%D0%B7%D1%8B+%D0%BE%D1%82+Microsoft+MSDN+%5BRu%5D";
    assert_eq!(&encoded, correct);

    let orig = "Windows_Embedded_8.1_Industry_Pro_with_Update_x86_x64_MultiLang";
    let encoded = encode(orig.as_bytes(), Bitmask::uri_component());
    assert_eq!(&encoded, orig);
}

#[test]
fn encode_spaces_to_plus() {
    let s = "Dragonborn, dragonborn, by his honor is sworn";
    let encoded = encode(s.as_bytes(), Bitmask::uri());
    assert_eq!(&encoded, "Dragonborn,+dragonborn,+by+his+honor+is+sworn");
}

#[test]
fn decode_escape_triplets() {
    assert_eq!(decode("%54%6F%20%6B%65%65%70"), b"To keep".to_vec());
    let encoded = "%54%6F%20%6B%65%65%70%20%65%76%69%6C%20%66%6F%72%65%76%65%72%20%61%74%20%62%61%79%21";
    assert_eq!(decode(encoded), b"To keep evil forever at bay!".to_vec());
}

#[test]
fn decode_lenient_trailing_percent() {
    assert_eq!(decode("100%"), b"100%".to_vec());
}

#[test]
fn decode_lenient_one_hex_digit() {
    assert_eq!(decode("100%2"), b"100%2".to_vec());
}

#[test]
fn decode_lenient_non_hex() {
    assert_eq!(decode("100%GG"), b"100%GG".to_vec());
    assert_eq!(decode("a%g1b"), b"a%g1b".to_vec());
    assert_eq!(decode("a%1gb"), b"a%1gb".to_vec());
}

#[test]
fn decode_lowercase_hex() {
    assert_eq!(decode("%2c%2C"), b",,".to_vec());
}

#[test]
fn decode_plus_to_space() {
    assert_eq!(decode("a+b+c"), b"a b c".to_vec());
}

#[test]
fn decode_empty() {
    assert_eq!(decode(""), Vec::<u8>::new());
}

#[test]
fn decode_lone_percent_only() {
    assert_eq!(decode("%"), b"%".to_vec());
    assert_eq!(decode("%%"), b"%%".to_vec());
    assert_eq!(decode("%%20"), b"% ".to_vec());
}

#[test]
fn encode_empty() {
    assert_eq!(encode(&[], Bitmask::uri()), String::new());
}

#[test]
fn encode_slash_by_preset() {
    assert_eq!(encode(b"a/b", Bitmask::path()), "a%2Fb");
    assert_eq!(encode(b"a/b", Bitmask::uri_component()), "a%2Fb");
    assert_eq!(encode(b"a/b", Bitmask::uri()), "a/b");
}

#[test]
fn encode_hex_formula() {
    assert_eq!(encode(&[0x2C], Bitmask::uri_component()), "%2C");
    assert_eq!(encode(&[0x00], Bitmask::uri()), "%00");
    assert_eq!(encode(&[0xFF], Bitmask::uri()), "%FF");
    assert_eq!(encode(&[0x20], Bitmask::empty()), "+");
    assert_eq!(encode(&[0x7F], Bitmask::uri()), "%7F");
}

#[test]
fn encode_unsafe_bytes_escaped() {
    let encoded = encode("Новый".as_bytes(), Bitmask::uri_component());
    assert_eq!(&encoded, "%D0%9D%D0%BE%D0%B2%D1%8B%D0%B9");
}

#[test]
fn round_trip_every_byte() {
    let all: Vec<u8> = (0u8..=255).collect();
    for mask in [Bitmask::empty(), Bitmask::uri_component(), Bitmask::path()] {
        let encoded = encode(&all, mask);
        assert_eq!(decode(&encoded), all);
    }
}

#[test]
fn encode_injective_distinct_inputs() {
    // with a mask free of the +/% ambiguity, distinct inputs encode distinctly
    let mask = Bitmask::uri_component();
    let inputs: [&[u8]; 5] = [b"", b" ", b"+", b"%20", b"a b"];
    for (i, x) in inputs.iter().enumerate() {
        for (j, y) in inputs.iter().enumerate() {
            assert_eq!(encode(x, mask) == encode(y, mask), i == j);
        }
    }
}

#[test]
fn round_trip_known_ambiguity() {
    // With a mask that passes `+` through, a literal `+` in the input decodes
    // back as a space: the format itself cannot tell the two apart.
    let encoded = encode(b"1+1", Bitmask::uri());
    assert_eq!(&encoded, "1+1");
    assert_eq!(decode(&encoded), b"1 1".to_vec());
}
