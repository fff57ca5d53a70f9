use stacks_c32::address::c32::{
    c32_address, c32_address_decode, c32_check_compare, c32_check_decode, c32_check_encode,
    c32_decode, c32_encode, double_sha256_checksum,
};
use stacks_c32::address::Error;

fn hex_bytes(s: &str) -> Result<Vec<u8>, String> {
    if s.len() % 2 != 0 {
        return Err(format!("odd-length hex string: {}", s));
    }
    let mut out = Vec::with_capacity(s.len() / 2);
    let bytes = s.as_bytes();
    for pair in bytes.chunks(2) {
        let text = std::str::from_utf8(pair).map_err(|e| e.to_string())?;
        let byte = u8::from_str_radix(text, 16).map_err(|e| e.to_string())?;
        out.push(byte);
    }
    Ok(out)
}

#[test]
fn test_addresses() {
    let hex_strs = [
        "a46ff88886c2ef9762d970b4d2c63678835bd39d",
        "0000000000000000000000000000000000000000",
        "0000000000000000000000000000000000000001",
        "1000000000000000000000000000000000000001",
        "1000000000000000000000000000000000000000",
    ];

    let versions = [22, 0, 31, 20, 26, 21];

    let c32_addrs = [
        [
            "SP2J6ZY48GV1EZ5V2V5RB9MP66SW86PYKKNRV9EJ7",
            "SP000000000000000000002Q6VF78",
            "SP00000000000000000005JA84HQ",
            "SP80000000000000000000000000000004R0CMNV",
            "SP800000000000000000000000000000033H8YKK",
        ],
        [
            "S02J6ZY48GV1EZ5V2V5RB9MP66SW86PYKKPVKG2CE",
            "S0000000000000000000002AA028H",
            "S000000000000000000006EKBDDS",
            "S080000000000000000000000000000007R1QC00",
            "S080000000000000000000000000000003ENTGCQ",
        ],
        [
            "SZ2J6ZY48GV1EZ5V2V5RB9MP66SW86PYKKQ9H6DPR",
            "SZ000000000000000000002ZE1VMN",
            "SZ00000000000000000005HZ3DVN",
            "SZ80000000000000000000000000000004XBV6MS",
            "SZ800000000000000000000000000000007VF5G0",
        ],
        [
            "SM2J6ZY48GV1EZ5V2V5RB9MP66SW86PYKKQVX8X0G",
            "SM0000000000000000000062QV6X",
            "SM00000000000000000005VR75B2",
            "SM80000000000000000000000000000004WBEWKC",
            "SM80000000000000000000000000000000JGSYGV",
        ],
        [
            "ST2J6ZY48GV1EZ5V2V5RB9MP66SW86PYKKQYAC0RQ",
            "ST000000000000000000002AMW42H",
            "ST000000000000000000042DB08Y",
            "ST80000000000000000000000000000006BYJ4R4",
            "ST80000000000000000000000000000002YBNPV3",
        ],
        [
            "SN2J6ZY48GV1EZ5V2V5RB9MP66SW86PYKKP6D2ZK9",
            "SN000000000000000000003YDHWKJ",
            "SN00000000000000000005341MC8",
            "SN800000000000000000000000000000066KZWY0",
            "SN800000000000000000000000000000006H75AK",
        ],
    ];

    for i in 0..hex_strs.len() {
        for j in 0..versions.len() {
            let h = hex_strs[i];
            let v = versions[j];
            let b = hex_bytes(h).unwrap();
            let z = c32_address(v, &b).unwrap();

            assert_eq!(z, c32_addrs[j][i]);

            let (decoded_version, decoded_bytes) = c32_address_decode(&z).unwrap();
            assert_eq!(decoded_version, v);
            assert_eq!(decoded_bytes, b);
        }
    }
}

#[test]
fn test_simple() {
    let hex_strings = &[
        "a46ff88886c2ef9762d970b4d2c63678835bd39d",
        "",
        "0000000000000000000000000000000000000000",
        "0000000000000000000000000000000000000001",
        "1000000000000000000000000000000000000001",
        "1000000000000000000000000000000000000000",
        "01",
        "22",
        "0001",
        "000001",
        "00000001",
        "10",
        "0100",
        "1000",
        "010000",
        "100000",
        "01000000",
        "10000000",
        "0100000000",
    ];
    let c32_strs = [
        "MHQZH246RBQSERPSE2TD5HHPF21NQMWX",
        "",
        "00000000000000000000",
        "00000000000000000001",
        "20000000000000000000000000000001",
        "20000000000000000000000000000000",
        "1",
        "12",
        "01",
        "001",
        "0001",
        "G",
        "80",
        "400",
        "2000",
        "10000",
        "G0000",
        "800000",
        "4000000",
    ];

    let results: Vec<_> = hex_strings
        .iter()
        .zip(c32_strs.iter())
        .map(|(hex_str, expected)| {
            let bytes = hex_bytes(hex_str).unwrap();
            let c32_encoded = c32_encode(&bytes);
            let decoded_bytes = c32_decode(&c32_encoded).unwrap();
            let result = (bytes, c32_encoded, decoded_bytes, expected);
            println!("{:?}", result);
            result
        })
        .collect();
    for (bytes, c32_encoded, decoded_bytes, expected_c32) in results.iter() {
        assert_eq!(bytes, decoded_bytes);
        assert_eq!(c32_encoded, *expected_c32);
    }
}

#[test]
fn encode_exact_values() {
    assert_eq!(c32_encode(&[0xff, 0xff]), "1ZZZ");
    assert_eq!(c32_encode(b"hello"), "D1JPRV3F");
    assert_eq!(c32_encode(&[0, 0, 0]), "000");
    assert_eq!(c32_encode(&[0x1f]), "Z");
    assert_eq!(c32_encode(&[0x20]), "10");
}

#[test]
fn decode_exact_values() {
    assert_eq!(c32_decode("ZZZ").unwrap(), vec![0x7f, 0xff]);
    assert_eq!(c32_decode("000").unwrap(), vec![0, 0, 0]);
    assert_eq!(c32_decode("").unwrap(), Vec::<u8>::new());
    assert_eq!(c32_decode("D1JPRV3F").unwrap(), b"hello".to_vec());
}

#[test]
fn decode_rejects_non_c32_characters() {
    // letters left out of the alphabet, lower case, punctuation and non-ASCII
    for bad in ["I", "L", "O", "U", "a", "12-3", "é", "1Ö2"] {
        assert_eq!(c32_decode(bad), Err(Error::InvalidCrockford32));
    }
}

#[test]
fn decode_then_encode_gives_back_the_text() {
    for text in ["", "0", "00Z", "7ZZZ", "MHQZH246RBQSERPSE2TD5HHPF21NQMWX", "0001"] {
        let bytes = c32_decode(text).unwrap();
        assert_eq!(c32_encode(&bytes), text);
    }
}

#[test]
fn encode_then_decode_gives_back_the_bytes() {
    let samples: [&[u8]; 5] = [&[], &[0], &[0, 0, 1, 2, 3], &[255; 7], &[1, 0, 0, 0, 0, 0, 0]];
    for bytes in samples {
        assert_eq!(c32_decode(&c32_encode(bytes)).unwrap(), bytes.to_vec());
    }
}

#[test]
fn checksum_is_first_four_bytes_of_double_sha256() {
    // SHA-256(SHA-256("")) = 5df6e0e2...
    assert_eq!(double_sha256_checksum(&[]), vec![0x5d, 0xf6, 0xe0, 0xe2]);
}

#[test]
fn check_encode_refuses_large_versions() {
    assert_eq!(c32_check_encode(32, &[1, 2, 3]), Err(Error::InvalidVersion(32)));
    assert_eq!(c32_address(255, &[1]), Err(Error::InvalidVersion(255)));
}

#[test]
fn check_roundtrip() {
    let data = hex_bytes("a46ff88886c2ef9762d970b4d2c63678835bd39d").unwrap();
    let text = c32_check_encode(22, &data).unwrap();
    assert_eq!(text, "P2J6ZY48GV1EZ5V2V5RB9MP66SW86PYKKNRV9EJ7");
    assert_eq!(c32_check_decode(&text).unwrap(), (22, data));
}

#[test]
fn check_decode_short_or_invalid_text() {
    assert_eq!(c32_check_decode("P"), Err(Error::InvalidCrockford32));
    assert_eq!(c32_check_decode(""), Err(Error::InvalidCrockford32));
    // payload of fewer than five bytes
    assert_eq!(c32_check_decode("P00"), Err(Error::InvalidCrockford32));
    // invalid version symbol
    assert_eq!(
        c32_check_decode("U2J6ZY48GV1EZ5V2V5RB9MP66SW86PYKKNRV9EJ7"),
        Err(Error::InvalidCrockford32)
    );
}

#[test]
fn address_decode_bad_checksum() {
    assert_eq!(
        c32_address_decode("SP2J6ZY48GV1EZ5V2V5RB9MP66SW86PYKKNRV9EJ0"),
        Err(Error::BadChecksum(1203418225, 1085977713))
    );
}

#[test]
fn address_decode_short_addresses() {
    assert_eq!(c32_address_decode("SP000"), Err(Error::InvalidCrockford32));
    assert_eq!(c32_address_decode(""), Err(Error::InvalidCrockford32));
    assert_eq!(c32_address_decode("SP0000"), Err(Error::InvalidCrockford32));
}

#[test]
fn address_of_empty_data_does_not_read_back() {
    let address = c32_address(0, &[]).unwrap();
    assert_eq!(c32_address_decode(&address), Err(Error::InvalidCrockford32));
}

#[test]
fn check_compare_results() {
    assert_eq!(
        c32_check_compare(3, &[9, 8], &[1, 2, 3, 4], &[1, 2, 3, 4]),
        Ok((3, vec![9, 8]))
    );
    assert_eq!(
        c32_check_compare(3, &[9, 8], &[1, 0, 0, 0], &[0, 0, 0, 1]),
        Err(Error::BadChecksum(0x0100_0000, 1))
    );
}
