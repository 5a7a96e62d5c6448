use b20crunch::b20;
use b20crunch::kernel::f1600;

const DOC_DEPLOYER: &str = "0x1111111111111111111111111111111111111111";

// Confirmed against the live factory on Base mainnet (getB20Address).
const VECTORS: &[(u128, &str, &str, &str)] = &[
    (
        0,
        "f043c50fe795c69f30",
        "0xb200000000000000000000f043c50fe795c69f30",
        "0xb200000000000000000001F043C50fe795C69f30",
    ),
    (
        1,
        "8eec1c9afb183a84aa",
        "0xb2000000000000000000008eec1c9AFB183a84aa",
        "0xB2000000000000000000018eec1C9afb183a84aa",
    ),
    (
        42,
        "c775cb6f4825b8f8a4",
        "0xB200000000000000000000C775cB6F4825b8f8A4",
        "0xb200000000000000000001C775cb6F4825b8f8a4",
    ),
];

#[test]
fn derivation_matches_factory_confirmed_vectors() {
    let deployer = b20::parse_address(DOC_DEPLOYER).unwrap();
    for (salt, tail_hex, asset, stable) in VECTORS {
        let tail = b20::tail(&deployer, *salt);
        let mut hex = [0u8; 18];
        b20::hex_lower(&tail, &mut hex);
        assert_eq!(std::str::from_utf8(&hex).unwrap(), *tail_hex);
        assert_eq!(b20::eip55(&b20::b20_address(&tail, 0)), *asset);
        assert_eq!(b20::eip55(&b20::b20_address(&tail, 1)), *stable);
    }
}

#[test]
fn address_shape() {
    let tail = [0xFFu8; 9];
    let a = b20::b20_address(&tail, 1);
    assert_eq!(a[0], 0xB2);
    assert_eq!(&a[1..10], &[0u8; 9]);
    assert_eq!(a[10], 1);
    assert_eq!(&a[11..], &tail);
}

#[test]
fn eip55_reference_vectors() {
    // From EIP-55 itself
    for s in [
        "0x5aAeb6053F3E94C9b9A09f33669435E7Ef1BeAed",
        "0xfB6916095ca1df60bB79Ce92cE3Ea74c37c5d359",
        "0xdbF03B407c01E7cD3CBea99509d93f8DDDC8C6FB",
        "0xD1220A0cf47c7B9Be7A2E6BA89F429762e7b9aDb",
    ] {
        let a = b20::parse_address(s).unwrap();
        assert_eq!(b20::eip55(&a), s);
    }
}

#[test]
fn salt_bytes_is_big_endian_32() {
    let s = b20::salt_bytes(0x0102);
    assert_eq!(&s[..30], &[0u8; 30]);
    assert_eq!(&s[30..], &[0x01, 0x02]);
}

#[test]
fn parse_address_rejects_garbage() {
    assert!(b20::parse_address("0x123").is_err());
    assert!(b20::parse_address("not an address").is_err());
    assert!(b20::parse_address("0xZZ11111111111111111111111111111111111111").is_err());
}

#[test]
fn parse_address_says_what_it_rejects() {
    assert_eq!(
        b20::parse_address("0x123").unwrap_err(),
        "0x123 is not a 20-byte hex address"
    );
    // 40 bytes, but not 40 hexadecimal digits
    assert!(b20::parse_address("\u{e9}11111111111111111111111111111111111111").is_err());
    // no digit may carry a sign
    assert!(b20::parse_address("+1111111111111111111111111111111111111111").is_err());
}

#[test]
fn parse_address_takes_any_case_and_a_missing_0x() {
    let mut want = [0u8; 20];
    want[0] = 0xab;
    want[19] = 0x0f;
    for s in [
        "0xab0000000000000000000000000000000000000f",
        "0xAB0000000000000000000000000000000000000F",
        "aB0000000000000000000000000000000000000f",
    ] {
        assert_eq!(b20::parse_address(s), Ok(want));
    }
}

#[test]
fn keccak256_known_digests() {
    let mut hex = [0u8; 64];
    b20::hex_lower(&b20::keccak256(b""), &mut hex);
    assert_eq!(
        std::str::from_utf8(&hex).unwrap(),
        "c5d2460186f7233c927e7db2dcc703c0e500b653ca82273b7bfad8045d85a470"
    );
    b20::hex_lower(&b20::keccak256(b"abc"), &mut hex);
    assert_eq!(
        std::str::from_utf8(&hex).unwrap(),
        "4e03657aea45a94fc7d47ba826c8d667c0d1e6e33a64a036ec44f58fa12d6c45"
    );
}

#[test]
fn the_documented_salt_spells_coffee() {
    let deployer = b20::parse_address(DOC_DEPLOYER).unwrap();
    let tail = b20::tail(&deployer, 2000763);
    assert_eq!(
        b20::eip55(&b20::b20_address(&tail, 0)),
        "0xB200000000000000000000c0FFeeA7F58D19C4Ef"
    );
}

#[test]
fn salts_are_deployer_bound() {
    let mut other = [0x11u8; 20];
    other[19] = 0x12;
    let mine = b20::preimage_bytes(&[0x11u8; 20], 42);
    assert_ne!(mine, b20::preimage_bytes(&other, 42));
    assert_ne!(mine, b20::preimage_bytes(&[0x11u8; 20], 43));
    assert_ne!(b20::tail(&[0x11u8; 20], 42), b20::tail(&other, 42));
    assert_eq!(&mine[..12], &[0u8; 12]);
    assert_eq!(&mine[12..32], &[0x11u8; 20]);
    assert_eq!(&mine[32..], &b20::salt_bytes(42));
}

#[test]
fn variants_differ_in_one_byte() {
    let tail = b20::tail(&[0x11u8; 20], 7);
    let (a, s) = (b20::b20_address(&tail, 0), b20::b20_address(&tail, 1));
    for i in 0..20 {
        assert_eq!(a[i] == s[i], i != 10);
    }
}

#[test]
fn salt_bytes_hold_the_whole_salt() {
    let s = b20::salt_bytes(u128::MAX);
    assert_eq!(&s[..16], &[0u8; 16]);
    assert_eq!(&s[16..], &[0xffu8; 16]);
}

#[test]
fn checksummed_text_reads_back() {
    let mut addr = [0u8; 20];
    for (i, b) in addr.iter_mut().enumerate() {
        *b = (i * 37 + 11) as u8;
    }
    let s = b20::eip55(&addr);
    assert_eq!(b20::parse_address(&s), Ok(addr));
    assert_eq!(s.len(), 42);
    // casing only
    assert_eq!(b20::parse_address(&s.to_lowercase()), Ok(addr));
}

#[test]
fn casing_follows_the_digest() {
    let addr = [0xabu8; 20];
    assert_eq!(
        b20::checksummed(&addr, &[0x00u8; 32]),
        "0xabababababababababababababababababababab"
    );
    assert_eq!(
        b20::checksummed(&addr, &[0x80u8; 32]),
        "0xAbAbAbAbAbAbAbAbAbAbAbAbAbAbAbAbAbAbAbAb"
    );
    assert_eq!(
        b20::checksummed(&[0x12u8; 20], &[0xffu8; 32]),
        "0x1212121212121212121212121212121212121212"
    );
}

/// The sponge, block by block, over the library's permutation.
fn sponge(data: &[u8]) -> [u8; 32] {
    let mut st = [0u64; 25];
    let full = data.len() / 136;
    for i in 0..=full {
        let mut block = [0u8; 136];
        if i < full {
            block.copy_from_slice(&data[136 * i..136 * i + 136]);
        } else {
            let rest = &data[136 * full..];
            block[..rest.len()].copy_from_slice(rest);
            block[rest.len()] ^= 0x01;
            block[135] ^= 0x80;
        }
        for (lane, bytes) in st.iter_mut().zip(block.chunks_exact(8)) {
            *lane ^= u64::from_le_bytes(bytes.try_into().unwrap());
        }
        f1600(&mut st);
    }
    let mut out = [0u8; 32];
    for (bytes, lane) in out.chunks_exact_mut(8).zip(st) {
        bytes.copy_from_slice(&lane.to_le_bytes());
    }
    out
}

#[test]
fn messages_of_any_length_go_through_the_sponge() {
    let data: Vec<u8> = (0..600u32).map(|i| (i * i + 3 * i) as u8).collect();
    for len in [0, 1, 64, 134, 135, 136, 137, 271, 272, 273, 407, 408, 600] {
        assert_eq!(b20::keccak256(&data[..len]), sponge(&data[..len]), "{len} bytes");
    }
}
