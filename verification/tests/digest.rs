use numeric_utils::{hash_bytes, hash_password, to_hex};

fn stepwise_accumulator(bytes: &[u8], iterations: u32) -> u64 {
    let mut hash: u64 = 0;
    for _ in 0..iterations {
        for (i, byte) in bytes.iter().enumerate() {
            hash = hash.wrapping_mul(31);
            hash = hash.wrapping_add(*byte as u64);
            hash = hash.wrapping_add(i as u64);
        }
    }
    hash
}

#[test]
fn hash_of_nothing_is_sixteen_zeros() {
    assert_eq!(hash_password(String::new(), 0), "0000000000000000");
}

#[test]
fn hash_of_empty_password_is_zero_for_any_iterations() {
    assert_eq!(hash_password(String::new(), 5), "0000000000000000");
    assert_eq!(hash_password(String::new(), 4294967295), "0000000000000000");
}

#[test]
fn hash_with_zero_iterations_is_zero_for_any_password() {
    assert_eq!(hash_password(String::from("abc"), 0), "0000000000000000");
    assert_eq!(hash_password(String::from("hunter2"), 0), "0000000000000000");
}

#[test]
fn hash_password_exact_digests() {
    assert_eq!(hash_password(String::from("a"), 1), "0000000000000061");
    assert_eq!(hash_password(String::from("abc"), 1), "0000000000017883");
    assert_eq!(hash_password(String::from("abc"), 2), "00000000ab288d20");
    assert_eq!(hash_password(String::from("password"), 1000), "b1587cb2ce272918");
    assert_eq!(
        hash_password(String::from("correct horse battery staple"), 100000),
        "667edf938e7047e0"
    );
}

#[test]
fn hash_password_uses_the_utf8_bytes() {
    assert_eq!(hash_password(String::from("\u{ff}"), 1), "000000000000185d");
    assert_eq!(hash_password(String::from("h\u{e9}llo"), 3), "1467df85e1b1e38c");
}

#[test]
fn hash_password_is_deterministic() {
    let first: String = hash_password(String::from("swordfish"), 77);
    let second: String = hash_password(String::from("swordfish"), 77);
    assert_eq!(first, second);
    assert_ne!(first, hash_password(String::from("swordfish"), 78));
    assert_ne!(first, hash_password(String::from("swordfisi"), 77));
}

#[test]
fn hash_password_is_sixteen_lowercase_hex_digits() {
    let passwords: [&str; 6] = ["", "a", "abc", "password", "\u{1f600}", "A much longer passphrase"];
    for password in passwords {
        for iterations in [0u32, 1, 2, 31, 1000] {
            let digest: String = hash_password(String::from(password), iterations);
            assert_eq!(digest.len(), 16);
            assert!(digest.chars().all(|c| matches!(c, '0'..='9' | 'a'..='f')), "{}", digest);
        }
    }
}

#[test]
fn hash_password_matches_std_formatting() {
    let passwords: [&str; 5] = ["x", "abc", "password", "\u{e9}t\u{e9}", "0123456789abcdef0123456789"];
    for password in passwords {
        for iterations in [1u32, 3, 64, 999] {
            let expected: String =
                format!("{:016x}", stepwise_accumulator(password.as_bytes(), iterations));
            assert_eq!(hash_password(String::from(password), iterations), expected);
        }
    }
}

#[test]
fn hash_bytes_absorbs_byte_and_position() {
    assert_eq!(hash_bytes(&[], 3), 0);
    assert_eq!(hash_bytes(&[1, 2], 0), 0);
    assert_eq!(hash_bytes(&[0], 1), 0);
    assert_eq!(hash_bytes(&[0, 0], 1), 1);
    assert_eq!(hash_bytes(&[1, 2], 1), 34);
    assert_eq!(hash_bytes(&[97, 98, 99], 1), 96387);
    assert_eq!(hash_bytes(&[97, 98, 99], 2), 2871561504);
}

#[test]
fn hash_bytes_wraps_on_overflow() {
    let bytes: [u8; 16] = [255; 16];
    assert_eq!(hash_bytes(&bytes, 50), stepwise_accumulator(&bytes, 50));
    assert_eq!(hash_bytes(b"password", 1000), 0xb1587cb2ce272918);
}

#[test]
fn to_hex_pads_and_uses_lowercase() {
    assert_eq!(to_hex(0), "0000000000000000");
    assert_eq!(to_hex(1), "0000000000000001");
    assert_eq!(to_hex(0xabcdef), "0000000000abcdef");
    assert_eq!(to_hex(0x0123456789abcdef), "0123456789abcdef");
    assert_eq!(to_hex(0xfedcba9876543210), "fedcba9876543210");
    assert_eq!(to_hex(u64::MAX), "ffffffffffffffff");
}

#[test]
fn to_hex_reads_back_as_the_value() {
    let samples: [u64; 6] = [0, 9, 10, 255, 0x8000000000000000, 0xdeadbeefcafef00d];
    for value in samples {
        let text: String = to_hex(value);
        assert_eq!(text, format!("{:016x}", value));
        assert_eq!(u64::from_str_radix(&text, 16), Ok(value));
    }
}
