use ethereum_snapshot::address::Address;
use ethereum_snapshot::balance::Balance;
use ethereum_snapshot::hex::quantity;
use std::str::FromStr;

#[test]
fn quantity_has_no_leading_zeros() {
    assert_eq!(quantity(0), "0x0");
    assert_eq!(quantity(1), "0x1");
    assert_eq!(quantity(15), "0xf");
    assert_eq!(quantity(16), "0x10");
    assert_eq!(quantity(250), "0xfa");
    assert_eq!(quantity(17_000_000), "0x1036640");
    assert_eq!(quantity(u64::MAX), "0xffffffffffffffff");
}

#[test]
fn address_text_round_trip() {
    let text = "0xd27b7d42d24d8f7c1cf5c46ccd3b986c396fde17";
    let address = Address::from_hex(text).unwrap();
    assert_eq!(address.bytes[0], 0xd2);
    assert_eq!(address.bytes[1], 0x7b);
    assert_eq!(address.bytes[19], 0x17);
    assert_eq!(address.to_hex(), text);
}

#[test]
fn address_text_ignores_case_and_prefix() {
    let lower = Address::from_hex("0xd27b7d42d24d8f7c1cf5c46ccd3b986c396fde17").unwrap();
    let upper = Address::from_hex("0xD27B7D42D24D8F7C1CF5C46CCD3B986C396FDE17").unwrap();
    let bare = Address::from_hex("d27b7d42d24d8f7c1cf5c46ccd3b986c396fde17").unwrap();
    let mixed = Address::from_hex("0xD27b7D42d24D8F7c1Cf5c46ccD3b986c396fDe17").unwrap();
    assert_eq!(lower, upper);
    assert_eq!(lower, bare);
    assert_eq!(lower, mixed);
    assert!(lower.same(&upper));
    assert_eq!(upper.to_hex(), "0xd27b7d42d24d8f7c1cf5c46ccd3b986c396fde17");
}

#[test]
fn address_text_is_checked() {
    assert_eq!(Address::from_hex(""), None);
    assert_eq!(Address::from_hex("0x"), None);
    assert_eq!(Address::from_hex("0xd27b7d42d24d8f7c1cf5c46ccd3b986c396fde1"), None);
    assert_eq!(Address::from_hex("0xd27b7d42d24d8f7c1cf5c46ccd3b986c396fde170"), None);
    assert_eq!(Address::from_hex("0xg27b7d42d24d8f7c1cf5c46ccd3b986c396fde17"), None);
    assert_eq!(Address::from_hex("0Xd27b7d42d24d8f7c1cf5c46ccd3b986c396fde17"), None);
    assert_eq!(Address::from_hex("0xd27b7d42d24d8f7c1cf5c46ccd3b986c396fde1é"), None);
}

#[test]
fn different_addresses_differ() {
    let a = Address::from_hex("0x00000000000000000000000000000000000000aa").unwrap();
    let b = Address::from_hex("0x00000000000000000000000000000000000000ab").unwrap();
    assert!(!a.same(&b));
    assert!(a.same(&a));
    assert_ne!(a, b);
}

#[test]
fn topic_holds_the_address_in_its_last_bytes() {
    let topic = "0x000000000000000000000000d27b7d42d24d8f7c1cf5c46ccd3b986c396fde17";
    let address = Address::from_topic(topic).unwrap();
    assert_eq!(address.to_hex(), "0xd27b7d42d24d8f7c1cf5c46ccd3b986c396fde17");
    let dirty = "0xffffffffffffffffffffffffd27b7d42d24d8f7c1cf5c46ccd3b986c396fde17";
    assert_eq!(Address::from_topic(dirty), Some(address));
}

#[test]
fn topic_text_is_checked() {
    assert_eq!(Address::from_topic("0xd27b7d42d24d8f7c1cf5c46ccd3b986c396fde17"), None);
    assert_eq!(
        Address::from_topic("000000000000000000000000d27b7d42d24d8f7c1cf5c46ccd3b986c396fde17"),
        None
    );
    assert_eq!(
        Address::from_topic("0x00000000000000000000000gd27b7d42d24d8f7c1cf5c46ccd3b986c396fde17"),
        None
    );
    assert_eq!(
        Address::from_topic("0x000000000000000000000000d27b7d42d24d8f7c1cf5c46ccd3b986c396fde1700"),
        None
    );
}

#[test]
fn quantity_text_is_a_number() {
    assert_eq!(Balance::from_hex("0x1f4"), Some(Balance::from_u64(500)));
    assert_eq!(Balance::from_hex("1F4"), Some(Balance::from_u64(500)));
    assert_eq!(Balance::from_hex("0x0001f4"), Some(Balance::from_u64(500)));
    assert_eq!(Balance::from_hex("0x"), Some(Balance::zero()));
    assert_eq!(Balance::from_hex(""), Some(Balance::zero()));
    assert_eq!(Balance::from_hex("0x0"), Some(Balance::zero()));
    assert_eq!(
        Balance::from_hex("0x00000000000000000000000000000000000000000000000000000000000001f4"),
        Some(Balance::from_u64(500))
    );
    let max = Balance::from_hex(
        "0xffffffffffffffffffffffffffffffffffffffffffffffffffffffffffffffff",
    )
    .unwrap();
    assert_eq!(
        max.to_decimal(),
        "115792089237316195423570985008687907853269984665640564039457584007913129639935"
    );
}

#[test]
fn quantity_text_is_checked() {
    assert_eq!(Balance::from_hex("0xg"), None);
    assert_eq!(Balance::from_hex("0x 1"), None);
    assert_eq!(Balance::from_hex("-1"), None);
    assert_eq!(Balance::from_hex("0x0x1"), None);
    assert_eq!(Balance::from_hex("0xé"), None);
    assert_eq!(
        Balance::from_hex("0x10000000000000000000000000000000000000000000000000000000000000000"),
        None
    );
}

#[test]
fn words_of_return_data() {
    let data = "0x\
        00000000000000000000000000000000000000000000000000000000000003e8\
        00000000000000000000000000000000000000000000000000000000001e8480\
        0000000000000000000000000000000000000000000000000000000065000000";
    assert_eq!(Balance::from_word(data, 0), Some(Balance::from_u64(1000)));
    assert_eq!(Balance::from_word(data, 1), Some(Balance::from_u64(2_000_000)));
    assert_eq!(Balance::from_word(data, 2), Some(Balance::from_u64(0x65000000)));
    assert_eq!(Balance::from_word(data, 3), None);
    assert_eq!(Balance::from_word(data, usize::MAX), None);
}

#[test]
fn return_data_is_checked() {
    let word = "00000000000000000000000000000000000000000000000000000000000003e8";
    assert_eq!(Balance::from_word(word, 0), None);
    assert_eq!(Balance::from_word(&format!("0x{}", &word[1..]), 0), None);
    assert_eq!(Balance::from_word(&format!("0x{}zz", word), 0), None);
    assert_eq!(Balance::from_word(&format!("0x{}ab", word), 0), Some(Balance::from_u64(1000)));
    assert_eq!(Balance::from_word("0x", 0), None);
    assert_eq!(Balance::from_word("", 0), None);
}

#[test]
fn quantity_agrees_with_the_formatter() {
    let mut state: u64 = 7;
    for i in 0..300 {
        state = state.wrapping_mul(6_364_136_223_846_793_005).wrapping_add(1_442_695_040_888_963_407);
        let n = state >> (i % 64);
        assert_eq!(quantity(n), format!("0x{:x}", n));
        assert_eq!(Balance::from_hex(&quantity(n)), Some(Balance::from_u64(n)));
    }
}

#[test]
fn address_text_agrees_with_the_formatter() {
    let mut state: u64 = 11;
    for _ in 0..100 {
        let mut bytes = [0u8; 20];
        for b in bytes.iter_mut() {
            state = state.wrapping_mul(6_364_136_223_846_793_005).wrapping_add(1_442_695_040_888_963_407);
            *b = (state >> 33) as u8;
        }
        let address = Address::from_bytes(bytes);
        let text: String = bytes.iter().map(|b| format!("{:02x}", b)).collect();
        assert_eq!(address.to_hex(), format!("0x{}", text));
        assert_eq!(Address::from_hex(&address.to_hex()), Some(address));
        assert_eq!(Address::from_hex(&text.to_uppercase()), Some(address));
        assert_eq!(
            Address::from_topic(&format!("0x000000000000000000000000{}", text)),
            Some(address)
        );
        assert_eq!(format!("{:#x}", ethers::types::Address::from(bytes)), address.to_hex());
    }
}

#[test]
fn quantity_text_is_read_as_a_256_bit_number_reads_it() {
    let sixty_four = "f".repeat(64);
    let sixty_five = format!("1{}", "0".repeat(64));
    let texts = [
        "", "0x", "0", "0x0", "00", "ff", "0xff", "0xFF", "0XFF", "fF", "f", "0xf", "abc", "0xabc",
        "0xg", "g", "0x0x1", " 1", "1 ", "+1", "-1", "1_0", "0x1_0", "x1", "0x", "é", "0xé",
        "1234567890abcdefABCDEF", &sixty_four, &sixty_five, "0x00000000000000000000000000000001",
    ];
    for text in texts {
        let theirs = ethers::types::U256::from_str(text).ok().map(|n| n.to_string());
        let ours = Balance::from_hex(text).map(|n| n.to_decimal());
        assert_eq!(ours, theirs, "{:?}", text);
    }
    let prefixed = format!("0x{}", sixty_four);
    assert_eq!(
        Balance::from_hex(&prefixed).map(|n| n.to_decimal()),
        Some(ethers::types::U256::MAX.to_string())
    );
    assert_eq!(Balance::from_hex(&format!("0x{}", sixty_five)), None);
    assert!(ethers::types::U256::from_str(&format!("0x{}", sixty_five)).is_err());
}

#[test]
fn address_text_is_read_as_a_160_bit_hash_reads_it() {
    let texts = [
        "0xd27b7d42d24d8f7c1cf5c46ccd3b986c396fde17",
        "d27b7d42d24d8f7c1cf5c46ccd3b986c396fde17",
        "0xD27B7D42D24D8F7C1CF5C46CCD3B986C396FDE17",
        "0Xd27b7d42d24d8f7c1cf5c46ccd3b986c396fde17",
        "0xd27b7d42d24d8f7c1cf5c46ccd3b986c396fde1",
        "0xd27b7d42d24d8f7c1cf5c46ccd3b986c396fde170",
        "0xg27b7d42d24d8f7c1cf5c46ccd3b986c396fde17",
        "",
        "0x",
    ];
    for text in texts {
        let theirs = ethers::types::Address::from_str(text).ok().map(|a| a.0);
        let ours = Address::from_hex(text).map(|a| a.bytes);
        assert_eq!(ours, theirs, "{:?}", text);
    }
}
