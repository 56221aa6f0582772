use secure_storage_proto::{Key, ParseKeyErr};

#[test]
fn fails_non_hex_encoded_euid() {
    let examples = [
        "v=1,euid=0/zero",
        "v=1,euid=9/nine",
        "v=1,euid=10/ten",
        "v=1,euid=A/ten_but_in_upper_hex_without_0x",
        "v=1,euid=a/ten_but_in_lower_hex_without_0x",
    ];

    for e in examples {
        assert_eq!(e.parse::<Key>(), Err(ParseKeyErr::InvalidSyntax));
    }
}

#[test]
fn fails_capital_x_hex_encoded_euid() {
    let examples = ["v=1,euid=0X0/zero", "v=1,euid=0X9/nine", "v=1,euid=0XA/ten"];

    for e in examples {
        assert_eq!(e.parse::<Key>(), Err(ParseKeyErr::InvalidSyntax));
    }
}

#[test]
fn fails_unknown_version() {
    assert_eq!(
        "v=0,euid=0x0/zero".parse::<Key>(),
        Err(ParseKeyErr::UnsupportedVersion)
    );
    assert_eq!(
        "v=2,euid=0x0/two".parse::<Key>(),
        Err(ParseKeyErr::UnsupportedVersion)
    );
}

#[test]
fn fails_hex_version() {
    let examples = [
        "v=A,euid=0x0/foo",
        "v=a,euid=0x0/foo",
        "v=0xA,euid=0x0/foo",
        "v=0xa,euid=0x0/foo",
        "v=0XA,euid=0x0/foo",
        "v=0Xa,euid=0x0/foo",
    ];
    for e in examples {
        assert_eq!(e.parse::<Key>(), Err(ParseKeyErr::InvalidSyntax), "{e}");
    }
}

#[test]
fn parses_known_good_values() {
    let examples = [
        (0, "zero", "v=1,euid=0x0/zero"),
        (9, "nine", "v=1,euid=0x9/nine"),
        (10, "ten", "v=1,euid=0xA/ten"),
        (255, "two-fifty-five", "v=1,euid=0xFF/two-fifty-five"),
        (256, "two-fifty-six", "v=1,euid=0x100/two-fifty-six"),
    ];

    for (euid, user_key, s) in examples {
        assert_eq!(
            Ok(Key {
                euid,
                user_key: user_key.to_owned()
            }),
            s.parse(),
            "failed string {s}"
        )
    }
}

#[test]
fn renders_upper_case_hex_with_prefix() {
    let k = Key { euid: 0xABCD, user_key: "a/b".to_owned() };
    assert_eq!(k.render(), "v=1,euid=0xABCD/a/b");
    let z = Key { euid: 0, user_key: String::new() };
    assert_eq!(z.render(), "v=1,euid=0x0/");
    let m = Key { euid: u32::MAX, user_key: "max".to_owned() };
    assert_eq!(m.render(), "v=1,euid=0xFFFFFFFF/max");
}

#[test]
fn render_then_parse_gives_key_back() {
    let keys = [
        Key { euid: 0, user_key: "zero".to_owned() },
        Key { euid: 10, user_key: "ten".to_owned() },
        Key { euid: 0x1234_5678, user_key: "nested/path/€".to_owned() },
        Key { euid: u32::MAX, user_key: String::new() },
    ];
    for k in keys {
        assert_eq!(Key::parse(&k.render()), Ok(k));
    }
}

#[test]
fn accepts_mixed_case_hex_digits_and_empty_user_key() {
    assert_eq!(
        Key::parse("v=1,euid=0xaB/"),
        Ok(Key { euid: 0xAB, user_key: String::new() })
    );
    assert_eq!(
        Key::parse("v=1,euid=0x0/a/b/c"),
        Ok(Key { euid: 0, user_key: "a/b/c".to_owned() })
    );
    assert_eq!(
        Key::parse("v=01,euid=0x00FF/x"),
        Ok(Key { euid: 255, user_key: "x".to_owned() })
    );
}

#[test]
fn rejects_broken_envelopes() {
    let examples = [
        "",
        "v",
        "v=1",
        "x=1,euid=0x0/k",
        "v=,euid=0x0/k",
        "v=1,euid=0x0",
        "v=1,uid=0x0/k",
        "v=1,euid=0x/k",
        "v=1,euid=0x1G/k",
        "v=1,euid=0x100000000/k",
        "v=1,euid=0x+1/k",
        "v=+1,euid=0x0/k",
        "v=18446744073709551616,euid=0x0/k",
    ];
    for e in examples {
        assert_eq!(Key::parse(e), Err(ParseKeyErr::InvalidSyntax), "{e}");
    }
}

#[test]
fn large_decimal_versions_are_unsupported() {
    assert_eq!(
        Key::parse("v=18446744073709551615,euid=0x0/k"),
        Err(ParseKeyErr::UnsupportedVersion)
    );
    assert_eq!(Key::parse("v=10,euid=junk"), Err(ParseKeyErr::UnsupportedVersion));
}

#[test]
fn euid_fits_thirty_two_bits() {
    assert_eq!(
        Key::parse("v=1,euid=0xFFFFFFFF/k"),
        Ok(Key { euid: u32::MAX, user_key: "k".to_owned() })
    );
}

#[test]
fn keys_compare_by_euid_then_user_key() {
    let a = Key { euid: 1, user_key: "b".to_owned() };
    let b = Key { euid: 2, user_key: "a".to_owned() };
    let c = Key { euid: 2, user_key: "ab".to_owned() };
    assert!(a.compare(&b) < 0);
    assert!(b.compare(&c) < 0);
    assert!(c.compare(&a) > 0);
    assert_eq!(c.compare(&c.clone()), 0);
}
