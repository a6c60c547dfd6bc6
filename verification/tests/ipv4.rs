use everscale_global_config_builder::ipv4::{is_public_ipv4, Ipv4Addr};

#[test]
fn public_ipv4_filter_rejects_non_public_ranges() {
    assert!(is_public_ipv4(Ipv4Addr::new(51, 195, 248, 121)));
    assert!(!is_public_ipv4(Ipv4Addr::new(10, 0, 0, 1)));
    assert!(!is_public_ipv4(Ipv4Addr::new(127, 0, 0, 1)));
    assert!(!is_public_ipv4(Ipv4Addr::new(192, 0, 2, 1)));
    assert!(!is_public_ipv4(Ipv4Addr::new(224, 0, 0, 1)));
}

#[test]
fn public_ranges_end_where_special_ones_begin() {
    let public = [
        [1, 0, 0, 0],
        [9, 255, 255, 255],
        [11, 0, 0, 0],
        [126, 255, 255, 255],
        [128, 0, 0, 0],
        [169, 253, 0, 1],
        [169, 255, 0, 1],
        [172, 15, 255, 255],
        [172, 32, 0, 0],
        [192, 0, 1, 255],
        [192, 0, 3, 0],
        [192, 167, 0, 1],
        [192, 169, 0, 1],
        [198, 51, 99, 1],
        [203, 0, 114, 1],
        [223, 255, 255, 255],
    ];
    for [a, b, c, d] in public {
        assert!(is_public_ipv4(Ipv4Addr::new(a, b, c, d)), "{a}.{b}.{c}.{d}");
    }
    let special = [
        [0, 0, 0, 0],
        [0, 1, 2, 3],
        [10, 255, 255, 255],
        [127, 255, 0, 1],
        [169, 254, 1, 1],
        [172, 16, 0, 1],
        [172, 31, 255, 255],
        [192, 168, 1, 1],
        [198, 51, 100, 7],
        [203, 0, 113, 9],
        [239, 255, 255, 255],
        [240, 0, 0, 1],
        [255, 255, 255, 255],
    ];
    for [a, b, c, d] in special {
        assert!(!is_public_ipv4(Ipv4Addr::new(a, b, c, d)), "{a}.{b}.{c}.{d}");
    }
}

#[test]
fn every_number_has_one_address() {
    let mut bits: u32 = 1;
    for _ in 0..20_000 {
        bits = bits.wrapping_mul(1_664_525).wrapping_add(1_013_904_223);
        let address = Ipv4Addr::from_bits(bits);
        let [a, b, c, d] = address.octets();
        assert_eq!([a, b, c, d], bits.to_be_bytes());
        assert!(address == Ipv4Addr::new(a, b, c, d));
        assert_eq!(address.to_text(), format!("{a}.{b}.{c}.{d}"));
    }
}

#[test]
fn special_ranges_are_told_apart() {
    assert!(Ipv4Addr::new(172, 20, 0, 1).is_private());
    assert!(!Ipv4Addr::new(172, 32, 0, 1).is_private());
    assert!(Ipv4Addr::new(127, 9, 9, 9).is_loopback());
    assert!(!Ipv4Addr::new(128, 0, 0, 1).is_loopback());
    assert!(Ipv4Addr::new(169, 254, 9, 9).is_link_local());
    assert!(!Ipv4Addr::new(169, 253, 9, 9).is_link_local());
    assert!(Ipv4Addr::new(239, 1, 1, 1).is_multicast());
    assert!(!Ipv4Addr::new(240, 1, 1, 1).is_multicast());
    assert!(Ipv4Addr::new(255, 255, 255, 255).is_broadcast());
    assert!(!Ipv4Addr::new(255, 255, 255, 254).is_broadcast());
    assert!(Ipv4Addr::new(198, 51, 100, 1).is_documentation());
    assert!(!Ipv4Addr::new(198, 51, 101, 1).is_documentation());
    assert!(Ipv4Addr::new(0, 0, 0, 0).is_unspecified());
    assert!(!Ipv4Addr::new(0, 0, 0, 1).is_unspecified());
}

#[test]
fn addresses_are_shown_in_dotted_decimal() {
    assert_eq!(Ipv4Addr::from_bits(0x33C3_F879).to_text(), "51.195.248.121");
    assert_eq!(Ipv4Addr::new(0, 0, 0, 0).to_text(), "0.0.0.0");
    assert_eq!(Ipv4Addr::new(255, 100, 10, 9).to_text(), "255.100.10.9");
}
