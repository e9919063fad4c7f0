use mfsk::msg::callsign::{
    is_plausible_callsign, is_plausible_message, is_standard_callsign, is_valid_callsign,
};
use mfsk::msg::hash_table::CallsignHashTable;
use mfsk::msg::pack::{pack28, pack77, pack77_free_text, pack77_type1, pack77_type4, pack_grid4};
use mfsk::msg::wsjt77::{
    fmt_report, unpack28, unpack77, unpack77_with_hash, MAX_GRID4, NTOKENS,
};

#[test]
fn single_digit_reports_are_zero_padded_like_wsjtx() {
    assert_eq!(fmt_report(-8, 0), "-08");
    assert_eq!(fmt_report(-8, 1), "R-08");
    assert_eq!(fmt_report(8, 0), "+08");
    assert_eq!(fmt_report(8, 1), "R+08");
    assert_eq!(fmt_report(0, 0), "+00");
}

#[test]
fn two_digit_reports_are_unchanged() {
    assert_eq!(fmt_report(-23, 0), "-23");
    assert_eq!(fmt_report(-23, 1), "R-23");
    assert_eq!(fmt_report(15, 0), "+15");
    assert_eq!(fmt_report(-30, 0), "-30");
}

#[test]
fn matches_the_jt9_strings_that_exposed_the_bug() {
    assert_eq!(
        format!("W1FC F5BZB {}", fmt_report(-8, 0)),
        "W1FC F5BZB -08"
    );
    assert_eq!(
        format!("WM3PEN EA6VQ {}", fmt_report(-9, 0)),
        "WM3PEN EA6VQ -09"
    );
    assert_eq!(
        format!("N1JFU EA6EE {}", fmt_report(-7, 1)),
        "N1JFU EA6EE R-07"
    );
    assert_eq!(
        format!("K1BZM EA3GP {}", fmt_report(-9, 0)),
        "K1BZM EA3GP -09"
    );
}

#[test]
fn plausible_callsign_accepts_real_calls() {
    for c in [
        "W1AW", "JA1XYZ", "DL3DB", "EA6VQ", "HB9CQK", "F5RXL", "G3WDG", "VK6ABC", "K1JT",
        "N1PJT", "JL1NIE", "WM3PEN",
    ] {
        assert!(is_plausible_callsign(c), "should accept {c}");
    }
    for c in ["A22ZZ", "V51AAA", "S55BC", "T77QQ"] {
        assert!(is_plausible_callsign(c), "should accept {c}");
    }
    for c in ["3D2RA", "4X4ABC", "5B4XYZ", "9V1ABC"] {
        assert!(is_plausible_callsign(c), "should accept {c}");
    }
    for c in ["JA1XYZ/P", "JA1XYZ/QRP", "F/JA1XYZ", "KH6/N1ABC"] {
        assert!(is_plausible_callsign(c), "should accept {c}");
    }
}

#[test]
fn plausible_callsign_rejects_letter_digit_gaps() {
    for c in [
        "Z74QTJ",
        "Q1ABC",
        "Q4ABCD", "X0FOO",
        "Y0ABC",
    ] {
        assert!(
            !is_plausible_callsign(c),
            "should reject {c} (unallocated letter+digit prefix)"
        );
    }
}

#[test]
fn plausible_callsign_compound_garbage() {
    assert!(is_plausible_callsign("JA1XYZ/P"));
    assert!(!is_plausible_callsign("Z74QTJ/Q4ABCD"));
    assert!(!is_plausible_callsign("Z74QTJ/R"));
}

#[test]
fn unpack28_does_not_panic_for_extended_range() {
    for n28 in [1003u32, 532443, 532444, 1_000_000, NTOKENS - 1] {
        let _ = unpack28(n28);
    }
}

fn hex_to_msg77(hex: &str) -> [u8; 77] {
    assert_eq!(hex.len(), 20, "need exactly 20 hex chars (10 bytes)");
    let bytes: Vec<u8> = (0..10)
        .map(|i| u8::from_str_radix(&hex[2 * i..2 * i + 2], 16).unwrap())
        .collect();
    let mut msg = [0u8; 77];
    for (j, bit) in msg.iter_mut().enumerate() {
        *bit = (bytes[j / 8] >> (7 - j % 8)) & 1;
    }
    msg
}

#[test]
fn decode_cq_r7iw_ln35() {
    let msg = hex_to_msg77("0000002059654a94a3c8");
    let text = unpack77(&msg).expect("should decode");
    assert_eq!(text, "CQ R7IW LN35");
}

#[test]
fn decode_cq_dx_r6wa_ln32() {
    let msg = hex_to_msg77("000046f059519f14a308");
    let text = unpack77(&msg).expect("should decode");
    assert_eq!(text, "CQ DX R6WA LN32");
}

#[test]
fn silence_bits_returns_none_or_empty() {
    let msg = [0u8; 77];
    assert!(unpack77(&msg).is_none());
}

#[test]
fn pack28_roundtrip() {
    for call in &["JQ1QSO", "3Y0Z", "R7IW", "JA1ABC", "W1AW", "VK2RG"] {
        let n = pack28(call).unwrap_or_else(|| panic!("pack28 failed for {call}"));
        let decoded = unpack28(n);
        assert_eq!(
            decoded,
            call.trim(),
            "roundtrip mismatch for {call}: got {decoded}"
        );
    }
    assert_eq!(pack28("CQ"), Some(2));
    assert_eq!(pack28("DE"), Some(0));
    assert_eq!(pack28("QRZ"), Some(1));

    for cq in &["CQ POTA", "CQ SOTA", "CQ DX", "CQ NA", "CQ EU"] {
        let n = pack28(cq).unwrap_or_else(|| panic!("pack28 failed for {cq}"));
        let decoded = unpack28(n);
        assert_eq!(decoded, *cq, "CQ suffix roundtrip mismatch for {cq}");
    }

    let n = pack28("CQ 001").unwrap();
    assert_eq!(unpack28(n), "CQ 001");
    let n = pack28("CQ 999").unwrap();
    assert_eq!(unpack28(n), "CQ 999");
}

#[test]
fn pack77_type1_roundtrip() {
    let msg = pack77_type1("CQ", "3Y0Z", "JD34").expect("pack failed");
    let text = unpack77(&msg).expect("unpack failed");
    assert_eq!(text, "CQ 3Y0Z JD34");

    let msg2 = pack77_type1("CQ", "JQ1QSO", "PM95").expect("pack failed");
    let text2 = unpack77(&msg2).expect("unpack failed");
    assert_eq!(text2, "CQ JQ1QSO PM95");
}

#[test]
fn standard_callsign_valid() {
    assert!(is_standard_callsign("JA1ABC"));
    assert!(is_standard_callsign("3Y0Z"));
    assert!(is_standard_callsign("W1AW"));
    assert!(is_standard_callsign("VK2RG"));
    assert!(is_standard_callsign("R7IW"));
    assert!(is_standard_callsign("JQ1QSO"));
    assert!(is_standard_callsign("TA6CQ"));
    assert!(is_standard_callsign("JA1ABC/P"));
    assert!(is_standard_callsign("JM1VWQ/R"));
}

#[test]
fn standard_callsign_invalid() {
    assert!(!is_standard_callsign("NFW/0811"));
    assert!(!is_standard_callsign("791JLI"));
    assert!(!is_standard_callsign(""));
    assert!(!is_standard_callsign("ABCDEFG"));
    assert!(!is_standard_callsign("123"));
}

#[test]
fn standard_callsign_edge_cases() {
    assert!(is_standard_callsign("SY2XHO"));
    assert!(is_standard_callsign("8I9NIH"));
}

#[test]
fn valid_callsign_standard() {
    assert!(is_valid_callsign("JA1ABC"));
    assert!(is_valid_callsign("3Y0Z"));
    assert!(is_valid_callsign("W1AW"));
    assert!(is_valid_callsign("W1AW/P"));
    assert!(is_valid_callsign("JM1VWQ/R"));
    assert!(is_valid_callsign("W1A"));
}

#[test]
fn valid_callsign_nonstandard() {
    assert!(is_valid_callsign("JL1NIE/1"));
    assert!(is_valid_callsign("JL1NIE/P"));
    assert!(is_valid_callsign("F/JA1ABC"));
    assert!(is_valid_callsign("ZS6/JA1ABC"));
    assert!(is_valid_callsign("JR9ECD/P"));
    assert!(is_valid_callsign("3DA0WPX"));
    assert!(is_valid_callsign("JA1ABC/QRP"));
}

#[test]
fn valid_callsign_rejected() {
    assert!(!is_valid_callsign("NFW/0811"));
    assert!(!is_valid_callsign("ABCDEF"));
    assert!(!is_valid_callsign(""));
    assert!(!is_valid_callsign("A"));
    assert!(!is_valid_callsign("HELLO+WORLD"));
    assert!(!is_valid_callsign("123"));
    assert!(!is_valid_callsign("//////"));
}

#[test]
fn plausible_message_standard() {
    assert!(is_plausible_message("CQ JA1ABC PM95"));
    assert!(is_plausible_message("CQ DX R6WA LN32"));
    assert!(is_plausible_message("JA1ABC 3Y0Z -12"));
    assert!(is_plausible_message("JA1ABC 3Y0Z RRR"));
    assert!(is_plausible_message("JA1ABC 3Y0Z 73"));
    assert!(is_plausible_message("CQ 3Y0Z JD34"));
    assert!(is_plausible_message("OH3NIV ZS6S R-12"));
}

#[test]
fn plausible_message_nonstandard() {
    assert!(is_plausible_message("JR1UJX/P JH1GIN PM96"));
    assert!(is_plausible_message("<...> JH4IUV/P RR73"));
    assert!(is_plausible_message("CQ JR9ECD/P"));
    assert!(is_plausible_message("F/JA1ABC 3Y0Z -12"));
    assert!(is_plausible_message("CQ SOTA JL1NIE/1"));

    assert!(is_plausible_message("<...> JA1ABC -12"));
    assert!(is_plausible_message("JA1ABC <...> RRR"));

    assert!(is_plausible_message("CQ POTA JA1ABC PM95"));
    assert!(is_plausible_message("CQ NA W1AW FN31"));
    assert!(is_plausible_message("CQ SOTA JL1NIE/P"));

    assert!(is_plausible_message("JA1ABC 3Y0Z [FD]"));
}

#[test]
fn plausible_message_rejected() {
    assert!(!is_plausible_message("NFW/0811 73"));
    assert!(!is_plausible_message("ABCDEF GHIJKL"));
    assert!(!is_plausible_message(""));
}

#[test]
fn pack77_type4_roundtrip() {
    let msg = pack77_type4("JL1NIE/P", "", "", true).expect("pack failed");
    let text = unpack77(&msg).expect("unpack failed");
    assert_eq!(text, "CQ JL1NIE/P");

    let msg = pack77_type4("JL1NIE/1", "JA1ABC", "", false).expect("pack failed");
    let text = unpack77(&msg).expect("unpack failed");
    assert!(
        text.contains("JL1NIE/1"),
        "should contain non-std call: {text}"
    );
    assert!(
        text.contains("<...>"),
        "should contain hash placeholder: {text}"
    );

    let msg = pack77_type4("JR9ECD/P", "W1AW", "73", false).expect("pack failed");
    let text = unpack77(&msg).expect("unpack failed");
    assert!(text.contains("JR9ECD/P"), "got: {text}");
    assert!(text.contains("73"), "got: {text}");

    let msg = pack77_type4("F/JA1ABC", "W1AW", "RR73", false).expect("pack failed");
    let text = unpack77(&msg).expect("unpack failed");
    assert!(text.contains("F/JA1ABC"), "got: {text}");
    assert!(text.contains("RR73"), "got: {text}");
}

#[test]
fn type4_hash_register_then_resolve() {
    let mut ht = CallsignHashTable::new();
    ht.insert("JA1ABC");

    let msg = pack77_type4("JL1NIE/1", "JA1ABC", "", false).expect("pack failed");

    let text_no_ht = unpack77(&msg).expect("unpack failed");
    assert!(
        text_no_ht.contains("<...>"),
        "without hash table: {text_no_ht}"
    );
    assert!(
        text_no_ht.contains("JL1NIE/1"),
        "without hash table: {text_no_ht}"
    );

    let text_ht = unpack77_with_hash(&msg, &ht).expect("unpack failed");
    assert!(
        text_ht.contains("<JA1ABC>"),
        "with hash table should resolve: {text_ht}"
    );
    assert!(text_ht.contains("JL1NIE/1"), "with hash table: {text_ht}");

    assert!(
        is_plausible_message(&text_ht),
        "resolved message should be plausible: {text_ht}"
    );
}

#[test]
fn pack77_type4_cq_with_pack77() {
    let msg = pack77_type4("JL1NIE/1", "", "", true).expect("pack failed");
    let text = unpack77(&msg).expect("unpack failed");
    assert_eq!(text, "CQ JL1NIE/1");

    assert!(is_plausible_message(&text));
}

#[test]
fn pack77_free_text_roundtrip() {
    let msg = pack77_free_text("JA/TK-001").unwrap();
    assert_eq!(unpack77(&msg).unwrap(), "JA/TK-001");

    let msg = pack77_free_text("JP-1001").unwrap();
    assert_eq!(unpack77(&msg).unwrap(), "JP-1001");

    let msg = pack77_free_text("JCC 100110").unwrap();
    assert_eq!(unpack77(&msg).unwrap(), "JCC 100110");

    let msg = pack77_free_text("HELLO FT8 WLD").unwrap();
    assert_eq!(unpack77(&msg).unwrap(), "HELLO FT8 WLD");

    assert!(pack77_free_text("ABCDEFGHIJKLMN").is_none());

    assert!(pack77_free_text("HELLO!").is_none());
}

#[test]
fn pack77_report_roundtrip() {
    let msg = pack77("CQ", "JA1ABC", "PM95").unwrap();
    assert_eq!(unpack77(&msg).unwrap(), "CQ JA1ABC PM95");

    let msg = pack77("JA1ABC", "3Y0Z", "-12").unwrap();
    assert_eq!(unpack77(&msg).unwrap(), "JA1ABC 3Y0Z -12");

    let msg = pack77("JA1ABC", "3Y0Z", "+05").unwrap();
    assert_eq!(unpack77(&msg).unwrap(), "JA1ABC 3Y0Z +05");

    let msg = pack77("3Y0Z", "JA1ABC", "R-12").unwrap();
    assert_eq!(unpack77(&msg).unwrap(), "3Y0Z JA1ABC R-12");

    let msg = pack77("JA1ABC", "3Y0Z", "RRR").unwrap();
    assert_eq!(unpack77(&msg).unwrap(), "JA1ABC 3Y0Z RRR");

    let msg = pack77("JA1ABC", "3Y0Z", "RR73").unwrap();
    assert_eq!(unpack77(&msg).unwrap(), "JA1ABC 3Y0Z RR73");

    let msg = pack77("3Y0Z", "JA1ABC", "73").unwrap();
    assert_eq!(unpack77(&msg).unwrap(), "3Y0Z JA1ABC 73");

    let msg = pack77("JA1ABC", "3Y0Z", "").unwrap();
    assert_eq!(unpack77(&msg).unwrap(), "JA1ABC 3Y0Z");
}
fn bits77(spec: &[(usize, usize, u32)]) -> [u8; 77] {
    let mut m = [0u8; 77];
    for &(start, len, v) in spec {
        for i in 0..len {
            m[start + i] = ((v >> (len - 1 - i)) & 1) as u8;
        }
    }
    m
}

fn call28() -> u32 {
    pack28("JA1ABC").expect("JA1ABC packs")
}

#[test]
fn dxpedition_rejects_a_token_in_a_callsign_field() {
    let good = bits77(&[
        (0, 28, call28()),
        (28, 28, call28()),
        (66, 5, 20),
        (71, 3, 1),
    ]);
    assert!(unpack77(&good).is_some(), "control must decode");
    for (name, a, b) in [
        ("DE", 0, call28()),
        ("QRZ", 1, call28()),
        ("CQ", 2, call28()),
    ] {
        let m = bits77(&[(0, 28, a), (28, 28, b), (66, 5, 20), (71, 3, 1)]);
        assert!(
            unpack77(&m).is_none(),
            "DXpedition call1 = {name} must be refused"
        );
    }
    let m = bits77(&[(0, 28, call28()), (28, 28, 2), (66, 5, 20), (71, 3, 1)]);
    assert!(
        unpack77(&m).is_none(),
        "DXpedition call2 = CQ must be refused"
    );
}

#[test]
fn field_day_rejects_a_token_in_a_callsign_field() {
    for n3 in [3u32, 4] {
        let good = bits77(&[(0, 28, call28()), (28, 28, call28()), (71, 3, n3)]);
        assert!(unpack77(&good).is_some(), "control must decode (n3={n3})");
        let m = bits77(&[(0, 28, 0), (28, 28, call28()), (71, 3, n3)]);
        assert!(
            unpack77(&m).is_none(),
            "Field Day call1 = DE must be refused"
        );
    }
}

#[test]
fn cq_rejects_r_and_any_report() {
    const CQ: u32 = 2;
    let grid = pack_grid4("PM95").expect("PM95 packs");
    let ok = bits77(&[(0, 28, CQ), (29, 28, call28()), (59, 15, grid), (74, 3, 1)]);
    assert_eq!(unpack77(&ok).as_deref(), Some("CQ JA1ABC PM95"));
    let r = bits77(&[
        (0, 28, CQ),
        (29, 28, call28()),
        (58, 1, 1),
        (59, 15, grid),
        (74, 3, 1),
    ]);
    assert!(unpack77(&r).is_none(), "CQ with R must be refused");
    let bare = bits77(&[
        (0, 28, CQ),
        (29, 28, call28()),
        (59, 15, MAX_GRID4 + 1),
        (74, 3, 1),
    ]);
    assert_eq!(unpack77(&bare).as_deref(), Some("CQ JA1ABC"));
    for irpt in [2u32, 3, 4, 40] {
        let m = bits77(&[
            (0, 28, CQ),
            (29, 28, call28()),
            (59, 15, MAX_GRID4 + irpt),
            (74, 3, 1),
        ]);
        assert!(
            unpack77(&m).is_none(),
            "CQ with irpt={irpt} must be refused"
        );
    }
}

#[test]
fn telemetry_decodes_as_eighteen_hex_digits() {
    let m = bits77(&[
        (0, 23, 0x12_3456),
        (23, 24, 0x78_9ABC),
        (47, 24, 0xDE_F012),
        (71, 3, 5),
    ]);
    assert_eq!(unpack77(&m).as_deref(), Some("123456789ABCDEF012"));
    let z = bits77(&[(23, 24, 0x00_00AB), (47, 24, 0xCD_0000), (71, 3, 5)]);
    assert_eq!(unpack77(&z).as_deref(), Some("ABCD0000"));
}

#[test]
fn wspr_type1_decodes_call_grid_power() {
    let grid = pack_grid4("PM95").expect("PM95 packs");
    let m = bits77(&[(0, 28, call28()), (28, 15, grid), (43, 5, 6), (71, 3, 6)]);
    assert_eq!(unpack77(&m).as_deref(), Some("JA1ABC PM95 20"));
    let bad = bits77(&[(0, 28, call28()), (28, 15, grid), (43, 5, 31), (71, 3, 6)]);
    assert!(
        unpack77(&bad).is_none(),
        "idbm 31 -> 103 dBm must be refused"
    );
}

#[test]
fn wspr_type2_decodes_prefix_and_suffix() {
    let pfx = bits77(&[
        (0, 28, call28()),
        (28, 16, 13_368),
        (44, 5, 6),
        (49, 1, 1),
        (71, 3, 6),
    ]);
    assert_eq!(unpack77(&pfx).as_deref(), Some("ABC/JA1ABC 20"));
    let sfx = bits77(&[
        (0, 28, call28()),
        (28, 16, 46_656 + 10),
        (44, 5, 6),
        (49, 1, 1),
        (71, 3, 6),
    ]);
    assert_eq!(unpack77(&sfx).as_deref(), Some("JA1ABC/A 20"));
}

#[test]
fn wspr_type3_decodes_hashed_call_and_grid() {
    let igrid6 = 15 * 1_125_000 + 12 * 62_500 + 9 * 6_250 + 5 * 625 + 24 * 25 + 24;
    let m = bits77(&[(0, 22, 1234), (22, 25, igrid6), (48, 1, 1), (71, 3, 6)]);
    assert_eq!(unpack77(&m).as_deref(), Some("<...> PM95"));
}

#[test]
fn cq_rejects_a_hashed_second_call() {
    let hashed = NTOKENS + 7;
    let grid = pack_grid4("PM95").expect("PM95 packs");
    let m = bits77(&[(0, 28, 2), (29, 28, hashed), (59, 15, grid), (74, 3, 1)]);
    assert!(
        unpack77(&m).is_none(),
        "CQ <...> must be refused; got {:?}",
        unpack77(&m)
    );
}
