use mfsk::msg::hash_table::CallsignHashTable;
use mfsk::msg::pack::{pack28, pack77, pack77_free_text, pack77_type4};
use mfsk::msg::wsjt77::{unpack77, unpack77_learn, unpack77_with_hash};

/// A message never resolves a hash against a callsign that it introduces
/// itself; the next one does.
#[test]
fn a_message_teaches_the_next_one() {
    let mut table = CallsignHashTable::new();
    let cq = pack77_type4("PJ4/K1ABC", "", "", true).unwrap();
    assert_eq!(unpack77_learn(&cq, &mut table).as_deref(), Some("CQ PJ4/K1ABC"));
    let reply = pack77_type4("YW18FIFA", "JL1NIE", "RR73", false).unwrap();
    assert_eq!(unpack77_learn(&reply, &mut table).as_deref(), Some("<...> YW18FIFA RR73"));
    // JL1NIE itself is learnt from a standard message.
    let std = pack77("W1AW", "JL1NIE", "-07").unwrap();
    assert_eq!(unpack77_learn(&std, &mut table).as_deref(), Some("W1AW JL1NIE -07"));
    assert_eq!(unpack77_with_hash(&reply, &table).as_deref(), Some("<JL1NIE> YW18FIFA RR73"));
    assert_eq!(unpack77(&reply).as_deref(), Some("<...> YW18FIFA RR73"));
}

#[test]
fn reports_read_back_or_are_kept_apart() {
    for (sent, read) in [
        ("-30", "-30"),
        ("+00", "+00"),
        ("-00", "+00"),
        ("+49", "+49"),
        ("R-15", "R-15"),
        ("RRR", "RRR"),
        ("RR73", "RR73"),
        ("73", "73"),
        ("PM95", "PM95"),
        ("", ""),
    ] {
        let text = unpack77(&pack77("K1ABC", "W9XYZ", sent).unwrap()).unwrap();
        assert_eq!(text, format!("K1ABC W9XYZ {read}").trim_end());
    }
}

#[test]
fn a_directed_cq_reads_back() {
    for cq in ["CQ", "CQ DX", "CQ POTA", "CQ 290", "DE", "QRZ"] {
        let text = unpack77(&pack77(cq, "JL1NIE", "PM95").unwrap()).unwrap();
        assert_eq!(text, format!("{cq} JL1NIE PM95"));
    }
}

#[test]
fn free_text_reads_back_in_capitals() {
    for (sent, read) in [("TNX 73 GL", "TNX 73 GL"), ("tnx?", "TNX?"), ("0123456789ABC", "0123456789ABC")] {
        assert_eq!(unpack77(&pack77_free_text(sent).unwrap()).as_deref(), Some(read));
    }
    assert!(pack77_free_text("").is_none());
    assert!(pack77_free_text("FOURTEEN CHARS").is_none());
    assert!(pack77_free_text("A_B").is_none());
}

#[test]
fn a_contact_reads_back_message_by_message() {
    for (call1, call2, report, expected) in [
        ("CQ", "JA1ABC", "PM95", "CQ JA1ABC PM95"),
        ("JA1ABC", "W1AW", "-15", "JA1ABC W1AW -15"),
        ("W1AW", "JA1ABC", "R-15", "W1AW JA1ABC R-15"),
        ("JA1ABC", "W1AW", "RR73", "JA1ABC W1AW RR73"),
        ("W1AW", "JA1ABC", "73", "W1AW JA1ABC 73"),
        ("CQ", "3Y0Z", "JD34", "CQ 3Y0Z JD34"),
    ] {
        let msg = pack77(call1, call2, report).unwrap();
        assert_eq!(unpack77(&msg).as_deref(), Some(expected));
    }
}

/// Every report from -50 to +49 is carried as one, rogered or not.
#[test]
fn every_report_reads_back() {
    for snr in -50..=49 {
        for roger in ["", "R"] {
            let report = format!("{roger}{snr:+03}");
            let msg = pack77("JA1ABC", "3Y0Z", &report).unwrap();
            assert_eq!(unpack77(&msg).unwrap(), format!("JA1ABC 3Y0Z {report}"));
        }
    }
    assert!(pack77("JA1ABC", "3Y0Z", "-51").is_none());
    assert!(pack77("JA1ABC", "3Y0Z", "+50").is_none());
}

/// A callsign that its six places do not hold whole has no token.
#[test]
fn a_callsign_that_does_not_fit_is_refused() {
    for call in ["W1ABCD", "K9XYZZ", "A1BCDE", "JA1ABCD", "ABCDE", "W", ""] {
        assert_eq!(pack28(call), None, "{call}");
    }
    assert!(pack77("CQ", "W1ABCD", "PM95").is_none());
    // With the digit third all six are used.
    for call in ["JA1ABC", "W1ABC", "3Y0Z", "W1A", "W1"] {
        assert!(pack28(call).is_some(), "{call}");
        let msg = pack77("K1ABC", call, "").unwrap();
        assert_eq!(unpack77(&msg).unwrap(), format!("K1ABC {call}"));
    }
}
