use mfsk::msg::hash_table::{ihashcall, CallsignHashTable, MAX_HASH22, N_HASH10, N_HASH12};

#[test]
fn hash_basic() {
    let h22 = ihashcall("JA1ABC", 22);
    let h12 = ihashcall("JA1ABC", 12);
    let h10 = ihashcall("JA1ABC", 10);
    assert!(h22 < (1 << 22));
    assert!(h12 < (1 << 12));
    assert!(h10 < (1 << 10));
    assert_eq!(h22, ihashcall("JA1ABC", 22));
}

#[test]
fn an_empty_table_holds_no_blocks_and_answers_nothing() {
    let t = CallsignHashTable::new();
    assert!(t.calls10.is_none() && t.calls12.is_none() && t.calls22.is_none());
    assert_eq!(t.lookup10(0), None);
    assert_eq!(t.lookup12(0), None);
    assert_eq!(t.lookup22(0), None);
    assert_eq!(t.len22(), 0);
}

#[test]
fn the_lru_orders_by_recency_like_upstream() {
    let mut t = CallsignHashTable::new();
    for c in ["JA1ABC", "3Y0Z", "W1AW"] {
        t.insert(c);
    }
    assert_eq!(t.len22(), 3);
    assert_eq!(t.calls22.as_ref().unwrap()[0].as_str(), "W1AW");
    assert_eq!(t.calls22.as_ref().unwrap()[2].as_str(), "JA1ABC");

    t.insert("JA1ABC");
    assert_eq!(t.len22(), 3);
    assert_eq!(t.calls22.as_ref().unwrap()[0].as_str(), "JA1ABC");
    assert_eq!(t.calls22.as_ref().unwrap()[2].as_str(), "3Y0Z");
    for c in ["JA1ABC", "3Y0Z", "W1AW"] {
        assert_eq!(t.lookup22(ihashcall(c, 22)), Some(c), "{c}");
    }
}

#[test]
fn the_tables_stay_within_their_bounds() {
    let mut t = CallsignHashTable::new();
    for i in 0..(MAX_HASH22 + 50) {
        t.insert(&format!("A{i}BC"));
    }
    assert_eq!(t.len22(), MAX_HASH22);
    assert_eq!(t.calls22.as_ref().unwrap().len(), MAX_HASH22);
    assert_eq!(t.calls10.as_ref().unwrap().len(), N_HASH10);
    assert_eq!(t.calls12.as_ref().unwrap().len(), N_HASH12);
}

#[test]
fn a_full_width_callsign_round_trips() {
    let long = "ABCDEFGHIJKLM";
    assert_eq!(long.len(), 13);
    let mut t = CallsignHashTable::new();
    t.insert(long);
    assert_eq!(t.lookup22(ihashcall(long, 22)), Some(long));
}

#[test]
fn clear_empties_without_releasing_the_blocks() {
    let mut t = CallsignHashTable::new();
    t.insert("JA1ABC");
    t.clear();
    assert_eq!(t.len22(), 0);
    assert_eq!(t.lookup22(ihashcall("JA1ABC", 22)), None);
    assert_eq!(t.lookup10(ihashcall("JA1ABC", 10)), None);
    assert!(t.calls10.is_some(), "blocks are kept for reuse");
}

#[test]
fn insert_and_lookup() {
    let mut t = CallsignHashTable::new();
    t.insert("JA1ABC");
    t.insert("3Y0Z");

    let h22 = ihashcall("JA1ABC", 22);
    let h12 = ihashcall("JA1ABC", 12);
    let h10 = ihashcall("JA1ABC", 10);

    assert_eq!(t.lookup22(h22), Some("JA1ABC"));
    assert_eq!(t.lookup12(h12), Some("JA1ABC"));
    assert_eq!(t.lookup10(h10), Some("JA1ABC"));

    let h22z = ihashcall("3Y0Z", 22);
    assert_eq!(t.lookup22(h22z), Some("3Y0Z"));
}

#[test]
fn lru_eviction() {
    let mut t = CallsignHashTable::new();
    for i in 0..MAX_HASH22 + 10 {
        t.insert(&format!("T{:04}X", i));
    }
    assert_eq!(t.len22(), MAX_HASH22);
}

#[test]
fn skip_special() {
    let mut t = CallsignHashTable::new();
    t.insert("<...>");
    t.insert("CQ");
    t.insert("CQ DX");
    t.insert("");
    t.insert("A");
    assert_eq!(t.len22(), 0);
}

#[test]
fn strip_suffix() {
    let mut t = CallsignHashTable::new();
    t.insert("JA1ABC/P");
    let h22 = ihashcall("JA1ABC", 22);
    assert_eq!(t.lookup22(h22), Some("JA1ABC"));
}

/// The hashes to the bit, at each width.
#[test]
fn hashes_are_what_is_sent() {
    for (call, h10, h12, h22) in [
        ("K1ABC", 712, 2_851, 2_920_267),
        ("JA1ABC", 1, 6, 6_274),
        ("3Y0Z", 573, 2_294, 2_349_372),
        ("W1AW", 73, 292, 299_915),
        ("PJ4/K1ABC", 346, 1_387, 1_420_834),
    ] {
        assert_eq!((ihashcall(call, 10), ihashcall(call, 12), ihashcall(call, 22)), (h10, h12, h22));
    }
}

/// The callsign stands at the left: spaces after it make no difference,
/// spaces before it do, and the last letter counts.
#[test]
fn spaces_follow_the_callsign() {
    assert_eq!(ihashcall("JA1ABC     ", 22), ihashcall("JA1ABC", 22));
    assert_eq!(ihashcall("ja1abc", 22), ihashcall("JA1ABC", 22));
    assert_ne!(ihashcall("     JA1ABC", 22), ihashcall("JA1ABC", 22));
    assert_ne!(ihashcall("JA1ABD", 22), ihashcall("JA1ABC", 22));
    // Only eleven places count.
    assert_eq!(ihashcall("ABCDEFGHIJKLM", 22), ihashcall("ABCDEFGHIJK", 22));
}

/// A full table stays full; a new call costs the oldest entry and no other,
/// and a known one costs none.
#[test]
fn a_full_table_forgets_its_oldest() {
    let call = |i: usize| format!("T{i:04}X");
    let hash = |i: usize| ihashcall(&call(i), 22);
    let mut t = CallsignHashTable::new();
    for i in 0..MAX_HASH22 {
        t.insert(&call(i));
    }
    assert_eq!(t.lookup22(hash(0)), Some("T0000X"));
    // Known already: the oldest stays.
    t.insert(&call(500));
    assert_eq!((t.len22(), t.lookup22(hash(0))), (MAX_HASH22, Some("T0000X")));
    t.insert(&call(MAX_HASH22));
    assert_eq!((t.len22(), t.lookup22(hash(0))), (MAX_HASH22, None));
    for i in 1..=MAX_HASH22 {
        assert_eq!(t.lookup22(hash(i)), Some(call(i).as_str()));
    }
}

#[test]
fn a_copy_is_a_table_of_its_own() {
    let mut t = CallsignHashTable::new();
    t.insert("JA1ABC");
    let copy = t.clone();
    t.clear();
    assert_eq!(t.lookup12(ihashcall("JA1ABC", 12)), None);
    assert_eq!(copy.lookup12(ihashcall("JA1ABC", 12)), Some("JA1ABC"));
    assert_eq!(copy.len22(), 1);
}
