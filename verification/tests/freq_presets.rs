use mfsk::station::freq_presets::{for_mode, fst4, ft4, ft8, page, wspr, Page};

#[test]
fn a_table_that_fits_has_no_next() {
    assert_eq!(
        page(4, 4, 0),
        Page {
            start: 0,
            count: 4,
            has_next: false,
            number: 1,
            of: 1
        }
    );
}

#[test]
fn ft8_pages_three_at_a_time_and_wraps() {
    let n = ft8().len();
    let pages = n.div_ceil(3);
    let mut seen = 0;
    for i in 0..pages {
        let pg = page(n, 4, i);
        assert!(pg.has_next);
        assert_eq!(pg.start, seen);
        seen += pg.count;
    }
    assert_eq!(seen, n);
    assert_eq!(page(n, 4, pages), page(n, 4, 0));
}

#[test]
fn labels_fit_the_widget_and_frequencies_ascend() {
    // 208 px of a 6-px font less the 10 px indent and the `*` column.
    for t in [ft8(), ft4(), wspr(), fst4()] {
        for f in &t {
            assert!(f.label.len() <= 30, "{} too long", f.label);
        }
        for w in t.windows(2) {
            assert!(w[0].hz < w[1].hz, "{} !< {}", w[0].label, w[1].label);
        }
    }
}

#[test]
fn wspr_table_matches_wspr_bands() {
    let bands: [(&str, f64); 12] = [
        ("160m", 1.8366),
        ("80m", 3.5686),
        ("60m", 5.3647),
        ("40m", 7.0386),
        ("30m", 10.1387),
        ("20m", 14.0956),
        ("17m", 18.1046),
        ("15m", 21.0946),
        ("12m", 24.9246),
        ("10m", 28.1246),
        ("6m", 50.293),
        ("2m", 144.489),
    ];
    let table = wspr();
    assert_eq!(table.len(), bands.len());
    for (p, b) in table.iter().zip(bands.iter()) {
        assert_eq!(p.hz, (b.1 * 1e6).round() as u32, "{}", b.0);
        assert!(p.label.starts_with(b.0), "{} vs {}", p.label, b.0);
    }
}

#[test]
fn a_receiver_without_a_table_shows_none() {
    assert_eq!(for_mode("FT8").len(), 13);
    assert_eq!(for_mode("FT4")[1].hz, 7_047_500);
    assert_eq!(for_mode("WSPR")[4].label, "30m     10.1387");
    assert!(for_mode("FST4").is_empty());
    assert!(for_mode("Q65").is_empty());
}

#[test]
fn pages_of_an_odd_table() {
    let last = page(7, 4, 2);
    assert_eq!((last.start, last.count, last.number, last.of), (6, 1, 3, 3));
    assert_eq!(page(7, 4, 3), page(7, 4, 0));
    assert_eq!(page(0, 0, 5).count, 0);
}
