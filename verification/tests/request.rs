use mfsk::request::{jt65, jt9, wspr};

#[test]
fn jt65_options_are_kept_apart() {
    let audio = [0.0f32; 4];
    let r = jt65::DecodeRequest::new(&audio[..], 12_000, "default")
        .nominal_start(99)
        .params("wide")
        .chase(7u8);
    assert_eq!(r.audio.len(), 4);
    assert_eq!((r.sample_rate, r.nominal_start_sample, r.params, r.chase), (12_000, 99, "wide", Some(7)));
    let plain = jt65::DecodeRequest::<_, _, u8>::new(&audio[..], 12_000, "default");
    assert_eq!((plain.nominal_start_sample, plain.params, plain.chase), (0, "default", None));
}

/// The last strategy that is set is the one that runs.
#[test]
fn the_last_strategy_wins() {
    let audio = [0.0f32; 4];
    let first = jt65::SniperRequest::<_, _, u8>::new(&audio[..], 12_000, 5, 1270.5f32);
    assert!(matches!(first.strategy, jt65::RsStrategy::Hard));
    let second = first.chase(3).erasures(&[0, 8, 51, 52, 1_000]);
    match &second.strategy {
        jt65::RsStrategy::Erasures(counts) => assert_eq!(counts, &[0, 8, 51, 51, 51]),
        other => panic!("{other:?}"),
    }
    let third = second.chase(4);
    assert!(matches!(third.strategy, jt65::RsStrategy::Chase(4)));
    assert_eq!((third.start_sample, third.base_freq), (5, 1270.5));
}

#[test]
fn jt9_options_are_kept_apart() {
    let audio = [0.0f32; 4];
    let r = jt9::DecodeRequest::new(&audio[..], 12_000, 1, "fast").depth("deep").nominal_start(3);
    assert_eq!((r.params, r.depth, r.nominal_start_sample), (1, "deep", 3));
    assert_eq!(r.params(2).params, 2);
    let s = jt9::SniperRequest::new(&audio[..], 12_000, 8, 1500.0f32);
    assert_eq!((s.sample_rate, s.start_sample, s.base_freq), (12_000, 8, 1500.0));
}

#[test]
fn wspr_starts_with_single_symbols_and_a_refined_drift() {
    let audio = [0.0f32; 4];
    let s = wspr::SniperRequest::<_, _, u8>::new(&audio[..], 12_000, 8, 1500.0f32);
    assert!(matches!(s.source, wspr::Source::Audio(a) if a.len() == 4));
    assert_eq!((s.nblocks.clone(), s.drift, s.confirmed, s.refine_drift), (vec![1], None, None, true));
    assert_eq!(s.min_sync_hundredths(), 12);
    let s = s.refine_drift(false).drift(-0.5).nblocks(vec![1, 2, 3, 0]).confirmed(9);
    assert_eq!(s.min_sync_hundredths(), 10);
    assert_eq!((s.drift, s.nblocks, s.confirmed), (Some(-0.5), vec![1, 2, 3, 0], Some(9)));
}

#[test]
fn wspr_takes_a_baseband() {
    let (i, q) = ([1.0f32; 3], [2.0f32; 3]);
    let s = wspr::SniperRequest::<_, _, u8>::baseband(&i[..], &q[..], 12_000, 0, 1500.0f32);
    assert!(matches!(s.source, wspr::Source::Baseband { idat, qdat } if idat[0] == 1.0 && qdat[0] == 2.0));
    let r = wspr::DecodeRequest::new(&i[..], 12_000, 0u8).table("table").params(4).nominal_start(6);
    assert_eq!((r.table, r.params, r.nominal_start_sample), (Some("table"), 4, 6));
}

/// The short way to a request at a known place gives the same request.
#[test]
fn sniper_is_a_request_at_a_known_place() {
    let audio = [0.5f32; 4];
    let a = jt65::DecodeRequest::<_, (), u8>::sniper(&audio[..], 12_000, 5, 1270.5f32);
    assert_eq!((a.audio.len(), a.sample_rate, a.start_sample, a.base_freq), (4, 12_000, 5, 1270.5));
    assert!(matches!(a.strategy, jt65::RsStrategy::Hard));
    let b = jt9::DecodeRequest::<_, (), ()>::sniper(&audio[..], 12_000, 8, 1500.0f32);
    assert_eq!((b.audio.len(), b.sample_rate, b.start_sample, b.base_freq), (4, 12_000, 8, 1500.0));
    let c = wspr::DecodeRequest::<_, (), u8>::sniper(&audio[..], 12_000, 9, 1400.0f32);
    assert!(matches!(c.source, wspr::Source::Audio(x) if x.len() == 4));
    assert_eq!((c.sample_rate, c.start_sample, c.freq, c.drift), (12_000, 9, 1400.0, None));
    assert_eq!((c.nblocks, c.confirmed, c.refine_drift), (vec![1], None, true));
}
