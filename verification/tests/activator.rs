use mfsk::station::activator::{
    Activator, Call, Config, CqModifier, Decision, Exchange, Heard, Phase, TxMsg,
};

fn cfg() -> Config {
    let mut c = Config::new("JL1NIE/P", "PM95");
    c.cq = CqModifier::Token(heapless::String::try_from("SOTA").unwrap());
    c
}

fn h(from: &str, ex: &str, snr: i8) -> Heard {
    Heard::parse("JL1NIE/P", "JL1NIE/P", from, ex, snr).expect("addressed to us")
}

fn txt(a: &Activator, d: &Decision) -> String {
    d.tx.as_ref()
        .map(|t| t.text(a.config()).as_str().to_owned())
        .unwrap_or_default()
}

fn started(c: Config) -> Activator {
    let mut a = Activator::new(c);
    a.start();
    a
}

#[test]
fn cq_texts() {
    let mut c = cfg();
    let a = Activator::new(c.clone());
    assert_eq!(TxMsg::Cq.text(a.config()).as_str(), "CQ SOTA JL1NIE/P PM95");
    c.cq = CqModifier::Plain;
    assert_eq!(TxMsg::Cq.text(&c).as_str(), "CQ JL1NIE/P PM95");
    c.cq = CqModifier::Number(7);
    assert_eq!(TxMsg::Cq.text(&c).as_str(), "CQ 007 JL1NIE/P PM95");
    c.cq = CqModifier::FreeText(heapless::String::try_from("QRV JA-1234").unwrap());
    assert_eq!(TxMsg::Cq.text(&c).as_str(), "QRV JA-1234");
}

#[test]
fn full_exchange_logs_once_at_rr73() {
    let mut a = started(cfg());
    let d = a.decide(0, &[]);
    assert_eq!(txt(&a, &d), "CQ SOTA JL1NIE/P PM95");
    let d = a.decide(1, &[h("W1AW", "FN31", -7)]);
    assert_eq!(txt(&a, &d), "W1AW JL1NIE/P -07");
    assert_eq!(a.phase(), Phase::Working);
    let d = a.decide(2, &[h("W1AW", "R-12", -8)]);
    assert_eq!(txt(&a, &d), "W1AW JL1NIE/P RR73");
    let rec = d.logged.expect("logged at RR73");
    assert_eq!(rec.call.as_str(), "W1AW");
    assert_eq!(rec.grid.as_str(), "FN31");
    assert_eq!((rec.rst_sent, rec.rst_rcvd), (-7, Some(-12)));
    assert_eq!((rec.on_period, rec.off_period), (1, 2));
    // Their 73 needs nothing; back to CQ, nothing logged twice.
    let d = a.decide(3, &[h("W1AW", "73", -8)]);
    assert_eq!(txt(&a, &d), "CQ SOTA JL1NIE/P PM95");
    assert!(d.logged.is_none());
    assert_eq!(a.logged(), 1);
}

#[test]
fn a_caller_who_starts_with_a_report_gets_our_report_rogered() {
    let mut a = started(cfg());
    a.decide(0, &[]);
    // They skip the grid: our reply carries OUR report of THEM (-15
    // from their SNR), rogering theirs.
    let d = a.decide(1, &[h("W1AW", "-03", -15)]);
    assert_eq!(txt(&a, &d), "W1AW JL1NIE/P R-15");
    let d = a.decide(2, &[h("W1AW", "RR73", -15)]);
    assert_eq!(txt(&a, &d), "W1AW JL1NIE/P 73");
    let rec = d.logged.unwrap();
    assert_eq!((rec.rst_sent, rec.rst_rcvd), (-15, Some(-3)));
    assert!(rec.grid.is_empty());
}

#[test]
fn a_quiet_partner_is_dropped_after_two_periods_and_answered_if_they_return() {
    let mut a = started(cfg());
    a.decide(0, &[]);
    let d = a.decide(1, &[h("W1AW", "FN31", -7)]);
    assert_eq!(txt(&a, &d), "W1AW JL1NIE/P -07");
    // Silent once: the report goes again.
    let d = a.decide(2, &[]);
    assert_eq!(txt(&a, &d), "W1AW JL1NIE/P -07");
    // Silent twice: dropped, CQ.
    let d = a.decide(3, &[]);
    assert_eq!(txt(&a, &d), "CQ SOTA JL1NIE/P PM95");
    assert!(a.partner().is_none());
    // They come back with R-12: finished from their message.
    let d = a.decide(4, &[h("W1AW", "R-12", -9)]);
    assert_eq!(txt(&a, &d), "W1AW JL1NIE/P RR73");
    // Logged with what was actually exchanged on the first attempt:
    // the -07 we sent and their grid, not a -09 we never sent.
    let rec = d.logged.expect("logged on their return");
    assert_eq!(rec.grid.as_str(), "FN31");
    assert_eq!((rec.rst_sent, rec.rst_rcvd), (-7, Some(-12)));
    assert_eq!((rec.on_period, rec.off_period), (1, 4));
    assert_eq!(a.logged(), 1);
}

#[test]
fn give_up_is_configurable() {
    let mut c = cfg();
    c.give_up_periods = 3;
    let mut a = started(c);
    a.decide(0, &[]);
    a.decide(1, &[h("W1AW", "FN31", -7)]);
    let d = a.decide(2, &[]);
    assert_eq!(txt(&a, &d), "W1AW JL1NIE/P -07");
    let d = a.decide(3, &[]);
    assert_eq!(txt(&a, &d), "W1AW JL1NIE/P -07");
    let d = a.decide(4, &[]);
    assert_eq!(txt(&a, &d), "CQ SOTA JL1NIE/P PM95");
}

#[test]
fn a_repeated_r_report_gets_rr73_again_without_a_second_log() {
    let mut a = started(cfg());
    a.decide(0, &[]);
    a.decide(1, &[h("W1AW", "FN31", -7)]);
    let d = a.decide(2, &[h("W1AW", "R-12", -8)]);
    assert!(d.logged.is_some());
    // They did not copy RR73.
    let d = a.decide(3, &[h("W1AW", "R-12", -8)]);
    assert_eq!(txt(&a, &d), "W1AW JL1NIE/P RR73");
    assert!(d.logged.is_none());
    assert_eq!(a.logged(), 1);
}

#[test]
fn the_strongest_new_caller_is_answered_and_the_rest_are_picked_up_after() {
    let mut a = started(cfg());
    a.decide(0, &[]);
    let d = a.decide(
        1,
        &[
            h("K1ABC", "FN42", -18),
            h("W1AW", "FN31", -5),
            h("N2XY", "FN20", -12),
        ],
    );
    assert_eq!(txt(&a, &d), "W1AW JL1NIE/P -05");
    let d = a.decide(2, &[h("W1AW", "R-10", -5)]);
    assert_eq!(txt(&a, &d), "W1AW JL1NIE/P RR73");
    // Next: the strongest waiting caller rather than a CQ.
    let d = a.decide(3, &[]);
    assert_eq!(txt(&a, &d), "N2XY JL1NIE/P -12");
}

#[test]
fn a_caller_finishing_an_earlier_exchange_beats_new_callers() {
    let mut a = started(cfg());
    a.decide(0, &[]);
    let d = a.decide(1, &[h("K1ABC", "FN42", -3), h("W1AW", "R-10", -15)]);
    assert_eq!(txt(&a, &d), "W1AW JL1NIE/P RR73");
    // Logged although W1AW was never our partner in this activation
    // — the draft of this file dropped exactly this record.
    assert_eq!(
        d.logged.map(|r| r.call),
        Some(Call::try_from("W1AW").unwrap())
    );
    // The new caller waited, and is next.
    let d = a.decide(2, &[]);
    assert_eq!(txt(&a, &d), "K1ABC JL1NIE/P -03");
}

#[test]
fn rr73_to_a_contact_we_hold_no_report_for_is_logged_without_one() {
    let mut a = started(cfg());
    a.decide(0, &[]);
    let d = a.decide(1, &[h("W1AW", "RR73", -10)]);
    assert_eq!(txt(&a, &d), "W1AW JL1NIE/P 73");
    let rec = d.logged.expect("logged");
    assert_eq!(rec.rst_rcvd, None);
    assert_eq!(a.logged(), 1);
}

#[test]
fn the_phase_after_rr73_is_cq_not_working() {
    let mut a = started(cfg());
    a.decide(0, &[]);
    a.decide(1, &[h("W1AW", "FN31", -7)]);
    let d = a.decide(2, &[h("W1AW", "R-12", -8)]);
    assert_eq!(d.phase, Phase::Cq);
    assert!(a.partner().is_none());
}

#[test]
fn a_partner_is_not_interrupted_by_a_new_caller() {
    let mut a = started(cfg());
    a.decide(0, &[]);
    a.decide(1, &[h("W1AW", "FN31", -20)]);
    // A much stronger station calls while W1AW is mid-exchange.
    let d = a.decide(2, &[h("K1ABC", "FN42", 5), h("W1AW", "R-12", -20)]);
    assert_eq!(txt(&a, &d), "W1AW JL1NIE/P RR73");
    let d = a.decide(3, &[]);
    assert_eq!(txt(&a, &d), "K1ABC JL1NIE/P +05");
}

#[test]
fn a_waiting_caller_expires() {
    let mut a = started(cfg());
    a.decide(0, &[]);
    a.decide(1, &[h("W1AW", "FN31", -5), h("K1ABC", "FN42", -10)]);
    // W1AW stretches over three silent periods and a finish; K1ABC,
    // queued at 1, is past PENDING_TTL by the time we are free.
    a.decide(2, &[]);
    a.decide(3, &[h("W1AW", "R-10", -5)]);
    let d = a.decide(4, &[]);
    assert_eq!(txt(&a, &d), "CQ SOTA JL1NIE/P PM95");
}

#[test]
fn stops_at_the_target_and_still_answers_a_repeat_in_grace() {
    let mut c = cfg();
    c.target_qsos = 1;
    let mut a = started(c);
    a.decide(0, &[]);
    a.decide(1, &[h("W1AW", "FN31", -7)]);
    let d = a.decide(2, &[h("W1AW", "R-12", -8)]);
    assert_eq!(d.phase, Phase::Done);
    // No CQ in Done.
    let d = a.decide(3, &[h("K1ABC", "FN42", -3)]);
    assert!(d.tx.is_none());
    // A logged partner who repeats still gets RR73 inside the grace.
    let d = a.decide(4, &[h("W1AW", "R-12", -8)]);
    assert_eq!(txt(&a, &d), "W1AW JL1NIE/P RR73");
    // After the grace: stopped.
    let d = a.decide(6, &[]);
    assert_eq!(d.phase, Phase::Stopped);
    assert!(d.tx.is_none());
}

#[test]
fn a_dupe_who_starts_over_is_counted_again() {
    let mut a = started(cfg());
    a.decide(0, &[]);
    a.decide(1, &[h("W1AW", "FN31", -7)]);
    a.decide(2, &[h("W1AW", "R-12", -8)]);
    a.decide(3, &[]);
    a.decide(4, &[h("W1AW", "FN31", -6)]);
    let d = a.decide(5, &[h("W1AW", "R-11", -6)]);
    assert!(d.logged.is_some());
    assert_eq!(a.logged(), 2);
}

#[test]
fn messages_not_for_us_and_unresolved_hashes_are_refused() {
    assert!(Heard::parse("JL1NIE/P", "K1ABC", "W1AW", "FN31", 0).is_none());
    assert!(Heard::parse("JL1NIE/P", "<...>", "W1AW", "FN31", 0).is_none());
    assert!(Heard::parse("JL1NIE/P", "JL1NIE/P", "<...>", "R-10", 0).is_none());
    // Resolved hash, and a caller who drops our /P.
    assert!(Heard::parse("JL1NIE/P", "<JL1NIE/P>", "W1AW", "FN31", 0).is_some());
    assert!(Heard::parse("JL1NIE/P", "JL1NIE", "W1AW", "FN31", 0).is_some());
    // Our own call as the sender (an echo) is not a caller.
    assert!(Heard::parse("JL1NIE/P", "JL1NIE/P", "JL1NIE", "FN31", 0).is_none());
}

#[test]
fn exchanges_parse() {
    assert_eq!(Exchange::parse("RR73"), Some(Exchange::Rr73));
    assert_eq!(Exchange::parse("RRR"), Some(Exchange::Rrr));
    assert_eq!(Exchange::parse("73"), Some(Exchange::S73));
    assert_eq!(Exchange::parse("R-09"), Some(Exchange::RReport(-9)));
    assert_eq!(Exchange::parse("+05"), Some(Exchange::Report(5)));
    assert_eq!(
        Exchange::parse("FN31"),
        Some(Exchange::Grid(heapless::String::try_from("FN31").unwrap()))
    );
    assert_eq!(Exchange::parse(""), Some(Exchange::Bare));
    assert_eq!(Exchange::parse("TU"), None);
}

#[test]
fn idle_cq_stops_when_configured() {
    let mut c = cfg();
    c.idle_stop_periods = 3;
    let mut a = started(c);
    for p in 0..3 {
        assert!(a.decide(p, &[]).tx.is_some());
    }
    assert_eq!(a.decide(3, &[]).phase, Phase::Stopped);
}

#[test]
fn a_late_decode_is_answered_at_the_next_decision() {
    let mut a = started(cfg());
    a.decide(0, &[]);
    // Their call missed decision 1's deadline…
    let d = a.decide(1, &[]);
    assert_eq!(txt(&a, &d), "CQ SOTA JL1NIE/P PM95");
    // …and arrives with decision 2.
    let d = a.decide(2, &[h("W1AW", "FN31", -7)]);
    assert_eq!(txt(&a, &d), "W1AW JL1NIE/P -07");
}
