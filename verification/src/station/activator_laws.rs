//! What holds of an activation whatever is heard.
use crate::station::activator::{
    at_least, best_candidate, best_of, candidates, clamped, decided, dropped_at, given_up,
    next_or_cq, partner_for, queue_all, queue_one, recent_at, recent_in, recent_other_than,
    repeated, replied, report_field, since, still_recent, still_waiting, waiter_at,
    waiter_other_than, waits_at, wants_answer, weakest, with_waiters, without_waiter, ActView,
    ExchangeView, HeardView, PartnerView, Phase, QsoView, RecentView, TxView, DROPPED_MAX,
    PENDING_MAX, POOL_MAX, RECENT_MAX,
};
use crate::text::dec;
use vstd::prelude::*;

verus! {

/// The waiting callers: at most a queueful, each once, none of whom said
/// goodbye.
pub open spec fn pending_ok(p: Seq<(HeardView, u32)>) -> bool {
    &&& p.len() <= PENDING_MAX
    &&& forall|i: int| 0 <= i < p.len() ==> !((#[trigger] p[i]).0.exchange is S73)
    &&& forall|i: int, j: int|
        0 <= i < j < p.len() ==> (#[trigger] p[i]).0.from != (#[trigger] p[j]).0.from
}

/// The partners logged lately: at most a listful, each once.
pub open spec fn recent_ok(r: Seq<RecentView>) -> bool {
    &&& r.len() <= RECENT_MAX
    &&& forall|i: int, j: int|
        0 <= i < j < r.len() ==> (#[trigger] r[i]).call != (#[trigger] r[j]).call
}

/// A message that ends a contact.
pub open spec fn ends_contact(tx: TxView) -> bool {
    match tx {
        TxView::Std { to, exchange } => exchange == "RR73"@ || exchange == "73"@,
        TxView::Cq => false,
    }
}

/// The partner being worked was sent a report, and nothing that would have
/// ended the contact.
pub open spec fn partner_ok(p: Option<PartnerView>) -> bool {
    match p {
        Some(p) => p.last_tx is Std && p.last_tx->to == p.call && !ends_contact(p.last_tx),
        None => true,
    }
}

/// What every decision keeps.
pub open spec fn act_ok(s: ActView) -> bool {
    &&& pending_ok(s.pending)
    &&& recent_ok(s.recent)
    &&& s.dropped.len() <= DROPPED_MAX
    &&& partner_ok(s.partner)
    &&& s.phase == Phase::Working <==> s.partner is Some
}

/// A station is logged in the list of recent partners.
pub open spec fn is_recent(r: Seq<RecentView>, call: Seq<char>) -> bool {
    exists|i: int| 0 <= i < r.len() && (#[trigger] r[i]).call == call
}

// ── Steps ───────────────────────────────────────────────────────────────────

/// Filtering keeps what holds of every item and of every two.
pub proof fn lemma_filter_keeps<A>(
    s: Seq<A>,
    p: spec_fn(A) -> bool,
    one: spec_fn(A) -> bool,
    two: spec_fn(A, A) -> bool,
)
    requires
        forall|i: int| 0 <= i < s.len() ==> one(#[trigger] s[i]),
        forall|i: int, j: int| 0 <= i < j < s.len() ==> two(#[trigger] s[i], #[trigger] s[j]),
    ensures
        s.filter(p).len() <= s.len(),
        forall|i: int| 0 <= i < s.filter(p).len() ==> one(#[trigger] s.filter(p)[i]),
        forall|i: int, j: int|
            0 <= i < j < s.filter(p).len() ==> two(
                #[trigger] s.filter(p)[i],
                #[trigger] s.filter(p)[j],
            ),
        forall|i: int|
            0 <= i < s.filter(p).len() ==> p(#[trigger] s.filter(p)[i]) && s.contains(
                s.filter(p)[i],
            ),
    decreases s.len(),
{
    reveal(Seq::filter);
    if s.len() > 0 {
        let t = s.drop_last();
        lemma_filter_keeps(t, p, one, two);
        let f = t.filter(p);
        assert(s[s.len() - 1] == s.last());
        assert forall|i: int| 0 <= i < f.len() implies s.contains(#[trigger] f[i]) && two(
            f[i],
            s.last(),
        ) by {
            assert(t.contains(f[i]));
            let k = choose|k: int| 0 <= k < t.len() && t[k] == f[i];
            assert(s[k] == f[i]);
        }
        if p(s.last()) {
            assert(s.filter(p) =~= f.push(s.last()));
        } else {
            assert(s.filter(p) =~= f);
        }
    }
}

pub proof fn lemma_pending_filter(q: Seq<(HeardView, u32)>, p: spec_fn((HeardView, u32)) -> bool)
    requires
        pending_ok(q),
    ensures
        pending_ok(q.filter(p)),
        forall|i: int|
            0 <= i < q.filter(p).len() ==> p(#[trigger] q.filter(p)[i]) && q.contains(
                q.filter(p)[i],
            ),
{
    lemma_filter_keeps(
        q,
        p,
        |x: (HeardView, u32)| !(x.0.exchange is S73),
        |x: (HeardView, u32), y: (HeardView, u32)| x.0.from != y.0.from,
    );
}

pub proof fn lemma_recent_filter(r: Seq<RecentView>, p: spec_fn(RecentView) -> bool)
    requires
        recent_ok(r),
    ensures
        recent_ok(r.filter(p)),
        forall|i: int|
            0 <= i < r.filter(p).len() ==> p(#[trigger] r.filter(p)[i]) && r.contains(
                r.filter(p)[i],
            ),
{
    lemma_filter_keeps(
        r,
        p,
        |x: RecentView| true,
        |x: RecentView, y: RecentView| x.call != y.call,
    );
}

pub proof fn lemma_recent_at_is_first(r: Seq<RecentView>, call: Seq<char>)
    ensures
        0 <= recent_at(r, call) <= r.len(),
        recent_at(r, call) < r.len() ==> r[recent_at(r, call)].call == call,
        recent_at(r, call) < r.len() <==> is_recent(r, call),
        forall|i: int| 0 <= i < recent_at(r, call) ==> (#[trigger] r[i]).call != call,
    decreases r.len(),
{
    if r.len() > 0 {
        let t = r.skip(1);
        if r[0].call != call {
            lemma_recent_at_is_first(t, call);
            assert forall|i: int| 0 <= i < recent_at(r, call) implies (#[trigger] r[i]).call
                != call by {
                if i > 0 {
                    assert(t[i - 1] == r[i]);
                }
            }
            if is_recent(r, call) {
                let k = choose|k: int| 0 <= k < r.len() && (#[trigger] r[k]).call == call;
                assert(t[k - 1] == r[k]);
            }
        }
    }
}

pub proof fn lemma_waiter_at_is_first(p: Seq<(HeardView, u32)>, call: Seq<char>)
    ensures
        0 <= waiter_at(p, call) <= p.len(),
        waiter_at(p, call) < p.len() ==> p[waiter_at(p, call)].0.from == call,
        waiter_at(p, call) == p.len() ==> forall|i: int|
            0 <= i < p.len() ==> (#[trigger] p[i]).0.from != call,
    decreases p.len(),
{
    if p.len() > 0 {
        let t = p.skip(1);
        if p[0].0.from != call {
            lemma_waiter_at_is_first(t, call);
            if waiter_at(p, call) == p.len() {
                assert forall|i: int| 0 <= i < p.len() implies (#[trigger] p[i]).0.from
                    != call by {
                    if i > 0 {
                        assert(t[i - 1] == p[i]);
                    }
                }
            }
        }
    }
}

pub proof fn lemma_weakest_in_range(p: Seq<(HeardView, u32)>, n: int)
    requires
        0 < n,
    ensures
        0 <= weakest(p, n) < n,
    decreases n,
{
    if n > 1 {
        lemma_weakest_in_range(p, n - 1);
    }
}

pub proof fn lemma_queue_one(p: Seq<(HeardView, u32)>, h: HeardView, period: u32, except: Seq<char>)
    requires
        pending_ok(p),
    ensures
        pending_ok(queue_one(p, h, period, except)),
{
    lemma_waiter_at_is_first(p, h.from);
    if p.len() > 0 {
        lemma_weakest_in_range(p, p.len() as int);
    }
}

pub proof fn lemma_queue_all(
    p: Seq<(HeardView, u32)>,
    heard: Seq<HeardView>,
    period: u32,
    except: Seq<char>,
)
    requires
        pending_ok(p),
    ensures
        pending_ok(queue_all(p, heard, period, except)),
    decreases heard.len(),
{
    if heard.len() > 0 {
        lemma_queue_all(p, heard.drop_last(), period, except);
        lemma_queue_one(
            queue_all(p, heard.drop_last(), period, except),
            heard.last(),
            period,
            except,
        );
    }
}

/// A report ends no contact.
proof fn lemma_reports_end_nothing(snr: int, roger: bool)
    ensures
        report_field(snr, roger) != "RR73"@,
        report_field(snr, roger) != "73"@,
{
    reveal_strlit("R");
    reveal_strlit("");
    reveal_strlit("+");
    reveal_strlit("-");
    reveal_strlit("RR73");
    reveal_strlit("73");
    reveal_with_fuel(dec, 3);
    let f = report_field(snr, roger);
    if roger {
        assert(f[1] == '+' || f[1] == '-');
    } else {
        assert(f[0] == '+' || f[0] == '-');
    }
}

/// What one reply does: the lists stay in order, a contact is logged exactly
/// when it ends with a station not logged lately, and the answer goes to the
/// sender.
proof fn lemma_replied(s: ActView, period: u32, h: HeardView)
    requires
        pending_ok(s.pending),
        recent_ok(s.recent),
        s.dropped.len() <= DROPPED_MAX,
        s.phase == Phase::Cq || s.phase == Phase::Working,
    ensures
        ({
            let (t, log, tx) = replied(s, period, h);
            &&& t.pending == s.pending
            &&& t.cfg == s.cfg
            &&& t.idle == s.idle
            &&& recent_ok(t.recent)
            &&& t.dropped.len() <= DROPPED_MAX
            &&& partner_ok(t.partner)
            &&& !(h.exchange is S73) ==> (t.phase == Phase::Working <==> t.partner is Some)
            &&& h.exchange is S73 ==> tx is None && log is None && t.partner is None && t.phase
                == s.phase && t.logged == s.logged
            &&& !(h.exchange is S73) ==> tx is Some && tx->0 is Std && tx->0->to == h.from
            &&& tx is Some && ends_contact(tx->0) ==> (log is Some <==> !is_recent(
                s.recent,
                h.from,
            )) && is_recent(t.recent, h.from)
            &&& log is Some ==> tx is Some && ends_contact(tx->0) && log->0.call == h.from
                && log->0.off_period == period
            &&& log is Some ==> t.logged == (if s.logged < u16::MAX {
                s.logged + 1
            } else {
                s.logged as int
            })
            &&& log is None ==> t.logged == s.logged
            &&& t.phase == Phase::Done ==> s.cfg.target_qsos > 0 && t.logged >= s.cfg.target_qsos
            &&& tx is Some && ends_contact(tx->0) && s.cfg.target_qsos > 0 && t.logged
                >= s.cfg.target_qsos ==> t.phase == Phase::Done && t.done_at == period
            &&& t.phase != Phase::Stopped
        }),
{
    lemma_recent_filter(s.recent, recent_other_than(h.from));
    lemma_recent_at_is_first(s.recent, h.from);
    let (t, log, tx) = replied(s, period, h);
    let (dropped, p) = partner_for(s, period, h);
    lemma_dropped_at_is_first(s.dropped, h.from);
    assert(p.call == h.from);
    match h.exchange {
        ExchangeView::Bare | ExchangeView::Grid(_) => {
            lemma_reports_end_nothing(
                clamped(h.snr as int) as i8 as int,
                false,
            );
        },
        ExchangeView::Report(_) => {
            lemma_reports_end_nothing(p.rst_sent as int, true);
        },
        ExchangeView::S73 => {},
        _ => {
            let k = recent_at(s.recent, h.from);
            if k < s.recent.len() {
                assert(t.recent[k].call == h.from);
            } else {
                assert(t.recent.last().call == h.from);
                assert(t.recent[t.recent.len() - 1].call == h.from);
            }
        },
    }
}

pub proof fn lemma_dropped_at_is_first(d: Seq<PartnerView>, call: Seq<char>)
    ensures
        0 <= dropped_at(d, call) <= d.len(),
        dropped_at(d, call) < d.len()
            ==> d[dropped_at(d, call)].call == call,
    decreases d.len(),
{
    if d.len() > 0 && d[0].call != call {
        lemma_dropped_at_is_first(d.skip(1), call);
    }
}

proof fn lemma_candidates(heard: Seq<HeardView>, p: Seq<(HeardView, u32)>)
    ensures
        match best_candidate(candidates(heard, p)) {
            Some(h) => !(h.exchange is S73),
            None => true,
        },
{
    let c = candidates(heard, p);
    let all = with_waiters(
        if heard.len() <= POOL_MAX {
            heard
        } else {
            heard.take(POOL_MAX as int)
        },
        p,
    );
    lemma_filter_keeps(all, wants_answer(), |x: HeardView| true, |x: HeardView, y: HeardView| true);
    lemma_best_is_one(c);
}

proof fn lemma_best_is_one(c: Seq<HeardView>)
    ensures
        c.len() > 0 <==> best_candidate(c) is Some,
        best_candidate(c) is Some ==> c.contains(best_candidate(c)->0),
    decreases c.len(),
{
    if c.len() > 0 {
        lemma_best_is_one(c.drop_last());
        assert(c[c.len() - 1] == c.last());
        if best_candidate(c) != Some(c.last()) {
            let b = best_candidate(c.drop_last())->0;
            let k = choose|k: int| 0 <= k < c.len() - 1 && c.drop_last()[k] == b;
            assert(c[k] == b);
        }
    }
}

/// What answering the best caller, or calling CQ, does.
proof fn lemma_next_or_cq(s: ActView, period: u32, heard: Seq<HeardView>)
    requires
        pending_ok(s.pending),
        recent_ok(s.recent),
        s.dropped.len() <= DROPPED_MAX,
        s.partner is None,
        s.phase == Phase::Cq || s.phase == Phase::Working,
    ensures
        ({
            let (t, log, tx) = next_or_cq(s, period, heard);
            &&& act_ok(t)
            &&& t.cfg == s.cfg
            &&& tx is Some && ends_contact(tx->0) ==> (log is Some <==> !is_recent(
                s.recent,
                tx->0->to,
            )) && is_recent(t.recent, tx->0->to)
            &&& log is Some ==> tx is Some && ends_contact(tx->0) && tx->0->to == log->0.call
                && log->0.off_period == period
            &&& log is Some ==> t.logged == (if s.logged < u16::MAX {
                s.logged + 1
            } else {
                s.logged as int
            })
            &&& log is None ==> t.logged == s.logged
            &&& t.phase == Phase::Done ==> s.cfg.target_qsos > 0 && t.logged >= s.cfg.target_qsos
            &&& tx is Some && ends_contact(tx->0) && s.cfg.target_qsos > 0 && t.logged
                >= s.cfg.target_qsos ==> t.phase == Phase::Done && t.done_at == period
            &&& t.phase == Phase::Stopped <==> tx is None
            &&& t.phase == Phase::Stopped ==> s.cfg.idle_stop_periods > 0 && t.idle
                > s.cfg.idle_stop_periods
            &&& tx is Some && tx->0 is Std ==> t.idle == 0
            &&& (tx is None || tx->0 is Cq) ==> candidates(heard, s.pending).len() == 0
        }),
{
    lemma_candidates(heard, s.pending);
    lemma_best_is_one(candidates(heard, s.pending));
    match best_candidate(candidates(heard, s.pending)) {
        Some(h) => {
            lemma_pending_filter(s.pending, waiter_other_than(h.from));
            let s1 = ActView { pending: without_waiter(s.pending, h.from), ..s };
            lemma_replied(s1, period, h);
            let t1 = replied(s1, period, h).0;
            lemma_queue_all(t1.pending, heard, period, h.from);
        },
        None => {},
    }
}

// ── Laws ────────────────────────────────────────────────────────────────────

/// Every decision keeps the state in order: at most eight waiting callers,
/// sixteen recent partners and four dropped ones, nobody listed twice, and a
/// partner exactly while a contact is being worked.
pub proof fn law_state_stays_in_order(s: ActView, period: u32, heard: Seq<HeardView>)
    requires
        act_ok(s),
    ensures
        act_ok(decided(s, period, heard).0),
        decided(s, period, heard).0.cfg == s.cfg,
{
    lemma_decided(s, period, heard);
}

/// What one decision does, taken together.
proof fn lemma_decided(s: ActView, period: u32, heard: Seq<HeardView>)
    requires
        act_ok(s),
    ensures
        ({
            let (t, log, tx) = decided(s, period, heard);
            let recent = still_recent(s.recent, period);
            &&& act_ok(t)
            &&& t.cfg == s.cfg
            &&& s.phase != Phase::Done && tx is Some && ends_contact(tx->0) ==> (log is Some
                <==> !is_recent(recent, tx->0->to)) && is_recent(t.recent, tx->0->to)
            &&& log is Some ==> tx is Some && ends_contact(tx->0) && tx->0->to == log->0.call
                && log->0.off_period == period
            &&& log is Some ==> t.logged == (if s.logged < u16::MAX {
                s.logged + 1
            } else {
                s.logged as int
            })
            &&& log is None ==> t.logged == s.logged
            &&& t.phase == Phase::Done && s.phase != Phase::Done ==> s.cfg.target_qsos > 0
                && t.logged >= s.cfg.target_qsos
            &&& log is Some && s.cfg.target_qsos > 0 && t.logged >= s.cfg.target_qsos ==> t.phase
                == Phase::Done && t.done_at == period
            &&& t.phase == Phase::Stopped ==> tx is None
        }),
{
    lemma_recent_filter(s.recent, recent_in(period));
    lemma_pending_filter(s.pending, waits_at(period));
    let a = ActView {
        pending: still_waiting(s.pending, period),
        recent: still_recent(s.recent, period),
        ..s
    };
    if s.phase == Phase::Cq || s.phase == Phase::Working {
        match a.partner {
            Some(p) => {
                lemma_best_of(heard, p.call);
                match best_of(heard, p.call) {
                    Some(h) => {
                        lemma_replied(a, period, h);
                        let t1 = replied(a, period, h).0;
                        lemma_queue_all(t1.pending, heard, period, p.call);
                        let t2 = ActView {
                            pending: queue_all(t1.pending, heard, period, p.call),
                            ..t1
                        };
                        if replied(a, period, h).2 is None {
                            assert(t2.recent == a.recent);
                            lemma_next_or_cq(t2, period, Seq::empty());
                        }
                    },
                    None => {
                        if since(period, p.last_heard) < s.cfg.give_up_periods {
                            lemma_queue_all(a.pending, heard, period, p.call);
                        } else {
                            lemma_next_or_cq(given_up(a, p), period, heard);
                        }
                    },
                }
            },
            None => {
                lemma_next_or_cq(a, period, heard);
            },
        }
    }
}

proof fn lemma_best_of(heard: Seq<HeardView>, call: Seq<char>)
    ensures
        best_of(heard, call) is Some ==> best_of(heard, call)->0.from == call,
    decreases heard.len(),
{
    if heard.len() > 0 {
        lemma_best_of(heard.drop_last(), call);
    }
}

/// A contact is logged when the message that ends it is sent, once: the
/// record is of the station the message goes to, and a station in the window
/// of recently logged partners is not logged again.
pub proof fn law_logged_once_when_the_contact_ends(
    s: ActView,
    period: u32,
    heard: Seq<HeardView>,
)
    requires
        act_ok(s),
        s.phase != Phase::Done,
    ensures
        ({
            let (t, log, tx) = decided(s, period, heard);
            &&& log is Some ==> tx is Some && ends_contact(tx->0) && tx->0->to == log->0.call
                && log->0.off_period == period
            &&& tx is Some && ends_contact(tx->0) ==> (log is Some <==> !is_recent(
                still_recent(s.recent, period),
                tx->0->to,
            )) && is_recent(t.recent, tx->0->to)
        }),
{
    lemma_decided(s, period, heard);
}

/// The count of logged contacts goes up by one with each record, and not
/// otherwise.
pub proof fn law_count_follows_the_log(s: ActView, period: u32, heard: Seq<HeardView>)
    requires
        act_ok(s),
        s.logged < u16::MAX,
    ensures
        decided(s, period, heard).0.logged == s.logged + (if decided(s, period, heard).1 is Some {
            1int
        } else {
            0int
        }),
{
    lemma_decided(s, period, heard);
}

/// An activation with a target ends with the contact that reaches it, and
/// not before.
pub proof fn law_done_at_the_target(s: ActView, period: u32, heard: Seq<HeardView>)
    requires
        act_ok(s),
        s.phase != Phase::Done,
        s.cfg.target_qsos == 0 || s.logged < s.cfg.target_qsos,
    ensures
        ({
            let (t, log, tx) = decided(s, period, heard);
            &&& t.phase == Phase::Done <==> s.cfg.target_qsos > 0 && t.logged >= s.cfg.target_qsos
            &&& t.phase == Phase::Done ==> log is Some && t.done_at == period
        }),
{
    lemma_decided(s, period, heard);
}

/// A stopped station sends nothing, logs nothing and stays as it is.
pub proof fn law_stopped_is_silent(s: ActView, period: u32, heard: Seq<HeardView>)
    requires
        s.phase == Phase::Stopped,
    ensures
        decided(s, period, heard) == (s, None::<QsoView>, None::<TxView>),
{
}

/// After the target no CQ goes out and no contact is logged: at most an RR73
/// to a recent partner who repeats a rogered report, and only until the
/// grace is over.
pub proof fn law_done_only_repeats(s: ActView, period: u32, heard: Seq<HeardView>)
    requires
        s.phase == Phase::Done,
    ensures
        ({
            let (t, log, tx) = decided(s, period, heard);
            &&& log is None
            &&& t.logged == s.logged
            &&& t.phase == Phase::Stopped <==> since(period, s.done_at) > s.cfg.grace_periods
            &&& t.phase == Phase::Done <==> since(period, s.done_at) <= s.cfg.grace_periods
            &&& t.phase == Phase::Stopped ==> tx is None
            &&& tx is Some ==> exists|i: int|
                0 <= i < heard.len() && tx == Some(
                    TxView::Std { to: (#[trigger] heard[i]).from, exchange: "RR73"@ },
                ) && heard[i].exchange is RReport && is_recent(s.recent, heard[i].from)
            &&& t.phase == Phase::Done && tx is None ==> forall|i: int|
                0 <= i < heard.len() && (#[trigger] heard[i]).exchange is RReport ==> !is_recent(
                    s.recent,
                    heard[i].from,
                )
        }),
{
    lemma_repeated(s.recent, heard);
}

proof fn lemma_repeated(recent: Seq<RecentView>, heard: Seq<HeardView>)
    ensures
        match repeated(recent, heard) {
            Some(call) => exists|i: int|
                0 <= i < heard.len() && (#[trigger] heard[i]).from == call
                    && heard[i].exchange is RReport && is_recent(recent, heard[i].from),
            None => forall|i: int|
                0 <= i < heard.len() && (#[trigger] heard[i]).exchange is RReport ==> !is_recent(
                    recent,
                    heard[i].from,
                ),
        },
    decreases heard.len(),
{
    if heard.len() > 0 {
        lemma_recent_at_is_first(recent, heard[0].from);
        let t = heard.skip(1);
        lemma_repeated(recent, t);
        if !(heard[0].exchange is RReport && recent_at(recent, heard[0].from) < recent.len()) {
            match repeated(recent, t) {
                Some(call) => {
                    let k = choose|i: int|
                        0 <= i < t.len() && (#[trigger] t[i]).from == call
                            && t[i].exchange is RReport && is_recent(recent, t[i].from);
                    assert(heard[k + 1] == t[k]);
                },
                None => {
                    assert forall|i: int|
                        0 <= i < heard.len()
                            && (#[trigger] heard[i]).exchange is RReport implies !is_recent(
                        recent,
                        heard[i].from,
                    ) by {
                        if i > 0 {
                            assert(t[i - 1] == heard[i]);
                        }
                    }
                },
            }
        }
    }
}

/// A partner is not interrupted: while they are heard, other than to say
/// goodbye, the message goes to them, and while they are quiet for less than
/// the limit the last message is sent again and they stay the partner.
pub proof fn law_partner_is_not_interrupted(s: ActView, period: u32, heard: Seq<HeardView>)
    requires
        act_ok(s),
        s.phase == Phase::Working,
    ensures
        ({
            let p = s.partner->0;
            let (t, log, tx) = decided(s, period, heard);
            match best_of(heard, p.call) {
                Some(h) => !(h.exchange is S73) ==> tx is Some && tx->0 is Std && tx->0->to
                    == p.call,
                None => since(period, p.last_heard) < s.cfg.give_up_periods ==> tx == Some(
                    p.last_tx,
                ) && t.partner == s.partner && log is None,
            }
        }),
{
    lemma_recent_filter(s.recent, recent_in(period));
    lemma_pending_filter(s.pending, waits_at(period));
    let a = ActView {
        pending: still_waiting(s.pending, period),
        recent: still_recent(s.recent, period),
        ..s
    };
    lemma_best_of(heard, s.partner->0.call);
    if let Some(h) = best_of(heard, s.partner->0.call) {
        lemma_replied(a, period, h);
    }
}

/// A partner quiet for the limit is given up but not forgotten: they are the
/// last on the list of dropped partners. With nobody waiting the station
/// calls CQ, or stops when it has called for too long.
pub proof fn law_quiet_partner_is_dropped(s: ActView, period: u32)
    requires
        act_ok(s),
        s.phase == Phase::Working,
        since(period, s.partner->0.last_heard) >= s.cfg.give_up_periods,
        still_waiting(s.pending, period).len() == 0,
    ensures
        ({
            let (t, log, tx) = decided(s, period, Seq::empty());
            &&& t.partner is None
            &&& log is None
            &&& t.dropped.last() == s.partner->0
            &&& t.phase == Phase::Cq ==> tx == Some(TxView::Cq)
            &&& t.phase == Phase::Cq || t.phase == Phase::Stopped
        }),
{
    let e = Seq::<HeardView>::empty();
    let p = s.partner->0;
    assert(best_of(e, p.call) is None);
    let w = still_waiting(s.pending, period);
    assert(with_waiters(e, w) == e);
    reveal(Seq::filter);
    assert(candidates(e, w) =~= e);
    assert(best_candidate(candidates(e, w)) is None);
}

proof fn lemma_best_is_best(c: Seq<HeardView>)
    ensures
        forall|i: int|
            0 <= i < c.len() ==> best_candidate(c) is Some && at_least(
                best_candidate(c)->0,
                #[trigger] c[i],
            ),
    decreases c.len(),
{
    if c.len() > 0 {
        let d = c.drop_last();
        lemma_best_is_best(d);
        lemma_best_is_one(d);
        assert forall|i: int| 0 <= i < c.len() implies best_candidate(c) is Some && at_least(
            best_candidate(c)->0,
            #[trigger] c[i],
        ) by {
            if i < d.len() {
                assert(d[i] == c[i]);
            }
        }
    }
}

/// With no partner the station answers the caller furthest along in an
/// exchange, and of those the strongest; it calls CQ, or stops, only when
/// there is nobody to answer.
pub proof fn law_best_caller_is_answered(s: ActView, period: u32, heard: Seq<HeardView>)
    requires
        act_ok(s),
        s.phase == Phase::Cq,
    ensures
        ({
            let c = candidates(heard, still_waiting(s.pending, period));
            let tx = decided(s, period, heard).2;
            &&& c.len() == 0 <==> tx is None || tx->0 is Cq
            &&& c.len() > 0 ==> exists|k: int|
                0 <= k < c.len() && tx->0->to == (#[trigger] c[k]).from && forall|i: int|
                    0 <= i < c.len() ==> at_least(c[k], #[trigger] c[i])
        }),
{
    lemma_recent_filter(s.recent, recent_in(period));
    lemma_pending_filter(s.pending, waits_at(period));
    let a = ActView {
        pending: still_waiting(s.pending, period),
        recent: still_recent(s.recent, period),
        ..s
    };
    let c = candidates(heard, a.pending);
    lemma_candidates(heard, a.pending);
    lemma_best_is_one(c);
    lemma_best_is_best(c);
    if let Some(h) = best_candidate(c) {
        let k = choose|k: int| 0 <= k < c.len() && c[k] == h;
        assert(c[k] == h);
        lemma_pending_filter(a.pending, waiter_other_than(h.from));
        lemma_replied(ActView { pending: without_waiter(a.pending, h.from), ..a }, period, h);
    }
}

/// A dropped partner who comes back to end the contact is logged with the
/// grid, the report and the starting period of the first attempt.
pub proof fn law_returning_partner_is_logged_as_first_met(
    s: ActView,
    period: u32,
    h: HeardView,
)
    requires
        s.partner is None || s.partner->0.call != h.from,
        dropped_at(s.dropped, h.from) < s.dropped.len(),
        h.exchange is RReport,
        !is_recent(s.recent, h.from),
    ensures
        ({
            let p = s.dropped[dropped_at(s.dropped, h.from)];
            replied(s, period, h).1 == Some(
                QsoView {
                    call: h.from,
                    grid: p.grid,
                    rst_sent: p.rst_sent,
                    rst_rcvd: Some(h.exchange->RReport_0),
                    on_period: p.first_period,
                    off_period: period,
                },
            )
        }),
{
    lemma_recent_at_is_first(s.recent, h.from);
    lemma_dropped_at_is_first(s.dropped, h.from);
}

/// An activation begins in order, and stopping it keeps that.
pub proof fn law_begins_in_order(s: ActView)
    ensures
        act_ok(
            ActView {
                phase: Phase::Cq,
                partner: None,
                pending: Seq::empty(),
                recent: Seq::empty(),
                dropped: Seq::empty(),
                logged: 0,
                idle: 0,
                ..s
            },
        ),
        act_ok(s) ==> act_ok(
            ActView { phase: Phase::Stopped, partner: None, pending: Seq::empty(), ..s },
        ),
{
}

}
