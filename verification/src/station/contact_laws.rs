//! Who is answered, with what, and what is written down of it.

use crate::fixed::lemma_ascii_bytes;
use crate::msg::laws::{report_value, written_report};
use crate::station::activator::{
    at_least, bare_call, base_call, best_of, candidates, clamped, decided, dropped_at, exchange_of,
    fill, fill_upper, heard_of, in_pool, longest, queue_all, queue_one, recent_at, replied,
    report_field, same_station, spaced, stage, still_recent, still_waiting, tx_fields,
    unicode_upper, waiter_at, wants_answer, weakest, with_waiters, ActView, ConfigView, CqView,
    ExchangeView, HeardView, Phase, QsoView, RecentView, TxView,
};
use crate::station::activator_laws::{
    act_ok, is_recent, lemma_dropped_at_is_first, lemma_pending_filter, lemma_queue_all,
    lemma_recent_at_is_first, lemma_waiter_at_is_first, lemma_weakest_in_range, pending_ok,
    recent_ok,
};
use crate::text::{
    dec, dec_value, is_digit, is_white, law_parts_stand_between_separators,
    law_zeros_in_front_do_not_count, pad_left, split, starts_with, to_upper, trim, upper_text,
};
use vstd::prelude::*;

verus! {

// ── Waiting callers ─────────────────────────────────────────────────────────

/// The last message from a station that wants an answer.
pub open spec fn last_from(heard: Seq<HeardView>, call: Seq<char>) -> Option<HeardView>
    decreases heard.len(),
{
    if heard.len() == 0 {
        None
    } else if heard.last().from == call && !(heard.last().exchange is S73) {
        Some(heard.last())
    } else {
        last_from(heard.drop_last(), call)
    }
}

/// Whoever was heard this period and waits, waits with this period and with
/// the last that they sent; whoever was not waits as before. The station
/// being worked is not put among them.
pub proof fn law_waiting_callers_are_refreshed(
    p: Seq<(HeardView, u32)>,
    heard: Seq<HeardView>,
    period: u32,
    except: Seq<char>,
    k: int,
)
    requires
        pending_ok(p),
        0 <= k < queue_all(p, heard, period, except).len(),
    ensures
        ({
            let w = queue_all(p, heard, period, except)[k];
            if w.0.from == except || last_from(heard, w.0.from) is None {
                p.contains(w)
            } else {
                w == (last_from(heard, w.0.from)->0, period)
            }
        }),
    decreases heard.len(),
{
    let q = queue_all(p, heard, period, except);
    if heard.len() > 0 {
        let before = heard.drop_last();
        let h = heard.last();
        let r = queue_all(p, before, period, except);
        lemma_queue_all(p, before, period, except);
        lemma_waiter_at_is_first(r, h.from);
        if r.len() > 0 {
            lemma_weakest_in_range(r, r.len() as int);
        }
        if h.from == except || h.exchange is S73 {
            law_waiting_callers_are_refreshed(p, before, period, except, k);
        } else if q[k] == (h, period) && q[k].0.from == h.from {
        } else {
            assert(k < r.len() && q[k] == r[k]);
            law_waiting_callers_are_refreshed(p, before, period, except, k);
            assert(q[k].0.from != h.from) by {
                if r[k].0.from == h.from {
                    let j = waiter_at(r, h.from);
                    assert(j < r.len());
                    assert(j == k) by {
                        if j < k {
                            assert(r[j].0.from != r[k].0.from);
                        } else if k < j {
                            assert(r[k].0.from != r[j].0.from);
                        }
                    }
                }
            }
        }
    } else {
        assert(p[k] == q[k]);
    }
}

/// A station is among the waiting callers.
pub open spec fn waits(p: Seq<(HeardView, u32)>, call: Seq<char>) -> bool {
    exists|k: int| 0 <= k < p.len() && (#[trigger] p[k]).0.from == call
}

/// As long as there is room nobody is turned away: whoever waited still does,
/// and whoever was heard does too, unless they said goodbye or are being
/// worked.
pub proof fn law_nobody_is_turned_away(
    p: Seq<(HeardView, u32)>,
    heard: Seq<HeardView>,
    period: u32,
    except: Seq<char>,
    call: Seq<char>,
)
    requires
        pending_ok(p),
        p.len() + heard.len() <= 8,
        waits(p, call) || call != except && last_from(heard, call) is Some,
    ensures
        waits(queue_all(p, heard, period, except), call),
        queue_all(p, heard, period, except).len() <= p.len() + heard.len(),
    decreases heard.len(),
{
    if heard.len() > 0 {
        let before = heard.drop_last();
        let h = heard.last();
        let r = queue_all(p, before, period, except);
        let q = queue_all(p, heard, period, except);
        lemma_room(p, before, period, except);
        lemma_waiter_at_is_first(r, h.from);
        if waits(p, call) || call != except && last_from(before, call) is Some {
            law_nobody_is_turned_away(p, before, period, except, call);
            let k = choose|k: int| 0 <= k < r.len() && (#[trigger] r[k]).0.from == call;
            assert(q[k].0.from == call);
        } else {
            assert(h.from == call);
            let k = waiter_at(r, h.from);
            assert(q[k].0.from == call);
        }
        lemma_room(p, heard, period, except);
    }
}

proof fn lemma_room(
    p: Seq<(HeardView, u32)>,
    heard: Seq<HeardView>,
    period: u32,
    except: Seq<char>,
)
    requires
        p.len() + heard.len() <= 8,
    ensures
        queue_all(p, heard, period, except).len() <= p.len() + heard.len(),
    decreases heard.len(),
{
    if heard.len() > 0 {
        lemma_room(p, heard.drop_last(), period, except);
        lemma_waiter_at_is_first(
            queue_all(p, heard.drop_last(), period, except),
            heard.last().from,
        );
    }
}

proof fn lemma_weakest_is_weakest(p: Seq<(HeardView, u32)>, n: int)
    requires
        0 < n <= p.len(),
    ensures
        0 <= weakest(p, n) < n,
        forall|i: int| 0 <= i < n ==> at_least((#[trigger] p[i]).0, p[weakest(p, n)].0),
    decreases n,
{
    if n > 1 {
        lemma_weakest_is_weakest(p, n - 1);
    }
}

/// With eight waiting, a ninth comes in only for one whom nobody is worse
/// than, and only if better than that one; everyone else stays.
pub proof fn law_only_the_weakest_makes_room(
    p: Seq<(HeardView, u32)>,
    h: HeardView,
    period: u32,
    except: Seq<char>,
)
    requires
        pending_ok(p),
        p.len() == 8,
        !waits(p, h.from),
        h.from != except,
        !(h.exchange is S73),
    ensures
        ({
            let q = queue_one(p, h, period, except);
            ||| q == p && exists|k: int|
                0 <= k < 8 && at_least((#[trigger] p[k]).0, h) && forall|i: int|
                    0 <= i < 8 ==> at_least((#[trigger] p[i]).0, p[k].0)
            ||| exists|k: int|
                0 <= k < 8 && #[trigger] p.update(k, (h, period)) == q && !at_least(p[k].0, h)
                    && forall|i: int| 0 <= i < 8 ==> at_least((#[trigger] p[i]).0, p[k].0)
        }),
{
    lemma_waiter_at_is_first(p, h.from);
    lemma_weakest_is_weakest(p, 8);
    let k = waiter_at(p, h.from);
    if k < p.len() {
        assert(p[k].0.from == h.from);
    }
    let w = weakest(p, 8);
    if !at_least(p[w].0, h) {
        assert(p.update(w, (h, period)) == queue_one(p, h, period, except));
    }
}

/// Filtering keeps what passes.
proof fn lemma_filter_contains<A>(s: Seq<A>, f: spec_fn(A) -> bool, x: A)
    ensures
        s.filter(f).contains(x) <==> s.contains(x) && f(x),
    decreases s.len(),
{
    reveal(Seq::filter);
    if s.len() > 0 {
        let t = s.drop_last();
        lemma_filter_contains(t, f, x);
        let g = t.filter(f);
        let r = s.filter(f);
        assert(s =~= t.push(s.last()));
        if t.contains(x) {
            let i = choose|i: int| 0 <= i < t.len() && t[i] == x;
            assert(s[i] == x);
        }
        if s.last() == x {
            assert(s[s.len() - 1] == x);
        }
        if s.contains(x) && s.last() != x {
            let i = choose|i: int| 0 <= i < s.len() && s[i] == x;
            assert(t[i] == x);
        }
        if f(s.last()) {
            assert(r =~= g.push(s.last()));
            assert(r[r.len() - 1] == s.last());
            if g.contains(x) {
                let i = choose|i: int| 0 <= i < g.len() && g[i] == x;
                assert(r[i] == x);
            }
            if r.contains(x) && x != s.last() {
                let i = choose|i: int| 0 <= i < r.len() && r[i] == x;
                assert(g[i] == x);
            }
        } else {
            assert(r =~= g);
        }
    }
}

/// A caller waits for two periods after they were last heard, a logged
/// partner is remembered for four, and no longer.
pub proof fn law_waiting_and_memory_run_out(
    p: Seq<(HeardView, u32)>,
    w: (HeardView, u32),
    r: Seq<RecentView>,
    x: RecentView,
    period: u32,
)
    ensures
        still_waiting(p, period).contains(w) <==> p.contains(w) && period <= w.1 + 2,
        still_recent(r, period).contains(x) <==> r.contains(x) && period <= x.period + 4,
{
    lemma_filter_contains(p, crate::station::activator::waits_at(period), w);
    lemma_filter_contains(r, crate::station::activator::recent_in(period), x);
}

/// Finishing a contact comes before going on with one, and that before
/// beginning one; among equals the stronger signal goes first.
pub proof fn law_callers_rank(g: Seq<char>, a: i8, b: i8, c: i8, f: Seq<char>, s: i8, t: i8)
    ensures
        ({
            let bare = HeardView { from: f, exchange: ExchangeView::Bare, snr: s };
            let grid = HeardView { from: f, exchange: ExchangeView::Grid(g), snr: t };
            let report = HeardView { from: f, exchange: ExchangeView::Report(a), snr: s };
            let roger = HeardView { from: f, exchange: ExchangeView::RReport(b), snr: t };
            let rrr = HeardView { from: f, exchange: ExchangeView::Rrr, snr: s };
            let rr73 = HeardView { from: f, exchange: ExchangeView::Rr73, snr: t };
            &&& !at_least(grid, report) && at_least(report, grid)
            &&& !at_least(report, roger) && at_least(roger, report)
            &&& at_least(bare, grid) <==> s >= t
            &&& at_least(grid, bare) <==> t >= s
            &&& at_least(rrr, roger) <==> s >= t
            &&& at_least(rr73, rrr) <==> t >= s
        }),
{
}

/// Everyone heard now can be answered unless they said goodbye, and so can
/// everyone waiting who was not heard now; nobody else.
pub proof fn law_who_can_be_answered(
    heard: Seq<HeardView>,
    p: Seq<(HeardView, u32)>,
    h: HeardView,
)
    requires
        pending_ok(p),
        heard.len() + p.len() <= 24,
    ensures
        candidates(heard, p).contains(h) <==> !(h.exchange is S73) && (heard.contains(h) || !in_pool(
            heard,
            h.from,
        ) && exists|k: int| 0 <= k < p.len() && (#[trigger] p[k]).0 == h),
{
    lemma_filter_contains(with_waiters(heard, p), wants_answer(), h);
    lemma_with_waiters(heard, p, h);
}

proof fn lemma_with_waiters(heard: Seq<HeardView>, p: Seq<(HeardView, u32)>, h: HeardView)
    requires
        pending_ok(p),
        heard.len() + p.len() <= 24,
    ensures
        with_waiters(heard, p).len() <= heard.len() + p.len(),
        with_waiters(heard, p).contains(h) <==> heard.contains(h) || !in_pool(heard, h.from)
            && exists|k: int| 0 <= k < p.len() && (#[trigger] p[k]).0 == h,
        forall|call: Seq<char>| #[trigger]
            in_pool(with_waiters(heard, p), call) == (in_pool(heard, call) || waits(p, call)),
    decreases p.len(),
{
    if p.len() == 0 {
        assert forall|call: Seq<char>| #[trigger]
            in_pool(with_waiters(heard, p), call) == (in_pool(heard, call) || waits(p, call)) by {}
    } else {
        let d = p.drop_last();
        let q = with_waiters(heard, d);
        let x = p.last().0;
        let r = with_waiters(heard, p);
        assert forall|i: int| 0 <= i < d.len() implies !((#[trigger] d[i]).0.exchange is S73) by {
            assert(p[i] == d[i]);
        }
        assert forall|i: int, j: int| 0 <= i < j < d.len() implies (#[trigger] d[i]).0.from != (
        #[trigger] d[j]).0.from by {
            assert(p[i].0.from != p[j].0.from);
        }
        lemma_with_waiters(heard, d, h);
        assert(!waits(d, x.from)) by {
            if waits(d, x.from) {
                let k = choose|k: int| 0 <= k < d.len() && (#[trigger] d[k]).0.from == x.from;
                assert(p[k].0.from != p[p.len() - 1].0.from);
            }
        }
        assert(in_pool(q, x.from) <==> in_pool(heard, x.from));
        assert(p[p.len() - 1].0 == x);
        assert forall|call: Seq<char>| #[trigger]
            in_pool(r, call) == (in_pool(heard, call) || waits(p, call)) by {
            assert(in_pool(q, call) == (in_pool(heard, call) || waits(d, call)));
            if waits(d, call) {
                let k = choose|k: int| 0 <= k < d.len() && (#[trigger] d[k]).0.from == call;
                assert(p[k].0.from == call);
            }
            if waits(p, call) && call != x.from {
                let k = choose|k: int| 0 <= k < p.len() && (#[trigger] p[k]).0.from == call;
                assert(d[k].0.from == call);
            }
            if r == q.push(x) {
                assert(r[q.len() as int] == x);
                if in_pool(q, call) {
                    let k = choose|k: int| 0 <= k < q.len() && (#[trigger] q[k]).from == call;
                    assert(r[k].from == call);
                }
                if in_pool(r, call) && call != x.from {
                    let k = choose|k: int| 0 <= k < r.len() && (#[trigger] r[k]).from == call;
                    assert(q[k].from == call);
                }
            }
            if call == x.from {
                assert(p[p.len() - 1].0.from == call);
            }
        }
        if r == q.push(x) {
            assert(r[q.len() as int] == x);
            if q.contains(h) {
                let k = choose|k: int| 0 <= k < q.len() && q[k] == h;
                assert(r[k] == h);
            }
            if r.contains(h) && h != x {
                let k = choose|k: int| 0 <= k < r.len() && r[k] == h;
                assert(q[k] == h);
            }
        }
        if exists|k: int| 0 <= k < d.len() && (#[trigger] d[k]).0 == h {
            let k = choose|k: int| 0 <= k < d.len() && (#[trigger] d[k]).0 == h;
            assert(p[k].0 == h);
        }
        if (exists|k: int| 0 <= k < p.len() && (#[trigger] p[k]).0 == h) && h != x {
            let k = choose|k: int| 0 <= k < p.len() && (#[trigger] p[k]).0 == h;
            assert(d[k].0 == h);
        }
    }
}

// ── A contact being worked ──────────────────────────────────────────────────

/// The partner is kept this period: heard, other than to say goodbye, or
/// quiet for less than the limit.
pub open spec fn keeps_partner(s: ActView, period: u32, heard: Seq<HeardView>) -> bool {
    match best_of(heard, s.partner->0.call) {
        Some(h) => !(h.exchange is S73),
        None => s.cfg.give_up_periods > 0 && period < s.partner->0.last_heard
            + s.cfg.give_up_periods,
    }
}

/// Whoever calls while a contact is being worked waits from then on, with the
/// last that they sent, if there is room.
pub proof fn law_a_caller_waits_through_a_contact(
    s: ActView,
    period: u32,
    heard: Seq<HeardView>,
    call: Seq<char>,
)
    requires
        act_ok(s),
        s.phase == Phase::Working,
        keeps_partner(s, period, heard),
        call != s.partner->0.call,
        last_from(heard, call) is Some,
        s.pending.len() + heard.len() <= 8,
    ensures
        decided(s, period, heard).0.pending.contains((last_from(heard, call)->0, period)),
{
    let p = s.partner->0;
    let w = still_waiting(s.pending, period);
    lemma_pending_filter(s.pending, crate::station::activator::waits_at(period));
    law_nobody_is_turned_away(w, heard, period, p.call, call);
    let q = queue_all(w, heard, period, p.call);
    let k = choose|k: int| 0 <= k < q.len() && (#[trigger] q[k]).0.from == call;
    law_waiting_callers_are_refreshed(w, heard, period, p.call, k);
    assert(q[k] == (last_from(heard, call)->0, period));
    assert(decided(s, period, heard).0.pending == q) by {
        let a = ActView {
            pending: w,
            recent: still_recent(s.recent, period),
            ..s
        };
        match best_of(heard, p.call) {
            Some(h) => {
                assert(replied(a, period, h).2 is Some);
                assert(replied(a, period, h).0.pending == w);
            },
            None => {},
        }
    }
}

/// Nobody who waits is passed over for a CQ: with no partner, whoever was
/// heard in the last two periods and waits, or is heard now and wants an
/// answer, keeps the station from calling.
pub proof fn law_callers_come_before_a_cq(
    s: ActView,
    period: u32,
    heard: Seq<HeardView>,
    h: HeardView,
    then: u32,
)
    requires
        act_ok(s),
        s.phase == Phase::Cq,
        heard.len() <= 16,
        !(h.exchange is S73),
        heard.contains(h) || s.pending.contains((h, then)) && period <= then + 2 && !in_pool(
            heard,
            h.from,
        ),
    ensures
        decided(s, period, heard).2 is Some,
        decided(s, period, heard).2->0 is Std,
{
    let w = still_waiting(s.pending, period);
    lemma_pending_filter(s.pending, crate::station::activator::waits_at(period));
    crate::station::activator_laws::law_best_caller_is_answered(s, period, heard);
    let c = candidates(heard, w);
    if heard.contains(h) {
        law_who_can_be_answered(heard, w, h);
    } else {
        law_waiting_and_memory_run_out(
            s.pending,
            (h, then),
            s.recent,
            RecentView { call: h.from, period },
            period,
        );
        let k = choose|k: int| 0 <= k < w.len() && w[k] == (h, then);
        assert(w[k].0 == h);
        law_who_can_be_answered(heard, w, h);
    }
    assert(c.len() > 0);
}

// ── Replies ─────────────────────────────────────────────────────────────────

/// What can be carried of a signal report.
pub open spec fn carried(snr: i8) -> int {
    if snr < -50 {
        -50
    } else if snr > 49 {
        49
    } else {
        snr as int
    }
}

proof fn lemma_report_field(snr: int, roger: bool)
    requires
        -50 <= snr <= 49,
    ensures
        written_report(report_field(snr, roger)),
        report_value(report_field(snr, roger)) == snr,
        roger == (report_field(snr, roger)[0] == 'R'),
{
    reveal_strlit("R");
    reveal_strlit("");
    reveal_strlit("+");
    reveal_strlit("-");
    reveal_with_fuel(crate::text::dec, 3);
    let n = if snr >= 0 {
        snr as nat
    } else {
        (-snr) as nat
    };
    let d = crate::text::pad_left(crate::text::dec(n), 2, '0');
    assert(d.len() == 2 && d[0] == (n / 10 + 48) as char && d[1] == (n % 10 + 48) as char);
    let f = report_field(snr, roger);
    let k = if roger {
        1int
    } else {
        0
    };
    assert(f.len() == k + 3);
    assert(f[k + 1] == d[0] && f[k + 2] == d[1]);
}

/// What a message is answered with: a call with the report of how it was
/// heard; a report with the same report, rogered; a rogered report with
/// `RR73`; `RRR` or `RR73` with `73`; and a goodbye with nothing.
pub proof fn law_each_message_has_its_answer(s: ActView, period: u32, h: HeardView)
    requires
        s.dropped.len() <= 4,
    ensures
        ({
            let (t, log, tx) = replied(s, period, h);
            &&& tx is Some <==> !(h.exchange is S73)
            &&& tx is Some ==> tx->0 is Std && tx->0->to == h.from
            &&& h.exchange is Bare || h.exchange is Grid ==> written_report(tx->0->exchange)
                && tx->0->exchange[0] != 'R' && report_value(tx->0->exchange) == carried(h.snr)
                && t.partner is Some && t.partner->0.rst_sent == carried(h.snr)
            &&& h.exchange is Report && t.partner is Some && -50 <= t.partner->0.rst_sent <= 49
                ==> written_report(tx->0->exchange) && tx->0->exchange[0] == 'R' && report_value(
                tx->0->exchange,
            ) == t.partner->0.rst_sent
            &&& h.exchange is Report ==> t.partner is Some && t.partner->0.rst_rcvd == Some(
                h.exchange->Report_0,
            )
            &&& h.exchange is RReport ==> tx->0->exchange == "RR73"@
            &&& h.exchange is Rrr || h.exchange is Rr73 ==> tx->0->exchange == "73"@
        }),
{
    lemma_report_field(carried(h.snr), false);
    let (t, log, tx) = replied(s, period, h);
    if h.exchange is Report && -50 <= t.partner->0.rst_sent <= 49 {
        lemma_report_field(t.partner->0.rst_sent as int, true);
    }
}

/// A station that the activator has not met: not the partner, not dropped.
pub open spec fn is_new(s: ActView, call: Seq<char>) -> bool {
    &&& s.partner is None || s.partner->0.call != call
    &&& forall|i: int| 0 <= i < s.dropped.len() ==> (#[trigger] s.dropped[i]).call != call
}

/// A contact is logged as it went: who called with which locator and how
/// strong, what they reported, when it began and when it ended.
pub proof fn law_a_contact_is_logged_as_it_went(
    s: ActView,
    began: u32,
    h: HeardView,
    t: ActView,
    ended: u32,
    last: HeardView,
)
    requires
        is_new(s, h.from),
        h.exchange is Bare || h.exchange is Grid || h.exchange is Report,
        t.partner == replied(s, began, h).0.partner,
        !is_recent(t.recent, h.from),
        last.from == h.from,
        last.exchange is RReport || last.exchange is Rrr || last.exchange is Rr73,
    ensures
        replied(t, ended, last).1 == Some(
            QsoView {
                call: h.from,
                grid: if h.exchange is Grid {
                    h.exchange->Grid_0
                } else {
                    Seq::empty()
                },
                rst_sent: carried(h.snr) as i8,
                rst_rcvd: if last.exchange is RReport {
                    Some(last.exchange->RReport_0)
                } else if h.exchange is Report {
                    Some(h.exchange->Report_0)
                } else {
                    None
                },
                on_period: began,
                off_period: ended,
            },
        ),
        replied(t, ended, last).0.partner is None,
{
    lemma_dropped_at_is_first(s.dropped, h.from);
    let k = dropped_at(s.dropped, h.from);
    if k < s.dropped.len() {
        assert(s.dropped[k].call == h.from);
    }
    lemma_recent_at_is_first(t.recent, h.from);
}

/// Who calls anew is met anew, though logged a moment ago; who ends a contact
/// is remembered from then.
pub proof fn law_a_new_call_is_a_new_contact(s: ActView, period: u32, h: HeardView)
    requires
        recent_ok(s.recent),
    ensures
        h.exchange is Bare || h.exchange is Grid || h.exchange is Report ==> !is_recent(
            replied(s, period, h).0.recent,
            h.from,
        ) && replied(s, period, h).1 is None,
        h.exchange is RReport || h.exchange is Rrr || h.exchange is Rr73 ==> replied(
            s,
            period,
            h,
        ).0.recent.contains(RecentView { call: h.from, period }),
{
    lemma_dropped_at_is_first(s.dropped, h.from);
    lemma_recent_at_is_first(s.recent, h.from);
    let r = replied(s, period, h).0.recent;
    if h.exchange is Bare || h.exchange is Grid || h.exchange is Report {
        crate::station::activator_laws::lemma_recent_filter(
            s.recent,
            crate::station::activator::recent_other_than(h.from),
        );
    } else if !(h.exchange is S73) {
        let k = recent_at(s.recent, h.from);
        let x = RecentView { call: h.from, period };
        if k < s.recent.len() {
            assert(r[k] == x);
        } else {
            assert(r[r.len() - 1] == x);
        }
    }
}

/// Of a partner's messages the one furthest along counts.
pub proof fn law_the_furthest_message_counts(heard: Seq<HeardView>, call: Seq<char>)
    ensures
        match best_of(heard, call) {
            Some(b) => {
                &&& heard.contains(b)
                &&& b.from == call
                &&& forall|i: int|
                    0 <= i < heard.len() && (#[trigger] heard[i]).from == call ==> stage(
                        heard[i].exchange,
                    ) <= stage(b.exchange)
            },
            None => forall|i: int| 0 <= i < heard.len() ==> (#[trigger] heard[i]).from != call,
        },
    decreases heard.len(),
{
    if heard.len() > 0 {
        let d = heard.drop_last();
        law_the_furthest_message_counts(d, call);
        assert(heard[heard.len() - 1] == heard.last());
        if best_of(d, call) is Some {
            let b = best_of(d, call)->0;
            let i = choose|i: int| 0 <= i < d.len() && d[i] == b;
            assert(heard[i] == b);
        }
        assert forall|i: int| 0 <= i < heard.len() - 1 implies #[trigger] heard[i] == d[i] by {}
    }
}

/// With nobody to answer the station calls CQ and counts it, and stops once
/// it has called as often in vain as it may; an answer starts the count anew.
pub proof fn law_calls_in_vain_are_counted(s: ActView, period: u32, heard: Seq<HeardView>)
    requires
        act_ok(s),
        s.phase == Phase::Cq,
        s.idle < u16::MAX,
    ensures
        ({
            let (t, log, tx) = decided(s, period, heard);
            if candidates(heard, still_waiting(s.pending, period)).len() == 0 {
                &&& t.idle == s.idle + 1
                &&& log is None
                &&& t.phase == Phase::Stopped <==> s.cfg.idle_stop_periods > 0 && s.idle
                    >= s.cfg.idle_stop_periods
                &&& t.phase != Phase::Stopped ==> t.phase == Phase::Cq && tx == Some(TxView::Cq)
                &&& t.phase == Phase::Stopped ==> tx is None
            } else {
                t.idle == 0
            }
        }),
{
    crate::station::activator_laws::law_best_caller_is_answered(s, period, heard);
    let c = candidates(heard, still_waiting(s.pending, period));
    if c.len() > 0 {
        assert(crate::station::activator::best_candidate(c) is Some);
    }
}

// ── What is heard and said ──────────────────────────────────────────────────

/// A report from -99 to 99 is heard as its number, a rogered one as rogered;
/// a locator other than `RR73` as that locator.
pub proof fn law_third_fields_are_heard(r: Seq<char>)
    ensures
        written_report(r) ==> exchange_of(r) == Some(
            if r[0] == 'R' {
                ExchangeView::RReport(report_value(r) as i8)
            } else {
                ExchangeView::Report(report_value(r) as i8)
            },
        ),
        r.len() == 4 && 'A' <= r[0] <= 'R' && 'A' <= r[1] <= 'R' && is_digit(r[2]) && is_digit(r[3])
            && r != "RR73"@ ==> exchange_of(r) == Some(ExchangeView::Grid(r)),
{
    reveal_strlit("RRR");
    reveal_strlit("RR73");
    reveal_strlit("73");
    assert("RRR"@.len() == 3 && "RRR"@[1] == 'R');
    assert("RR73"@.len() == 4 && "RR73"@[1] == 'R');
    assert("73"@.len() == 2);
    if written_report(r) {
        crate::text::lemma_trim_tight(r);
        let k = if r[0] == 'R' {
            1int
        } else {
            0
        };
        let n = r.skip(1);
        if k == 1 {
            assert(n[0] == r[1] && n[1] == r[2] && n[2] == r[3]);
        } else {
            assert(crate::station::activator::report_number(r) is Some);
        }
    } else if r.len() == 4 && 'A' <= r[0] <= 'R' && 'A' <= r[1] <= 'R' && is_digit(r[2])
        && is_digit(r[3]) && r != "RR73"@ {
        crate::text::lemma_trim_tight(r);
        let n = r.skip(1);
        assert(n[0] == r[1]);
    }
}

/// Only what is sent to this station by another one is heard, as strong as it
/// was and with what its third field says.
pub proof fn law_heard_is_what_was_sent_here(
    my_call: Seq<char>,
    to: Seq<char>,
    from: Seq<char>,
    third: Seq<char>,
    snr: i8,
)
    requires
        heard_of(my_call, to, from, third, snr) is Some,
    ensures
        ({
            let h = heard_of(my_call, to, from, third, snr)->0;
            &&& h.snr == snr
            &&& exchange_of(third) == Some(h.exchange)
            &&& heard_of(my_call, from, to, third, snr) is None
        }),
{
    let me = my_call;
    match (
        crate::station::activator::bare_call(to),
        crate::station::activator::bare_call(from),
    ) {
        (Some(a), Some(b)) => {
            assert(crate::station::activator::same_station(a, me));
            assert(!crate::station::activator::same_station(b, me));
        },
        _ => {},
    }
}

// ── Reading what was heard ──────────────────────────────────────────────────

/// `RRR`, `RR73` and `73` are heard as such, an empty third field as a bare
/// call, and white space around a field makes no difference.
pub proof fn law_words_are_heard(field: Seq<char>)
    ensures
        trim(field) == "RRR"@ ==> exchange_of(field) == Some(ExchangeView::Rrr),
        trim(field) == "RR73"@ ==> exchange_of(field) == Some(ExchangeView::Rr73),
        trim(field) == "73"@ ==> exchange_of(field) == Some(ExchangeView::S73),
        trim(field).len() == 0 ==> exchange_of(field) == Some(ExchangeView::Bare),
        exchange_of(field) matches Some(ExchangeView::Grid(g)) ==> g == trim(field),
        exchange_of(field) == Some(ExchangeView::S73) ==> trim(field) == "73"@,
        exchange_of(field) == Some(ExchangeView::Rr73) ==> trim(field) == "RR73"@,
        exchange_of(field) == Some(ExchangeView::Rrr) ==> trim(field) == "RRR"@,
        exchange_of(field) == Some(ExchangeView::Bare) ==> trim(field).len() == 0,
{
    reveal_strlit("RRR");
    reveal_strlit("RR73");
    reveal_strlit("73");
    assert("RRR"@.len() == 3 && "RR73"@.len() == 4 && "73"@.len() == 2);
}

/// A callsign is taken out of its brackets; one that is not resolved is none.
pub proof fn law_brackets_are_taken_off(c: Seq<char>)
    requires
        c.len() > 0,
        !is_white(c[0]) && !is_white(c.last()),
        c[0] != '<',
    ensures
        c != "..."@ ==> bare_call(c) == Some(c),
        c != "..."@ ==> bare_call(seq!['<'] + c + seq!['>']) == Some(c),
        bare_call(seq!['<'] + "..."@ + seq!['>']) is None,
        bare_call("..."@) is None,
{
    reveal_strlit("...");
    crate::text::lemma_trim_tight(c);
    let d = seq!['<'] + c + seq!['>'];
    crate::text::lemma_trim_tight(d);
    assert(d.subrange(1, d.len() - 1) =~= c);
    let e = seq!['<'] + "..."@ + seq!['>'];
    crate::text::lemma_trim_tight(e);
    assert(e.subrange(1, e.len() - 1) =~= "..."@);
    crate::text::lemma_trim_tight("..."@);
}

/// Of two parts between slashes the longer one is the station, and the second
/// of two as long; what stands on the other side makes no difference to who
/// it is, nor does case.
pub proof fn law_the_longer_part_is_the_station(a: Seq<char>, b: Seq<char>)
    requires
        forall|i: int| 0 <= i < a.len() ==> #[trigger] a[i] != '/',
        forall|i: int| 0 <= i < b.len() ==> #[trigger] b[i] != '/',
        forall|i: int| 0 <= i < a.len() ==> (#[trigger] a[i] as u32) < 128,
        forall|i: int| 0 <= i < b.len() ==> (#[trigger] b[i] as u32) < 128,
    ensures
        base_call(a) == a,
        a.len() > b.len() ==> base_call(a + seq!['/'] + b) == a,
        a.len() <= b.len() ==> base_call(a + seq!['/'] + b) == b,
        a.len() > b.len() ==> same_station(a + seq!['/'] + b, a),
        same_station(a, b) == (upper_text(a) == upper_text(b)),
{
    law_parts_stand_between_separators(a, '/', b);
    law_parts_stand_between_separators(b, '/', a);
    let s = a + seq!['/'] + b;
    assert(split(s, '/') == seq![a] + seq![b]);
    lemma_ascii_bytes(a);
    lemma_ascii_bytes(b);
    reveal_with_fuel(longest, 3);
}

/// A message to this station from another is heard: whatever brackets or
/// portable parts the callsigns have, if it says something to answer. Nothing
/// is heard of a CQ, of this station itself, or of a message to another.
pub proof fn law_what_is_sent_here_is_heard(
    my_call: Seq<char>,
    to: Seq<char>,
    from: Seq<char>,
    third: Seq<char>,
    snr: i8,
)
    ensures
        (heard_of(my_call, to, from, third, snr) is Some) == (bare_call(to) is Some && bare_call(
            from,
        ) is Some && exchange_of(third) is Some && same_station(bare_call(to)->0, my_call)
            && !same_station(bare_call(from)->0, my_call) && !(bare_call(from)->0.len() >= 2
            && bare_call(from)->0[0] == 'C' && bare_call(from)->0[1] == 'Q')),
{
    reveal_strlit("CQ");
    if bare_call(from) is Some {
        let f = bare_call(from)->0;
        if f.len() >= 2 && f[0] == 'C' && f[1] == 'Q' {
            assert(f.take(2) =~= "CQ"@);
        }
        if starts_with(f, "CQ"@) {
            assert(f.take(2)[0] == 'C' && f.take(2)[1] == 'Q');
        }
    }
}

/// Text that fits is kept whole, and of text that does not as much as fits.
pub proof fn law_text_is_cut_to_its_room(acc: Seq<char>, rest: Seq<char>, n: nat)
    requires
        forall|i: int| 0 <= i < acc.len() ==> (#[trigger] acc[i] as u32) < 128,
        forall|i: int| 0 <= i < rest.len() ==> (#[trigger] rest[i] as u32) < 128,
        acc.len() <= n,
    ensures
        acc.len() + rest.len() <= n ==> fill(acc, rest, n) == (acc + rest, true),
        acc.len() + rest.len() > n ==> fill(acc, rest, n) == (acc + rest.take(n - acc.len()), false),
    decreases rest.len(),
{
    lemma_ascii_bytes(acc);
    if rest.len() > 0 {
        lemma_ascii_bytes(seq![rest[0]]);
        if acc.len() < n {
            let a = acc.push(rest[0]);
            let r = rest.skip(1);
            assert forall|i: int| 0 <= i < r.len() implies (#[trigger] r[i] as u32) < 128 by {
                assert(r[i] == rest[i + 1]);
            }
            law_text_is_cut_to_its_room(a, r, n);
            assert(a + r =~= acc + rest);
            if acc.len() + rest.len() > n {
                assert(a + r.take(n - a.len()) =~= acc + rest.take(n - acc.len()));
            }
        } else {
            assert(acc + rest.take(0) =~= acc);
        }
    } else {
        assert(acc + rest =~= acc);
    }
}

/// Where upper case is a letter's own, a callsign is kept in upper case, and
/// the first thirteen characters of a longer one.
pub proof fn law_callsigns_are_kept_in_capitals(
    my_call: Seq<char>,
    to: Seq<char>,
    from: Seq<char>,
    third: Seq<char>,
    snr: i8,
)
    ensures
        heard_of(my_call, to, from, third, snr) matches Some(h) ==> ({
            let f = bare_call(from)->0;
            (forall|i: int|
                0 <= i < f.len() ==> (#[trigger] f[i] as u32) < 128 && unicode_upper(f[i]) == seq![
                    to_upper(f[i]),
                ]) ==> h.from == upper_text(
                if f.len() <= 13 {
                    f
                } else {
                    f.take(13)
                },
            )
        }),
{
    if heard_of(my_call, to, from, third, snr) is Some {
        let f = bare_call(from)->0;
        if forall|i: int|
            0 <= i < f.len() ==> (#[trigger] f[i] as u32) < 128 && unicode_upper(f[i]) == seq![
                to_upper(f[i]),
            ] {
            lemma_fill_upper(Seq::empty(), f, 13);
            assert(Seq::<char>::empty() + upper_text(f) =~= upper_text(f));
            if f.len() > 13 {
                assert(Seq::<char>::empty() + upper_text(f).take(13) =~= upper_text(f.take(13)));
            }
        }
    }
}

proof fn lemma_fill_upper(acc: Seq<char>, f: Seq<char>, n: nat)
    requires
        forall|i: int| 0 <= i < acc.len() ==> (#[trigger] acc[i] as u32) < 128,
        forall|i: int|
            0 <= i < f.len() ==> (#[trigger] f[i] as u32) < 128 && unicode_upper(f[i]) == seq![
                to_upper(f[i]),
            ],
        acc.len() <= n,
    ensures
        acc.len() + f.len() <= n ==> fill_upper(acc, f, n) == acc + upper_text(f),
        acc.len() + f.len() > n ==> fill_upper(acc, f, n) == acc + upper_text(f).take(
            n - acc.len(),
        ),
    decreases f.len(),
{
    if f.len() > 0 {
        let u = to_upper(f[0]);
        assert(unicode_upper(f[0]) == seq![u]);
        law_text_is_cut_to_its_room(acc, seq![u], n);
        if acc.len() < n {
            let a = acc + seq![u];
            let r = f.skip(1);
            assert forall|i: int| 0 <= i < r.len() implies (#[trigger] r[i] as u32) < 128
                && unicode_upper(r[i]) == seq![to_upper(r[i])] by {
                assert(r[i] == f[i + 1]);
            }
            lemma_fill_upper(a, r, n);
            assert(a + upper_text(r) =~= acc + upper_text(f));
            if acc.len() + f.len() > n {
                assert(a + upper_text(r).take(n - a.len()) =~= acc + upper_text(f).take(
                    n - acc.len(),
                ));
            }
        } else {
            assert(acc + seq![u].take(0) =~= acc);
            assert(acc + upper_text(f).take(0) =~= acc);
        }
    } else {
        assert(acc + upper_text(f) =~= acc);
    }
}

// ── Writing what is sent ────────────────────────────────────────────────────

/// A message names who it is for, then this station, then what is said; a CQ
/// says so, with this station's locator, or is the text chosen for it.
pub proof fn law_messages_name_both_stations(cfg: ConfigView, to: Seq<char>, exchange: Seq<char>)
    ensures
        tx_fields(TxView::Std { to, exchange }, cfg) == (to, cfg.my_call, exchange),
        cfg.cq is Plain ==> tx_fields(TxView::Cq, cfg) == ("CQ"@, cfg.my_call, cfg.my_grid),
        cfg.cq matches CqView::Token(t) ==> tx_fields(TxView::Cq, cfg) == (
            "CQ "@ + t,
            cfg.my_call,
            cfg.my_grid,
        ),
        cfg.cq matches CqView::FreeText(t) ==> tx_fields(TxView::Cq, cfg).0 == t && tx_fields(
            TxView::Cq,
            cfg,
        ).1.len() == 0 && tx_fields(TxView::Cq, cfg).2.len() == 0,
{
}

/// A numbered CQ has three figures, of the last three of its number.
pub proof fn law_numbered_cqs_have_three_figures(cfg: ConfigView)
    ensures
        cfg.cq matches CqView::Number(n) ==> ({
            let f = tx_fields(TxView::Cq, cfg);
            &&& f.0.len() == 6 && f.0.take(3) == "CQ "@
            &&& dec_value(f.0.skip(3)) == n % 1000
            &&& f.1 == cfg.my_call && f.2 == cfg.my_grid
        }),
{
    if let CqView::Number(n) = cfg.cq {
        reveal_strlit("CQ ");
        let m = (n % 1000) as nat;
        law_zeros_in_front_do_not_count(m, 3);
        reveal_with_fuel(dec, 4);
        let d = pad_left(dec(m), 3, '0');
        let f = "CQ "@ + d;
        assert(d.len() == 3);
        assert(f.take(3) =~= "CQ "@);
        assert(f.skip(3) =~= d);
    }
}

/// On air the fields of a message, which are plain characters, stand with one
/// space between them, and an empty one with none, as long as they fit.
pub proof fn law_fields_are_spaced(a: Seq<char>, b: Seq<char>)
    requires
        forall|i: int| 0 <= i < a.len() ==> (#[trigger] a[i] as u32) < 128,
        forall|i: int| 0 <= i < b.len() ==> (#[trigger] b[i] as u32) < 128,
        a.len() + b.len() < 40,
        b.len() > 0,
    ensures
        a.len() > 0 ==> spaced(a, b) == a + seq![' '] + b,
        spaced(Seq::empty(), b) == b,
        spaced(a, Seq::empty()) == a,
{
    let sp = seq![' '];
    lemma_ascii_bytes(a);
    lemma_ascii_bytes(b);
    lemma_ascii_bytes(sp);
    lemma_ascii_bytes(a + sp);
    lemma_ascii_bytes(Seq::<char>::empty());
    assert(Seq::<char>::empty() + b =~= b);
}

/// A report is kept between -50 and 49, and within them is what was heard.
pub proof fn law_reports_are_kept_in_range(snr: int, roger: bool)
    ensures
        -50 <= clamped(snr) <= 49,
        -50 <= snr <= 49 ==> clamped(snr) == snr,
        snr < -50 ==> clamped(snr) == -50,
        snr > 49 ==> clamped(snr) == 49,
        report_field(snr, roger) == report_field(clamped(snr), roger),
{
}

/// Nothing else is heard as a locator or a report: a locator is two letters
/// to `R` and two digits, other than `RR73`; a report is a sign and two
/// digits, with an `R` in front if it is rogered.
pub proof fn law_nothing_else_is_an_exchange(field: Seq<char>)
    ensures
        exchange_of(field) matches Some(ExchangeView::Grid(g)) ==> g.len() == 4 && 'A' <= g[0] <= 'R'
            && 'A' <= g[1] <= 'R' && is_digit(g[2]) && is_digit(g[3]) && g != "RR73"@,
        exchange_of(field) matches Some(ExchangeView::Report(v)) ==> ({
            let f = trim(field);
            &&& f.len() == 3 && (f[0] == '+' || f[0] == '-') && is_digit(f[1]) && is_digit(f[2])
            &&& -99 <= v <= 99
        }),
        exchange_of(field) matches Some(ExchangeView::RReport(v)) ==> ({
            let f = trim(field);
            &&& f.len() == 4 && f[0] == 'R' && (f[1] == '+' || f[1] == '-') && is_digit(f[2])
                && is_digit(f[3])
            &&& -99 <= v <= 99
        }),
{
    let f = trim(field);
    if f.len() > 0 {
        let n = f.skip(1);
        if n.len() == 3 {
            assert(n[0] == f[1] && n[1] == f[2] && n[2] == f[3]);
        }
    }
}

}
