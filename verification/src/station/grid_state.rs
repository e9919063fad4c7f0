//! When to call the slot grid locked, and when to go get a new one.
//!
//! The grid is set once and held; a run of slots that are not decoding
//! properly is what sends the receiver back for a new one.

use vstd::prelude::*;

verus! {

/// Decodes a slot must produce before the grid counts as locked. One is
/// reachable on a grid that is a full second wrong.
pub const LOCK_MIN_DECODES: usize = 3;

/// How far off the grid may be and still be lockable, in microseconds.
///
/// Some stations decoding says that the grid is inside the search window,
/// not that it is anywhere near the middle of it.
pub const LOCK_MAX_PHASE_US: i32 = 300_000;

/// Under-par slots that carried a signal before a cold acquisition, when
/// nothing has ever locked.
pub const ACQUIRE_TRIGGER_SLOTS: u32 = 1;

/// The same count once a lock has produced decodes. Higher: after a lock
/// such slots are more often fading than a grid gone bad.
pub const REACQUIRE_TRIGGER_SLOTS: u32 = 6;

/// What to do with the grid after a slot's decodes.
#[derive(Debug, Clone, Copy, PartialEq, Eq, Structural)]
pub enum GridAction {
    /// Nothing to do.
    Hold,
    /// The slot cleared [`LOCK_MIN_DECODES`] and the grid was not locked.
    Lock { n_dec: usize },
    /// Long enough without decoding properly: run an acquisition. `relock`
    /// when a working grid is being given up, which also drops the lock.
    Acquire { slots: u32, relock: bool },
}

/// Lock state and the under-par run that leads back to acquisition.
#[derive(Debug, Clone, Copy)]
pub struct GridState {
    best_n: usize,
    lost_slots: u32,
    acquiring: bool,
}

/// What a [`GridState`] holds: the highest decode count since the current
/// lock (zero when nothing has locked), the slots in a row that were not
/// decoding properly, and whether an acquisition is in flight.
pub struct GridView {
    pub best_n: nat,
    pub lost_slots: nat,
    pub acquiring: bool,
}

impl View for GridState {
    type V = GridView;

    closed spec fn view(&self) -> GridView {
        GridView {
            best_n: self.best_n as nat,
            lost_slots: self.lost_slots as nat,
            acquiring: self.acquiring,
        }
    }
}

/// A measured phase error is small enough, or none was measured.
pub open spec fn centred(phase_err_us: Option<i32>) -> bool {
    match phase_err_us {
        Some(e) => -LOCK_MAX_PHASE_US <= e <= LOCK_MAX_PHASE_US,
        None => true,
    }
}

/// A slot decoded as a working grid does.
pub open spec fn good_slot(n_dec: nat, centred: bool) -> bool {
    n_dec >= LOCK_MIN_DECODES && centred
}

/// A slot counts against the grid: before a lock, when it was not a good
/// one; after a lock, when it decoded nothing.
pub open spec fn below_par(locked: bool, n_dec: nat, centred: bool) -> bool {
    if locked {
        n_dec == 0
    } else {
        !good_slot(n_dec, centred)
    }
}

/// The under-par run after a slot. A slot without a signal neither adds to
/// it nor ends it.
pub open spec fn run_after(g: GridView, n_dec: nat, centred: bool, had_signal: bool) -> nat {
    if !below_par(g.best_n > 0, n_dec, centred) {
        0
    } else if had_signal {
        g.lost_slots + 1
    } else {
        g.lost_slots
    }
}

/// The action after a slot.
pub open spec fn action(g: GridView, n_dec: nat, centred: bool, had_signal: bool) -> GridAction {
    let locked = g.best_n > 0;
    let run = run_after(g, n_dec, centred, had_signal);
    if good_slot(n_dec, centred) && !locked {
        GridAction::Lock { n_dec: n_dec as usize }
    } else if !g.acquiring && run >= (if locked {
        REACQUIRE_TRIGGER_SLOTS
    } else {
        ACQUIRE_TRIGGER_SLOTS
    }) {
        GridAction::Acquire { slots: run as u32, relock: locked }
    } else {
        GridAction::Hold
    }
}

/// The state after a slot.
pub open spec fn after_slot(g: GridView, n_dec: nat, centred: bool, had_signal: bool) -> GridView {
    let acquire = action(g, n_dec, centred, had_signal) is Acquire;
    GridView {
        best_n: if acquire && g.best_n > 0 {
            0
        } else if good_slot(n_dec, centred) && n_dec > g.best_n {
            n_dec
        } else {
            g.best_n
        },
        lost_slots: run_after(g, n_dec, centred, had_signal),
        acquiring: g.acquiring || acquire,
    }
}

impl GridState {
    pub fn new() -> (r: Self)
        ensures
            r@ == (GridView { best_n: 0, lost_slots: 0, acquiring: false }),
    {
        GridState { best_n: 0, lost_slots: 0, acquiring: false }
    }

    /// A grid that is known to be unplaced: the first under-par slot
    /// acquires.
    pub fn new_unplaced() -> (r: Self)
        ensures
            r@ == (GridView {
                best_n: 0,
                lost_slots: ACQUIRE_TRIGGER_SLOTS as nat,
                acquiring: false,
            }),
    {
        GridState { best_n: 0, lost_slots: ACQUIRE_TRIGGER_SLOTS, acquiring: false }
    }

    pub fn is_locked(&self) -> (r: bool)
        ensures
            r == (self@.best_n > 0),
    {
        self.best_n > 0
    }

    pub fn best_n(&self) -> (r: usize)
        ensures
            r == self@.best_n,
    {
        self.best_n
    }

    pub fn lost_slots(&self) -> (r: u32)
        ensures
            r == self@.lost_slots,
    {
        self.lost_slots
    }

    /// Fold in one slot's decode count.
    pub fn observe(&mut self, n_dec: usize) -> (r: GridAction)
        requires
            old(self)@.lost_slots < u32::MAX,
        ensures
            r == action(old(self)@, n_dec as nat, true, true),
            final(self)@ == after_slot(old(self)@, n_dec as nat, true, true),
    {
        self.observe_with_phase(n_dec, None)
    }

    /// [`Self::observe`] with the slot's measured phase error in
    /// microseconds, when there is one.
    pub fn observe_with_phase(&mut self, n_dec: usize, phase_err_us: Option<i32>) -> (r: GridAction)
        requires
            old(self)@.lost_slots < u32::MAX,
        ensures
            r == action(old(self)@, n_dec as nat, centred(phase_err_us), true),
            final(self)@ == after_slot(old(self)@, n_dec as nat, centred(phase_err_us), true),
    {
        self.observe_slot(n_dec, phase_err_us, true)
    }

    /// [`Self::observe_with_phase`] told whether the slot carried a signal
    /// that the decoder could not read. A slot with no signal is no evidence
    /// about the grid either way.
    pub fn observe_slot(
        &mut self,
        n_dec: usize,
        phase_err_us: Option<i32>,
        had_signal: bool,
    ) -> (r: GridAction)
        requires
            old(self)@.lost_slots < u32::MAX,
        ensures
            r == action(old(self)@, n_dec as nat, centred(phase_err_us), had_signal),
            final(self)@ == after_slot(
                old(self)@,
                n_dec as nat,
                centred(phase_err_us),
                had_signal,
            ),
    {
        let was_locked = self.is_locked();
        let phase_ok = match phase_err_us {
            Some(e) => -LOCK_MAX_PHASE_US <= e && e <= LOCK_MAX_PHASE_US,
            None => true,
        };
        let good = n_dec >= LOCK_MIN_DECODES && phase_ok;
        if good && n_dec > self.best_n {
            self.best_n = n_dec;
        }
        let below = if was_locked {
            n_dec == 0
        } else {
            !good
        };
        if below {
            if had_signal {
                self.lost_slots = self.lost_slots + 1;
            }
        } else {
            self.lost_slots = 0;
        }
        if good && !was_locked {
            return GridAction::Lock { n_dec };
        }
        let trigger: u32 = if was_locked {
            REACQUIRE_TRIGGER_SLOTS
        } else {
            ACQUIRE_TRIGGER_SLOTS
        };
        if self.lost_slots >= trigger && !self.acquiring {
            self.acquiring = true;
            if was_locked {
                self.best_n = 0;
            }
            return GridAction::Acquire { slots: self.lost_slots, relock: was_locked };
        }
        GridAction::Hold
    }

    /// The acquisition in flight is over. When a phase was applied the
    /// under-par run starts over: the grid just moved.
    pub fn acquisition_done(&mut self, applied: bool)
        ensures
            final(self)@ == (GridView {
                best_n: old(self)@.best_n,
                lost_slots: if applied {
                    0
                } else {
                    old(self)@.lost_slots
                },
                acquiring: false,
            }),
    {
        self.acquiring = false;
        if applied {
            self.lost_slots = 0;
        }
    }

    pub fn is_acquiring(&self) -> (r: bool)
        ensures
            r == self@.acquiring,
    {
        self.acquiring
    }
}

impl Default for GridState {
    fn default() -> (r: Self)
        ensures
            r@ == (GridView { best_n: 0, lost_slots: 0, acquiring: false }),
    {
        GridState::new()
    }
}

// ── Laws ────────────────────────────────────────────────────────────────────

/// While an acquisition is in flight no second one is asked for.
pub proof fn law_one_acquisition_at_a_time(
    g: GridView,
    n_dec: nat,
    centred: bool,
    had_signal: bool,
)
    requires
        g.acquiring,
    ensures
        action(g, n_dec, centred, had_signal) !is Acquire,
        after_slot(g, n_dec, centred, had_signal).acquiring,
{
}

/// The state after `k` slots in a row with the same outcome.
pub open spec fn after_slots(
    g: GridView,
    n_dec: nat,
    centred: bool,
    had_signal: bool,
    k: nat,
) -> GridView
    decreases k,
{
    if k == 0 {
        g
    } else {
        after_slot(
            after_slots(g, n_dec, centred, had_signal, (k - 1) as nat),
            n_dec,
            centred,
            had_signal,
        )
    }
}

/// An unlocked grid that is not acquiring starts to on its first under-par
/// slot with a signal: no run of such slots is silent.
pub proof fn law_under_par_leads_to_acquisition(g: GridView, n_dec: nat, centred: bool)
    requires
        g.best_n == 0,
        !g.acquiring,
        !good_slot(n_dec, centred),
    ensures
        action(g, n_dec, centred, true) == (GridAction::Acquire {
            slots: (g.lost_slots + 1) as u32,
            relock: false,
        }),
        after_slot(g, n_dec, centred, true).acquiring,
{
}

/// A locked grid at rest holds through five silent slots and is given up on
/// the sixth.
pub proof fn law_locked_grid_rides_out_silence(g: GridView, k: nat)
    requires
        g.best_n > 0,
        g.lost_slots == 0,
        !g.acquiring,
        k < REACQUIRE_TRIGGER_SLOTS,
    ensures
        after_slots(g, 0, true, true, k) == (GridView {
            best_n: g.best_n,
            lost_slots: k,
            acquiring: false,
        }),
        action(after_slots(g, 0, true, true, k), 0, true, true) == if k + 1
            < REACQUIRE_TRIGGER_SLOTS {
            GridAction::Hold
        } else {
            GridAction::Acquire { slots: REACQUIRE_TRIGGER_SLOTS, relock: true }
        },
    decreases k,
{
    if k > 0 {
        law_locked_grid_rides_out_silence(g, (k - 1) as nat);
    }
}

/// Any decode at all keeps a lock, for however many slots.
pub proof fn law_lock_holds_while_decoding(
    g: GridView,
    n_dec: nat,
    centred: bool,
    had_signal: bool,
)
    requires
        g.best_n > 0,
        n_dec > 0,
    ensures
        action(g, n_dec, centred, had_signal) is Hold,
        after_slot(g, n_dec, centred, had_signal).best_n >= g.best_n,
        after_slot(g, n_dec, centred, had_signal).lost_slots == 0,
{
}

/// A slot that carried no signal and decoded nothing changes nothing, and
/// asks for nothing that was not already due.
pub proof fn law_quiet_slot_is_no_evidence(g: GridView, centred: bool)
    requires
        g.lost_slots < (if g.best_n > 0 {
            REACQUIRE_TRIGGER_SLOTS
        } else {
            ACQUIRE_TRIGGER_SLOTS
        }),
    ensures
        action(g, 0, centred, false) is Hold,
        after_slot(g, 0, centred, false) == g,
{
}

/// An off-centre slot never locks an unlocked grid, however many stations
/// decoded.
pub proof fn law_off_centre_does_not_lock(g: GridView, n_dec: nat, had_signal: bool)
    requires
        g.best_n == 0,
    ensures
        action(g, n_dec, false, had_signal) !is Lock,
        after_slot(g, n_dec, false, had_signal).best_n == 0,
{
}

/// A grid locks on three stations decoded within three tenths of a second,
/// or with no phase measured, and on nothing less.
pub proof fn law_a_lock_takes_three_near_the_middle(
    g: GridView,
    n_dec: nat,
    phase_err_us: Option<i32>,
    had_signal: bool,
)
    requires
        n_dec <= usize::MAX,
    ensures
        (action(g, n_dec, centred(phase_err_us), had_signal) is Lock) == (g.best_n == 0 && n_dec
            >= 3 && (phase_err_us is None || -300_000 <= phase_err_us->0 <= 300_000)),
        action(g, n_dec, centred(phase_err_us), had_signal) matches GridAction::Lock { n_dec: n }
            ==> n == n_dec && after_slot(g, n_dec, centred(phase_err_us), had_signal).best_n
            == n_dec,
{
}

/// A lock remembers the most stations that a slot of it decoded near the
/// middle, and forgets them when it is given up.
pub proof fn law_a_lock_remembers_its_best(
    g: GridView,
    n_dec: nat,
    is_centred: bool,
    had_signal: bool,
)
    requires
        g.best_n > 0,
    ensures
        ({
            let a = after_slot(g, n_dec, is_centred, had_signal);
            &&& action(g, n_dec, is_centred, had_signal) is Acquire ==> a.best_n == 0
                && action(g, n_dec, is_centred, had_signal)->relock
            &&& action(g, n_dec, is_centred, had_signal) !is Acquire ==> a.best_n >= g.best_n
                && (a.best_n == g.best_n || a.best_n == n_dec)
            &&& n_dec >= 3 && is_centred ==> a.best_n >= n_dec
            &&& !is_centred || n_dec < 3 ==> a.best_n <= g.best_n
        }),
{
}

/// Slots count against the grid only when they carried a signal, one each;
/// a slot that decodes as it should ends the run.
pub proof fn law_only_signals_count(g: GridView, n_dec: nat, is_centred: bool, had_signal: bool)
    ensures
        ({
            let run = after_slot(g, n_dec, is_centred, had_signal).lost_slots;
            &&& run == 0 || run == g.lost_slots || run == g.lost_slots + 1
            &&& run == g.lost_slots + 1 ==> had_signal
            &&& n_dec == 0 ==> run == g.lost_slots + (if had_signal {
                1int
            } else {
                0
            })
            &&& n_dec >= 3 && is_centred ==> run == 0
            &&& g.best_n == 0 && n_dec < 3 && had_signal ==> run == g.lost_slots + 1
            &&& g.best_n == 0 && !is_centred && had_signal ==> run == g.lost_slots + 1
        }),
{
}

}
