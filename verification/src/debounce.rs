//! Debounce scheduler: coalesces repeated write-intent signals into a single
//! deferred write.
//!
//! The scheduler is a two-state machine driven by two kinds of input: a
//! write-intent signal and the expiry of the debounce timer. While idle it
//! waits for the first signal; while a write is pending, every new signal
//! restarts the timer, and only when the timer runs out undisturbed does the
//! write fire and the machine return to idle. The caller runs the timer and
//! performs the write; [`step`] decides everything else.

use vstd::prelude::*;

verus! {

/// Whether a write is currently owed.
#[derive(Clone, Copy, PartialEq, Eq, Structural, Debug)]
pub enum DebounceState {
    /// No write is owed; waiting for the first signal.
    Idle,
    /// A write is owed; the debounce timer is running.
    Pending,
}

/// What the scheduler reacts to.
#[derive(Clone, Copy, PartialEq, Eq, Structural, Debug)]
pub enum DebounceInput {
    /// A write-intent signal arrived.
    Signal,
    /// The debounce timer ran out without interruption.
    Elapsed,
}

/// What the caller must do after a transition.
#[derive(Clone, Copy, PartialEq, Eq, Structural, Debug)]
pub enum DebounceAction {
    /// Do nothing.
    Nothing,
    /// (Re)start the debounce timer from zero.
    StartTimer,
    /// Perform the coalesced write now.
    Write,
}

/// The transition function of the scheduler, as a spec-level definition.
pub open spec fn spec_step(state: DebounceState, input: DebounceInput) -> (DebounceState, DebounceAction) {
    match (state, input) {
        (DebounceState::Idle, DebounceInput::Signal) => (DebounceState::Pending, DebounceAction::StartTimer),
        (DebounceState::Pending, DebounceInput::Signal) => (DebounceState::Pending, DebounceAction::StartTimer),
        (DebounceState::Pending, DebounceInput::Elapsed) => (DebounceState::Idle, DebounceAction::Write),
        (DebounceState::Idle, DebounceInput::Elapsed) => (DebounceState::Idle, DebounceAction::Nothing),
    }
}

/// Advance the scheduler by one input: a signal always leaves a write owed and
/// restarts the timer; an undisturbed timer expiry discharges the owed write.
pub fn step(state: DebounceState, input: DebounceInput) -> (r: (DebounceState, DebounceAction))
    ensures
        r == spec_step(state, input),
{
    match (state, input) {
        (DebounceState::Idle, DebounceInput::Signal) => (DebounceState::Pending, DebounceAction::StartTimer),
        (DebounceState::Pending, DebounceInput::Signal) => (DebounceState::Pending, DebounceAction::StartTimer),
        (DebounceState::Pending, DebounceInput::Elapsed) => (DebounceState::Idle, DebounceAction::Write),
        (DebounceState::Idle, DebounceInput::Elapsed) => (DebounceState::Idle, DebounceAction::Nothing),
    }
}

/// The timed semantics of the scheduler loop over a non-decreasing sequence
/// of signal instants: a signal starts or restarts the timer, and a write
/// fires one debounce window after a signal exactly when no further signal
/// arrives inside that window.
pub open spec fn spec_write_times(signals: Seq<int>, debounce: int) -> Seq<int>
    decreases signals.len(),
{
    if signals.len() == 0 {
        Seq::empty()
    } else if signals.len() == 1 {
        seq![signals[0] + debounce]
    } else if signals[1] >= signals[0] + debounce {
        seq![signals[0] + debounce] + spec_write_times(signals.drop_first(), debounce)
    } else {
        spec_write_times(signals.drop_first(), debounce)
    }
}

/// Debounce coalescing (law): any number of signals, each arriving within a
/// debounce window of the one before, produce exactly one write, one window
/// after the last signal. A single signal is the special case of one call
/// followed by silence.
pub proof fn lemma_debounce_coalesces(signals: Seq<int>, debounce: int)
    requires
        signals.len() >= 1,
        forall|i: int|
            0 <= i < signals.len() - 1 ==> signals[i] <= #[trigger] signals[i + 1] < signals[i]
                + debounce,
    ensures
        spec_write_times(signals, debounce) == seq![signals[signals.len() - 1] + debounce],
    decreases signals.len(),
{
    if signals.len() == 1 {
        assert(spec_write_times(signals, debounce) =~= seq![signals[0] + debounce]);
    } else {
        let t = signals.drop_first();
        let i0: int = 0;
        assert(signals[i0 + 1] < signals[i0] + debounce);
        assert forall|i: int|
            0 <= i < t.len() - 1 implies t[i] <= #[trigger] t[i + 1] < t[i] + debounce by {
            assert(t[i] == signals[i + 1]);
            assert(t[i + 1] == signals[i + 2]);
        }
        lemma_debounce_coalesces(t, debounce);
        assert(t[t.len() - 1] == signals[signals.len() - 1]);
    }
}

/// Views of a sequence of machine integers.
pub open spec fn ints_view(v: Seq<u64>) -> Seq<int> {
    v.map_values(|x: u64| x as int)
}

/// Computes the write instants for a non-decreasing sequence of signal
/// instants, as [`spec_write_times`] describes.
pub fn compute_write_times(signals: &Vec<u64>, debounce: u64) -> (out: Vec<u64>)
    requires
        forall|i: int| 0 <= i < signals@.len() ==> #[trigger] signals@[i] + debounce <= u64::MAX,
    ensures
        ints_view(out@) == spec_write_times(ints_view(signals@), debounce as int),
{
    let ghost sv = ints_view(signals@);
    let n = signals.len();
    let mut out: Vec<u64> = Vec::new();
    let mut i: usize = 0;
    proof {
        assert(sv.skip(0) =~= sv);
    }
    while i < n
        invariant
            i <= n,
            n == signals@.len(),
            sv == ints_view(signals@),
            forall|j: int| 0 <= j < signals@.len() ==> #[trigger] signals@[j] + debounce
                <= u64::MAX,
            ints_view(out@) + spec_write_times(sv.skip(i as int), debounce as int)
                =~= spec_write_times(sv, debounce as int),
        decreases n - i,
    {
        let ghost pre = out@;
        let ghost rest = sv.skip(i as int);
        proof {
            assert(rest[0] == sv[i as int]);
            if i + 1 < n {
                assert(rest[1] == sv[i + 1]);
                assert(rest.drop_first() =~= sv.skip(i + 1));
            }
        }
        if i + 1 >= n || signals[i + 1] >= signals[i] + debounce {
            out.push(signals[i] + debounce);
            proof {
                assert(ints_view(out@) =~= ints_view(pre).push(sv[i as int] + debounce));
                if i + 1 >= n {
                    assert(rest.len() == 1);
                    assert(spec_write_times(rest, debounce as int) == seq![
                        sv[i as int] + debounce,
                    ]);
                    assert(sv.skip(i + 1) =~= Seq::<int>::empty());
                } else {
                    assert(spec_write_times(rest, debounce as int) == seq![
                        sv[i as int] + debounce,
                    ] + spec_write_times(sv.skip(i + 1), debounce as int));
                }
                assert(ints_view(out@) + spec_write_times(sv.skip(i + 1), debounce as int)
                    =~= spec_write_times(sv, debounce as int));
            }
        } else {
            proof {
                assert(spec_write_times(rest, debounce as int) == spec_write_times(
                    sv.skip(i + 1),
                    debounce as int,
                ));
            }
        }
        i = i + 1;
    }
    proof {
        assert(sv.skip(n as int) =~= Seq::<int>::empty());
        assert(ints_view(out@) =~= spec_write_times(sv, debounce as int));
    }
    out
}

} // verus!
