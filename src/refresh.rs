//! The decisions of the refresh worker: one load at start-up, reported back
//! once, then a reload after each interval while the interval is positive.

use vstd::prelude::*;

verus! {

/// Where the worker stands.
#[derive(Clone, Copy, Debug, PartialEq, Eq, Structural)]
pub enum Phase {
    Uninitialized,
    Loading,
    Ready,
    Refreshing,
    Failed,
}

/// What happened.
#[derive(Clone, Copy, Debug, PartialEq, Eq, Structural)]
pub enum Event {
    /// The worker was started.
    Start,
    /// A load built an index.
    Loaded,
    /// A load failed.
    LoadFailed,
    /// The refresh interval went by.
    Tick,
}

/// What the worker does next.
#[derive(Clone, Copy, Debug, PartialEq, Eq, Structural)]
pub enum Action {
    /// Read the documents and build an index.
    Load,
    /// Install the new index and report start-up success.
    InstallAndReport,
    /// Report start-up failure and stop.
    ReportFailure,
    /// Install the new index, then wait for the next tick.
    InstallAndWait,
    /// Keep the index there is, then wait for the next tick.
    KeepAndWait,
    /// Wait for the next tick.
    Wait,
    /// Nothing more to do.
    Stop,
}

/// The next phase and action of the worker after `event` in `phase`, with
/// the refresh interval `interval_secs` (zero: no refresh).
pub fn step(phase: Phase, event: Event, interval_secs: u32) -> (r: (Phase, Action))
    ensures
        phase == Phase::Uninitialized && event == Event::Start ==> r == (Phase::Loading, Action::Load),
        phase == Phase::Loading && event == Event::Loaded ==> r == (
        Phase::Ready,
        Action::InstallAndReport,
        ),
        phase == Phase::Loading && event == Event::LoadFailed ==> r == (
        Phase::Failed,
        Action::ReportFailure,
        ),
        phase == Phase::Ready && event == Event::Tick ==> r == if interval_secs > 0 {
            (Phase::Refreshing, Action::Load)
        } else {
            (Phase::Ready, Action::Stop)
        },
        phase == Phase::Refreshing && event == Event::Loaded ==> r == (
        Phase::Ready,
        Action::InstallAndWait,
        ),
        phase == Phase::Refreshing && event == Event::LoadFailed ==> r == (
        Phase::Ready,
        Action::KeepAndWait,
        ),
        phase == Phase::Failed ==> r == (Phase::Failed, Action::Stop),
        r.0 == Phase::Failed ==> phase == Phase::Failed || phase == Phase::Loading,
        !(phase == Phase::Uninitialized && event == Event::Start) && !(phase == Phase::Loading && (
        event == Event::Loaded || event == Event::LoadFailed)) && !(phase == Phase::Ready && event
            == Event::Tick) && !(phase == Phase::Refreshing && (event == Event::Loaded || event
            == Event::LoadFailed)) && phase != Phase::Failed ==> r == (phase, Action::Wait),
{
    match (phase, event) {
        (Phase::Uninitialized, Event::Start) => (Phase::Loading, Action::Load),
        (Phase::Loading, Event::Loaded) => (Phase::Ready, Action::InstallAndReport),
        (Phase::Loading, Event::LoadFailed) => (Phase::Failed, Action::ReportFailure),
        (Phase::Ready, Event::Tick) => {
            if interval_secs > 0 {
                (Phase::Refreshing, Action::Load)
            } else {
                (Phase::Ready, Action::Stop)
            }
        },
        (Phase::Refreshing, Event::Loaded) => (Phase::Ready, Action::InstallAndWait),
        (Phase::Refreshing, Event::LoadFailed) => (Phase::Ready, Action::KeepAndWait),
        (Phase::Failed, _) => (Phase::Failed, Action::Stop),
        (p, _) => (p, Action::Wait),
    }
}

} // verus!
