use vstd::prelude::*;

verus! {

/// State of the SPF delay algorithm.
#[derive(Clone, Copy, Debug, PartialEq, Eq, Structural)]
pub enum SpfState {
    Quiet,
    ShortWait,
    LongWait,
}

/// Input of the SPF delay algorithm.
#[derive(Clone, Copy, Debug, PartialEq, Eq, Structural)]
pub enum SpfEvent {
    /// A topology change that calls for an SPF run.
    Igp,
    /// The SPF delay timer fired.
    DelayTimer,
    /// The hold-down timer fired.
    HoldDownTimer,
    /// The time-to-learn timer fired.
    LearnTimer,
}

/// Durations, in milliseconds, that drive the SPF delay algorithm.
#[derive(Clone, Copy, Debug, PartialEq, Eq, Structural)]
pub struct SpfDelayCfg {
    pub initial_delay: u32,
    pub short_delay: u32,
    pub long_delay: u32,
    pub hold_down: u32,
    pub time_to_learn: u32,
}

/// State and timers of the SPF delay algorithm. A timer is `Some(d)` while
/// it is armed, `d` being the duration it was (re)started with; restarting a
/// timer replaces the pending one.
#[derive(Clone, Copy, Debug, PartialEq, Eq, Structural)]
pub struct SpfDelay {
    pub state: SpfState,
    pub delay_timer: Option<u32>,
    pub hold_down_timer: Option<u32>,
    pub learn_timer: Option<u32>,
}

/// The idle algorithm: quiet, no timer armed.
pub open spec fn spf_quiet() -> SpfDelay {
    SpfDelay { state: SpfState::Quiet, delay_timer: None, hold_down_timer: None, learn_timer: None }
}

/// What happens to one timer in a transition.
#[derive(Clone, Copy, Debug, PartialEq, Eq, Structural)]
pub enum TimerAction {
    /// Left as it is: a pending timer keeps its expiry.
    Keep,
    /// (Re)started with this duration, cancelling a pending one.
    Start(u32),
    /// Cancelled, so that a stale expiry never fires.
    Cancel,
}

/// What a transition does to each of the three timers.
#[derive(Clone, Copy, Debug, PartialEq, Eq, Structural)]
pub struct SpfTimerActions {
    pub delay: TimerAction,
    pub hold_down: TimerAction,
    pub learn: TimerAction,
}

/// One transition of the SPF delay algorithm: the next state and whether an
/// SPF run is due now. `pending` tells whether LSA changes are waiting for
/// a run.
pub open spec fn spf_step(d: SpfDelay, ev: SpfEvent, cfg: SpfDelayCfg, pending: bool) -> (SpfDelay, bool) {
    match ev {
        SpfEvent::Igp => match d.state {
            SpfState::Quiet => (
                SpfDelay {
                    state: SpfState::ShortWait,
                    delay_timer: Some(cfg.initial_delay),
                    hold_down_timer: Some(cfg.hold_down),
                    learn_timer: Some(cfg.time_to_learn),
                },
                false,
            ),
            SpfState::ShortWait => (
                SpfDelay {
                    delay_timer: if d.delay_timer is None { Some(cfg.short_delay) } else { d.delay_timer },
                    hold_down_timer: Some(cfg.hold_down),
                    ..d
                },
                false,
            ),
            SpfState::LongWait => (
                SpfDelay {
                    delay_timer: if d.delay_timer is None { Some(cfg.long_delay) } else { d.delay_timer },
                    hold_down_timer: Some(cfg.hold_down),
                    ..d
                },
                false,
            ),
        },
        SpfEvent::DelayTimer => (SpfDelay { delay_timer: None, ..d }, true),
        SpfEvent::HoldDownTimer => match d.state {
            SpfState::Quiet => (SpfDelay { hold_down_timer: None, ..d }, false),
            _ => if pending {
                (
                    SpfDelay {
                        state: SpfState::ShortWait,
                        delay_timer: if d.delay_timer is None { Some(cfg.short_delay) } else { d.delay_timer },
                        hold_down_timer: Some(cfg.hold_down),
                        learn_timer: Some(cfg.time_to_learn),
                    },
                    false,
                )
            } else {
                (
                    SpfDelay { state: SpfState::Quiet, hold_down_timer: None, learn_timer: None, ..d },
                    false,
                )
            },
        },
        SpfEvent::LearnTimer => match d.state {
            SpfState::ShortWait => (
                SpfDelay {
                    state: SpfState::LongWait,
                    delay_timer: if d.delay_timer is Some { Some(cfg.long_delay) } else { None },
                    learn_timer: None,
                    ..d
                },
                false,
            ),
            _ => (SpfDelay { learn_timer: None, ..d }, false),
        },
    }
}

/// The timer actions of the transition `spf_step` describes.
pub open spec fn spf_actions(d: SpfDelay, ev: SpfEvent, cfg: SpfDelayCfg, pending: bool) -> SpfTimerActions {
    let keep = TimerAction::Keep;
    match ev {
        SpfEvent::Igp => match d.state {
            SpfState::Quiet => SpfTimerActions {
                delay: TimerAction::Start(cfg.initial_delay),
                hold_down: TimerAction::Start(cfg.hold_down),
                learn: TimerAction::Start(cfg.time_to_learn),
            },
            SpfState::ShortWait => SpfTimerActions {
                delay: if d.delay_timer is None { TimerAction::Start(cfg.short_delay) } else { keep },
                hold_down: TimerAction::Start(cfg.hold_down),
                learn: keep,
            },
            SpfState::LongWait => SpfTimerActions {
                delay: if d.delay_timer is None { TimerAction::Start(cfg.long_delay) } else { keep },
                hold_down: TimerAction::Start(cfg.hold_down),
                learn: keep,
            },
        },
        SpfEvent::DelayTimer => SpfTimerActions { delay: TimerAction::Cancel, hold_down: keep, learn: keep },
        SpfEvent::HoldDownTimer => match d.state {
            SpfState::Quiet => SpfTimerActions { delay: keep, hold_down: TimerAction::Cancel, learn: keep },
            _ => if pending {
                SpfTimerActions {
                    delay: if d.delay_timer is None { TimerAction::Start(cfg.short_delay) } else { keep },
                    hold_down: TimerAction::Start(cfg.hold_down),
                    learn: TimerAction::Start(cfg.time_to_learn),
                }
            } else {
                SpfTimerActions { delay: keep, hold_down: TimerAction::Cancel, learn: TimerAction::Cancel }
            },
        },
        SpfEvent::LearnTimer => match d.state {
            SpfState::ShortWait => SpfTimerActions {
                delay: if d.delay_timer is Some { TimerAction::Start(cfg.long_delay) } else { keep },
                hold_down: keep,
                learn: TimerAction::Cancel,
            },
            _ => SpfTimerActions { delay: keep, hold_down: keep, learn: TimerAction::Cancel },
        },
    }
}

/// Runs the algorithm over a sequence of events, with `pending` telling
/// whether changes wait for a run at each step: the final state and the
/// number of SPF runs it called for.
pub open spec fn spf_steps(d: SpfDelay, evs: Seq<SpfEvent>, cfg: SpfDelayCfg, pending: bool) -> (SpfDelay, nat)
    decreases evs.len(),
{
    if evs.len() == 0 {
        (d, 0)
    } else {
        let (d1, n) = spf_steps(d, evs.drop_last(), cfg, pending);
        let (d2, run) = spf_step(d1, evs.last(), cfg, pending);
        (d2, if run { n + 1 } else { n })
    }
}

impl SpfDelay {
    pub fn new() -> (r: SpfDelay)
        ensures
            r == spf_quiet(),
    {
        SpfDelay { state: SpfState::Quiet, delay_timer: None, hold_down_timer: None, learn_timer: None }
    }

    /// Feeds one event to the algorithm, `pending` telling whether LSA
    /// changes wait for a run. Returns whether SPF must run now, and what
    /// to do with each timer.
    pub fn fsm(&mut self, ev: SpfEvent, cfg: &SpfDelayCfg, pending: bool) -> (r: (bool, SpfTimerActions))
        ensures
            (*final(self), r.0) == spf_step(*old(self), ev, *cfg, pending),
            r.1 == spf_actions(*old(self), ev, *cfg, pending),
    {
        let keep = TimerAction::Keep;
        match ev {
            SpfEvent::Igp => {
                let was_quiet = self.state == SpfState::Quiet;
                let delay = match self.state {
                    SpfState::Quiet => {
                        self.state = SpfState::ShortWait;
                        self.delay_timer = Some(cfg.initial_delay);
                        self.learn_timer = Some(cfg.time_to_learn);
                        TimerAction::Start(cfg.initial_delay)
                    },
                    SpfState::ShortWait => {
                        if self.delay_timer.is_none() {
                            self.delay_timer = Some(cfg.short_delay);
                            TimerAction::Start(cfg.short_delay)
                        } else {
                            keep
                        }
                    },
                    SpfState::LongWait => {
                        if self.delay_timer.is_none() {
                            self.delay_timer = Some(cfg.long_delay);
                            TimerAction::Start(cfg.long_delay)
                        } else {
                            keep
                        }
                    },
                };
                let learn = if was_quiet { TimerAction::Start(cfg.time_to_learn) } else { keep };
                self.hold_down_timer = Some(cfg.hold_down);
                (false, SpfTimerActions { delay, hold_down: TimerAction::Start(cfg.hold_down), learn })
            },
            SpfEvent::DelayTimer => {
                self.delay_timer = None;
                (true, SpfTimerActions { delay: TimerAction::Cancel, hold_down: keep, learn: keep })
            },
            SpfEvent::HoldDownTimer => {
                if self.state == SpfState::Quiet {
                    self.hold_down_timer = None;
                    (false, SpfTimerActions { delay: keep, hold_down: TimerAction::Cancel, learn: keep })
                } else if pending {
                    self.state = SpfState::ShortWait;
                    let delay = if self.delay_timer.is_none() {
                        self.delay_timer = Some(cfg.short_delay);
                        TimerAction::Start(cfg.short_delay)
                    } else {
                        keep
                    };
                    self.hold_down_timer = Some(cfg.hold_down);
                    self.learn_timer = Some(cfg.time_to_learn);
                    (false, SpfTimerActions {
                        delay,
                        hold_down: TimerAction::Start(cfg.hold_down),
                        learn: TimerAction::Start(cfg.time_to_learn),
                    })
                } else {
                    self.state = SpfState::Quiet;
                    self.hold_down_timer = None;
                    self.learn_timer = None;
                    (false, SpfTimerActions { delay: keep, hold_down: TimerAction::Cancel, learn: TimerAction::Cancel })
                }
            },
            SpfEvent::LearnTimer => {
                let mut delay = keep;
                if self.state == SpfState::ShortWait {
                    self.state = SpfState::LongWait;
                    if self.delay_timer.is_some() {
                        self.delay_timer = Some(cfg.long_delay);
                        delay = TimerAction::Start(cfg.long_delay);
                    }
                }
                self.learn_timer = None;
                (false, SpfTimerActions { delay, hold_down: keep, learn: TimerAction::Cancel })
            },
        }
    }
}

/// A burst of triggers: `k` topology changes in a row, none separated by a
/// timer expiry.
pub open spec fn igp_burst(k: nat) -> Seq<SpfEvent> {
    Seq::new(k, |i: int| SpfEvent::Igp)
}

proof fn lemma_burst_from_quiet(k: nat, cfg: SpfDelayCfg, pending: bool)
    requires
        k >= 1,
    ensures
        spf_steps(spf_quiet(), igp_burst(k), cfg, pending).1 == 0,
        spf_steps(spf_quiet(), igp_burst(k), cfg, pending).0.state == SpfState::ShortWait,
        spf_steps(spf_quiet(), igp_burst(k), cfg, pending).0.delay_timer == Some(cfg.initial_delay),
    decreases k,
{
    assert(igp_burst(k).drop_last() =~= igp_burst((k - 1) as nat));
    if k > 1 {
        lemma_burst_from_quiet((k - 1) as nat, cfg, pending);
    } else {
        assert(igp_burst(0) =~= Seq::<SpfEvent>::empty());
    }
}

/// Damping law: starting quiet, a burst of `k >= 1` triggers arms the delay
/// timer once, with the initial delay, and the delay timer's expiry then runs
/// SPF exactly once for the whole burst.
pub proof fn lemma_spf_burst_runs_once(k: nat, cfg: SpfDelayCfg, pending: bool)
    requires
        k >= 1,
    ensures
        spf_steps(spf_quiet(), igp_burst(k), cfg, pending).1 == 0,
        spf_steps(spf_quiet(), igp_burst(k), cfg, pending).0.delay_timer == Some(cfg.initial_delay),
        spf_steps(spf_quiet(), igp_burst(k).push(SpfEvent::DelayTimer), cfg, pending).1 == 1,
{
    lemma_burst_from_quiet(k, cfg, pending);
    assert(igp_burst(k).push(SpfEvent::DelayTimer).drop_last() =~= igp_burst(k));
}

/// Escalation law: when instability outlasts the time-to-learn while waiting
/// with the short delay, the algorithm moves to the long wait and a pending
/// delay timer restarts with the long delay; after the SPF run, the next
/// trigger arms the delay timer with the long delay too.
pub proof fn lemma_spf_escalates(d: SpfDelay, cfg: SpfDelayCfg, pending: bool)
    requires
        d.state == SpfState::ShortWait,
    ensures
        d.delay_timer is Some ==> spf_step(d, SpfEvent::LearnTimer, cfg, pending).0.delay_timer == Some(cfg.long_delay),
        d.delay_timer is Some ==> spf_actions(d, SpfEvent::LearnTimer, cfg, pending).delay
            == TimerAction::Start(cfg.long_delay),
        ({
            let evs = seq![SpfEvent::LearnTimer, SpfEvent::DelayTimer, SpfEvent::Igp];
            let (d2, runs) = spf_steps(d, evs, cfg, pending);
            &&& d2.state == SpfState::LongWait
            &&& d2.delay_timer == Some(cfg.long_delay)
            &&& runs == 1
        }),
{
    let evs = seq![SpfEvent::LearnTimer, SpfEvent::DelayTimer, SpfEvent::Igp];
    assert(evs.drop_last() =~= seq![SpfEvent::LearnTimer, SpfEvent::DelayTimer]);
    assert(evs.drop_last().drop_last() =~= seq![SpfEvent::LearnTimer]);
    assert(evs.drop_last().drop_last().drop_last() =~= Seq::<SpfEvent>::empty());
    reveal_with_fuel(spf_steps, 4);
}

} // verus!
