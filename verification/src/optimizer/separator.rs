//! The separation loop: moving items until no collision is left, or until nothing helps any more.
use crate::scalar::Scalar;
use vstd::prelude::*;

verus! {

/// How many placements a worker samples for one item.
#[derive(Debug, Clone, Copy, PartialEq, Eq, Structural)]
pub struct SampleConfig {
    /// Samples from the whole container.
    pub n_container_samples: usize,
    /// Samples around the current placement.
    pub n_focussed_samples: usize,
    /// Best samples that are refined by coordinate descent.
    pub n_coord_descents: usize,
}

/// Limits of a separation.
#[derive(Debug, Clone, Copy, PartialEq, Eq, Structural)]
pub struct SeparatorConfig {
    /// Iterations without improvement after which a strike ends.
    pub iter_no_imprv_limit: usize,
    /// Strikes without substantial improvement after which the separation gives up.
    pub strike_limit: usize,
    /// Workers that move items in parallel.
    pub n_workers: usize,
    /// How a worker samples.
    pub sample_config: SampleConfig,
}

impl SeparatorConfig {
    /// The same settings with limits raised to at least the given ones, for a repair that has to
    /// be patient.
    pub fn patient(self, strike_limit: usize, iter_no_imprv_limit: usize) -> (r: SeparatorConfig)
        ensures
            r == (SeparatorConfig {
                strike_limit: if self.strike_limit >= strike_limit {
                    self.strike_limit
                } else {
                    strike_limit
                },
                iter_no_imprv_limit: if self.iter_no_imprv_limit >= iter_no_imprv_limit {
                    self.iter_no_imprv_limit
                } else {
                    iter_no_imprv_limit
                },
                ..self
            }),
    {
        SeparatorConfig {
            strike_limit: if self.strike_limit >= strike_limit {
                self.strike_limit
            } else {
                strike_limit
            },
            iter_no_imprv_limit: if self.iter_no_imprv_limit >= iter_no_imprv_limit {
                self.iter_no_imprv_limit
            } else {
                iter_no_imprv_limit
            },
            n_workers: self.n_workers,
            sample_config: self.sample_config,
        }
    }
}

/// What a separation waits for.
#[derive(Debug, Clone, Copy, PartialEq, Eq, Structural)]
pub enum SeparationStage {
    /// A poll before the next strike.
    Strike,
    /// A poll before the next iteration.
    Iteration,
    /// The loss after an iteration.
    Moving,
    /// The verdict on a strike.
    Judging,
    /// Nothing: the separation is over.
    Done,
}

/// Progress of a separation.
#[derive(Debug, Clone, Copy, PartialEq, Eq, Structural)]
pub struct Separation {
    /// The limits.
    pub config: SeparatorConfig,
    /// What it waits for.
    pub stage: SeparationStage,
    /// Strikes in a row without substantial improvement.
    pub n_strikes: usize,
    /// Iterations in a row without improvement, in the current strike.
    pub n_no_improvement: usize,
    /// Loss at the start of the current strike.
    pub initial_strike_loss: Scalar,
    /// Lowest loss so far, as long as it is not zero.
    pub min_loss: Scalar,
    /// Every collision is resolved in the saved state.
    pub separated: bool,
}

/// What the engine reports to a separation.
#[derive(Debug, Clone, Copy, PartialEq, Eq, Structural)]
pub enum SeparationEvent {
    /// Whether the time is up, and the current total loss.
    Poll {
        /// The separation has to stop.
        killed: bool,
        /// Current total loss.
        loss: Scalar,
    },
    /// All colliding items were moved once.
    Moved {
        /// Total loss afterwards.
        loss: Scalar,
        /// The loss below which the improvement is substantial: a fixed fraction of `min_loss`.
        bar: Scalar,
    },
    /// The bar of the strike: a fixed fraction of `initial_strike_loss`.
    Judged {
        /// The loss below which the strike was a substantial improvement.
        bar: Scalar,
    },
}

/// What the engine has to do next in a separation.
#[derive(Debug, Clone, Copy, PartialEq, Eq, Structural)]
pub enum SeparationAction {
    /// Poll.
    Poll,
    /// Move all colliding items once.
    Move,
    /// Save the state, update the weights, then poll.
    SaveAndReweigh,
    /// Update the weights, then poll.
    Reweigh,
    /// Compute the bar of the strike.
    Judge,
    /// Return to the saved state, then poll.
    Rollback,
    /// Save the state and return it: every collision is resolved.
    SaveAndFinish,
    /// Return the saved state.
    Finish,
}

/// Whether the stage waits for this kind of event.
pub open spec fn separation_expects(stage: SeparationStage, event: SeparationEvent) -> bool {
    match stage {
        SeparationStage::Strike | SeparationStage::Iteration => event is Poll,
        SeparationStage::Moving => event is Moved,
        SeparationStage::Judging => event is Judged,
        SeparationStage::Done => false,
    }
}

/// No collision is left.
pub open spec fn settled(loss: Scalar) -> bool {
    !loss.nan() && loss.value() == 0
}

/// What a separation does on an event.
pub open spec fn separation_next(s: Separation, event: SeparationEvent) -> (
    Separation,
    SeparationAction,
) {
    match (s.stage, event) {
        (SeparationStage::Strike, SeparationEvent::Poll { killed, loss }) => if s.n_strikes
            < s.config.strike_limit && !killed {
            (
                Separation {
                    stage: SeparationStage::Iteration,
                    n_no_improvement: 0,
                    initial_strike_loss: loss,
                    ..s
                },
                SeparationAction::Poll,
            )
        } else {
            (Separation { stage: SeparationStage::Done, ..s }, SeparationAction::Finish)
        },
        (SeparationStage::Iteration, SeparationEvent::Poll { killed, loss }) => if s.n_no_improvement
            < s.config.iter_no_imprv_limit && !killed {
            (Separation { stage: SeparationStage::Moving, ..s }, SeparationAction::Move)
        } else {
            (Separation { stage: SeparationStage::Judging, ..s }, SeparationAction::Judge)
        },
        (SeparationStage::Moving, SeparationEvent::Moved { loss, bar }) => if settled(loss) {
            (
                Separation { stage: SeparationStage::Done, separated: true, ..s },
                SeparationAction::SaveAndFinish,
            )
        } else if loss.less(s.min_loss) {
            (
                Separation {
                    stage: SeparationStage::Iteration,
                    n_no_improvement: if loss.less(bar) {
                        0
                    } else {
                        s.n_no_improvement
                    },
                    min_loss: loss,
                    ..s
                },
                SeparationAction::SaveAndReweigh,
            )
        } else {
            (
                Separation {
                    stage: SeparationStage::Iteration,
                    n_no_improvement: (s.n_no_improvement + 1) as usize,
                    ..s
                },
                SeparationAction::Reweigh,
            )
        },
        (SeparationStage::Judging, SeparationEvent::Judged { bar }) => (
            Separation {
                stage: SeparationStage::Strike,
                n_strikes: if bar.less_or_equal(s.min_loss) {
                    (s.n_strikes + 1) as usize
                } else {
                    0
                },
                ..s
            },
            SeparationAction::Rollback,
        ),
        _ => (s, SeparationAction::Finish),
    }
}

/// The counters are within their limits at every stage at which they are about to grow.
pub open spec fn separation_wf(s: Separation) -> bool {
    &&& s.n_strikes <= s.config.strike_limit
    &&& s.stage is Strike || s.stage is Done || s.n_strikes < s.config.strike_limit
    &&& s.n_no_improvement <= s.config.iter_no_imprv_limit
    &&& s.stage is Moving ==> s.n_no_improvement < s.config.iter_no_imprv_limit
}

impl Separation {
    /// A separation of a state with total loss `loss`, which is saved.
    pub fn new(config: SeparatorConfig, loss: Scalar) -> (r: Separation)
        ensures
            r == separation_start(config, loss),
            separation_wf(r),
    {
        Separation {
            config,
            stage: SeparationStage::Strike,
            n_strikes: 0,
            n_no_improvement: 0,
            initial_strike_loss: loss,
            min_loss: loss,
            separated: false,
        }
    }
}

/// The start of a separation.
pub open spec fn separation_start(config: SeparatorConfig, loss: Scalar) -> Separation {
    Separation {
        config,
        stage: SeparationStage::Strike,
        n_strikes: 0,
        n_no_improvement: 0,
        initial_strike_loss: loss,
        min_loss: loss,
        separated: false,
    }
}

/// Advances a separation by one event.
///
/// A strike is a series of iterations that ends when too many of them in a row did not lower the
/// loss. A strike without substantial improvement counts against the limit, one with substantial
/// improvement resets the count. The state with the lowest loss is kept, and every strike starts
/// from it.
pub fn separate(run: &mut Separation, event: SeparationEvent) -> (action: SeparationAction)
    requires
        separation_wf(*old(run)),
        separation_expects(old(run).stage, event),
    ensures
        (*final(run), action) == separation_next(*old(run), event),
        separation_wf(*final(run)),
{
    match event {
        SeparationEvent::Poll { killed, loss } => {
            if run.stage == SeparationStage::Strike {
                if run.n_strikes < run.config.strike_limit && !killed {
                    run.stage = SeparationStage::Iteration;
                    run.n_no_improvement = 0;
                    run.initial_strike_loss = loss;
                    SeparationAction::Poll
                } else {
                    run.stage = SeparationStage::Done;
                    SeparationAction::Finish
                }
            } else if run.n_no_improvement < run.config.iter_no_imprv_limit && !killed {
                run.stage = SeparationStage::Moving;
                SeparationAction::Move
            } else {
                run.stage = SeparationStage::Judging;
                SeparationAction::Judge
            }
        },
        SeparationEvent::Moved { loss, bar } => {
            if loss.is_zero() {
                run.stage = SeparationStage::Done;
                run.separated = true;
                SeparationAction::SaveAndFinish
            } else if loss.lt(run.min_loss) {
                if loss.lt(bar) {
                    run.n_no_improvement = 0;
                }
                run.min_loss = loss;
                run.stage = SeparationStage::Iteration;
                SeparationAction::SaveAndReweigh
            } else {
                run.n_no_improvement = run.n_no_improvement + 1;
                run.stage = SeparationStage::Iteration;
                SeparationAction::Reweigh
            }
        },
        SeparationEvent::Judged { bar } => {
            if bar.le(run.min_loss) {
                run.n_strikes = run.n_strikes + 1;
            } else {
                run.n_strikes = 0;
            }
            run.stage = SeparationStage::Strike;
            SeparationAction::Rollback
        },
    }
}

/// The separation after a sequence of events.
pub open spec fn separation_after(s: Separation, events: Seq<SeparationEvent>) -> Separation
    decreases events.len(),
{
    if events.len() == 0 {
        s
    } else {
        separation_next(separation_after(s, events.drop_last()), events.last()).0
    }
}

/// Every event is one that the separation waits for at that point.
pub open spec fn separation_admits(s: Separation, events: Seq<SeparationEvent>) -> bool
    decreases events.len(),
{
    events.len() > 0 ==> separation_admits(s, events.drop_last()) && separation_expects(
        separation_after(s, events.drop_last()).stage,
        events.last(),
    )
}

/// The loss that an event reports after moving items.
pub open spec fn reported_loss(event: SeparationEvent) -> Option<Scalar> {
    match event {
        SeparationEvent::Moved { loss, .. } => Some(loss),
        _ => None,
    }
}

/// **The saved state is the least infeasible one seen.** Its loss never exceeds the loss at the
/// start nor any loss reported along the way, and the separation ends separated exactly when a
/// loss of zero was reported.
pub proof fn lemma_separation_keeps_the_best(
    config: SeparatorConfig,
    loss: Scalar,
    events: Seq<SeparationEvent>,
)
    requires
        !loss.nan(),
        loss.value() >= 0,
        separation_admits(separation_start(config, loss), events),
        forall|i: int|
            0 <= i < events.len() ==> match reported_loss(#[trigger] events[i]) {
                Some(l) => !l.nan() && l.value() >= 0,
                None => true,
            },
    ensures
        ({
            let end = separation_after(separation_start(config, loss), events);
            &&& separation_wf(end)
            &&& end.min_loss.less_or_equal(loss)
            &&& end.separated == exists|i: int|
                0 <= i < events.len() && (reported_loss(#[trigger] events[i]) matches Some(l)
                    && settled(l))
            &&& end.separated ==> end.stage is Done
            &&& !end.separated ==> forall|i: int|
                0 <= i < events.len() ==> match reported_loss(#[trigger] events[i]) {
                    Some(l) => end.min_loss.less_or_equal(l),
                    None => true,
                }
        }),
    decreases events.len(),
{
    if events.len() > 0 {
        let start = separation_start(config, loss);
        let n = events.len() - 1;
        assert forall|i: int| 0 <= i < events.drop_last().len() implies match reported_loss(
            #[trigger] events.drop_last()[i],
        ) {
            Some(l) => !l.nan() && l.value() >= 0,
            None => true,
        } by {
            assert(events[i] == events.drop_last()[i]);
        }
        lemma_separation_keeps_the_best(config, loss, events.drop_last());
        let before = separation_after(start, events.drop_last());
        let end = separation_after(start, events);
        assert(before.stage !is Done);
        assert(!before.separated);
        assert forall|i: int| 0 <= i < n implies !(reported_loss(#[trigger] events[i]) matches Some(
            l,
        ) && settled(l)) by {
            assert(events[i] == events.drop_last()[i]);
        }
        if end.separated {
            assert(reported_loss(events[n]) matches Some(l) && settled(l));
        } else {
            assert forall|i: int| 0 <= i < events.len() implies match reported_loss(
                #[trigger] events[i],
            ) {
                Some(l) => end.min_loss.less_or_equal(l),
                None => true,
            } by {
                if i < n {
                    assert(events[i] == events.drop_last()[i]);
                }
            }
        }
    }
}

/// **The deadline is honoured per iteration**: once the time is up, no further iteration starts.
pub proof fn lemma_no_move_after_the_deadline(s: Separation, loss: Scalar)
    ensures
        separation_next(s, SeparationEvent::Poll { killed: true, loss }).1 != SeparationAction::Move,
        s.stage is Strike ==> separation_next(s, SeparationEvent::Poll { killed: true, loss }).1
            == SeparationAction::Finish,
{
}

/// The lowest loss that the events report, or the loss at the start if none is lower.
pub open spec fn lowest_loss(first: Scalar, events: Seq<SeparationEvent>) -> Scalar
    decreases events.len(),
{
    if events.len() == 0 {
        first
    } else {
        let before = lowest_loss(first, events.drop_last());
        match reported_loss(events.last()) {
            Some(l) => if l.less(before) {
                l
            } else {
                before
            },
            None => before,
        }
    }
}

/// Whether no strike is under way: none has begun, or the last one was judged.
pub open spec fn between_strikes(events: Seq<SeparationEvent>) -> bool {
    events.len() == 0 || events.last() is Judged
}

/// How many of the latest strikes in a row failed, that is, ended without a loss below their bar.
pub open spec fn failed_strikes(first: Scalar, events: Seq<SeparationEvent>) -> nat
    decreases events.len(),
{
    if events.len() == 0 {
        0
    } else {
        let before = failed_strikes(first, events.drop_last());
        match events.last() {
            SeparationEvent::Judged { bar } => if bar.less_or_equal(lowest_loss(first, events)) {
                before + 1
            } else {
                0
            },
            _ => before,
        }
    }
}

/// How many iterations of the present strike did not lower the lowest loss, since one last lowered it
/// below its bar.
pub open spec fn idle_iterations(first: Scalar, events: Seq<SeparationEvent>) -> nat
    decreases events.len(),
{
    if between_strikes(events) {
        0
    } else {
        let before = idle_iterations(first, events.drop_last());
        match events.last() {
            SeparationEvent::Moved { loss, bar } => if !loss.less(
                lowest_loss(first, events.drop_last()),
            ) {
                before + 1
            } else if loss.less(bar) {
                0
            } else {
                before
            },
            _ => before,
        }
    }
}

/// The loss with which the present strike, or else the latest one, began.
pub open spec fn strike_loss(first: Scalar, events: Seq<SeparationEvent>) -> Scalar
    decreases events.len(),
{
    if events.len() == 0 {
        first
    } else {
        match events.last() {
            SeparationEvent::Poll { killed: false, loss } if between_strikes(events.drop_last()) => loss,
            _ => strike_loss(first, events.drop_last()),
        }
    }
}

/// Nothing has ended the separation yet.
spec fn goes_on(config: SeparatorConfig, first: Scalar, events: Seq<SeparationEvent>) -> bool {
    let s = separation_after(separation_start(config, first), events);
    &&& s.config == config
    &&& !s.separated
    &&& s.min_loss == lowest_loss(first, events)
    &&& s.n_strikes == failed_strikes(first, events)
    &&& s.initial_strike_loss == strike_loss(first, events)
    &&& s.stage is Strike == between_strikes(events)
    &&& s.stage !is Strike ==> s.n_no_improvement == idle_iterations(first, events)
}

proof fn lemma_separation_remembers(
    config: SeparatorConfig,
    first: Scalar,
    events: Seq<SeparationEvent>,
)
    requires
        separation_admits(separation_start(config, first), events),
    ensures
        separation_wf(separation_after(separation_start(config, first), events)),
        separation_after(separation_start(config, first), events).stage !is Done ==> goes_on(
            config,
            first,
            events,
        ),
    decreases events.len(),
{
    if events.len() > 0 {
        let earlier = events.drop_last();
        lemma_separation_remembers(config, first, earlier);
        let before = separation_after(separation_start(config, first), earlier);
        let end = separation_after(separation_start(config, first), events);
        assert(before.stage !is Done);
        assert(goes_on(config, first, earlier));
        if end.stage !is Done {
            match events.last() {
                SeparationEvent::Poll { killed, loss } => {
                    assert(idle_iterations(first, events) == idle_iterations(first, earlier));
                },
                SeparationEvent::Moved { loss, bar } => {},
                SeparationEvent::Judged { bar } => {},
            }
        }
    }
}

/// **What a separation does is decided by what was reported**: between strikes it goes on as long as
/// there is time and fewer than the limit of the latest strikes failed in a row; within a strike it
/// moves on as long as there is time and fewer than the limit of iterations were idle. A state without
/// overlap ends it at once, a state with a new lowest loss is saved, and every strike that ends starts
/// over from the saved state.
pub proof fn lemma_separation_follows_its_history(
    config: SeparatorConfig,
    first: Scalar,
    events: Seq<SeparationEvent>,
    event: SeparationEvent,
)
    requires
        separation_admits(separation_start(config, first), events.push(event)),
    ensures
        ({
            let s = separation_after(separation_start(config, first), events);
            let action = separation_next(s, event).1;
            &&& match event {
                SeparationEvent::Poll { killed, .. } => if between_strikes(events) {
                    action == (if killed || failed_strikes(first, events) >= config.strike_limit {
                        SeparationAction::Finish
                    } else {
                        SeparationAction::Poll
                    })
                } else {
                    action == (if killed || idle_iterations(first, events)
                        >= config.iter_no_imprv_limit {
                        SeparationAction::Judge
                    } else {
                        SeparationAction::Move
                    })
                },
                SeparationEvent::Moved { loss, .. } => action == (if settled(loss) {
                    SeparationAction::SaveAndFinish
                } else if loss.less(lowest_loss(first, events)) {
                    SeparationAction::SaveAndReweigh
                } else {
                    SeparationAction::Reweigh
                }),
                SeparationEvent::Judged { .. } => action == SeparationAction::Rollback,
            }
            &&& s.min_loss == lowest_loss(first, events)
            &&& s.initial_strike_loss == strike_loss(first, events)
        }),
{
    let all = events.push(event);
    assert(all.drop_last() =~= events);
    assert(all.last() == event);
    lemma_separation_remembers(config, first, events);
}

/// **A separation gives up only after its strikes**: as long as there is time, one that has not
/// succeeded ends only when as many strikes in a row as the limit says have failed. A strike that brought
/// the lowest loss below its bar starts the count anew, whatever came before it.
pub proof fn lemma_gives_up_only_after_failed_strikes(
    config: SeparatorConfig,
    first: Scalar,
    events: Seq<SeparationEvent>,
    loss: Scalar,
    bar: Scalar,
)
    requires
        separation_admits(
            separation_start(config, first),
            events.push(SeparationEvent::Judged { bar }).push(
                SeparationEvent::Poll { killed: false, loss },
            ),
        ),
    ensures
        ({
            let judged = separation_after(
                separation_start(config, first),
                events.push(SeparationEvent::Judged { bar }),
            );
            let lowest = separation_after(separation_start(config, first), events).min_loss;
            let ended = separation_next(judged, SeparationEvent::Poll { killed: false, loss }).1
                == SeparationAction::Finish;
            &&& !bar.less_or_equal(lowest) ==> judged.n_strikes == 0
            &&& bar.less_or_equal(lowest) ==> judged.n_strikes == failed_strikes(first, events) + 1
            &&& ended ==> judged.n_strikes == config.strike_limit
            &&& ended && config.strike_limit > 0 ==> bar.less_or_equal(lowest)
        }),
{
    let e = SeparationEvent::Judged { bar };
    let p = SeparationEvent::Poll { killed: false, loss };
    let one = events.push(e);
    assert(one.push(p).drop_last() =~= one);
    assert(one.drop_last() =~= events);
    assert(one.last() == e);
    reveal_with_fuel(separation_admits, 3);
    lemma_separation_remembers(config, first, one);
    lemma_separation_remembers(config, first, events);
}

/// **Every order is answered by its own report**: which event a separation waits for next follows from
/// the action that it just ordered, and after it has finished it waits for none.
pub proof fn lemma_each_order_awaits_its_report(s: Separation, event: SeparationEvent, e: SeparationEvent)
    requires
        separation_expects(s.stage, event),
    ensures
        ({
            let (t, action) = separation_next(s, event);
            separation_expects(t.stage, e) == match action {
                SeparationAction::Move => e is Moved,
                SeparationAction::Judge => e is Judged,
                SeparationAction::SaveAndFinish | SeparationAction::Finish => false,
                _ => e is Poll,
            }
        }),
        separation_expects(separation_start(s.config, s.min_loss).stage, e) == e is Poll,
{
}

/// **Nothing but a loss of zero settles a layout**: not the least loss above it, and not what is no number.
pub proof fn lemma_only_zero_settles(loss: Scalar)
    ensures
        settled(loss) ==> !loss.nan() && !loss.less(Scalar { bits: 0 }) && !(Scalar { bits: 0 }).less(
            loss,
        ),
        !loss.nan() && !settled(loss) ==> loss.less(Scalar { bits: 0 }) || (Scalar { bits: 0 }).less(
            loss,
        ),
{
}

} // verus!
