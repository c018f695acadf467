//! Compressing a strip: squeezing it by ever smaller steps at random positions.
use crate::config::CompressionConfig;
use crate::optimizer::separator as separation;
use crate::scalar::Scalar;
use vstd::prelude::*;

verus! {

/// What a compression waits for.
#[derive(Debug, Clone, Copy, PartialEq, Eq, Structural)]
pub enum SqueezeStage {
    /// The result of the pack-down over sheets.
    PackingDown,
    /// A poll before the next attempt.
    Poll,
    /// The result of an attempt.
    Squeezing,
    /// The result of the compaction of the sheets.
    Compacting,
    /// Nothing: the compression is over.
    Done,
}

/// Progress of a compression.
#[derive(Debug, Clone, Copy, PartialEq, Eq, Structural)]
pub struct SPCompression {
    /// The settings.
    pub config: CompressionConfig,
    /// What it waits for.
    pub stage: SqueezeStage,
    /// Handle of the best solution.
    pub best: usize,
    /// Failed attempts.
    pub n_failed: u32,
}

/// What the engine reports to a compression.
#[derive(Debug, Clone, Copy, PartialEq, Eq, Structural)]
pub enum SqueezeEvent {
    /// The pack-down over sheets is over.
    PackedDown {
        /// How many cuts it made.
        n_moved: usize,
        /// Handle of its solution.
        solution: usize,
    },
    /// The state before an attempt.
    Poll {
        /// The compression has to stop.
        killed: bool,
        /// The step that the settings give for the elapsed time and the failures.
        step: Scalar,
    },
    /// The strip was shrunk by a step and separated.
    Squeezed {
        /// The loss that is left.
        loss: Scalar,
        /// Handle of the resulting solution.
        solution: usize,
    },
    /// The compaction of the sheets is over.
    Compacted {
        /// How many items it moved.
        n_moved: usize,
        /// Handle of its solution.
        solution: usize,
    },
}

/// What the engine has to do next in a compression.
#[derive(Debug, Clone, Copy, PartialEq, Eq, Structural)]
pub enum SqueezeAction {
    /// Poll.
    Poll,
    /// Return to the best solution, shrink it by this step at a random position, and separate.
    Squeeze {
        /// The step.
        step: Scalar,
    },
    /// Report the new best solution, then poll.
    Adopt,
    /// Compact the sheets of the best solution.
    Compact,
    /// Report the new best solution: it is over.
    AdoptAndFinish,
    /// It is over.
    Finish,
}

/// Whether the stage waits for this kind of event.
pub open spec fn squeeze_expects(s: SPCompression, event: SqueezeEvent) -> bool {
    match s.stage {
        SqueezeStage::PackingDown => event is PackedDown,
        SqueezeStage::Poll => event is Poll,
        SqueezeStage::Squeezing => event is Squeezed,
        SqueezeStage::Compacting => event is Compacted,
        SqueezeStage::Done => false,
    }
}

/// Whether the sheets are compacted at the end.
pub open spec fn compacts(config: CompressionConfig) -> bool {
    config.sheet matches Some(sheet) && sheet.compact_sheets
}

/// Whether the band of the last sheet is cut back first.
pub open spec fn packs_down(config: CompressionConfig) -> bool {
    config.sheet matches Some(sheet) && sheet.pack_down
}

/// What a compression does on an event.
pub open spec fn squeeze_next(s: SPCompression, event: SqueezeEvent) -> (
    SPCompression,
    SqueezeAction,
) {
    match event {
        SqueezeEvent::PackedDown { n_moved, solution } => (
            SPCompression {
                stage: SqueezeStage::Poll,
                best: if n_moved > 0 {
                    solution
                } else {
                    s.best
                },
                ..s
            },
            SqueezeAction::Poll,
        ),
        SqueezeEvent::Poll { killed, step } => if !killed && s.config.shrink_to.less_or_equal(
            step,
        ) {
            (
                SPCompression { stage: SqueezeStage::Squeezing, ..s },
                SqueezeAction::Squeeze { step },
            )
        } else if compacts(s.config) {
            (SPCompression { stage: SqueezeStage::Compacting, ..s }, SqueezeAction::Compact)
        } else {
            (SPCompression { stage: SqueezeStage::Done, ..s }, SqueezeAction::Finish)
        },
        SqueezeEvent::Squeezed { loss, solution } => if separation::settled(loss) {
            (
                SPCompression { stage: SqueezeStage::Poll, best: solution, ..s },
                SqueezeAction::Adopt,
            )
        } else {
            (
                SPCompression {
                    stage: SqueezeStage::Poll,
                    n_failed: if s.n_failed < u32::MAX {
                        (s.n_failed + 1) as u32
                    } else {
                        s.n_failed
                    },
                    ..s
                },
                SqueezeAction::Poll,
            )
        },
        SqueezeEvent::Compacted { n_moved, solution } => if n_moved > 0 {
            (
                SPCompression { stage: SqueezeStage::Done, best: solution, ..s },
                SqueezeAction::AdoptAndFinish,
            )
        } else {
            (SPCompression { stage: SqueezeStage::Done, ..s }, SqueezeAction::Finish)
        },
    }
}

/// The start of a compression of the given solution.
pub open spec fn squeeze_start(config: CompressionConfig, init: usize) -> SPCompression {
    SPCompression {
        config,
        stage: if packs_down(config) {
            SqueezeStage::PackingDown
        } else {
            SqueezeStage::Poll
        },
        best: init,
        n_failed: 0,
    }
}

impl SPCompression {
    /// A compression of the given solution. It starts with a pack-down if the settings ask for one.
    pub fn new(config: CompressionConfig, init: usize) -> (r: SPCompression)
        ensures
            r == squeeze_start(config, init),
    {
        let stage = match config.sheet {
            Some(sheet) => if sheet.pack_down {
                SqueezeStage::PackingDown
            } else {
                SqueezeStage::Poll
            },
            None => SqueezeStage::Poll,
        };
        SPCompression { config, stage, best: init, n_failed: 0 }
    }
}

/// Advances a compression by one event.
///
/// As long as the step is large enough, the best solution is shrunk by it at a random position and
/// separated; a result without overlap is the new best one. At the end the sheets are compacted, if
/// the settings ask for it.
pub fn compression_phase(run: &mut SPCompression, event: SqueezeEvent) -> (action: SqueezeAction)
    requires
        squeeze_expects(*old(run), event),
    ensures
        (*final(run), action) == squeeze_next(*old(run), event),
{
    match event {
        SqueezeEvent::PackedDown { n_moved, solution } => {
            if n_moved > 0 {
                run.best = solution;
            }
            run.stage = SqueezeStage::Poll;
            SqueezeAction::Poll
        },
        SqueezeEvent::Poll { killed, step } => {
            if !killed && run.config.shrink_to.le(step) {
                run.stage = SqueezeStage::Squeezing;
                return SqueezeAction::Squeeze { step };
            }
            let compact: bool = match run.config.sheet {
                Some(sheet) => sheet.compact_sheets,
                None => false,
            };
            if compact {
                run.stage = SqueezeStage::Compacting;
                SqueezeAction::Compact
            } else {
                run.stage = SqueezeStage::Done;
                SqueezeAction::Finish
            }
        },
        SqueezeEvent::Squeezed { loss, solution } => {
            run.stage = SqueezeStage::Poll;
            if loss.is_zero() {
                run.best = solution;
                SqueezeAction::Adopt
            } else {
                if run.n_failed < u32::MAX {
                    run.n_failed = run.n_failed + 1;
                }
                SqueezeAction::Poll
            }
        },
        SqueezeEvent::Compacted { n_moved, solution } => {
            run.stage = SqueezeStage::Done;
            if n_moved > 0 {
                run.best = solution;
                SqueezeAction::AdoptAndFinish
            } else {
                SqueezeAction::Finish
            }
        },
    }
}

/// The compression after a sequence of events.
pub open spec fn squeeze_after(s: SPCompression, events: Seq<SqueezeEvent>) -> SPCompression
    decreases events.len(),
{
    if events.len() == 0 {
        s
    } else {
        squeeze_next(squeeze_after(s, events.drop_last()), events.last()).0
    }
}

/// Whether the event reports an improved solution.
pub open spec fn reports_improvement(event: SqueezeEvent, solution: usize) -> bool {
    match event {
        SqueezeEvent::PackedDown { n_moved, solution: s } => n_moved > 0 && s == solution,
        SqueezeEvent::Squeezed { loss, solution: s } => separation::settled(loss) && s == solution,
        SqueezeEvent::Compacted { n_moved, solution: s } => n_moved > 0 && s == solution,
        SqueezeEvent::Poll { .. } => false,
    }
}

/// **The result is the solution that was put in, or an improved one**: one without overlap after a
/// shrink, or one in which a pack-down or a compaction moved something.
pub proof fn lemma_squeeze_result(config: CompressionConfig, init: usize, events: Seq<SqueezeEvent>)
    ensures
        ({
            let end = squeeze_after(squeeze_start(config, init), events);
            end.best == init || exists|k: int|
                0 <= k < events.len() && reports_improvement(#[trigger] events[k], end.best)
        }),
    decreases events.len(),
{
    if events.len() > 0 {
        let start = squeeze_start(config, init);
        lemma_squeeze_result(config, init, events.drop_last());
        let before = squeeze_after(start, events.drop_last());
        let end = squeeze_after(start, events);
        if end.best != before.best {
            assert(reports_improvement(events[events.len() - 1], end.best));
        } else if before.best != init {
            let k = choose|k: int|
                0 <= k < events.drop_last().len() && reports_improvement(
                    #[trigger] events.drop_last()[k],
                    before.best,
                );
            assert(events[k] == events.drop_last()[k]);
        }
    }
}

/// The earlier one of two deadlines (ns), of which either may be missing.
pub fn earlier(a: Option<u128>, b: Option<u128>) -> (r: Option<u128>)
    ensures
        r == a || r == b,
        r is None <==> a is None && b is None,
        a matches Some(x) ==> r->0 <= x,
        b matches Some(y) ==> r->0 <= y,
        r == match (a, b) {
            (Some(x), Some(y)) => Some(
                if x <= y {
                    x
                } else {
                    y
                },
            ),
            (Some(x), None) => Some(x),
            (None, y) => y,
        },
{
    match a {
        Some(x) => match b {
            Some(y) => if x <= y {
                Some(x)
            } else {
                Some(y)
            },
            None => Some(x),
        },
        None => b,
    }
}

/// The solution that the last of the improvements reports, or the one that was put in if none does.
pub open spec fn last_improvement(init: usize, events: Seq<SqueezeEvent>) -> usize
    decreases events.len(),
{
    if events.len() == 0 {
        init
    } else {
        let before = last_improvement(init, events.drop_last());
        match events.last() {
            SqueezeEvent::PackedDown { n_moved, solution } if n_moved > 0 => solution,
            SqueezeEvent::Compacted { n_moved, solution } if n_moved > 0 => solution,
            SqueezeEvent::Squeezed { loss, solution } if separation::settled(loss) => solution,
            _ => before,
        }
    }
}

/// How many squeezes left some overlap.
pub open spec fn failed_squeezes(events: Seq<SqueezeEvent>) -> nat
    decreases events.len(),
{
    if events.len() == 0 {
        0
    } else {
        let before = failed_squeezes(events.drop_last());
        match events.last() {
            SqueezeEvent::Squeezed { loss, .. } if !separation::settled(loss) => before + 1,
            _ => before,
        }
    }
}

/// **The result is the last improvement, and every failure counts**: the best solution is the one that
/// the last of the improvements reported, and the one that was put in only if there was none; the failed
/// squeezes are counted as far as the counter goes.
pub proof fn lemma_squeeze_keeps_the_last_improvement(
    config: CompressionConfig,
    init: usize,
    events: Seq<SqueezeEvent>,
)
    ensures
        ({
            let end = squeeze_after(squeeze_start(config, init), events);
            &&& end.best == last_improvement(init, events)
            &&& end.config == config
            &&& failed_squeezes(events) <= u32::MAX ==> end.n_failed == failed_squeezes(events)
            &&& failed_squeezes(events) > u32::MAX ==> end.n_failed == u32::MAX
        }),
    decreases events.len(),
{
    if events.len() > 0 {
        lemma_squeeze_keeps_the_last_improvement(config, init, events.drop_last());
    }
}

/// **What a compression orders**: it squeezes as long as there is time and the step is not below the
/// smallest one, then compacts exactly if the sheets ask for it; what improved is adopted, and every
/// order is answered by its own report.
pub proof fn lemma_squeeze_orders(s: SPCompression, event: SqueezeEvent, e: SqueezeEvent)
    requires
        squeeze_expects(s, event),
    ensures
        ({
            let (t, action) = squeeze_next(s, event);
            let sheets_compact = match s.config.sheet {
                Some(sheet) => sheet.compact_sheets,
                None => false,
            };
            &&& match event {
                SqueezeEvent::Poll { killed, step } => if !killed && s.config.shrink_to.less_or_equal(
                    step,
                ) {
                    action == (SqueezeAction::Squeeze { step })
                } else if sheets_compact {
                    action is Compact
                } else {
                    action is Finish
                },
                SqueezeEvent::PackedDown { .. } => action is Poll,
                SqueezeEvent::Squeezed { loss, .. } => if separation::settled(loss) {
                    action is Adopt
                } else {
                    action is Poll
                },
                SqueezeEvent::Compacted { n_moved, .. } => if n_moved > 0 {
                    action is AdoptAndFinish
                } else {
                    action is Finish
                },
            }
            &&& squeeze_expects(t, e) == match action {
                SqueezeAction::Squeeze { .. } => e is Squeezed,
                SqueezeAction::Compact => e is Compacted,
                SqueezeAction::Poll | SqueezeAction::Adopt => e is Poll,
                SqueezeAction::AdoptAndFinish | SqueezeAction::Finish => false,
            }
        }),
        squeeze_expects(squeeze_start(s.config, s.best), e) == (if s.config.sheet matches Some(sheet)
            && sheet.pack_down {
            e is PackedDown
        } else {
            e is Poll
        }),
{
}

} // verus!
