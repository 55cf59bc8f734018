//! What a rule is, and the rules that every analysis applies.

use crate::event::Event;
use crate::finding::{finding_views, Finding, FindingView};
use crate::rules::duplicate_model_load::DuplicateModelLoadRule;
use crate::rules::metal_error::MetalErrorRule;
use crate::rules::mlx_timing::MlxTimingRule;
use crate::rules::queue_depth::QueueDepthRule;
use crate::rules::queue_pressure::QueuePressureRule;
use crate::rules::system_pressure::SystemPressureRule;
use vstd::prelude::*;

verus! {

/// A rule looks at the whole stream and tells what it finds.
pub trait Rule {
    /// The name of the rule.
    spec fn label(&self) -> Seq<char>;

    /// Whether the numbers in `events` are such that the rule can add and
    /// subtract them.
    spec fn accepts(&self, events: Seq<Event>) -> bool;

    /// What the rule finds.
    spec fn findings(&self, events: Seq<Event>) -> Seq<FindingView>;

    fn name(&self) -> (s: &'static str)
        ensures
            s@ == self.label(),
    ;

    /// Can [`Rule::check`] be asked about `events`?
    fn can_check(&self, events: &[Event]) -> (b: bool)
        ensures
            b == self.accepts(events@),
    ;

    fn check(&self, events: &[Event]) -> (r: Vec<Finding>)
        requires
            self.accepts(events@),
        ensures
            finding_views(r@) == self.findings(events@),
    ;
}

/// One of the rules that every analysis applies.
pub enum AnyRule {
    MetalError(MetalErrorRule),
    QueueDepth(QueueDepthRule),
    QueuePressure(QueuePressureRule),
    MlxTiming(MlxTimingRule),
    SystemPressure(SystemPressureRule),
    DuplicateModelLoad(DuplicateModelLoadRule),
}

impl Rule for AnyRule {
    open spec fn label(&self) -> Seq<char> {
        match *self {
            AnyRule::MetalError(r) => r.label(),
            AnyRule::QueueDepth(r) => r.label(),
            AnyRule::QueuePressure(r) => r.label(),
            AnyRule::MlxTiming(r) => r.label(),
            AnyRule::SystemPressure(r) => r.label(),
            AnyRule::DuplicateModelLoad(r) => r.label(),
        }
    }

    open spec fn accepts(&self, events: Seq<Event>) -> bool {
        match *self {
            AnyRule::MetalError(r) => r.accepts(events),
            AnyRule::QueueDepth(r) => r.accepts(events),
            AnyRule::QueuePressure(r) => r.accepts(events),
            AnyRule::MlxTiming(r) => r.accepts(events),
            AnyRule::SystemPressure(r) => r.accepts(events),
            AnyRule::DuplicateModelLoad(r) => r.accepts(events),
        }
    }

    open spec fn findings(&self, events: Seq<Event>) -> Seq<FindingView> {
        match *self {
            AnyRule::MetalError(r) => r.findings(events),
            AnyRule::QueueDepth(r) => r.findings(events),
            AnyRule::QueuePressure(r) => r.findings(events),
            AnyRule::MlxTiming(r) => r.findings(events),
            AnyRule::SystemPressure(r) => r.findings(events),
            AnyRule::DuplicateModelLoad(r) => r.findings(events),
        }
    }

    fn name(&self) -> (s: &'static str) {
        match self {
            AnyRule::MetalError(r) => r.name(),
            AnyRule::QueueDepth(r) => r.name(),
            AnyRule::QueuePressure(r) => r.name(),
            AnyRule::MlxTiming(r) => r.name(),
            AnyRule::SystemPressure(r) => r.name(),
            AnyRule::DuplicateModelLoad(r) => r.name(),
        }
    }

    fn can_check(&self, events: &[Event]) -> (b: bool) {
        match self {
            AnyRule::MetalError(r) => r.can_check(events),
            AnyRule::QueueDepth(r) => r.can_check(events),
            AnyRule::QueuePressure(r) => r.can_check(events),
            AnyRule::MlxTiming(r) => r.can_check(events),
            AnyRule::SystemPressure(r) => r.can_check(events),
            AnyRule::DuplicateModelLoad(r) => r.can_check(events),
        }
    }

    fn check(&self, events: &[Event]) -> (r: Vec<Finding>) {
        match self {
            AnyRule::MetalError(r) => r.check(events),
            AnyRule::QueueDepth(r) => r.check(events),
            AnyRule::QueuePressure(r) => r.check(events),
            AnyRule::MlxTiming(r) => r.check(events),
            AnyRule::SystemPressure(r) => r.check(events),
            AnyRule::DuplicateModelLoad(r) => r.check(events),
        }
    }
}

/// The rules that every analysis applies, in order.
pub open spec fn registry() -> Seq<AnyRule> {
    seq![
        AnyRule::MetalError(MetalErrorRule),
        AnyRule::QueueDepth(QueueDepthRule),
        AnyRule::QueuePressure(QueuePressureRule),
        AnyRule::MlxTiming(MlxTimingRule),
        AnyRule::SystemPressure(SystemPressureRule),
        AnyRule::DuplicateModelLoad(DuplicateModelLoadRule),
    ]
}

/// The rules that every analysis applies, in order.
pub fn all_rules() -> (v: Vec<AnyRule>)
    ensures
        v@ == registry(),
{
    let v = vec![
        AnyRule::MetalError(MetalErrorRule),
        AnyRule::QueueDepth(QueueDepthRule),
        AnyRule::QueuePressure(QueuePressureRule),
        AnyRule::MlxTiming(MlxTimingRule),
        AnyRule::SystemPressure(SystemPressureRule),
        AnyRule::DuplicateModelLoad(DuplicateModelLoadRule),
    ];
    assert(v@ =~= registry());
    v
}

} // verus!
