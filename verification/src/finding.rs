//! Findings produced by analyzer rules.

use vstd::prelude::*;

verus! {

broadcast use vstd::string::group_string_axioms;

#[derive(Debug, Clone, Copy, PartialEq, Eq, Structural)]
pub enum Severity {
    Info,
    Warning,
    Critical,
}

impl Severity {
    /// The name of the severity.
    pub open spec fn label(self) -> Seq<char> {
        match self {
            Severity::Info => "Info"@,
            Severity::Warning => "Warning"@,
            Severity::Critical => "Critical"@,
        }
    }

    /// The name of the severity.
    pub fn text(&self) -> (s: &'static str)
        ensures
            s@ == self.label(),
    {
        match self {
            Severity::Info => "Info",
            Severity::Warning => "Warning",
            Severity::Critical => "Critical",
        }
    }
}

#[derive(Debug, Clone, Copy, PartialEq, Eq, Structural)]
pub enum Category {
    RootCause,
    ContributingFactor,
    Timing,
    SystemPressure,
}

/// An event that a finding rests on.
#[derive(Debug, Clone, PartialEq, Eq)]
pub struct EvidenceRef {
    pub seq: u64,
    pub ts_mono_ns: u64,
    pub description: String,
}

/// The view of an [`EvidenceRef`].
pub ghost struct EvidenceView {
    pub seq: u64,
    pub ts_mono_ns: u64,
    pub description: Seq<char>,
}

impl View for EvidenceRef {
    type V = EvidenceView;

    open spec fn view(&self) -> EvidenceView {
        EvidenceView {
            seq: self.seq,
            ts_mono_ns: self.ts_mono_ns,
            description: self.description@,
        }
    }
}

/// The views of a list of evidence.
pub open spec fn evidence_views(s: Seq<EvidenceRef>) -> Seq<EvidenceView> {
    s.map_values(|e: EvidenceRef| e@)
}

/// Something worth telling the user.
#[derive(Debug, Clone, PartialEq, Eq)]
pub struct Finding {
    pub severity: Severity,
    pub category: Category,
    pub title: String,
    pub detail: String,
    pub evidence: Vec<EvidenceRef>,
}

/// The view of a [`Finding`].
pub ghost struct FindingView {
    pub severity: Severity,
    pub category: Category,
    pub title: Seq<char>,
    pub detail: Seq<char>,
    pub evidence: Seq<EvidenceView>,
}

impl View for Finding {
    type V = FindingView;

    open spec fn view(&self) -> FindingView {
        FindingView {
            severity: self.severity,
            category: self.category,
            title: self.title@,
            detail: self.detail@,
            evidence: evidence_views(self.evidence@),
        }
    }
}

/// The views of a list of findings.
pub open spec fn finding_views(s: Seq<Finding>) -> Seq<FindingView> {
    s.map_values(|f: Finding| f@)
}

pub proof fn lemma_findings_push(s: Seq<Finding>, f: Finding)
    ensures
        finding_views(s.push(f)) == finding_views(s).push(f@),
{
    assert(finding_views(s.push(f)) =~= finding_views(s).push(f@));
}

impl Finding {
    /// A finding without detail and evidence.
    pub fn new(severity: Severity, category: Category, title: &str) -> (f: Self)
        ensures
            f@ == (FindingView {
                severity,
                category,
                title: title@,
                detail: seq![],
                evidence: seq![],
            }),
    {
        let f = Finding {
            severity,
            category,
            title: title.to_owned(),
            detail: String::new(),
            evidence: Vec::new(),
        };
        assert(f@.detail =~= seq![]);
        assert(f@.evidence =~= seq![]);
        f
    }

    /// The finding with its detail replaced.
    pub fn with_detail(self, detail: &str) -> (f: Self)
        ensures
            f@ == (FindingView {
                severity: self.severity,
                category: self.category,
                title: self.title@,
                detail: detail@,
                evidence: evidence_views(self.evidence@),
            }),
    {
        Finding {
            severity: self.severity,
            category: self.category,
            title: self.title,
            detail: detail.to_owned(),
            evidence: self.evidence,
        }
    }

    /// The finding with one piece of evidence more.
    pub fn with_evidence(self, ev: EvidenceRef) -> (f: Self)
        ensures
            f@ == (FindingView {
                severity: self.severity,
                category: self.category,
                title: self.title@,
                detail: self.detail@,
                evidence: evidence_views(self.evidence@).push(ev@),
            }),
    {
        let mut evidence = self.evidence;
        let ghost before = evidence@;
        evidence.push(ev);
        assert(evidence_views(evidence@) =~= evidence_views(before).push(ev@));
        Finding {
            severity: self.severity,
            category: self.category,
            title: self.title,
            detail: self.detail,
            evidence,
        }
    }
}

} // verus!
