//! What the analyzer found, put together.

use crate::finding::{finding_views, Category, Finding, FindingView};
use crate::text::{dec, opt_view, push_dec};
use vstd::prelude::*;

verus! {

broadcast use vstd::string::group_string_axioms;

#[derive(Debug, Clone, PartialEq, Eq, Default)]
pub struct Report {
    pub findings: Vec<Finding>,
    pub session_short: Option<String>,
    pub event_count: usize,
}

/// The first finding of a category, at or behind `i`.
pub open spec fn first_of(s: Seq<FindingView>, c: Category, i: int) -> Option<int>
    decreases s.len() - i,
{
    if i < 0 || i >= s.len() {
        None
    } else if s[i].category == c {
        Some(i)
    } else {
        first_of(s, c, i + 1)
    }
}

/// The findings of a category, in order.
pub open spec fn of_category(s: Seq<FindingView>, c: Category) -> Seq<FindingView>
    decreases s.len(),
{
    if s.len() == 0 {
        seq![]
    } else if s.last().category == c {
        of_category(s.drop_last(), c).push(s.last())
    } else {
        of_category(s.drop_last(), c)
    }
}

/// The detail of a finding as a line, where it has any.
pub open spec fn detail_line(f: FindingView) -> Seq<char> {
    if f.detail.len() > 0 {
        "    "@ + f.detail + "\n"@
    } else {
        seq![]
    }
}

/// A finding as lines, its severity in brackets.
pub open spec fn graded_lines(f: FindingView) -> Seq<char> {
    "  ["@ + f.severity.label() + "] "@ + f.title + "\n"@ + detail_line(f)
}

/// A finding as lines, without its severity.
pub open spec fn plain_lines(f: FindingView) -> Seq<char> {
    "  "@ + f.title + "\n"@ + detail_line(f)
}

/// The first `n` findings as lines.
pub open spec fn finding_lines(s: Seq<FindingView>, n: int, graded: bool) -> Seq<char>
    decreases n,
{
    if n <= 0 || n > s.len() {
        seq![]
    } else {
        finding_lines(s, n - 1, graded) + if graded {
            graded_lines(s[n - 1])
        } else {
            plain_lines(s[n - 1])
        }
    }
}

/// The findings of one category under a heading, nothing where there are none.
pub open spec fn section(s: Seq<FindingView>, heading: Seq<char>, graded: bool) -> Seq<char> {
    if s.len() == 0 {
        seq![]
    } else {
        heading + finding_lines(s, s.len() as int, graded) + "\n"@
    }
}

/// The session and its size.
pub open spec fn report_head(session: Option<Seq<char>>, count: int) -> Seq<char> {
    match session {
        Some(s) => "=== smeltr analyze ===\n"@ + "session: "@ + s + "\n"@ + "events:  "@ + dec(count)
            + "\n"@ + "\n"@,
        None => "=== smeltr analyze ===\n"@ + "events:  "@ + dec(count) + "\n"@ + "\n"@,
    }
}

/// The first root cause, under its heading.
pub open spec fn root_section(s: Seq<FindingView>) -> Seq<char> {
    match first_of(s, Category::RootCause, 0) {
        Some(i) => "ROOT CAUSE\n"@ + graded_lines(s[i]) + "\n"@,
        None => seq![],
    }
}

/// The whole report.
pub open spec fn report_text(
    findings: Seq<FindingView>,
    session: Option<Seq<char>>,
    count: int,
) -> Seq<char> {
    report_head(session, count) + root_section(findings) + section(
        of_category(findings, Category::ContributingFactor),
        "CONTRIBUTING FACTORS\n"@,
        true,
    ) + section(of_category(findings, Category::Timing), "TIMING\n"@, false) + section(
        of_category(findings, Category::SystemPressure),
        "SYSTEM PRESSURE\n"@,
        true,
    )
}

/// The views of borrowed findings.
pub open spec fn ref_views(s: Seq<&Finding>) -> Seq<FindingView> {
    s.map_values(|f: &Finding| f@)
}

fn lines_text(f: &Finding, graded: bool) -> (s: String)
    ensures
        s@ == if graded {
            graded_lines(f@)
        } else {
            plain_lines(f@)
        },
{
    let mut s = if graded {
        let mut s = "  [".to_owned();
        s.append(f.severity.text());
        s.append("] ");
        s
    } else {
        "  ".to_owned()
    };
    s.append(f.title.as_str());
    s.append("\n");
    let ghost head = s@;
    if f.detail.as_str().unicode_len() > 0 {
        s.append("    ");
        s.append(f.detail.as_str());
        s.append("\n");
    }
    assert(s@ =~= head + detail_line(f@));
    s
}

fn section_text(list: &Vec<&Finding>, heading: &str, graded: bool) -> (s: String)
    ensures
        s@ == section(ref_views(list@), heading@, graded),
{
    let ghost all = ref_views(list@);
    if list.len() == 0 {
        let s = String::new();
        assert(s@ =~= seq![]);
        return s;
    }
    let mut s = heading.to_owned();
    let mut i: usize = 0;
    assert(heading@ + finding_lines(all, 0, graded) =~= heading@);
    while i < list.len()
        invariant
            i <= list@.len(),
            all == ref_views(list@),
            s@ == heading@ + finding_lines(all, i as int, graded),
        decreases list@.len() - i,
    {
        let line = lines_text(list[i], graded);
        assert(all[i as int] == list@[i as int]@);
        s.append(line.as_str());
        assert(s@ =~= heading@ + finding_lines(all, i + 1, graded));
        i = i + 1;
    }
    s.append("\n");
    s
}

impl Report {
    /// The findings as values.
    pub open spec fn found(&self) -> Seq<FindingView> {
        finding_views(self.findings@)
    }

    /// The first root cause.
    pub fn root_cause(&self) -> (r: Option<&Finding>)
        ensures
            match first_of(self.found(), Category::RootCause, 0) {
                Some(i) => 0 <= i < self.findings@.len() && r == Some(&self.findings@[i]),
                None => r is None,
            },
    {
        let mut i: usize = 0;
        while i < self.findings.len()
            invariant
                i <= self.findings@.len(),
                first_of(self.found(), Category::RootCause, 0) == first_of(
                    self.found(),
                    Category::RootCause,
                    i as int,
                ),
            decreases self.findings@.len() - i,
        {
            assert(self.found()[i as int] == self.findings@[i as int]@);
            if self.findings[i].category == Category::RootCause {
                return Some(&self.findings[i]);
            }
            i = i + 1;
        }
        None
    }

    /// The findings of a category.
    fn select(&self, c: Category) -> (r: Vec<&Finding>)
        ensures
            ref_views(r@) == of_category(self.found(), c),
    {
        let ghost all = self.found();
        let mut r: Vec<&Finding> = Vec::new();
        let mut i: usize = 0;
        assert(all.take(0) =~= Seq::<FindingView>::empty());
        assert(ref_views(r@) =~= Seq::<FindingView>::empty());
        while i < self.findings.len()
            invariant
                i <= self.findings@.len(),
                all == self.found(),
                ref_views(r@) == of_category(all.take(i as int), c),
            decreases self.findings@.len() - i,
        {
            let f = &self.findings[i];
            let ghost before = r@;
            assert(all.take(i + 1).drop_last() =~= all.take(i as int));
            assert(all[i as int] == f@);
            if f.category == c {
                r.push(f);
                assert(ref_views(r@) =~= ref_views(before).push(f@));
            }
            i = i + 1;
        }
        assert(all.take(all.len() as int) =~= all);
        r
    }

    /// The contributing factors, in order.
    pub fn contributing_factors(&self) -> (r: Vec<&Finding>)
        ensures
            ref_views(r@) == of_category(self.found(), Category::ContributingFactor),
    {
        self.select(Category::ContributingFactor)
    }

    /// The timing findings, in order.
    pub fn timing(&self) -> (r: Vec<&Finding>)
        ensures
            ref_views(r@) == of_category(self.found(), Category::Timing),
    {
        self.select(Category::Timing)
    }

    /// The system pressure findings, in order.
    pub fn system_pressure(&self) -> (r: Vec<&Finding>)
        ensures
            ref_views(r@) == of_category(self.found(), Category::SystemPressure),
    {
        self.select(Category::SystemPressure)
    }

    /// Renders the report as text.
    pub fn render(&self) -> (out: String)
        ensures
            out@ == report_text(
                self.found(),
                opt_view(self.session_short),
                self.event_count as int,
            ),
    {
        let mut out = "=== smeltr analyze ===\n".to_owned();
        if let Some(s) = &self.session_short {
            out.append("session: ");
            out.append(s.as_str());
            out.append("\n");
        }
        out.append("events:  ");
        push_dec(&mut out, self.event_count as u64);
        out.append("\n");
        out.append("\n");
        let ghost head = out@;
        if let Some(rc) = self.root_cause() {
            let ghost i = first_of(self.found(), Category::RootCause, 0)->0;
            assert(self.found()[i] == rc@);
            let mut s = "ROOT CAUSE\n".to_owned();
            s.append(lines_text(rc, true).as_str());
            s.append("\n");
            out.append(s.as_str());
        }
        assert(out@ =~= head + root_section(self.found()));
        out.append(
            section_text(&self.contributing_factors(), "CONTRIBUTING FACTORS\n", true).as_str(),
        );
        out.append(section_text(&self.timing(), "TIMING\n", false).as_str());
        out.append(section_text(&self.system_pressure(), "SYSTEM PRESSURE\n", true).as_str());
        out
    }
}

} // verus!
