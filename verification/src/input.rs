//! Recognizing report sources by file name, gathering what they gave, and
//! the outcome of a run.

use vstd::prelude::*;
use crate::model::AggregateReport;
use crate::text::{ends_with_ignore_case, has_suffix_ignore_case};

verus! {

/// How a report file is read, by its name.
#[derive(Debug, Clone, Copy, PartialEq, Eq, Structural)]
pub enum SourceFormat {
    /// A `.zip` archive holding one or more reports.
    Zip,
    /// A gzip-compressed report (`.xml.gz`, any `.gz`).
    Gzip,
    /// A raw `.xml` report.
    Xml,
    Unsupported,
}

/// Output format of the summary.
#[derive(Debug, Clone, Copy, PartialEq, Eq, Structural)]
pub enum Format {
    Human,
    Json,
}

pub open spec fn format_of_name(name: Seq<char>) -> SourceFormat {
    if ends_with_ignore_case(name, ".zip"@) {
        SourceFormat::Zip
    } else if ends_with_ignore_case(name, ".gz"@) {
        SourceFormat::Gzip
    } else if ends_with_ignore_case(name, ".xml"@) {
        SourceFormat::Xml
    } else {
        SourceFormat::Unsupported
    }
}

/// The format of a file, by its (case-insensitive) extension; a path
/// without a file name is unsupported.
pub fn source_format(file_name: Option<&str>) -> (r: SourceFormat)
    ensures
        r == match file_name {
            Some(n) => format_of_name(n@),
            None => format_of_name(Seq::empty()),
        },
{
    let name = match file_name {
        Some(n) => n,
        None => "",
    };
    assert(file_name is None ==> name@ == Seq::<char>::empty()) by {
        reveal_strlit("");
    }
    if has_suffix_ignore_case(name, ".zip") {
        SourceFormat::Zip
    } else if has_suffix_ignore_case(name, ".gz") {
        SourceFormat::Gzip
    } else if has_suffix_ignore_case(name, ".xml") {
        SourceFormat::Xml
    } else {
        SourceFormat::Unsupported
    }
}

/// Whether a file found while scanning a directory is a report file
/// (`.xml`, `.gz` or `.zip`, case-insensitively).
pub fn is_report_file(file_name: Option<&str>) -> (r: bool)
    ensures
        r == match file_name {
            Some(n) => format_of_name(n@) != SourceFormat::Unsupported,
            None => false,
        },
{
    match file_name {
        Some(n) => has_suffix_ignore_case(n, ".xml") || has_suffix_ignore_case(n, ".gz")
            || has_suffix_ignore_case(n, ".zip"),
        None => false,
    }
}

/// Whether an archive entry is read as a report: a file whose name ends in
/// `.xml`, case-insensitively.
pub fn is_report_entry(name: &str, is_dir: bool) -> (r: bool)
    ensures
        r == (!is_dir && ends_with_ignore_case(name@, ".xml"@)),
{
    !is_dir && has_suffix_ignore_case(name, ".xml")
}

/// Exit status of a summary run: 0 when some report was analyzed, 1 when
/// none was.
pub fn exit_status(analyzed: usize) -> (r: u8)
    ensures
        r == (if analyzed == 0 {
            1u8
        } else {
            0u8
        }),
{
    if analyzed == 0 {
        1
    } else {
        0
    }
}

/// What one report source (a file, or an entry of an archive) gave.
pub enum SourceOutcome {
    /// A report that converted.
    Parsed(AggregateReport),
    /// A source that could not be read, decompressed, or parsed as a report.
    Failed,
}

/// The reports of the sources that gave one, in order.
pub open spec fn parsed_reports(s: Seq<SourceOutcome>) -> Seq<AggregateReport>
    decreases s.len(),
{
    if s.len() == 0 {
        Seq::empty()
    } else {
        match s.last() {
            SourceOutcome::Parsed(r) => parsed_reports(s.drop_last()).push(r),
            SourceOutcome::Failed => parsed_reports(s.drop_last()),
        }
    }
}

/// The number of sources that failed.
pub open spec fn failures(s: Seq<SourceOutcome>) -> nat
    decreases s.len(),
{
    if s.len() == 0 {
        0
    } else {
        failures(s.drop_last()) + match s.last() {
            SourceOutcome::Parsed(_) => 0nat,
            SourceOutcome::Failed => 1nat,
        }
    }
}

proof fn lemma_failures_bound(s: Seq<SourceOutcome>)
    ensures
        failures(s) <= s.len(),
    decreases s.len(),
{
    if s.len() > 0 {
        lemma_failures_bound(s.drop_last());
    }
}

/// Sorts the outcomes of reading the sources into the reports, in order,
/// and the number of sources that failed.
pub fn gather_reports(outcomes: Vec<SourceOutcome>) -> (r: (Vec<AggregateReport>, usize))
    ensures
        r.0@ == parsed_reports(outcomes@),
        r.1 == failures(outcomes@),
{
    let ghost all = outcomes@;
    let mut rest = outcomes;
    // Walk from the back so that each report can be moved out.
    let mut back: Vec<SourceOutcome> = Vec::new();
    while rest.len() > 0
        invariant
            rest@ == all.subrange(0, rest@.len() as int),
            back@.len() == all.len() - rest@.len(),
            forall|k: int| 0 <= k < back@.len() ==> back@[k] == all[all.len() - 1 - k],
        decreases rest@.len(),
    {
        let o = rest.pop().unwrap();
        back.push(o);
    }
    let mut reports: Vec<AggregateReport> = Vec::new();
    let mut failed: usize = 0;
    let total = back.len();
    let mut i: usize = 0;
    while i < total
        invariant
            total == all.len(),
            i <= total,
            back@.len() == total - i,
            forall|k: int| 0 <= k < back@.len() ==> back@[k] == all[all.len() - 1 - k],
            reports@ == parsed_reports(all.subrange(0, i as int)),
            failed == failures(all.subrange(0, i as int)),
        decreases total - i,
    {
        let o = back.pop().unwrap();
        assert(o == all[i as int]);
        assert(all.subrange(0, i + 1).drop_last() =~= all.subrange(0, i as int));
        proof {
            lemma_failures_bound(all.subrange(0, i + 1));
        }
        match o {
            SourceOutcome::Parsed(r) => reports.push(r),
            SourceOutcome::Failed => {
                failed = failed + 1;
            },
        }
        i = i + 1;
    }
    assert(all.subrange(0, total as int) =~= all);
    (reports, failed)
}

} // verus!
