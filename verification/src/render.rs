//! Human-readable rendering of the summary: fixed-width tables with
//! thousands separators.

use vstd::prelude::*;
use vstd::utf8::encode_utf8;
use crate::decimal::{decimal, u64_text};
use crate::ip::{ip_display, ip_text};
use crate::summary::{
    counts_view, reporters_view, stats_view, ReporterStat, ReporterStatView, SourceStat,
    SourceStatView, Summary,
};
use crate::text::push_char;

verus! {

// ---------------------------------------------------------------------------
// Numbers and padding

/// Decimal digits with a `,` before every digit that has a multiple of
/// three digits after it (and is not the first).
pub open spec fn grouped(d: Seq<char>, i: nat) -> Seq<char>
    decreases i,
{
    if i == 0 {
        Seq::empty()
    } else {
        let k = (i - 1) as nat;
        grouped(d, k) + (if k > 0 && (d.len() - k) % 3 == 0 {
            seq![',']
        } else {
            Seq::empty()
        }) + seq![d[k as int]]
    }
}

/// `n` in decimal with thousands separators: 1234567 -> `1,234,567`.
pub open spec fn group_text(n: nat) -> Seq<char> {
    grouped(decimal(n), decimal(n).len())
}

/// 1234567 -> "1,234,567"
pub fn group_digits(n: u64) -> (r: String)
    ensures
        r@ == group_text(n as nat),
{
    let digits = u64_text(n);
    let len = digits.unicode_len();
    let mut out = String::new();
    let mut i: usize = 0;
    while i < len
        invariant
            len == digits@.len(),
            digits@ == decimal(n as nat),
            i <= len,
            out@ == grouped(digits@, i as nat),
        decreases len - i,
    {
        if i > 0 && (len - i) % 3 == 0 {
            push_char(&mut out, ',');
        }
        push_char(&mut out, digits.get_char(i));
        i = i + 1;
        assert(out@ =~= grouped(digits@, i as nat));
    }
    out
}

pub open spec fn spaces(n: int) -> Seq<char> {
    Seq::new(if n > 0 {
        n as nat
    } else {
        0
    }, |i: int| ' ')
}

/// Left-aligned in a field of `w` chars (as `{:<w$}`).
pub open spec fn pad_right(s: Seq<char>, w: int) -> Seq<char> {
    s + spaces(w - s.len())
}

/// Right-aligned in a field of `w` chars (as `{:>w$}`).
pub open spec fn pad_left(s: Seq<char>, w: int) -> Seq<char> {
    spaces(w - s.len()) + s
}

fn append_spaces(out: &mut String, n: usize)
    ensures
        final(out)@ == old(out)@ + spaces(n as int),
{
    let ghost start = out@;
    let mut i: usize = 0;
    while i < n
        invariant
            i <= n,
            out@ == start + spaces(i as int),
        decreases n - i,
    {
        push_char(out, ' ');
        i = i + 1;
        assert(out@ =~= start + spaces(i as int));
    }
}

fn append_left_aligned(out: &mut String, s: &str, w: usize)
    ensures
        final(out)@ == old(out)@ + pad_right(s@, w as int),
{
    let n = s.unicode_len();
    out.append(s);
    let fill = if n < w {
        w - n
    } else {
        0
    };
    append_spaces(out, fill);
    assert(spaces(fill as int) =~= spaces(w - s@.len()));
}

fn append_right_aligned(out: &mut String, s: &str, w: usize)
    ensures
        final(out)@ == old(out)@ + pad_left(s@, w as int),
{
    let n = s.unicode_len();
    let fill = if n < w {
        w - n
    } else {
        0
    };
    append_spaces(out, fill);
    assert(spaces(fill as int) =~= spaces(w - s@.len()));
    out.append(s);
}

// ---------------------------------------------------------------------------
// Sections

/// Figures that are computed in floating point by the caller: the DMARC
/// pass rate in percent with one decimal (`89.7`), and for each listed
/// source its DKIM and SPF pass shares (`100%`, or `-` without messages).
pub struct Shares {
    pub pass_rate: String,
    pub top_sources: Vec<(String, String)>,
    pub failing_sources: Vec<(String, String)>,
}

pub open spec fn shares_view(v: Seq<(String, String)>) -> Seq<(Seq<char>, Seq<char>)> {
    v.map_values(|p: (String, String)| (p.0@, p.1@))
}

pub open spec fn skipped_line(s: Summary) -> Seq<char> {
    if s.reports.skipped_records > 0 {
        "Skipped records   : "@ + decimal(s.reports.skipped_records as nat)
            + " (missing/invalid required fields)\n"@
    } else {
        Seq::empty()
    }
}

pub open spec fn period_line(s: Summary) -> Seq<char> {
    match s.date_range {
        Some(p) => "Period (UTC)      : "@ + p.begin_date@ + " .. "@ + p.end_date@ + "\n"@,
        None => "Period (UTC)      : -\n"@,
    }
}

pub open spec fn overview_text(s: Summary, rate: Seq<char>) -> Seq<char> {
    "== Overview ==\n"@ + "Reports analyzed  : "@ + decimal(s.reports.analyzed as nat) + " ("@
        + decimal(s.reports.failed_files as nat) + " file(s) failed to parse)\n"@ + skipped_line(s)
        + period_line(s) + "Total messages    : "@ + group_text(s.messages.total as nat) + "\n"@
        + "DMARC pass rate   : "@ + rate + "% ("@ + group_text(s.messages.dmarc_pass as nat) + " / "@
        + group_text(s.messages.total as nat) + ")\n"@ + "\n"@
}

fn skipped_line_of(s: &Summary) -> (r: String)
    ensures
        r@ == skipped_line(*s),
{
    if s.reports.skipped_records > 0 {
        let mut out = String::from_str("Skipped records   : ");
        out.append(u64_text(s.reports.skipped_records as u64).as_str());
        out.append(" (missing/invalid required fields)\n");
        out
    } else {
        String::new()
    }
}

fn period_line_of(s: &Summary) -> (r: String)
    ensures
        r@ == period_line(*s),
{
    match &s.date_range {
        Some(p) => {
            let mut out = String::from_str("Period (UTC)      : ");
            out.append(p.begin_date.as_str());
            out.append(" .. ");
            out.append(p.end_date.as_str());
            out.append("\n");
            out
        },
        None => String::from_str("Period (UTC)      : -\n"),
    }
}

/// The overview section; `rate` is the DMARC pass rate in percent as text.
pub fn render_overview(s: &Summary, rate: &str) -> (r: String)
    ensures
        r@ == overview_text(*s, rate@),
{
    let mut out = String::from_str("== Overview ==\n");
    out.append("Reports analyzed  : ");
    out.append(u64_text(s.reports.analyzed as u64).as_str());
    out.append(" (");
    out.append(u64_text(s.reports.failed_files as u64).as_str());
    out.append(" file(s) failed to parse)\n");
    out.append(skipped_line_of(s).as_str());
    out.append(period_line_of(s).as_str());
    out.append("Total messages    : ");
    out.append(group_digits(s.messages.total).as_str());
    out.append("\n");
    out.append("DMARC pass rate   : ");
    out.append(rate);
    out.append("% (");
    out.append(group_digits(s.messages.dmarc_pass).as_str());
    out.append(" / ");
    out.append(group_digits(s.messages.total).as_str());
    out.append(")\n");
    out.append("\n");
    out
}

pub open spec fn auth_text(s: Summary) -> Seq<char> {
    "== Authentication (policy_evaluated) ==\n"@ + "DKIM              : pass "@ + group_text(
        s.auth.dkim_pass as nat,
    ) + " / fail "@ + group_text(s.auth.dkim_fail as nat) + "\n"@ + "SPF               : pass "@
        + group_text(s.auth.spf_pass as nat) + " / fail "@ + group_text(s.auth.spf_fail as nat)
        + "\n"@ + "Alignment         : both pass "@ + group_text(s.auth.both_pass as nat)
        + " | DKIM only "@ + group_text(s.auth.dkim_only as nat) + " | SPF only "@ + group_text(
        s.auth.spf_only as nat,
    ) + " | both fail "@ + group_text(s.auth.both_fail as nat) + "\n"@ + "\n"@
}

/// The authentication section.
pub fn render_auth(s: &Summary) -> (r: String)
    ensures
        r@ == auth_text(*s),
{
    let mut out = String::from_str("== Authentication (policy_evaluated) ==\n");
    out.append("DKIM              : pass ");
    out.append(group_digits(s.auth.dkim_pass).as_str());
    out.append(" / fail ");
    out.append(group_digits(s.auth.dkim_fail).as_str());
    out.append("\n");
    out.append("SPF               : pass ");
    out.append(group_digits(s.auth.spf_pass).as_str());
    out.append(" / fail ");
    out.append(group_digits(s.auth.spf_fail).as_str());
    out.append("\n");
    out.append("Alignment         : both pass ");
    out.append(group_digits(s.auth.both_pass).as_str());
    out.append(" | DKIM only ");
    out.append(group_digits(s.auth.dkim_only).as_str());
    out.append(" | SPF only ");
    out.append(group_digits(s.auth.spf_only).as_str());
    out.append(" | both fail ");
    out.append(group_digits(s.auth.both_fail).as_str());
    out.append("\n");
    out.append("\n");
    out
}

// ---------------------------------------------------------------------------
// Tables

/// Length in UTF-8 bytes, as `str::len` reports it.
pub open spec fn utf8_len(s: Seq<char>) -> nat {
    (encode_utf8(s).len() as usize) as nat
}

/// Width of the address column: the longest address text, at least as
/// wide as `SOURCE IP`.
pub open spec fn ip_width(v: Seq<SourceStatView>) -> nat
    decreases v.len(),
{
    if v.len() == 0 {
        9
    } else {
        let w = ip_width(v.drop_last());
        let l = utf8_len(ip_display(v.last().ip));
        if l > w {
            l
        } else {
            w
        }
    }
}

/// `name:count` pairs separated by spaces.
pub open spec fn disposition_list(d: Seq<(Seq<char>, u64)>) -> Seq<char>
    decreases d.len(),
{
    if d.len() == 0 {
        Seq::empty()
    } else {
        let prev = disposition_list(d.drop_last());
        (if d.len() > 1 {
            prev + " "@
        } else {
            prev
        }) + d.last().0 + ":"@ + decimal(d.last().1 as nat)
    }
}

pub open spec fn table_header(w: int) -> Seq<char> {
    pad_right("SOURCE IP"@, w) + "  "@ + pad_left("MESSAGES"@, 10) + "  "@ + pad_left("DKIM%"@, 6)
        + "  "@ + pad_left("SPF%"@, 6) + "  "@ + pad_right("DISPOSITION"@, 24) + "  "@ + pad_right(
        "FIRST"@,
        10,
    ) + "  "@ + pad_right("LAST"@, 10) + "\n"@
}

pub open spec fn source_row(s: SourceStatView, w: int, dkim: Seq<char>, spf: Seq<char>) -> Seq<char> {
    pad_right(ip_display(s.ip), w) + "  "@ + pad_left(group_text(s.messages as nat), 10) + "  "@
        + pad_left(dkim, 6) + "  "@ + pad_left(spf, 6) + "  "@ + pad_right(
        disposition_list(s.dispositions),
        24,
    ) + "  "@ + pad_right(s.first_seen, 10) + "  "@ + pad_right(s.last_seen, 10) + "\n"@
}

pub open spec fn source_rows(
    v: Seq<SourceStatView>,
    sh: Seq<(Seq<char>, Seq<char>)>,
    w: int,
) -> Seq<char>
    decreases v.len(),
{
    if v.len() == 0 {
        Seq::empty()
    } else {
        source_rows(v.drop_last(), sh, w) + source_row(
            v.last(),
            w,
            sh[v.len() - 1].0,
            sh[v.len() - 1].1,
        )
    }
}

pub open spec fn sources_table_text(
    title: Seq<char>,
    v: Seq<SourceStatView>,
    sh: Seq<(Seq<char>, Seq<char>)>,
) -> Seq<char> {
    (if title.len() > 0 {
        "== "@ + title + " ==\n"@
    } else {
        Seq::empty()
    }) + (if v.len() == 0 {
        "(none)\n\n"@
    } else {
        table_header(ip_width(v) as int) + source_rows(v, sh, ip_width(v) as int) + "\n"@
    })
}

fn disposition_list_of(d: &Vec<(String, u64)>) -> (r: String)
    ensures
        r@ == disposition_list(counts_view(d@)),
{
    let ghost dv = counts_view(d@);
    let mut out = String::new();
    let mut i: usize = 0;
    assert(dv.take(0) =~= Seq::<(Seq<char>, u64)>::empty());
    while i < d.len()
        invariant
            dv == counts_view(d@),
            i <= d@.len(),
            out@ == disposition_list(dv.take(i as int)),
        decreases d@.len() - i,
    {
        let ghost prev = out@;
        assert(dv.take(i + 1).drop_last() =~= dv.take(i as int));
        let mut piece = String::new();
        if i > 0 {
            out.append(" ");
        }
        piece.append(d[i].0.as_str());
        piece.append(":");
        piece.append(u64_text(d[i].1).as_str());
        out.append(piece.as_str());
        i = i + 1;
        assert(out@ =~= disposition_list(dv.take(i as int)));
    }
    assert(dv.take(d@.len() as int) =~= dv);
    out
}

fn table_header_of(w: usize) -> (r: String)
    ensures
        r@ == table_header(w as int),
{
    let mut out = String::new();
    append_left_aligned(&mut out, "SOURCE IP", w);
    out.append("  ");
    append_right_aligned(&mut out, "MESSAGES", 10);
    out.append("  ");
    append_right_aligned(&mut out, "DKIM%", 6);
    out.append("  ");
    append_right_aligned(&mut out, "SPF%", 6);
    out.append("  ");
    append_left_aligned(&mut out, "DISPOSITION", 24);
    out.append("  ");
    append_left_aligned(&mut out, "FIRST", 10);
    out.append("  ");
    append_left_aligned(&mut out, "LAST", 10);
    out.append("\n");
    assert(out@ =~= table_header(w as int));
    out
}

fn source_row_of(st: &SourceStat, w: usize, dkim: &str, spf: &str) -> (r: String)
    ensures
        r@ == source_row(st@, w as int, dkim@, spf@),
{
    let mut out = String::new();
    append_left_aligned(&mut out, ip_text(st.ip).as_str(), w);
    out.append("  ");
    append_right_aligned(&mut out, group_digits(st.messages).as_str(), 10);
    out.append("  ");
    append_right_aligned(&mut out, dkim, 6);
    out.append("  ");
    append_right_aligned(&mut out, spf, 6);
    out.append("  ");
    append_left_aligned(&mut out, disposition_list_of(&st.dispositions).as_str(), 24);
    out.append("  ");
    append_left_aligned(&mut out, st.first_seen.as_str(), 10);
    out.append("  ");
    append_left_aligned(&mut out, st.last_seen.as_str(), 10);
    out.append("\n");
    assert(out@ =~= source_row(st@, w as int, dkim@, spf@));
    out
}

fn ip_width_of(sources: &Vec<SourceStat>) -> (r: usize)
    ensures
        r == ip_width(stats_view(sources@)),
{
    let ghost v = stats_view(sources@);
    let mut w: usize = 9;
    let mut i: usize = 0;
    assert(v.take(0) =~= Seq::<SourceStatView>::empty());
    while i < sources.len()
        invariant
            v == stats_view(sources@),
            i <= sources@.len(),
            w == ip_width(v.take(i as int)),
        decreases sources@.len() - i,
    {
        assert(v.take(i + 1).drop_last() =~= v.take(i as int));
        let text = ip_text(sources[i].ip);
        let l = text.as_str().len();
        assert(v.take(i + 1).last() == sources@[i as int]@);
        assert(l == utf8_len(ip_display(v.take(i + 1).last().ip)));
        if l > w {
            w = l;
        }
        i = i + 1;
    }
    assert(v.take(sources@.len() as int) =~= v);
    w
}

/// A table of sources under `title` (no heading when empty); `shares`
/// holds each source's DKIM and SPF pass shares as text.
pub fn render_sources_table(title: &str, sources: &Vec<SourceStat>, shares: &Vec<(String, String)>) -> (r:
    String)
    requires
        shares@.len() == sources@.len(),
    ensures
        r@ == sources_table_text(title@, stats_view(sources@), shares_view(shares@)),
{
    let ghost v = stats_view(sources@);
    let ghost sh = shares_view(shares@);
    let mut out = String::new();
    if title.unicode_len() > 0 {
        out.append("== ");
        out.append(title);
        out.append(" ==\n");
    }
    let ghost head = out@;
    if sources.len() == 0 {
        out.append("(none)\n\n");
        return out;
    }
    let w = ip_width_of(sources);
    let mut body = table_header_of(w);
    let ghost hd = body@;
    let mut i: usize = 0;
    assert(body@ =~= hd + source_rows(v.take(0), sh, w as int));
    while i < sources.len()
        invariant
            v == stats_view(sources@),
            sh == shares_view(shares@),
            shares@.len() == sources@.len(),
            i <= sources@.len(),
            body@ == hd + source_rows(v.take(i as int), sh, w as int),
        decreases sources@.len() - i,
    {
        let row = source_row_of(&sources[i], w, shares[i].0.as_str(), shares[i].1.as_str());
        assert(v.take(i + 1).drop_last() =~= v.take(i as int));
        assert(v.take(i + 1).last() == v[i as int]);
        body.append(row.as_str());
        i = i + 1;
        assert(body@ =~= hd + source_rows(v.take(i as int), sh, w as int));
    }
    assert(v.take(sources@.len() as int) =~= v);
    body.append("\n");
    out.append(body.as_str());
    assert(out@ =~= sources_table_text(title@, v, sh));
    out
}

pub open spec fn attention_text(v: Seq<SourceStatView>, sh: Seq<(Seq<char>, Seq<char>)>) -> Seq<char> {
    "== Attention: sources failing both DKIM and SPF ==\n"@ + (if v.len() == 0 {
        "(none)\n\n"@
    } else {
        sources_table_text(""@, v, sh)
    })
}

/// The section of sources failing both DKIM and SPF.
pub fn render_attention(sources: &Vec<SourceStat>, shares: &Vec<(String, String)>) -> (r: String)
    requires
        shares@.len() == sources@.len(),
    ensures
        r@ == attention_text(stats_view(sources@), shares_view(shares@)),
{
    let mut out = String::from_str("== Attention: sources failing both DKIM and SPF ==\n");
    if sources.len() == 0 {
        out.append("(none)\n\n");
    } else {
        out.append(render_sources_table("", sources, shares).as_str());
    }
    out
}

/// Width of the organization column: the longest name, at least as wide
/// as `ORG`.
pub open spec fn org_width(v: Seq<ReporterStatView>) -> nat
    decreases v.len(),
{
    if v.len() == 0 {
        3
    } else {
        let w = org_width(v.drop_last());
        let l = utf8_len(v.last().org_name);
        if l > w {
            l
        } else {
            w
        }
    }
}

pub open spec fn reporter_row(r: ReporterStatView, w: int) -> Seq<char> {
    pad_right(r.org_name, w) + "  "@ + pad_left(decimal(r.reports as nat), 8) + "  "@ + pad_left(
        group_text(r.messages as nat),
        10,
    ) + "\n"@
}

pub open spec fn reporter_rows(v: Seq<ReporterStatView>, w: int) -> Seq<char>
    decreases v.len(),
{
    if v.len() == 0 {
        Seq::empty()
    } else {
        reporter_rows(v.drop_last(), w) + reporter_row(v.last(), w)
    }
}

pub open spec fn reporters_text(v: Seq<ReporterStatView>) -> Seq<char> {
    "== Reporters ==\n"@ + (if v.len() == 0 {
        "(none)\n"@
    } else {
        pad_right("ORG"@, org_width(v) as int) + "  "@ + pad_left("REPORTS"@, 8) + "  "@ + pad_left(
            "MESSAGES"@,
            10,
        ) + "\n"@ + reporter_rows(v, org_width(v) as int)
    })
}

fn reporter_row_of(r: &ReporterStat, w: usize) -> (out: String)
    ensures
        out@ == reporter_row(r@, w as int),
{
    let mut out = String::new();
    append_left_aligned(&mut out, r.org_name.as_str(), w);
    out.append("  ");
    append_right_aligned(&mut out, u64_text(r.reports as u64).as_str(), 8);
    out.append("  ");
    append_right_aligned(&mut out, group_digits(r.messages).as_str(), 10);
    out.append("\n");
    assert(out@ =~= reporter_row(r@, w as int));
    out
}

/// The reporters section.
pub fn render_reporters(reporters: &Vec<ReporterStat>) -> (r: String)
    ensures
        r@ == reporters_text(reporters_view(reporters@)),
{
    let ghost v = reporters_view(reporters@);
    let mut out = String::from_str("== Reporters ==\n");
    if reporters.len() == 0 {
        out.append("(none)\n");
        return out;
    }
    let mut w: usize = 3;
    let mut i: usize = 0;
    assert(v.take(0) =~= Seq::<ReporterStatView>::empty());
    while i < reporters.len()
        invariant
            v == reporters_view(reporters@),
            i <= reporters@.len(),
            w == org_width(v.take(i as int)),
        decreases reporters@.len() - i,
    {
        assert(v.take(i + 1).drop_last() =~= v.take(i as int));
        let l = reporters[i].org_name.as_str().len();
        assert(v.take(i + 1).last() == reporters@[i as int]@);
        assert(l == utf8_len(v.take(i + 1).last().org_name));
        if l > w {
            w = l;
        }
        i = i + 1;
    }
    assert(v.take(reporters@.len() as int) =~= v);
    let mut body = String::new();
    append_left_aligned(&mut body, "ORG", w);
    body.append("  ");
    append_right_aligned(&mut body, "REPORTS", 8);
    body.append("  ");
    append_right_aligned(&mut body, "MESSAGES", 10);
    body.append("\n");
    let ghost hd = body@;
    let mut k: usize = 0;
    assert(body@ =~= hd + reporter_rows(v.take(0), w as int));
    while k < reporters.len()
        invariant
            v == reporters_view(reporters@),
            k <= reporters@.len(),
            body@ == hd + reporter_rows(v.take(k as int), w as int),
        decreases reporters@.len() - k,
    {
        let row = reporter_row_of(&reporters[k], w);
        assert(v.take(k + 1).drop_last() =~= v.take(k as int));
        body.append(row.as_str());
        k = k + 1;
        assert(body@ =~= hd + reporter_rows(v.take(k as int), w as int));
    }
    assert(v.take(reporters@.len() as int) =~= v);
    out.append(body.as_str());
    assert(out@ =~= reporters_text(v));
    out
}

/// The whole human-readable summary.
pub open spec fn human_text(s: Summary, shares: Shares) -> Seq<char> {
    overview_text(s, shares.pass_rate@) + auth_text(s) + sources_table_text(
        "Top sources by messages"@,
        stats_view(s.top_sources@),
        shares_view(shares.top_sources@),
    ) + attention_text(stats_view(s.failing_sources@), shares_view(shares.failing_sources@))
        + reporters_text(reporters_view(s.reporters@))
}

/// Renders the summary as text: overview, authentication, top sources,
/// sources failing both checks, and reporters.
pub fn render_human(summary: &Summary, shares: &Shares) -> (r: String)
    requires
        shares.top_sources@.len() == summary.top_sources@.len(),
        shares.failing_sources@.len() == summary.failing_sources@.len(),
    ensures
        r@ == human_text(*summary, *shares),
{
    let mut out = render_overview(summary, shares.pass_rate.as_str());
    out.append(render_auth(summary).as_str());
    out.append(
        render_sources_table(
            "Top sources by messages",
            &summary.top_sources,
            &shares.top_sources,
        ).as_str(),
    );
    out.append(render_attention(&summary.failing_sources, &shares.failing_sources).as_str());
    out.append(render_reporters(&summary.reporters).as_str());
    out
}

} // verus!