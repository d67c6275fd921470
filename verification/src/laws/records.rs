//! What conversion keeps of a report: every record is kept or explained
//! by one warning, broken records never fail a report, and enumerated
//! values are read regardless of case and padding.

use vstd::prelude::*;
use crate::model::{
    alignment_of, disposition_of, disposition_text, dmarc_result_of, normalized,
    AlignmentView, DispositionView, DkimAuthResultView, DmarcResultView, RecordView, RecordWarningView, SpfAuthResultView,
};
use crate::raw::{
    auth_view, dkim_entries, dkim_entry, kept_records, metadata_outcome, policy_outcome, present,
    record_outcome, report_outcome, skipped_records, spf_entries, spf_entry, RawAuthResults, RawDkimResult,
    RawFeedback, RawRecord, RawSpfResult,
};
use crate::model::opt_text;
use crate::text::{is_space, lower, lower_char, trim, trim_end, trim_start};

verus! {

/// The warning `w` stands for the record `r`: converting `r` fails on the
/// field and with the message that `w` names.
pub open spec fn explains(w: RecordWarningView, r: RawRecord) -> bool {
    record_outcome(r) == Err::<RecordView, (Seq<char>, Seq<char>)>((w.field, w.message))
}

/// Every `<record>` of a report is either kept or reported in exactly one
/// warning, warnings name the indexes of the skipped records in increasing
/// order, and each warning gives the field and message on which its record
/// failed to convert. (The records come from a `Vec`, so their number fits
/// in `usize`.)
#[verifier::spinoff_prover]
pub proof fn law_records_accounted(s: Seq<RawRecord>)
    requires
        s.len() <= usize::MAX,
    ensures
        kept_records(s).len() + skipped_records(s).len() == s.len(),
        forall|k: int|
            0 <= k < skipped_records(s).len() ==> {
                let w = #[trigger] skipped_records(s)[k];
                &&& w.record_index < s.len()
                &&& explains(w, s[w.record_index as int])
            },
        forall|a: int, b: int|
            0 <= a < b < skipped_records(s).len() ==> (#[trigger] skipped_records(s)[a]).record_index
                < (#[trigger] skipped_records(s)[b]).record_index,
    decreases s.len(),
{
    if s.len() > 0 {
        let p = s.drop_last();
        law_records_accounted(p);
        let sp = skipped_records(p);
        let ss = skipped_records(s);
        assert forall|i: int| 0 <= i < p.len() implies s[i] == p[i] by {}
        match record_outcome(s.last()) {
            Ok(_) => {
                assert(ss == sp);
                assert(kept_records(s).len() == kept_records(p).len() + 1);
            },
            Err((f, m)) => {
                let w = RecordWarningView { record_index: (s.len() - 1) as usize, field: f, message: m };
                assert(ss == sp.push(w));
                assert(kept_records(s) == kept_records(p));
                assert forall|k: int| 0 <= k < ss.len() implies {
                    let x = #[trigger] ss[k];
                    &&& x.record_index < s.len()
                    &&& explains(x, s[x.record_index as int])
                } by {
                    if k < sp.len() {
                        assert(ss[k] == sp[k]);
                        assert(s[sp[k].record_index as int] == p[sp[k].record_index as int]);
                    } else {
                        assert(ss[k] == w);
                        assert(s[s.len() - 1] == s.last());
                    }
                }
                assert forall|a: int, b: int| 0 <= a < b < ss.len() implies (#[trigger] ss[a]).record_index
                    < (#[trigger] ss[b]).record_index by {
                    assert(ss[a] == sp[a]);
                    if b < sp.len() {
                        assert(ss[b] == sp[b]);
                    }
                }
            },
        }
    }
}

/// Broken records never fail a report: a report whose metadata and
/// published policy convert is accepted whatever its records hold.
pub proof fn law_records_never_fail_report(raw: RawFeedback)
    requires
        raw.report_metadata matches Some(m) && metadata_outcome(m) is Ok,
        raw.policy_published matches Some(p) && policy_outcome(p) is Ok,
    ensures
        report_outcome(raw) is Ok,
{
}

// ---------------------------------------------------------------------------
// Normalization of enumerated values

proof fn lemma_lower_char(c: char)
    ensures
        is_space(lower_char(c)) == is_space(c),
        lower_char(lower_char(c)) == lower_char(c),
{
}

proof fn lemma_lower_drop_first(s: Seq<char>)
    requires
        s.len() > 0,
    ensures
        lower(s).drop_first() == lower(s.drop_first()),
        lower(s)[0] == lower_char(s[0]),
{
    assert(lower(s).drop_first() =~= lower(s.drop_first()));
}

proof fn lemma_lower_drop_last(s: Seq<char>)
    requires
        s.len() > 0,
    ensures
        lower(s).drop_last() == lower(s.drop_last()),
        lower(s).last() == lower_char(s.last()),
{
    assert(lower(s).drop_last() =~= lower(s.drop_last()));
}

proof fn lemma_trim_start_lower(s: Seq<char>)
    ensures
        trim_start(lower(s)) == lower(trim_start(s)),
    decreases s.len(),
{
    if s.len() > 0 {
        lemma_lower_drop_first(s);
        lemma_lower_char(s[0]);
        lemma_trim_start_lower(s.drop_first());
    }
}

proof fn lemma_trim_end_lower(s: Seq<char>)
    ensures
        trim_end(lower(s)) == lower(trim_end(s)),
    decreases s.len(),
{
    if s.len() > 0 {
        lemma_lower_drop_last(s);
        lemma_lower_char(s.last());
        lemma_trim_end_lower(s.drop_last());
    }
}

proof fn lemma_lower_idempotent(s: Seq<char>)
    ensures
        lower(lower(s)) == lower(s),
{
    assert forall|i: int| 0 <= i < s.len() implies lower(lower(s))[i] == lower(s)[i] by {
        lemma_lower_char(s[i]);
    }
    assert(lower(lower(s)) =~= lower(s));
}

/// `trim_end` keeps a prefix, which ends in a non-space when not empty.
proof fn lemma_trim_end_prefix(s: Seq<char>)
    ensures
        trim_end(s).len() <= s.len(),
        trim_end(s) == s.take(trim_end(s).len() as int),
        trim_end(s).len() > 0 ==> !is_space(trim_end(s).last()),
    decreases s.len(),
{
    if s.len() > 0 && is_space(s.last()) {
        lemma_trim_end_prefix(s.drop_last());
        assert(s.drop_last().take(trim_end(s).len() as int) =~= s.take(trim_end(s).len() as int));
    } else {
        assert(s.take(s.len() as int) =~= s);
    }
}

proof fn lemma_trim_idempotent(s: Seq<char>)
    ensures
        trim(trim(s)) == trim(s),
{
    let y = trim_start(s);
    lemma_trim_start_nonspace(s);
    let t = trim_end(y);
    lemma_trim_end_prefix(y);
    // `t` starts like `y`, with a non-space, so trimming its start keeps it.
    if t.len() > 0 {
        assert(t[0] == y[0]);
    }
    assert(trim_start(t) == t);
    lemma_trim_end_prefix(t);
    if t.len() > 0 {
        assert(trim_end(t) == t);
    }
}

proof fn lemma_trim_start_nonspace(s: Seq<char>)
    ensures
        trim_start(s).len() > 0 ==> !is_space(trim_start(s)[0]),
    decreases s.len(),
{
    if s.len() > 0 && is_space(s[0]) {
        lemma_trim_start_nonspace(s.drop_first());
    }
}

/// Normalizing is idempotent and ignores ASCII case.
proof fn lemma_normalized(s: Seq<char>)
    ensures
        normalized(lower(s)) == normalized(s),
        normalized(normalized(s)) == normalized(s),
{
    lemma_trim_start_lower(s);
    lemma_trim_end_lower(trim_start(s));
    lemma_lower_idempotent(trim(s));
    let t = trim(s);
    lemma_trim_start_lower(t);
    lemma_trim_end_lower(trim_start(t));
    lemma_trim_idempotent(s);
    lemma_lower_idempotent(t);
}

/// Mixed-case and padded values are normalized: a disposition, a DMARC
/// result and an alignment read the same whatever the ASCII case of the
/// text and whatever whitespace surrounds it.
pub proof fn law_values_ignore_case(s: Seq<char>)
    ensures
        disposition_of(lower(s)) == disposition_of(s),
        dmarc_result_of(lower(s)) == dmarc_result_of(s),
        alignment_of(lower(s)) == alignment_of(s),
        disposition_of(trim(s)) == disposition_of(s),
        dmarc_result_of(trim(s)) == dmarc_result_of(s),
        alignment_of(trim(s)) == alignment_of(s),
{
    lemma_normalized(s);
    lemma_trim_idempotent(s);
}

proof fn lemma_keyword_normalized(k: Seq<char>)
    requires
        k.len() > 0,
        forall|i: int| 0 <= i < k.len() ==> 'a' <= #[trigger] k[i] <= 'z',
    ensures
        normalized(k) == k,
{
    assert(!is_space(k[0]));
    assert(trim_start(k) == k);
    assert(!is_space(k.last()));
    assert(trim_end(k) == k);
    assert(lower(k) =~= k);
}

/// A disposition reads back as itself from its text: parsing what
/// `as_str` gives returns the same disposition.
pub proof fn law_disposition_text_roundtrip(s: Seq<char>)
    ensures
        disposition_of(disposition_text(disposition_of(s))) == disposition_of(s),
{
    reveal_strlit("none");
    reveal_strlit("quarantine");
    reveal_strlit("reject");
    match disposition_of(s) {
        DispositionView::NoAction => lemma_keyword_normalized("none"@),
        DispositionView::Quarantine => lemma_keyword_normalized("quarantine"@),
        DispositionView::Reject => lemma_keyword_normalized("reject"@),
        DispositionView::Other(t) => lemma_normalized(s),
    }
}

/// What an enumerated value reads as, for any text: its trimmed, ASCII
/// lowercased form decides; `none`, `quarantine` and `reject` are the three
/// dispositions, `pass` and `fail` the two DMARC results, `r`/`relaxed` and
/// `s`/`strict` the two alignments, and any other text is kept, in that
/// normalized form, as `Other`.
pub proof fn law_enumerated_values(s: Seq<char>)
    ensures
        ({
            let t = lower(trim(s));
            &&& disposition_of(s) == if t == seq!['n', 'o', 'n', 'e'] {
                DispositionView::NoAction
            } else if t == seq!['q', 'u', 'a', 'r', 'a', 'n', 't', 'i', 'n', 'e'] {
                DispositionView::Quarantine
            } else if t == seq!['r', 'e', 'j', 'e', 'c', 't'] {
                DispositionView::Reject
            } else {
                DispositionView::Other(t)
            }
            &&& dmarc_result_of(s) == if t == seq!['p', 'a', 's', 's'] {
                DmarcResultView::Pass
            } else if t == seq!['f', 'a', 'i', 'l'] {
                DmarcResultView::Fail
            } else {
                DmarcResultView::Other(t)
            }
            &&& alignment_of(s) == if t == seq!['r'] || t == seq!['r', 'e', 'l', 'a', 'x', 'e', 'd'] {
                AlignmentView::Relaxed
            } else if t == seq!['s'] || t == seq!['s', 't', 'r', 'i', 'c', 't'] {
                AlignmentView::Strict
            } else {
                AlignmentView::Other(t)
            }
        }),
{
    reveal_strlit("none");
    reveal_strlit("quarantine");
    reveal_strlit("reject");
    reveal_strlit("pass");
    reveal_strlit("fail");
    reveal_strlit("r");
    reveal_strlit("relaxed");
    reveal_strlit("s");
    reveal_strlit("strict");
    assert("none"@ =~= seq!['n', 'o', 'n', 'e']);
    assert("quarantine"@ =~= seq!['q', 'u', 'a', 'r', 'a', 'n', 't', 'i', 'n', 'e']);
    assert("reject"@ =~= seq!['r', 'e', 'j', 'e', 'c', 't']);
    assert("pass"@ =~= seq!['p', 'a', 's', 's']);
    assert("fail"@ =~= seq!['f', 'a', 'i', 'l']);
    assert("r"@ =~= seq!['r']);
    assert("relaxed"@ =~= seq!['r', 'e', 'l', 'a', 'x', 'e', 'd']);
    assert("s"@ =~= seq!['s']);
    assert("strict"@ =~= seq!['s', 't', 'r', 'i', 'c', 't']);
}

// ---------------------------------------------------------------------------
// Authentication results

proof fn lemma_dkim_concat(a: Seq<RawDkimResult>, b: Seq<RawDkimResult>)
    ensures
        dkim_entries(a + b) == dkim_entries(a) + dkim_entries(b),
    decreases b.len(),
{
    if b.len() == 0 {
        assert(a + b =~= a);
        assert(dkim_entries(a) + dkim_entries(b) =~= dkim_entries(a));
    } else {
        lemma_dkim_concat(a, b.drop_last());
        assert((a + b).drop_last() =~= a + b.drop_last());
        assert((a + b).last() == b.last());
        match dkim_entry(b.last()) {
            Some(v) => {
                assert((dkim_entries(a) + dkim_entries(b.drop_last())).push(v) =~= dkim_entries(a)
                    + dkim_entries(b.drop_last()).push(v));
            },
            None => {},
        }
    }
}

proof fn lemma_spf_concat(a: Seq<RawSpfResult>, b: Seq<RawSpfResult>)
    ensures
        spf_entries(a + b) == spf_entries(a) + spf_entries(b),
    decreases b.len(),
{
    if b.len() == 0 {
        assert(a + b =~= a);
        assert(spf_entries(a) + spf_entries(b) =~= spf_entries(a));
    } else {
        lemma_spf_concat(a, b.drop_last());
        assert((a + b).drop_last() =~= a + b.drop_last());
        assert((a + b).last() == b.last());
        match spf_entry(b.last()) {
            Some(v) => {
                assert((spf_entries(a) + spf_entries(b.drop_last())).push(v) =~= spf_entries(a)
                    + spf_entries(b.drop_last()).push(v));
            },
            None => {},
        }
    }
}

/// The DKIM result kept for one raw entry: none unless it has a non-blank
/// domain and result; else the trimmed domain, the trimmed and lowercased
/// result, and the selector if non-blank.
pub open spec fn dkim_kept(x: RawDkimResult) -> Seq<DkimAuthResultView> {
    match (x.domain, x.result) {
        (Some(d), Some(r)) => if trim(d@).len() > 0 && trim(r@).len() > 0 {
            seq![
                DkimAuthResultView {
                    domain: trim(d@),
                    result: lower(trim(r@)),
                    selector: present(opt_text(x.selector)),
                },
            ]
        } else {
            Seq::empty()
        },
        _ => Seq::empty(),
    }
}

/// The SPF result kept for one raw entry: none unless it has a non-blank
/// domain and result; else the trimmed domain and the trimmed and
/// lowercased result.
pub open spec fn spf_kept(x: RawSpfResult) -> Seq<SpfAuthResultView> {
    match (x.domain, x.result) {
        (Some(d), Some(r)) => if trim(d@).len() > 0 && trim(r@).len() > 0 {
            seq![SpfAuthResultView { domain: trim(d@), result: lower(trim(r@)) }]
        } else {
            Seq::empty()
        },
        _ => Seq::empty(),
    }
}

/// Converting authentication results keeps every usable entry, in order:
/// the results of entries written one after another are the results of
/// each part one after another, one raw entry gives exactly what it holds
/// (nothing when its domain or result is blank), and no entries give
/// nothing. So the DKIM and SPF results of a record list each entry with a
/// non-blank domain and result, at its place.
pub proof fn law_auth_results_keep_each(
    a: Seq<RawDkimResult>,
    b: Seq<RawDkimResult>,
    x: RawDkimResult,
    c: Seq<RawSpfResult>,
    d: Seq<RawSpfResult>,
    y: RawSpfResult,
    raw: RawAuthResults,
)
    ensures
        dkim_entries(a + b) == dkim_entries(a) + dkim_entries(b),
        dkim_entries(seq![x]) == dkim_kept(x),
        dkim_entries(Seq::empty()) == Seq::<DkimAuthResultView>::empty(),
        spf_entries(c + d) == spf_entries(c) + spf_entries(d),
        spf_entries(seq![y]) == spf_kept(y),
        spf_entries(Seq::empty()) == Seq::<SpfAuthResultView>::empty(),
        auth_view(Some(raw)).dkim == dkim_entries(raw.dkim@),
        auth_view(Some(raw)).spf == spf_entries(raw.spf@),
        auth_view(None).dkim.len() == 0 && auth_view(None).spf.len() == 0,
{
    lemma_dkim_concat(a, b);
    lemma_spf_concat(c, d);
    let sx = seq![x];
    assert(sx.drop_last() =~= Seq::<RawDkimResult>::empty());
    assert(sx.last() == x);
    assert(dkim_entries(sx.drop_last()) =~= Seq::<DkimAuthResultView>::empty());
    match dkim_entry(x) {
        Some(v) => {
            assert(dkim_entries(sx) =~= seq![v]);
        },
        None => {
            assert(dkim_entries(sx) =~= Seq::<DkimAuthResultView>::empty());
        },
    }
    assert(dkim_entries(sx) =~= dkim_kept(x));
    let sy = seq![y];
    assert(sy.drop_last() =~= Seq::<RawSpfResult>::empty());
    assert(sy.last() == y);
    assert(spf_entries(sy.drop_last()) =~= Seq::<SpfAuthResultView>::empty());
    match spf_entry(y) {
        Some(v) => {
            assert(spf_entries(sy) =~= seq![v]);
        },
        None => {
            assert(spf_entries(sy) =~= Seq::<SpfAuthResultView>::empty());
        },
    }
    assert(spf_entries(sy) =~= spf_kept(y));
}

} // verus!
