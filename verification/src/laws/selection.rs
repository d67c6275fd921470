//! Which reports the filters keep: the date window looks at the end of a
//! report's range for `--since` and at its begin for `--until`, and the
//! domain is compared without regard to ASCII case.

use vstd::prelude::*;
use crate::model::AggregateReport;
use crate::summary::{admitted, Filters};
use crate::text::lower;

verus! {

/// A report is kept exactly when its date range ends at or after `since`
/// (whatever its begin), begins before `until` (whatever its end), and its
/// published domain equals the filter's domain up to ASCII case; a filter
/// left out keeps every report.
pub proof fn law_filter_keeps(f: Filters, r: AggregateReport)
    ensures
        f.admits(r) <==> {
            &&& match f.since {
                Some(since) => r.metadata.date_range.end >= since,
                None => true,
            }
            &&& match f.until {
                Some(until) => r.metadata.date_range.begin < until,
                None => true,
            }
            &&& match f.domain {
                Some(d) => lower(r.policy_published.domain@) == lower(d@),
                None => true,
            }
        },
{
}

/// The filters act on each report alone: a report is kept among others
/// exactly when it is kept by itself, and the kept reports keep their
/// order.
pub proof fn law_filter_selects(f: Filters, reps: Seq<AggregateReport>, r: AggregateReport)
    ensures
        admitted(reps.push(r), f) == if f.admits(r) {
            admitted(reps, f).push(r)
        } else {
            admitted(reps, f)
        },
        admitted(Seq::empty(), f) == Seq::<AggregateReport>::empty(),
{
    assert(reps.push(r).drop_last() =~= reps);
}

} // verus!
