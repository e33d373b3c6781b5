//! The metrics report: the events counted kind by kind, over both domains
//! and per domain.

use vstd::prelude::*;
use crate::models::{Domain, DomainMetrics, EventKind, SystemEvent, SystemEventView};
use crate::reporter::{count_kind, domain_metrics, metrics_ok};

verus! {

/// A metrics report: its title, when it was made, the boot time, the event
/// totals, the per-domain counts and the events themselves. (The CPU and
/// memory samples that go with a report hold floating-point values and are
/// kept beside it by the caller.)
#[derive(Debug)]
pub struct MetricsReport {
    pub report_title: String,
    pub generated_at: String,
    pub boot_time_ms: i64,
    pub total_service_starts: usize,
    pub total_service_crashes: usize,
    pub total_system_crashes: usize,
    pub total_timeouts: usize,
    pub total_watchdog_triggers: usize,
    pub total_resets: usize,
    pub total_discrepancies: usize,
    pub total_deviations: usize,
    /// The counts of each domain, under the domain's display name.
    pub by_domain: Vec<(String, DomainMetrics)>,
    /// The events the report was made from, for detailed reporting.
    pub events: Vec<SystemEvent>,
}

/// Number of events of kind `k`, whatever their domain.
pub open spec fn count_all(evs: Seq<SystemEventView>, k: EventKind) -> nat
    decreases evs.len(),
{
    if evs.len() == 0 {
        0
    } else {
        count_all(evs.drop_last(), k) + if evs.last().kind == k {
            1nat
        } else {
            0nat
        }
    }
}

/// The totals of a report are the counts of the events, kind by kind.
pub open spec fn totals_ok(r: &MetricsReport, evs: Seq<SystemEventView>) -> bool {
    &&& r.total_service_starts == count_all(evs, EventKind::ServiceStart)
    &&& r.total_service_crashes == count_all(evs, EventKind::ServiceCrash)
    &&& r.total_system_crashes == count_all(evs, EventKind::SystemCrash)
    &&& r.total_timeouts == count_all(evs, EventKind::Timeout)
    &&& r.total_watchdog_triggers == count_all(evs, EventKind::Watchdog)
    &&& r.total_resets == count_all(evs, EventKind::Reset)
    &&& r.total_discrepancies == count_all(evs, EventKind::Discrepancy)
    &&& r.total_deviations == count_all(evs, EventKind::Deviation)
}

proof fn lemma_count_all_bound(evs: Seq<SystemEventView>, k: EventKind)
    ensures
        count_all(evs, k) <= evs.len(),
    decreases evs.len(),
{
    if evs.len() > 0 {
        lemma_count_all_bound(evs.drop_last(), k);
    }
}

/// Build the metrics report of `events`: the totals kind by kind, and the
/// counts of the QNX and the Android events, in that order, under their
/// display names.
pub fn generate_metrics(
    events: Vec<SystemEvent>,
    report_title: String,
    generated_at: String,
    boot_time_ms: i64,
) -> (r: MetricsReport)
    ensures
        r.report_title@ == report_title@,
        r.generated_at@ == generated_at@,
        r.boot_time_ms == boot_time_ms,
        r.events.deep_view() == events.deep_view(),
        totals_ok(&r, events.deep_view()),
        r.by_domain@.len() == 2,
        r.by_domain@[0].0@ == "QNX"@,
        metrics_ok(r.by_domain@[0].1, events.deep_view(), Domain::Qnx),
        r.by_domain@[1].0@ == "Android"@,
        metrics_ok(r.by_domain@[1].1, events.deep_view(), Domain::Android),
{
    let ghost evs = events.deep_view();
    let ghost title = report_title@;
    let ghost generated = generated_at@;
    let n = events.len();
    let mut r = MetricsReport {
        report_title,
        generated_at,
        boot_time_ms,
        total_service_starts: 0,
        total_service_crashes: 0,
        total_system_crashes: 0,
        total_timeouts: 0,
        total_watchdog_triggers: 0,
        total_resets: 0,
        total_discrepancies: 0,
        total_deviations: 0,
        by_domain: Vec::new(),
        events: Vec::new(),
    };
    let mut i: usize = 0;
    while i < n
        invariant
            evs == events.deep_view(),
            n == evs.len(),
            i <= n,
            totals_ok(&r, evs.take(i as int)),
            r.report_title@ == title,
            r.generated_at@ == generated,
            r.boot_time_ms == boot_time_ms,
            r.by_domain@.len() == 0,
        decreases n - i,
    {
        let e = &events[i];
        proof {
            assert(evs.take(i + 1).drop_last() =~= evs.take(i as int));
            assert(evs.take(i + 1).last() == e@);
            lemma_count_all_bound(evs.take(i as int), e@.kind);
        }
        match e {
            SystemEvent::ServiceStart { .. } => r.total_service_starts = r.total_service_starts + 1,
            SystemEvent::ServiceCrash { .. } => r.total_service_crashes = r.total_service_crashes
                + 1,
            SystemEvent::SystemCrash { .. } => r.total_system_crashes = r.total_system_crashes + 1,
            SystemEvent::Timeout { .. } => r.total_timeouts = r.total_timeouts + 1,
            SystemEvent::Watchdog { .. } => r.total_watchdog_triggers = r.total_watchdog_triggers
                + 1,
            SystemEvent::Reset { .. } => r.total_resets = r.total_resets + 1,
            SystemEvent::Discrepancy { .. } => r.total_discrepancies = r.total_discrepancies + 1,
            SystemEvent::Deviation { .. } => r.total_deviations = r.total_deviations + 1,
        }
        i = i + 1;
    }
    assert(evs.take(n as int) =~= evs);
    let qnx = domain_metrics(events.as_slice(), Domain::Qnx);
    let android = domain_metrics(events.as_slice(), Domain::Android);
    r.by_domain.push((Domain::Qnx.name().to_string(), qnx));
    r.by_domain.push((Domain::Android.name().to_string(), android));
    r.events = events;
    r
}

} // verus!
