//! Classification of log entries into system events by case-insensitive
//! keyword matching.

use vstd::prelude::*;
use crate::models::{EventKind, LogEntry, LogEntryView, SystemEvent, SystemEventView};
use crate::text::{contains_lit, lower_text, seq_contains, to_lowercase};

verus! {

/// The kind of event a lower-cased message denotes, trying the rules in
/// order; `None` when no rule matches.
pub open spec fn classify_text(m: Seq<char>) -> Option<EventKind> {
    if seq_contains(m, "service started"@) || seq_contains(m, "service start"@) {
        Some(EventKind::ServiceStart)
    } else if (seq_contains(m, "service"@) && seq_contains(m, "crash"@)) || seq_contains(
        m,
        "service panic"@,
    ) {
        Some(EventKind::ServiceCrash)
    } else if seq_contains(m, "segfault"@) || seq_contains(m, "panic"@) || (seq_contains(
        m,
        "crash"@,
    ) && !seq_contains(m, "service"@)) {
        Some(EventKind::SystemCrash)
    } else if seq_contains(m, "reset"@) || seq_contains(m, "rebooted"@) || seq_contains(
        m,
        "reboot"@,
    ) {
        Some(EventKind::Reset)
    } else if seq_contains(m, "timeout"@) {
        Some(EventKind::Timeout)
    } else if seq_contains(m, "watchdog"@) {
        Some(EventKind::Watchdog)
    } else if seq_contains(m, "discrepancy"@) || seq_contains(m, "mismatch"@) || seq_contains(
        m,
        "inconsistent"@,
    ) {
        Some(EventKind::Discrepancy)
    } else if seq_contains(m, "deviation"@) || seq_contains(m, "unexpected"@) || seq_contains(
        m,
        "abnormal"@,
    ) {
        Some(EventKind::Deviation)
    } else {
        None
    }
}

/// The text an event of kind `k` carries for entry `e`: the process name for
/// starts, service crashes and timeouts, the whole message for system
/// crashes, resets, discrepancies and deviations, nothing for a watchdog.
pub open spec fn event_detail(k: EventKind, e: LogEntryView) -> Seq<char> {
    match k {
        EventKind::ServiceStart => e.process,
        EventKind::ServiceCrash => e.process,
        EventKind::Timeout => e.process,
        EventKind::Watchdog => Seq::empty(),
        _ => e.message,
    }
}

/// The event an entry yields, if any.
pub open spec fn event_of_entry(e: LogEntryView) -> Option<SystemEventView> {
    match classify_text(lower_text(e.message)) {
        None => None,
        Some(k) => Some(
            SystemEventView {
                kind: k,
                domain: e.domain,
                detail: event_detail(k, e),
                timestamp: e.timestamp,
                raw_log: e.message,
            },
        ),
    }
}

/// The events of a sequence of entries, in entry order.
pub open spec fn classify_spec(entries: Seq<LogEntryView>) -> Seq<SystemEventView>
    decreases entries.len(),
{
    if entries.len() == 0 {
        Seq::empty()
    } else {
        let rest = classify_spec(entries.drop_last());
        match event_of_entry(entries.last()) {
            Some(ev) => rest.push(ev),
            None => rest,
        }
    }
}

fn classify_kind(m: &Vec<char>) -> (k: Option<EventKind>)
    ensures
        k == classify_text(m@),
{
    if contains_lit(m, "service started") || contains_lit(m, "service start") {
        return Some(EventKind::ServiceStart);
    }
    if (contains_lit(m, "service") && contains_lit(m, "crash")) || contains_lit(m, "service panic") {
        return Some(EventKind::ServiceCrash);
    }
    if contains_lit(m, "segfault") || contains_lit(m, "panic") || (contains_lit(m, "crash")
        && !contains_lit(m, "service")) {
        return Some(EventKind::SystemCrash);
    }
    if contains_lit(m, "reset") || contains_lit(m, "rebooted") || contains_lit(m, "reboot") {
        return Some(EventKind::Reset);
    }
    if contains_lit(m, "timeout") {
        return Some(EventKind::Timeout);
    }
    if contains_lit(m, "watchdog") {
        return Some(EventKind::Watchdog);
    }
    if contains_lit(m, "discrepancy") || contains_lit(m, "mismatch") || contains_lit(
        m,
        "inconsistent",
    ) {
        return Some(EventKind::Discrepancy);
    }
    if contains_lit(m, "deviation") || contains_lit(m, "unexpected") || contains_lit(m, "abnormal") {
        return Some(EventKind::Deviation);
    }
    None
}

fn make_event(k: EventKind, e: &LogEntry) -> (ev: SystemEvent)
    ensures
        ev@ == (SystemEventView {
            kind: k,
            domain: e.domain,
            detail: event_detail(k, e@),
            timestamp: e.timestamp,
            raw_log: e.message@,
        }),
{
    let domain = e.domain;
    let timestamp = e.timestamp;
    let raw_log = e.message.clone();
    match k {
        EventKind::ServiceStart => SystemEvent::ServiceStart {
            domain,
            name: e.process.clone(),
            timestamp,
            raw_log,
        },
        EventKind::ServiceCrash => SystemEvent::ServiceCrash {
            domain,
            process: e.process.clone(),
            timestamp,
            raw_log,
        },
        EventKind::SystemCrash => SystemEvent::SystemCrash {
            domain,
            reason: e.message.clone(),
            timestamp,
            raw_log,
        },
        EventKind::Reset => SystemEvent::Reset {
            domain,
            reason: e.message.clone(),
            timestamp,
            raw_log,
        },
        EventKind::Timeout => SystemEvent::Timeout {
            domain,
            service: e.process.clone(),
            timestamp,
            raw_log,
        },
        EventKind::Watchdog => SystemEvent::Watchdog { domain, timestamp, raw_log },
        EventKind::Discrepancy => SystemEvent::Discrepancy {
            domain,
            details: e.message.clone(),
            timestamp,
            raw_log,
        },
        EventKind::Deviation => SystemEvent::Deviation {
            domain,
            details: e.message.clone(),
            timestamp,
            raw_log,
        },
    }
}

/// Classify log entries into `SystemEvent`s using case-insensitive substring
/// matching: each entry yields at most one event, the first rule that its
/// lower-cased message matches, and events keep the order of the entries.
pub fn classify_logs(entries: &[LogEntry]) -> (events: Vec<SystemEvent>)
    ensures
        events.deep_view() == classify_spec(entries.deep_view()),
{
    let mut events: Vec<SystemEvent> = Vec::new();
    let n = entries.len();
    let mut i: usize = 0;
    while i < n
        invariant
            n == entries@.len(),
            i <= n,
            events.deep_view() == classify_spec(entries.deep_view().take(i as int)),
        decreases n - i,
    {
        let e = &entries[i];
        let msg = to_lowercase(e.message.as_str());
        let kind = classify_kind(&msg);
        let ghost before = events.deep_view();
        proof {
            assert(entries.deep_view().take(i + 1).drop_last() =~= entries.deep_view().take(
                i as int,
            ));
            assert(entries.deep_view().take(i + 1).last() == e@);
        }
        match kind {
            Some(k) => {
                let ev = make_event(k, e);
                events.push(ev);
                assert(events.deep_view() =~= before.push(event_of_entry(e@).unwrap()));
            },
            None => {},
        }
        i = i + 1;
    }
    proof {
        assert(entries.deep_view().take(n as int) =~= entries.deep_view());
    }
    events
}

} // verus!
