//! What the main operations do, stated directly in terms of their inputs and
//! results, and proved: the timestamps of system log lines, the keyword rules
//! of classification, the crash and warning counts around a transmitted
//! frame, the summary cards and issue table of the HTML report, the hex
//! payload bytes and bit test of a correlation rule, and the summary of a
//! captured packet.

use vstd::prelude::*;
use vstd::utf8::encode_utf8;
use crate::classifier::{classify_spec, event_of_entry};
use crate::metrics::MetricsReport;
use crate::models::{CanFrameView, EthFrameView, EventKind, LogEntryView, SystemEventView};
use crate::pcap::packet_summary;
use crate::reporter::{frames_near, issue_row, issue_rows, issue_rows_of, report_html, severity_rank};
use crate::rules::{
    correlate_spec, match_text, count_after_where, crash_names, first_crash, hex_pair_value, impact_ok,
    rule_hits, rule_lines, SimpleRuleView, WindowImpact,
};
use crate::parser::{byte_len, digit_run, log_line_time};
use crate::text::{
    all_digits, dec_digits, decimal_value, int_text, lower_text, occurs_at, pow10, seq_contains,
    spec_parse_i64,
};

verus! {

// ---------------------------------------------------------------------------
// Timestamps of system log lines

/// Each ASCII digit takes one byte.
proof fn lemma_digits_one_byte_each(t: Seq<char>)
    requires
        all_digits(t),
    ensures
        byte_len(t) == t.len(),
    decreases t.len(),
{
    if t.len() > 0 {
        assert(all_digits(t.drop_first()));
        assert(crate::text::is_digit_char(t[0]));
        lemma_digits_one_byte_each(t.drop_first());
    }
}

/// A system log line's timestamp token of 9 to 13 digits is read in
/// milliseconds, padded with zeros to 13 digits: a 13-digit token is taken as
/// it stands, a 10-digit token (seconds) is multiplied by 1000; the clock is
/// not consulted.
pub proof fn law_log_time_in_millis(line: Seq<char>, t: Seq<char>, now: i64)
    requires
        digit_run(line) == Some(t),
        all_digits(t),
        9 <= t.len() <= 13,
    ensures
        log_line_time(line, now) == decimal_value(t) * pow10((13 - t.len()) as nat),
        t.len() == 13 ==> log_line_time(line, now) == decimal_value(t),
        t.len() == 10 ==> log_line_time(line, now) == decimal_value(t) * 1000,
{
    lemma_digits_one_byte_each(t);
    crate::text::lemma_decimal_value_bound(t);
    crate::text::lemma_decimal_value_nonneg(t);
    reveal_with_fuel(pow10, 14);
    assert(crate::text::is_digit_char(t[0]));
    assert(spec_parse_i64(t) == Some(decimal_value(t) as i64));
    assert((decimal_value(t) as i64) as int == decimal_value(t));
    if t.len() < 13 {
        assert(log_line_time(line, now) == decimal_value(t) * pow10((13 - byte_len(t)) as nat));
        assert((13 - byte_len(t)) as nat == (13 - t.len()) as nat);
    } else {
        assert(log_line_time(line, now) == decimal_value(t));
        assert(pow10((13 - t.len()) as nat) == 1);
    }
}

// ---------------------------------------------------------------------------
// Classification

/// A message (lower-cased) that names a service start.
pub open spec fn says_service_start(m: Seq<char>) -> bool {
    seq_contains(m, "service started"@) || seq_contains(m, "service start"@)
}

/// A message that names a service crash or panic.
pub open spec fn says_service_crash(m: Seq<char>) -> bool {
    (seq_contains(m, "service"@) && seq_contains(m, "crash"@)) || seq_contains(m, "service panic"@)
}

/// A message that names a segfault, a panic, or a crash not of a service.
pub open spec fn says_system_crash(m: Seq<char>) -> bool {
    seq_contains(m, "segfault"@) || seq_contains(m, "panic"@) || (seq_contains(m, "crash"@)
        && !seq_contains(m, "service"@))
}

pub open spec fn says_reset(m: Seq<char>) -> bool {
    seq_contains(m, "reset"@) || seq_contains(m, "rebooted"@) || seq_contains(m, "reboot"@)
}

pub open spec fn says_discrepancy(m: Seq<char>) -> bool {
    seq_contains(m, "discrepancy"@) || seq_contains(m, "mismatch"@) || seq_contains(
        m,
        "inconsistent"@,
    )
}

pub open spec fn says_deviation(m: Seq<char>) -> bool {
    seq_contains(m, "deviation"@) || seq_contains(m, "unexpected"@) || seq_contains(m, "abnormal"@)
}

/// The keyword rules of classification, tried in order on the lower-cased
/// message: a service start; a service crash or panic; a segfault, a panic or
/// a crash not of a service (a system crash); a reset or reboot; a timeout; a
/// watchdog; a discrepancy, mismatch or inconsistency; a deviation,
/// unexpected or abnormal behaviour; else no event. Every event carries the
/// entry's domain, timestamp and message (as its raw line); starts, service
/// crashes and timeouts name the entry's process, system crashes, resets,
/// discrepancies and deviations carry the whole message.
pub proof fn law_classification_keywords(e: LogEntryView)
    ensures
        ({
            let m = lower_text(e.message);
            let ev = event_of_entry(e);
            &&& ev matches Some(x) ==> x.domain == e.domain && x.timestamp == e.timestamp
                && x.raw_log == e.message
            &&& says_service_start(m) ==> (ev is Some && ev->0.kind == EventKind::ServiceStart
                && ev->0.detail == e.process)
            &&& !says_service_start(m) && says_service_crash(m) ==> (ev is Some && ev->0.kind
                == EventKind::ServiceCrash && ev->0.detail == e.process)
            &&& !says_service_start(m) && !says_service_crash(m) && says_system_crash(m) ==> (ev is Some && ev->0.kind == EventKind::SystemCrash && ev->0.detail == e.message)
            &&& !says_service_start(m) && !says_service_crash(m) && !says_system_crash(m)
                && says_reset(m) ==> (ev is Some && ev->0.kind == EventKind::Reset && ev->0.detail
                == e.message)
            &&& !says_service_start(m) && !says_service_crash(m) && !says_system_crash(m)
                && !says_reset(m) && seq_contains(m, "timeout"@) ==> (ev is Some && ev->0.kind
                == EventKind::Timeout && ev->0.detail == e.process)
            &&& !says_service_start(m) && !says_service_crash(m) && !says_system_crash(m)
                && !says_reset(m) && !seq_contains(m, "timeout"@) && seq_contains(m, "watchdog"@)
                ==> (ev is Some && ev->0.kind == EventKind::Watchdog)
            &&& !says_service_start(m) && !says_service_crash(m) && !says_system_crash(m)
                && !says_reset(m) && !seq_contains(m, "timeout"@) && !seq_contains(m, "watchdog"@)
                && says_discrepancy(m) ==> (ev is Some && ev->0.kind == EventKind::Discrepancy
                && ev->0.detail == e.message)
            &&& !says_service_start(m) && !says_service_crash(m) && !says_system_crash(m)
                && !says_reset(m) && !seq_contains(m, "timeout"@) && !seq_contains(m, "watchdog"@)
                && !says_discrepancy(m) && says_deviation(m) ==> (ev is Some && ev->0.kind
                == EventKind::Deviation && ev->0.detail == e.message)
            &&& !says_service_start(m) && !says_service_crash(m) && !says_system_crash(m)
                && !says_reset(m) && !seq_contains(m, "timeout"@) && !seq_contains(m, "watchdog"@)
                && !says_discrepancy(m) && !says_deviation(m) ==> ev is None
        }),
{
}

/// A segfault line that names no service start, service crash or service
/// panic is classified as exactly one system crash carrying the message.
pub proof fn law_segfault_is_system_crash(e: LogEntryView)
    requires
        seq_contains(lower_text(e.message), "segfault"@),
        !says_service_start(lower_text(e.message)),
        !says_service_crash(lower_text(e.message)),
    ensures
        event_of_entry(e) == Some(
            SystemEventView {
                kind: EventKind::SystemCrash,
                domain: e.domain,
                detail: e.message,
                timestamp: e.timestamp,
                raw_log: e.message,
            },
        ),
{
    law_classification_keywords(e);
}

proof fn lemma_classify_concat(a: Seq<LogEntryView>, b: Seq<LogEntryView>)
    ensures
        classify_spec(a + b) == classify_spec(a) + classify_spec(b),
    decreases b.len(),
{
    if b.len() == 0 {
        assert(a + b =~= a);
        assert(classify_spec(a) + classify_spec(b) =~= classify_spec(a));
    } else {
        lemma_classify_concat(a, b.drop_last());
        assert((a + b).drop_last() =~= a + b.drop_last());
        assert((a + b).last() == b.last());
        assert(classify_spec(a + b) =~= classify_spec(a) + classify_spec(b));
    }
}

/// Classification goes entry by entry: a single entry gives exactly the
/// event it yields (or none), and the events of two runs of entries one
/// after the other are those of the first run followed by those of the
/// second. So no entry that yields an event is ever dropped.
pub proof fn law_classify_entry_by_entry(
    e: LogEntryView,
    a: Seq<LogEntryView>,
    b: Seq<LogEntryView>,
)
    ensures
        classify_spec(seq![e]) == match event_of_entry(e) {
            Some(ev) => seq![ev],
            None => Seq::<SystemEventView>::empty(),
        },
        classify_spec(a + b) == classify_spec(a) + classify_spec(b),
{
    lemma_classify_concat(a, b);
    let one = seq![e];
    assert(one.drop_last() =~= Seq::<LogEntryView>::empty());
    assert(one.last() == e);
    assert(classify_spec(one.drop_last()) == Seq::<SystemEventView>::empty());
    match event_of_entry(e) {
        Some(ev) => {
            assert(Seq::<SystemEventView>::empty().push(ev) =~= seq![ev]);
        },
        None => {},
    }
}

// ---------------------------------------------------------------------------
// The window after a transmitted frame

/// The event lies in `[start, start + w]`.
pub open spec fn within(e: SystemEventView, start: i64, w: i64) -> bool {
    start <= e.timestamp && e.timestamp <= start + w
}

/// A service crash or a system crash.
pub open spec fn crash_kind(k: EventKind) -> bool {
    k == EventKind::ServiceCrash || k == EventKind::SystemCrash
}

/// How many events of kind `k` lie in `[start, start + w]`.
pub open spec fn kind_within(evs: Seq<SystemEventView>, start: i64, w: i64, k: EventKind) -> nat
    decreases evs.len(),
{
    if evs.len() == 0 {
        0
    } else {
        kind_within(evs.drop_last(), start, w, k) + if within(evs.last(), start, w)
            && evs.last().kind == k {
            1nat
        } else {
            0nat
        }
    }
}

proof fn lemma_window_counts(evs: Seq<SystemEventView>, start: i64, w: i64, k: EventKind)
    ensures
        count_after_where(evs, start, w, true, k) == kind_within(
            evs,
            start,
            w,
            EventKind::ServiceCrash,
        ) + kind_within(evs, start, w, EventKind::SystemCrash),
        count_after_where(evs, start, w, false, k) == kind_within(evs, start, w, k),
        crash_names(evs, start, w).len() == kind_within(evs, start, w, EventKind::ServiceCrash)
            + kind_within(evs, start, w, EventKind::SystemCrash),
    decreases evs.len(),
{
    if evs.len() > 0 {
        lemma_window_counts(evs.drop_last(), start, w, k);
    }
}

/// `name` is that of a crash in the window: the process of a service crash
/// there, or `SYSTEM` for a system crash there.
pub open spec fn names_a_crash(evs: Seq<SystemEventView>, start: i64, w: i64, name: Seq<char>) -> bool {
    exists|i: int|
        0 <= i < evs.len() && within(#[trigger] evs[i], start, w) && ((evs[i].kind
            == EventKind::ServiceCrash && name == evs[i].detail) || (evs[i].kind
            == EventKind::SystemCrash && name == "SYSTEM"@))
}

/// Each crash name is that of a crash in the window: the process of a service
/// crash, or `SYSTEM` for a system crash.
proof fn lemma_crash_names_from_crashes(evs: Seq<SystemEventView>, start: i64, w: i64)
    ensures
        forall|j: int|
            0 <= j < crash_names(evs, start, w).len() ==> names_a_crash(
                evs,
                start,
                w,
                #[trigger] crash_names(evs, start, w)[j],
            ),
    decreases evs.len(),
{
    if evs.len() > 0 {
        let d = evs.drop_last();
        lemma_crash_names_from_crashes(d, start, w);
        let names = crash_names(evs, start, w);
        let prev = crash_names(d, start, w);
        assert forall|j: int| 0 <= j < names.len() implies names_a_crash(
            evs,
            start,
            w,
            #[trigger] names[j],
        ) by {
            if j < prev.len() {
                assert(names[j] == prev[j]);
                assert(names_a_crash(d, start, w, prev[j]));
                let i = choose|i: int|
                    0 <= i < d.len() && within(#[trigger] d[i], start, w) && ((d[i].kind
                        == EventKind::ServiceCrash && prev[j] == d[i].detail) || (d[i].kind
                        == EventKind::SystemCrash && prev[j] == "SYSTEM"@));
                assert(evs[i] == d[i]);
            } else {
                let i = evs.len() - 1;
                let last = evs.last();
                assert(evs[i] == last);
                assert(crate::rules::in_after(last, start, w) && crate::rules::is_crash(last.kind));
                assert(names == prev.push(crate::rules::crash_name(last)));
                assert(names[j] == crate::rules::crash_name(last));
                assert(within(evs[i], start, w));
            }
        }
    }
}

/// The first-crash time is the earliest timestamp of a crash in the window,
/// or `i64::MAX` when the window holds none.
proof fn lemma_first_crash(evs: Seq<SystemEventView>, start: i64, w: i64)
    ensures
        forall|i: int|
            0 <= i < evs.len() && within(evs[i], start, w) && crash_kind(evs[i].kind)
                ==> first_crash(evs, start, w) <= #[trigger] evs[i].timestamp,
        first_crash(evs, start, w) == i64::MAX || exists|i: int|
            0 <= i < evs.len() && within(evs[i], start, w) && crash_kind(evs[i].kind)
                && first_crash(evs, start, w) == #[trigger] evs[i].timestamp,
        (forall|i: int|
            0 <= i < evs.len() ==> !(within(#[trigger] evs[i], start, w) && crash_kind(
                evs[i].kind,
            ))) ==> first_crash(evs, start, w) == i64::MAX,
    decreases evs.len(),
{
    if evs.len() > 0 {
        let d = evs.drop_last();
        lemma_first_crash(d, start, w);
        assert forall|i: int|
            0 <= i < evs.len() && within(evs[i], start, w) && crash_kind(evs[i].kind) implies first_crash(
            evs,
            start,
            w,
        ) <= #[trigger] evs[i].timestamp by {
            if i < d.len() {
                assert(evs[i] == d[i]);
            }
        }
        if first_crash(evs, start, w) != i64::MAX {
            if first_crash(evs, start, w) == first_crash(d, start, w) {
                let i = choose|i: int|
                    0 <= i < d.len() && within(d[i], start, w) && crash_kind(d[i].kind)
                        && first_crash(d, start, w) == #[trigger] d[i].timestamp;
                assert(evs[i] == d[i]);
            } else {
                assert(evs[evs.len() - 1] == evs.last());
            }
        }
        if forall|i: int|
            0 <= i < evs.len() ==> !(within(#[trigger] evs[i], start, w) && crash_kind(
                evs[i].kind,
            )) {
            assert forall|i: int| 0 <= i < d.len() implies !(within(#[trigger] d[i], start, w)
                && crash_kind(d[i].kind)) by {
                assert(evs[i] == d[i]);
            }
            assert(evs[evs.len() - 1] == evs.last());
        }
    }
}

/// Around a transmitted frame at `start`, the window `[start, start + w]`
/// decides everything counted after it: the crash count is the number of
/// service crashes plus system crashes there (no other kind of event counts);
/// the timeout and watchdog counts are the numbers of those events there; the
/// crashed services are at most three names, each the process of a service
/// crash there or `SYSTEM` for a system crash there; and the first-crash time
/// is the earliest timestamp of such a crash, or `i64::MAX` when there is
/// none, in which case the time to the first crash is the window length.
pub proof fn law_window_impact_counts_crashes(
    r: WindowImpact,
    evs: Seq<SystemEventView>,
    start: i64,
    w: i64,
)
    requires
        impact_ok(r, evs, start, w),
    ensures
        r.crash_count == kind_within(evs, start, w, EventKind::ServiceCrash) + kind_within(
            evs,
            start,
            w,
            EventKind::SystemCrash,
        ),
        r.timeout_count == kind_within(evs, start, w, EventKind::Timeout),
        r.watchdog_count == kind_within(evs, start, w, EventKind::Watchdog),
        r.crashed_services@.len() == if r.crash_count <= 3 {
            r.crash_count as int
        } else {
            3
        },
        forall|j: int|
            0 <= j < r.crashed_services@.len() ==> names_a_crash(
                evs,
                start,
                w,
                #[trigger] r.crashed_services@[j]@,
            ),
        forall|i: int|
            0 <= i < evs.len() && within(evs[i], start, w) && crash_kind(evs[i].kind)
                ==> r.first_crash_ts <= #[trigger] evs[i].timestamp,
        r.crash_count > 0 ==> exists|i: int|
            0 <= i < evs.len() && within(evs[i], start, w) && crash_kind(evs[i].kind)
                && r.first_crash_ts == #[trigger] evs[i].timestamp,
        r.crash_count == 0 ==> r.first_crash_ts == i64::MAX && r.time_delta_ms == w,
        r.crash_count > 0 ==> r.time_delta_ms == r.first_crash_ts - start,
{
    lemma_window_counts(evs, start, w, EventKind::ServiceCrash);
    lemma_window_counts(evs, start, w, EventKind::Timeout);
    lemma_window_counts(evs, start, w, EventKind::Watchdog);
    lemma_crash_names_from_crashes(evs, start, w);
    lemma_first_crash(evs, start, w);
    let names = crash_names(evs, start, w);
    let shown = crate::rules::last_three_reversed(names);
    assert(r.crashed_services.deep_view() == shown);
    assert forall|j: int| 0 <= j < r.crashed_services@.len() implies names_a_crash(
        evs,
        start,
        w,
        #[trigger] r.crashed_services@[j]@,
    ) by {
        assert(r.crashed_services@[j]@ == r.crashed_services.deep_view()[j]);
        let k = names.len() - 1 - j;
        assert(shown[j] == names.reverse()[j]);
        assert(names.reverse()[j] == names[k]);
    }
    if r.crash_count > 0 {
        if first_crash(evs, start, w) == i64::MAX {
            lemma_crash_exists(evs, start, w);
            let i = choose|i: int|
                0 <= i < evs.len() && within(evs[i], start, w) && crash_kind(#[trigger] evs[i].kind);
            assert(first_crash(evs, start, w) <= evs[i].timestamp);
        }
    } else {
        lemma_no_crash(evs, start, w);
    }
}


/// The names of the crashes in `[start, start + w]`, in event order: the
/// process of a service crash, `SYSTEM` for a system crash.
pub open spec fn window_crash_names(evs: Seq<SystemEventView>, start: i64, w: i64) -> Seq<Seq<char>> {
    evs.filter_map(
        |e: SystemEventView|
            if within(e, start, w) && crash_kind(e.kind) {
                Some(
                    if e.kind == EventKind::ServiceCrash {
                        e.detail
                    } else {
                        "SYSTEM"@
                    },
                )
            } else {
                None
            },
    )
}

/// How many events lie in `[lo, hi]`.
pub open spec fn events_between(evs: Seq<SystemEventView>, lo: int, hi: int) -> nat
    decreases evs.len(),
{
    if evs.len() == 0 {
        0
    } else {
        events_between(evs.drop_last(), lo, hi) + if lo <= evs.last().timestamp
            && evs.last().timestamp <= hi {
            1nat
        } else {
            0nat
        }
    }
}

proof fn lemma_window_lists(evs: Seq<SystemEventView>, start: i64, w: i64)
    ensures
        crash_names(evs, start, w) == window_crash_names(evs, start, w),
        crate::rules::count_after(evs, start, w) == events_between(
            evs,
            start as int,
            start + w,
        ),
        crate::rules::count_before(evs, start, w) == events_between(
            evs,
            if start - w < i64::MIN {
                i64::MIN as int
            } else {
                start - w
            },
            start - 1,
        ),
    decreases evs.len(),
{
    if evs.len() > 0 {
        lemma_window_lists(evs.drop_last(), start, w);
        let e = evs.last();
        if within(e, start, w) && crash_kind(e.kind) {
            assert(crash_names(evs, start, w) =~= window_crash_names(evs, start, w));
        }
    }
}

/// Around a transmitted frame at `start`: the events counted after it are
/// those in `[start, start + w]`, those counted before it those in
/// `[start - w, start)` (from `i64::MIN` when `start - w` would underflow);
/// the crashed services are the last three crash names of the window, the
/// latest first; and the severity is CRITICAL for two or more crashes, HIGH
/// for one, MEDIUM for none with more than two timeouts, LOW otherwise.
pub proof fn law_window_impact_lists_latest_crashes(
    r: WindowImpact,
    evs: Seq<SystemEventView>,
    start: i64,
    w: i64,
)
    requires
        impact_ok(r, evs, start, w),
    ensures
        r.after_count == events_between(evs, start as int, start + w),
        r.before_count == events_between(
            evs,
            if start - w < i64::MIN {
                i64::MIN as int
            } else {
                start - w
            },
            start - 1,
        ),
        ({
            let names = window_crash_names(evs, start, w);
            let n = names.len();
            r.crashed_services.deep_view() == Seq::new(
                if n <= 3 {
                    n
                } else {
                    3
                },
                |j: int| names[n - 1 - j],
            )
        }),
        r.crash_count >= 2 ==> r.severity@ == "CRITICAL"@,
        r.crash_count == 1 ==> r.severity@ == "HIGH"@,
        r.crash_count == 0 && r.timeout_count > 2 ==> r.severity@ == "MEDIUM"@,
        r.crash_count == 0 && r.timeout_count <= 2 ==> r.severity@ == "LOW"@,
{
    lemma_window_lists(evs, start, w);
    let names = window_crash_names(evs, start, w);
    let n = names.len();
    let shown = crate::rules::last_three_reversed(names);
    assert(shown =~= Seq::new(
        if n <= 3 {
            n
        } else {
            3
        },
        |j: int| names[n - 1 - j],
    ));
}

proof fn lemma_crash_exists(evs: Seq<SystemEventView>, start: i64, w: i64)
    requires
        kind_within(evs, start, w, EventKind::ServiceCrash) + kind_within(
            evs,
            start,
            w,
            EventKind::SystemCrash,
        ) > 0,
    ensures
        exists|i: int|
            0 <= i < evs.len() && within(evs[i], start, w) && crash_kind(#[trigger] evs[i].kind),
    decreases evs.len(),
{
    let d = evs.drop_last();
    if within(evs.last(), start, w) && crash_kind(evs.last().kind) {
        assert(crash_kind(evs[evs.len() - 1].kind));
    } else {
        lemma_crash_exists(d, start, w);
        let i = choose|i: int|
            0 <= i < d.len() && within(d[i], start, w) && crash_kind(#[trigger] d[i].kind);
        assert(evs[i] == d[i]);
    }
}

proof fn lemma_no_crash(evs: Seq<SystemEventView>, start: i64, w: i64)
    requires
        kind_within(evs, start, w, EventKind::ServiceCrash) + kind_within(
            evs,
            start,
            w,
            EventKind::SystemCrash,
        ) == 0,
    ensures
        forall|i: int|
            0 <= i < evs.len() ==> !(within(#[trigger] evs[i], start, w) && crash_kind(
                evs[i].kind,
            )),
    decreases evs.len(),
{
    if evs.len() > 0 {
        let d = evs.drop_last();
        lemma_no_crash(d, start, w);
        assert forall|i: int| 0 <= i < evs.len() implies !(within(#[trigger] evs[i], start, w)
            && crash_kind(evs[i].kind)) by {
            if i < d.len() {
                assert(evs[i] == d[i]);
            }
        }
    }
}

// ---------------------------------------------------------------------------
// The summary cards of the HTML report

/// The summary card labelled `label` showing `n`.
pub open spec fn card(label: Seq<char>, n: usize) -> Seq<char> {
    "<div class=\"card\">"@ + label + "<br><strong>"@ + dec_digits(n as nat) + "</strong></div>"@
}

proof fn lemma_occurs_between(a: Seq<char>, b: Seq<char>, c: Seq<char>)
    ensures
        seq_contains(a + b + c, b),
{
    assert((a + b + c).subrange(a.len() as int, (a.len() + b.len()) as int) =~= b);
    assert(occurs_at(a + b + c, b, a.len() as int));
}

/// Each summary card of the HTML report shows the total of its own kind: the
/// report holds the cards of service crashes, system crashes, timeouts,
/// resets and service starts, each with that total, whatever the frames,
/// impact rows and domain order.
pub proof fn law_report_cards_show_their_totals(
    r: &MetricsReport,
    frames: Option<Seq<CanFrameView>>,
    impact_rows: Seq<Seq<char>>,
    ord: Seq<usize>,
)
    ensures
        ({
            let html = report_html(r, frames, impact_rows, ord);
            &&& seq_contains(html, card("Service Crashes"@, r.total_service_crashes))
            &&& seq_contains(html, card("System Crashes"@, r.total_system_crashes))
            &&& seq_contains(html, card("Timeouts"@, r.total_timeouts))
            &&& seq_contains(html, card("Resets"@, r.total_resets))
            &&& seq_contains(html, card("Service Starts"@, r.total_service_starts))
        }),
{
    let html = report_html(r, frames, impact_rows, ord);
    let pre = crate::reporter::REPORT_PREAMBLE@ + "<h1>"@ + r.report_title@ + "</h1>\n"@
        + "<div class=\"row\"><div class=\"card\">Generated: "@ + r.generated_at@
        + "</div><div class=\"card\">Boot: "@ + crate::text::int_text(r.boot_time_ms as int)
        + " ms</div></div>\n"@ + "<div class=\"row\">\n"@;
    let c1 = card("Service Crashes"@, r.total_service_crashes);
    let c2 = card("System Crashes"@, r.total_system_crashes);
    let c3 = card("Timeouts"@, r.total_timeouts);
    let c4 = card("Resets"@, r.total_resets);
    let c5 = card("Service Starts"@, r.total_service_starts);
    let rest = html.subrange(
        (pre + c1 + c2 + c3 + c4 + c5).len() as int,
        html.len() as int,
    );
    assert(html =~= pre + c1 + c2 + c3 + c4 + c5 + rest);
    assert(html =~= pre + c1 + (c2 + c3 + c4 + c5 + rest));
    lemma_occurs_between(pre, c1, c2 + c3 + c4 + c5 + rest);
    assert(html =~= (pre + c1) + c2 + (c3 + c4 + c5 + rest));
    lemma_occurs_between(pre + c1, c2, c3 + c4 + c5 + rest);
    assert(html =~= (pre + c1 + c2) + c3 + (c4 + c5 + rest));
    lemma_occurs_between(pre + c1 + c2, c3, c4 + c5 + rest);
    assert(html =~= (pre + c1 + c2 + c3) + c4 + (c5 + rest));
    lemma_occurs_between(pre + c1 + c2 + c3, c4, c5 + rest);
    assert(html =~= (pre + c1 + c2 + c3 + c4) + c5 + rest);
    lemma_occurs_between(pre + c1 + c2 + c3 + c4, c5, rest);
}

// ---------------------------------------------------------------------------
// The issue table of the HTML report

/// Timeouts and watchdog triggers are warnings.
pub open spec fn is_warning(k: EventKind) -> bool {
    k == EventKind::Timeout || k == EventKind::Watchdog
}

/// Every kind but service starts and warnings is critical.
pub open spec fn is_critical(k: EventKind) -> bool {
    k != EventKind::ServiceStart && !is_warning(k)
}

/// The issue table lists faults and warnings sorted by severity: a service
/// start adds no row; a single fault or warning gives its own row; of two
/// events a critical one comes before a warning whatever their order in the
/// log, and two of the same severity keep their order.
pub proof fn law_issue_rows_by_severity(
    evs: Seq<SystemEventView>,
    a: SystemEventView,
    b: SystemEventView,
    frames: Option<Seq<CanFrameView>>,
)
    ensures
        a.kind == EventKind::ServiceStart ==> issue_rows(evs.push(a), frames) == issue_rows(
            evs,
            frames,
        ),
        issue_rows(seq![a], frames) == if a.kind == EventKind::ServiceStart {
            Seq::<char>::empty()
        } else {
            issue_row(a, frames)
        },
        is_warning(a.kind) && is_critical(b.kind) ==> issue_rows(seq![a, b], frames) == issue_row(
            b,
            frames,
        ) + issue_row(a, frames),
        (is_critical(a.kind) && (is_critical(b.kind) || is_warning(b.kind))) || (is_warning(
            a.kind,
        ) && is_warning(b.kind)) ==> issue_rows(seq![a, b], frames) == issue_row(a, frames)
            + issue_row(b, frames),
{
    let e = Seq::<char>::empty();
    assert(evs.push(a).drop_last() =~= evs);
    assert(evs.push(a).last() == a);
    let one = seq![a];
    let two = seq![a, b];
    assert(one.drop_last() =~= Seq::<SystemEventView>::empty());
    assert(one.last() == a);
    assert(two.drop_last() =~= one);
    assert(two.last() == b);
    let empty = Seq::<SystemEventView>::empty();
    assert(issue_rows_of(empty, frames, 2) == e);
    assert(issue_rows_of(empty, frames, 1) == e);
    let ra = issue_row(a, frames);
    let rb = issue_row(b, frames);
    assert(e + ra =~= ra);
    assert(ra + e =~= ra);
    assert(e + e =~= e);
    assert(rb + e =~= rb);
    assert(e + rb =~= rb);
    assert(ra + rb + e =~= ra + rb);
    assert(e + (ra + rb) =~= ra + rb);
    assert(issue_rows_of(one, frames, 2) == if severity_rank(a.kind) == 2 { e + ra } else { e });
    assert(issue_rows_of(one, frames, 1) == if severity_rank(a.kind) == 1 { e + ra } else { e });
    assert(issue_rows(one, frames) =~= if a.kind == EventKind::ServiceStart {
        e
    } else {
        ra
    });
}

/// The CAN frames stamped in the five seconds up to and including `ts`.
pub open spec fn frames_last_five_seconds(fs: Seq<CanFrameView>, ts: i64) -> Seq<CanFrameView> {
    fs.filter(|f: CanFrameView| ts - 5000 <= f.timestamp && f.timestamp <= ts)
}

proof fn lemma_frames_near_counts(fs: Seq<CanFrameView>, ts: i64)
    requires
        ts >= i64::MIN + 5000,
    ensures
        frames_near(Some(fs), ts) == frames_last_five_seconds(fs, ts).len(),
    decreases fs.len(),
{
    reveal(Seq::filter);
    if fs.len() > 0 {
        lemma_frames_near_counts(fs.drop_last(), ts);
    }
}

/// The last cell of an issue row counts the CAN frames stamped in the five
/// seconds up to and including the event (none without a CAN log).
pub proof fn law_issue_row_counts_nearby_frames(
    e: SystemEventView,
    fs: Seq<CanFrameView>,
)
    requires
        e.timestamp >= i64::MIN + 5000,
    ensures
        ends_with(
            issue_row(e, Some(fs)),
            dec_digits(frames_last_five_seconds(fs, e.timestamp).len()) + "</td></tr>\n"@,
        ),
        ends_with(issue_row(e, None), "0"@ + "</td></tr>\n"@),
{
    lemma_frames_near_counts(fs, e.timestamp);
    let tail = dec_digits(frames_last_five_seconds(fs, e.timestamp).len()) + "</td></tr>\n"@;
    let row = issue_row(e, Some(fs));
    let head = row.subrange(0, row.len() - tail.len());
    assert(row =~= head + tail);
    assert(row.subrange(row.len() - tail.len(), row.len() as int) =~= tail);
    let row0 = issue_row(e, None);
    let tail0 = "0"@ + "</td></tr>\n"@;
    reveal_strlit("0");
    assert(dec_digits(0) =~= "0"@);
    let head0 = row0.subrange(0, row0.len() - tail0.len());
    assert(row0 =~= head0 + tail0);
    assert(row0.subrange(row0.len() - tail0.len(), row0.len() as int) =~= tail0);
}

// ---------------------------------------------------------------------------
// Correlation rules

/// A rule hits a frame exactly when the frame has the rule's id (ignoring
/// case), lies within `within_ms` before the event (inclusive), and the
/// payload byte at `byte_index` reads as hex: with `value_nonzero` set, a hit
/// needs some masked bit set (`b & bit_mask != 0`); with it clear, all masked
/// bits clear. A missing or unreadable payload byte never hits.
pub proof fn law_rule_bit_test(r: SimpleRuleView, f: CanFrameView, event_ts: i64)
    ensures
        ({
            let c = encode_utf8(f.data);
            let i = r.byte_index * 2;
            let same_id = lower_text(f.id) == lower_text(r.id);
            let in_window = event_ts - r.within_ms <= f.timestamp && f.timestamp <= event_ts;
            &&& !same_id ==> !rule_hits(r, f, event_ts)
            &&& !in_window ==> !rule_hits(r, f, event_ts)
            &&& (i + 2 > c.len() || hex_pair_value(c[i], c[i + 1]) is None) ==> !rule_hits(
                r,
                f,
                event_ts,
            )
            &&& same_id && in_window && i + 2 <= c.len() ==> match hex_pair_value(c[i], c[i + 1]) {
                Some(b) => rule_hits(r, f, event_ts) == (if r.value_nonzero {
                    b & r.bit_mask != 0
                } else {
                    b & r.bit_mask == 0
                }),
                None => !rule_hits(r, f, event_ts),
            }
        }),
{
}


/// The ASCII byte of hex digit `d` (`0`-`9`, then `A`-`F`, or `a`-`f` in
/// lower case).
pub open spec fn hex_digit_byte(d: int, lower: bool) -> u8 {
    if d < 10 {
        (48 + d) as u8
    } else if lower {
        (87 + d) as u8
    } else {
        (55 + d) as u8
    }
}

proof fn lemma_hex_digit_reads_back(d: int, lower: bool)
    requires
        0 <= d < 16,
    ensures
        crate::rules::is_hex_byte(hex_digit_byte(d, lower)),
        crate::rules::hex_byte_value(hex_digit_byte(d, lower)) == d,
        hex_digit_byte(d, lower) != 43,
{
}

/// A payload byte written as two hex digits, in upper or lower case (the
/// high digit first), reads back as that byte; a `+` sign before a single
/// digit reads as that digit.
pub proof fn law_hex_byte_reads_back(v: u8, d: int, lower: bool)
    requires
        0 <= d < 16,
    ensures
        hex_pair_value(hex_digit_byte(v as int / 16, lower), hex_digit_byte(v as int % 16, lower)) == Some(v),
        hex_pair_value(43, hex_digit_byte(d, lower)) == Some(d as u8),
{
    lemma_hex_digit_reads_back(v as int / 16, lower);
    lemma_hex_digit_reads_back(v as int % 16, lower);
    lemma_hex_digit_reads_back(d, lower);
    assert((v as int / 16) * 16 + v as int % 16 == v);
}

/// The report line of a rule that hit a frame.
pub open spec fn hit_line(r: SimpleRuleView, f: CanFrameView, event_ts: i64) -> Seq<char> {
    "Rule '"@ + r.description + "' matched on frame "@ + f.id + " at "@ + int_text(
        f.timestamp as int,
    ) + "ms (event "@ + int_text(event_ts as int) + ")"@
}

proof fn lemma_rules_concat(
    r1: Seq<SimpleRuleView>,
    r2: Seq<SimpleRuleView>,
    frames: Seq<CanFrameView>,
    event_ts: i64,
)
    ensures
        correlate_spec(r1 + r2, frames, event_ts) == correlate_spec(r1, frames, event_ts)
            + correlate_spec(r2, frames, event_ts),
    decreases r2.len(),
{
    if r2.len() == 0 {
        assert(r1 + r2 =~= r1);
        assert(correlate_spec(r2, frames, event_ts) =~= Seq::<Seq<char>>::empty());
        assert(correlate_spec(r1, frames, event_ts) + correlate_spec(r2, frames, event_ts)
            =~= correlate_spec(r1, frames, event_ts));
    } else {
        lemma_rules_concat(r1, r2.drop_last(), frames, event_ts);
        assert((r1 + r2).drop_last() =~= r1 + r2.drop_last());
        assert((r1 + r2).last() == r2.last());
        assert(correlate_spec(r1 + r2, frames, event_ts) =~= correlate_spec(r1, frames, event_ts)
            + correlate_spec(r2, frames, event_ts));
    }
}

proof fn lemma_frames_concat(
    r: SimpleRuleView,
    f1: Seq<CanFrameView>,
    f2: Seq<CanFrameView>,
    event_ts: i64,
)
    ensures
        rule_lines(r, f1 + f2, event_ts) == rule_lines(r, f1, event_ts) + rule_lines(
            r,
            f2,
            event_ts,
        ),
    decreases f2.len(),
{
    if f2.len() == 0 {
        assert(f1 + f2 =~= f1);
        assert(rule_lines(r, f1, event_ts) + rule_lines(r, f2, event_ts) =~= rule_lines(
            r,
            f1,
            event_ts,
        ));
    } else {
        lemma_frames_concat(r, f1, f2.drop_last(), event_ts);
        assert((f1 + f2).drop_last() =~= f1 + f2.drop_last());
        assert((f1 + f2).last() == f2.last());
        assert(rule_lines(r, f1 + f2, event_ts) =~= rule_lines(r, f1, event_ts) + rule_lines(
            r,
            f2,
            event_ts,
        ));
    }
}

proof fn lemma_single_rule(r: SimpleRuleView, frames: Seq<CanFrameView>, event_ts: i64)
    ensures
        correlate_spec(seq![r], frames, event_ts) == rule_lines(r, frames, event_ts),
{
    let one = seq![r];
    assert(one.drop_last() =~= Seq::<SimpleRuleView>::empty());
    assert(one.last() == r);
    let e = correlate_spec(one.drop_last(), frames, event_ts);
    assert(e =~= Seq::<Seq<char>>::empty());
    assert(e + rule_lines(r, frames, event_ts) =~= rule_lines(r, frames, event_ts));
}

/// Correlation reports, rule by rule and within a rule frame by frame, one
/// line per hit: for a single rule and frame the result is the line
/// `Rule '<description>' matched on frame <id> at <time>ms (event <time>)`
/// exactly when the rule hits the frame, and nothing otherwise; the lines of
/// a list of rules are those of its parts one after the other, and so are the
/// lines of one rule over a list of frames.
pub proof fn law_correlation_reports_each_hit(
    rules1: Seq<SimpleRuleView>,
    rules2: Seq<SimpleRuleView>,
    r: SimpleRuleView,
    frames1: Seq<CanFrameView>,
    frames2: Seq<CanFrameView>,
    f: CanFrameView,
    event_ts: i64,
)
    ensures
        correlate_spec(seq![r], seq![f], event_ts) == if rule_hits(r, f, event_ts) {
            seq![hit_line(r, f, event_ts)]
        } else {
            Seq::<Seq<char>>::empty()
        },
        correlate_spec(rules1 + rules2, frames1, event_ts) == correlate_spec(
            rules1,
            frames1,
            event_ts,
        ) + correlate_spec(rules2, frames1, event_ts),
        correlate_spec(seq![r], frames1 + frames2, event_ts) == correlate_spec(
            seq![r],
            frames1,
            event_ts,
        ) + correlate_spec(seq![r], frames2, event_ts),
{
    lemma_rules_concat(rules1, rules2, frames1, event_ts);
    lemma_frames_concat(r, frames1, frames2, event_ts);
    let one = seq![r];
    lemma_single_rule(r, frames1 + frames2, event_ts);
    lemma_single_rule(r, frames1, event_ts);
    lemma_single_rule(r, frames2, event_ts);
    let fs = seq![f];
    lemma_single_rule(r, fs, event_ts);
    assert(fs.drop_last() =~= Seq::<CanFrameView>::empty());
    assert(fs.last() == f);
    assert(rule_lines(r, fs.drop_last(), event_ts) =~= Seq::<Seq<char>>::empty());
    assert(Seq::<Seq<char>>::empty().push(match_text(r, f, event_ts)) =~= seq![match_text(r, f, event_ts)]);
    assert(match_text(r, f, event_ts) =~= hit_line(r, f, event_ts));
    assert(correlate_spec(one, fs, event_ts) =~= if rule_hits(r, f, event_ts) {
        seq![hit_line(r, f, event_ts)]
    } else {
        Seq::<Seq<char>>::empty()
    });
}

// ---------------------------------------------------------------------------
// Captured packets

pub open spec fn ends_with(s: Seq<char>, t: Seq<char>) -> bool {
    t.len() <= s.len() && s.subrange(s.len() - t.len(), s.len() as int) == t
}

/// The summary of a captured IPv4 TCP packet (Ethernet type 0x0800, IP
/// version 4, protocol 6, at least 54 bytes) ends with the word of its TCP
/// flags byte (offset 47): `FIN` when bit 0x01 is set, else `SYN` when bit
/// 0x02 is set, else `ACK` when bit 0x10 is set, whatever the other bits,
/// else `DATA`; and the packet is marked received.
pub proof fn law_tcp_flag_word(pkt: Seq<u8>)
    requires
        pkt.len() >= 54,
        pkt[12] == 0x08,
        pkt[13] == 0x00,
        pkt[14] / 16 == 4,
        pkt[23] == 6,
    ensures
        ({
            let s = packet_summary(pkt).0;
            let f = pkt[47];
            &&& packet_summary(pkt).1 == "RX"@
            &&& f & 0x01 != 0 ==> ends_with(s, "FIN"@)
            &&& f & 0x01 == 0 && f & 0x02 != 0 ==> ends_with(s, "SYN"@)
            &&& f & 0x01 == 0 && f & 0x02 == 0 && f & 0x10 != 0 ==> ends_with(s, "ACK"@)
            &&& f & 0x01 == 0 && f & 0x02 == 0 && f & 0x10 == 0 ==> ends_with(s, "DATA"@)
        }),
{
    let f = pkt[47];
    assert((f & 0x01 != 0) == (f % 2 == 1)) by (bit_vector);
    assert((f & 0x02 != 0) == ((f / 2) % 2 == 1)) by (bit_vector);
    assert((f & 0x10 != 0) == ((f / 16) % 2 == 1)) by (bit_vector);
    let s = packet_summary(pkt).0;
    let word = crate::pcap::flag_text(f);
    let head = s.subrange(0, s.len() - word.len());
    assert(s =~= head + word);
    assert(s.subrange(s.len() - word.len(), s.len() as int) =~= word);
}


/// Dotted-quad text of four address bytes.
pub open spec fn dotted(a: u8, b: u8, c: u8, d: u8) -> Seq<char> {
    dec_digits(a as nat) + "."@ + dec_digits(b as nat) + "."@ + dec_digits(c as nat) + "."@
        + dec_digits(d as nat)
}

/// The word shown for a TCP flags byte, read bit by bit.
pub open spec fn tcp_word(f: u8) -> Seq<char> {
    if f & 0x01 != 0 {
        "FIN"@
    } else if f & 0x02 != 0 {
        "SYN"@
    } else if f & 0x10 != 0 {
        "ACK"@
    } else {
        "DATA"@
    }
}

/// The summary of a captured packet, field by field: an IPv4 packet over
/// Ethernet (type 0x0800, version 4) carrying TCP (protocol 6, at least 54
/// bytes) reads `TCP <source>:<port> -> <destination>:<port> <flag word>`,
/// one carrying UDP (protocol 17, at least 42 bytes) reads the same without
/// the flag word, both marked received; the addresses are the bytes at
/// offsets 26 and 30, the ports the big-endian words at offsets 34 and 36.
/// Any other packet reads `ETH packet` with no direction.
pub proof fn law_packet_summary_fields(pkt: Seq<u8>)
    ensures
        ({
            let ipv4 = pkt.len() >= 34 && pkt[12] == 0x08 && pkt[13] == 0x00 && pkt[14] / 16 == 4;
            let ends = dotted(pkt[26], pkt[27], pkt[28], pkt[29]) + ":"@ + dec_digits(
                (pkt[34] * 256 + pkt[35]) as nat,
            ) + " -> "@ + dotted(pkt[30], pkt[31], pkt[32], pkt[33]) + ":"@ + dec_digits(
                (pkt[36] * 256 + pkt[37]) as nat,
            );
            &&& ipv4 && pkt[23] == 6 && pkt.len() >= 54 ==> packet_summary(pkt) == (
                "TCP "@ + ends + " "@ + tcp_word(pkt[47]),
                "RX"@,
            )
            &&& ipv4 && pkt[23] == 17 && pkt.len() >= 42 ==> packet_summary(pkt) == ("UDP "@
                + ends, "RX"@)
            &&& !(ipv4 && ((pkt[23] == 6 && pkt.len() >= 54) || (pkt[23] == 17 && pkt.len()
                >= 42))) ==> packet_summary(pkt) == ("ETH packet"@, "-"@)
        }),
{
    if pkt.len() >= 54 {
        let f = pkt[47];
        assert((f & 0x01 != 0) == (f % 2 == 1)) by (bit_vector);
        assert((f & 0x02 != 0) == ((f / 2) % 2 == 1)) by (bit_vector);
        assert((f & 0x10 != 0) == ((f / 16) % 2 == 1)) by (bit_vector);
        assert(tcp_word(f) == crate::pcap::flag_text(f));
    }
}

/// A pcapng capture made of a section header (28 bytes, starting with the
/// marker `0A 0D 0D 0A`) followed by a single enhanced packet block (type 6)
/// whose captured bytes lie within the data (the data reaching at least 36
/// bytes past the block's start) reads as exactly one frame, on
/// `eth0`: its time in milliseconds is the block's seconds times 1000 plus
/// its microseconds divided by 1000, its summary and direction those of the
/// captured packet, and its raw text names that time and the captured length.
pub proof fn law_single_packet_capture(d: Seq<u8>)
    requires
        d.len() >= 64,
        d[0] == 0x0A && d[1] == 0x0D && d[2] == 0x0D && d[3] == 0x0A,
        crate::pcap::u32le(d, 28) == 6,
        56 + crate::pcap::u32le(d, 48) <= d.len(),
        28 + crate::pcap::u32le(d, 32) + 16 > d.len(),
    ensures
        ({
            let sec = crate::pcap::u32le(d, 40);
            let usec = crate::pcap::u32le(d, 44);
            let caplen = crate::pcap::u32le(d, 48);
            let ms = sec * 1000 + usec / 1000;
            let pkt = d.subrange(56, 56 + caplen);
            crate::pcap::pcap_result(d) == Ok::<Seq<EthFrameView>, crate::pcap::PcapError>(
                seq![
                    EthFrameView {
                        timestamp: ms as i64,
                        iface: "eth0"@,
                        direction: packet_summary(pkt).1,
                        summary: packet_summary(pkt).0,
                        raw: "pcapng packet @"@ + int_text(ms) + "ms len="@ + dec_digits(
                            caplen as nat,
                        ),
                    },
                ],
            )
        }),
{
    assert(crate::pcap::magic_ok(d));
    assert(crate::pcap::shb_end(d, 0) == 28);
    let here = crate::pcap::block_frames(d, 28);
    assert(crate::pcap::packet_frame(d, 28) is Some);
    assert(crate::pcap::block_next(d, 28) >= 28 + crate::pcap::u32le(d, 32));
    assert(crate::pcap::walk_frames(d, 28) == here);
}

} // verus!
