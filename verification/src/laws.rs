//! Properties of the library as a whole, stated over the specifications of
//! its functions and proved.

use vstd::prelude::*;
use crate::classifier::{classify_spec, event_of_entry};
use crate::models::{
    CanFrameView, Domain, EthFrameView, EventKind, LogEntryView, SystemEventView, severity_text,
};
use crate::parser::{digit_run, log_line_time};
use crate::rules::{
    correlate_spec, count_after, count_after_where, count_in, crash_names, first_crash,
    last_three_reversed, match_text, rule_hits, rule_lines, SimpleRuleView,
};
use crate::text::{ascii_lower, is_ascii_text, lower_text, spec_parse_i64};
use crate::reporter::{
    count_kind, first_seen, group_error, keep_repeated, key_times, occurrences, pair_patterns,
    pattern_tally, repeated_keys, ErrorKey,
};
use crate::pcap::walk_frames;
use crate::html::{escape_char, escape_text};
use crate::metrics::count_all;
use crate::analysis::{entry_times, is_time_sorted_from};
use crate::order::stable_asc;
use crate::reporter::is_permutation;
use crate::collector::{
    latest_index, lemma_bytes_after_irreflexive, lemma_bytes_after_transitive, text_after,
};
use vstd::utf8::encode_utf8;

verus! {

/// Classification never invents events: there are at most as many events as
/// entries, and each event is what some entry yields.
pub proof fn law_classify_events_come_from_entries(entries: Seq<LogEntryView>)
    ensures
        classify_spec(entries).len() <= entries.len(),
        forall|i: int|
            0 <= i < classify_spec(entries).len() ==> exists|j: int|
                0 <= j < entries.len() && event_of_entry(entries[j]) == Some(
                    #[trigger] classify_spec(entries)[i],
                ),
    decreases entries.len(),
{
    if entries.len() > 0 {
        let d = entries.drop_last();
        law_classify_events_come_from_entries(d);
        let r = classify_spec(d);
        assert forall|i: int|
            0 <= i < classify_spec(entries).len() implies exists|j: int|
                0 <= j < entries.len() && event_of_entry(entries[j]) == Some(
                    #[trigger] classify_spec(entries)[i],
                ) by {
            if i < r.len() {
                assert(classify_spec(entries)[i] == r[i]);
                let j = choose|j: int| 0 <= j < d.len() && event_of_entry(d[j]) == Some(r[i]);
                assert(entries[j] == d[j]);
            } else {
                assert(event_of_entry(entries[entries.len() - 1]) == Some(
                    classify_spec(entries)[i],
                ));
            }
        }
    }
}

/// Only service starts are informational: every other event is a fault or a
/// warning.
pub proof fn law_only_starts_are_info(k: EventKind)
    ensures
        (severity_text(k) == "INFO"@) <==> (k == EventKind::ServiceStart),
{
    reveal_strlit("INFO");
    reveal_strlit("WARNING");
    reveal_strlit("CRITICAL");
    if k != EventKind::ServiceStart {
        assert(severity_text(k)[0] != "INFO"@[0]);
    }
}

/// A log line whose timestamp token parses gets the same timestamp whatever
/// the clock reads: only lines without a usable timestamp fall back on it.
pub proof fn law_parsed_timestamp_ignores_clock(line: Seq<char>, now1: i64, now2: i64)
    requires
        digit_run(line) is Some,
        spec_parse_i64(digit_run(line)->0) is Some,
    ensures
        log_line_time(line, now1) == log_line_time(line, now2),
{
}

proof fn lemma_rule_lines(r: SimpleRuleView, frames: Seq<CanFrameView>, ev: i64)
    ensures
        rule_lines(r, frames, ev).len() <= frames.len(),
        forall|i: int|
            0 <= i < rule_lines(r, frames, ev).len() ==> exists|j: int|
                0 <= j < frames.len() && rule_hits(r, frames[j], ev) && #[trigger] rule_lines(
                    r,
                    frames,
                    ev,
                )[i] == match_text(r, frames[j], ev),
    decreases frames.len(),
{
    if frames.len() > 0 {
        let d = frames.drop_last();
        lemma_rule_lines(r, d, ev);
        let prev = rule_lines(r, d, ev);
        assert forall|i: int| 0 <= i < rule_lines(r, frames, ev).len() implies exists|j: int|
            0 <= j < frames.len() && rule_hits(r, frames[j], ev) && #[trigger] rule_lines(
                r,
                frames,
                ev,
            )[i] == match_text(r, frames[j], ev) by {
            if i < prev.len() {
                assert(rule_lines(r, frames, ev)[i] == prev[i]);
                let j = choose|j: int|
                    0 <= j < d.len() && rule_hits(r, d[j], ev) && prev[i] == match_text(r, d[j], ev);
                assert(frames[j] == d[j]);
            } else {
                assert(frames[frames.len() - 1] == frames.last());
            }
        }
    }
}

/// `line` reports a rule of `rules` that hit a frame of `frames`.
pub open spec fn reports_a_hit(
    rules: Seq<SimpleRuleView>,
    frames: Seq<CanFrameView>,
    ev: i64,
    line: Seq<char>,
) -> bool {
    exists|a: int, b: int|
        0 <= a < rules.len() && 0 <= b < frames.len() && rule_hits(rules[a], frames[b], ev) && line
            == match_text(rules[a], frames[b], ev)
}

/// Every correlation line reports a rule that hit a frame (matching id,
/// within the rule's window before the event, payload bits as the rule
/// says), and there are at most as many lines as rule-frame pairs.
pub proof fn law_correlation_lines_are_hits(
    rules: Seq<SimpleRuleView>,
    frames: Seq<CanFrameView>,
    ev: i64,
)
    ensures
        correlate_spec(rules, frames, ev).len() <= rules.len() * frames.len(),
        forall|i: int|
            0 <= i < correlate_spec(rules, frames, ev).len() ==> reports_a_hit(
                rules,
                frames,
                ev,
                #[trigger] correlate_spec(rules, frames, ev)[i],
            ),
    decreases rules.len(),
{
    if rules.len() > 0 {
        let d = rules.drop_last();
        law_correlation_lines_are_hits(d, frames, ev);
        lemma_rule_lines(rules.last(), frames, ev);
        let prev = correlate_spec(d, frames, ev);
        let mine = rule_lines(rules.last(), frames, ev);
        assert(rules.len() * frames.len() == d.len() * frames.len() + frames.len()) by (nonlinear_arith)
            requires
                rules.len() == d.len() + 1,
        ;
        assert forall|i: int| 0 <= i < correlate_spec(rules, frames, ev).len() implies reports_a_hit(
            rules,
            frames,
            ev,
            #[trigger] correlate_spec(rules, frames, ev)[i],
        ) by {
            let line = correlate_spec(rules, frames, ev)[i];
            if i < prev.len() {
                assert(line == prev[i]);
                assert(reports_a_hit(d, frames, ev, prev[i]));
                let (a, b) = choose|a: int, b: int|
                    0 <= a < d.len() && 0 <= b < frames.len() && rule_hits(d[a], frames[b], ev)
                        && prev[i] == match_text(d[a], frames[b], ev);
                assert(rules[a] == d[a]);
            } else {
                assert(line == mine[i - prev.len()]);
                let b = choose|b: int|
                    0 <= b < frames.len() && rule_hits(rules.last(), frames[b], ev) && mine[i
                        - prev.len()] == match_text(rules.last(), frames[b], ev);
                let a = rules.len() - 1;
                assert(rules[a] == rules.last());
            }
        }
    }
}

proof fn lemma_window_parts(evs: Seq<SystemEventView>, start: i64, w: i64)
    ensures
        count_after_where(evs, start, w, true, EventKind::ServiceCrash) + count_after_where(
            evs,
            start,
            w,
            false,
            EventKind::Timeout,
        ) + count_after_where(evs, start, w, false, EventKind::Watchdog) <= count_after(
            evs,
            start,
            w,
        ),
        crash_names(evs, start, w).len() == count_after_where(
            evs,
            start,
            w,
            true,
            EventKind::ServiceCrash,
        ),
        count_after_where(evs, start, w, true, EventKind::ServiceCrash) > 0 ==> (start
            <= first_crash(evs, start, w) <= start + w),
        count_after_where(evs, start, w, true, EventKind::ServiceCrash) == 0 ==> first_crash(
            evs,
            start,
            w,
        ) == i64::MAX,
    decreases evs.len(),
{
    if evs.len() > 0 {
        lemma_window_parts(evs.drop_last(), start, w);
    }
}

/// Around a transmitted frame, crashes, timeouts and watchdog triggers are
/// counted among the events of the window after it; at most three crashed
/// services are listed (all of them when there are three or fewer); and the
/// first crash, when there is one, lies within the window, so the time from
/// the frame to it is between zero and the window length.
pub proof fn law_window_impact_consistent(evs: Seq<SystemEventView>, start: i64, w: i64)
    ensures
        ({
            let crashes = count_after_where(evs, start, w, true, EventKind::ServiceCrash);
            &&& crashes + count_after_where(evs, start, w, false, EventKind::Timeout)
                + count_after_where(evs, start, w, false, EventKind::Watchdog) <= count_after(
                evs,
                start,
                w,
            )
            &&& last_three_reversed(crash_names(evs, start, w)).len() == if crashes <= 3 {
                crashes as int
            } else {
                3
            }
            &&& crashes > 0 ==> 0 <= first_crash(evs, start, w) - start <= w
        }),
{
    lemma_window_parts(evs, start, w);
}

/// With a non-negative window, every event's own rate window holds at least
/// that event, and no window holds more events than there are.
pub proof fn law_rate_window_counts_itself(ts: Seq<i64>, i: int, w: i64)
    requires
        0 <= i < ts.len(),
        w >= 0,
    ensures
        1 <= count_in(ts, ts[i] as int, ts[i] + w) <= ts.len(),
    decreases ts.len(),
{
    lemma_count_in_bound(ts, ts[i] as int, ts[i] + w);
    if i < ts.len() - 1 {
        law_rate_window_counts_itself(ts.drop_last(), i, w);
        assert(ts.drop_last()[i] == ts[i]);
    }
}

proof fn lemma_count_in_bound(ts: Seq<i64>, lo: int, hi: int)
    ensures
        count_in(ts, lo, hi) <= ts.len(),
    decreases ts.len(),
{
    if ts.len() > 0 {
        lemma_count_in_bound(ts.drop_last(), lo, hi);
    }
}

proof fn lemma_first_seen_members<T>(ps: Seq<T>)
    ensures
        forall|i: int| 0 <= i < first_seen(ps).len() ==> ps.contains(#[trigger] first_seen(ps)[i]),
    decreases ps.len(),
{
    if ps.len() > 0 {
        let d = ps.drop_last();
        lemma_first_seen_members(d);
        assert forall|i: int| 0 <= i < first_seen(ps).len() implies ps.contains(
            #[trigger] first_seen(ps)[i],
        ) by {
            let x = first_seen(ps)[i];
            if i < first_seen(d).len() {
                assert(x == first_seen(d)[i]);
                assert(d.contains(x));
                let j = choose|j: int| 0 <= j < d.len() && d[j] == x;
                assert(ps[j] == x);
            } else {
                assert(ps[ps.len() - 1] == x);
            }
        }
    }
}

proof fn lemma_occurrences_pos<T>(ps: Seq<T>, p: T)
    requires
        ps.contains(p),
    ensures
        occurrences(ps, p) >= 1,
    decreases ps.len(),
{
    if ps.last() != p {
        let j = choose|j: int| 0 <= j < ps.len() && ps[j] == p;
        assert(ps.drop_last()[j] == p);
        lemma_occurrences_pos(ps.drop_last(), p);
    }
}

proof fn lemma_pair_patterns_len(evs: Seq<SystemEventView>)
    ensures
        evs.len() >= 1 ==> pair_patterns(evs).len() <= evs.len() - 1,
        evs.len() < 1 ==> pair_patterns(evs).len() == 0,
    decreases evs.len(),
{
    if evs.len() >= 2 {
        lemma_pair_patterns_len(evs.drop_last());
    }
}

/// Failure-sequence patterns come from consecutive pairs: there are fewer
/// pattern occurrences than events, and every reported pattern occurred.
pub proof fn law_failure_patterns_from_pairs(evs: Seq<SystemEventView>)
    ensures
        evs.len() >= 1 ==> pair_patterns(evs).len() <= evs.len() - 1,
        forall|k: int| 0 <= k < pattern_tally(evs).len() ==> #[trigger] pattern_tally(evs)[k].1 >= 1,
{
    lemma_pair_patterns_len(evs);
    let ps = pair_patterns(evs);
    lemma_first_seen_members(ps);
    assert forall|k: int| 0 <= k < pattern_tally(evs).len() implies #[trigger] pattern_tally(
        evs,
    )[k].1 >= 1 by {
        lemma_occurrences_pos(ps, first_seen(ps)[k]);
    }
}

proof fn lemma_keep_repeated(ks: Seq<ErrorKey>, evs: Seq<SystemEventView>)
    ensures
        forall|i: int|
            0 <= i < keep_repeated(ks, evs).len() ==> key_times(
                evs,
                #[trigger] keep_repeated(ks, evs)[i],
            ).len() >= 2,
    decreases ks.len(),
{
    if ks.len() > 0 {
        lemma_keep_repeated(ks.drop_last(), evs);
        let r = keep_repeated(ks.drop_last(), evs);
        assert forall|i: int| 0 <= i < keep_repeated(ks, evs).len() implies key_times(
            evs,
            #[trigger] keep_repeated(ks, evs)[i],
        ).len() >= 2 by {
            if i < r.len() {
                assert(keep_repeated(ks, evs)[i] == r[i]);
            }
        }
    }
}

proof fn lemma_key_times_len(evs: Seq<SystemEventView>, k: ErrorKey)
    ensures
        key_times(evs, k).len() <= evs.len(),
    decreases evs.len(),
{
    if evs.len() > 0 {
        lemma_key_times_len(evs.drop_last(), k);
    }
}

/// Every reported repetitive error occurred at least twice, and its count is
/// the number of occurrence times listed.
pub proof fn law_repetitive_errors_recur(evs: Seq<SystemEventView>, i: int)
    requires
        0 <= i < repeated_keys(evs).len(),
        evs.len() <= usize::MAX,
    ensures
        group_error(evs, repeated_keys(evs)[i]).occurrence_count >= 2,
        group_error(evs, repeated_keys(evs)[i]).occurrence_count == group_error(
            evs,
            repeated_keys(evs)[i],
        ).occurrences_at_ms.len(),
{
    lemma_keep_repeated(first_seen(crate::reporter::event_keys(evs)), evs);
    lemma_key_times_len(evs, repeated_keys(evs)[i]);
}

/// Every frame read from a capture is on `eth0`, and is marked received
/// exactly when it was summarised as TCP or UDP (otherwise `-`).
pub proof fn law_capture_frames_on_eth0(d: Seq<u8>, p: int)
    ensures
        forall|i: int|
            0 <= i < walk_frames(d, p).len() ==> (#[trigger] walk_frames(d, p)[i]).iface == "eth0"@
                && (walk_frames(d, p)[i].direction == "RX"@ || walk_frames(d, p)[i].direction
                == "-"@),
    decreases d.len() - p,
{
    if p >= 0 && p + 16 <= d.len() && !(crate::pcap::u32le(d, p) == 6 && p + 36 > d.len()) {
        let q = crate::pcap::block_next(d, p);
        let here = crate::pcap::block_frames(d, p);
        assert forall|i: int| 0 <= i < here.len() implies here[i].iface == "eth0"@ && (
        here[i].direction == "RX"@ || here[i].direction == "-"@) by {
            let f = crate::pcap::packet_frame(d, p)->0;
            let caplen = crate::pcap::u32le(d, p + 20);
            let pkt = d.subrange(p + 28, p + 28 + caplen);
            assert(here[i] == f);
            assert(f.direction == crate::pcap::packet_summary(pkt).1);
        }
        if q > p && q + 16 <= d.len() {
            law_capture_frames_on_eth0(d, q);
            let rest = walk_frames(d, q);
            assert forall|i: int| 0 <= i < walk_frames(d, p).len() implies (#[trigger] walk_frames(
                d,
                p,
            )[i]).iface == "eth0"@ && (walk_frames(d, p)[i].direction == "RX"@ || walk_frames(
                d,
                p,
            )[i].direction == "-"@) by {
                if i < here.len() {
                    assert(walk_frames(d, p)[i] == here[i]);
                } else {
                    assert(walk_frames(d, p)[i] == rest[i - here.len()]);
                }
            }
        }
    }
}

proof fn lemma_escape_char_safe(c: char)
    ensures
        forall|j: int|
            0 <= j < escape_char(c).len() ==> #[trigger] escape_char(c)[j] != '<' && escape_char(c)[j]
                != '>' && escape_char(c)[j] != '"' && escape_char(c)[j] != '\'',
{
    reveal_strlit("&amp;");
    reveal_strlit("&lt;");
    reveal_strlit("&gt;");
    reveal_strlit("&quot;");
    reveal_strlit("&#39;");
}

/// Escaped text holds no `<`, `>`, `"` or `'`: it cannot open a tag or end
/// an attribute.
pub proof fn law_escaped_text_has_no_markup(s: Seq<char>)
    ensures
        forall|i: int|
            0 <= i < escape_text(s).len() ==> #[trigger] escape_text(s)[i] != '<' && escape_text(s)[i]
                != '>' && escape_text(s)[i] != '"' && escape_text(s)[i] != '\'',
    decreases s.len(),
{
    if s.len() > 0 {
        law_escaped_text_has_no_markup(s.drop_last());
        lemma_escape_char_safe(s.last());
        let a = escape_text(s.drop_last());
        let b = escape_char(s.last());
        assert forall|i: int| 0 <= i < escape_text(s).len() implies #[trigger] escape_text(s)[i] != '<'
            && escape_text(s)[i] != '>' && escape_text(s)[i] != '"' && escape_text(s)[i] != '\'' by {
            if i < a.len() {
                assert(escape_text(s)[i] == a[i]);
            } else {
                assert(escape_text(s)[i] == b[i - a.len()]);
            }
        }
    }
}

/// The per-domain counts account for every event exactly once: summed over
/// both domains and all eight kinds they give the number of events.
pub proof fn law_metrics_count_every_event(evs: Seq<SystemEventView>)
    ensures
        count_kind(evs, Domain::Qnx, EventKind::ServiceStart) + count_kind(
            evs,
            Domain::Qnx,
            EventKind::ServiceCrash,
        ) + count_kind(evs, Domain::Qnx, EventKind::SystemCrash) + count_kind(
            evs,
            Domain::Qnx,
            EventKind::Timeout,
        ) + count_kind(evs, Domain::Qnx, EventKind::Watchdog) + count_kind(
            evs,
            Domain::Qnx,
            EventKind::Reset,
        ) + count_kind(evs, Domain::Qnx, EventKind::Discrepancy) + count_kind(
            evs,
            Domain::Qnx,
            EventKind::Deviation,
        ) + count_kind(evs, Domain::Android, EventKind::ServiceStart) + count_kind(
            evs,
            Domain::Android,
            EventKind::ServiceCrash,
        ) + count_kind(evs, Domain::Android, EventKind::SystemCrash) + count_kind(
            evs,
            Domain::Android,
            EventKind::Timeout,
        ) + count_kind(evs, Domain::Android, EventKind::Watchdog) + count_kind(
            evs,
            Domain::Android,
            EventKind::Reset,
        ) + count_kind(evs, Domain::Android, EventKind::Discrepancy) + count_kind(
            evs,
            Domain::Android,
            EventKind::Deviation,
        ) == evs.len(),
    decreases evs.len(),
{
    if evs.len() > 0 {
        law_metrics_count_every_event(evs.drop_last());
    }
}

/// A report's total of each kind is the sum of the two domains' counts of
/// that kind.
pub proof fn law_totals_are_domain_sums(evs: Seq<SystemEventView>, k: EventKind)
    ensures
        count_all(evs, k) == count_kind(evs, Domain::Qnx, k) + count_kind(evs, Domain::Android, k),
    decreases evs.len(),
{
    if evs.len() > 0 {
        law_totals_are_domain_sums(evs.drop_last(), k);
    }
}

/// The merged entries of an analysis are as many as the logs hold, and come
/// out in ascending time order.
pub proof fn law_merged_entries_ascend(sorted: Seq<LogEntryView>, s: Seq<LogEntryView>)
    requires
        is_time_sorted_from(sorted, s),
    ensures
        sorted.len() == s.len(),
        forall|a: int, b: int|
            0 <= a <= b < sorted.len() ==> #[trigger] sorted[a].timestamp <= #[trigger] sorted[b].timestamp,
{
    let ord = choose|ord: Seq<usize>|
        #[trigger] is_permutation(ord, s.len()) && stable_asc(entry_times(s), ord) && sorted.len()
            == ord.len() && forall|a: int| 0 <= a < sorted.len() ==> sorted[a] == s[ord[a] as int];
    assert forall|a: int, b: int| 0 <= a <= b < sorted.len() implies #[trigger] sorted[a].timestamp
        <= #[trigger] sorted[b].timestamp by {
        if a < b {
            assert(entry_times(s)[ord[a] as int] == s[ord[a] as int].timestamp);
            assert(entry_times(s)[ord[b] as int] == s[ord[b] as int].timestamp);
        }
    }
}

/// The totals of a report account for every event exactly once: summed over
/// the eight kinds they give the number of events.
pub proof fn law_totals_cover_all_events(evs: Seq<SystemEventView>)
    ensures
        count_all(evs, EventKind::ServiceStart) + count_all(evs, EventKind::ServiceCrash) + count_all(
            evs,
            EventKind::SystemCrash,
        ) + count_all(evs, EventKind::Timeout) + count_all(evs, EventKind::Watchdog) + count_all(
            evs,
            EventKind::Reset,
        ) + count_all(evs, EventKind::Discrepancy) + count_all(evs, EventKind::Deviation)
            == evs.len(),
    decreases evs.len(),
{
    if evs.len() > 0 {
        law_totals_cover_all_events(evs.drop_last());
    }
}

/// The latest session is the one whose name no other name sorts after.
pub proof fn law_latest_session_is_greatest(names: Seq<String>)
    ensures
        names.len() > 0 ==> latest_index(names) is Some,
        latest_index(names) matches Some(i) ==> 0 <= i < names.len() && forall|j: int|
            0 <= j < names.len() ==> !text_after(#[trigger] names[j]@, names[i]@),
    decreases names.len(),
{
    if names.len() > 0 {
        let d = names.drop_last();
        law_latest_session_is_greatest(d);
        let last = names.len() - 1;
        lemma_bytes_after_irreflexive(encode_utf8(names[last]@));
        match latest_index(d) {
            None => {
                assert(d.len() == 0);
            },
            Some(p) => {
                assert(d[p] == names[p]);
                if text_after(names.last()@, names[p]@) {
                    assert forall|j: int| 0 <= j < names.len() implies !text_after(
                        #[trigger] names[j]@,
                        names[last]@,
                    ) by {
                        if j < last {
                            assert(d[j] == names[j]);
                            if text_after(names[j]@, names[last]@) {
                                lemma_bytes_after_transitive(
                                    encode_utf8(names[j]@),
                                    encode_utf8(names[last]@),
                                    encode_utf8(names[p]@),
                                );
                            }
                        }
                    }
                } else {
                    assert forall|j: int| 0 <= j < names.len() implies !text_after(
                        #[trigger] names[j]@,
                        names[p]@,
                    ) by {
                        if j < last {
                            assert(d[j] == names[j]);
                        }
                    }
                }
            },
        }
    }
}

/// Classification ignores case: two entries whose messages are the same
/// once lower-cased yield events of the same kind, or both none.
pub proof fn law_classification_ignores_case(a: LogEntryView, b: LogEntryView)
    requires
        lower_text(a.message) == lower_text(b.message),
    ensures
        event_of_entry(a) is Some <==> event_of_entry(b) is Some,
        event_of_entry(a) is Some ==> event_of_entry(a)->0.kind == event_of_entry(b)->0.kind,
{
}

/// Classification ignores the case of ASCII letters: entries whose messages
/// are ASCII and differ only in the case of their letters yield, position by
/// position, events of the same kinds (and equally many).
pub proof fn law_ascii_case_variants_classify_alike(a: Seq<LogEntryView>, b: Seq<LogEntryView>)
    requires
        a.len() == b.len(),
        forall|i: int|
            0 <= i < a.len() ==> is_ascii_text(#[trigger] a[i].message) && is_ascii_text(
                b[i].message,
            ) && ascii_lower(a[i].message) == ascii_lower(b[i].message),
    ensures
        classify_spec(a).len() == classify_spec(b).len(),
        forall|k: int|
            0 <= k < classify_spec(a).len() ==> (#[trigger] classify_spec(a)[k]).kind
                == classify_spec(b)[k].kind,
    decreases a.len(),
{
    if a.len() > 0 {
        let n = a.len() - 1;
        law_ascii_case_variants_classify_alike(a.drop_last(), b.drop_last());
        assert(is_ascii_text(a[n].message));
        assert(lower_text(a.last().message) == lower_text(b.last().message));
        law_classification_ignores_case(a.last(), b.last());
    }
}

} // verus!
