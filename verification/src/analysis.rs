//! The analysis pipeline: the two system logs merged in time order,
//! classified into events, and each event correlated with the CAN frames
//! under the correlation rules.

use vstd::prelude::*;
use crate::classifier::{classify_logs, classify_spec, event_of_entry};
use crate::laws::law_classify_events_come_from_entries;
use crate::models::{CanFrame, CanFrameView, LogEntry, LogEntryView, SystemEvent, SystemEventView};
use crate::order::{listed, stable_asc, stable_order_asc};
use crate::reporter::{frames_view, is_permutation};
use crate::rules::{all_checkable, correlate_checked, correlate_spec, SimpleRule, SimpleRuleView};
use crate::text::{chars_of, contains_lit, seq_contains};

verus! {

/// What the analysis of the two system logs yields.
#[derive(Debug)]
pub struct Analysis {
    /// The entries of both logs in ascending time order; entries with equal
    /// timestamps keep their order, QNX entries before Android ones.
    pub entries: Vec<LogEntry>,
    /// The events the entries yield, in entry order.
    pub events: Vec<SystemEvent>,
    /// For each event in order, the lines that `correlate` reports for it,
    /// each with the event's timestamp; empty without both a CAN log and rules.
    pub correlations: Vec<(i64, String)>,
}

pub open spec fn entry_times(s: Seq<LogEntryView>) -> Seq<i64> {
    Seq::new(s.len(), |i: int| s[i].timestamp)
}

/// `sorted` is `s` in ascending time order, entries with equal timestamps in
/// their order in `s`: what a stable sort by timestamp gives.
pub open spec fn is_time_sorted_from(sorted: Seq<LogEntryView>, s: Seq<LogEntryView>) -> bool {
    exists|ord: Seq<usize>|
        #[trigger] is_permutation(ord, s.len()) && stable_asc(entry_times(s), ord) && sorted.len()
            == ord.len() && forall|a: int| 0 <= a < sorted.len() ==> sorted[a] == s[ord[a] as int]
}

/// The correlation report lines of the events, each with the timestamp of
/// its event, in event order.
pub open spec fn correlation_lines(
    evs: Seq<SystemEventView>,
    rules: Seq<SimpleRuleView>,
    frames: Seq<CanFrameView>,
) -> Seq<(i64, Seq<char>)>
    decreases evs.len(),
{
    if evs.len() == 0 {
        Seq::empty()
    } else {
        let ts = evs.last().timestamp;
        correlation_lines(evs.drop_last(), rules, frames) + correlate_spec(
            rules,
            frames,
            ts,
        ).map_values(|m: Seq<char>| (ts, m))
    }
}

/// An entry whose event cannot be correlated: at its timestamp some rule and
/// frame cannot be checked (see `pair_checkable`).
pub open spec fn uncheckable_entry(
    e: LogEntryView,
    rules: Seq<SimpleRuleView>,
    frames: Seq<CanFrameView>,
) -> bool {
    event_of_entry(e) is Some && !all_checkable(rules, frames, e.timestamp)
}

/// With a CAN log and rules, the entry's event cannot be correlated.
pub open spec fn fails_at(
    e: LogEntryView,
    frames: Option<Seq<CanFrameView>>,
    rules: Option<Seq<SimpleRuleView>>,
) -> bool {
    match frames {
        Some(f) => match rules {
            Some(rs) => uncheckable_entry(e, rs, f),
            None => false,
        },
        None => false,
    }
}

/// The analysis cannot be completed: with a CAN log and rules, some entry's
/// event cannot be correlated.
pub open spec fn analysis_fails(
    entries: Seq<LogEntryView>,
    frames: Option<Seq<CanFrameView>>,
    rules: Option<Seq<SimpleRuleView>>,
) -> bool {
    exists|j: int| 0 <= j < entries.len() && #[trigger] fails_at(entries[j], frames, rules)
}

pub open spec fn rules_view(rules: Option<&Vec<SimpleRule>>) -> Option<Seq<SimpleRuleView>> {
    match rules {
        None => None,
        Some(v) => Some(v.deep_view()),
    }
}

/// The upload form's field that a part of the form belongs to, found in the
/// text describing the part: the first of `qnx_file`, `android_file`,
/// `can_file`, `eth_file`, `dbc_file` and `rules_file` that the text contains,
/// else `unknown`.
pub open spec fn upload_field_of(info: Seq<char>) -> Seq<char> {
    if seq_contains(info, "qnx_file"@) {
        "qnx_file"@
    } else if seq_contains(info, "android_file"@) {
        "android_file"@
    } else if seq_contains(info, "can_file"@) {
        "can_file"@
    } else if seq_contains(info, "eth_file"@) {
        "eth_file"@
    } else if seq_contains(info, "dbc_file"@) {
        "dbc_file"@
    } else if seq_contains(info, "rules_file"@) {
        "rules_file"@
    } else {
        "unknown"@
    }
}

/// The upload form's field a part belongs to.
pub fn upload_field_name(info: &str) -> (r: &'static str)
    ensures
        r@ == upload_field_of(info@),
{
    let cs = chars_of(info);
    if contains_lit(&cs, "qnx_file") {
        "qnx_file"
    } else if contains_lit(&cs, "android_file") {
        "android_file"
    } else if contains_lit(&cs, "can_file") {
        "can_file"
    } else if contains_lit(&cs, "eth_file") {
        "eth_file"
    } else if contains_lit(&cs, "dbc_file") {
        "dbc_file"
    } else if contains_lit(&cs, "rules_file") {
        "rules_file"
    } else {
        "unknown"
    }
}

fn copy_entry(e: &LogEntry) -> (r: LogEntry)
    ensures
        r@ == e@,
{
    LogEntry {
        timestamp: e.timestamp,
        domain: e.domain,
        process: e.process.clone(),
        message: e.message.clone(),
    }
}

/// Every entry that yields an event has that event among the classified ones.
proof fn lemma_classify_covers(s: Seq<LogEntryView>, a: int)
    requires
        0 <= a < s.len(),
        event_of_entry(s[a]) is Some,
    ensures
        exists|k: int|
            0 <= k < classify_spec(s).len() && #[trigger] classify_spec(s)[k] == event_of_entry(
                s[a],
            )->0,
    decreases s.len(),
{
    let d = s.drop_last();
    if a == s.len() - 1 {
        let k = classify_spec(d).len() as int;
        assert(classify_spec(s)[k] == event_of_entry(s[a])->0);
    } else {
        assert(d[a] == s[a]);
        lemma_classify_covers(d, a);
        let k = choose|k: int|
            0 <= k < classify_spec(d).len() && #[trigger] classify_spec(d)[k] == event_of_entry(
                d[a],
            )->0;
        assert(classify_spec(s)[k] == classify_spec(d)[k]);
    }
}

/// Correlate each event with the frames under the rules: for each event in
/// order, the lines that `correlate` reports at its timestamp, each with that
/// timestamp. `None` exactly when, at some event's timestamp, a rule and a
/// frame cannot be checked (see `pair_checkable`).
pub fn correlate_events(
    events: &[SystemEvent],
    frames: &[CanFrame],
    rules: &[SimpleRule],
) -> (r: Option<Vec<(i64, String)>>)
    ensures
        r is None <==> exists|k: int|
            0 <= k < events.deep_view().len() && !all_checkable(
                rules.deep_view(),
                frames.deep_view(),
                #[trigger] events.deep_view()[k].timestamp,
            ),
        r matches Some(c) ==> c.deep_view() == correlation_lines(
            events.deep_view(),
            rules.deep_view(),
            frames.deep_view(),
        ),
{
    let ghost evs = events.deep_view();
    let ghost fv = frames.deep_view();
    let ghost rv = rules.deep_view();
    let mut correlations: Vec<(i64, String)> = Vec::new();
    let m = events.len();
    let mut k: usize = 0;
    while k < m
        invariant
            evs == events.deep_view(),
            fv == frames.deep_view(),
            rv == rules.deep_view(),
            m == evs.len(),
            k <= m,
            correlations.deep_view() == correlation_lines(evs.take(k as int), rv, fv),
            forall|t: int| 0 <= t < k ==> all_checkable(rv, fv, #[trigger] evs[t].timestamp),
        decreases m - k,
    {
        let t = events[k].timestamp();
        match correlate_checked(frames, t, rules) {
            None => {
                assert(!all_checkable(rv, fv, evs[k as int].timestamp));
                return None;
            },
            Some(ms) => {
                let ghost base = correlations.deep_view();
                let ghost lines = correlate_spec(rv, fv, t);
                let nm = ms.len();
                let mut x: usize = 0;
                while x < nm
                    invariant
                        nm == ms.deep_view().len(),
                        ms.deep_view() == lines,
                        x <= nm,
                        correlations.deep_view() =~= base + lines.take(x as int).map_values(
                            |s: Seq<char>| (t, s),
                        ),
                    decreases nm - x,
                {
                    let line = ms[x].clone();
                    let ghost before = correlations.deep_view();
                    correlations.push((t, line));
                    assert(correlations.deep_view() =~= before.push((t, lines[x as int])));
                    assert(lines.take(x + 1).map_values(|s: Seq<char>| (t, s)) =~= lines.take(
                        x as int,
                    ).map_values(|s: Seq<char>| (t, s)).push((t, lines[x as int])));
                    x = x + 1;
                }
                proof {
                    assert(lines.take(nm as int) =~= lines);
                    assert(evs.take(k + 1).drop_last() =~= evs.take(k as int));
                    assert(evs.take(k + 1).last().timestamp == t);
                }
            },
        }
        k = k + 1;
    }
    assert(evs.take(m as int) =~= evs);
    Some(correlations)
}

/// Run the analysis of the two system logs: merge their entries, QNX first,
/// into a stable time order, classify them into events, and, with a CAN log
/// and rules, correlate each event with the frames. `None` exactly when some
/// event cannot be correlated (a rule and a frame that cannot be checked at
/// its timestamp).
pub fn run_analysis(
    qnx: &Vec<LogEntry>,
    android: &Vec<LogEntry>,
    can_frames: Option<&Vec<CanFrame>>,
    rules: Option<&Vec<SimpleRule>>,
) -> (r: Option<Analysis>)
    requires
        qnx@.len() + android@.len() <= usize::MAX,
    ensures
        r is None <==> analysis_fails(
            qnx.deep_view() + android.deep_view(),
            frames_view(can_frames),
            rules_view(rules),
        ),
        r matches Some(a) ==> {
            &&& is_time_sorted_from(a.entries.deep_view(), qnx.deep_view() + android.deep_view())
            &&& a.events.deep_view() == classify_spec(a.entries.deep_view())
            &&& a.correlations.deep_view() == match (frames_view(can_frames), rules_view(rules)) {
                (Some(f), Some(rs)) => correlation_lines(a.events.deep_view(), rs, f),
                _ => Seq::empty(),
            }
        },
{
    let ghost merged = qnx.deep_view() + android.deep_view();
    let qn = qnx.len();
    let n = qn + android.len();
    let mut ts: Vec<i64> = Vec::new();
    let mut i: usize = 0;
    while i < n
        invariant
            merged == qnx.deep_view() + android.deep_view(),
            qn == qnx@.len(),
            n == merged.len(),
            i <= n,
            ts@ =~= entry_times(merged).take(i as int),
        decreases n - i,
    {
        let t = if i < qn {
            qnx[i].timestamp
        } else {
            android[i - qn].timestamp
        };
        proof {
            if i < qn {
                assert(merged[i as int] == qnx@[i as int]@);
            } else {
                assert(merged[i as int] == android@[i - qn]@);
            }
        }
        ts.push(t);
        i = i + 1;
    }
    assert(ts@ =~= entry_times(merged));
    let ord = stable_order_asc(&ts);
    let mut entries: Vec<LogEntry> = Vec::new();
    let mut a: usize = 0;
    while a < n
        invariant
            merged == qnx.deep_view() + android.deep_view(),
            qn == qnx@.len(),
            n == merged.len(),
            is_permutation(ord@, n as nat),
            a <= n,
            entries.deep_view().len() == a,
            forall|t: int| 0 <= t < a ==> #[trigger] entries.deep_view()[t] == merged[ord@[t] as int],
        decreases n - a,
    {
        let j = ord[a];
        let e = if j < qn {
            copy_entry(&qnx[j])
        } else {
            copy_entry(&android[j - qn])
        };
        proof {
            if j < qn {
                assert(merged[j as int] == qnx@[j as int]@);
            } else {
                assert(merged[j as int] == android@[j - qn]@);
            }
        }
        let ghost old_entries = entries.deep_view();
        entries.push(e);
        assert(entries.deep_view() =~= old_entries.push(e@));
        a = a + 1;
    }
    let ghost ev_entries = entries.deep_view();
    assert(forall|t: int| 0 <= t < n ==> #[trigger] ev_entries[t] == merged[ord@[t] as int]);
    assert(is_time_sorted_from(ev_entries, merged)) by {
        assert(is_permutation(ord@, merged.len()));
    }
    let events = classify_logs(&entries);
    let ghost evs = events.deep_view();
    let mut correlations: Vec<(i64, String)> = Vec::new();
    match (can_frames, rules) {
        (Some(f), Some(rs)) => {
            let ghost fv = f.deep_view();
            let ghost rv = rs.deep_view();
            assert(frames_view(can_frames) == Some(fv));
            assert(rules_view(rules) == Some(rv));
            let fs = f.as_slice();
            let rsl = rs.as_slice();
            assert(fs.deep_view() =~= fv);
            assert(rsl.deep_view() =~= rv);
            let es = events.as_slice();
            assert(es.deep_view() =~= evs);
            match correlate_events(es, fs, rsl) {
                None => {
                    proof {
                        let k = choose|k: int|
                            0 <= k < evs.len() && !all_checkable(rv, fv, #[trigger] evs[k].timestamp);
                        law_classify_events_come_from_entries(ev_entries);
                        let w = choose|w: int|
                            0 <= w < ev_entries.len() && event_of_entry(ev_entries[w]) == Some(
                                #[trigger] classify_spec(ev_entries)[k],
                            );
                        let j = ord@[w] as int;
                        assert(ev_entries[w] == merged[j]);
                        assert(uncheckable_entry(merged[j], rv, fv));
                        assert(fails_at(merged[j], frames_view(can_frames), rules_view(rules)));
                    }
                    return None;
                },
                Some(c) => {
                    proof {
                        assert forall|j: int| 0 <= j < merged.len() implies !#[trigger] fails_at(
                            merged[j],
                            frames_view(can_frames),
                            rules_view(rules),
                        ) by {
                            assert(listed(ord@, j));
                            let a = choose|a: int| 0 <= a < ord@.len() && ord@[a] == j;
                            assert(ev_entries[a] == merged[j]);
                            if event_of_entry(merged[j]) is Some {
                                lemma_classify_covers(ev_entries, a);
                                let kk = choose|kk: int|
                                    0 <= kk < classify_spec(ev_entries).len()
                                        && #[trigger] classify_spec(ev_entries)[kk]
                                        == event_of_entry(ev_entries[a])->0;
                                assert(evs[kk].timestamp == merged[j].timestamp);
                            }
                        }
                    }
                    correlations = c;
                },
            }
        },
        _ => {},
    }
    Some(Analysis { entries, events, correlations })
}

} // verus!
