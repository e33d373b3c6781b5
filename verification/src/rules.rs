//! Correlation of CAN frames with system events: user rules on frame payload
//! bits, event-rate windows, and the events that follow a transmitted frame.

use vstd::prelude::*;
use vstd::utf8::{encode_utf8, is_char_boundary};
use vstd::string::StringSliceAdditionalSpecFns;
use crate::models::{CanFrame, CanFrameView, EventKind, SystemEvent, SystemEventView};
use crate::order::{stable_asc, stable_order_asc};
use crate::reporter::is_permutation;
use crate::text::{
    chars_of, int_text, lower_text, push_int, push_str, seq_contains, string_of, to_lowercase,
    to_uppercase, upper_text, contains_lit,
};

verus! {

/// A correlation rule: a frame with this id whose payload byte `byte_index`
/// has `bit_mask` set (or clear, when `value_nonzero` is false), seen at most
/// `within_ms` before an event, is reported.
#[derive(Debug)]
pub struct SimpleRule {
    pub id: String,
    pub byte_index: usize,
    pub bit_mask: u8,
    pub value_nonzero: bool,
    pub within_ms: i64,
    pub description: String,
}

pub struct SimpleRuleView {
    pub id: Seq<char>,
    pub byte_index: usize,
    pub bit_mask: u8,
    pub value_nonzero: bool,
    pub within_ms: i64,
    pub description: Seq<char>,
}

impl View for SimpleRule {
    type V = SimpleRuleView;

    open spec fn view(&self) -> SimpleRuleView {
        SimpleRuleView {
            id: self.id@,
            byte_index: self.byte_index,
            bit_mask: self.bit_mask,
            value_nonzero: self.value_nonzero,
            within_ms: self.within_ms,
            description: self.description@,
        }
    }
}

impl DeepView for SimpleRule {
    type V = SimpleRuleView;

    open spec fn deep_view(&self) -> SimpleRuleView {
        self@
    }
}

pub open spec fn is_hex_byte(b: u8) -> bool {
    (48 <= b && b <= 57) || (65 <= b && b <= 70) || (97 <= b && b <= 102)
}

pub open spec fn hex_byte_value(b: u8) -> int {
    if 48 <= b && b <= 57 {
        b - 48
    } else if 65 <= b && b <= 70 {
        b - 55
    } else {
        b - 87
    }
}

/// `u8::from_str_radix(s, 16)` on the two-byte text `b0 b1`: an optional `+`
/// followed by hex digits.
pub open spec fn hex_pair_value(b0: u8, b1: u8) -> Option<u8> {
    if b0 == 43 && is_hex_byte(b1) {
        Some(hex_byte_value(b1) as u8)
    } else if is_hex_byte(b0) && is_hex_byte(b1) {
        Some((hex_byte_value(b0) * 16 + hex_byte_value(b1)) as u8)
    } else {
        None
    }
}

fn hex_digit(b: u8) -> (r: Option<u8>)
    ensures
        r == (if is_hex_byte(b) { Some(hex_byte_value(b) as u8) } else { None::<u8> }),
{
    if 48 <= b && b <= 57 {
        Some(b - 48)
    } else if 65 <= b && b <= 70 {
        Some(b - 55)
    } else if 97 <= b && b <= 102 {
        Some(b - 87)
    } else {
        None
    }
}

pub(crate) fn parse_hex_pair(b0: u8, b1: u8) -> (r: Option<u8>)
    ensures
        r == hex_pair_value(b0, b1),
{
    let h1 = hex_digit(b1);
    if b0 == 43 {
        return h1;
    }
    match (hex_digit(b0), h1) {
        (Some(a), Some(b)) => Some(a * 16 + b),
        _ => None,
    }
}

/// The frame's id equals the rule's id ignoring case (compared after
/// `to_lowercase`).
pub open spec fn ids_match(r: SimpleRuleView, f: CanFrameView) -> bool {
    lower_text(f.id) == lower_text(r.id)
}

/// The frame lies in `[event_ts - within_ms, event_ts]`.
pub open spec fn in_rule_window(r: SimpleRuleView, f: CanFrameView, event_ts: i64) -> bool {
    !(f.timestamp < event_ts - r.within_ms || f.timestamp > event_ts)
}

/// The payload byte the rule looks at reads as hex and its masked bits agree
/// with the rule.
pub open spec fn payload_matches(r: SimpleRuleView, f: CanFrameView) -> bool {
    let b = encode_utf8(f.data);
    let i = r.byte_index * 2;
    i + 2 <= b.len() && match hex_pair_value(b[i], b[i + 1]) {
        Some(v) => if v & r.bit_mask != 0 {
            r.value_nonzero
        } else {
            !r.value_nonzero
        },
        None => false,
    }
}

pub open spec fn rule_hits(r: SimpleRuleView, f: CanFrameView, event_ts: i64) -> bool {
    ids_match(r, f) && in_rule_window(r, f, event_ts) && payload_matches(r, f)
}

/// The report line for a rule that matched a frame.
pub open spec fn match_text(r: SimpleRuleView, f: CanFrameView, event_ts: i64) -> Seq<char> {
    "Rule '"@ + r.description + "' matched on frame "@ + f.id + " at "@ + int_text(
        f.timestamp as int,
    ) + "ms (event "@ + int_text(event_ts as int) + ")"@
}

/// Lines for one rule over the frames, in frame order.
pub open spec fn rule_lines(r: SimpleRuleView, frames: Seq<CanFrameView>, event_ts: i64) -> Seq<
    Seq<char>,
>
    decreases frames.len(),
{
    if frames.len() == 0 {
        Seq::empty()
    } else {
        let rest = rule_lines(r, frames.drop_last(), event_ts);
        if rule_hits(r, frames.last(), event_ts) {
            rest.push(match_text(r, frames.last(), event_ts))
        } else {
            rest
        }
    }
}

/// Lines for all rules, rule by rule.
pub open spec fn correlate_spec(
    rules: Seq<SimpleRuleView>,
    frames: Seq<CanFrameView>,
    event_ts: i64,
) -> Seq<Seq<char>>
    decreases rules.len(),
{
    if rules.len() == 0 {
        Seq::empty()
    } else {
        correlate_spec(rules.drop_last(), frames, event_ts) + rule_lines(
            rules.last(),
            frames,
            event_ts,
        )
    }
}

/// Checking the rule on the frame stays within machine arithmetic and slices
/// the payload text only at character boundaries.
pub open spec fn pair_checkable(r: SimpleRuleView, f: CanFrameView, event_ts: i64) -> bool {
    ids_match(r, f) ==> {
        &&& i64::MIN <= event_ts - r.within_ms <= i64::MAX
        &&& in_rule_window(r, f, event_ts) ==> {
            &&& r.byte_index * 2 + 2 <= usize::MAX
            &&& r.byte_index * 2 + 2 <= encode_utf8(f.data).len() ==> {
                &&& is_char_boundary(encode_utf8(f.data), r.byte_index * 2)
                &&& is_char_boundary(encode_utf8(f.data), r.byte_index * 2 + 2)
            }
        }
    }
}

pub open spec fn all_checkable(
    rules: Seq<SimpleRuleView>,
    frames: Seq<CanFrameView>,
    event_ts: i64,
) -> bool {
    forall|i: int, j: int|
        0 <= i < rules.len() && 0 <= j < frames.len() ==> pair_checkable(
            #[trigger] rules[i],
            #[trigger] frames[j],
            event_ts,
        )
}

fn ids_equal(r: &SimpleRule, f: &CanFrame) -> (b: bool)
    ensures
        b == ids_match(r@, f@),
{
    let a = to_lowercase(f.id.as_str());
    let b = to_lowercase(r.id.as_str());
    let n = a.len();
    if n != b.len() {
        assert(a@ != b@);
        return false;
    }
    let mut k: usize = 0;
    while k < n
        invariant
            n == a@.len(),
            n == b@.len(),
            a@ == lower_text(f@.id),
            b@ == lower_text(r@.id),
            k <= n,
            forall|t: int| 0 <= t < k ==> a@[t] == b@[t],
        decreases n - k,
    {
        if a[k] != b[k] {
            assert(a@[k as int] != b@[k as int]);
            assert(a@ != b@);
            return false;
        }
        k = k + 1;
    }
    assert(a@ =~= b@);
    true
}

fn check_pair(r: &SimpleRule, f: &CanFrame, event_ts: i64) -> (b: bool)
    requires
        pair_checkable(r@, f@, event_ts),
    ensures
        b == rule_hits(r@, f@, event_ts),
{
    if !ids_equal(r, f) {
        return false;
    }
    if f.timestamp < event_ts - r.within_ms || f.timestamp > event_ts {
        return false;
    }
    let data = f.data.as_str();
    let bytes = data.as_bytes();
    let i = r.byte_index * 2;
    if i + 2 <= bytes.len() {
        match parse_hex_pair(bytes[i], bytes[i + 1]) {
            Some(v) => {
                if (v & r.bit_mask) != 0 {
                    r.value_nonzero
                } else {
                    !r.value_nonzero
                }
            },
            None => false,
        }
    } else {
        false
    }
}

fn line_for(r: &SimpleRule, f: &CanFrame, event_ts: i64) -> (s: String)
    ensures
        s@ == match_text(r@, f@, event_ts),
{
    let mut out: Vec<char> = Vec::new();
    push_str(&mut out, "Rule '");
    let mut d = chars_of(r.description.as_str());
    out.append(&mut d);
    push_str(&mut out, "' matched on frame ");
    let mut id = chars_of(f.id.as_str());
    out.append(&mut id);
    push_str(&mut out, " at ");
    push_int(&mut out, f.timestamp);
    push_str(&mut out, "ms (event ");
    push_int(&mut out, event_ts);
    push_str(&mut out, ")");
    assert(out@ =~= match_text(r@, f@, event_ts));
    string_of(&out)
}

/// Correlate frames with an event: for each rule in turn, every frame with
/// the rule's id (ignoring case) seen within `within_ms` before the event
/// whose payload byte agrees with the rule's mask yields one report line.
pub fn correlate(frames: &[CanFrame], event_ts: i64, rules: &[SimpleRule]) -> (matches: Vec<String>)
    requires
        all_checkable(rules.deep_view(), frames.deep_view(), event_ts),
    ensures
        matches.deep_view() == correlate_spec(rules.deep_view(), frames.deep_view(), event_ts),
{
    let ghost rv = rules.deep_view();
    let ghost fv = frames.deep_view();
    let mut matches: Vec<String> = Vec::new();
    let nr = rules.len();
    let nf = frames.len();
    let mut i: usize = 0;
    while i < nr
        invariant
            rv == rules.deep_view(),
            fv == frames.deep_view(),
            nr == rv.len(),
            nf == fv.len(),
            i <= nr,
            all_checkable(rv, fv, event_ts),
            matches.deep_view() == correlate_spec(rv.take(i as int), fv, event_ts),
        decreases nr - i,
    {
        let rule = &rules[i];
        let ghost base = matches.deep_view();
        let mut j: usize = 0;
        assert(fv.take(0) =~= Seq::<CanFrameView>::empty());
        assert(base + rule_lines(rule@, fv.take(0), event_ts) =~= base);
        while j < nf
            invariant
                rv == rules.deep_view(),
                fv == frames.deep_view(),
                nr == rv.len(),
                nf == fv.len(),
                i < nr,
                j <= nf,
                rule@ == rv[i as int],
                all_checkable(rv, fv, event_ts),
                base == correlate_spec(rv.take(i as int), fv, event_ts),
                matches.deep_view() == base + rule_lines(rule@, fv.take(j as int), event_ts),
            decreases nf - j,
        {
            let f = &frames[j];
            let ghost before = matches.deep_view();
            proof {
                assert(fv[j as int] == f@);
                assert(pair_checkable(rv[i as int], fv[j as int], event_ts));
                assert(fv.take(j + 1).drop_last() =~= fv.take(j as int));
                assert(fv.take(j + 1).last() == f@);
            }
            if check_pair(rule, f, event_ts) {
                let line = line_for(rule, f, event_ts);
                matches.push(line);
                assert(matches.deep_view() =~= before.push(match_text(rule@, f@, event_ts)));
            }
            assert(matches.deep_view() =~= base + rule_lines(rule@, fv.take(j + 1), event_ts));
            j = j + 1;
        }
        proof {
            assert(fv.take(nf as int) =~= fv);
            assert(rv.take(i + 1).drop_last() =~= rv.take(i as int));
            assert(rv.take(i + 1).last() == rule@);
        }
        i = i + 1;
    }
    proof {
        assert(rv.take(nr as int) =~= rv);
    }
    matches
}

fn pair_is_checkable(r: &SimpleRule, f: &CanFrame, event_ts: i64) -> (b: bool)
    ensures
        b == pair_checkable(r@, f@, event_ts),
{
    if !ids_equal(r, f) {
        return true;
    }
    let lo = match event_ts.checked_sub(r.within_ms) {
        Some(v) => v,
        None => {
            return false;
        },
    };
    if f.timestamp < lo || f.timestamp > event_ts {
        return true;
    }
    let end = match r.byte_index.checked_mul(2) {
        Some(v) => match v.checked_add(2) {
            Some(w) => w,
            None => {
                return false;
            },
        },
        None => {
            return false;
        },
    };
    let data = f.data.as_str();
    let nbytes = data.as_bytes().len();
    if end <= nbytes {
        data.is_char_boundary(end - 2) && data.is_char_boundary(end)
    } else {
        true
    }
}

/// `correlate`, on any input: `None` exactly where some rule and frame could
/// not be checked (see `pair_checkable`), else the report lines.
pub fn correlate_checked(frames: &[CanFrame], event_ts: i64, rules: &[SimpleRule]) -> (r: Option<
    Vec<String>,
>)
    ensures
        r is None <==> !all_checkable(rules.deep_view(), frames.deep_view(), event_ts),
        r matches Some(m) ==> m.deep_view() == correlate_spec(
            rules.deep_view(),
            frames.deep_view(),
            event_ts,
        ),
{
    let ghost rv = rules.deep_view();
    let ghost fv = frames.deep_view();
    let nr = rules.len();
    let nf = frames.len();
    let mut i: usize = 0;
    while i < nr
        invariant
            rv == rules.deep_view(),
            fv == frames.deep_view(),
            nr == rv.len(),
            nf == fv.len(),
            i <= nr,
            forall|a: int, b: int|
                0 <= a < i && 0 <= b < nf ==> pair_checkable(#[trigger] rv[a], #[trigger] fv[b], event_ts),
        decreases nr - i,
    {
        let mut j: usize = 0;
        while j < nf
            invariant
                rv == rules.deep_view(),
                fv == frames.deep_view(),
                nr == rv.len(),
                nf == fv.len(),
                i < nr,
                j <= nf,
                forall|a: int, b: int|
                    0 <= a < i && 0 <= b < nf ==> pair_checkable(#[trigger] rv[a], #[trigger] fv[b], event_ts),
                forall|b: int| 0 <= b < j ==> pair_checkable(rv[i as int], #[trigger] fv[b], event_ts),
            decreases nf - j,
        {
            if !pair_is_checkable(&rules[i], &frames[j], event_ts) {
                assert(!pair_checkable(rv[i as int], fv[j as int], event_ts));
                return None;
            }
            j = j + 1;
        }
        i = i + 1;
    }
    Some(correlate(frames, event_ts, rules))
}

/// `a.saturating_sub(b)` on `i64`.
pub open spec fn sat_sub(a: i64, b: i64) -> int {
    if a - b < i64::MIN {
        i64::MIN as int
    } else if a - b > i64::MAX {
        i64::MAX as int
    } else {
        a - b
    }
}

fn saturating_sub_i64(a: i64, b: i64) -> (r: i64)
    ensures
        r == sat_sub(a, b),
{
    match a.checked_sub(b) {
        Some(v) => v,
        None => if b > 0 {
            i64::MIN
        } else {
            i64::MAX
        },
    }
}

/// The event falls in the window `[start, start + window_ms]` after a frame.
pub open spec fn in_after(e: SystemEventView, start: i64, window_ms: i64) -> bool {
    start <= e.timestamp && e.timestamp <= start + window_ms
}

/// The event falls in the window of the same length before a frame:
/// `[start.saturating_sub(window_ms), start)`.
pub open spec fn in_before(e: SystemEventView, start: i64, window_ms: i64) -> bool {
    sat_sub(start, window_ms) <= e.timestamp && e.timestamp < start
}

pub open spec fn is_crash(k: EventKind) -> bool {
    k == EventKind::ServiceCrash || k == EventKind::SystemCrash
}

/// Number of events in the window after the frame.
pub open spec fn count_after(evs: Seq<SystemEventView>, start: i64, w: i64) -> nat
    decreases evs.len(),
{
    if evs.len() == 0 {
        0
    } else {
        count_after(evs.drop_last(), start, w) + if in_after(evs.last(), start, w) {
            1nat
        } else {
            0nat
        }
    }
}

/// Number of events in the window before the frame.
pub open spec fn count_before(evs: Seq<SystemEventView>, start: i64, w: i64) -> nat
    decreases evs.len(),
{
    if evs.len() == 0 {
        0
    } else {
        count_before(evs.drop_last(), start, w) + if in_before(evs.last(), start, w) {
            1nat
        } else {
            0nat
        }
    }
}

/// Number of events in the window after the frame that satisfy `kind_ok`.
pub open spec fn count_after_where(
    evs: Seq<SystemEventView>,
    start: i64,
    w: i64,
    crash: bool,
    k: EventKind,
) -> nat
    decreases evs.len(),
{
    if evs.len() == 0 {
        0
    } else {
        let e = evs.last();
        let hit = in_after(e, start, w) && (if crash {
            is_crash(e.kind)
        } else {
            e.kind == k
        });
        count_after_where(evs.drop_last(), start, w, crash, k) + if hit {
            1nat
        } else {
            0nat
        }
    }
}

/// The name reported for a crash: the process of a service crash, `SYSTEM`
/// for a system crash.
pub open spec fn crash_name(e: SystemEventView) -> Seq<char> {
    if e.kind == EventKind::ServiceCrash {
        e.detail
    } else {
        "SYSTEM"@
    }
}

/// Names of the crashes in the window after the frame, in event order.
pub open spec fn crash_names(evs: Seq<SystemEventView>, start: i64, w: i64) -> Seq<Seq<char>>
    decreases evs.len(),
{
    if evs.len() == 0 {
        Seq::empty()
    } else {
        let e = evs.last();
        let rest = crash_names(evs.drop_last(), start, w);
        if in_after(e, start, w) && is_crash(e.kind) {
            rest.push(crash_name(e))
        } else {
            rest
        }
    }
}

/// Earliest timestamp of a crash in the window after the frame; `i64::MAX`
/// when there is none.
pub open spec fn first_crash(evs: Seq<SystemEventView>, start: i64, w: i64) -> int
    decreases evs.len(),
{
    if evs.len() == 0 {
        i64::MAX as int
    } else {
        let e = evs.last();
        let rest = first_crash(evs.drop_last(), start, w);
        if in_after(e, start, w) && is_crash(e.kind) && e.timestamp < rest {
            e.timestamp as int
        } else {
            rest
        }
    }
}

/// The last (at most) three names of `names`, latest first.
pub open spec fn last_three_reversed(names: Seq<Seq<char>>) -> Seq<Seq<char>> {
    let r = names.reverse();
    if r.len() <= 3 {
        r
    } else {
        r.take(3)
    }
}

/// Severity of a frame's impact: two or more crashes are CRITICAL, one is
/// HIGH, more than two timeouts MEDIUM, anything else LOW.
pub open spec fn impact_severity(crashes: nat, timeouts: nat) -> Seq<char> {
    if crashes >= 2 {
        "CRITICAL"@
    } else if crashes == 1 {
        "HIGH"@
    } else if timeouts > 2 {
        "MEDIUM"@
    } else {
        "LOW"@
    }
}

/// What the events around one transmitted frame show.
#[derive(Debug)]
pub struct WindowImpact {
    /// Events in `[start, start + window]`.
    pub after_count: usize,
    /// Events in `[start - window, start)` (saturating).
    pub before_count: usize,
    /// Service and system crashes after the frame.
    pub crash_count: usize,
    /// Timeouts after the frame.
    pub timeout_count: usize,
    /// Watchdog triggers after the frame.
    pub watchdog_count: usize,
    /// The last three crashed services (`SYSTEM` for a system crash), latest first.
    pub crashed_services: Vec<String>,
    /// Earliest crash after the frame, `i64::MAX` when none.
    pub first_crash_ts: i64,
    /// Time from the frame to its first crash, or the window when no crash.
    pub time_delta_ms: i64,
    /// CRITICAL, HIGH, MEDIUM or LOW.
    pub severity: String,
}

/// The window statistics owed for a frame at `start`.
pub open spec fn impact_ok(r: WindowImpact, evs: Seq<SystemEventView>, start: i64, w: i64) -> bool {
    let crashes = count_after_where(evs, start, w, true, EventKind::ServiceCrash);
    let timeouts = count_after_where(evs, start, w, false, EventKind::Timeout);
    &&& r.after_count == count_after(evs, start, w)
    &&& r.before_count == count_before(evs, start, w)
    &&& r.crash_count == crashes
    &&& r.timeout_count == timeouts
    &&& r.watchdog_count == count_after_where(evs, start, w, false, EventKind::Watchdog)
    &&& r.crashed_services.deep_view() == last_three_reversed(crash_names(evs, start, w))
    &&& r.first_crash_ts == first_crash(evs, start, w)
    &&& r.time_delta_ms == (if crashes > 0 {
        first_crash(evs, start, w) - start
    } else {
        w as int
    })
    &&& r.severity@ == impact_severity(crashes, timeouts)
}

proof fn lemma_counts_bounded(evs: Seq<SystemEventView>, start: i64, w: i64)
    ensures
        count_after(evs, start, w) <= evs.len(),
        count_before(evs, start, w) <= evs.len(),
        count_after_where(evs, start, w, true, EventKind::ServiceCrash) <= count_after(evs, start, w),
        count_after_where(evs, start, w, false, EventKind::Timeout) <= count_after(evs, start, w),
        count_after_where(evs, start, w, false, EventKind::Watchdog) <= count_after(evs, start, w),
        crash_names(evs, start, w).len() == count_after_where(evs, start, w, true, EventKind::ServiceCrash),
        count_after_where(evs, start, w, true, EventKind::ServiceCrash) > 0 ==> (start <= first_crash(evs, start, w) <= start + w),
        count_after_where(evs, start, w, true, EventKind::ServiceCrash) == 0 ==> first_crash(evs, start, w) == i64::MAX,
    decreases evs.len(),
{
    if evs.len() > 0 {
        lemma_counts_bounded(evs.drop_last(), start, w);
    }
}

fn severity_text(crashes: usize, timeouts: usize) -> (s: String)
    ensures
        s@ == impact_severity(crashes as nat, timeouts as nat),
{
    let lit = if crashes >= 2 {
        "CRITICAL"
    } else if crashes == 1 {
        "HIGH"
    } else if timeouts > 2 {
        "MEDIUM"
    } else {
        "LOW"
    };
    let v = chars_of(lit);
    string_of(&v)
}

/// Count the events around a transmitted frame at `start`: those in the
/// window after it by kind, those in the window before it, its crashed
/// services and first crash, and the resulting severity.
pub fn window_impact(events: &[SystemEvent], start: i64, window_ms: i64) -> (r: WindowImpact)
    requires
        i64::MIN <= start + window_ms <= i64::MAX,
    ensures
        impact_ok(r, events.deep_view(), start, window_ms),
{
    let ghost evs = events.deep_view();
    let end = start + window_ms;
    let before_start = saturating_sub_i64(start, window_ms);
    let n = events.len();
    let mut after: usize = 0;
    let mut before: usize = 0;
    let mut crashes: usize = 0;
    let mut timeouts: usize = 0;
    let mut watchdogs: usize = 0;
    let mut first: i64 = i64::MAX;
    let mut names: Vec<String> = Vec::new();
    let mut i: usize = 0;
    while i < n
        invariant
            evs == events.deep_view(),
            n == evs.len(),
            i <= n,
            end == start + window_ms,
            before_start == sat_sub(start, window_ms),
            after == count_after(evs.take(i as int), start, window_ms),
            before == count_before(evs.take(i as int), start, window_ms),
            crashes == count_after_where(evs.take(i as int), start, window_ms, true, EventKind::ServiceCrash),
            timeouts == count_after_where(evs.take(i as int), start, window_ms, false, EventKind::Timeout),
            watchdogs == count_after_where(evs.take(i as int), start, window_ms, false, EventKind::Watchdog),
            first == first_crash(evs.take(i as int), start, window_ms),
            names.deep_view() == crash_names(evs.take(i as int), start, window_ms),
            after <= i,
            before <= i,
        decreases n - i,
    {
        let e = &events[i];
        let ts = e.timestamp();
        proof {
            assert(evs.take(i + 1).drop_last() =~= evs.take(i as int));
            assert(evs.take(i + 1).last() == e@);
            lemma_counts_bounded(evs.take(i as int), start, window_ms);
        }
        if ts >= before_start && ts < start {
            before = before + 1;
        }
        if ts >= start && ts <= end {
            after = after + 1;
            let ghost old_names = names.deep_view();
            match e {
                SystemEvent::ServiceCrash { process, .. } => {
                    crashes = crashes + 1;
                    names.push(process.clone());
                    assert(names.deep_view() =~= old_names.push(crash_name(e@)));
                    if ts < first {
                        first = ts;
                    }
                },
                SystemEvent::SystemCrash { .. } => {
                    crashes = crashes + 1;
                    let sys = chars_of("SYSTEM");
                    names.push(string_of(&sys));
                    assert(names.deep_view() =~= old_names.push(crash_name(e@)));
                    if ts < first {
                        first = ts;
                    }
                },
                SystemEvent::Timeout { .. } => {
                    timeouts = timeouts + 1;
                },
                SystemEvent::Watchdog { .. } => {
                    watchdogs = watchdogs + 1;
                },
                _ => {},
            }
        }
        i = i + 1;
    }
    proof {
        assert(evs.take(n as int) =~= evs);
        lemma_counts_bounded(evs, start, window_ms);
    }
    let time_delta = if crashes > 0 {
        first - start
    } else {
        window_ms
    };
    // The last three crashed services, latest first.
    let mut services: Vec<String> = Vec::new();
    let total = names.len();
    let mut k: usize = 0;
    let ghost cn = names.deep_view();
    while k < total && k < 3
        invariant
            total == names.len(),
            cn == names.deep_view(),
            k <= total,
            k <= 3,
            services@.len() == k,
            services.deep_view() =~= cn.reverse().take(k as int),
        decreases total - k,
    {
        let ghost prev = services.deep_view();
        let c = names[total - 1 - k].clone();
        assert(c@ == cn[total - 1 - k]);
        services.push(c);
        assert(cn.reverse()[k as int] == cn[total - 1 - k]);
        assert(services@[k as int]@ == cn[total - 1 - k]);
        assert(services.deep_view()[k as int] == cn[total - 1 - k]);
        assert(services.deep_view() =~= cn.reverse().take(k + 1));
        k = k + 1;
    }
    proof {
        if total <= 3 {
            assert(cn.reverse().take(total as int) =~= cn.reverse());
        }
    }
    WindowImpact {
        after_count: after,
        before_count: before,
        crash_count: crashes,
        timeout_count: timeouts,
        watchdog_count: watchdogs,
        crashed_services: services,
        first_crash_ts: first,
        time_delta_ms: time_delta,
        severity: severity_text(crashes, timeouts),
    }
}

/// The frame direction reads as transmitted: its upper-cased text contains `TX`.
pub fn is_tx_direction(direction: &str) -> (b: bool)
    ensures
        b == seq_contains(upper_text(direction@), "TX"@),
{
    let up = to_uppercase(direction);
    contains_lit(&up, "TX")
}

/// Timestamps of the events, in event order.
pub open spec fn event_times(evs: Seq<SystemEventView>) -> Seq<i64> {
    Seq::new(evs.len(), |i: int| evs[i].timestamp)
}

/// How many of `ts` lie in `[lo, hi]`.
pub open spec fn count_in(ts: Seq<i64>, lo: int, hi: int) -> nat
    decreases ts.len(),
{
    if ts.len() == 0 {
        0
    } else {
        count_in(ts.drop_last(), lo, hi) + if lo <= ts.last() && ts.last() <= hi {
            1nat
        } else {
            0nat
        }
    }
}

pub open spec fn sorted_i64(s: Seq<i64>) -> bool {
    forall|i: int, j: int| 0 <= i <= j < s.len() ==> s[i] <= s[j]
}

/// `s` holds the values of `t` rearranged: `s[a] == t[ord[a]]` for an
/// arrangement `ord` of the indices of `t`.
pub open spec fn is_arrangement(s: Seq<i64>, t: Seq<i64>) -> bool {
    exists|ord: Seq<usize>|
        #[trigger] is_permutation(ord, t.len()) && s.len() == ord.len() && forall|a: int|
            0 <= a < s.len() ==> s[a] == t[ord[a] as int]
}

/// Event-rate windows: for each event, in ascending timestamp order, how many
/// events fall within `window_ms` after it (itself included).
#[derive(Debug)]
pub struct RateWindows {
    /// The event timestamps, ascending.
    pub starts: Vec<i64>,
    /// `counts[i]` is the number of events in `[starts[i], starts[i] + window_ms]`.
    pub counts: Vec<usize>,
}

/// The integer part of the event-rate baseline: the sorted event timestamps
/// and, for each, the number of events in the window that starts there.
pub fn event_window_counts(events: &[SystemEvent], window_ms: i64) -> (r: RateWindows)
    requires
        forall|i: int|
            0 <= i < events@.len() ==> i64::MIN <= #[trigger] events@[i]@.timestamp + window_ms
                <= i64::MAX,
    ensures
        is_arrangement(r.starts@, event_times(events.deep_view())),
        sorted_i64(r.starts@),
        r.counts@.len() == r.starts@.len(),
        forall|i: int|
            0 <= i < r.counts@.len() ==> #[trigger] r.counts@[i] as int == count_in(
                event_times(events.deep_view()),
                r.starts@[i] as int,
                r.starts@[i] + window_ms,
            ),
{
    let ghost evs = events.deep_view();
    let ghost times = event_times(evs);
    let n = events.len();
    let mut times_v: Vec<i64> = Vec::new();
    let mut i: usize = 0;
    while i < n
        invariant
            evs == events.deep_view(),
            times == event_times(evs),
            n == evs.len(),
            i <= n,
            times_v@ =~= times.take(i as int),
        decreases n - i,
    {
        times_v.push(events[i].timestamp());
        i = i + 1;
    }
    assert(times.take(n as int) =~= times);
    let ord = stable_order_asc(&times_v);
    let mut starts: Vec<i64> = Vec::new();
    let mut a: usize = 0;
    while a < n
        invariant
            n == times.len(),
            times_v@ == times,
            is_permutation(ord@, n as nat),
            stable_asc(times, ord@),
            a <= n,
            starts@.len() == a,
            forall|t: int| 0 <= t < a ==> #[trigger] starts@[t] == times[ord@[t] as int],
        decreases n - a,
    {
        starts.push(times_v[ord[a]]);
        a = a + 1;
    }
    assert(is_arrangement(starts@, times));
    assert(sorted_i64(starts@)) by {
        assert forall|x: int, y: int| 0 <= x <= y < starts@.len() implies starts@[x] <= starts@[y] by {
            if x < y {
                assert(stable_asc(times, ord@));
            }
        }
    }
    let mut counts: Vec<usize> = Vec::new();
    let m = starts.len();
    let mut k: usize = 0;
    while k < m
        invariant
            evs == events.deep_view(),
            times == event_times(evs),
            n == evs.len(),
            m == starts@.len(),
            is_arrangement(starts@, times),
            forall|i: int|
                0 <= i < events@.len() ==> i64::MIN <= #[trigger] events@[i]@.timestamp + window_ms
                    <= i64::MAX,
            k <= m,
            counts@.len() == k,
            forall|t: int|
                0 <= t < k ==> #[trigger] counts@[t] as int == count_in(
                    times,
                    starts@[t] as int,
                    starts@[t] + window_ms,
                ),
        decreases m - k,
    {
        let start = starts[k];
        proof {
            let ord = choose|ord: Seq<usize>|
                #[trigger] is_permutation(ord, times.len()) && starts@.len() == ord.len() && forall|a: int|
                    0 <= a < starts@.len() ==> starts@[a] == times[ord[a] as int];
            let j = ord[k as int] as int;
            assert(starts@[k as int] == times[j]);
            assert(events@[j]@.timestamp == start);
        }
        let end = start + window_ms;
        let mut c: usize = 0;
        let mut j: usize = 0;
        while j < n
            invariant
                evs == events.deep_view(),
                times == event_times(evs),
                n == evs.len(),
                j <= n,
                c <= j,
                end == start + window_ms,
                c == count_in(times.take(j as int), start as int, end as int),
            decreases n - j,
        {
            let ts = events[j].timestamp();
            proof {
                assert(times.take(j + 1).drop_last() =~= times.take(j as int));
                assert(times.take(j + 1).last() == ts);
            }
            if ts >= start && ts <= end {
                c = c + 1;
            }
            j = j + 1;
        }
        assert(times.take(n as int) =~= times);
        counts.push(c);
        k = k + 1;
    }
    RateWindows { starts, counts }
}

} // verus!
