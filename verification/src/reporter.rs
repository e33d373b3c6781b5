//! Report-side analysis: recurring failure patterns, repeated errors, and
//! the issue table of the HTML report.

use vstd::prelude::*;
use crate::models::{
    domain_text, event_type_text, severity_text, CanFrame, CanFrameView, Domain, DomainMetrics,
    EventKind, RepetitiveError, SystemEvent, SystemEventView,
};
use crate::rules::sat_sub;
use crate::metrics::MetricsReport;
use crate::order::{names_ascending, stable_name_order};
use crate::text::{dec_digits, int_text, push_decimal, push_int};
use crate::text::{chars_of, push_str, same_chars, string_of};
use vstd::utf8::{decode_utf8, encode_utf8, is_char_boundary};
use vstd::string::StringSliceAdditionalSpecFns;

verus! {

/// `ord` lists each index below `n` exactly once.
pub open spec fn is_permutation(ord: Seq<usize>, n: nat) -> bool {
    &&& ord.len() == n
    &&& forall|a: int| 0 <= a < ord.len() ==> #[trigger] ord[a] < n
    &&& forall|a: int, b: int| 0 <= a < b < ord.len() ==> ord[a] != ord[b]
}

/// `ord` visits keys from largest to smallest, equal keys in index order.
pub open spec fn stable_desc(keys: Seq<usize>, ord: Seq<usize>) -> bool {
    forall|a: int, b: int|
        0 <= a < b < ord.len() ==> keys[ord[a] as int] > keys[ord[b] as int] || (keys[ord[a] as int]
            == keys[ord[b] as int] && ord[a] < ord[b])
}

pub open spec fn count_false(s: Seq<bool>) -> nat
    decreases s.len(),
{
    if s.len() == 0 {
        0
    } else {
        count_false(s.drop_last()) + if s.last() {
            0nat
        } else {
            1nat
        }
    }
}

pub(crate) proof fn lemma_count_false_update(s: Seq<bool>, i: int)
    requires
        0 <= i < s.len(),
        !s[i],
    ensures
        count_false(s.update(i, true)) + 1 == count_false(s),
    decreases s.len(),
{
    if i < s.len() - 1 {
        lemma_count_false_update(s.drop_last(), i);
        assert(s.update(i, true).drop_last() =~= s.drop_last().update(i, true));
    } else {
        assert(s.update(i, true).drop_last() =~= s.drop_last());
    }
}

proof fn lemma_count_false_zero(s: Seq<bool>, i: int)
    requires
        0 <= i < s.len(),
        count_false(s) == 0,
    ensures
        s[i],
    decreases s.len(),
{
    if i < s.len() - 1 {
        lemma_count_false_zero(s.drop_last(), i);
    }
}

/// The stable order of indices by descending key: the order a stable sort
/// by descending key would put the entries in.
pub fn stable_order_desc(keys: &Vec<usize>) -> (ord: Vec<usize>)
    ensures
        is_permutation(ord@, keys@.len()),
        stable_desc(keys@, ord@),
{
    let m = keys.len();
    let mut picked: Vec<bool> = Vec::new();
    let mut z: usize = 0;
    while z < m
        invariant
            z <= m,
            picked@.len() == z,
            count_false(picked@) == z,
            forall|k: int| 0 <= k < z ==> !#[trigger] picked@[k],
        decreases m - z,
    {
        let ghost before = picked@;
        picked.push(false);
        assert(picked@.drop_last() =~= before);
        z = z + 1;
    }
    let mut ord: Vec<usize> = Vec::new();
    loop
        invariant
            m == keys@.len(),
            picked@.len() == m,
            ord@.len() + count_false(picked@) == m,
            forall|a: int| 0 <= a < ord@.len() ==> #[trigger] ord@[a] < m,
            forall|a: int, b: int| 0 <= a < b < ord@.len() ==> ord@[a] != ord@[b],
            forall|a: int| 0 <= a < ord@.len() ==> picked@[#[trigger] ord@[a] as int],
            forall|k: int| 0 <= k < m && picked@[k] ==> exists|a: int| 0 <= a < ord@.len() && #[trigger] ord@[a] == k,
            stable_desc(keys@, ord@),
            forall|a: int, k: int|
                0 <= a < ord@.len() && 0 <= k < m && !#[trigger] picked@[k] ==> keys@[#[trigger] ord@[a] as int]
                    > keys@[k] || (keys@[ord@[a] as int] == keys@[k] && ord@[a] < k),
        decreases count_false(picked@),
    {
        // the first unpicked index with the largest key
        let mut best: usize = m;
        let mut k: usize = 0;
        while k < m
            invariant
                m == keys@.len(),
                picked@.len() == m,
                k <= m,
                best == m || (best < k && !picked@[best as int]),
                best == m ==> forall|t: int| 0 <= t < k ==> picked@[t],
                best < m ==> forall|t: int|
                    0 <= t < k && !picked@[t] ==> keys@[best as int] > keys@[t] || (keys@[best as int]
                        == keys@[t] && best <= t),
            decreases m - k,
        {
            if !picked[k] {
                if best == m || keys[k] > keys[best] {
                    best = k;
                }
            }
            k = k + 1;
        }
        if best == m {
            proof {
                lemma_count_false_all_true(picked@);
            }
            return ord;
        }
        let ghost old_ord = ord@;
        let ghost old_picked = picked@;
        proof {
            lemma_count_false_update(picked@, best as int);
        }
        picked.set(best, true);
        ord.push(best);
        proof {
            assert forall|k2: int| 0 <= k2 < m && picked@[k2] implies exists|a: int| 0 <= a < ord@.len() && #[trigger] ord@[a] == k2 by {
                if k2 == best {
                    assert(ord@[old_ord.len() as int] == best);
                } else {
                    assert(old_picked[k2]);
                    let a = choose|a: int| 0 <= a < old_ord.len() && #[trigger] old_ord[a] == k2;
                    assert(ord@[a] == k2);
                }
            }
        }
    }
}

pub(crate) proof fn lemma_count_false_all_true(s: Seq<bool>)
    requires
        forall|k: int| 0 <= k < s.len() ==> s[k],
    ensures
        count_false(s) == 0,
    decreases s.len(),
{
    if s.len() > 0 {
        lemma_count_false_all_true(s.drop_last());
    }
}

/// The label an event has in a failure sequence, if it takes part in one.
pub open spec fn sequence_label(k: EventKind) -> Option<Seq<char>> {
    match k {
        EventKind::ServiceCrash => Some("Crash"@),
        EventKind::Timeout => Some("Timeout"@),
        EventKind::Reset => Some("Reset"@),
        EventKind::Watchdog => Some("Watchdog"@),
        _ => None,
    }
}

/// The pattern `A → B` of two consecutive events, when both take part.
pub open spec fn pair_pattern(a: SystemEventView, b: SystemEventView) -> Option<Seq<char>> {
    match (sequence_label(a.kind), sequence_label(b.kind)) {
        (Some(x), Some(y)) => Some(x + " → "@ + y),
        _ => None,
    }
}

/// The patterns of all consecutive pairs of events, in order.
pub open spec fn pair_patterns(evs: Seq<SystemEventView>) -> Seq<Seq<char>>
    decreases evs.len(),
{
    if evs.len() < 2 {
        Seq::empty()
    } else {
        let rest = pair_patterns(evs.drop_last());
        match pair_pattern(evs[evs.len() - 2], evs.last()) {
            Some(p) => rest.push(p),
            None => rest,
        }
    }
}

/// How often `p` occurs in `ps`.
pub open spec fn occurrences<T>(ps: Seq<T>, p: T) -> nat
    decreases ps.len(),
{
    if ps.len() == 0 {
        0
    } else {
        occurrences(ps.drop_last(), p) + if ps.last() == p {
            1nat
        } else {
            0nat
        }
    }
}

/// The distinct elements of `ps`, in order of first appearance.
pub open spec fn first_seen<T>(ps: Seq<T>) -> Seq<T>
    decreases ps.len(),
{
    if ps.len() == 0 {
        Seq::empty()
    } else {
        let r = first_seen(ps.drop_last());
        if r.contains(ps.last()) {
            r
        } else {
            r.push(ps.last())
        }
    }
}

/// Each distinct pattern with its number of occurrences, in order of first
/// appearance.
pub open spec fn pattern_tally(evs: Seq<SystemEventView>) -> Seq<(Seq<char>, nat)> {
    let ps = pair_patterns(evs);
    first_seen(ps).map_values(|p: Seq<char>| (p, occurrences(ps, p)))
}

proof fn lemma_first_seen<T>(ps: Seq<T>)
    ensures
        forall|q: T| #[trigger] first_seen(ps).contains(q) <==> ps.contains(q),
        forall|a: int, b: int|
            0 <= a < b < first_seen(ps).len() ==> first_seen(ps)[a] != first_seen(ps)[b],
    decreases ps.len(),
{
    if ps.len() > 0 {
        let d = ps.drop_last();
        let x = ps.last();
        lemma_first_seen(d);
        let r = first_seen(d);
        assert forall|q: T| ps.contains(q) <==> (d.contains(q) || q == x) by {
            if ps.contains(q) && q != x {
                let i = choose|i: int| 0 <= i < ps.len() && ps[i] == q;
                assert(i != ps.len() - 1);
                assert(d[i] == q);
            }
            if d.contains(q) {
                let i = choose|i: int| 0 <= i < d.len() && d[i] == q;
                assert(ps[i] == q);
            }
            if q == x {
                assert(ps[ps.len() - 1] == q);
            }
        }
        if !r.contains(x) {
            assert forall|q: T| r.push(x).contains(q) <==> (r.contains(q) || q == x) by {
                if r.push(x).contains(q) && q != x {
                    let i = choose|i: int| 0 <= i < r.push(x).len() && r.push(x)[i] == q;
                    assert(i != r.len());
                    assert(r[i] == q);
                }
                if r.contains(q) {
                    let i = choose|i: int| 0 <= i < r.len() && r[i] == q;
                    assert(r.push(x)[i] == q);
                }
                if q == x {
                    assert(r.push(x)[r.len() as int] == q);
                }
            }
            assert forall|a: int, b: int|
                0 <= a < b < r.push(x).len() implies r.push(x)[a] != r.push(x)[b] by {
                if b == r.len() {
                    assert(r.push(x)[a] == r[a]);
                    assert(r.contains(r[a]));
                }
            }
        }
        assert forall|q: T| #[trigger] first_seen(ps).contains(q) <==> ps.contains(q) by {
            assert(r.contains(q) <==> d.contains(q));
            assert(r.contains(x) <==> d.contains(x));
        }
    }
}

fn label_of(e: &SystemEvent) -> (r: Option<&'static str>)
    ensures
        match r {
            Some(s) => sequence_label(e@.kind) == Some(s@),
            None => sequence_label(e@.kind) is None,
        },
{
    match e {
        SystemEvent::ServiceCrash { .. } => Some("Crash"),
        SystemEvent::Timeout { .. } => Some("Timeout"),
        SystemEvent::Reset { .. } => Some("Reset"),
        SystemEvent::Watchdog { .. } => Some("Watchdog"),
        _ => None,
    }
}

/// Detect failure-sequence patterns (crash → timeout → reset and the like):
/// each pattern of two consecutive events among crashes, timeouts, resets and
/// watchdog triggers, with how often it occurs, most frequent first.
pub fn detect_failure_sequences(events: &[SystemEvent]) -> (r: Vec<(String, usize)>)
    ensures
        ({
            let tally = pattern_tally(events.deep_view());
            &&& r@.len() == tally.len()
            &&& exists|ord: Seq<usize>|
                is_permutation(ord, tally.len()) && forall|t: int|
                    0 <= t < r@.len() ==> (#[trigger] r@[t]).0@ == tally[ord[t] as int].0 && r@[t].1
                        == tally[ord[t] as int].1
            &&& forall|a: int, b: int| 0 <= a < b < r@.len() ==> r@[a].1 >= r@[b].1
        }),
{
    let ghost evs = events.deep_view();
    let n = events.len();
    if n < 2 {
        let r: Vec<(String, usize)> = Vec::new();
        proof {
            assert(pair_patterns(evs) == Seq::<Seq<char>>::empty());
            assert(first_seen(Seq::<Seq<char>>::empty()) == Seq::<Seq<char>>::empty());
            let tally = pattern_tally(evs);
            assert(tally =~= Seq::<(Seq<char>, nat)>::empty());
            assert(is_permutation(Seq::<usize>::empty(), tally.len()));
        }
        return r;
    }
    let mut pats: Vec<Vec<char>> = Vec::new();
    let mut counts: Vec<usize> = Vec::new();
    let ghost mut ps: Seq<Seq<char>> = Seq::empty();
    let mut i: usize = 0;
    while i + 1 < n
        invariant
            evs == events.deep_view(),
            n == evs.len(),
            n >= 2,
            i < n,
            ps == pair_patterns(evs.take(i + 1)),
            ps.len() <= i,
            pats.deep_view() == first_seen(ps),
            counts@.len() == pats@.len(),
            forall|k: int| 0 <= k < counts@.len() ==> #[trigger] counts@[k] == occurrences(ps, pats@[k]@),
        decreases n - i,
    {
        proof {
            assert(evs.take(i + 2).drop_last() =~= evs.take(i + 1));
            assert(evs.take(i + 2)[i as int] == evs[i as int]);
            assert(evs.take(i + 2).last() == evs[i + 1]);
        }
        let a = label_of(&events[i]);
        let b = label_of(&events[i + 1]);
        match (a, b) {
            (Some(x), Some(y)) => {
                let mut p = chars_of(x);
                push_str(&mut p, " → ");
                push_str(&mut p, y);
                let ghost new_ps = ps.push(p@);
                assert(new_ps == pair_patterns(evs.take(i + 2)));
                proof {
                    lemma_first_seen(ps);
                }
                let m = pats.len();
                let mut k: usize = 0;
                let mut found = false;
                while k < m && !found
                    invariant
                        m == pats@.len(),
                        k <= m,
                        counts@.len() == m,
                        !found ==> forall|t: int| 0 <= t < k ==> pats@[t]@ != p@,
                        found ==> k > 0 && pats@[k - 1]@ == p@,
                    decreases m - k + (if found { 0int } else { 1int }),
                {
                    if same_chars(&pats[k], &p) {
                        found = true;
                    }
                    k = k + 1;
                }
                let ghost old_counts = counts@;
                let ghost old_pats = pats.deep_view();
                if found {
                    let c = counts[k - 1];
                    proof {
                        assert(c == occurrences(ps, p@));
                        assert(occurrences(ps, p@) <= ps.len()) by {
                            lemma_occurrences_bound(ps, p@);
                        }
                    }
                    counts.set(k - 1, c + 1);
                    proof {
                        assert(old_pats[k - 1] == p@);
                        assert(first_seen(ps).contains(p@));
                        assert(ps.contains(p@));
                        assert(new_ps.drop_last() =~= ps);
                        assert(new_ps.last() == p@);
                        assert(first_seen(new_ps) == first_seen(ps));
                        assert forall|t: int| 0 <= t < counts@.len() implies #[trigger] counts@[t] == occurrences(new_ps, pats@[t]@) by {
                            assert(new_ps.drop_last() =~= ps);
                            if t != k - 1 {
                                assert(pats@[t]@ == old_pats[t]);
                                assert(old_pats[t] != old_pats[k - 1]);
                            }
                        }
                    }
                } else {
                    proof {
                        assert forall|t: int| 0 <= t < old_pats.len() implies old_pats[t] != p@ by {
                            assert(pats@[t]@ == old_pats[t]);
                        }
                        assert(!first_seen(ps).contains(p@));
                        assert(!ps.contains(p@));
                        lemma_occurrences_absent(ps, p@);
                    }
                    let ghost pv = p@;
                    pats.push(p);
                    counts.push(1);
                    proof {
                        assert(new_ps.drop_last() =~= ps);
                        assert(new_ps.last() == pv);
                        assert(first_seen(new_ps) == first_seen(ps).push(pv));
                        assert(pats@[m as int].deep_view() =~= pv);
                        assert(pats.deep_view() =~= old_pats.push(pv));
                        assert forall|t: int| 0 <= t < counts@.len() implies #[trigger] counts@[t] == occurrences(new_ps, pats@[t]@) by {
                            if t < m {
                                assert(pats@[t]@ == old_pats[t]);
                                assert(old_pats[t] != pv);
                            }
                        }
                    }
                }
                proof {
                    ps = new_ps;
                }
            },
            _ => {
                assert(ps == pair_patterns(evs.take(i + 2)));
            },
        }
        i = i + 1;
    }
    proof {
        assert(evs.take(i + 1) =~= evs);
    }
    let ord = stable_order_desc(&counts);
    let mut r: Vec<(String, usize)> = Vec::new();
    let ghost tally = pattern_tally(evs);
    let m = ord.len();
    let mut t: usize = 0;
    while t < m
        invariant
            m == ord@.len(),
            m == counts@.len(),
            m == pats@.len(),
            is_permutation(ord@, counts@.len()),
            stable_desc(counts@, ord@),
            tally == pattern_tally(evs),
            ps == pair_patterns(evs),
            pats.deep_view() == first_seen(ps),
            forall|k: int| 0 <= k < counts@.len() ==> #[trigger] counts@[k] == occurrences(ps, pats@[k]@),
            t <= m,
            r@.len() == t,
            forall|a: int|
                0 <= a < t ==> (#[trigger] r@[a]).0@ == tally[ord@[a] as int].0 && r@[a].1
                    == tally[ord@[a] as int].1 && r@[a].1 == counts@[ord@[a] as int],
        decreases m - t,
    {
        let k = ord[t];
        let name = string_of(&pats[k]);
        let ghost pk = pats@[k as int]@;
        r.push((name, counts[k]));
        proof {
            assert(pats.deep_view()[k as int] == pk);
            assert(tally[k as int] == (pk, occurrences(ps, pk)));
        }
        t = t + 1;
    }
    proof {
        assert forall|a: int, b: int| 0 <= a < b < r@.len() implies r@[a].1 >= r@[b].1 by {
            assert(counts@[ord@[a] as int] >= counts@[ord@[b] as int]);
        }
        assert(tally.len() == m);
        assert(is_permutation(ord@, tally.len()));
    }
    r
}

proof fn lemma_occurrences_bound(ps: Seq<Seq<char>>, p: Seq<char>)
    ensures
        occurrences(ps, p) <= ps.len(),
    decreases ps.len(),
{
    if ps.len() > 0 {
        lemma_occurrences_bound(ps.drop_last(), p);
    }
}

proof fn lemma_occurrences_absent(ps: Seq<Seq<char>>, p: Seq<char>)
    requires
        !ps.contains(p),
    ensures
        occurrences(ps, p) == 0,
    decreases ps.len(),
{
    if ps.len() > 0 {
        assert(!ps.drop_last().contains(p)) by {
            if ps.drop_last().contains(p) {
                let i = choose|i: int| 0 <= i < ps.drop_last().len() && ps.drop_last()[i] == p;
                assert(ps[i] == p);
            }
        }
        assert(ps.last() != p) by {
            assert(ps[ps.len() - 1] == ps.last());
        }
        lemma_occurrences_absent(ps.drop_last(), p);
    }
}

/// What makes two errors the same: kind, domain and the service or reason.
pub struct ErrorKey {
    pub kind: EventKind,
    pub domain: Domain,
    pub name: Seq<char>,
}

/// Crashes, timeouts and resets are tracked for repetition; by service for
/// crashes and timeouts, by reason for resets.
pub open spec fn error_key(e: SystemEventView) -> Option<ErrorKey> {
    if e.kind == EventKind::ServiceCrash || e.kind == EventKind::Timeout || e.kind
        == EventKind::Reset {
        Some(ErrorKey { kind: e.kind, domain: e.domain, name: e.detail })
    } else {
        None
    }
}

/// The keys of the tracked events, in event order.
pub open spec fn event_keys(evs: Seq<SystemEventView>) -> Seq<ErrorKey>
    decreases evs.len(),
{
    if evs.len() == 0 {
        Seq::empty()
    } else {
        let rest = event_keys(evs.drop_last());
        match error_key(evs.last()) {
            Some(k) => rest.push(k),
            None => rest,
        }
    }
}

/// Timestamps of the events with key `k`, in event order.
pub open spec fn key_times(evs: Seq<SystemEventView>, k: ErrorKey) -> Seq<i64>
    decreases evs.len(),
{
    if evs.len() == 0 {
        Seq::empty()
    } else {
        let rest = key_times(evs.drop_last(), k);
        if error_key(evs.last()) == Some(k) {
            rest.push(evs.last().timestamp)
        } else {
            rest
        }
    }
}

pub open spec fn error_type_text(k: EventKind) -> Seq<char> {
    if k == EventKind::ServiceCrash {
        "Crash"@
    } else if k == EventKind::Timeout {
        "Timeout"@
    } else {
        "Reset"@
    }
}

/// The text before the first `/` (all of it when there is none).
pub open spec fn before_slash(s: Seq<char>) -> Seq<char>
    decreases s.len(),
{
    if s.len() == 0 {
        s
    } else if s[0] == '/' {
        Seq::empty()
    } else {
        seq![s[0]] + before_slash(s.drop_first())
    }
}

/// Integer division rounding toward zero, as Rust's `/` on `i64`.
pub open spec fn trunc_div(a: int, b: int) -> int {
    if a >= 0 {
        a / b
    } else {
        -((-a) / b)
    }
}

pub struct RepetitiveErrorView {
    pub error_type: Seq<char>,
    pub service_or_reason: Seq<char>,
    pub domain: Domain,
    pub occurrence_count: usize,
    pub occurrences_at_ms: Seq<i64>,
    pub time_between_failures_avg_ms: i64,
}

impl View for RepetitiveError {
    type V = RepetitiveErrorView;

    open spec fn view(&self) -> RepetitiveErrorView {
        RepetitiveErrorView {
            error_type: self.error_type@,
            service_or_reason: self.service_or_reason@,
            domain: self.domain,
            occurrence_count: self.occurrence_count,
            occurrences_at_ms: self.occurrences_at_ms@,
            time_between_failures_avg_ms: self.time_between_failures_avg_ms,
        }
    }
}

/// The report of a recurring error: its type, service (or reason) up to the
/// first `/`, domain, occurrences, and the mean gap between consecutive
/// occurrences (total span over the number of gaps, rounded toward zero).
pub open spec fn group_error(evs: Seq<SystemEventView>, k: ErrorKey) -> RepetitiveErrorView {
    let t = key_times(evs, k);
    RepetitiveErrorView {
        error_type: error_type_text(k.kind),
        service_or_reason: before_slash(k.name),
        domain: k.domain,
        occurrence_count: t.len() as usize,
        occurrences_at_ms: t,
        time_between_failures_avg_ms: trunc_div(t.last() - t[0], t.len() - 1) as i64,
    }
}

/// The keys that occur at least twice, in order of first appearance.
pub open spec fn repeated_keys(evs: Seq<SystemEventView>) -> Seq<ErrorKey> {
    keep_repeated(first_seen(event_keys(evs)), evs)
}

/// The keys of `ks` that occur at least twice in `evs`, in order.
pub open spec fn keep_repeated(ks: Seq<ErrorKey>, evs: Seq<SystemEventView>) -> Seq<ErrorKey>
    decreases ks.len(),
{
    if ks.len() == 0 {
        Seq::empty()
    } else {
        let rest = keep_repeated(ks.drop_last(), evs);
        if key_times(evs, ks.last()).len() >= 2 {
            rest.push(ks.last())
        } else {
            rest
        }
    }
}

/// Gaps between consecutive occurrences, and their running sum, fit an `i64`.
pub open spec fn gaps_fit(t: Seq<i64>) -> bool {
    forall|j: int|
        1 <= j < t.len() ==> i64::MIN <= #[trigger] t[j] - t[j - 1] <= i64::MAX && i64::MIN <= t[j]
            - t[0] <= i64::MAX
}

proof fn lemma_key_times_step(evs: Seq<SystemEventView>, e: SystemEventView, k: ErrorKey)
    ensures
        key_times(evs.push(e), k) == (if error_key(e) == Some(k) {
            key_times(evs, k).push(e.timestamp)
        } else {
            key_times(evs, k)
        }),
        event_keys(evs.push(e)) == (match error_key(e) {
            Some(k2) => event_keys(evs).push(k2),
            None => event_keys(evs),
        }),
{
    assert(evs.push(e).drop_last() =~= evs);
}

proof fn lemma_key_times_absent(evs: Seq<SystemEventView>, k: ErrorKey)
    requires
        !event_keys(evs).contains(k),
    ensures
        key_times(evs, k) == Seq::<i64>::empty(),
    decreases evs.len(),
{
    if evs.len() > 0 {
        let d = evs.drop_last();
        assert(evs =~= d.push(evs.last()));
        lemma_key_times_step(d, evs.last(), k);
        if error_key(evs.last()) == Some(k) {
            assert(event_keys(evs).last() == k);
            assert(event_keys(evs)[event_keys(evs).len() - 1] == k);
        }
        assert(!event_keys(d).contains(k)) by {
            if event_keys(d).contains(k) {
                let i = choose|i: int| 0 <= i < event_keys(d).len() && event_keys(d)[i] == k;
                match error_key(evs.last()) {
                    Some(k2) => assert(event_keys(evs)[i] == k),
                    None => assert(event_keys(evs)[i] == k),
                }
            }
        }
        lemma_key_times_absent(d, k);
    }
}

fn same_key(k1: EventKind, d1: Domain, n1: &Vec<char>, k2: EventKind, d2: Domain, n2: &Vec<char>) -> (r: bool)
    ensures
        r == (ErrorKey { kind: k1, domain: d1, name: n1@ } == ErrorKey { kind: k2, domain: d2, name: n2@ }),
{
    k1 == k2 && d1 == d2 && same_chars(n1, n2)
}

fn key_of(e: &SystemEvent) -> (r: Option<(EventKind, Domain, Vec<char>)>)
    ensures
        match r {
            Some(t) => error_key(e@) == Some(ErrorKey { kind: t.0, domain: t.1, name: t.2@ }),
            None => error_key(e@) is None,
        },
{
    match e {
        SystemEvent::ServiceCrash { domain, process, .. } => Some(
            (EventKind::ServiceCrash, *domain, chars_of(process.as_str())),
        ),
        SystemEvent::Timeout { domain, service, .. } => Some(
            (EventKind::Timeout, *domain, chars_of(service.as_str())),
        ),
        SystemEvent::Reset { domain, reason, .. } => Some(
            (EventKind::Reset, *domain, chars_of(reason.as_str())),
        ),
        _ => None,
    }
}

fn prefix_before_slash(s: &Vec<char>) -> (r: Vec<char>)
    ensures
        r@ == before_slash(s@),
{
    let n = s.len();
    let mut k: usize = 0;
    while k < n && s[k] != '/'
        invariant
            n == s@.len(),
            k <= n,
            forall|t: int| 0 <= t < k ==> s@[t] != '/',
        decreases n - k,
    {
        k = k + 1;
    }
    let mut r: Vec<char> = Vec::new();
    let mut t: usize = 0;
    while t < k
        invariant
            k <= n,
            n == s@.len(),
            t <= k,
            r@ =~= s@.take(t as int),
        decreases k - t,
    {
        r.push(s[t]);
        t = t + 1;
    }
    proof {
        lemma_before_slash(s@, k as int);
    }
    r
}

proof fn lemma_before_slash(s: Seq<char>, k: int)
    requires
        0 <= k <= s.len(),
        forall|t: int| 0 <= t < k ==> s[t] != '/',
        k == s.len() || s[k] == '/',
    ensures
        before_slash(s) == s.take(k),
    decreases s.len(),
{
    if s.len() == 0 {
        assert(s.take(k) =~= s);
    } else if k == 0 {
        assert(s.take(0) =~= Seq::<char>::empty());
    } else {
        lemma_before_slash(s.drop_first(), k - 1);
        assert(seq![s[0]] + s.drop_first().take(k - 1) =~= s.take(k));
    }
}

fn mean_gap(times: &Vec<i64>) -> (r: i64)
    requires
        times@.len() >= 2,
        gaps_fit(times@),
    ensures
        r == trunc_div(times@.last() - times@[0], times@.len() - 1),
{
    let n = times.len();
    let first = times[0];
    let last = times[n - 1];
    assert(i64::MIN <= times@[n - 1] - times@[0] <= i64::MAX);
    let span = last - first;
    let gaps = (n - 1) as i128;
    let s = span as i128;
    let q: i128 = if s >= 0 {
        s / gaps
    } else {
        -((-s) / gaps)
    };
    assert(q == trunc_div(span as int, (n - 1) as int));
    assert(-0x8000_0000_0000_0000 <= q <= 0x7fff_ffff_ffff_ffff) by (nonlinear_arith)
        requires
            q == trunc_div(s as int, gaps as int),
            gaps >= 1,
            -0x8000_0000_0000_0000 <= s <= 0x7fff_ffff_ffff_ffff,
    ;
    q as i64
}

/// The events meet `find_repetitive_errors`' arithmetic: for every tracked
/// key, the gaps between consecutive occurrences and their running sums fit.
pub open spec fn repetition_fits(evs: Seq<SystemEventView>) -> bool {
    forall|i: int|
        0 <= i < evs.len() && (#[trigger] error_key(evs[i])) is Some ==> gaps_fit(
            key_times(evs, error_key(evs[i])->0),
        )
}

/// Find crashes, timeouts and resets that recur: one report per key seen at
/// least twice, most frequent first.
pub fn find_repetitive_errors(events: &[SystemEvent]) -> (r: Vec<RepetitiveError>)
    requires
        repetition_fits(events.deep_view()),
    ensures
        ({
            let keys = repeated_keys(events.deep_view());
            &&& r@.len() == keys.len()
            &&& exists|ord: Seq<usize>|
                is_permutation(ord, keys.len()) && forall|t: int|
                    0 <= t < r@.len() ==> (#[trigger] r@[t])@ == group_error(
                        events.deep_view(),
                        keys[ord[t] as int],
                    )
            &&& forall|a: int, b: int|
                0 <= a < b < r@.len() ==> r@[a].occurrence_count >= r@[b].occurrence_count
        }),
{
    let ghost evs = events.deep_view();
    let n = events.len();
    let mut kinds: Vec<EventKind> = Vec::new();
    let mut domains: Vec<Domain> = Vec::new();
    let mut names: Vec<Vec<char>> = Vec::new();
    let mut times: Vec<Vec<i64>> = Vec::new();
    let mut i: usize = 0;
    while i < n
        invariant
            evs == events.deep_view(),
            n == evs.len(),
            i <= n,
            kinds@.len() == domains@.len(),
            kinds@.len() == names@.len(),
            kinds@.len() == times@.len(),
            group_keys(kinds@, domains@, names@) == first_seen(event_keys(evs.take(i as int))),
            forall|g: int|
                0 <= g < times@.len() ==> #[trigger] times@[g]@ == key_times(
                    evs.take(i as int),
                    group_keys(kinds@, domains@, names@)[g],
                ),
        decreases n - i,
    {
        let e = &events[i];
        let ts = e.timestamp();
        let ghost pre = evs.take(i as int);
        let ghost gk = group_keys(kinds@, domains@, names@);
        proof {
            assert(evs.take(i + 1) =~= pre.push(e@));
            lemma_first_seen(event_keys(pre));
        }
        match key_of(e) {
            Some((k, d, nm)) => {
                let ghost key = ErrorKey { kind: k, domain: d, name: nm@ };
                proof {
                    lemma_key_times_step(pre, e@, key);
                    assert forall|g: int| 0 <= g < gk.len() && gk[g] != key implies key_times(
                        evs.take(i + 1),
                        gk[g],
                    ) == key_times(pre, gk[g]) by {
                        lemma_key_times_step(pre, e@, gk[g]);
                    }
                }
                let m = kinds.len();
                let mut g: usize = 0;
                let mut found = false;
                while g < m && !found
                    invariant
                        m == kinds@.len(),
                        m == domains@.len(),
                        m == names@.len(),
                        gk == group_keys(kinds@, domains@, names@),
                        key == (ErrorKey { kind: k, domain: d, name: nm@ }),
                        g <= m,
                        !found ==> forall|t: int| 0 <= t < g ==> gk[t] != key,
                        found ==> g > 0 && gk[g - 1] == key,
                    decreases m - g + (if found { 0int } else { 1int }),
                {
                    if same_key(kinds[g], domains[g], &names[g], k, d, &nm) {
                        found = true;
                    }
                    g = g + 1;
                }
                let ghost old_times = times@;
                if found {
                    let at = g - 1;
                    let mut t = times.remove(at);
                    t.push(ts);
                    times.insert(at, t);
                    proof {
                        assert(first_seen(event_keys(pre)).contains(key));
                        assert(event_keys(evs.take(i + 1)) == event_keys(pre).push(key));
                        assert(event_keys(pre).push(key).drop_last() =~= event_keys(pre));
                        assert(first_seen(event_keys(evs.take(i + 1))) == first_seen(event_keys(pre)));
                        assert forall|g2: int| 0 <= g2 < times@.len() implies #[trigger] times@[g2]@ == key_times(
                            evs.take(i + 1),
                            group_keys(kinds@, domains@, names@)[g2],
                        ) by {
                            if g2 != at {
                                assert(times@[g2] == old_times[g2]);
                                lemma_first_seen(event_keys(pre));
                                assert(gk[g2] != gk[at as int]);
                            }
                        }
                    }
                } else {
                    proof {
                        assert(!first_seen(event_keys(pre)).contains(key)) by {
                            if first_seen(event_keys(pre)).contains(key) {
                                let t = choose|t: int| 0 <= t < gk.len() && gk[t] == key;
                            }
                        }
                        assert(!event_keys(pre).contains(key));
                        lemma_key_times_absent(pre, key);
                        assert(event_keys(pre).push(key).drop_last() =~= event_keys(pre));
                    }
                    let mut t: Vec<i64> = Vec::new();
                    t.push(ts);
                    kinds.push(k);
                    domains.push(d);
                    names.push(nm);
                    times.push(t);
                    proof {
                        assert(group_keys(kinds@, domains@, names@) =~= gk.push(key));
                        assert forall|g2: int| 0 <= g2 < times@.len() implies #[trigger] times@[g2]@ == key_times(
                            evs.take(i + 1),
                            group_keys(kinds@, domains@, names@)[g2],
                        ) by {
                            if g2 < m {
                                assert(times@[g2] == old_times[g2]);
                                assert(gk[g2] != key);
                            } else {
                                assert(times@[g2]@ =~= seq![ts]);
                                assert(key_times(evs.take(i + 1), key) =~= Seq::<i64>::empty().push(ts));
                            }
                        }
                    }
                }
            },
            None => {
                proof {
                    assert forall|g: int| 0 <= g < gk.len() implies key_times(evs.take(i + 1), gk[g])
                        == key_times(pre, gk[g]) by {
                        lemma_key_times_step(pre, e@, gk[g]);
                    }
                    lemma_key_times_step(
                        pre,
                        e@,
                        ErrorKey { kind: EventKind::Watchdog, domain: Domain::Qnx, name: Seq::empty() },
                    );
                    assert(event_keys(evs.take(i + 1)) == event_keys(pre));
                }
            },
        }
        i = i + 1;
    }
    proof {
        assert(evs.take(n as int) =~= evs);
    }
    let ghost allk = first_seen(event_keys(evs));
    // groups seen at least twice, in order of first appearance
    let mut sel: Vec<usize> = Vec::new();
    let mut counts: Vec<usize> = Vec::new();
    let m = times.len();
    let mut g: usize = 0;
    while g < m
        invariant
            m == times@.len(),
            kinds@.len() == m,
            domains@.len() == m,
            names@.len() == m,
            group_keys(kinds@, domains@, names@) == allk,
            allk.len() == m,
            forall|t: int| 0 <= t < times@.len() ==> #[trigger] times@[t]@ == key_times(evs, allk[t]),
            g <= m,
            sel@.len() == counts@.len(),
            forall|a: int| 0 <= a < sel@.len() ==> #[trigger] sel@[a] < g,
            forall|a: int| 0 <= a < sel@.len() ==> counts@[a] == times@[sel@[a] as int]@.len(),
            forall|a: int| 0 <= a < sel@.len() ==> times@[#[trigger] sel@[a] as int]@.len() >= 2,
            Seq::new(sel@.len(), |a: int| allk[sel@[a] as int]) == keep_repeated(allk.take(g as int), evs),
        decreases m - g,
    {
        proof {
            assert(allk.take(g + 1).drop_last() =~= allk.take(g as int));
            assert(allk.take(g + 1).last() == allk[g as int]);
        }
        let ghost before = Seq::new(sel@.len(), |a: int| allk[sel@[a] as int]);
        if times[g].len() >= 2 {
            sel.push(g);
            counts.push(times[g].len());
            assert(Seq::new(sel@.len(), |a: int| allk[sel@[a] as int]) =~= before.push(allk[g as int]));
        } else {
            assert(Seq::new(sel@.len(), |a: int| allk[sel@[a] as int]) =~= before);
        }
        g = g + 1;
    }
    proof {
        assert(allk.take(m as int) =~= allk);
    }
    let ghost keys = repeated_keys(evs);
    let ord = stable_order_desc(&counts);
    let mut r: Vec<RepetitiveError> = Vec::new();
    let total = ord.len();
    let mut t: usize = 0;
    while t < total
        invariant
            total == ord@.len(),
            total == counts@.len(),
            total == sel@.len(),
            is_permutation(ord@, counts@.len()),
            stable_desc(counts@, ord@),
            m == times@.len(),
            kinds@.len() == m,
            domains@.len() == m,
            names@.len() == m,
            group_keys(kinds@, domains@, names@) == allk,
            allk.len() == m,
            allk == first_seen(event_keys(evs)),
            forall|t2: int| 0 <= t2 < times@.len() ==> #[trigger] times@[t2]@ == key_times(evs, allk[t2]),
            forall|a: int| 0 <= a < sel@.len() ==> #[trigger] sel@[a] < m,
            forall|a: int| 0 <= a < sel@.len() ==> counts@[a] == times@[sel@[a] as int]@.len(),
            forall|a: int| 0 <= a < sel@.len() ==> times@[#[trigger] sel@[a] as int]@.len() >= 2,
            keys == repeated_keys(evs),
            Seq::new(sel@.len(), |a: int| allk[sel@[a] as int]) == keys,
            repetition_fits(evs),
            evs == events.deep_view(),
            t <= total,
            r@.len() == t,
            forall|a: int| 0 <= a < t ==> (#[trigger] r@[a])@ == group_error(evs, keys[ord@[a] as int]),
            forall|a: int| 0 <= a < t ==> r@[a].occurrence_count == counts@[ord@[a] as int],
        decreases total - t,
    {
        let s = ord[t];
        let gi = sel[s];
        let ghost key = allk[gi as int];
        assert(keys[s as int] == key);
        let src = &times[gi];
        let c = src.len();
        proof {
            lemma_first_seen(event_keys(evs));
            assert(allk.contains(key));
            assert(event_keys(evs).contains(key));
            let w = lemma_key_has_event(evs, key);
            assert(gaps_fit(key_times(evs, error_key(evs[w])->0)));
        }
        let mut occ: Vec<i64> = Vec::new();
        let mut q: usize = 0;
        while q < c
            invariant
                c == src@.len(),
                q <= c,
                occ@ =~= src@.take(q as int),
            decreases c - q,
        {
            occ.push(src[q]);
            q = q + 1;
        }
        assert(occ@ =~= src@);
        let avg = mean_gap(&occ);
        let et = if kinds[gi] == EventKind::ServiceCrash {
            chars_of("Crash")
        } else if kinds[gi] == EventKind::Timeout {
            chars_of("Timeout")
        } else {
            chars_of("Reset")
        };
        let svc = prefix_before_slash(&names[gi]);
        proof {
            assert(key.kind == kinds@[gi as int]);
            assert(key.name == names@[gi as int]@);
            assert(key.domain == domains@[gi as int]);
            assert(key.kind == EventKind::ServiceCrash || key.kind == EventKind::Timeout
                || key.kind == EventKind::Reset) by {
                lemma_event_keys_tracked(evs, key);
            }
        }
        let item = RepetitiveError {
            error_type: string_of(&et),
            service_or_reason: string_of(&svc),
            domain: domains[gi],
            occurrence_count: c,
            occurrences_at_ms: occ,
            time_between_failures_avg_ms: avg,
        };
        r.push(item);
        t = t + 1;
    }
    proof {
        assert forall|a: int, b: int|
            0 <= a < b < r@.len() implies r@[a].occurrence_count >= r@[b].occurrence_count by {
            assert(counts@[ord@[a] as int] >= counts@[ord@[b] as int]);
        }
        assert(is_permutation(ord@, keys.len()));
    }
    r
}

/// The keys of the groups kept in three parallel vectors.
pub open spec fn group_keys(kinds: Seq<EventKind>, domains: Seq<Domain>, names: Seq<Vec<char>>) -> Seq<
    ErrorKey,
> {
    Seq::new(kinds.len(), |g: int| ErrorKey { kind: kinds[g], domain: domains[g], name: names[g]@ })
}

proof fn lemma_key_has_event(evs: Seq<SystemEventView>, k: ErrorKey) -> (w: int)
    requires
        event_keys(evs).contains(k),
    ensures
        0 <= w < evs.len(),
        error_key(evs[w]) == Some(k),
    decreases evs.len(),
{
    let d = evs.drop_last();
    let i = choose|i: int| 0 <= i < event_keys(evs).len() && event_keys(evs)[i] == k;
    if error_key(evs.last()) == Some(k) {
        evs.len() - 1
    } else {
        assert(event_keys(d).contains(k)) by {
            match error_key(evs.last()) {
                Some(k2) => {
                    assert(i < event_keys(d).len());
                    assert(event_keys(d)[i] == k);
                },
                None => assert(event_keys(d)[i] == k),
            }
        }
        let w = lemma_key_has_event(d, k);
        assert(evs[w] == d[w]);
        w
    }
}

proof fn lemma_event_keys_tracked(evs: Seq<SystemEventView>, k: ErrorKey)
    requires
        event_keys(evs).contains(k),
    ensures
        k.kind == EventKind::ServiceCrash || k.kind == EventKind::Timeout || k.kind == EventKind::Reset,
{
    let w = lemma_key_has_event(evs, k);
}

/// The raw line with each newline replaced by a space.
pub open spec fn flatten_newlines(s: Seq<char>) -> Seq<char> {
    Seq::new(s.len(), |i: int| if s[i] == '\n' { ' ' } else { s[i] })
}

/// A raw line as the issue table shows it: longer than 140 characters, it is
/// cut to 137 and followed by `...`.
pub open spec fn clip_raw(s: Seq<char>) -> Seq<char> {
    if s.len() > 140 {
        s.take(137) + "..."@
    } else {
        s
    }
}

/// CAN frames in the five seconds up to and including `ts`
/// (`[ts.saturating_sub(5000), ts]`); zero without a CAN log.
pub open spec fn frames_near(frames: Option<Seq<CanFrameView>>, ts: i64) -> nat {
    match frames {
        None => 0,
        Some(fs) => frames_in(fs, sat_sub(ts, 5000), ts as int),
    }
}

pub open spec fn frames_in(fs: Seq<CanFrameView>, lo: int, hi: int) -> nat
    decreases fs.len(),
{
    if fs.len() == 0 {
        0
    } else {
        frames_in(fs.drop_last(), lo, hi) + if lo <= fs.last().timestamp && fs.last().timestamp
            <= hi {
            1nat
        } else {
            0nat
        }
    }
}

/// One row of the issue table.
pub open spec fn issue_row(e: SystemEventView, frames: Option<Seq<CanFrameView>>) -> Seq<char> {
    "<tr><td>"@ + int_text(e.timestamp as int) + "</td><td>"@ + domain_text(e.domain)
        + "</td><td>"@ + severity_text(e.kind) + "</td><td>"@ + event_type_text(e.kind)
        + "</td><td class=\"truncate\">"@ + clip_raw(flatten_newlines(e.raw_log)) + "</td><td>"@
        + dec_digits(frames_near(frames, e.timestamp)) + "</td></tr>\n"@
}

/// How severe an event of kind `k` is: 2 for the critical kinds, 1 for the
/// warnings (timeouts and watchdog triggers), 0 for service starts (INFO).
pub open spec fn severity_rank(k: EventKind) -> nat {
    match k {
        EventKind::ServiceStart => 0,
        EventKind::Timeout => 1,
        EventKind::Watchdog => 1,
        _ => 2,
    }
}

/// The rows of the events of severity rank `rank`, in event order.
pub open spec fn issue_rows_of(
    evs: Seq<SystemEventView>,
    frames: Option<Seq<CanFrameView>>,
    rank: nat,
) -> Seq<char>
    decreases evs.len(),
{
    if evs.len() == 0 {
        Seq::empty()
    } else {
        let rest = issue_rows_of(evs.drop_last(), frames, rank);
        if severity_rank(evs.last().kind) == rank {
            rest + issue_row(evs.last(), frames)
        } else {
            rest
        }
    }
}

/// The rows of the issue table: the faults and warnings sorted by severity,
/// the critical events first and then the warnings, each in event order;
/// service starts (the INFO events) are left out.
pub open spec fn issue_rows(evs: Seq<SystemEventView>, frames: Option<Seq<CanFrameView>>) -> Seq<
    char,
> {
    issue_rows_of(evs, frames, 2) + issue_rows_of(evs, frames, 1)
}

pub open spec fn frames_view(frames: Option<&Vec<CanFrame>>) -> Option<Seq<CanFrameView>> {
    match frames {
        None => None,
        Some(v) => Some(v.deep_view()),
    }
}

fn count_frames_near(frames: Option<&Vec<CanFrame>>, ts: i64) -> (c: usize)
    ensures
        c == frames_near(frames_view(frames), ts),
{
    match frames {
        None => 0,
        Some(fs) => {
            let lo = match ts.checked_sub(5000) {
                Some(v) => v,
                None => i64::MIN,
            };
            let ghost fv = fs.deep_view();
            let n = fs.len();
            let mut c: usize = 0;
            let mut i: usize = 0;
            while i < n
                invariant
                    fv == fs.deep_view(),
                    n == fv.len(),
                    i <= n,
                    c <= i,
                    lo == sat_sub(ts, 5000),
                    c == frames_in(fv.take(i as int), lo as int, ts as int),
                decreases n - i,
            {
                proof {
                    assert(fv.take(i + 1).drop_last() =~= fv.take(i as int));
                    assert(fv.take(i + 1).last() == fs@[i as int]@);
                }
                let t = fs[i].timestamp;
                if t >= lo && t <= ts {
                    c = c + 1;
                }
                i = i + 1;
            }
            assert(fv.take(n as int) =~= fv);
            c
        },
    }
}

fn push_clipped_raw(out: &mut Vec<char>, raw: &str)
    ensures
        final(out)@ == old(out)@ + clip_raw(flatten_newlines(raw@)),
{
    let cs = chars_of(raw);
    let n = cs.len();
    let mut flat: Vec<char> = Vec::new();
    let mut i: usize = 0;
    while i < n
        invariant
            n == cs@.len(),
            cs@ == raw@,
            i <= n,
            flat@ =~= flatten_newlines(cs@).take(i as int),
        decreases n - i,
    {
        let c = cs[i];
        if c == '\n' {
            flat.push(' ');
        } else {
            flat.push(c);
        }
        i = i + 1;
    }
    assert(flat@ =~= flatten_newlines(raw@));
    if n > 140 {
        let mut k: usize = 0;
        let ghost start = out@;
        while k < 137
            invariant
                flat@.len() == n,
                n > 140,
                k <= 137,
                out@ =~= start + flat@.take(k as int),
            decreases 137 - k,
        {
            out.push(flat[k]);
            k = k + 1;
        }
        push_str(out, "...");
    } else {
        out.append(&mut flat);
    }
}

fn push_issue_row(out: &mut Vec<char>, e: &SystemEvent, can_frames: Option<&Vec<CanFrame>>)
    ensures
        final(out)@ == old(out)@ + issue_row(e@, frames_view(can_frames)),
{
    let ts = e.timestamp();
    push_str(out, "<tr><td>");
    push_int(out, ts);
    push_str(out, "</td><td>");
    push_str(out, e.domain().name());
    push_str(out, "</td><td>");
    push_str(out, e.severity());
    push_str(out, "</td><td>");
    push_str(out, e.event_type());
    push_str(out, "</td><td class=\"truncate\">");
    push_clipped_raw(out, e.raw_log());
    push_str(out, "</td><td>");
    let near = count_frames_near(can_frames, ts);
    push_decimal(out, near as u64);
    push_str(out, "</td></tr>\n");
    assert(out@ =~= old(out)@ + issue_row(e@, frames_view(can_frames)));
}

fn rank_of(e: &SystemEvent) -> (r: usize)
    ensures
        r == severity_rank(e@.kind),
{
    match e {
        SystemEvent::ServiceStart { .. } => 0,
        SystemEvent::Timeout { .. } => 1,
        SystemEvent::Watchdog { .. } => 1,
        _ => 2,
    }
}

fn push_rows_of(
    out: &mut Vec<char>,
    events: &[SystemEvent],
    can_frames: Option<&Vec<CanFrame>>,
    rank: usize,
)
    ensures
        final(out)@ == old(out)@ + issue_rows_of(events.deep_view(), frames_view(can_frames), rank as nat),
{
    let ghost evs = events.deep_view();
    let ghost fv = frames_view(can_frames);
    let ghost start = out@;
    let n = events.len();
    let mut i: usize = 0;
    while i < n
        invariant
            evs == events.deep_view(),
            fv == frames_view(can_frames),
            n == evs.len(),
            i <= n,
            out@ == start + issue_rows_of(evs.take(i as int), fv, rank as nat),
        decreases n - i,
    {
        let e = &events[i];
        proof {
            assert(evs.take(i + 1).drop_last() =~= evs.take(i as int));
            assert(evs.take(i + 1).last() == e@);
        }
        if rank_of(e) == rank {
            let ghost before = out@;
            push_issue_row(out, e, can_frames);
            assert(out@ =~= start + issue_rows_of(evs.take(i + 1), fv, rank as nat));
        }
        i = i + 1;
    }
    assert(evs.take(n as int) =~= evs);
}

/// Render the rows of the issue table (faults and warnings, sorted by
/// severity): first the critical events, then the warnings, each in event
/// order, and each row with the event's time, domain, severity, type, raw
/// line (newlines flattened, long lines clipped) and the number of CAN frames
/// in the five seconds before it. Service starts are left out.
pub fn render_issue_rows(events: &[SystemEvent], can_frames: Option<&Vec<CanFrame>>) -> (html: String)
    ensures
        html@ == issue_rows(events.deep_view(), frames_view(can_frames)),
{
    let mut out: Vec<char> = Vec::new();
    push_rows_of(&mut out, events, can_frames, 2);
    push_rows_of(&mut out, events, can_frames, 1);
    assert(out@ =~= issue_rows(events.deep_view(), frames_view(can_frames)));
    string_of(&out)
}


/// The start of the HTML report document: doctype, head with its style sheet,
/// and the opening of the body.
pub const REPORT_PREAMBLE: &'static str = "<!DOCTYPE html>\n<html lang=\"en\">\n<head>\n<meta charset=\"utf-8\">\n<meta name=\"viewport\" content=\"width=device-width,initial-scale=1\">\n<title>Validation Report</title>\n<style>body{font-family:Arial,Helvetica,sans-serif;background:#fff;color:#222;margin:12px} .wrap{max-width:1400px;margin:0 auto} h1{font-size:18px;margin-bottom:6px} h2{font-size:14px;margin-top:16px;margin-bottom:8px} .row{display:flex;gap:10px;flex-wrap:wrap;margin-bottom:12px} .card{background:#f7f7f7;padding:10px;border-radius:6px;flex:1;min-width:140px} table{width:100%;border-collapse:collapse;margin-bottom:12px} th,td{padding:8px;border:1px solid #ddd;font-size:12px;text-align:left} th{background:#f0f0f0;font-weight:bold} .truncate{max-width:300px;overflow:hidden;text-overflow:ellipsis;white-space:nowrap} footer{font-size:11px;color:#666;margin-top:16px}</style>\n</head>\n<body>\n<div class=\"wrap\">\n";

/// The end of the HTML report document.
pub const REPORT_FOOTER: &'static str = "<footer>Cross-Domain Automotive Log Intelligence Engine — concise report</footer>\n</div>\n</body>\n</html>\n";

/// One key-metric card.
pub open spec fn metric_card(label: Seq<char>, n: usize) -> Seq<char> {
    "<div class=\"card\">"@ + label + "<br><strong>"@ + dec_digits(n as nat) + "</strong></div>"@
}

/// Title, generation time, boot time and the key-metric cards.
pub open spec fn report_head(r: &MetricsReport) -> Seq<char> {
    REPORT_PREAMBLE@ + "<h1>"@ + r.report_title@ + "</h1>\n"@
        + "<div class=\"row\"><div class=\"card\">Generated: "@ + r.generated_at@
        + "</div><div class=\"card\">Boot: "@ + int_text(r.boot_time_ms as int)
        + " ms</div></div>\n"@ + "<div class=\"row\">\n"@ + metric_card(
        "Service Crashes"@,
        r.total_service_crashes,
    ) + metric_card("System Crashes"@, r.total_system_crashes) + metric_card(
        "Timeouts"@,
        r.total_timeouts,
    ) + metric_card("Resets"@, r.total_resets) + metric_card(
        "Service Starts"@,
        r.total_service_starts,
    ) + "\n"@ + "</div>\n"@
}

/// The issue table.
pub open spec fn issue_table(evs: Seq<SystemEventView>, frames: Option<Seq<CanFrameView>>) -> Seq<
    char,
> {
    "<h2>Issues (Faults & Warnings)</h2>\n"@
        + "<table><tr><th>Time (ms)</th><th>Domain</th><th>Severity</th><th>Type</th><th>Raw</th><th>CAN nearby</th></tr>\n"@
        + issue_rows(evs, frames) + "</table>\n"@
}

/// One row of the per-domain summary.
pub open spec fn domain_row(name: Seq<char>, m: DomainMetrics) -> Seq<char> {
    "<tr><td>"@ + name + "</td><td>"@ + dec_digits(m.service_starts as nat) + "</td><td>"@
        + dec_digits(m.service_crashes as nat) + "</td><td>"@ + dec_digits(
        m.system_crashes as nat,
    ) + "</td><td>"@ + dec_digits(m.timeouts as nat) + "</td></tr>\n"@
}

/// The rows of the per-domain summary, in the order `ord`.
pub open spec fn domain_rows(rows: Seq<(String, DomainMetrics)>, ord: Seq<usize>) -> Seq<char>
    decreases ord.len(),
{
    if ord.len() == 0 {
        Seq::empty()
    } else {
        let p = rows[ord.last() as int];
        domain_rows(rows, ord.drop_last()) + domain_row(p.0@, p.1)
    }
}

/// The display names of the per-domain rows.
pub open spec fn row_names(rows: Seq<(String, DomainMetrics)>) -> Seq<Seq<char>> {
    Seq::new(rows.len(), |i: int| rows[i].0@)
}

/// The per-domain summary table, rows in the order `ord`.
pub open spec fn domain_table(rows: Seq<(String, DomainMetrics)>, ord: Seq<usize>) -> Seq<char> {
    "<h2>Per-Domain Summary</h2>\n<table><tr><th>Domain</th><th>Starts</th><th>Crashes</th><th>System Crashes</th><th>Timeouts</th></tr>\n"@
        + domain_rows(rows, ord) + "</table>\n"@
}

/// The rendered rows, one after the other.
pub open spec fn joined(rows: Seq<Seq<char>>) -> Seq<char>
    decreases rows.len(),
{
    if rows.len() == 0 {
        Seq::empty()
    } else {
        joined(rows.drop_last()) + rows.last()
    }
}

/// The message-impact table, when there are impact rows; nothing otherwise.
pub open spec fn impact_table(rows: Seq<Seq<char>>) -> Seq<char> {
    if rows.len() == 0 {
        Seq::empty()
    } else {
        "<h2>Message Impacts & Correlations (Ranked by Causal Score)</h2>\n"@
            + "<table><tr><th>Causal Score</th><th>Frame ID</th><th>Time (ms)</th><th>Source</th><th>Severity</th><th>Crashes</th><th>Affected Services</th><th>CPU Load</th><th>Anomaly</th><th>Signals</th></tr>\n"@
            + joined(rows) + "</table>\n"@
    }
}

/// The parts joined with `sep` between them.
pub open spec fn join_sep(parts: Seq<Seq<char>>, sep: Seq<char>) -> Seq<char>
    decreases parts.len(),
{
    if parts.len() == 0 {
        Seq::empty()
    } else if parts.len() == 1 {
        parts[0]
    } else {
        join_sep(parts.drop_last(), sep) + sep + parts.last()
    }
}

/// A crashed service as the impact table shows it: a name longer than 20
/// bytes is cut to its first 17 bytes, followed by `...`.
pub open spec fn clip_service(n: Seq<char>) -> Seq<char> {
    if encode_utf8(n).len() > 20 {
        decode_utf8(encode_utf8(n).subrange(0, 17)) + "..."@
    } else {
        n
    }
}

/// A service name can be cut as `clip_service` cuts it: when it is longer than
/// 20 bytes, its 17th byte ends a character.
pub open spec fn service_cuttable(n: Seq<char>) -> bool {
    encode_utf8(n).len() > 20 ==> is_char_boundary(encode_utf8(n), 17)
}

/// The affected-services cell: the first two crashed services, cut, joined
/// with `, `; `-` when there are none.
pub open spec fn services_cell(names: Seq<Seq<char>>) -> Seq<char> {
    if names.len() == 0 {
        "-"@
    } else {
        join_sep(
            Seq::new(
                if names.len() < 2 {
                    names.len()
                } else {
                    2
                },
                |i: int| clip_service(names[i]),
            ),
            ", "@,
        )
    }
}

/// The severity cell: coloured for CRITICAL, HIGH and MEDIUM, plain `LOW`
/// for anything else.
pub open spec fn severity_cell(sev: Seq<char>) -> Seq<char> {
    if sev == "CRITICAL"@ {
        "<span style='color:red;font-weight:bold'>CRITICAL</span>"@
    } else if sev == "HIGH"@ {
        "<span style='color:orange;font-weight:bold'>HIGH</span>"@
    } else if sev == "MEDIUM"@ {
        "<span style='color:gold'>MEDIUM</span>"@
    } else {
        "LOW"@
    }
}

/// The crashes cell: crashes with the timeouts beside them, else the
/// timeouts, else `None`.
pub open spec fn crashes_cell(crashes: usize, timeouts: usize) -> Seq<char> {
    if crashes > 0 {
        dec_digits(crashes as nat) + " (+ "@ + dec_digits(timeouts as nat) + " timeout)"@
    } else if timeouts > 0 {
        dec_digits(timeouts as nat) + " timeout"@
    } else {
        "None"@
    }
}

/// The signals cell: the first three decoded signals as `name=value`, joined
/// with `; `; `-` when there are none.
pub open spec fn signals_cell(sigs: Seq<(Seq<char>, Seq<char>)>) -> Seq<char> {
    if sigs.len() == 0 {
        "-"@
    } else {
        join_sep(
            Seq::new(
                if sigs.len() < 3 {
                    sigs.len()
                } else {
                    3
                },
                |i: int| sigs[i].0 + "="@ + sigs[i].1,
            ),
            "; "@,
        )
    }
}

/// The text cells of an impact row.
#[derive(Debug)]
pub struct ImpactCells {
    pub services: String,
    pub severity: String,
    pub crashes: String,
    pub signals: String,
}

fn clipped_service(n: &String) -> (r: Option<Vec<char>>)
    ensures
        r is None <==> !service_cuttable(n@),
        r matches Some(c) ==> c@ == clip_service(n@),
{
    let s = n.as_str();
    let len = s.as_bytes().len();
    if len > 20 {
        if !s.is_char_boundary(17) {
            return None;
        }
        let (head, _tail) = s.split_at(17);
        proof {
            vstd::utf8::encode_utf8_decode_utf8(head@);
            assert(encode_utf8(head@) =~= encode_utf8(n@).subrange(0, 17));
        }
        let mut c = chars_of(head);
        push_str(&mut c, "...");
        Some(c)
    } else {
        Some(chars_of(s))
    }
}

/// The text cells of an impact row, from its crashed services, severity,
/// crash and timeout counts and decoded signals. `None` exactly when one of
/// the first two services is longer than 20 bytes and its 17th byte does not
/// end a character (the cut would split it).
pub fn impact_cells(
    crashed_services: &Vec<String>,
    severity: &str,
    crash_count: usize,
    timeout_count: usize,
    decoded_signals: &Vec<(String, String)>,
) -> (r: Option<ImpactCells>)
    ensures
        ({
            let names = crashed_services.deep_view();
            let shown = if names.len() < 2 {
                names.len() as int
            } else {
                2
            };
            r is None <==> exists|i: int| 0 <= i < shown && !#[trigger] service_cuttable(names[i])
        }),
        r matches Some(c) ==> {
            &&& c.services@ == services_cell(crashed_services.deep_view())
            &&& c.severity@ == severity_cell(severity@)
            &&& c.crashes@ == crashes_cell(crash_count, timeout_count)
            &&& c.signals@ == signals_cell(decoded_signals.deep_view())
        },
{
    let ghost names = crashed_services.deep_view();
    // services
    let n = crashed_services.len();
    let shown: usize = if n < 2 {
        n
    } else {
        2
    };
    let ghost parts = Seq::new(shown as nat, |i: int| clip_service(names[i]));
    let mut services: Vec<char> = Vec::new();
    if n == 0 {
        push_str(&mut services, "-");
    } else {
        let mut i: usize = 0;
        while i < shown
            invariant
                names == crashed_services.deep_view(),
                n == names.len(),
                shown <= n,
                shown == (if n < 2 { n } else { 2 }),
                parts == Seq::new(shown as nat, |i: int| clip_service(names[i])),
                i <= shown,
                forall|j: int| 0 <= j < i ==> service_cuttable(#[trigger] names[j]),
                services@ == join_sep(parts.take(i as int), ", "@),
            decreases shown - i,
        {
            proof {
                assert(names[i as int] == crashed_services@[i as int]@);
            }
            match clipped_service(&crashed_services[i]) {
                None => {
                    return None;
                },
                Some(mut c) => {
                    proof {
                        assert(parts.take(i + 1).drop_last() =~= parts.take(i as int));
                        assert(parts.take(i + 1).last() == c@);
                        if i == 0 {
                            assert(parts.take(0) =~= Seq::<Seq<char>>::empty());
                        }
                    }
                    if i > 0 {
                        push_str(&mut services, ", ");
                    }
                    services.append(&mut c);
                    proof {
                        if i == 0 {
                            assert(services@ =~= join_sep(parts.take(1), ", "@));
                        } else {
                            assert(services@ =~= join_sep(parts.take(i + 1), ", "@));
                        }
                    }
                },
            }
            i = i + 1;
        }
        assert(parts.take(shown as int) =~= parts);
    }
    // severity
    let sev = chars_of(severity);
    let severity_text = if same_chars(&sev, &chars_of("CRITICAL")) {
        "<span style='color:red;font-weight:bold'>CRITICAL</span>"
    } else if same_chars(&sev, &chars_of("HIGH")) {
        "<span style='color:orange;font-weight:bold'>HIGH</span>"
    } else if same_chars(&sev, &chars_of("MEDIUM")) {
        "<span style='color:gold'>MEDIUM</span>"
    } else {
        "LOW"
    };
    // crashes
    let mut crashes: Vec<char> = Vec::new();
    if crash_count > 0 {
        push_decimal(&mut crashes, crash_count as u64);
        push_str(&mut crashes, " (+ ");
        push_decimal(&mut crashes, timeout_count as u64);
        push_str(&mut crashes, " timeout)");
    } else if timeout_count > 0 {
        push_decimal(&mut crashes, timeout_count as u64);
        push_str(&mut crashes, " timeout");
    } else {
        push_str(&mut crashes, "None");
    }
    assert(crashes@ =~= crashes_cell(crash_count, timeout_count));
    // signals
    let ghost sv = decoded_signals.deep_view();
    let ns = decoded_signals.len();
    let shown_s: usize = if ns < 3 {
        ns
    } else {
        3
    };
    let ghost sparts = Seq::new(shown_s as nat, |i: int| sv[i].0 + "="@ + sv[i].1);
    let mut signals: Vec<char> = Vec::new();
    if ns == 0 {
        push_str(&mut signals, "-");
    } else {
        let mut i: usize = 0;
        while i < shown_s
            invariant
                sv == decoded_signals.deep_view(),
                ns == sv.len(),
                shown_s <= ns,
                sparts == Seq::new(shown_s as nat, |i: int| sv[i].0 + "="@ + sv[i].1),
                i <= shown_s,
                signals@ == join_sep(sparts.take(i as int), "; "@),
            decreases shown_s - i,
        {
            proof {
                assert(sv[i as int].0 == decoded_signals@[i as int].0@);
                assert(sv[i as int].1 == decoded_signals@[i as int].1@);
                assert(sparts.take(i + 1).drop_last() =~= sparts.take(i as int));
                if i == 0 {
                    assert(sparts.take(0) =~= Seq::<Seq<char>>::empty());
                }
            }
            let ghost before = signals@;
            if i > 0 {
                push_str(&mut signals, "; ");
            }
            push_str(&mut signals, decoded_signals[i].0.as_str());
            push_str(&mut signals, "=");
            push_str(&mut signals, decoded_signals[i].1.as_str());
            proof {
                if i == 0 {
                    assert(signals@ =~= join_sep(sparts.take(1), "; "@));
                } else {
                    assert(signals@ =~= join_sep(sparts.take(i + 1), "; "@));
                }
            }
            i = i + 1;
        }
        assert(sparts.take(shown_s as int) =~= sparts);
    }
    Some(
        ImpactCells {
            services: string_of(&services),
            severity: string_of(&chars_of(severity_text)),
            crashes: string_of(&crashes),
            signals: string_of(&signals),
        },
    )
}

/// The whole HTML report, the per-domain rows in the order `ord`.
pub open spec fn report_html(
    r: &MetricsReport,
    frames: Option<Seq<CanFrameView>>,
    impact_rows: Seq<Seq<char>>,
    ord: Seq<usize>,
) -> Seq<char> {
    report_head(r) + issue_table(r.events.deep_view(), frames) + domain_table(r.by_domain@, ord)
        + impact_table(impact_rows) + REPORT_FOOTER@
}

fn push_card(out: &mut Vec<char>, label: &str, n: usize)
    ensures
        final(out)@ == old(out)@ + metric_card(label@, n),
{
    push_str(out, "<div class=\"card\">");
    push_str(out, label);
    push_str(out, "<br><strong>");
    push_decimal(out, n as u64);
    push_str(out, "</strong></div>");
    assert(out@ =~= old(out)@ + metric_card(label@, n));
}

fn push_domain_row(out: &mut Vec<char>, name: &String, m: &DomainMetrics)
    ensures
        final(out)@ == old(out)@ + domain_row(name@, *m),
{
    push_str(out, "<tr><td>");
    push_str(out, name.as_str());
    push_str(out, "</td><td>");
    push_decimal(out, m.service_starts as u64);
    push_str(out, "</td><td>");
    push_decimal(out, m.service_crashes as u64);
    push_str(out, "</td><td>");
    push_decimal(out, m.system_crashes as u64);
    push_str(out, "</td><td>");
    push_decimal(out, m.timeouts as u64);
    push_str(out, "</td></tr>\n");
    assert(out@ =~= old(out)@ + domain_row(name@, *m));
}

/// Render the HTML report of a metrics report: title, generation and boot
/// time, the key-metric cards, the issue table (see `render_issue_rows`), the
/// per-domain summary with the domains in ascending name order, and, when
/// `impact_rows` is not empty, the message-impact table made of those rows
/// (already rendered, ranked by causal score).
#[verifier::spinoff_prover]
#[verifier::rlimit(50)]
pub fn generate_html_report(
    report: &MetricsReport,
    can_frames: Option<&Vec<CanFrame>>,
    impact_rows: &Vec<String>,
) -> (html: String)
    ensures
        exists|ord: Seq<usize>|
            #[trigger] is_permutation(ord, report.by_domain@.len()) && names_ascending(
                row_names(report.by_domain@),
                ord,
            ) && html@ == report_html(report, frames_view(can_frames), impact_rows.deep_view(), ord),
{
    let mut out: Vec<char> = Vec::new();
    push_str(&mut out, REPORT_PREAMBLE);
    push_str(&mut out, "<h1>");
    push_str(&mut out, report.report_title.as_str());
    push_str(&mut out, "</h1>\n");
    push_str(&mut out, "<div class=\"row\"><div class=\"card\">Generated: ");
    push_str(&mut out, report.generated_at.as_str());
    push_str(&mut out, "</div><div class=\"card\">Boot: ");
    push_int(&mut out, report.boot_time_ms);
    push_str(&mut out, " ms</div></div>\n");
    push_str(&mut out, "<div class=\"row\">\n");
    push_card(&mut out, "Service Crashes", report.total_service_crashes);
    push_card(&mut out, "System Crashes", report.total_system_crashes);
    push_card(&mut out, "Timeouts", report.total_timeouts);
    push_card(&mut out, "Resets", report.total_resets);
    push_card(&mut out, "Service Starts", report.total_service_starts);
    push_str(&mut out, "\n");
    push_str(&mut out, "</div>\n");
    assert(out@ =~= report_head(report));
    let ghost head = out@;
    push_str(&mut out, "<h2>Issues (Faults & Warnings)</h2>\n");
    push_str(
        &mut out,
        "<table><tr><th>Time (ms)</th><th>Domain</th><th>Severity</th><th>Type</th><th>Raw</th><th>CAN nearby</th></tr>\n",
    );
    let evs = report.events.as_slice();
    assert(evs.deep_view() =~= report.events.deep_view());
    let rows = render_issue_rows(evs, can_frames);
    push_str(&mut out, rows.as_str());
    push_str(&mut out, "</table>\n");
    assert(out@ =~= head + issue_table(report.events.deep_view(), frames_view(can_frames)));
    let ghost upto_issues = out@;
    // the per-domain summary, domains in ascending name order
    let ghost rv = report.by_domain@;
    let nd = report.by_domain.len();
    let mut names: Vec<String> = Vec::new();
    let mut i: usize = 0;
    while i < nd
        invariant
            rv == report.by_domain@,
            nd == rv.len(),
            i <= nd,
            names.deep_view() =~= row_names(rv).take(i as int),
        decreases nd - i,
    {
        let ghost before = names.deep_view();
        names.push(report.by_domain[i].0.clone());
        assert(names.deep_view() =~= before.push(rv[i as int].0@));
        i = i + 1;
    }
    assert(names.deep_view() =~= row_names(rv));
    let ord = stable_name_order(&names);
    push_str(
        &mut out,
        "<h2>Per-Domain Summary</h2>\n<table><tr><th>Domain</th><th>Starts</th><th>Crashes</th><th>System Crashes</th><th>Timeouts</th></tr>\n",
    );
    let ghost table_start = out@;
    let mut a: usize = 0;
    while a < nd
        invariant
            rv == report.by_domain@,
            nd == rv.len(),
            ord@.len() == nd,
            forall|t: int| 0 <= t < ord@.len() ==> #[trigger] ord@[t] < nd,
            a <= nd,
            out@ =~= table_start + domain_rows(rv, ord@.take(a as int)),
        decreases nd - a,
    {
        let p = &report.by_domain[ord[a]];
        proof {
            assert(ord@.take(a + 1).drop_last() =~= ord@.take(a as int));
            assert(ord@.take(a + 1).last() == ord@[a as int]);
        }
        push_domain_row(&mut out, &p.0, &p.1);
        a = a + 1;
    }
    assert(ord@.take(nd as int) =~= ord@);
    push_str(&mut out, "</table>\n");
    assert(out@ =~= upto_issues + domain_table(rv, ord@));
    let ghost upto_domains = out@;
    // the message impacts
    let ghost iv = impact_rows.deep_view();
    let ni = impact_rows.len();
    if ni > 0 {
        push_str(&mut out, "<h2>Message Impacts & Correlations (Ranked by Causal Score)</h2>\n");
        push_str(
            &mut out,
            "<table><tr><th>Causal Score</th><th>Frame ID</th><th>Time (ms)</th><th>Source</th><th>Severity</th><th>Crashes</th><th>Affected Services</th><th>CPU Load</th><th>Anomaly</th><th>Signals</th></tr>\n",
        );
        let ghost rows_start = out@;
        let mut k: usize = 0;
        while k < ni
            invariant
                iv == impact_rows.deep_view(),
                ni == iv.len(),
                k <= ni,
                out@ =~= rows_start + joined(iv.take(k as int)),
            decreases ni - k,
        {
            proof {
                assert(iv.take(k + 1).drop_last() =~= iv.take(k as int));
                assert(iv.take(k + 1).last() == impact_rows@[k as int]@);
            }
            push_str(&mut out, impact_rows[k].as_str());
            k = k + 1;
        }
        assert(iv.take(ni as int) =~= iv);
        push_str(&mut out, "</table>\n");
    }
    assert(out@ =~= upto_domains + impact_table(iv));
    push_str(&mut out, REPORT_FOOTER);
    assert(out@ =~= report_html(report, frames_view(can_frames), iv, ord@));
    assert(is_permutation(ord@, report.by_domain@.len()));
    string_of(&out)
}

/// Number of events of kind `k` in domain `d`.
pub open spec fn count_kind(evs: Seq<SystemEventView>, d: Domain, k: EventKind) -> nat
    decreases evs.len(),
{
    if evs.len() == 0 {
        0
    } else {
        count_kind(evs.drop_last(), d, k) + if evs.last().domain == d && evs.last().kind == k {
            1nat
        } else {
            0nat
        }
    }
}

/// The counts of one domain's events, kind by kind.
pub open spec fn metrics_ok(m: DomainMetrics, evs: Seq<SystemEventView>, d: Domain) -> bool {
    &&& m.service_starts == count_kind(evs, d, EventKind::ServiceStart)
    &&& m.service_crashes == count_kind(evs, d, EventKind::ServiceCrash)
    &&& m.system_crashes == count_kind(evs, d, EventKind::SystemCrash)
    &&& m.timeouts == count_kind(evs, d, EventKind::Timeout)
    &&& m.watchdog_triggers == count_kind(evs, d, EventKind::Watchdog)
    &&& m.resets == count_kind(evs, d, EventKind::Reset)
    &&& m.discrepancies == count_kind(evs, d, EventKind::Discrepancy)
    &&& m.deviations == count_kind(evs, d, EventKind::Deviation)
}

proof fn lemma_count_kind_bound(evs: Seq<SystemEventView>, d: Domain, k: EventKind)
    ensures
        count_kind(evs, d, k) <= evs.len(),
    decreases evs.len(),
{
    if evs.len() > 0 {
        lemma_count_kind_bound(evs.drop_last(), d, k);
    }
}

/// Count one domain's events kind by kind.
pub fn domain_metrics(events: &[SystemEvent], domain: Domain) -> (m: DomainMetrics)
    ensures
        metrics_ok(m, events.deep_view(), domain),
{
    let ghost evs = events.deep_view();
    let n = events.len();
    let mut m = DomainMetrics {
        service_starts: 0,
        service_crashes: 0,
        system_crashes: 0,
        timeouts: 0,
        watchdog_triggers: 0,
        resets: 0,
        discrepancies: 0,
        deviations: 0,
    };
    let mut i: usize = 0;
    while i < n
        invariant
            evs == events.deep_view(),
            n == evs.len(),
            i <= n,
            metrics_ok(m, evs.take(i as int), domain),
        decreases n - i,
    {
        let e = &events[i];
        proof {
            assert(evs.take(i + 1).drop_last() =~= evs.take(i as int));
            assert(evs.take(i + 1).last() == e@);
            lemma_count_kind_bound(evs.take(i as int), domain, e@.kind);
        }
        if *e.domain() == domain {
            match e {
                SystemEvent::ServiceStart { .. } => m.service_starts = m.service_starts + 1,
                SystemEvent::ServiceCrash { .. } => m.service_crashes = m.service_crashes + 1,
                SystemEvent::SystemCrash { .. } => m.system_crashes = m.system_crashes + 1,
                SystemEvent::Timeout { .. } => m.timeouts = m.timeouts + 1,
                SystemEvent::Watchdog { .. } => m.watchdog_triggers = m.watchdog_triggers + 1,
                SystemEvent::Reset { .. } => m.resets = m.resets + 1,
                SystemEvent::Discrepancy { .. } => m.discrepancies = m.discrepancies + 1,
                SystemEvent::Deviation { .. } => m.deviations = m.deviations + 1,
            }
        }
        i = i + 1;
    }
    assert(evs.take(n as int) =~= evs);
    m
}

} // verus!
