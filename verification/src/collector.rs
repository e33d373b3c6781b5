//! Decisions of the log collector: which saved profile applies, which stored
//! session is the latest, and which Android devices `adb` lists.

use vstd::prelude::*;
use vstd::utf8::encode_utf8;
use crate::order::{names_ascending, stable_name_order};
use crate::reporter::is_permutation;
use crate::text::{
    all_digits, chars_of, dec_digits, decimal_value, is_digit_char, is_whitespace, is_ws,
    lemma_decimal_value_prefix, push_decimal, push_str, split_ws, string_of, ws_scan, ws_tokens,
};

verus! {

/// Connection settings saved under a profile name.
#[derive(Debug)]
pub struct Profile {
    pub qnx_ip: Option<String>,
    pub qnx_user: Option<String>,
    pub qnx_port: Option<u16>,
    pub qnx_password: Option<String>,
    pub adb_serial: Option<String>,
}

/// The collector's configuration: the default profile's name and the saved
/// profiles, each under a distinct name.
#[derive(Debug)]
pub struct Config {
    pub default_profile: Option<String>,
    pub profiles: Option<Vec<(String, Profile)>>,
}

/// Index of the first profile named `name`.
pub open spec fn profile_index(profiles: Seq<(String, Profile)>, name: Seq<char>) -> Option<int>
    decreases profiles.len(),
{
    if profiles.len() == 0 {
        None
    } else {
        match profile_index(profiles.drop_last(), name) {
            Some(i) => Some(i),
            None => if profiles.last().0@ == name {
                Some(profiles.len() - 1)
            } else {
                None
            },
        }
    }
}

proof fn lemma_profile_index(profiles: Seq<(String, Profile)>, name: Seq<char>)
    ensures
        match profile_index(profiles, name) {
            Some(i) => 0 <= i < profiles.len() && profiles[i].0@ == name && forall|j: int|
                0 <= j < i ==> profiles[j].0@ != name,
            None => forall|j: int| 0 <= j < profiles.len() ==> profiles[j].0@ != name,
        },
    decreases profiles.len(),
{
    if profiles.len() > 0 {
        let d = profiles.drop_last();
        lemma_profile_index(d, name);
        assert forall|j: int| 0 <= j < d.len() implies d[j] == profiles[j] by {}
    }
}

/// The default profile: the saved profile named by `default_profile`, when
/// a configuration was loaded and both are present.
pub open spec fn default_profile_of(cfg: Option<&Config>) -> Option<Profile> {
    match cfg {
        Some(c) => match (&c.default_profile, &c.profiles) {
            (Some(dp), Some(ps)) => match profile_index(ps@, dp@) {
                Some(i) => Some(ps@[i].1),
                None => None,
            },
            _ => None,
        },
        None => None,
    }
}

fn same_text(a: &String, b: &String) -> (r: bool)
    ensures
        r == (a@ == b@),
{
    let x = chars_of(a.as_str());
    let y = chars_of(b.as_str());
    crate::text::same_chars(&x, &y)
}

/// The default profile of the loaded configuration, if any.
pub fn get_default_profile(cfg: Option<&Config>) -> (r: Option<&Profile>)
    ensures
        match r {
            Some(p) => default_profile_of(cfg) == Some(*p),
            None => default_profile_of(cfg) is None,
        },
{
    let c = match cfg {
        Some(c) => c,
        None => {
            return None;
        },
    };
    let dp = match &c.default_profile {
        Some(d) => d,
        None => {
            return None;
        },
    };
    let ps = match &c.profiles {
        Some(p) => p,
        None => {
            return None;
        },
    };
    proof {
        lemma_profile_index(ps@, dp@);
    }
    let n = ps.len();
    let mut i: usize = 0;
    while i < n
        invariant
            n == ps@.len(),
            i <= n,
            cfg == Some(c),
            c.default_profile == Some(*dp),
            c.profiles == Some(*ps),
            forall|j: int| 0 <= j < i ==> ps@[j].0@ != dp@,
            match profile_index(ps@, dp@) {
                Some(k) => 0 <= k < ps@.len() && ps@[k].0@ == dp@ && forall|j: int|
                    0 <= j < k ==> ps@[j].0@ != dp@,
                None => forall|j: int| 0 <= j < ps@.len() ==> ps@[j].0@ != dp@,
            },
        decreases n - i,
    {
        if same_text(&ps[i].0, dp) {
            proof {
                let k = profile_index(ps@, dp@);
                assert(k == Some(i as int)) by {
                    match k {
                        Some(k) => {
                            if k < i {
                                assert(ps@[k].0@ != dp@);
                            } else if k > i {
                                assert(ps@[i as int].0@ != dp@);
                            }
                        },
                        None => {
                            assert(ps@[i as int].0@ != dp@);
                        },
                    }
                }
                assert(c.default_profile == Some(*dp));
                assert(c.profiles == Some(*ps));
                assert(default_profile_of(cfg) == Some(ps@[i as int].1));
            }
            return Some(&ps[i].1);
        }
        i = i + 1;
    }
    None
}

/// `a` sorts after `b`: strings compare by their UTF-8 bytes, lexicographically.
pub open spec fn bytes_after(a: Seq<u8>, b: Seq<u8>) -> bool
    decreases a.len(),
{
    if a.len() == 0 {
        false
    } else if b.len() == 0 {
        true
    } else if a[0] != b[0] {
        a[0] > b[0]
    } else {
        bytes_after(a.drop_first(), b.drop_first())
    }
}

pub open spec fn text_after(a: Seq<char>, b: Seq<char>) -> bool {
    bytes_after(encode_utf8(a), encode_utf8(b))
}

/// Index of the greatest name, the first one on ties; `None` for no names.
pub open spec fn latest_index(names: Seq<String>) -> Option<int>
    decreases names.len(),
{
    if names.len() == 0 {
        None
    } else {
        match latest_index(names.drop_last()) {
            None => Some(0),
            Some(i) => if text_after(names.last()@, names[i]@) {
                Some(names.len() - 1)
            } else {
                Some(i)
            },
        }
    }
}

/// `bytes_after` is transitive.
pub proof fn lemma_bytes_after_transitive(a: Seq<u8>, b: Seq<u8>, c: Seq<u8>)
    requires
        bytes_after(a, b),
        bytes_after(b, c),
    ensures
        bytes_after(a, c),
    decreases a.len(),
{
    if c.len() > 0 && a[0] == b[0] && b[0] == c[0] {
        lemma_bytes_after_transitive(a.drop_first(), b.drop_first(), c.drop_first());
    }
}

/// No text sorts after itself.
pub proof fn lemma_bytes_after_irreflexive(a: Seq<u8>)
    ensures
        !bytes_after(a, a),
    decreases a.len(),
{
    if a.len() > 0 {
        lemma_bytes_after_irreflexive(a.drop_first());
    }
}

pub(crate) fn after(a: &[u8], b: &[u8]) -> (r: bool)
    ensures
        r == bytes_after(a@, b@),
{
    let n = a.len();
    let m = b.len();
    let mut k: usize = 0;
    assert(a@.skip(0) =~= a@);
    assert(b@.skip(0) =~= b@);
    while k < n && k < m && a[k] == b[k]
        invariant
            n == a@.len(),
            m == b@.len(),
            k <= n,
            k <= m,
            bytes_after(a@, b@) == bytes_after(a@.skip(k as int), b@.skip(k as int)),
        decreases n - k,
    {
        proof {
            assert(a@.skip(k as int).drop_first() =~= a@.skip(k + 1));
            assert(b@.skip(k as int).drop_first() =~= b@.skip(k + 1));
        }
        k = k + 1;
    }
    if k == n {
        false
    } else if k == m {
        true
    } else {
        a[k] > b[k]
    }
}

/// The path of the latest stored session: the directory whose name sorts
/// last (the first such name), under `storage`; `None` when there is none.
pub fn find_latest_session(storage: &str, names: &Vec<String>) -> (r: Option<String>)
    ensures
        match latest_index(names@) {
            None => r is None,
            Some(i) => r matches Some(p) && p@ == storage@ + "/"@ + names@[i]@,
        },
{
    let n = names.len();
    let mut best: usize = 0;
    let mut i: usize = 0;
    while i < n
        invariant
            n == names@.len(),
            i <= n,
            i == 0 ==> latest_index(names@.take(i as int)) is None,
            i > 0 ==> latest_index(names@.take(i as int)) == Some(best as int) && best < i,
        decreases n - i,
    {
        proof {
            assert(names@.take(i + 1).drop_last() =~= names@.take(i as int));
        }
        if i == 0 {
            best = 0;
        } else {
            let a = names[i].as_str().as_bytes();
            let b = names[best].as_str().as_bytes();
            if after(a, b) {
                best = i;
            }
        }
        i = i + 1;
    }
    assert(names@.take(n as int) =~= names@);
    if n == 0 {
        return None;
    }
    let mut out = chars_of(storage);
    push_str(&mut out, "/");
    push_str(&mut out, names[best].as_str());
    Some(string_of(&out))
}

/// `s` without its leading whitespace.
pub open spec fn trim_start_ws(s: Seq<char>) -> Seq<char>
    decreases s.len(),
{
    if s.len() > 0 && is_ws(s[0]) {
        trim_start_ws(s.drop_first())
    } else {
        s
    }
}

/// `s` without its trailing whitespace.
pub open spec fn trim_end_ws(s: Seq<char>) -> Seq<char>
    decreases s.len(),
{
    if s.len() > 0 && is_ws(s.last()) {
        trim_end_ws(s.drop_last())
    } else {
        s
    }
}

/// `s` with whitespace removed from both ends (`str::trim`).
pub open spec fn trim_ws(s: Seq<char>) -> Seq<char> {
    trim_end_ws(trim_start_ws(s))
}


pub open spec fn opt_view(o: Option<&str>) -> Option<Seq<char>> {
    match o {
        Some(s) => Some(s@),
        None => None,
    }
}

/// The value an answer to a prompt gives: the answer trimmed, or, when that
/// is blank, the profile's default, or else `fallback`.
pub open spec fn resolved_answer(
    answer: Seq<char>,
    default: Option<Seq<char>>,
    fallback: Seq<char>,
) -> Seq<char> {
    let t = trim_ws(answer);
    if t.len() > 0 {
        t
    } else {
        match default {
            Some(d) => d,
            None => fallback,
        }
    }
}

/// Resolve the answer to a prompt for the QNX address, user or password:
/// the trimmed answer, or the profile's default when it is blank, or else
/// `fallback`.
pub fn resolve_answer(answer: &str, default: Option<&str>, fallback: &str) -> (r: String)
    ensures
        r@ == resolved_answer(answer@, opt_view(default), fallback@),
{
    let cs = chars_of(answer);
    let t = trim_chars(&cs);
    if t.len() > 0 {
        string_of(&t)
    } else {
        match default {
            Some(d) => string_of(&chars_of(d)),
            None => string_of(&chars_of(fallback)),
        }
    }
}

/// Resolve the answer to the port prompt: the trimmed answer, or the
/// profile's port when it is blank, or else 22.
pub fn port_answer(answer: &str, default: Option<u16>) -> (r: String)
    ensures
        r@ == resolved_answer(
            answer@,
            match default {
                Some(p) => Some(dec_digits(p as nat)),
                None => None,
            },
            "22"@,
        ),
{
    let cs = chars_of(answer);
    let t = trim_chars(&cs);
    if t.len() > 0 {
        string_of(&t)
    } else {
        match default {
            Some(p) => {
                let mut out: Vec<char> = Vec::new();
                push_decimal(&mut out, p as u64);
                string_of(&out)
            },
            None => string_of(&chars_of("22")),
        }
    }
}

/// The serial an answer gives for the Android device: the answer trimmed, or,
/// when that is blank, the profile's serial, if any.
pub open spec fn typed_serial(answer: Seq<char>, default: Option<Seq<char>>) -> Option<Seq<char>> {
    let t = trim_ws(answer);
    if t.len() > 0 {
        Some(t)
    } else {
        default
    }
}

/// The serial typed when no device was picked from the list: the trimmed
/// answer, or the profile's serial when it is blank.
pub fn manual_serial(answer: &str, default: Option<&str>) -> (r: Option<String>)
    ensures
        match typed_serial(answer@, opt_view(default)) {
            Some(s) => r matches Some(x) && x@ == s,
            None => r is None,
        },
{
    let cs = chars_of(answer);
    let t = trim_chars(&cs);
    if t.len() > 0 {
        Some(string_of(&t))
    } else {
        match default {
            Some(d) => Some(string_of(&chars_of(d))),
            None => None,
        }
    }
}

/// The serial for collecting both logs at once: the resolved answer, where a
/// blank one (no answer and no profile serial, or an empty one) means that
/// `adb` picks the device.
pub fn serial_or_auto(answer: &str, default: Option<&str>) -> (r: Option<String>)
    ensures
        ({
            let v = resolved_answer(answer@, opt_view(default), Seq::empty());
            if v.len() == 0 {
                r is None
            } else {
                r matches Some(x) && x@ == v
            }
        }),
{
    let v = resolve_answer(answer, default, "");
    proof {
        reveal_strlit("");
    }
    if v.as_str().unicode_len() == 0 {
        None
    } else {
        Some(v)
    }
}

/// The device a selection picks from the listed ones: the selection, trimmed,
/// read as a number (an optional `+` and decimal digits, as `usize` parses)
/// from 1 to the number of devices.
pub open spec fn picked_device(devices: Seq<Seq<char>>, selection: Seq<char>) -> Option<Seq<char>> {
    let t = trim_ws(selection);
    let d = if t.len() > 0 && t[0] == '+' {
        t.drop_first()
    } else {
        t
    };
    if d.len() > 0 && all_digits(d) && 1 <= decimal_value(d) <= devices.len() {
        Some(devices[decimal_value(d) - 1])
    } else {
        None
    }
}

/// Pick a device by its number in the list.
pub fn pick_listed_device(devices: &Vec<String>, selection: &str) -> (r: Option<String>)
    ensures
        match picked_device(devices.deep_view(), selection@) {
            Some(d) => r matches Some(x) && x@ == d,
            None => r is None,
        },
{
    let ghost dv = devices.deep_view();
    let cs = chars_of(selection);
    let t = trim_chars(&cs);
    let n = t.len();
    let start: usize = if n > 0 && t[0] == '+' {
        1
    } else {
        0
    };
    let ghost d = t@.subrange(start as int, n as int);
    assert(start == 1 ==> d =~= t@.drop_first());
    assert(start == 0 ==> d =~= t@);
    if start == n {
        return None;
    }
    let m = devices.len();
    assert(d.take(0) =~= Seq::<char>::empty());
    let mut v: usize = 0;
    let mut i: usize = start;
    while i < n
        invariant
            n == t@.len(),
            start <= 1,
            start <= i <= n,
            d == t@.subrange(start as int, n as int),
            all_digits(d.take(i - start)),
            v == decimal_value(d.take(i - start)),
            v <= m,
            m == dv.len(),
            dv == devices.deep_view(),
            t@ == trim_ws(selection@),
            start == 1 <==> (t@.len() > 0 && t@[0] == '+'),
            start == 1 ==> d =~= t@.drop_first(),
            start == 0 ==> d =~= t@,
        decreases n - i,
    {
        let c = t[i];
        if !('0' <= c && c <= '9') {
            proof {
                assert(d[i - start] == c);
            }
            return None;
        }
        let k: usize = i - start;
        proof {
            assert(d.take(k + 1).drop_last() =~= d.take(k as int));
            assert(d.take(k + 1).last() == c);
            assert(all_digits(d.take(k + 1))) by {
                assert forall|j: int| 0 <= j < k + 1 implies is_digit_char(#[trigger] d.take(k + 1)[j]) by {
                    if j < k {
                        assert(d.take(k + 1)[j] == d.take(k as int)[j]);
                    }
                }
            }
        }
        let dv_c = (c as u32 - '0' as u32) as u128;
        let w: u128 = (v as u128) * 10 + dv_c;
        if w > m as u128 {
            // the value already exceeds the number of devices
            proof {
                assert(decimal_value(d.take(k + 1)) == w);
                if all_digits(d) {
                    lemma_decimal_value_prefix(d, k + 1);
                }
            }
            return None;
        }
        v = w as usize;
        i = i + 1;
    }
    assert(d.take(n - start) =~= d);
    if v >= 1 {
        Some(devices[v - 1].clone())
    } else {
        None
    }
}


/// The actions of the collector's main menu.
#[derive(Debug, Clone, Copy, PartialEq, Eq, Structural)]
pub enum MenuChoice {
    CollectQnx,
    CollectAndroid,
    GenerateReport,
    ListSessions,
    Exit,
    ToggleStreaming,
    CollectBoth,
    Invalid,
}

/// The action a menu answer selects, by its trimmed text: `1`, `2`, `3`,
/// `4`, `5`, `6` or `7`; anything else is invalid.
pub open spec fn menu_choice_of(input: Seq<char>) -> MenuChoice {
    let t = trim_ws(input);
    if t == "1"@ {
        MenuChoice::CollectQnx
    } else if t == "2"@ {
        MenuChoice::CollectAndroid
    } else if t == "7"@ {
        MenuChoice::CollectBoth
    } else if t == "3"@ {
        MenuChoice::GenerateReport
    } else if t == "4"@ {
        MenuChoice::ListSessions
    } else if t == "6"@ {
        MenuChoice::ToggleStreaming
    } else if t == "5"@ {
        MenuChoice::Exit
    } else {
        MenuChoice::Invalid
    }
}

/// The menu action an answer selects.
pub fn menu_choice(input: &str) -> (r: MenuChoice)
    ensures
        r == menu_choice_of(input@),
{
    let t = trim_chars(&chars_of(input));
    if crate::text::same_chars(&t, &chars_of("1")) {
        MenuChoice::CollectQnx
    } else if crate::text::same_chars(&t, &chars_of("2")) {
        MenuChoice::CollectAndroid
    } else if crate::text::same_chars(&t, &chars_of("7")) {
        MenuChoice::CollectBoth
    } else if crate::text::same_chars(&t, &chars_of("3")) {
        MenuChoice::GenerateReport
    } else if crate::text::same_chars(&t, &chars_of("4")) {
        MenuChoice::ListSessions
    } else if crate::text::same_chars(&t, &chars_of("6")) {
        MenuChoice::ToggleStreaming
    } else if crate::text::same_chars(&t, &chars_of("5")) {
        MenuChoice::Exit
    } else {
        MenuChoice::Invalid
    }
}

/// The stored sessions listed newest first: the names sorted (as `String`s
/// sort), then reversed.
pub fn sessions_newest_first(names: &Vec<String>) -> (r: Vec<String>)
    ensures
        exists|ord: Seq<usize>|
            #[trigger] is_permutation(ord, names@.len()) && names_ascending(names.deep_view(), ord)
                && r.deep_view() == Seq::new(
                ord.len(),
                |a: int| names.deep_view()[ord[ord.len() - 1 - a] as int],
            ),
{
    let ord = stable_name_order(names);
    let n = ord.len();
    let ghost nv = names.deep_view();
    let mut r: Vec<String> = Vec::new();
    let mut a: usize = 0;
    while a < n
        invariant
            nv == names.deep_view(),
            n == ord@.len(),
            n == nv.len(),
            forall|t: int| 0 <= t < n ==> #[trigger] ord@[t] < n,
            a <= n,
            r.deep_view() =~= Seq::new(a as nat, |t: int| nv[ord@[n - 1 - t] as int]),
        decreases n - a,
    {
        let ghost before = r.deep_view();
        r.push(names[ord[n - 1 - a]].clone());
        assert(r.deep_view() =~= before.push(nv[ord@[n - 1 - a] as int]));
        a = a + 1;
    }
    assert(is_permutation(ord@, names@.len()));
    r
}

/// A device line of `adb devices -l`: not blank and not the
/// `List of devices` header, once trimmed.
pub open spec fn is_device_line(line: Seq<char>) -> bool {
    let t = trim_ws(line);
    t.len() > 0 && !(t.len() >= "List of devices"@.len() && t.take("List of devices"@.len() as int)
        == "List of devices"@)
}

/// The serials `adb devices -l` lists: the first token of each device line.
pub open spec fn device_serials(lines: Seq<Seq<char>>) -> Seq<Seq<char>>
    decreases lines.len(),
{
    if lines.len() == 0 {
        Seq::empty()
    } else {
        let rest = device_serials(lines.drop_last());
        if is_device_line(lines.last()) {
            rest.push(ws_tokens(trim_ws(lines.last()))[0])
        } else {
            rest
        }
    }
}

pub(crate) fn trim_chars(s: &Vec<char>) -> (r: Vec<char>)
    ensures
        r@ == trim_ws(s@),
{
    let n = s.len();
    let mut lo: usize = 0;
    assert(s@.subrange(0, n as int) =~= s@);
    while lo < n && is_whitespace(s[lo])
        invariant
            n == s@.len(),
            lo <= n,
            trim_start_ws(s@) == trim_start_ws(s@.subrange(lo as int, n as int)),
        decreases n - lo,
    {
        proof {
            assert(s@.subrange(lo as int, n as int).drop_first() =~= s@.subrange(lo + 1, n as int));
        }
        lo = lo + 1;
    }
    let ghost front = s@.subrange(lo as int, n as int);
    assert(trim_start_ws(s@) == front) by {
        if front.len() > 0 {
            assert(front[0] == s@[lo as int]);
        }
    }
    let mut hi: usize = n;
    assert(front.subrange(0, (n - lo) as int) =~= front);
    while hi > lo && is_whitespace(s[hi - 1])
        invariant
            n == s@.len(),
            lo <= hi <= n,
            front == s@.subrange(lo as int, n as int),
            trim_end_ws(front) == trim_end_ws(s@.subrange(lo as int, hi as int)),
        decreases hi - lo,
    {
        proof {
            let t = s@.subrange(lo as int, hi as int);
            assert(t.last() == s@[hi - 1]);
            assert(t.drop_last() =~= s@.subrange(lo as int, hi - 1));
        }
        hi = hi - 1;
    }
    proof {
        let t = s@.subrange(lo as int, hi as int);
        if t.len() > 0 {
            assert(t.last() == s@[hi - 1]);
        }
        assert(trim_end_ws(t) == t);
    }
    let mut r: Vec<char> = Vec::new();
    let mut k: usize = lo;
    while k < hi
        invariant
            lo <= k <= hi,
            hi <= n,
            n == s@.len(),
            r@ =~= s@.subrange(lo as int, k as int),
        decreases hi - k,
    {
        r.push(s[k]);
        k = k + 1;
    }
    r
}

/// The device serials in the output lines of `adb devices -l`.
pub fn adb_device_serials(lines: &Vec<String>) -> (r: Vec<String>)
    ensures
        r.deep_view() == device_serials(lines.deep_view()),
{
    let ghost lv = lines.deep_view();
    let header = chars_of("List of devices");
    let n = lines.len();
    let mut r: Vec<String> = Vec::new();
    let mut i: usize = 0;
    while i < n
        invariant
            lv == lines.deep_view(),
            n == lv.len(),
            header@ == "List of devices"@,
            i <= n,
            r.deep_view() == device_serials(lv.take(i as int)),
        decreases n - i,
    {
        proof {
            assert(lv.take(i + 1).drop_last() =~= lv.take(i as int));
            assert(lv.take(i + 1).last() == lines@[i as int]@);
        }
        let cs = chars_of(lines[i].as_str());
        let t = trim_chars(&cs);
        let m = header.len();
        let mut is_header = false;
        if t.len() >= m {
            let mut pre: Vec<char> = Vec::new();
            let mut k: usize = 0;
            while k < m
                invariant
                    m <= t@.len(),
                    k <= m,
                    pre@ =~= t@.take(k as int),
                decreases m - k,
            {
                pre.push(t[k]);
                k = k + 1;
            }
            is_header = crate::text::same_chars(&pre, &header);
        }
        if t.len() > 0 && !is_header {
            let toks = split_ws(&t);
            proof {
                lemma_trim_ends(cs@);
                lemma_trimmed_has_token(t@);
            }
            let first = &toks[0];
            let ghost old = r.deep_view();
            r.push(string_of(first));
            assert(toks.deep_view()[0] =~= first@);
            assert(r.deep_view() =~= old.push(ws_tokens(t@)[0]));
        }
        i = i + 1;
    }
    assert(lv.take(n as int) =~= lv);
    r
}

/// A text that starts with a non-whitespace character has a first token.
proof fn lemma_trimmed_has_token(t: Seq<char>)
    requires
        t.len() > 0,
        !is_ws(t[0]),
    ensures
        ws_tokens(t).len() > 0,
{
    lemma_scan_nonempty(t);
}

proof fn lemma_scan_nonempty(t: Seq<char>)
    requires
        t.len() > 0,
        !is_ws(t[0]),
    ensures
        ws_scan(t).0.len() > 0 || ws_scan(t).1.len() > 0,
    decreases t.len(),
{
    if t.len() > 1 {
        lemma_scan_nonempty(t.drop_last());
    } else {
        assert(t.drop_last() =~= Seq::<char>::empty());
    }
}

proof fn lemma_trim_ends(s: Seq<char>)
    ensures
        trim_ws(s).len() > 0 ==> !is_ws(trim_ws(s)[0]),
{
    lemma_trim_start(s);
    lemma_trim_end_prefix(trim_start_ws(s));
}

proof fn lemma_trim_start(s: Seq<char>)
    ensures
        trim_start_ws(s).len() > 0 ==> !is_ws(trim_start_ws(s)[0]),
    decreases s.len(),
{
    if s.len() > 0 && is_ws(s[0]) {
        lemma_trim_start(s.drop_first());
    }
}

/// Trimming the end keeps a prefix.
proof fn lemma_trim_end_prefix(s: Seq<char>)
    ensures
        trim_end_ws(s).len() <= s.len(),
        forall|i: int| 0 <= i < trim_end_ws(s).len() ==> trim_end_ws(s)[i] == s[i],
    decreases s.len(),
{
    if s.len() > 0 && is_ws(s.last()) {
        lemma_trim_end_prefix(s.drop_last());
        assert forall|i: int| 0 <= i < s.drop_last().len() implies s.drop_last()[i] == s[i] by {}
    }
}

} // verus!
