//! Line-level parsing of system logs, CAN ASCII logs and Ethernet text logs
//! into entries and frames. Reading the files is left to the caller.

use vstd::prelude::*;
use crate::text::pow10;
use vstd::utf8::encode_utf8;
use crate::models::{CanFrame, CanFrameView, Domain, EthFrame, EthFrameView, LogEntry, LogEntryView};
use crate::reporter::joined;
use crate::text::{all_digits, decimal_value};
use crate::text::{
    chars_of, lower_text, parse_i64, push_str, same_chars, spec_parse_i64, split_ws, string_of, to_lowercase,
    ws_tokens,
};

verus! {

/// The first run of 9 to 13 digits in a line: what the regex `(\d{9,13})`
/// captures (Unicode digits, leftmost match).
pub uninterp spec fn digit_run(line: Seq<char>) -> Option<Seq<char>>;

/// The first timestamp-like token of a CAN line: what the regex
/// `(\d+\.\d+|\d{9,13})` captures.
pub uninterp spec fn can_number(line: Seq<char>) -> Option<Seq<char>>;

/// The CAN id and payload of a line: the two groups the regex
/// `([0-9A-Fa-f]+)#([0-9A-Fa-f]+)` captures.
pub uninterp spec fn can_id_data(line: Seq<char>) -> Option<(Seq<char>, Seq<char>)>;

/// The CPU percentage text of a message: group 1 of the regex
/// `(?i)\b(?:cpu[:=]\s*|cpu%[:=]\s*)([0-9]+(?:\.[0-9]+)?)%?`.
pub uninterp spec fn cpu_token(msg: Seq<char>) -> Option<Seq<char>>;

/// The memory text of a message and its unit: groups 1 and 2 of the regex
/// `(?i)\b(?:mem[:=]\s*|mem_mb[:=]\s*|rss[:=]\s*)([0-9]+(?:\.[0-9]+)?)\s*(mb|gb)?`.
pub uninterp spec fn mem_token(msg: Seq<char>) -> Option<(Seq<char>, Option<Seq<char>>)>;

/// Calls `regex::Regex::captures` with the pattern `(\d{9,13})` and takes
/// group 1. Claimed: the result is `digit_run` of the line, and a token has
/// 9 to 13 characters (the pattern's repetition bounds).
#[verifier::external_body]
fn find_digit_run(line: &str) -> (r: Option<String>)
    ensures
        r matches Some(t) ==> digit_run(line@) == Some(t@) && 9 <= t@.len() <= 13,
        r is None ==> digit_run(line@) is None,
{
    let re = regex::Regex::new(r"(\d{9,13})").ok()?;
    let caps = re.captures(line)?;
    caps.get(1).map(|m| m.as_str().to_string())
}

/// Calls `regex::Regex::captures` with the pattern `(\d+\.\d+|\d{9,13})` and
/// takes group 1. Claimed: the result is `can_number` of the line, and a
/// token without a `.` has 9 to 13 characters (the second alternative).
#[verifier::external_body]
fn find_can_number(line: &str) -> (r: Option<String>)
    ensures
        r matches Some(t) ==> can_number(line@) == Some(t@) && (t@.contains('.') || 9 <= t@.len()
            <= 13),
        r is None ==> can_number(line@) is None,
{
    let re = regex::Regex::new(r"(\d+\.\d+|\d{9,13})").ok()?;
    let caps = re.captures(line)?;
    caps.get(1).map(|m| m.as_str().to_string())
}

/// Calls `regex::Regex::captures` with `([0-9A-Fa-f]+)#([0-9A-Fa-f]+)` and
/// takes groups 1 and 2. Claimed: the result is `can_id_data` of the line.
#[verifier::external_body]
fn find_can_id_data(line: &str) -> (r: Option<(String, String)>)
    ensures
        r matches Some(p) ==> can_id_data(line@) == Some((p.0@, p.1@)),
        r is None ==> can_id_data(line@) is None,
{
    let re = regex::Regex::new(r"([0-9A-Fa-f]+)#([0-9A-Fa-f]+)").ok()?;
    let caps = re.captures(line)?;
    Some((caps.get(1)?.as_str().to_string(), caps.get(2)?.as_str().to_string()))
}

/// Calls `regex::Regex::captures` with the CPU pattern of `cpu_token` and
/// takes group 1. Claimed: the result is `cpu_token` of the message.
#[verifier::external_body]
fn find_cpu(msg: &str) -> (r: Option<String>)
    ensures
        r matches Some(t) ==> cpu_token(msg@) == Some(t@),
        r is None ==> cpu_token(msg@) is None,
{
    let re = regex::Regex::new(r"(?i)\b(?:cpu[:=]\s*|cpu%[:=]\s*)([0-9]+(?:\.[0-9]+)?)%?").ok()?;
    let caps = re.captures(msg)?;
    caps.get(1).map(|m| m.as_str().to_string())
}

/// Calls `regex::Regex::captures` with the memory pattern of `mem_token` and
/// takes groups 1 and 2. Claimed: the result is `mem_token` of the message.
#[verifier::external_body]
fn find_mem(msg: &str) -> (r: Option<(String, Option<String>)>)
    ensures
        r matches Some(p) ==> mem_token(msg@) == Some(
            (p.0@, match p.1 {
                Some(u) => Some(u@),
                None => None,
            }),
        ),
        r is None ==> mem_token(msg@) is None,
{
    let re = regex::Regex::new(
        r"(?i)\b(?:mem[:=]\s*|mem_mb[:=]\s*|rss[:=]\s*)([0-9]+(?:\.[0-9]+)?)\s*(mb|gb)?",
    ).ok()?;
    let caps = re.captures(msg)?;
    let num = caps.get(1)?.as_str().to_string();
    Some((num, caps.get(2).map(|m| m.as_str().to_string())))
}

/// Latest value `chrono` can give for `Utc::now().timestamp_millis()`: the
/// last millisecond of year 262142, the end of its date range.
pub open spec fn max_now_ms() -> int {
    8210266876799999
}

/// Calls `chrono::Utc::now().timestamp_millis()`. Claimed: the value lies in
/// `[0, max_now_ms()]` (chrono's `Utc::now` panics before the epoch and
/// builds a `DateTime` within its date range); which value comes back depends
/// on the clock and is not stated.
#[verifier::external_body]
fn now_millis() -> (r: i64)
    ensures
        0 <= r <= max_now_ms(),
{
    chrono::Utc::now().timestamp_millis()
}

/// The `n`th token, or `dflt` when there are fewer.
pub open spec fn nth_or(toks: Seq<Seq<char>>, n: int, dflt: Seq<char>) -> Seq<char> {
    if n < toks.len() {
        toks[n]
    } else {
        dflt
    }
}

/// Byte length (UTF-8) of a text.
pub open spec fn byte_len(t: Seq<char>) -> int {
    encode_utf8(t).len() as int
}

/// Millisecond timestamp of a system log line, given the clock reading used
/// when the line has no usable timestamp: a token of 13 or more bytes is
/// taken as milliseconds, a shorter one is padded to 13 digits (scaled by ten
/// for each missing digit, so a 10-digit token of seconds is multiplied by
/// 1000); a token that does not parse falls back to the clock, which already
/// reads milliseconds.
pub open spec fn log_line_time(line: Seq<char>, now: i64) -> int {
    match digit_run(line) {
        None => now as int,
        Some(t) => match spec_parse_i64(t) {
            None => now as int,
            Some(x) => if byte_len(t) >= 13 {
                x as int
            } else {
                x * pow10((13 - byte_len(t)) as nat)
            },
        },
    }
}

/// The entry a system log line gives.
pub open spec fn log_entry_of(line: Seq<char>, domain: Domain, now: i64) -> LogEntryView {
    LogEntryView {
        timestamp: log_line_time(line, now) as i64,
        domain,
        process: nth_or(ws_tokens(line), 2, "unknown"@),
        message: line,
    }
}

/// A parsed value of at most `n` characters stays below `10^n`.
proof fn lemma_parse_bound(t: Seq<char>)
    requires
        t.len() <= 13,
        spec_parse_i64(t) is Some,
    ensures
        -10_000_000_000_000 < spec_parse_i64(t)->0 < 10_000_000_000_000,
        -pow10(byte_len(t) as nat) < spec_parse_i64(t)->0 < pow10(byte_len(t) as nat),
{
    let d = if t.len() > 0 && (t[0] == '-' || t[0] == '+') {
        t.drop_first()
    } else {
        t
    };
    crate::text::lemma_decimal_value_bound(d);
    crate::text::lemma_decimal_value_nonneg(d);
    lemma_pow10_mono(d.len(), 13);
    lemma_byte_len_at_least_chars(t);
    lemma_pow10_mono(d.len(), byte_len(t) as nat);
}

/// Every character takes at least one byte.
proof fn lemma_byte_len_at_least_chars(t: Seq<char>)
    ensures
        byte_len(t) >= t.len(),
    decreases t.len(),
{
    if t.len() > 0 {
        lemma_byte_len_at_least_chars(t.drop_first());
        assert(encode_utf8(t) == vstd::utf8::encode_scalar(t[0] as u32) + encode_utf8(
            t.drop_first(),
        ));
    }
}

proof fn lemma_pow10_mono(a: nat, b: nat)
    requires
        a <= b,
    ensures
        crate::text::pow10(a) <= crate::text::pow10(b),
        crate::text::pow10(13) == 10_000_000_000_000,
    decreases b,
{
    reveal_with_fuel(crate::text::pow10, 14);
    if a < b {
        lemma_pow10_mono(a, (b - 1) as nat);
        lemma_pow10_pos((b - 1) as nat);
    }
}

proof fn lemma_pow10_pos(n: nat)
    ensures
        crate::text::pow10(n) >= 1,
    decreases n,
{
    if n > 0 {
        lemma_pow10_pos((n - 1) as nat);
    }
}

fn nth_token_or(toks: &Vec<Vec<char>>, n: usize, dflt: &str) -> (r: String)
    ensures
        r@ == nth_or(toks.deep_view(), n as int, dflt@),
{
    if n < toks.len() {
        let t = &toks[n];
        assert(toks.deep_view()[n as int] =~= t@);
        string_of(t)
    } else {
        let d = chars_of(dflt);
        string_of(&d)
    }
}

/// The byte length of a string, as `str::len` gives it.
fn utf8_len(s: &String) -> (n: usize)
    ensures
        n == byte_len(s@),
{
    s.as_str().as_bytes().len()
}

/// The entry of one system log line, given the clock reading to fall back on.
pub fn log_entry_from_line(line: &str, domain: Domain, now_ms: i64) -> (e: LogEntry)
    requires
        0 <= now_ms <= max_now_ms(),
    ensures
        e@ == log_entry_of(line@, domain, now_ms),
{
    let timestamp: i64 = match find_digit_run(line) {
        None => now_ms,
        Some(t) => match parse_i64(t.as_str()) {
            None => now_ms,
            Some(x) => {
                proof {
                    lemma_parse_bound(t@);
                }
                let blen = utf8_len(&t);
                if blen >= 13 {
                    x
                } else {
                    // pad to 13 digits: one factor of ten per missing digit
                    let mut val: i64 = x;
                    let mut k: usize = blen;
                    proof {
                        lemma_byte_len_at_least_chars(t@);
                        assert(pow10(0) == 1);
                    }
                    while k < 13
                        invariant
                            blen <= k <= 13,
                            blen == byte_len(t@),
                            val == x * pow10((k - blen) as nat),
                            -pow10(k as nat) < val < pow10(k as nat),
                        decreases 13 - k,
                    {
                        proof {
                            lemma_pow10_mono(k as nat, 12);
                            assert(pow10((k + 1 - blen) as nat) == 10 * pow10((k - blen) as nat));
                            let a = pow10((k - blen) as nat);
                            let b = pow10((k + 1 - blen) as nat);
                            assert(x * b == (x * a) * 10) by (nonlinear_arith)
                                requires
                                    b == 10 * a,
                            ;
                        }
                        val = val * 10;
                        k = k + 1;
                    }
                    val
                }
            },
        },
    };
    let cs = chars_of(line);
    let toks = split_ws(&cs);
    let process = nth_token_or(&toks, 2, "unknown");
    let message = string_of(&cs);
    LogEntry { timestamp, domain, process, message }
}

/// `e` is the entry of `line` for some reading of the clock.
pub open spec fn entry_of_line(e: LogEntryView, line: Seq<char>, domain: Domain) -> bool {
    exists|now: i64| 0 <= now <= max_now_ms() && e == log_entry_of(line, domain, now)
}

/// Parse the lines of a system log into entries, one per line, in order.
/// A line's timestamp is fixed by its text except where it falls back on the
/// clock, whose reading is not stated.
pub fn parse_log_lines(lines: &Vec<String>, domain: Domain) -> (entries: Vec<LogEntry>)
    ensures
        entries@.len() == lines@.len(),
        forall|i: int|
            0 <= i < lines@.len() ==> entry_of_line(#[trigger] entries@[i]@, lines@[i]@, domain),
{
    let mut entries: Vec<LogEntry> = Vec::new();
    let n = lines.len();
    let mut i: usize = 0;
    while i < n
        invariant
            n == lines@.len(),
            i <= n,
            entries@.len() == i,
            forall|k: int|
                0 <= k < i ==> entry_of_line(#[trigger] entries@[k]@, lines@[k]@, domain),
        decreases n - i,
    {
        let now = now_millis();
        let e = log_entry_from_line(lines[i].as_str(), domain, now);
        let ghost old = entries@;
        entries.push(e);
        proof {
            assert forall|k: int| 0 <= k < i + 1 implies entry_of_line(
                #[trigger] entries@[k]@,
                lines@[k]@,
                domain,
            ) by {
                if k < i {
                    assert(entries@[k] == old[k]);
                } else {
                    assert(entries@[k]@ == log_entry_of(lines@[k]@, domain, now));
                }
            }
        }
        i = i + 1;
    }
    entries
}

/// How a CAN line's timestamp reads: whole milliseconds, or decimal seconds
/// text (converted to milliseconds by the caller, in floating point).
#[derive(Debug)]
pub enum CanTime {
    Millis(i64),
    Seconds(String),
}

/// Milliseconds of an integer CAN timestamp token: 13 or more bytes as
/// milliseconds, 10 bytes as seconds, others as they are; an unparsable
/// token falls back to the clock (scaled likewise).
pub open spec fn can_token_ms(t: Seq<char>, now: i64) -> int {
    let v: int = match spec_parse_i64(t) {
        Some(x) => x as int,
        None => now as int,
    };
    if byte_len(t) >= 13 {
        v
    } else if byte_len(t) == 10 {
        v * 1000
    } else {
        v
    }
}

/// The timestamp a CAN line gives, given the clock reading to fall back on.
pub open spec fn can_time_ok(r: CanTime, line: Seq<char>, now: i64) -> bool {
    match can_number(line) {
        None => r == CanTime::Millis(now),
        Some(t) => if t.contains('.') {
            r matches CanTime::Seconds(s) && s@ == t
        } else {
            r == CanTime::Millis(can_token_ms(t, now) as i64)
        },
    }
}

fn has_dot(t: &Vec<char>) -> (b: bool)
    ensures
        b == t@.contains('.'),
{
    let n = t.len();
    let mut k: usize = 0;
    while k < n
        invariant
            n == t@.len(),
            k <= n,
            forall|j: int| 0 <= j < k ==> t@[j] != '.',
        decreases n - k,
    {
        if t[k] == '.' {
            assert(t@[k as int] == '.');
            return true;
        }
        k = k + 1;
    }
    false
}

/// The timestamp of a CAN line, given the clock reading to fall back on.
pub fn can_line_time(line: &str, now_ms: i64) -> (r: CanTime)
    requires
        0 <= now_ms <= max_now_ms(),
    ensures
        can_time_ok(r, line@, now_ms),
{
    match find_can_number(line) {
        None => CanTime::Millis(now_ms),
        Some(t) => {
            let cs = chars_of(t.as_str());
            if has_dot(&cs) {
                CanTime::Seconds(t)
            } else {
                let v = match parse_i64(t.as_str()) {
                    Some(x) => {
                        proof {
                            lemma_parse_bound(t@);
                        }
                        x
                    },
                    None => now_ms,
                };
                let blen = utf8_len(&t);
                if blen >= 13 {
                    CanTime::Millis(v)
                } else if blen == 10 {
                    CanTime::Millis(v * 1000)
                } else {
                    CanTime::Millis(v)
                }
            }
        },
    }
}

/// The timestamp of a CAN line, reading the clock for the fallback; the
/// reading is not stated.
pub fn can_time_of_line(line: &str) -> (r: CanTime)
    ensures
        exists|now: i64| 0 <= now <= max_now_ms() && can_time_ok(r, line@, now),
{
    let now = now_millis();
    can_line_time(line, now)
}

/// A direction column of a Vector ASC line: `Rx` or `Tx`, in either case.
pub open spec fn is_dir_token(t: Seq<char>) -> bool {
    t.len() == 2 && (t[0] == 'R' || t[0] == 'r' || t[0] == 'T' || t[0] == 't') && (t[1] == 'x'
        || t[1] == 'X')
}

/// A Vector CANoe ASCII frame line: `<time> <channel> <id> <Rx|Tx> ...`.
pub open spec fn is_vector_line(toks: Seq<Seq<char>>) -> bool {
    toks.len() >= 4 && is_dir_token(toks[3])
}

/// How many data columns a Vector frame line announces, capped at those it
/// has: when the fifth column is `d`, the sixth is the byte count (decimal
/// digits); otherwise none.
pub open spec fn vector_data_count(toks: Seq<Seq<char>>) -> int {
    if toks.len() >= 6 && toks[4].len() == 1 && toks[4][0] == 'd' && toks[5].len() > 0
        && all_digits(toks[5]) {
        if decimal_value(toks[5]) <= toks.len() - 6 {
            decimal_value(toks[5])
        } else {
            toks.len() - 6
        }
    } else {
        0
    }
}

/// The payload of a Vector frame line: its data columns, joined.
pub open spec fn vector_data(toks: Seq<Seq<char>>) -> Seq<char> {
    if vector_data_count(toks) == 0 {
        Seq::empty()
    } else {
        joined(toks.subrange(6, 6 + vector_data_count(toks)))
    }
}

/// The frame of a CAN ASCII log line at `timestamp`: its second token as
/// channel (`can0` when missing); the id and data of an `ID#DATA` group, or
/// else, on a Vector CANoe line, its id and data columns (`unknown` and empty
/// otherwise); and, on a Vector line, its direction column (`Rx`/`Tx`),
/// else `-`.
pub open spec fn can_frame_of(line: Seq<char>, timestamp: i64) -> CanFrameView {
    let toks = ws_tokens(line);
    let vector = is_vector_line(toks);
    let idd = can_id_data(line);
    CanFrameView {
        timestamp,
        channel: nth_or(toks, 1, "can0"@),
        id: match idd {
            Some(p) => p.0,
            None => if vector {
                toks[2]
            } else {
                "unknown"@
            },
        },
        data: match idd {
            Some(p) => p.1,
            None => if vector {
                vector_data(toks)
            } else {
                Seq::empty()
            },
        },
        direction: if vector {
            toks[3]
        } else {
            "-"@
        },
        raw: line,
    }
}

fn is_dir(t: &Vec<char>) -> (b: bool)
    ensures
        b == is_dir_token(t@),
{
    t.len() == 2 && (t[0] == 'R' || t[0] == 'r' || t[0] == 'T' || t[0] == 't') && (t[1] == 'x'
        || t[1] == 'X')
}

/// The number of data columns of a Vector frame line.
fn data_count(toks: &Vec<Vec<char>>) -> (n: usize)
    requires
        is_vector_line(toks.deep_view()),
    ensures
        n == vector_data_count(toks.deep_view()),
{
    let ghost tv = toks.deep_view();
    let len = toks.len();
    if len < 6 {
        return 0;
    }
    proof {
        assert(tv[4] == toks@[4]@);
        assert(tv[5] == toks@[5]@);
    }
    if !(toks[4].len() == 1 && toks[4][0] == 'd') {
        return 0;
    }
    let c = &toks[5];
    let m = c.len();
    if m == 0 {
        return 0;
    }
    let cap = len - 6;
    let mut v: u128 = 0;
    let mut i: usize = 0;
    let mut capped = false;
    while i < m
        invariant
            tv == toks.deep_view(),
            c@ == tv[5],
            m == c@.len(),
            cap == tv.len() - 6,
            i <= m,
            all_digits(c@.take(i as int)),
            !capped ==> v == decimal_value(c@.take(i as int)) && v <= cap,
            capped ==> decimal_value(c@.take(i as int)) > cap,
        decreases m - i,
    {
        let ch = c[i];
        if !('0' <= ch && ch <= '9') {
            proof {
                assert(c@[i as int] == ch);
            }
            return 0;
        }
        proof {
            assert(c@.take(i + 1).drop_last() =~= c@.take(i as int));
            assert(c@.take(i + 1).last() == ch);
            assert(all_digits(c@.take(i + 1))) by {
                assert forall|j: int| 0 <= j < i + 1 implies crate::text::is_digit_char(
                    #[trigger] c@.take(i + 1)[j],
                ) by {
                    if j < i {
                        assert(c@.take(i + 1)[j] == c@.take(i as int)[j]);
                    }
                }
            }
            crate::text::lemma_decimal_value_nonneg(c@.take(i as int));
        }
        if !capped {
            let w: u128 = v * 10 + (ch as u32 - '0' as u32) as u128;
            if w > cap as u128 {
                capped = true;
            } else {
                v = w;
            }
        } else {
            proof {
                crate::text::lemma_decimal_value_nonneg(c@.take(i as int));
                assert(decimal_value(c@.take(i + 1)) >= decimal_value(c@.take(i as int)) * 10) ;
            }
        }
        i = i + 1;
    }
    assert(c@.take(m as int) =~= c@);
    if capped {
        cap
    } else {
        v as usize
    }
}

/// The data columns of a Vector frame line, joined.
fn vector_payload(toks: &Vec<Vec<char>>) -> (data: Vec<char>)
    requires
        is_vector_line(toks.deep_view()),
    ensures
        data@ == vector_data(toks.deep_view()),
{
    let ghost tv = toks.deep_view();
    let n = data_count(toks);
    let len = toks.len();
    let mut data: Vec<char> = Vec::new();
    let mut k: usize = 0;
    while k < n
        invariant
            tv == toks.deep_view(),
            n == vector_data_count(tv),
            tv.len() == toks@.len(),
            len == tv.len(),
            6 + n <= tv.len() || n == 0,
            k <= n,
            k == 0 ==> data@ == Seq::<char>::empty(),
            k > 0 ==> data@ == joined(tv.subrange(6, 6 + k as int)),
        decreases n - k,
    {
        proof {
            assert(tv.subrange(6, 6 + k + 1).drop_last() =~= tv.subrange(6, 6 + k as int));
            if k == 0 {
                assert(tv.subrange(6, 6) =~= Seq::<Seq<char>>::empty());
            }
            assert(tv.subrange(6, 6 + k + 1).last() == toks@[6 + k]@);
        }
        let mut piece = toks[6 + k].clone();
        data.append(&mut piece);
        k = k + 1;
    }
    data
}

/// The frame of one CAN ASCII log line at `timestamp`.
pub fn can_frame_from_line(line: &str, timestamp: i64) -> (f: CanFrame)
    ensures
        f@ == can_frame_of(line@, timestamp),
{
    let cs = chars_of(line);
    let toks = split_ws(&cs);
    let ghost tv = toks.deep_view();
    let vector = toks.len() >= 4 && is_dir(&toks[3]);
    proof {
        if toks.len() >= 4 {
            assert(tv[3] == toks@[3]@);
            assert(tv[2] == toks@[2]@);
        }
    }
    let channel = nth_token_or(&toks, 1, "can0");
    let (id, data) = match find_can_id_data(line) {
        Some((a, b)) => (a, b),
        None => {
            if vector {
                let d = vector_payload(&toks);
                (string_of(&toks[2]), string_of(&d))
            } else {
                let u = chars_of("unknown");
                let e: Vec<char> = Vec::new();
                (string_of(&u), string_of(&e))
            }
        },
    };
    let direction = if vector {
        string_of(&toks[3])
    } else {
        let dash = chars_of("-");
        string_of(&dash)
    };
    CanFrame { timestamp, channel, id, data, direction, raw: string_of(&cs) }
}

/// Millisecond timestamp of an Ethernet log line: a 10-byte token is taken
/// as seconds, any other as milliseconds; no token, or one that does not
/// parse, falls back to the clock.
pub open spec fn eth_line_time(line: Seq<char>, now: i64) -> int {
    match digit_run(line) {
        None => now as int,
        Some(t) => match spec_parse_i64(t) {
            Some(x) => if byte_len(t) == 10 {
                x * 1000
            } else {
                x as int
            },
            None => now as int,
        },
    }
}

/// Tokens joined with single spaces.
pub open spec fn join_space(toks: Seq<Seq<char>>) -> Seq<char>
    decreases toks.len(),
{
    if toks.len() == 0 {
        Seq::empty()
    } else if toks.len() == 1 {
        toks[0]
    } else {
        join_space(toks.drop_last()) + " "@ + toks.last()
    }
}

/// The frame an Ethernet text line gives: interface is the second token
/// (`eth0` if none), direction the third (`-` if none), summary the rest
/// joined by spaces.
pub open spec fn eth_frame_of(line: Seq<char>, now: i64) -> EthFrameView {
    let toks = ws_tokens(line);
    EthFrameView {
        timestamp: eth_line_time(line, now) as i64,
        iface: nth_or(toks, 1, "eth0"@),
        direction: nth_or(toks, 2, "-"@),
        summary: if toks.len() >= 3 {
            join_space(toks.skip(3))
        } else {
            Seq::empty()
        },
        raw: line,
    }
}

fn join_from(toks: &Vec<Vec<char>>, start: usize) -> (r: Vec<char>)
    requires
        start <= toks@.len(),
    ensures
        r@ == join_space(toks.deep_view().skip(start as int)),
{
    let ghost tv = toks.deep_view();
    let n = toks.len();
    let mut out: Vec<char> = Vec::new();
    let mut k: usize = start;
    while k < n
        invariant
            tv == toks.deep_view(),
            n == tv.len(),
            start <= k <= n,
            out@ == join_space(tv.subrange(start as int, k as int)),
        decreases n - k,
    {
        let ghost sub = tv.subrange(start as int, k + 1);
        assert(sub.drop_last() =~= tv.subrange(start as int, k as int));
        assert(tv[k as int] =~= toks@[k as int]@);
        if k > start {
            push_str(&mut out, " ");
        }
        let mut piece: Vec<char> = Vec::new();
        let t = &toks[k];
        let m = t.len();
        let mut j: usize = 0;
        while j < m
            invariant
                m == t@.len(),
                j <= m,
                piece@ =~= t@.take(j as int),
            decreases m - j,
        {
            piece.push(t[j]);
            j = j + 1;
        }
        assert(piece@ =~= t@);
        out.append(&mut piece);
        proof {
            if k == start {
                assert(sub.len() == 1);
                assert(out@ =~= sub[0]);
            }
        }
        k = k + 1;
    }
    assert(tv.subrange(start as int, n as int) =~= tv.skip(start as int));
    out
}

/// The frame of one Ethernet text log line, given the clock reading to fall
/// back on.
pub fn eth_frame_from_line(line: &str, now_ms: i64) -> (f: EthFrame)
    requires
        0 <= now_ms <= max_now_ms(),
    ensures
        f@ == eth_frame_of(line@, now_ms),
{
    let timestamp: i64 = match find_digit_run(line) {
        None => now_ms,
        Some(t) => match parse_i64(t.as_str()) {
            Some(x) => {
                proof {
                    lemma_parse_bound(t@);
                }
                if utf8_len(&t) == 10 {
                    x * 1000
                } else {
                    x
                }
            },
            None => now_ms,
        },
    };
    let cs = chars_of(line);
    let toks = split_ws(&cs);
    let iface = nth_token_or(&toks, 1, "eth0");
    let direction = nth_token_or(&toks, 2, "-");
    let summary = if toks.len() >= 3 {
        join_from(&toks, 3)
    } else {
        Vec::new()
    };
    EthFrame { timestamp, iface, direction, summary: string_of(&summary), raw: string_of(&cs) }
}

/// `e` is the frame of `line` for some reading of the clock.
pub open spec fn eth_frame_of_line(f: EthFrameView, line: Seq<char>) -> bool {
    exists|now: i64| 0 <= now <= max_now_ms() && f == eth_frame_of(line, now)
}

/// Parse the lines of an Ethernet text log into frames, one per line.
pub fn parse_eth_lines(lines: &Vec<String>) -> (frames: Vec<EthFrame>)
    ensures
        frames@.len() == lines@.len(),
        forall|i: int|
            0 <= i < lines@.len() ==> eth_frame_of_line(#[trigger] frames@[i]@, lines@[i]@),
{
    let mut frames: Vec<EthFrame> = Vec::new();
    let n = lines.len();
    let mut i: usize = 0;
    while i < n
        invariant
            n == lines@.len(),
            i <= n,
            frames@.len() == i,
            forall|k: int| 0 <= k < i ==> eth_frame_of_line(#[trigger] frames@[k]@, lines@[k]@),
        decreases n - i,
    {
        let now = now_millis();
        let f = eth_frame_from_line(lines[i].as_str(), now);
        let ghost old = frames@;
        frames.push(f);
        proof {
            assert forall|k: int| 0 <= k < i + 1 implies eth_frame_of_line(
                #[trigger] frames@[k]@,
                lines@[k]@,
            ) by {
                if k < i {
                    assert(frames@[k] == old[k]);
                } else {
                    assert(frames@[k]@ == eth_frame_of(lines@[k]@, now));
                }
            }
        }
        i = i + 1;
    }
    frames
}

/// The path names a packet capture: it ends in `.pcapng` or `.pcap`.
pub open spec fn is_capture_name(path: Seq<char>) -> bool {
    path.len() >= 7 && path.skip(path.len() - 7) == ".pcapng"@ || path.len() >= 5 && path.skip(
        path.len() - 5,
    ) == ".pcap"@
}

fn ends_with_lit(s: &Vec<char>, lit: &str) -> (b: bool)
    ensures
        b == (s@.len() >= lit@.len() && s@.skip(s@.len() - lit@.len()) == lit@),
{
    let t = chars_of(lit);
    let n = s.len();
    let m = t.len();
    if m > n {
        return false;
    }
    let mut k: usize = 0;
    while k < m
        invariant
            n == s@.len(),
            m == t@.len(),
            t@ == lit@,
            m <= n,
            k <= m,
            forall|j: int| 0 <= j < k ==> s@[n - m + j] == t@[j],
        decreases m - k,
    {
        if s[n - m + k] != t[k] {
            assert(s@.skip(n - m)[k as int] != t@[k as int]);
            return false;
        }
        k = k + 1;
    }
    assert(s@.skip(n - m) =~= t@);
    true
}

/// Whether a path names a packet capture (`.pcapng` or `.pcap`).
pub fn is_capture_path(path: &str) -> (b: bool)
    ensures
        b == is_capture_name(path@),
{
    proof {
        reveal_strlit(".pcapng");
        reveal_strlit(".pcap");
    }
    let cs = chars_of(path);
    ends_with_lit(&cs, ".pcapng") || ends_with_lit(&cs, ".pcap")
}

/// The load figures a message mentions, as text: CPU percentage, memory
/// amount, and whether the memory is given in GB.
#[derive(Debug)]
pub struct LoadTokens {
    pub timestamp: i64,
    pub cpu: Option<String>,
    pub mem: Option<String>,
    pub mem_in_gb: bool,
}

/// The load figures of an entry, when it mentions any.
pub open spec fn load_tokens_ok(r: LoadTokens, e: LogEntryView) -> bool {
    &&& r.timestamp == e.timestamp
    &&& match cpu_token(e.message) {
        Some(c) => r.cpu matches Some(x) && x@ == c,
        None => r.cpu is None,
    }
    &&& match mem_token(e.message) {
        Some(m) => r.mem matches Some(x) && x@ == m.0 && r.mem_in_gb == (match m.1 {
            Some(u) => lower_text(u) == "gb"@,
            None => false,
        }),
        None => r.mem is None && !r.mem_in_gb,
    }
}

pub open spec fn mentions_load(e: LogEntryView) -> bool {
    cpu_token(e.message) is Some || mem_token(e.message) is Some
}

/// The entries that mention load, in order.
pub open spec fn load_entries(es: Seq<LogEntryView>) -> Seq<LogEntryView>
    decreases es.len(),
{
    if es.len() == 0 {
        Seq::empty()
    } else {
        let rest = load_entries(es.drop_last());
        if mentions_load(es.last()) {
            rest.push(es.last())
        } else {
            rest
        }
    }
}

fn is_gb(u: &String) -> (b: bool)
    ensures
        b == (lower_text(u@) == "gb"@),
{
    let l = to_lowercase(u.as_str());
    let g = chars_of("gb");
    same_chars(&l, &g)
}

/// Extract the CPU and memory figures (as text) of the entries that mention
/// any, in order: `CPU: 12.3%`, `cpu=12%`, `Mem: 123MB`, `rss=1GB` and the like.
pub fn load_sample_tokens(entries: &[LogEntry]) -> (r: Vec<LoadTokens>)
    ensures
        r@.len() == load_entries(entries.deep_view()).len(),
        forall|i: int|
            0 <= i < r@.len() ==> load_tokens_ok(#[trigger] r@[i], load_entries(entries.deep_view())[i]),
{
    let ghost es = entries.deep_view();
    let n = entries.len();
    let mut r: Vec<LoadTokens> = Vec::new();
    let mut i: usize = 0;
    while i < n
        invariant
            es == entries.deep_view(),
            n == es.len(),
            i <= n,
            r@.len() == load_entries(es.take(i as int)).len(),
            forall|k: int|
                0 <= k < r@.len() ==> load_tokens_ok(#[trigger] r@[k], load_entries(es.take(i as int))[k]),
        decreases n - i,
    {
        let e = &entries[i];
        proof {
            assert(es.take(i + 1).drop_last() =~= es.take(i as int));
            assert(es.take(i + 1).last() == e@);
        }
        let cpu = find_cpu(e.message.as_str());
        let mem = find_mem(e.message.as_str());
        if cpu.is_some() || mem.is_some() {
            let (mem_text, gb) = match mem {
                Some((m, unit)) => {
                    let gb = match &unit {
                        Some(u) => is_gb(u),
                        None => false,
                    };
                    (Some(m), gb)
                },
                None => (None, false),
            };
            let item = LoadTokens { timestamp: e.timestamp, cpu, mem: mem_text, mem_in_gb: gb };
            let ghost old = r@;
            r.push(item);
            proof {
                assert forall|k: int| 0 <= k < r@.len() implies load_tokens_ok(
                    #[trigger] r@[k],
                    load_entries(es.take(i + 1))[k],
                ) by {
                    if k < old.len() {
                        assert(r@[k] == old[k]);
                    }
                }
            }
        }
        i = i + 1;
    }
    proof {
        assert(es.take(n as int) =~= es);
    }
    r
}

} // verus!
