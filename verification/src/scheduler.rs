//! When pairs run by themselves: the interval of a pair, the times of day
//! of a schedule, how long the scheduler sleeps, which pairs are due, and
//! when a change seen by a watcher triggers a pass.
use vstd::prelude::*;
use crate::text::{chars_of, count_char};
use crate::config::{Settings, SyncPair};
use chrono::Timelike;

verus! {

/// The shortest interval between two automatic runs of a pair, in seconds.
pub const MIN_INTERVAL: u64 = 5;

/// The longest the scheduler sleeps, in seconds.
pub const MAX_SLEEP: u64 = 1800;

/// The shortest the scheduler sleeps, in seconds.
pub const MIN_SLEEP: u64 = 3;

/// Whether a character is an ASCII decimal digit.
pub open spec fn is_digit(c: char) -> bool {
    '0' <= c && c <= '9'
}

/// The value of a string of decimal digits.
pub open spec fn digits_value(s: Seq<char>) -> nat
    decreases s.len(),
{
    if s.len() == 0 {
        0
    } else {
        digits_value(s.drop_last()) * 10 + ((s.last() as u32) - 48) as nat
    }
}

/// `s` without one leading `+`.
pub open spec fn unsigned_part(s: Seq<char>) -> Seq<char> {
    if s.len() > 0 && s[0] == '+' {
        s.skip(1)
    } else {
        s
    }
}

/// Whether every character of `d` is a decimal digit.
pub open spec fn all_digits(d: Seq<char>) -> bool {
    forall|i: int| 0 <= i < d.len() ==> is_digit(#[trigger] d[i])
}

/// What `str::parse::<u32>` gives: an optional `+`, then one digit or more,
/// whose value fits in 32 bits.
pub open spec fn parse_u32_spec(s: Seq<char>) -> Option<u32> {
    let d = unsigned_part(s);
    if d.len() > 0 && all_digits(d) && digits_value(d) <= u32::MAX {
        Some(digits_value(d) as u32)
    } else {
        None
    }
}

/// The number written in `s` (see `parse_u32_spec`).
pub fn parse_u32(s: &[char]) -> (r: Option<u32>)
    ensures
        r == parse_u32_spec(s@),
{
    let n = s.len();
    let start: usize = if n > 0 && s[0] == '+' { 1 } else { 0 };
    let ghost d = unsigned_part(s@);
    assert(d =~= s@.skip(start as int));
    if start == n {
        return None;
    }
    let mut v: u64 = 0;
    let mut i: usize = start;
    while i < n
        invariant
            start <= i <= n,
            start < n,
            n == s@.len(),
            d == s@.skip(start as int),
            d == unsigned_part(s@),
            forall|k: int| start <= k < i ==> is_digit(#[trigger] s@[k]),
            v == digits_value(s@.subrange(start as int, i as int)),
            v <= u32::MAX,
        decreases n - i,
    {
        let c = s[i];
        if !('0' <= c && c <= '9') {
            assert(d[i - start] == c);
            assert(!is_digit(d[i - start]));
            assert(!all_digits(d));
            return None;
        }
        let ghost t = s@.subrange(start as int, i + 1);
        assert(t.drop_last() =~= s@.subrange(start as int, i as int));
        assert(t.last() == c);
        let digit = (c as u32 - 48) as u64;
        let next = v * 10 + digit;
        assert(digits_value(t) == next);
        if next > 4294967295 {
            proof {
                if all_digits(d) {
                    lemma_digits_value_prefix(d, i + 1 - start);
                    assert(d.take(i + 1 - start) =~= t);
                }
            }
            return None;
        }
        v = next;
        i = i + 1;
    }
    assert(s@.subrange(start as int, n as int) =~= d);
    Some(v as u32)
}

/// A longer string of digits has at least the value of its prefix.
proof fn lemma_digits_value_prefix(d: Seq<char>, k: int)
    requires
        0 <= k <= d.len(),
        all_digits(d),
    ensures
        digits_value(d.take(k)) <= digits_value(d),
    decreases d.len(),
{
    if k < d.len() {
        assert(d.drop_last().take(k) =~= d.take(k));
        assert forall|i: int| 0 <= i < d.drop_last().len() implies is_digit(#[trigger] d.drop_last()[i]) by {
            assert(d.drop_last()[i] == d[i]);
        }
        assert(all_digits(d.drop_last()));
        lemma_digits_value_prefix(d.drop_last(), k);
    } else {
        assert(d.take(k) =~= d);
    }
}

/// The position of the first `:` in `s`, if any.
pub open spec fn colon_at(s: Seq<char>) -> int {
    choose|i: int| 0 <= i < s.len() && s[i] == ':'
}

/// A time of day written `H:M`: exactly one `:`, hours 0 to 23 and minutes
/// 0 to 59, each a number as `parse_u32_spec` reads it.
pub open spec fn parse_hhmm_spec(s: Seq<char>) -> Option<(u32, u32)> {
    if count_char(s, ':') != 1 {
        None
    } else {
        let i = colon_at(s);
        match (parse_u32_spec(s.take(i)), parse_u32_spec(s.skip(i + 1))) {
            (Some(h), Some(m)) => if h <= 23 && m <= 59 {
                Some((h, m))
            } else {
                None
            },
            _ => None,
        }
    }
}

/// A string with exactly one `:` has it at the position found first.
proof fn lemma_one_colon(s: Seq<char>, i: int)
    requires
        0 <= i < s.len(),
        s[i] == ':',
        count_char(s, ':') == 1,
    ensures
        colon_at(s) == i,
{
    let j = colon_at(s);
    assert(0 <= j < s.len() && s[j] == ':');
    if j != i {
        lemma_count_two(s, i, j);
    }
}

/// Two distinct positions holding `c` count twice.
proof fn lemma_count_two(s: Seq<char>, i: int, j: int)
    requires
        0 <= i < s.len(),
        0 <= j < s.len(),
        i != j,
        s[i] == ':',
        s[j] == ':',
    ensures
        count_char(s, ':') >= 2,
    decreases s.len(),
{
    let last = s.len() - 1;
    if i == last || j == last {
        let other = if i == last { j } else { i };
        lemma_count_at_least_one(s.drop_last(), other);
    } else {
        lemma_count_two(s.drop_last(), i, j);
    }
}

/// A position holding `:` counts once.
proof fn lemma_count_at_least_one(s: Seq<char>, i: int)
    requires
        0 <= i < s.len(),
        s[i] == ':',
    ensures
        count_char(s, ':') >= 1,
    decreases s.len(),
{
    if i < s.len() - 1 {
        lemma_count_at_least_one(s.drop_last(), i);
    }
}

/// Reads a time of day `H:M` (see `parse_hhmm_spec`).
pub fn parse_hhmm(s: &str) -> (r: Option<(u32, u32)>)
    ensures
        r == parse_hhmm_spec(s@),
{
    let v = chars_of(s);
    let n = v.len();
    if crate::text::chars_count(v.as_slice(), ':') != 1 {
        return None;
    }
    let mut i: usize = 0;
    while i < n && v[i] != ':'
        invariant
            i <= n,
            n == v@.len(),
            v@ == s@,
            count_char(v@, ':') == 1,
            forall|k: int| 0 <= k < i ==> v@[k] != ':',
        decreases n - i,
    {
        i = i + 1;
    }
    if i == n {
        proof {
            lemma_count_zero(v@);
        }
        return None;
    }
    proof {
        lemma_one_colon(v@, i as int);
    }
    let head = &v.as_slice()[0..i];
    let tail = &v.as_slice()[i + 1..n];
    assert(head@ =~= v@.take(i as int));
    assert(tail@ =~= v@.skip(i + 1));
    match (parse_u32(head), parse_u32(tail)) {
        (Some(h), Some(m)) => if h <= 23 && m <= 59 {
            Some((h, m))
        } else {
            None
        },
        _ => None,
    }
}

/// A text without `:` counts none.
proof fn lemma_count_zero(s: Seq<char>)
    requires
        forall|k: int| 0 <= k < s.len() ==> s[k] != ':',
    ensures
        count_char(s, ':') == 0,
    decreases s.len(),
{
    if s.len() > 0 {
        assert forall|k: int| 0 <= k < s.drop_last().len() implies s.drop_last()[k] != ':' by {
            assert(s.drop_last()[k] == s[k]);
        }
        lemma_count_zero(s.drop_last());
    }
}

/// Seconds from `h:m:sec` to the next occurrence of the time of day
/// `th:tm` (a full day when it is the current minute).
pub open spec fn secs_to(th: u32, tm: u32, h: u32, m: u32, sec: u32) -> nat {
    let now_min = h * 60 + m;
    let target = th * 60 + tm;
    let diff = if target > now_min { target - now_min } else { target + 1440 - now_min };
    (diff * 60 - sec) as nat
}

/// Seconds to the nearest scheduled time among `times` (those that do not
/// read as `H:M` are ignored), if any.
pub open spec fn next_schedule(times: Seq<Seq<char>>, h: u32, m: u32, sec: u32) -> Option<nat>
    decreases times.len(),
{
    if times.len() == 0 {
        None
    } else {
        let rest = next_schedule(times.drop_last(), h, m, sec);
        match parse_hhmm_spec(times.last()) {
            Some((th, tm)) => {
                let s = secs_to(th, tm, h, m, sec);
                match rest {
                    Some(b) => Some(if b <= s { b } else { s }),
                    None => Some(s),
                }
            },
            None => rest,
        }
    }
}

/// Seconds to the next scheduled time, at the local time `h:m:sec`.
pub fn secs_until_schedule_at(times: &Vec<String>, h: u32, m: u32, sec: u32) -> (r: Option<u64>)
    requires
        h < 24,
        m < 60,
        sec < 60,
    ensures
        match next_schedule(crate::scan::string_views(times@), h, m, sec) {
            Some(b) => b <= 86400 && r == Some(b as u64),
            None => r is None,
        },
        r is None <==> forall|k: int| 0 <= k < times@.len() ==> (#[trigger] parse_hhmm_spec(times@[k]@)) is None,
        r is Some ==> {
            let w = r->0;
            &&& 0 < w <= 86400
            &&& exists|k: int| 0 <= k < times@.len() && #[trigger] lands_on_time(times@[k]@, h, m, sec, w as int)
            &&& forall|k: int, v: int|
                0 <= k < times@.len() && 0 < v && #[trigger] lands_on_time(times@[k]@, h, m, sec, v) ==> w <= v
        },
{
    let ghost tv = crate::scan::string_views(times@);
    let now_min: u64 = h as u64 * 60 + m as u64;
    let mut best: Option<u64> = None;
    let n = times.len();
    for i in 0..n
        invariant
            n == times@.len(),
            tv == crate::scan::string_views(times@),
            h < 24,
            m < 60,
            sec < 60,
            now_min == h * 60 + m,
            match next_schedule(tv.take(i as int), h, m, sec) {
                Some(b) => b <= 86400 && best == Some(b as u64),
                None => best is None,
            },
    {
        proof {
            assert(tv.take(i + 1).drop_last() =~= tv.take(i as int));
            assert(tv.take(i + 1).last() == times@[i as int]@);
        }
        match parse_hhmm(times[i].as_str()) {
            Some((th, tm)) => {
                let target: u64 = th as u64 * 60 + tm as u64;
                let diff: u64 = if target > now_min { target - now_min } else { target + 1440 - now_min };
                let secs: u64 = diff * 60 - sec as u64;
                best = match best {
                    Some(b) => Some(if b <= secs { b } else { secs }),
                    None => Some(secs),
                };
            },
            None => {},
        }
    }
    assert(tv.take(n as int) =~= tv);
    proof {
        lemma_next_schedule_is_next_arrival(tv, h, m, sec);
        assert forall|k: int| 0 <= k < times@.len() implies tv[k] == times@[k]@ by {}
        if best is Some {
            let w = best->0;
            let k = choose|k: int| 0 <= k < tv.len() && #[trigger] lands_on_time(tv[k], h, m, sec, w as int);
            assert(lands_on_time(times@[k]@, h, m, sec, w as int));
            assert forall|k: int, v: int|
                0 <= k < times@.len() && 0 < v && #[trigger] lands_on_time(times@[k]@, h, m, sec, v) implies w <= v by {
                assert(lands_on_time(tv[k], h, m, sec, v));
            }
        }
        if forall|k: int| 0 <= k < tv.len() ==> (#[trigger] parse_hhmm_spec(tv[k])) is None {
            assert forall|k: int| 0 <= k < times@.len() implies (#[trigger] parse_hhmm_spec(times@[k]@)) is None by {
                assert(tv[k] == times@[k]@);
            }
        } else {
            let k = choose|k: int| 0 <= k < tv.len() && !((#[trigger] parse_hhmm_spec(tv[k])) is None);
            assert(tv[k] == times@[k]@);
            assert(!(parse_hhmm_spec(times@[k]@) is None));
        }
    }
    best
}

/// Whether waiting `w` seconds from `h:m:sec` lands on the time of day
/// `th:tm` (on some day).
pub open spec fn lands_on(h: u32, m: u32, sec: u32, w: int, th: u32, tm: u32) -> bool {
    (h * 3600 + m * 60 + sec + w) % 86400 == (th * 3600 + tm * 60) % 86400
}

/// The wait to one time of day is the least positive wait that lands on it,
/// and at most a day.
pub proof fn lemma_wait_is_next_arrival(th: u32, tm: u32, h: u32, m: u32, sec: u32)
    requires
        th < 24,
        tm < 60,
        h < 24,
        m < 60,
        sec < 60,
    ensures
        0 < secs_to(th, tm, h, m, sec) <= 86400,
        lands_on(h, m, sec, secs_to(th, tm, h, m, sec) as int, th, tm),
        forall|w: int| 0 < w && #[trigger] lands_on(h, m, sec, w, th, tm) ==> secs_to(th, tm, h, m, sec) <= w,
{
    let now: int = h * 3600 + m * 60 + sec;
    let t: int = th * 3600 + tm * 60;
    let w0 = secs_to(th, tm, h, m, sec) as int;
    assert(0 <= now < 86400);
    assert(0 <= t < 86400);
    let now_min: int = h * 60 + m;
    let target: int = th * 60 + tm;
    assert(now == now_min * 60 + sec);
    assert(t == target * 60);
    if target > now_min {
        assert(w0 == (target - now_min) * 60 - sec);
        assert(now + w0 == t);
    } else {
        assert(w0 == (target + 1440 - now_min) * 60 - sec);
        assert(now + w0 == t + 86400);
    }
    assert(0 < w0 <= 86400);
    vstd::arithmetic::div_mod::lemma_fundamental_div_mod(now + w0, 86400);
    vstd::arithmetic::div_mod::lemma_fundamental_div_mod(t, 86400);
    assert(t % 86400 == t) by {
        vstd::arithmetic::div_mod::lemma_small_mod(t as nat, 86400);
    }
    if target > now_min {
        vstd::arithmetic::div_mod::lemma_small_mod((now + w0) as nat, 86400);
    } else {
        vstd::arithmetic::div_mod::lemma_mod_add_multiples_vanish(t, 86400);
    }
    assert(lands_on(h, m, sec, w0, th, tm));
    assert forall|w: int| 0 < w && #[trigger] lands_on(h, m, sec, w, th, tm) implies w0 <= w by {
        vstd::arithmetic::div_mod::lemma_fundamental_div_mod(now + w, 86400);
        let q = (now + w) / 86400;
        assert(now + w == 86400 * q + t);
        if target > now_min {
            assert(q >= 0) by (nonlinear_arith)
                requires
                    now + w == 86400 * q + t,
                    now + w > 0,
                    t < 86400,
            ;
        } else {
            assert(t <= now);
            assert(q >= 1) by (nonlinear_arith)
                requires
                    now + w == 86400 * q + t,
                    now + w > now,
                    t <= now,
                    now < 86400,
            ;
        }
    }
}

/// Whether waiting `w` seconds from `h:m:sec` lands on the time of day
/// written `t` (which must read as `H:M`).
pub open spec fn lands_on_time(t: Seq<char>, h: u32, m: u32, sec: u32, w: int) -> bool {
    match parse_hhmm_spec(t) {
        Some((th, tm)) => lands_on(h, m, sec, w, th, tm),
        None => false,
    }
}

/// The wait to the next scheduled time is the least positive wait, of at
/// most a day, that lands on one of the times of day that read as `H:M`;
/// there is none exactly when no time reads so.
pub proof fn lemma_next_schedule_is_next_arrival(times: Seq<Seq<char>>, h: u32, m: u32, sec: u32)
    requires
        h < 24,
        m < 60,
        sec < 60,
    ensures
        next_schedule(times, h, m, sec) is None <==> forall|k: int|
            0 <= k < times.len() ==> (#[trigger] parse_hhmm_spec(times[k])) is None,
        next_schedule(times, h, m, sec) is Some ==> {
            let b = next_schedule(times, h, m, sec)->0;
            &&& 0 < b <= 86400
            &&& exists|k: int| 0 <= k < times.len() && #[trigger] lands_on_time(times[k], h, m, sec, b as int)
            &&& forall|k: int, w: int|
                0 <= k < times.len() && 0 < w && #[trigger] lands_on_time(times[k], h, m, sec, w) ==> b <= w
        },
    decreases times.len(),
{
    if times.len() > 0 {
        let rest = times.drop_last();
        lemma_next_schedule_is_next_arrival(rest, h, m, sec);
        let last = times.len() - 1;
        assert(times[last] == times.last());
        assert forall|k: int| 0 <= k < rest.len() implies rest[k] == times[k] by {}
        match parse_hhmm_spec(times.last()) {
            Some((th, tm)) => {
                lemma_wait_is_next_arrival(th, tm, h, m, sec);
                let s = secs_to(th, tm, h, m, sec);
                let b = next_schedule(times, h, m, sec)->0;
                match next_schedule(rest, h, m, sec) {
                    Some(b0) => {
                        assert(b == if b0 <= s { b0 } else { s });
                        if b0 <= s {
                            let k = choose|k: int| 0 <= k < rest.len() && #[trigger] lands_on_time(rest[k], h, m, sec, b0 as int);
                            assert(lands_on_time(times[k], h, m, sec, b as int));
                        } else {
                            assert(lands_on_time(times[last], h, m, sec, b as int));
                        }
                        assert forall|k: int, w: int|
                            0 <= k < times.len() && 0 < w && #[trigger] lands_on_time(times[k], h, m, sec, w) implies b <= w by {
                            if k < last {
                                assert(lands_on_time(rest[k], h, m, sec, w));
                            } else {
                                assert(lands_on(h, m, sec, w, th, tm));
                            }
                        }
                    },
                    None => {
                        assert(b == s);
                        assert(lands_on_time(times[last], h, m, sec, b as int));
                        assert forall|k: int, w: int|
                            0 <= k < times.len() && 0 < w && #[trigger] lands_on_time(times[k], h, m, sec, w) implies b <= w by {
                            if k < last {
                                assert(parse_hhmm_spec(rest[k]) is None);
                            } else {
                                assert(lands_on(h, m, sec, w, th, tm));
                            }
                        }
                    },
                }
            },
            None => {
                assert(next_schedule(times, h, m, sec) == next_schedule(rest, h, m, sec));
                match next_schedule(rest, h, m, sec) {
                    Some(b0) => {
                        let k = choose|k: int| 0 <= k < rest.len() && #[trigger] lands_on_time(rest[k], h, m, sec, b0 as int);
                        assert(lands_on_time(times[k], h, m, sec, b0 as int));
                        assert forall|k: int, w: int|
                            0 <= k < times.len() && 0 < w && #[trigger] lands_on_time(times[k], h, m, sec, w) implies b0 <= w by {
                            if k < last {
                                assert(lands_on_time(rest[k], h, m, sec, w));
                            }
                        }
                    },
                    None => {
                        assert forall|k: int| 0 <= k < times.len() implies (#[trigger] parse_hhmm_spec(times[k])) is None by {
                            if k < last {
                                assert(parse_hhmm_spec(rest[k]) == parse_hhmm_spec(times[k]));
                            }
                        }
                    },
                }
            },
        }
    }
}

/// Whether the time of day written `t` is due at `h:m:sec`: it reads as
/// `H:M` and is the current minute or the one before (within the same day).
pub open spec fn time_due(t: Seq<char>, h: u32, m: u32, sec: u32) -> bool {
    match parse_hhmm_spec(t) {
        Some((th, tm)) => {
            let now_min = h * 60 + m;
            let target = th * 60 + tm;
            (now_min == target || (now_min > 0 && now_min - 1 == target)) && sec < 65
        },
        None => false,
    }
}

/// Whether a scheduled time is due at `h:m:sec`.
pub open spec fn schedule_due(times: Seq<Seq<char>>, h: u32, m: u32, sec: u32) -> bool {
    exists|i: int| 0 <= i < times.len() && #[trigger] time_due(times[i], h, m, sec)
}

/// Whether a scheduled time is due at the local time `h:m:sec`.
pub fn is_schedule_due_at(times: &Vec<String>, h: u32, m: u32, sec: u32) -> (r: bool)
    requires
        h < 24,
        m < 60,
    ensures
        r == schedule_due(crate::scan::string_views(times@), h, m, sec),
{
    let ghost tv = crate::scan::string_views(times@);
    let now_min: u64 = h as u64 * 60 + m as u64;
    let n = times.len();
    for i in 0..n
        invariant
            n == times@.len(),
            tv == crate::scan::string_views(times@),
            now_min == h * 60 + m,
            forall|k: int| 0 <= k < i ==> !#[trigger] time_due(tv[k], h, m, sec),
    {
        assert(tv[i as int] == times@[i as int]@);
        match parse_hhmm(times[i].as_str()) {
            Some((th, tm)) => {
                let target: u64 = th as u64 * 60 + tm as u64;
                if now_min == target || (now_min > 0 && now_min - 1 == target) {
                    if (sec as u64) < 65 {
                        assert(time_due(tv[i as int], h, m, sec));
                        return true;
                    }
                }
            },
            None => {},
        }
    }
    false
}

/// The local time of day: hour (0 to 23), minute (0 to 59), second (0 to 59).
#[verifier::external_body]
fn local_time() -> (r: (u32, u32, u32))
    ensures
        r.0 < 24,
        r.1 < 60,
        r.2 < 60,
{
    let now = chrono::Local::now();
    (now.hour(), now.minute(), now.second())
}

/// Seconds to the next scheduled time, now; the answer is that of
/// `secs_until_schedule_at` for the local time of the call.
pub fn secs_until_schedule(times: &Vec<String>) -> (r: Option<u64>)
    ensures
        exists|h: u32, m: u32, sec: u32|
            h < 24 && m < 60 && sec < 60 && #[trigger] next_schedule(crate::scan::string_views(times@), h, m, sec)
                == match r {
                Some(b) => Some(b as nat),
                None => None,
            },
{
    let (h, m, sec) = local_time();
    let r = secs_until_schedule_at(times, h, m, sec);
    assert(next_schedule(crate::scan::string_views(times@), h, m, sec) == match r {
        Some(b) => Some(b as nat),
        None => None::<nat>,
    });
    r
}

/// The interval of a pair: its own when at least `MIN_INTERVAL`, else the
/// global one, raised to `MIN_INTERVAL`.
pub open spec fn pair_interval_spec(pair: SyncPair, settings: Settings) -> u64 {
    match pair.interval_sec_override {
        Some(v) if v >= MIN_INTERVAL => v,
        _ => if settings.interval_sec >= MIN_INTERVAL {
            settings.interval_sec
        } else {
            MIN_INTERVAL
        },
    }
}

/// The interval between two automatic runs of a pair, in seconds.
pub fn pair_interval(pair: &SyncPair, settings: &Settings) -> (r: u64)
    ensures
        r == pair_interval_spec(*pair, *settings),
        r >= MIN_INTERVAL,
{
    match pair.interval_sec_override {
        Some(v) if v >= MIN_INTERVAL => v,
        _ => if settings.interval_sec >= MIN_INTERVAL {
            settings.interval_sec
        } else {
            MIN_INTERVAL
        },
    }
}

/// `a - b`, or 0 when `b` is larger.
pub open spec fn saturating_sub(a: u64, b: u64) -> u64 {
    if a >= b {
        (a - b) as u64
    } else {
        0
    }
}

/// What a pair asks of the scheduler's sleep: the time to its next
/// scheduled run (at least `MIN_SLEEP`), or the rest of its interval since it
/// last started (its whole interval when it never did, as seen by
/// `elapsed`); nothing for a disabled pair or a schedule with no valid time.
pub open spec fn pair_wait(pair: SyncPair, settings: Settings, elapsed: Option<u64>, h: u32, m: u32, sec: u32) -> Option<nat> {
    if !pair.enabled {
        None
    } else if pair.schedule_times@.len() > 0 {
        match next_schedule(crate::scan::string_views(pair.schedule_times@), h, m, sec) {
            Some(s) => Some(if s >= MIN_SLEEP { s } else { MIN_SLEEP as nat }),
            None => None,
        }
    } else {
        let e = match elapsed {
            Some(x) => x,
            None => 0,
        };
        Some(saturating_sub(pair_interval_spec(pair, settings), e) as nat)
    }
}

/// How long the scheduler sleeps before pairs `0..k` need it: `MAX_SLEEP`
/// lowered by what each asks.
pub open spec fn sleep_upto(pairs: Seq<SyncPair>, settings: Settings, elapsed: Seq<Option<u64>>, h: u32, m: u32, sec: u32, k: int) -> nat
    decreases k,
{
    if k <= 0 {
        MAX_SLEEP as nat
    } else {
        let rest = sleep_upto(pairs, settings, elapsed, h, m, sec, k - 1);
        match pair_wait(pairs[k - 1], settings, elapsed[k - 1], h, m, sec) {
            Some(w) => if w < rest { w } else { rest },
            None => rest,
        }
    }
}

/// How long the scheduler sleeps, in seconds: the least wait asked by the
/// enabled pairs (`elapsed[i]` is the time since pair `i` last started),
/// kept within `MIN_SLEEP` and `MAX_SLEEP`; at the local time `h:m:sec`.
pub fn compute_sleep_at(pairs: &Vec<SyncPair>, settings: &Settings, elapsed: &Vec<Option<u64>>, h: u32, m: u32, sec: u32) -> (r: u64)
    requires
        elapsed@.len() == pairs@.len(),
        h < 24,
        m < 60,
        sec < 60,
    ensures
        ({
            let s = sleep_upto(pairs@, *settings, elapsed@, h, m, sec, pairs@.len() as int);
            r == if s < MIN_SLEEP { MIN_SLEEP as nat } else { s }
        }),
        MIN_SLEEP <= r <= MAX_SLEEP,
{
    let mut least: u64 = MAX_SLEEP;
    let n = pairs.len();
    for i in 0..n
        invariant
            n == pairs@.len(),
            elapsed@.len() == n,
            h < 24,
            m < 60,
            sec < 60,
            least == sleep_upto(pairs@, *settings, elapsed@, h, m, sec, i as int),
            least <= MAX_SLEEP,
    {
        let p = &pairs[i];
        if p.enabled {
            if p.schedule_times.len() > 0 {
                match secs_until_schedule_at(&p.schedule_times, h, m, sec) {
                    Some(s) => {
                        let w = if s >= MIN_SLEEP { s } else { MIN_SLEEP };
                        if w < least {
                            least = w;
                        }
                    },
                    None => {},
                }
            } else {
                let iv = pair_interval(p, settings);
                let e = match elapsed[i] {
                    Some(x) => x,
                    None => 0,
                };
                let w = if iv >= e { iv - e } else { 0 };
                if w < least {
                    least = w;
                }
            }
        }
    }
    if least < MIN_SLEEP {
        MIN_SLEEP
    } else {
        least
    }
}

/// Whether a pair runs now, and whether its start time starts being tracked
/// (a pair never seen before is tracked and waits a full period): a
/// schedule runs when due and at least 60 seconds after the last start; an
/// interval runs once it has elapsed.
pub open spec fn due_now(pair: SyncPair, settings: Settings, elapsed: Option<u64>, h: u32, m: u32, sec: u32) -> (bool, bool) {
    if !pair.enabled {
        (false, false)
    } else if pair.schedule_times@.len() > 0 {
        if !schedule_due(crate::scan::string_views(pair.schedule_times@), h, m, sec) {
            (false, false)
        } else {
            match elapsed {
                Some(e) => (e >= 60, false),
                None => (false, true),
            }
        }
    } else {
        match elapsed {
            Some(e) => (e >= pair_interval_spec(pair, settings), false),
            None => (false, true),
        }
    }
}

/// Which pairs run at local time `h:m:sec` (positions, in order) and which
/// start being tracked (`elapsed[i]` is the time since pair `i` last started,
/// if known).
pub fn due_pairs_at(pairs: &Vec<SyncPair>, settings: &Settings, elapsed: &Vec<Option<u64>>, h: u32, m: u32, sec: u32) -> (r: (Vec<usize>, Vec<usize>))
    requires
        elapsed@.len() == pairs@.len(),
        h < 24,
        m < 60,
    ensures
        forall|k: int| 0 <= k < r.0@.len() ==> #[trigger] r.0@[k] < pairs@.len(),
        forall|k: int| 0 <= k < r.1@.len() ==> #[trigger] r.1@[k] < pairs@.len(),
        forall|i: int|
            0 <= i < pairs@.len() ==> (r.0@.contains(i as usize) <==> #[trigger] due_now(
                pairs@[i],
                *settings,
                elapsed@[i],
                h,
                m,
                sec,
            ).0) && (r.1@.contains(i as usize) <==> due_now(pairs@[i], *settings, elapsed@[i], h, m, sec).1),
        forall|a: int, b: int| 0 <= a < b < r.0@.len() ==> r.0@[a] < r.0@[b],
{
    let mut due: Vec<usize> = Vec::new();
    let mut track: Vec<usize> = Vec::new();
    let n = pairs.len();
    for i in 0..n
        invariant
            n == pairs@.len(),
            elapsed@.len() == n,
            h < 24,
            m < 60,
            forall|k: int| 0 <= k < due@.len() ==> #[trigger] due@[k] < i,
            forall|k: int| 0 <= k < track@.len() ==> #[trigger] track@[k] < i,
            forall|j: int|
                0 <= j < i ==> (due@.contains(j as usize) <==> #[trigger] due_now(pairs@[j], *settings, elapsed@[j], h, m, sec).0),
            forall|j: int|
                0 <= j < i ==> (track@.contains(j as usize) <==> #[trigger] due_now(pairs@[j], *settings, elapsed@[j], h, m, sec).1),
            forall|a: int, b: int| 0 <= a < b < due@.len() ==> due@[a] < due@[b],
    {
        let p = &pairs[i];
        let mut run = false;
        let mut start = false;
        if p.enabled {
            if p.schedule_times.len() > 0 {
                if is_schedule_due_at(&p.schedule_times, h, m, sec) {
                    match elapsed[i] {
                        Some(e) => {
                            run = e >= 60;
                        },
                        None => {
                            start = true;
                        },
                    }
                }
            } else {
                match elapsed[i] {
                    Some(e) => {
                        run = e >= pair_interval(p, settings);
                    },
                    None => {
                        start = true;
                    },
                }
            }
        }
        assert(due_now(pairs@[i as int], *settings, elapsed@[i as int], h, m, sec) == (run, start));
        let ghost d0 = due@;
        let ghost t0 = track@;
        if run {
            due.push(i);
        }
        if start {
            track.push(i);
        }
        proof {
            assert forall|j: int| 0 <= j < i + 1 implies (due@.contains(j as usize) <==> #[trigger] due_now(
                pairs@[j],
                *settings,
                elapsed@[j],
                h,
                m,
                sec,
            ).0) by {
                if run {
                    crate::lists::lemma_push_contains(d0, i, j as usize);
                }
                if j == i && !run && due@.contains(i) {
                    let k = choose|k: int| 0 <= k < due@.len() && due@[k] == i;
                    assert(d0[k] < i);
                }
            }
            assert forall|j: int| 0 <= j < i + 1 implies (track@.contains(j as usize) <==> #[trigger] due_now(
                pairs@[j],
                *settings,
                elapsed@[j],
                h,
                m,
                sec,
            ).1) by {
                if start {
                    crate::lists::lemma_push_contains(t0, i, j as usize);
                }
                if j == i && !start && track@.contains(i) {
                    let k = choose|k: int| 0 <= k < track@.len() && track@[k] == i;
                    assert(t0[k] < i);
                }
            }
        }
    }
    (due, track)
}

/// The seconds before the next automatic run of a pair, as shown to the
/// user: the rest of its interval when it is enabled and the scheduler runs.
pub fn next_run_sec(pair: &SyncPair, settings: &Settings, scheduler_running: bool, elapsed: Option<u64>) -> (r: Option<u64>)
    ensures
        r == if pair.enabled && scheduler_running {
            Some(
                saturating_sub(
                    pair_interval_spec(*pair, *settings),
                    match elapsed {
                        Some(e) => e,
                        None => 0,
                    },
                ),
            )
        } else {
            None
        },
{
    if pair.enabled && scheduler_running {
        let iv = pair_interval(pair, settings);
        let e = match elapsed {
            Some(x) => x,
            None => 0,
        };
        Some(if iv >= e { iv - e } else { 0 })
    } else {
        None
    }
}

/// Whether a change seen by a watcher triggers a pass: not within 3 seconds
/// of the previous trigger of the same pair (`since` is the time since then,
/// in seconds and nanoseconds), and not while a pass is running. The trigger
/// time is moved forward in either case but the first.
pub enum WatchEvent {
    /// Within the debounce delay: nothing happens.
    Debounced,
    /// The trigger time moves forward, but a pass is running.
    Busy,
    /// The trigger time moves forward and a pass is requested.
    Trigger,
}

/// What a change seen by a watcher does (see `WatchEvent`).
pub fn watch_event(since: Option<(u64, u32)>, busy: bool) -> (r: WatchEvent)
    ensures
        r == match since {
            Some((s, ns)) => if !(s > 3 || (s == 3 && ns > 0)) {
                WatchEvent::Debounced
            } else if busy {
                WatchEvent::Busy
            } else {
                WatchEvent::Trigger
            },
            None => if busy {
                WatchEvent::Busy
            } else {
                WatchEvent::Trigger
            },
        },
{
    let fresh = match since {
        Some((s, ns)) => s > 3 || (s == 3 && ns > 0),
        None => true,
    };
    if !fresh {
        WatchEvent::Debounced
    } else if busy {
        WatchEvent::Busy
    } else {
        WatchEvent::Trigger
    }
}

} // verus!
