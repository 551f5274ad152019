//! Diagnostic logs: UTC timestamps on the proleptic Gregorian calendar and
//! the lines written to the call and app logs.
use vstd::prelude::*;
use crate::text::{append_str, decimal, push_char, push_padded, zero_pad};
use crate::relay::option_view;
use crate::crypto::now_ms;

verus! {

// ---------------------------------------------------------------------------
// The calendar
// ---------------------------------------------------------------------------
/// Gregorian leap years: every fourth year, but not centuries, except every
/// fourth century.
pub open spec fn is_leap(y: int) -> bool {
    (y % 4 == 0 && y % 100 != 0) || y % 400 == 0
}

/// The number of days in month `m` of year `y`.
pub open spec fn days_in_month(y: int, m: int) -> int {
    if m == 2 {
        if is_leap(y) {
            29
        } else {
            28
        }
    } else if m == 4 || m == 6 || m == 9 || m == 11 {
        30
    } else {
        31
    }
}

/// The days of year `y` before the first of month `m`.
pub open spec fn days_before_month(y: int, m: int) -> int {
    let base: int = if m == 1 {
        0
    } else if m == 2 {
        31
    } else if m == 3 {
        59
    } else if m == 4 {
        90
    } else if m == 5 {
        120
    } else if m == 6 {
        151
    } else if m == 7 {
        181
    } else if m == 8 {
        212
    } else if m == 9 {
        243
    } else if m == 10 {
        273
    } else if m == 11 {
        304
    } else {
        334
    };
    if m > 2 && is_leap(y) {
        base + 1
    } else {
        base
    }
}

/// How many leap years there are from year 1 to year `y` (counted down to
/// negative years the same way).
pub open spec fn leaps_through(y: int) -> int {
    y / 4 - y / 100 + y / 400
}

/// The day number of a date: days since 1970-01-01, negative before it.
pub open spec fn days_from_civil(y: int, m: int, d: int) -> int {
    365 * (y - 1970) + leaps_through(y - 1) - leaps_through(1969) + days_before_month(y, m) + d
        - 1
}

/// A real date: month 1 to 12, day within the month.
pub open spec fn valid_date(y: int, m: int, d: int) -> bool {
    1 <= m <= 12 && 1 <= d <= days_in_month(y, m)
}

/// A leap year adds one to the count of leap years.
proof fn lemma_leaps_step(y: int)
    ensures
        leaps_through(y) == leaps_through(y - 1) + if is_leap(y) {
            1int
        } else {
            0int
        },
{
    assert(y / 4 == (y - 1) / 4 + if y % 4 == 0 {
        1int
    } else {
        0int
    });
    assert(y / 100 == (y - 1) / 100 + if y % 100 == 0 {
        1int
    } else {
        0int
    });
    assert(y / 400 == (y - 1) / 400 + if y % 400 == 0 {
        1int
    } else {
        0int
    });
    if y % 400 == 0 {
        assert(y % 100 == 0 && y % 4 == 0);
    } else if y % 100 == 0 {
        assert(y % 4 == 0);
    }
}

/// Whole eras of 400 years shift the count of leap years by 97 each.
proof fn lemma_leaps_era(era: int, yoe: int)
    requires
        0 <= yoe < 400,
    ensures
        leaps_through(400 * era + yoe) == 97 * era + yoe / 4 - yoe / 100,
        is_leap(400 * era + yoe) == is_leap(yoe),
{
    assert((400 * era + yoe) / 4 == 100 * era + yoe / 4);
    assert((400 * era + yoe) / 100 == 4 * era + yoe / 100);
    assert((400 * era + yoe) / 400 == era);
    assert((400 * era + yoe) % 4 == yoe % 4);
    assert((400 * era + yoe) % 100 == yoe % 100);
    assert((400 * era + yoe) % 400 == yoe);
}

/// Within a 400-year era (days counted from March 1 of its first year),
/// the year of the era and the day of that year, as the algorithm finds
/// them.
proof fn lemma_year_of_era(doe: u32)
    requires
        doe < 146097,
    ensures
        doe / 1460 <= doe,
        doe - doe / 1460 + doe / 36524 >= doe / 146096,
        ({
            let yoe = (doe - doe / 1460 + doe / 36524 - doe / 146096) / 365;
            let start = 365 * yoe + yoe / 4 - yoe / 100;
            &&& yoe < 400
            &&& start <= doe
            &&& doe - start < 366
            &&& doe - start == 365 ==> (yoe + 1) % 4 == 0 && ((yoe + 1) % 100 != 0 || yoe == 399)
        }),
{
    assert(doe / 1460 <= doe) by (bit_vector)
        requires
            doe < 146097,
    ;
    assert(doe - doe / 1460 + doe / 36524 >= doe / 146096) by (bit_vector)
        requires
            doe < 146097,
    ;
    assert({
        let yoe = (doe - doe / 1460 + doe / 36524 - doe / 146096) / 365;
        let start = 365 * yoe + yoe / 4 - yoe / 100;
        &&& yoe < 400
        &&& start <= doe
        &&& doe - start < 366
        &&& doe - start == 365 ==> (yoe + 1) % 4 == 0 && ((yoe + 1) % 100 != 0 || yoe == 399)
    }) by (bit_vector)
        requires
            doe < 146097,
    ;
}

/// Day numbers from 0 on fall in 1970 or later: the era holding 1970-01-01
/// is the fifth, and within it that day is day 135080.
proof fn lemma_epoch_era(doe: u32, era: int)
    requires
        doe < 146097,
        era * 146097 + doe >= 719468,
    ensures
        ({
            let yoe = (doe - doe / 1460 + doe / 36524 - doe / 146096) / 365;
            let doy = doe - (365 * yoe + yoe / 4 - yoe / 100);
            let mp = (5 * doy + 2) / 153;
            400 * era + yoe >= 1970 || (400 * era + yoe == 1969 && mp >= 10)
        }),
{
    if era <= 4 {
        assert(era == 4);
        assert({
            let yoe = (doe - doe / 1460 + doe / 36524 - doe / 146096) / 365;
            let doy = doe - (365 * yoe + yoe / 4 - yoe / 100);
            let mp = (5 * doy + 2) / 153;
            yoe >= 370 || (yoe == 369 && mp >= 10)
        }) by (bit_vector)
            requires
                135080 <= doe < 146097,
        ;
    } else {
        lemma_year_of_era(doe);
    }
}

/// The start of each month counted from March 1 (`(153 * mp + 2) / 5`).
pub open spec fn month_start(mp: int) -> int {
    (153 * mp + 2) / 5
}

/// Within a year counted from March 1, the month (0 for March) and the day
/// of the month, as the algorithm finds them.
proof fn lemma_month_of_year(doy: u32)
    requires
        doy < 366,
    ensures
        ({
            let mp = (5 * doy + 2) / 153;
            let start = (153 * mp + 2) / 5;
            &&& mp <= 11
            &&& start <= doy
            &&& doy - start < 31
            &&& (mp == 1 || mp == 3 || mp == 6 || mp == 8) ==> doy - start < 30
            &&& mp == 11 ==> doy - start < 29
            &&& mp == 11 && doy - start == 28 ==> doy == 365
        }),
{
    assert({
        let mp = (5 * doy + 2) / 153;
        let start = (153 * mp + 2) / 5;
        &&& mp <= 11
        &&& start <= doy
        &&& doy - start < 31
        &&& (mp == 1 || mp == 3 || mp == 6 || mp == 8) ==> doy - start < 30
        &&& mp == 11 ==> doy - start < 29
        &&& mp == 11 && doy - start == 28 ==> doy == 365
    }) by (bit_vector)
        requires
            doy < 366,
    ;
}

/// The first day of the latest era whose year still fits an `i32`
/// (era -5368709), counted from 1970-01-01.
pub const FIRST_I32_DAY: i64 = -784352998241;

/// The last day, counted from 1970-01-01, whose year fits an `i32`
/// (2147483647-12-31).
pub const LAST_I32_DAY: i64 = 784351576776;

/// In the era of the last `i32` year, the days up to its last day fall in
/// the era's first 48 years, the 48th ending in December.
proof fn lemma_top_era(doe: u32)
    requires
        doe <= 17471,
    ensures
        ({
            let yoe = (doe - doe / 1460 + doe / 36524 - doe / 146096) / 365;
            let doy = doe - (365 * yoe + yoe / 4 - yoe / 100);
            let mp = (5 * doy + 2) / 153;
            yoe < 47 || (yoe == 47 && mp < 10)
        }),
{
    assert({
        let yoe = (doe - doe / 1460 + doe / 36524 - doe / 146096) / 365;
        let doy = doe - (365 * yoe + yoe / 4 - yoe / 100);
        let mp = (5 * doy + 2) / 153;
        yoe < 47 || (yoe == 47 && mp < 10)
    }) by (bit_vector)
        requires
            doe <= 17471,
    ;
}

/// The date of day number `days` (days since 1970-01-01), for every day
/// whose year fits an `i32` and whose era's first year does too.
pub fn civil_from_days(days: i64) -> (r: (i32, u32, u32))
    requires
        FIRST_I32_DAY <= days <= LAST_I32_DAY,
    ensures
        valid_date(r.0 as int, r.1 as int, r.2 as int),
        days_from_civil(r.0 as int, r.1 as int, r.2 as int) == days,
        days >= 0 ==> r.0 >= 1970,
{
    // Days since 0000-03-01, shifted by whole eras so the arithmetic stays
    // unsigned; the shift comes off the era again below.
    let zp: i64 = days + 719468 + 784352278773;
    let zu: u64 = zp as u64;
    let q: u64 = zu / 146097;
    let doe: u32 = (zu % 146097) as u32;
    let era: i64 = q as i64 - 5368709;
    proof {
        lemma_year_of_era(doe);
    }
    let yoe: u32 = (doe - doe / 1460 + doe / 36524 - doe / 146096) / 365;
    let doy: u32 = doe - (365 * yoe + yoe / 4 - yoe / 100);
    proof {
        lemma_month_of_year(doy);
    }
    let mp: u32 = (5 * doy + 2) / 153;
    let d: u32 = doy - (153 * mp + 2) / 5 + 1;
    let m: u32 = if mp < 10 {
        mp + 3
    } else {
        mp - 9
    };
    let y: i64 = yoe as i64 + era * 400;
    let y2: i64 = if m <= 2 {
        y + 1
    } else {
        y
    };
    proof {
        if days >= 0 {
            lemma_epoch_era(doe, era as int);
        }
        let z = days + 719468;
        assert(z == era * 146097 + doe);
        let yy = 400 * era + yoe;
        lemma_leaps_era(era as int, yoe as int);
        assert(z == 365 * yy + leaps_through(yy) + doy);
        assert(leaps_through(1969) == 477);
        lemma_leaps_step(yy);
        lemma_leaps_step(yy + 1);
        if mp < 10 {
            assert(days_before_month(yy, m as int) == month_start(mp as int) + 59 + if is_leap(yy) {
                1int
            } else {
                0int
            });
        } else {
            assert(days_before_month(yy + 1, m as int) == month_start(mp as int) - 306);
            if mp == 11 && d == 29 {
                if yoe < 399 {
                    lemma_leaps_era(era as int, yoe + 1);
                    assert(is_leap(yy + 1));
                } else {
                    lemma_leaps_era(era + 1, 0);
                    assert(yy + 1 == 400 * (era + 1) + 0);
                    assert(is_leap(yy + 1));
                }
            }
        }
    }
    proof {
        if era == 5368709 {
            assert(doe <= 17471);
            lemma_top_era(doe);
        }
    }
    (y2 as i32, m, d)
}

// ---------------------------------------------------------------------------
// Timestamps and log lines
// ---------------------------------------------------------------------------
/// `2024-05-06T07:08:09.010Z`: the date and time, zero-padded.
pub open spec fn stamp_text(
    y: nat,
    mo: nat,
    d: nat,
    h: nat,
    mi: nat,
    s: nat,
    ms: nat,
) -> Seq<char> {
    zero_pad(decimal(y), 4) + seq!['-'] + zero_pad(decimal(mo), 2) + seq!['-'] + zero_pad(
        decimal(d),
        2,
    ) + seq!['T'] + zero_pad(decimal(h), 2) + seq![':'] + zero_pad(decimal(mi), 2) + seq![':']
        + zero_pad(decimal(s), 2) + seq!['.'] + zero_pad(decimal(ms), 3) + seq!['Z']
}

/// The UTC timestamp of `t` milliseconds since the Unix epoch (negative
/// times count as the epoch itself), given the date of its day.
pub open spec fn is_stamp_of(t: int, text: Seq<char>) -> bool {
    let ms = if t < 0 {
        0
    } else {
        t
    };
    let secs = ms / 1000;
    let days = secs / 86400;
    let sod = secs % 86400;
    exists|y: int, mo: int, d: int|
        y >= 1970 && valid_date(y, mo, d) && days_from_civil(y, mo, d) == days && text
            == stamp_text(
            y as nat,
            mo as nat,
            d as nat,
            (sod / 3600) as nat,
            ((sod % 3600) / 60) as nat,
            (sod % 60) as nat,
            (ms % 1000) as nat,
        )
}

/// The UTC timestamp for `ms` milliseconds since the Unix epoch.
pub fn utc_stamp(ms: i64) -> (r: String)
    ensures
        is_stamp_of(ms as int, r@),
{
    let t: u64 = if ms < 0 {
        0
    } else {
        ms as u64
    };
    let secs = t / 1000;
    let milli = t % 1000;
    let days = secs / 86400;
    let sod = secs % 86400;
    let hour = sod / 3600;
    let min = (sod % 3600) / 60;
    let sec = sod % 60;
    let (year, month, day) = civil_from_days(days as i64);
    let mut out = String::new();
    push_padded(&mut out, year as u64, 4);
    push_char(&mut out, '-');
    push_padded(&mut out, month as u64, 2);
    push_char(&mut out, '-');
    push_padded(&mut out, day as u64, 2);
    push_char(&mut out, 'T');
    push_padded(&mut out, hour, 2);
    push_char(&mut out, ':');
    push_padded(&mut out, min, 2);
    push_char(&mut out, ':');
    push_padded(&mut out, sec, 2);
    push_char(&mut out, '.');
    push_padded(&mut out, milli, 3);
    push_char(&mut out, 'Z');
    proof {
        let text = stamp_text(
            year as nat,
            month as nat,
            day as nat,
            hour as nat,
            min as nat,
            sec as nat,
            milli as nat,
        );
        assert(out@ =~= text);
        assert(is_stamp_of(ms as int, out@)) by {
            assert(year >= 1970 && valid_date(year as int, month as int, day as int)
                && days_from_civil(year as int, month as int, day as int) == days);
        }
    }
    out
}

/// A call-log line: `{stamp} [{level}] {mode} {who} {event}`, newline-ended.
pub open spec fn call_line(
    stamp: Seq<char>,
    level: Seq<char>,
    mode: Seq<char>,
    who: Seq<char>,
    event: Seq<char>,
) -> Seq<char> {
    stamp + seq![' ', '['] + level + seq![']', ' '] + mode + seq![' '] + who + seq![' '] + event
        + seq!['\n']
}

/// Who a call-log line names: the peer, or `-` when there is none.
pub open spec fn who_of(peer: Option<Seq<char>>) -> Seq<char> {
    match peer {
        Some(p) => if p.len() > 0 {
            p
        } else {
            seq!['-']
        },
        None => seq!['-'],
    }
}

/// Appends the call-log line for an event at time `t` (milliseconds; the
/// current time when `t` is not positive) to `log`.
pub fn append_call(
    log: &mut String,
    t: i64,
    mode: &str,
    peer: Option<&str>,
    event: &str,
    level: &str,
)
    ensures
        exists|stamp: Seq<char>|
            #![trigger call_line(stamp, level@, mode@, who_of(option_view(peer)), event@)]
            (t > 0 ==> is_stamp_of(t as int, stamp)) && is_stamp_of_some_time(stamp) && final(log)@ == old(log)@ + call_line(
                stamp,
                level@,
                mode@,
                who_of(option_view(peer)),
                event@,
            ),
{
    let when = if t > 0 {
        t
    } else {
        now_ms()
    };
    let stamp = utc_stamp(when);
    let ghost start = log@;
    append_str(log, stamp.as_str());
    push_char(log, ' ');
    push_char(log, '[');
    append_str(log, level);
    push_char(log, ']');
    push_char(log, ' ');
    append_str(log, mode);
    push_char(log, ' ');
    match peer {
        Some(p) => {
            if p.is_empty() {
                push_char(log, '-');
            } else {
                append_str(log, p);
            }
        },
        None => {
            push_char(log, '-');
        },
    }
    push_char(log, ' ');
    append_str(log, event);
    push_char(log, '\n');
    proof {
        let pv = option_view(peer);
        assert(log@ =~= start + call_line(stamp@, level@, mode@, who_of(pv), event@));
        assert(is_stamp_of(when as int, stamp@));
        assert(is_stamp_of_some_time(stamp@));
        assert((t > 0 ==> is_stamp_of(t as int, stamp@)) && is_stamp_of_some_time(stamp@) && log@ == old(log)@ + call_line(
            stamp@,
            level@,
            mode@,
            who_of(pv),
            event@,
        ));
    }
}

/// Appends a raw log line, stamped with the current time, to `log`.
pub fn append_raw(log: &mut String, line: &str)
    ensures
        exists|stamp: Seq<char>|
            is_stamp_of_some_time(stamp) && final(log)@ == old(log)@ + stamp + seq![' '] + line@
                + seq!['\n'],
{
    let when = now_ms();
    let stamp = utc_stamp(when);
    assert(is_stamp_of(when as int, stamp@));
    assert(is_stamp_of_some_time(stamp@));
    let ghost start = log@;
    append_str(log, stamp.as_str());
    push_char(log, ' ');
    append_str(log, line);
    push_char(log, '\n');
    assert(log@ =~= start + stamp@ + seq![' '] + line@ + seq!['\n']);
}

/// A timestamp of some time.
pub open spec fn is_stamp_of_some_time(text: Seq<char>) -> bool {
    exists|t: int| is_stamp_of(t, text)
}

/// `name` with `.log` appended, unless it already ends so.
pub open spec fn with_log_suffix(name: Seq<char>) -> Seq<char> {
    if name.len() >= 4 && name.skip(name.len() - 4) == seq!['.', 'l', 'o', 'g'] {
        name
    } else {
        name + seq!['.', 'l', 'o', 'g']
    }
}

/// The log file for a path's last component (`app.log` when it has none):
/// that name, ending in `.log`.
pub fn log_file_name(base: Option<&str>) -> (r: String)
    ensures
        r@ == with_log_suffix(
            match base {
                Some(b) => b@,
                None => "app.log"@,
            },
        ),
{
    let mut out = match base {
        Some(b) => b.to_owned(),
        None => "app.log".to_owned(),
    };
    let cs = crate::text::chars_of(out.as_str());
    let n = cs.len();
    let ends = n >= 4 && cs[n - 4] == '.' && cs[n - 3] == 'l' && cs[n - 2] == 'o' && cs[n - 1]
        == 'g';
    proof {
        if n >= 4 {
            let tail = out@.skip(n - 4);
            if ends {
                assert(tail =~= seq!['.', 'l', 'o', 'g']);
            } else {
                assert(tail[0] != '.' || tail[1] != 'l' || tail[2] != 'o' || tail[3] != 'g');
            }
        }
    }
    if !ends {
        let ghost start = out@;
        push_char(&mut out, '.');
        push_char(&mut out, 'l');
        push_char(&mut out, 'o');
        push_char(&mut out, 'g');
        assert(out@ =~= start + seq!['.', 'l', 'o', 'g']);
    }
    out
}

/// Whether a character may stand in a plain file name: an ASCII letter or
/// digit, `-`, `_` or `.`.
pub open spec fn plain_char(c: char) -> bool {
    let u = c as u32;
    (65 <= u <= 90) || (97 <= u <= 122) || (48 <= u <= 57) || u == 45 || u == 95 || u == 46
}

/// A name that is one plain path component on every platform: not empty,
/// not `.` or `..`, and only plain characters.
pub open spec fn plain_name(s: Seq<char>) -> bool {
    &&& s.len() > 0
    &&& s != seq!['.']
    &&& s != seq!['.', '.']
    &&& forall|i: int| 0 <= i < s.len() ==> plain_char(#[trigger] s[i])
}

/// The part of `s` after its last `/` (all of `s` when it has none).
pub open spec fn last_part(s: Seq<char>) -> Seq<char>
    decreases s.len(),
{
    if s.len() == 0 {
        s
    } else if s.last() == '/' {
        Seq::empty()
    } else {
        last_part(s.drop_last()).push(s.last())
    }
}

/// `Path::file_name` on `name`, as text: its last component, if it has one.
/// The component is never empty and never holds a `/`. When the part of
/// `name` after its last `/` is one plain component (ASCII letters, digits,
/// `-`, `_`, `.`; not `.` or `..`), that part is the last component on
/// every platform; for other names, which component it is depends on the
/// platform's separators and is not stated.
#[verifier::external_body]
fn path_file_name(name: &str) -> (r: Option<String>)
    ensures
        r matches Some(s) ==> s@.len() > 0 && !s@.contains('/'),
        plain_name(last_part(name@)) ==> r is Some,
        r matches Some(s) ==> (plain_name(last_part(name@)) ==> s@ == last_part(name@)),
{
    match std::path::Path::new(name).file_name() {
        Some(f) => f.to_str().map(|s| s.to_owned()),
        None => None,
    }
}

/// A name without `/` is its own last part.
proof fn lemma_last_part_whole(s: Seq<char>)
    requires
        !s.contains('/'),
    ensures
        last_part(s) == s,
    decreases s.len(),
{
    if s.len() > 0 {
        assert(s.last() == s[s.len() - 1]);
        assert(!s.drop_last().contains('/')) by {
            if s.drop_last().contains('/') {
                let i = choose|i: int| 0 <= i < s.len() - 1 && s.drop_last()[i] == '/';
                assert(s[i] == '/');
            }
        }
        lemma_last_part_whole(s.drop_last());
        assert(s.drop_last().push(s.last()) =~= s);
    }
}

/// The log file a name writes to: its last path component (so no other
/// directory is reached), ending in `.log`; `app.log` when it has none.
/// A name whose part after the last `/` is one plain component writes to
/// that part with `.log` added (so a plain name writes to itself with
/// `.log` added).
pub fn safe_name(name: &str) -> (r: String)
    ensures
        exists|base: Seq<char>|
            (base == "app.log"@ || (base.len() > 0 && !base.contains('/'))) && r@
                == with_log_suffix(base),
        plain_name(last_part(name@)) ==> r@ == with_log_suffix(last_part(name@)),
        plain_name(name@) ==> r@ == with_log_suffix(name@),
{
    proof {
        if plain_name(name@) {
            if name@.contains('/') {
                let i = choose|i: int| 0 <= i < name@.len() && name@[i] == '/';
                assert(plain_char(name@[i]));
            }
            lemma_last_part_whole(name@);
        }
    }
    match path_file_name(name) {
        Some(f) => log_file_name(Some(f.as_str())),
        None => log_file_name(None),
    }
}

} // verus!
