//! Pool epochs and wall-clock time: the map between them, the date formats
//! a user may give, and the `[pool]` settings of a routing configuration.

use vstd::prelude::*;

use crate::error::{MemError, MemErrorView};
use crate::text::{
    all_digits, before_char, before_char_chars, chars_eq_str, chars_of, lines, parse_u64,
    parse_u64_chars, push_chars, push_str, split_char, split_chars, split_once, split_once_chars,
    string_of, trim, trim_chars, views,
};
use crate::wire::text_lines;

verus! {

/// Maps pool `pool_epoch` to approximate unix time via `epoch_interval_ms`.
#[derive(Clone, Debug)]
pub struct EpochMap {
    pub interval_ms: u64,
    pub epoch_zero_unix: u64,
}

pub open spec fn sat_add(a: u64, b: u64) -> u64 {
    if a + b > u64::MAX {
        u64::MAX
    } else {
        (a + b) as u64
    }
}

pub open spec fn sat_mul(a: u64, b: u64) -> u64 {
    if a * b > u64::MAX {
        u64::MAX
    } else {
        (a * b) as u64
    }
}

/// The unix time of a pool epoch: `epoch_zero_unix` plus the epoch's whole
/// seconds (saturating).
pub open spec fn epoch_to_unix(m: EpochMap, e: u64) -> u64 {
    sat_add(m.epoch_zero_unix, (sat_mul(e, m.interval_ms) / 1000) as u64)
}

/// The pool epoch running at a unix time (zero up to `epoch_zero_unix`).
pub open spec fn unix_to_epoch(m: EpochMap, u: u64) -> u64 {
    if u <= m.epoch_zero_unix {
        0
    } else {
        (sat_mul((u - m.epoch_zero_unix) as u64, 1000) / m.interval_ms) as u64
    }
}

fn mul_sat(a: u64, b: u64) -> (r: u64)
    ensures
        r == sat_mul(a, b),
{
    match a.checked_mul(b) {
        Some(v) => v,
        None => u64::MAX,
    }
}

impl EpochMap {
    /// A map with the given interval (at least one millisecond).
    pub fn new(interval_ms: u64, epoch_zero_unix: u64) -> (m: Self)
        ensures
            m.interval_ms == if interval_ms < 1 {
                1
            } else {
                interval_ms
            },
            m.epoch_zero_unix == epoch_zero_unix,
    {
        EpochMap { interval_ms: if interval_ms < 1 { 1 } else { interval_ms }, epoch_zero_unix }
    }

    pub fn pool_epoch_to_unix(&self, pool_epoch: u64) -> (u: u64)
        ensures
            u == epoch_to_unix(*self, pool_epoch),
    {
        self.epoch_zero_unix.saturating_add(mul_sat(pool_epoch, self.interval_ms) / 1000)
    }

    pub fn unix_to_pool_epoch(&self, unix_secs: u64) -> (e: u64)
        requires
            self.interval_ms > 0,
        ensures
            e == unix_to_epoch(*self, unix_secs),
    {
        if unix_secs <= self.epoch_zero_unix {
            return 0;
        }
        let delta_ms = mul_sat(unix_secs - self.epoch_zero_unix, 1000);
        delta_ms / self.interval_ms
    }
}

/// An epoch's time maps back to the epoch when the interval is a whole
/// number of seconds and nothing saturates.
pub proof fn lemma_epoch_round_trip(m: EpochMap, e: u64)
    requires
        m.interval_ms > 0,
        m.interval_ms % 1000 == 0,
        e * m.interval_ms <= u64::MAX,
        m.epoch_zero_unix + e * m.interval_ms / 1000 <= u64::MAX,
    ensures
        unix_to_epoch(m, epoch_to_unix(m, e)) == e,
{
    let i = m.interval_ms as int;
    let k = i / 1000;
    let ei = e * i;
    assert(i == 1000 * k);
    assert(ei == (e * k) * 1000) by (nonlinear_arith)
        requires
            i == 1000 * k,
            ei == e * i,
    ;
    assert(ei / 1000 == e * k) by (nonlinear_arith)
        requires
            ei == (e * k) * 1000,
    ;
    assert(k >= 1);
    let q = e * k;
    if q == 0 {
        assert(e == 0) by (nonlinear_arith)
            requires
                q == e * k,
                k >= 1,
                q == 0,
                e >= 0,
        ;
    } else {
        assert(q * 1000 == ei);
        assert(ei / i == e) by (nonlinear_arith)
            requires
                ei == e * i,
                i > 0,
        ;
    }
}

/// The epoch of a time starts no later than that time (when nothing
/// saturates).
pub proof fn lemma_epoch_floor(m: EpochMap, u: u64)
    requires
        m.interval_ms > 0,
        m.epoch_zero_unix <= u,
        (u - m.epoch_zero_unix) * 1000 <= u64::MAX,
    ensures
        epoch_to_unix(m, unix_to_epoch(m, u)) <= u,
{
    let d = (u - m.epoch_zero_unix) as int;
    let i = m.interval_ms as int;
    if u > m.epoch_zero_unix {
        let e = (d * 1000) / i;
        assert(e * i <= d * 1000) by (nonlinear_arith)
            requires
                e == (d * 1000) / i,
                i > 0,
                d >= 0,
        ;
        assert((e * i) / 1000 <= d) by (nonlinear_arith)
            requires
                e * i <= d * 1000,
                e >= 0,
                i > 0,
        ;
    }
}

// ---------------------------------------------------------------------------
// Dates.
// ---------------------------------------------------------------------------

/// `str::parse::<u32>`.
pub open spec fn parse_u32(s: Seq<char>) -> Option<u64> {
    match parse_u64(s) {
        Some(v) => if v <= u32::MAX {
            Some(v)
        } else {
            None
        },
        None => None,
    }
}

/// `str::parse::<i32>` of a text without a `-` (as every part of a date
/// split at `-` is).
pub open spec fn parse_year(s: Seq<char>) -> Option<u64> {
    match parse_u64(s) {
        Some(v) => if v <= i32::MAX {
            Some(v)
        } else {
            None
        },
        None => None,
    }
}

/// Division rounding toward zero, as on Rust integers.
pub open spec fn tdiv(a: int, b: int) -> int {
    if a >= 0 {
        a / b
    } else {
        -((-a) / b)
    }
}

/// Days from 1970-01-01 to the proleptic Gregorian date (year, month, day),
/// by the era arithmetic of `days_from_civil`.
pub open spec fn civil_days(year: int, month: int, day: int) -> int {
    let y = if month <= 2 {
        year - 1
    } else {
        year
    };
    let m = if month <= 2 {
        month + 12
    } else {
        month
    };
    let era = tdiv(y, 400);
    let yoe = y - era * 400;
    let doy = (153 * (m - 3) + 2) / 5 + day - 1;
    let doe = yoe * 365 + tdiv(yoe, 4) - tdiv(yoe, 100) + doy;
    era * 146097 + doe - 719468
}

/// A Gregorian leap year.
pub open spec fn is_leap_year(year: int) -> bool {
    (year % 4 == 0 && year % 100 != 0) || year % 400 == 0
}

/// The number of days of a month (1..=12) in a year.
pub open spec fn month_days(year: int, month: int) -> int {
    if month == 2 {
        if is_leap_year(year) {
            29
        } else {
            28
        }
    } else if month == 4 || month == 6 || month == 9 || month == 11 {
        30
    } else {
        31
    }
}

/// Unix seconds at midnight of a date: `None` for a month outside 1..=12, a
/// day outside the month (leap years counted), or a date before 1970.
pub open spec fn date_seconds(year: int, month: int, day: int) -> Option<u64> {
    if !(1 <= month <= 12) || !(1 <= day <= month_days(year, month)) {
        None
    } else if civil_days(year, month, day) < 0 {
        None
    } else {
        Some(sat_mul(civil_days(year, month, day) as u64, 86400))
    }
}

/// Days from the era origin to March 1 of the March-based year `y`, as
/// `civil_days` counts them.
spec fn march_year_days(y: int) -> int {
    let era = tdiv(y, 400);
    let yoe = y - era * 400;
    era * 146097 + yoe * 365 + tdiv(yoe, 4) - tdiv(yoe, 100)
}

/// A March-based year is 365 days long, 366 when the February it ends with
/// is a leap one.
proof fn lemma_march_year_length(y: int)
    requires
        y >= 1,
    ensures
        march_year_days(y) - march_year_days(y - 1) == 365 + if is_leap_year(y) {
            1int
        } else {
            0int
        },
{
    let q = y / 400;
    let r = y % 400;
    assert(y == 400 * q + r);
    assert(tdiv(y, 400) == q);
    assert(y - q * 400 == r);
    assert(y % 4 == r % 4);
    assert(y % 100 == r % 100);
    if r >= 1 {
        assert((y - 1) / 400 == q);
        assert(tdiv(y - 1, 400) == q);
        assert(y - 1 - q * 400 == r - 1);
        assert(tdiv(r, 4) == r / 4);
        assert(tdiv(r - 1, 4) == (r - 1) / 4);
        assert(tdiv(r, 100) == r / 100);
        assert(tdiv(r - 1, 100) == (r - 1) / 100);
        assert(r / 4 - (r - 1) / 4 == if r % 4 == 0 {
            1int
        } else {
            0int
        });
        assert(r / 100 - (r - 1) / 100 == if r % 100 == 0 {
            1int
        } else {
            0int
        });
    } else {
        assert(q >= 1);
        assert((y - 1) / 400 == q - 1);
        assert(tdiv(y - 1, 400) == q - 1);
        assert(y - 1 - (q - 1) * 400 == 399);
        assert(tdiv(399, 4) == 99);
        assert(tdiv(399, 100) == 3);
        assert(march_year_days(y - 1) == (q - 1) * 146097 + 399 * 365 + 99 - 3);
        assert(march_year_days(y) == q * 146097);
    }
}

/// Law: the day count of a date is one more than that of the day before,
/// across month and year ends, leap years included; so dates map to
/// consecutive days.
pub proof fn lemma_next_day(y: int, m: int, d: int)
    requires
        y >= 1,
        1 <= m <= 12,
        1 <= d <= month_days(y, m),
    ensures
        d < month_days(y, m) ==> civil_days(y, m, d + 1) == civil_days(y, m, d) + 1,
        d == month_days(y, m) && m < 12 ==> civil_days(y, m + 1, 1) == civil_days(y, m, d) + 1,
        d == month_days(y, m) && m == 12 ==> civil_days(y + 1, 1, 1) == civil_days(y, m, d) + 1,
{
    if d == month_days(y, m) && m == 2 {
        lemma_march_year_length(y);
        assert(civil_days(y, 3, 1) == march_year_days(y) + 0 - 719468);
        assert(civil_days(y, 2, d) == march_year_days(y - 1) + 337 + d - 1 - 719468);
    }
    if d == month_days(y, m) && m == 12 {
        assert(civil_days(y + 1, 1, 1) == march_year_days(y) + 306 - 719468);
        assert(civil_days(y, 12, d) == march_year_days(y) + 275 + d - 1 - 719468);
    }
}

/// Law: 1970-01-01 is day zero, and a valid date's unix seconds are its day
/// count times 86400 (when that fits).
pub proof fn lemma_date_seconds_of_days(y: int, m: int, d: int)
    ensures
        civil_days(1970, 1, 1) == 0,
        1 <= m <= 12 && 1 <= d <= month_days(y, m) && 0 <= civil_days(y, m, d) && civil_days(y, m, d)
            * 86400 <= u64::MAX ==> date_seconds(y, m, d) == Some((civil_days(y, m, d) * 86400) as u64),
{
    assert(tdiv(1969, 400) == 4);
    assert(tdiv(369, 4) == 92);
    assert(tdiv(369, 100) == 3);
}

fn days_since_epoch(year: u64, month: u64, day: u64) -> (r: Option<u64>)
    requires
        year <= i32::MAX,
        month <= u32::MAX,
        day <= u32::MAX,
    ensures
        r == date_seconds(year as int, month as int, day as int),
{
    if month < 1 || month > 12 || day < 1 {
        return None;
    }
    let leap = (year % 4 == 0 && year % 100 != 0) || year % 400 == 0;
    let last: u64 = if month == 2 {
        if leap {
            29
        } else {
            28
        }
    } else if month == 4 || month == 6 || month == 9 || month == 11 {
        30
    } else {
        31
    };
    assert(last == month_days(year as int, month as int));
    if day > last {
        return None;
    }
    if month <= 2 && year == 0 {
        assert(civil_days(0, month as int, day as int) < 0);
        return None;
    }
    let y: u64 = if month <= 2 {
        year - 1
    } else {
        year
    };
    let m: u64 = if month <= 2 {
        month + 12
    } else {
        month
    };
    let era = y / 400;
    let yoe = y - era * 400;
    let doy = (153 * (m - 3) + 2) / 5 + day - 1;
    let doe = yoe * 365 + yoe / 4 - yoe / 100 + doy;
    assert(yoe / 4 >= yoe / 100);
    let total = era * 146097 + doe;
    proof {
        assert(tdiv(y as int, 400) == era);
        assert(tdiv(yoe as int, 4) == yoe / 4);
        assert(tdiv(yoe as int, 100) == yoe / 100);
        assert(civil_days(year as int, month as int, day as int) == total - 719468);
    }
    if total < 719468 {
        return None;
    }
    let days = total - 719468;
    Some(mul_sat(days, 86400))
}

/// What reading a `YYYY-MM-DD` date gives.
pub open spec fn ymd_to_unix(t: Seq<char>) -> Result<u64, MemErrorView> {
    let parts = split_char(t, '-');
    if parts.len() != 3 {
        Err(MemErrorView::Usage("date must be YYYY-MM-DD or unix seconds: "@ + t))
    } else if parse_year(parts[0]) is None {
        Err(MemErrorView::Usage("invalid year in date: "@ + t))
    } else if parse_u32(parts[1]) is None {
        Err(MemErrorView::Usage("invalid month in date: "@ + t))
    } else if parse_u32(parts[2]) is None {
        Err(MemErrorView::Usage("invalid day in date: "@ + t))
    } else {
        match date_seconds(
            parse_year(parts[0])->0 as int,
            parse_u32(parts[1])->0 as int,
            parse_u32(parts[2])->0 as int,
        ) {
            Some(s) => Ok(s),
            None => Err(MemErrorView::Usage("invalid calendar date: "@ + t)),
        }
    }
}

/// What reading a date gives: unix seconds when the trimmed text is all
/// digits, else a `YYYY-MM-DD` date.
pub open spec fn date_to_unix(date: Seq<char>) -> Result<u64, MemErrorView> {
    let t = trim(date);
    if all_digits(t) {
        match parse_u64(t) {
            Some(v) => Ok(v),
            None => Err(MemErrorView::Usage("invalid unix timestamp: "@ + date)),
        }
    } else {
        ymd_to_unix(t)
    }
}

fn usage_with(prefix: &str, v: &Vec<char>) -> (e: MemError)
    ensures
        e@ == MemErrorView::Usage(prefix@ + v@),
{
    let mut m: Vec<char> = Vec::new();
    push_str(&mut m, prefix);
    push_chars(&mut m, v);
    MemError::Usage(string_of(&m))
}

fn all_digit_chars(s: &Vec<char>) -> (b: bool)
    ensures
        b == all_digits(s@),
{
    let mut i: usize = 0;
    while i < s.len()
        invariant
            i <= s.len(),
            forall|j: int| 0 <= j < i ==> crate::text::is_digit(#[trigger] s@[j]),
        decreases s.len() - i,
    {
        let u = s[i] as u32;
        if u < 48 || u > 57 {
            return false;
        }
        i = i + 1;
    }
    true
}

fn parse_ymd(t: &Vec<char>) -> (r: Result<u64, MemError>)
    ensures
        match ymd_to_unix(t@) {
            Ok(v) => r matches Ok(x) && x == v,
            Err(e) => r matches Err(x) && x@ == e,
        },
{
    let parts = split_chars(t, '-');
    if parts.len() != 3 {
        return Err(usage_with("date must be YYYY-MM-DD or unix seconds: ", t));
    }
    assert(views(parts@)[0] == parts@[0]@);
    assert(views(parts@)[1] == parts@[1]@);
    assert(views(parts@)[2] == parts@[2]@);
    let year = match parse_u64_chars(&parts[0]) {
        Some(v) => if v <= 2147483647 {
            v
        } else {
            return Err(usage_with("invalid year in date: ", t));
        },
        None => return Err(usage_with("invalid year in date: ", t)),
    };
    let month = match parse_u64_chars(&parts[1]) {
        Some(v) => if v <= 4294967295 {
            v
        } else {
            return Err(usage_with("invalid month in date: ", t));
        },
        None => return Err(usage_with("invalid month in date: ", t)),
    };
    let day = match parse_u64_chars(&parts[2]) {
        Some(v) => if v <= 4294967295 {
            v
        } else {
            return Err(usage_with("invalid day in date: ", t));
        },
        None => return Err(usage_with("invalid day in date: ", t)),
    };
    match days_since_epoch(year, month, day) {
        Some(s) => Ok(s),
        None => Err(usage_with("invalid calendar date: ", t)),
    }
}

impl EpochMap {
    /// Reads a date given as unix seconds or as `YYYY-MM-DD`.
    pub fn parse_date_to_unix(date: &str) -> (r: Result<u64, MemError>)
        ensures
            match date_to_unix(date@) {
                Ok(v) => r matches Ok(x) && x == v,
                Err(e) => r matches Err(x) && x@ == e,
            },
    {
        let d = chars_of(date);
        let t = trim_chars(&d);
        if all_digit_chars(&t) {
            return match parse_u64_chars(&t) {
                Some(v) => Ok(v),
                None => Err(usage_with("invalid unix timestamp: ", &d)),
            };
        }
        parse_ymd(&t)
    }
}

// ---------------------------------------------------------------------------
// The `[pool]` table of a routing configuration.
// ---------------------------------------------------------------------------

pub open spec fn kv_key(kv: (Seq<char>, Seq<char>)) -> Seq<char> {
    kv.0
}

pub open spec fn kv_value(kv: (Seq<char>, Seq<char>)) -> Seq<char> {
    kv.1
}

/// The value of `key` in the `[pool]` table: lines are read without their
/// `#` comments and trimmed; the first `key = value` line of the table
/// decides, and its value must be a number.
pub open spec fn pool_value(ls: Seq<Seq<char>>, key: Seq<char>, in_pool: bool) -> Option<u64>
    decreases ls.len(),
{
    if ls.len() == 0 {
        None
    } else {
        let l = trim(before_char(ls[0], '#'));
        let rest = ls.drop_first();
        if l.len() == 0 {
            pool_value(rest, key, in_pool)
        } else if l == "[pool]"@ {
            pool_value(rest, key, true)
        } else if l[0] == '[' {
            pool_value(rest, key, false)
        } else if !in_pool {
            pool_value(rest, key, in_pool)
        } else if split_once(l, '=') is Some && trim(kv_key(split_once(l, '=')->0)) == key {
            parse_u64(trim(kv_value(split_once(l, '=')->0)))
        } else {
            pool_value(rest, key, in_pool)
        }
    }
}

/// Reads a number from the `[pool]` table of a routing configuration text.
pub fn parse_routing_pool_u64(text: &str, key: &str) -> (r: Option<u64>)
    ensures
        r == pool_value(lines(text@), key@, false),
{
    let ls = text_lines(text);
    let ghost vs = views(ls@);
    let mut in_pool = false;
    let mut i: usize = 0;
    assert(vs.skip(0) =~= vs);
    while i < ls.len()
        invariant
            vs == views(ls@),
            vs == lines(text@),
            i <= ls.len(),
            pool_value(vs, key@, false) == pool_value(vs.skip(i as int), key@, in_pool),
        decreases ls.len() - i,
    {
        assert(vs.skip(i as int)[0] == ls@[i as int]@);
        assert(vs.skip(i as int).drop_first() =~= vs.skip(i + 1));
        let nc = before_char_chars(&ls[i], '#');
        let line = trim_chars(&nc);
        if line.len() == 0 {
        } else if chars_eq_str(&line, "[pool]") {
            in_pool = true;
        } else if line[0] == '[' {
            in_pool = false;
        } else if in_pool {
            if let Some((k, v)) = split_once_chars(&line, '=') {
                let kt = trim_chars(&k);
                if chars_eq_str(&kt, key) {
                    let vt = trim_chars(&v);
                    return parse_u64_chars(&vt);
                }
            }
        }
        i = i + 1;
    }
    None
}

/// The first of the given settings that yields a value.
pub open spec fn first_some(a: Option<u64>, b: Option<u64>, c: Option<u64>, d: u64) -> u64 {
    if a is Some {
        a->0
    } else if b is Some {
        b->0
    } else if c is Some {
        c->0
    } else {
        d
    }
}

pub open spec fn parse_opt(s: Option<Seq<char>>) -> Option<u64> {
    match s {
        Some(t) => parse_u64(t),
        None => None,
    }
}

pub open spec fn config_value(config: Option<Seq<char>>, key: Seq<char>) -> Option<u64> {
    match config {
        Some(t) => pool_value(lines(t), key, false),
        None => None,
    }
}

fn parse_opt_str(s: Option<&str>) -> (r: Option<u64>)
    ensures
        r == parse_opt(match s {
            Some(t) => Some(t@),
            None => None,
        }),
{
    match s {
        Some(t) => {
            let c = chars_of(t);
            parse_u64_chars(&c)
        },
        None => None,
    }
}

fn config_value_of(config: Option<&str>, key: &str) -> (r: Option<u64>)
    ensures
        r == config_value(match config {
            Some(t) => Some(t@),
            None => None,
        }, key@),
{
    match config {
        Some(t) => parse_routing_pool_u64(t, key),
        None => None,
    }
}

impl EpochMap {
    /// The map configured by, in order of precedence: the given interval,
    /// `ITS_EPOCH_INTERVAL_MS`, the routing configuration's `[pool]`
    /// `epoch_interval_ms`, or 100 ms; and `ITS_EPOCH_ZERO_UNIX`, the
    /// configuration's `epoch_zero_unix`, or 0. The environment values and
    /// the configuration text are passed in as read.
    pub fn from_env_and_options(
        routing_config: Option<&str>,
        epoch_interval_ms: Option<u64>,
        env_interval_ms: Option<&str>,
        env_epoch_zero_unix: Option<&str>,
    ) -> (r: Result<Self, MemError>)
        ensures
            r matches Ok(m) && ({
                let cfg = match routing_config {
                    Some(t) => Some(t@),
                    None => None,
                };
                let interval = first_some(
                    epoch_interval_ms,
                    parse_opt(
                        match env_interval_ms {
                            Some(t) => Some(t@),
                            None => None,
                        },
                    ),
                    config_value(cfg, "epoch_interval_ms"@),
                    100,
                );
                let zero = first_some(
                    parse_opt(
                        match env_epoch_zero_unix {
                            Some(t) => Some(t@),
                            None => None,
                        },
                    ),
                    config_value(cfg, "epoch_zero_unix"@),
                    None,
                    0,
                );
                &&& m.interval_ms == if interval < 1 {
                    1
                } else {
                    interval
                }
                &&& m.epoch_zero_unix == zero
            }),
    {
        let interval = match epoch_interval_ms {
            Some(v) => v,
            None => match parse_opt_str(env_interval_ms) {
                Some(v) => v,
                None => match config_value_of(routing_config, "epoch_interval_ms") {
                    Some(v) => v,
                    None => 100,
                },
            },
        };
        let zero = match parse_opt_str(env_epoch_zero_unix) {
            Some(v) => v,
            None => match config_value_of(routing_config, "epoch_zero_unix") {
                Some(v) => v,
                None => 0,
            },
        };
        Ok(EpochMap::new(interval, zero))
    }
}

} // verus!
