//! Numbers as text, and the time.
use crate::text::string_of;
use std::time::{Duration, SystemTime, UNIX_EPOCH};
use vstd::prelude::*;

verus! {

/// A decimal digit.
pub open spec fn digit(n: int) -> char {
    (48 + n) as char
}

/// A number in decimal digits.
pub open spec fn decimal(n: nat) -> Seq<char>
    decreases n,
{
    if n < 10 {
        seq![digit(n as int)]
    } else {
        decimal(n / 10).push(digit((n % 10) as int))
    }
}

/// A number in decimal digits.
pub fn decimal_text(n: u64) -> (r: String)
    ensures
        r@ == decimal(n as nat),
{
    let mut digits: Vec<char> = Vec::new();
    let mut x: u64 = n;
    assert(decimal(x as nat) + digits@ =~= decimal(n as nat));
    while x >= 10
        invariant
            decimal(x as nat) + digits@ == decimal(n as nat),
        decreases x,
    {
        let c = (48 + (x % 10) as u8) as char;
        let ghost before = digits@;
        digits.insert(0, c);
        assert(decimal((x / 10) as nat).push(c) + before =~= decimal((x / 10) as nat) + digits@);
        x = x / 10;
    }
    let c = (48 + x as u8) as char;
    let ghost before = digits@;
    digits.insert(0, c);
    assert(seq![c] + before =~= digits@);
    string_of(digits.as_slice())
}

/// The time since 1970 in milliseconds, or 0 before. Only the lowest 64 bits
/// count.
pub open spec fn millis_of(since: Option<u128>) -> u64 {
    match since {
        Some(ms) => ms as u64,
        None => 0,
    }
}

/// The time since 1970 in milliseconds, or 0 before.
pub fn millis(since: Option<u128>) -> (r: u64)
    ensures
        r == millis_of(since),
{
    match since {
        Some(ms) => {
            #[verifier::truncate]
            (ms as u64)
        },
        None => 0,
    }
}

/// A time of the system's clock.
#[verifier::external_type_specification]
#[verifier::external_body]
pub struct ExSystemTime(std::time::SystemTime);

/// What `SystemTime::duration_since` gives for a time and the beginning of 1970.
pub uninterp spec fn after_1970(t: SystemTime) -> Option<Duration>;

/// What `Duration::as_millis` gives.
pub uninterp spec fn whole_millis(d: Duration) -> u128;

/// `std::time::SystemTime::now`: the time. Nothing is said of it.
#[verifier::external_body]
fn system_time() -> SystemTime {
    SystemTime::now()
}

/// `std::time::SystemTime::duration_since`, from the beginning of 1970: how long
/// ago that was at a time, if it was before it.
#[verifier::external_body]
fn since_1970(t: SystemTime) -> (r: Option<Duration>)
    ensures
        r == after_1970(t),
{
    t.duration_since(UNIX_EPOCH).ok()
}

/// `std::time::Duration::as_millis`: the whole milliseconds of a duration.
#[verifier::external_body]
fn as_millis(d: Duration) -> (r: u128)
    ensures
        r == whole_millis(d),
{
    d.as_millis()
}

/// The milliseconds from 1970 until a time.
pub open spec fn millis_until(t: SystemTime) -> u64 {
    millis_of(
        match after_1970(t) {
            Some(d) => Some(whole_millis(d)),
            None => None,
        },
    )
}

/// The milliseconds from 1970 until a time.
pub fn millis_at(t: SystemTime) -> (r: u64)
    ensures
        r == millis_until(t),
{
    match since_1970(t) {
        Some(d) => millis(Some(as_millis(d))),
        None => millis(None),
    }
}

/// The milliseconds from 1970 until now: those of `millis_at` for the time that
/// the clock shows. Which time that is is left unsaid.
pub fn now_millis() -> (r: u64)
    ensures
        exists|t: SystemTime| r == #[trigger] millis_until(t),
{
    millis_at(system_time())
}

/// Three decimal digits.
pub open spec fn three(n: int) -> Seq<char> {
    seq![digit(n / 100), digit(n / 10 % 10), digit(n % 10)]
}

/// A time stamp in seconds with three decimals, rounded.
pub open spec fn stamp_text(secs: u64, nanos: u32) -> Seq<char> {
    let ms = (nanos + 500_000) / 1_000_000;
    let s = if ms >= 1000 {
        secs + 1
    } else {
        secs as int
    };
    let frac = if ms >= 1000 {
        0
    } else {
        ms
    };
    "+"@ + decimal(s as nat) + "."@ + three(frac) + "s"@
}

/// A time stamp for the log: the seconds and nanoseconds since 1970, rounded to
/// milliseconds.
pub fn chrono_like_now(secs: u64, nanos: u32) -> (r: String)
    requires
        secs < u64::MAX,
        nanos < 1_000_000_000,
    ensures
        r@ == stamp_text(secs, nanos),
{
    let ms: u32 = (nanos + 500_000) / 1_000_000;
    let (s, frac): (u64, u32) = if ms >= 1000 {
        (secs + 1, 0)
    } else {
        (secs, ms)
    };
    let mut out = "+".to_owned();
    let whole = decimal_text(s);
    out.push_str(whole.as_str());
    out.push_str(".");
    let ghost before = out@;
    out.push((48 + (frac / 100) as u8) as char);
    out.push((48 + (frac / 10 % 10) as u8) as char);
    out.push((48 + (frac % 10) as u8) as char);
    assert(out@ =~= before + three(frac as int));
    out.push_str("s");
    out
}

/// How long ago a time was, in a coarse unit.
pub open spec fn ago(diff: int) -> Seq<char> {
    if diff < 60 {
        "just now"@
    } else if diff < 3600 {
        decimal((diff / 60) as nat) + " min ago"@
    } else if diff < 86_400 {
        decimal((diff / 3600) as nat) + " h ago"@
    } else if diff < 2_592_000 {
        decimal((diff / 86_400) as nat) + " d ago"@
    } else {
        decimal((diff / 604_800) as nat) + " wk ago"@
    }
}

/// How long ago a time in seconds since 1970 was; `now` is in milliseconds. A
/// time that is still to come is now.
pub fn fmt_ago(now: u64, epoch_secs: u64) -> (r: String)
    ensures
        r@ == ago(if now / 1000 > epoch_secs {
            now as int / 1000 - epoch_secs
        } else {
            0
        }),
{
    let secs: u64 = now / 1000;
    let diff: u64 = if secs > epoch_secs {
        secs - epoch_secs
    } else {
        0
    };
    if diff < 60 {
        return "just now".to_owned();
    }
    let (n, unit): (u64, &str) = if diff < 3600 {
        (diff / 60, " min ago")
    } else if diff < 86_400 {
        (diff / 3600, " h ago")
    } else if diff < 2_592_000 {
        (diff / 86_400, " d ago")
    } else {
        (diff / 604_800, " wk ago")
    };
    let mut out = decimal_text(n);
    out.push_str(unit);
    out
}

/// A time before 1970 counts as its beginning; any other is told by its
/// milliseconds as far as they fit.
pub proof fn law_time_before_1970(ms: u128)
    ensures
        millis_of(None) == 0,
        ms <= u64::MAX ==> millis_of(Some(ms)) == ms,
{
}

} // verus!
