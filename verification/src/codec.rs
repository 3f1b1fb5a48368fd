//! Timestamp codec: decodes a digit-run token into whole seconds plus an
//! optional fractional part, converts the seconds to proleptic-Gregorian UTC
//! calendar fields, and formats the canonical textual representation.

use vstd::prelude::*;
use chrono::Datelike;
use chrono::Timelike;

verus! {

use crate::is_digit;
use crate::all_digits;
use crate::writer::emit_buffer;

/// 10 to the power `n`.
pub open spec fn pow10(n: nat) -> int
    decreases n,
{
    if n == 0 {
        1
    } else {
        10 * pow10((n - 1) as nat)
    }
}

/// The number denoted by a sequence of ASCII decimal digits (most
/// significant first); the empty sequence denotes 0.
pub open spec fn digits_val(s: Seq<u8>) -> int
    decreases s.len(),
{
    if s.len() == 0 {
        0
    } else {
        digits_val(s.drop_last()) * 10 + (s.last() - 48)
    }
}

/// Gregorian leap-year rule: divisible by 4, not by 100 unless by 400.
pub open spec fn is_leap_year(y: int) -> bool {
    y % 4 == 0 && (y % 100 != 0 || y % 400 == 0)
}

pub open spec fn days_in_year(y: int) -> int {
    if is_leap_year(y) {
        366
    } else {
        365
    }
}

pub open spec fn days_in_month(y: int, m: int) -> int {
    if m == 2 {
        if is_leap_year(y) {
            29
        } else {
            28
        }
    } else if m == 4 || m == 6 || m == 9 || m == 11 {
        30
    } else {
        31
    }
}

/// Days from 1970-01-01 up to January 1st of year `y`.
pub open spec fn days_before_year(y: int) -> int
    decreases (if y > 1970 { y - 1970 } else { 0 }),
{
    if y <= 1970 {
        0
    } else {
        days_before_year(y - 1) + days_in_year(y - 1)
    }
}

/// Days from January 1st of year `y` up to the first day of month `m`.
pub open spec fn days_before_month(y: int, m: int) -> int
    decreases (if m > 1 { m - 1 } else { 0 }),
{
    if m <= 1 {
        0
    } else {
        days_before_month(y, m - 1) + days_in_month(y, m - 1)
    }
}

/// The fields form a calendar date and time of day that exist in the
/// proleptic Gregorian calendar, not before the Unix epoch.
pub open spec fn valid_civil(y: int, mo: int, d: int, h: int, mi: int, s: int) -> bool {
    &&& 1970 <= y
    &&& 1 <= mo <= 12
    &&& 1 <= d <= days_in_month(y, mo)
    &&& 0 <= h < 24
    &&& 0 <= mi < 60
    &&& 0 <= s < 60
}

/// Seconds since 1970-01-01T00:00:00Z of the given UTC calendar fields,
/// counting no leap seconds.
pub open spec fn epoch_of_civil(y: int, mo: int, d: int, h: int, mi: int, s: int) -> int {
    86400 * (days_before_year(y) + days_before_month(y, mo) + (d - 1)) + 3600 * h + 60 * mi + s
}

/// The UTC calendar fields (year, month, day, hour, minute, second) that
/// chrono computes for a given count of seconds since the Unix epoch.
pub uninterp spec fn civil_of(secs: u64) -> (u64, u64, u64, u64, u64, u64);

/// Relies on chrono::DateTime::from_timestamp and the Datelike/Timelike
/// accessors: an in-range count of non-leap seconds since
/// 1970-01-01T00:00:00Z maps to the proleptic-Gregorian UTC calendar
/// fields whose epoch count it is (see `lemma_civil_year_range` for the
/// year range this forces).
#[verifier::external_body]
fn civil_from_epoch(secs: u64) -> (r: (u64, u64, u64, u64, u64, u64))
    requires
        1_400_000_000 <= secs < 1_600_000_000,
    ensures
        r == civil_of(secs),
        valid_civil(r.0 as int, r.1 as int, r.2 as int, r.3 as int, r.4 as int, r.5 as int),
        epoch_of_civil(
            r.0 as int,
            r.1 as int,
            r.2 as int,
            r.3 as int,
            r.4 as int,
            r.5 as int,
        ) == secs as int,
{
    let t = chrono::DateTime::from_timestamp(secs as i64, 0).unwrap();
    (
        t.year() as u64,
        t.month() as u64,
        t.day() as u64,
        t.hour() as u64,
        t.minute() as u64,
        t.second() as u64,
    )
}

/// The last two decimal digits of `n`, as ASCII bytes.
pub open spec fn pad2(n: int) -> Seq<u8> {
    seq![(48 + ((n / 10) % 10)) as u8, (48 + (n % 10)) as u8]
}

/// The last four decimal digits of `n`, as ASCII bytes.
pub open spec fn pad4(n: int) -> Seq<u8> {
    seq![
        (48 + ((n / 1000) % 10)) as u8,
        (48 + ((n / 100) % 10)) as u8,
        (48 + ((n / 10) % 10)) as u8,
        (48 + (n % 10)) as u8,
    ]
}

/// `YYYY-MM-DDTHH:MM:SS` for the given civil fields.
pub open spec fn render_civil(c: (u64, u64, u64, u64, u64, u64)) -> Seq<u8> {
    pad4(c.0 as int) + seq![45u8] + pad2(c.1 as int) + seq![45u8] + pad2(c.2 as int)
        + seq![84u8] + pad2(c.3 as int) + seq![58u8] + pad2(c.4 as int) + seq![58u8]
        + pad2(c.5 as int)
}

/// The whole-seconds value of a token: its first ten digits.
pub open spec fn token_secs(tok: Seq<u8>) -> int {
    digits_val(tok.take(10))
}

/// A digit run qualifies as a timestamp token: 10 to 19 digits, the first
/// two forming the decimal literal "14" or "15".
pub open spec fn is_token(s: Seq<u8>) -> bool {
    &&& 10 <= s.len() <= 19
    &&& all_digits(s)
    &&& s[0] == 49
    &&& (s[1] == 52 || s[1] == 53)
}

/// The formatted replacement text of a token: the calendar rendering of its
/// first ten digits, then the remaining digits verbatim as a fractional
/// field, then `Z`.
pub open spec fn spec_format_token(tok: Seq<u8>) -> Seq<u8> {
    let body = render_civil(civil_of(token_secs(tok) as u64));
    if tok.len() > 10 {
        body + seq![46u8] + tok.skip(10) + seq![90u8]
    } else {
        body + seq![90u8]
    }
}

/// What a resolved candidate buffer contributes to the output: the
/// formatted timestamp if it qualifies as a token, the digits verbatim
/// otherwise.
pub open spec fn resolve(buf: Seq<u8>) -> Seq<u8> {
    if buf.len() >= 10 {
        spec_format_token(buf)
    } else {
        buf
    }
}

/// What a maximal digit run contributes to the output: the formatted
/// timestamp if it qualifies as a token, the run verbatim otherwise.
pub open spec fn digit_run_result(ds: Seq<u8>) -> Seq<u8> {
    if is_token(ds) {
        spec_format_token(ds)
    } else {
        ds
    }
}

proof fn lemma_pow10_pos(n: nat)
    ensures
        pow10(n) >= 1,
    decreases n,
{
    if n > 0 {
        lemma_pow10_pos((n - 1) as nat);
    }
}

proof fn lemma_pow10_mono(i: nat, j: nat)
    requires
        i <= j,
    ensures
        pow10(i) <= pow10(j),
    decreases j,
{
    if i < j {
        lemma_pow10_mono(i, (j - 1) as nat);
        lemma_pow10_pos((j - 1) as nat);
    }
}

/// A sequence of `n` digits denotes a value below 10^n.
proof fn lemma_digits_val_bound(s: Seq<u8>)
    requires
        all_digits(s),
    ensures
        0 <= digits_val(s) < pow10(s.len()),
    decreases s.len(),
{
    if s.len() > 0 {
        assert(all_digits(s.drop_last()));
        lemma_digits_val_bound(s.drop_last());
        assert(is_digit(s[s.len() - 1]));
    }
}

/// Splitting a digit sequence splits its value positionally.
proof fn lemma_digits_val_append(a: Seq<u8>, b: Seq<u8>)
    ensures
        digits_val(a + b) == digits_val(a) * pow10(b.len()) + digits_val(b),
    decreases b.len(),
{
    if b.len() == 0 {
        assert(a + b =~= a);
    } else {
        assert((a + b).drop_last() =~= a + b.drop_last());
        assert((a + b).last() == b.last());
        lemma_digits_val_append(a, b.drop_last());
        let x = digits_val(a);
        let y = pow10((b.len() - 1) as nat);
        assert(x * (10 * y) == (x * y) * 10) by (nonlinear_arith);
    }
}

/// The first ten digits of a token denote a value in the supported epoch
/// range.
pub proof fn lemma_token_secs_range(tok: Seq<u8>)
    requires
        is_token(tok),
    ensures
        1_400_000_000 <= token_secs(tok) < 1_600_000_000,
{
    let p = tok.take(10);
    assert(all_digits(p));
    let a = p.take(2);
    let b = p.skip(2);
    assert(p =~= a + b);
    lemma_digits_val_append(a, b);
    lemma_digits_val_bound(b);
    let a0 = seq![tok[0]];
    assert(a.drop_last() =~= a0);
    assert(a0.drop_last() =~= Seq::<u8>::empty());
    assert(digits_val(Seq::<u8>::empty()) == 0);
    assert(a0.last() == tok[0]);
    assert(digits_val(a0) == tok[0] - 48);
    assert(a.last() == tok[1]);
    assert(digits_val(a) == (tok[0] - 48) * 10 + (tok[1] - 48));
    assert(pow10(8) == 100_000_000) by {
        reveal_with_fuel(pow10, 9);
    }
    assert(b.len() == 8);
    assert(token_secs(tok) == digits_val(a) * 100_000_000 + digits_val(b));
    assert(digits_val(a) == 14 || digits_val(a) == 15);
    assert(0 <= digits_val(b) < 100_000_000);
    if digits_val(a) == 14 {
        assert(token_secs(tok) == 14 * 100_000_000 + digits_val(b));
    } else {
        assert(token_secs(tok) == 15 * 100_000_000 + digits_val(b));
    }
}

proof fn lemma_days_before_month_nonneg(y: int, m: int)
    ensures
        m >= 1 ==> days_before_month(y, m) >= 0,
    decreases (if m > 1 { m } else { 1 }),
{
    if m > 1 {
        lemma_days_before_month_nonneg(y, m - 1);
    }
}

/// The twelve months fill the year exactly.
proof fn lemma_months_fill_year(y: int)
    ensures
        days_before_month(y, 13) == days_in_year(y),
{
    reveal_with_fuel(days_before_month, 14);
}

proof fn lemma_days_before_month_bounded(y: int, m: int)
    requires
        1 <= m <= 12,
    ensures
        days_before_month(y, m) + days_in_month(y, m) <= days_before_month(y, 13),
    decreases 13 - m,
{
    if m < 12 {
        lemma_days_before_month_bounded(y, m + 1);
    }
}

/// A valid date's day index within its year lies below the year's length.
proof fn lemma_day_index_bounds(y: int, mo: int, d: int)
    requires
        1 <= mo <= 12,
        1 <= d <= days_in_month(y, mo),
    ensures
        0 <= days_before_month(y, mo) + (d - 1) < days_in_year(y),
{
    lemma_days_before_month_nonneg(y, mo);
    lemma_days_before_month_bounded(y, mo);
    lemma_months_fill_year(y);
}

proof fn lemma_days_before_year_mono(a: int, b: int)
    requires
        a <= b,
    ensures
        days_before_year(a) <= days_before_year(b),
    decreases (if b > a { b - a } else { 0 }),
{
    if a < b {
        lemma_days_before_year_mono(a, b - 1);
    }
}

#[verifier::spinoff_prover]
#[verifier::rlimit(60)]
proof fn lemma_day_count_2014()
    ensures
        days_before_year(2014) == 16071,
{
    reveal_with_fuel(days_before_year, 46);
}

#[verifier::spinoff_prover]
#[verifier::rlimit(60)]
proof fn lemma_day_count_2021()
    ensures
        days_before_year(2021) == 18628,
{
    reveal_with_fuel(days_before_year, 53);
}

/// Range guarantee: any valid calendar fields whose epoch count lies in the
/// supported range (2014-05-13T16:53:20Z up to but excluding
/// 2020-09-13T12:26:40Z) carry a year between 2014 and 2020, so the
/// four-digit year rendering is the year's full natural width.
pub proof fn lemma_civil_year_range(y: int, mo: int, d: int, h: int, mi: int, s: int)
    requires
        valid_civil(y, mo, d, h, mi, s),
        1_400_000_000 <= epoch_of_civil(y, mo, d, h, mi, s) < 1_600_000_000,
    ensures
        2014 <= y <= 2020,
{
    lemma_day_index_bounds(y, mo, d);
    let dd = days_before_year(y) + days_before_month(y, mo) + (d - 1);
    assert(days_before_year(y) <= dd < days_before_year(y) + days_in_year(y));
    assert(days_before_year(y + 1) == days_before_year(y) + days_in_year(y));
    assert(0 <= 3600 * h + 60 * mi + s < 86400);
    lemma_day_count_2014();
    lemma_day_count_2021();
    if y <= 2013 {
        lemma_days_before_year_mono(y + 1, 2014);
        assert(dd <= 16070);
        assert(epoch_of_civil(y, mo, d, h, mi, s) < 86400 * 16071);
        assert(false);
    }
    if y >= 2021 {
        lemma_days_before_year_mono(2021, y);
        assert(dd >= 18628);
        assert(epoch_of_civil(y, mo, d, h, mi, s) >= 86400 * 18628);
        assert(false);
    }
}

/// Append the two-digit zero-padded rendering of `n % 100`.
fn push2(out: &mut Vec<u8>, n: u64)
    ensures
        final(out)@ == old(out)@ + pad2(n as int),
{
    assert((n / 10) % 10 < 10);
    assert(n % 10 < 10);
    out.push((48 + (n / 10) % 10) as u8);
    out.push((48 + n % 10) as u8);
    assert(out@ =~= old(out)@ + pad2(n as int));
}

/// Append the four-digit zero-padded rendering of `n % 10000`.
fn push4(out: &mut Vec<u8>, n: u64)
    ensures
        final(out)@ == old(out)@ + pad4(n as int),
{
    assert((n / 1000) % 10 < 10);
    assert((n / 100) % 10 < 10);
    assert((n / 10) % 10 < 10);
    assert(n % 10 < 10);
    out.push((48 + (n / 1000) % 10) as u8);
    out.push((48 + (n / 100) % 10) as u8);
    out.push((48 + (n / 10) % 10) as u8);
    out.push((48 + n % 10) as u8);
    assert(out@ =~= old(out)@ + pad4(n as int));
}

/// Append `YYYY-MM-DDTHH:MM:SS` for the given civil fields. Takes the
/// fields as plain values, so its contract holds whatever a conversion
/// returned.
pub fn emit_civil(out: &mut Vec<u8>, c: (u64, u64, u64, u64, u64, u64))
    ensures
        final(out)@ == old(out)@ + render_civil(c),
{
    push4(out, c.0);
    out.push(45);
    push2(out, c.1);
    out.push(45);
    push2(out, c.2);
    out.push(84);
    push2(out, c.3);
    out.push(58);
    push2(out, c.4);
    out.push(58);
    push2(out, c.5);
    assert(out@ =~= old(out)@ + render_civil(c));
}

/// Decode a qualifying token and append its formatted calendar timestamp;
/// the buffer is left empty.
pub fn emit_date(out: &mut Vec<u8>, buffer: &mut Vec<u8>)
    requires
        is_token(old(buffer)@),
    ensures
        final(out)@ == old(out)@ + spec_format_token(old(buffer)@),
        final(buffer)@.len() == 0,
{
    let ghost tok: Seq<u8> = buffer@;
    let mut secs: u64 = 0;
    let mut i: usize = 0;
    while i < 10
        invariant
            buffer@ == tok,
            is_token(tok),
            0 <= i <= 10,
            secs == digits_val(tok.take(i as int)),
            0 <= secs < pow10(i as nat),
        decreases 10 - i,
    {
        proof {
            lemma_pow10_mono(i as nat, 9);
            assert(pow10(9) == 1_000_000_000) by {
                reveal_with_fuel(pow10, 10);
            }
            assert(tok.take(i + 1).drop_last() =~= tok.take(i as int));
            assert(tok.take(i + 1).last() == tok[i as int]);
            assert(is_digit(tok[i as int]));
        }
        let d: u8 = buffer[i];
        secs = secs * 10 + (d - 48) as u64;
        i += 1;
    }
    proof {
        assert(tok.take(10) =~= tok.take(i as int));
        lemma_token_secs_range(tok);
    }
    let c = civil_from_epoch(secs);
    emit_civil(out, c);
    let ghost mid: Seq<u8> = out@;
    if buffer.len() > 10 {
        out.push(46);
        let mut j: usize = 10;
        while j < buffer.len()
            invariant
                buffer@ == tok,
                10 <= j <= tok.len() <= 19,
                out@ == mid + seq![46u8] + tok.subrange(10, j as int),
            decreases buffer@.len() - j,
        {
            let d: u8 = buffer[j];
            out.push(d);
            proof {
                assert(tok.subrange(10, j + 1) =~= tok.subrange(10, j as int).push(tok[j as int]));
                assert(out@ =~= mid + seq![46u8] + tok.subrange(10, j + 1));
            }
            j += 1;
        }
        proof {
            assert(tok.subrange(10, tok.len() as int) =~= tok.skip(10));
        }
    }
    out.push(90);
    buffer.clear();
    proof {
        assert(token_secs(tok) as u64 == secs);
        assert(out@ =~= old(out)@ + spec_format_token(tok));
    }
}

/// Resolve a candidate buffer: format it as a timestamp if it reached the
/// ten-digit floor, emit its digits verbatim otherwise; the buffer is left
/// empty either way.
pub fn emit_date_or_buffer(out: &mut Vec<u8>, buffer: &mut Vec<u8>)
    requires
        all_digits(old(buffer)@),
        old(buffer)@.len() <= 19,
        old(buffer)@.len() >= 10 ==> old(buffer)@[0] == 49 && (old(buffer)@[1] == 52
            || old(buffer)@[1] == 53),
    ensures
        final(out)@ == old(out)@ + resolve(old(buffer)@),
        final(buffer)@.len() == 0,
{
    if buffer.len() >= 10 {
        emit_date(out, buffer);
    } else {
        emit_buffer(out, buffer);
    }
}

} // verus!
