//! How amounts of bytes and of time are written.
use crate::text;
use crate::text::{decimal_text, zero_pad};
use vstd::prelude::*;

verus! {

// ---------------------------------------------------------------------------
// Bytes
// ---------------------------------------------------------------------------

/// `n / d` rounded to the nearest whole number, to the even one of two.
pub open spec fn rounded(n: nat, d: nat) -> nat {
    if 2 * (n % d) > d || (2 * (n % d) == d && (n / d) % 2 == 1) {
        n / d + 1
    } else {
        n / d
    }
}

/// The distance of the numbers near `n` that a double-precision number can hold.
pub open spec fn spacing(n: nat) -> nat
    decreases n,
{
    if n < 0x20_0000_0000_0000 {
        1
    } else {
        2 * spacing(n / 2)
    }
}

/// The whole number that a double-precision number holds for `n`.
pub open spec fn as_double(n: nat) -> nat {
    rounded(n, spacing(n)) * spacing(n)
}

/// The unit that an amount is written in: its size and its name.
pub open spec fn unit(amount: nat) -> (nat, Seq<char>) {
    if amount < 0x400 {
        (1, "B"@)
    } else if amount < 0x10_0000 {
        (0x400, "KiB"@)
    } else if amount < 0x4000_0000 {
        (0x10_0000, "MiB"@)
    } else if amount < 0x100_0000_0000 {
        (0x4000_0000, "GiB"@)
    } else {
        (0x100_0000_0000, "TiB"@)
    }
}

/// An amount in its unit: with one decimal below a hundred, without one otherwise.
pub open spec fn bytes_text(bytes: nat) -> Seq<char> {
    let amount = as_double(bytes);
    let (size, name) = unit(amount);
    let number = if size == 1 || amount >= 100 * size {
        text::decimal(rounded(amount, size))
    } else {
        let tenths = rounded(10 * amount, size);
        text::decimal(tenths / 10) + "."@ + text::decimal(tenths % 10)
    };
    number + " "@ + name
}

fn round(n: u128, d: u128) -> (res: u128)
    requires
        0 < d <= 0x100_0000_0000,
        n <= 0x10_0000_0000_0000_0000,
    ensures
        res == rounded(n as nat, d as nat),
        res <= n / d + 1,
{
    let quotient = n / d;
    let rest = n % d;
    if 2 * rest > d || (2 * rest == d && quotient % 2 == 1) {
        quotient + 1
    } else {
        quotient
    }
}

proof fn lemma_spacing(n: nat, doublings: nat)
    requires
        n < 0x20_0000_0000_0000 * pow2(doublings),
    ensures
        1 <= spacing(n) <= pow2(doublings),
    decreases n,
{
    if n >= 0x20_0000_0000_0000 {
        assert(doublings > 0);
        assert(pow2(doublings) == 2 * pow2((doublings - 1) as nat));
        lemma_spacing(n / 2, (doublings - 1) as nat);
    } else {
        lemma_pow2_positive(doublings);
    }
}

spec fn pow2(n: nat) -> nat
    decreases n,
{
    if n == 0 {
        1
    } else {
        2 * pow2((n - 1) as nat)
    }
}

proof fn lemma_pow2_positive(n: nat)
    ensures
        pow2(n) >= 1,
    decreases n,
{
    if n > 0 {
        lemma_pow2_positive((n - 1) as nat);
    }
}

/// The whole number that a double-precision number holds for `n`.
fn double_of(n: u64) -> (res: u128)
    ensures
        res == as_double(n as nat),
        res <= 0x1_0000_0000_0000_0000,
{
    let mut part: u64 = n;
    let mut step: u64 = 1;
    proof {
        assert(pow2(11) == 2048) by {
            reveal_with_fuel(pow2, 12);
        }
        lemma_spacing(n as nat, 11);
    }
    while part >= 0x20_0000_0000_0000
        invariant
            spacing(n as nat) == step * spacing(part as nat),
            1 <= spacing(n as nat) <= 2048,
            1 <= step,
            1 <= spacing(part as nat),
        decreases part,
    {
        proof {
            let inner = spacing((part / 2) as nat);
            assert(spacing(part as nat) == 2 * inner);
            assert(step * (2 * inner) == (2 * step) * inner) by (nonlinear_arith);
            assert(2 * step <= (2 * step) * inner) by (nonlinear_arith)
                requires
                    1 <= inner,
                    1 <= step,
            ;
        }
        step = 2 * step;
        part = part / 2;
    }
    proof {
        assert(step * 1 == step) by (nonlinear_arith);
    }
    let quotient = round(n as u128, step as u128);
    proof {
        lemma_double_bound(n as nat, step as nat);
        assert(quotient * step <= 0x1_0000_0000_0000_0000);
    }
    quotient * (step as u128)
}

/// Rounding a 64-bit number to a multiple of its spacing stays within 64 bits or
/// gives the number that follows.
proof fn lemma_double_bound(n: nat, step: nat)
    requires
        n <= u64::MAX,
        step == spacing(n),
        1 <= step <= 2048,
    ensures
        rounded(n, step) * step <= 0x1_0000_0000_0000_0000,
{
    assert(pow2(11) == 2048) by {
        reveal_with_fuel(pow2, 12);
    }
    lemma_spacing_divides(n, 11);
    let k = 0x1_0000_0000_0000_0000nat / step;
    assert(k * step == 0x1_0000_0000_0000_0000);
    assert(n / step < k) by (nonlinear_arith)
        requires
            n < 0x1_0000_0000_0000_0000,
            k * step == 0x1_0000_0000_0000_0000,
            step >= 1,
    ;
    assert(rounded(n, step) * step <= k * step) by (nonlinear_arith)
        requires
            rounded(n, step) <= n / step + 1,
            n / step < k,
            step >= 1,
    ;
}

/// The spacing of a 64-bit number is a power of two.
proof fn lemma_spacing_divides(n: nat, doublings: nat)
    requires
        n < 0x20_0000_0000_0000 * pow2(doublings),
        doublings <= 11,
    ensures
        exists|e: nat| e <= doublings && spacing(n) == #[trigger] pow2(e),
        (0x1_0000_0000_0000_0000nat / spacing(n)) * spacing(n) == 0x1_0000_0000_0000_0000nat,
    decreases n,
{
    if n >= 0x20_0000_0000_0000 {
        assert(doublings > 0);
        assert(pow2(doublings) == 2 * pow2((doublings - 1) as nat));
        lemma_spacing_divides(n / 2, (doublings - 1) as nat);
        let e = choose|e: nat| e <= (doublings - 1) && spacing(n / 2) == #[trigger] pow2(e);
        assert(spacing(n) == pow2(e + 1));
        lemma_small_powers_divide(e + 1);
    } else {
        assert(pow2(0) == 1);
    }
}

proof fn lemma_small_powers_divide(e: nat)
    requires
        e <= 11,
    ensures
        (0x1_0000_0000_0000_0000nat / pow2(e)) * pow2(e) == 0x1_0000_0000_0000_0000nat,
{
    reveal_with_fuel(pow2, 12);
    assert(pow2(e) == 1 || pow2(e) == 2 || pow2(e) == 4 || pow2(e) == 8 || pow2(e) == 16
        || pow2(e) == 32 || pow2(e) == 64 || pow2(e) == 128 || pow2(e) == 256 || pow2(e) == 512
        || pow2(e) == 1024 || pow2(e) == 2048);
}

/// An amount of bytes in a unit that suits it.
pub fn format_bytes(bytes: u64) -> (res: String)
    ensures
        res@ == bytes_text(bytes as nat),
{
    let amount = double_of(bytes);
    let (size, name) = if amount < 0x400 {
        (1u128, "B")
    } else if amount < 0x10_0000 {
        (0x400u128, "KiB")
    } else if amount < 0x4000_0000 {
        (0x10_0000u128, "MiB")
    } else if amount < 0x100_0000_0000 {
        (0x4000_0000u128, "GiB")
    } else {
        (0x100_0000_0000u128, "TiB")
    };
    let mut out = if size == 1 || amount >= 100 * size {
        let whole = round(amount, size);
        proof {
            assert(whole <= 0x1000_0000_0000_0000) by {
                if size == 1 {
                    assert(amount / 1 < 0x400);
                } else {
                    assert(amount / size <= amount / 0x400) by (nonlinear_arith)
                        requires
                            size >= 0x400,
                    ;
                }
            }
        }
        decimal_text(whole as u64)
    } else {
        let tenths = round(10 * amount, size);
        proof {
            assert((10 * amount) / (size as int) < 1000) by (nonlinear_arith)
                requires
                    amount < 100 * size,
                    size > 0,
            ;
        }
        let mut number = decimal_text((tenths / 10) as u64);
        number.append(".");
        number.append(&decimal_text((tenths % 10) as u64));
        number
    };
    out.append(" ");
    out.append(name);
    out
}

// ---------------------------------------------------------------------------
// Time
// ---------------------------------------------------------------------------

/// Seconds in hours, minutes and seconds.
pub open spec fn duration_text(seconds: nat) -> Seq<char> {
    let hours = seconds / 3600;
    let minutes = seconds % 3600 / 60;
    let rest = seconds % 60;
    if hours > 0 {
        text::decimal(hours) + "h "@ + text::zero_padded(text::decimal(minutes), 2) + "m "@
            + text::zero_padded(text::decimal(rest), 2) + "s"@
    } else if minutes > 0 {
        text::decimal(minutes) + "m "@ + text::zero_padded(text::decimal(rest), 2) + "s"@
    } else {
        text::decimal(rest) + "s"@
    }
}

/// Seconds in hours, minutes and seconds.
pub fn format_duration(seconds: u64) -> (res: String)
    ensures
        res@ == duration_text(seconds as nat),
{
    let hours = seconds / 3600;
    let minutes = seconds % 3600 / 60;
    let rest = seconds % 60;
    if hours > 0 {
        let mut out = decimal_text(hours);
        out.append("h ");
        out.append(&zero_pad(&decimal_text(minutes), 2));
        out.append("m ");
        out.append(&zero_pad(&decimal_text(rest), 2));
        out.append("s");
        out
    } else if minutes > 0 {
        let mut out = decimal_text(minutes);
        out.append("m ");
        out.append(&zero_pad(&decimal_text(rest), 2));
        out.append("s");
        out
    } else {
        let mut out = decimal_text(rest);
        out.append("s");
        out
    }
}

// ---------------------------------------------------------------------------
// Transfers
// ---------------------------------------------------------------------------

/// What was measured of a transfer: its share in percent, its rate per second, and
/// the whole seconds that it will still take, if that can be told.
#[derive(Debug)]
pub struct Estimate {
    pub percentage: String,
    pub rate: String,
    pub seconds_left: Option<u64>,
}

/// The value of an [`Estimate`].
pub struct EstimateView {
    pub percentage: Seq<char>,
    pub rate: Seq<char>,
    pub seconds_left: Option<u64>,
}

impl View for Estimate {
    type V = EstimateView;

    open spec fn view(&self) -> EstimateView {
        EstimateView {
            percentage: self.percentage@,
            rate: self.rate@,
            seconds_left: self.seconds_left,
        }
    }
}

/// How the time that a transfer will still take is written.
pub open spec fn eta_text(transferred: u64, expected: u64, seconds_left: Option<u64>) -> Seq<char> {
    if transferred >= expected {
        "0s"@
    } else {
        match seconds_left {
            Some(seconds) => duration_text(seconds as nat),
            None => "--"@,
        }
    }
}

/// How a transfer is written.
pub open spec fn transfer_text(
    transferred: u64,
    expected: Option<u64>,
    estimate: EstimateView,
) -> Seq<char> {
    match expected {
        Some(expected) => bytes_text(transferred as nat) + "/"@ + bytes_text(expected as nat)
            + " ("@ + estimate.percentage + "%) "@ + estimate.rate + "/s ETA "@ + eta_text(
            transferred,
            expected,
            estimate.seconds_left,
        ),
        None => bytes_text(transferred as nat) + " "@ + estimate.rate + "/s"@,
    }
}

pub fn format_eta(transferred: u64, expected: u64, seconds_left: Option<u64>) -> (res: String)
    ensures
        res@ == eta_text(transferred, expected, seconds_left),
{
    if transferred >= expected {
        return "0s".to_owned();
    }
    match seconds_left {
        Some(seconds) => format_duration(seconds),
        None => "--".to_owned(),
    }
}

pub fn format_transfer(transferred: u64, expected: Option<u64>, estimate: &Estimate) -> (res: String)
    ensures
        res@ == transfer_text(transferred, expected, estimate@),
{
    let mut out = format_bytes(transferred);
    match expected {
        Some(expected) => {
            out.append("/");
            out.append(&format_bytes(expected));
            out.append(" (");
            out.append(&estimate.percentage);
            out.append("%) ");
            out.append(&estimate.rate);
            out.append("/s ETA ");
            out.append(&format_eta(transferred, expected, estimate.seconds_left));
            out
        },
        None => {
            out.append(" ");
            out.append(&estimate.rate);
            out.append("/s");
            out
        },
    }
}

// ---------------------------------------------------------------------------
// Laws
// ---------------------------------------------------------------------------

/// A number is rounded to a whole that is no further away than any other; of two that are as
/// near, to the even one.
pub proof fn lemma_rounding_goes_to_the_nearest(n: nat, d: nat)
    requires
        d > 0,
    ensures
        2 * (rounded(n, d) * d) <= 2 * n + d,
        2 * n <= 2 * (rounded(n, d) * d) + d,
        2 * (rounded(n, d) * d) == 2 * n + d || 2 * n == 2 * (rounded(n, d) * d) + d ==> rounded(
            n,
            d,
        ) % 2 == 0,
{
    let q = n / d;
    let r = n % d;
    assert(n == q * d + r && 0 <= r < d) by (nonlinear_arith)
        requires
            d > 0,
            q == n / d,
            r == n % d,
    ;
    assert((q + 1) * d == q * d + d) by (nonlinear_arith);
}

/// An amount is written in the largest unit that it holds one of, each unit being 1024 of
/// the one before it, up to the tebibyte.
pub proof fn lemma_amounts_have_the_largest_unit_that_fits(amount: nat)
    ensures
        amount < 1024 ==> unit(amount) == (1nat, "B"@),
        1024 <= amount < 1024 * 1024 ==> unit(amount) == (1024nat, "KiB"@),
        1024 * 1024 <= amount < 1024 * 1024 * 1024 ==> unit(amount) == (
            (1024 * 1024) as nat,
            "MiB"@,
        ),
        1024 * 1024 * 1024 <= amount < 1024 * 1024 * 1024 * 1024 ==> unit(amount) == (
            (1024 * 1024 * 1024) as nat,
            "GiB"@,
        ),
        amount >= 1024 * 1024 * 1024 * 1024 ==> unit(amount) == (
            (1024 * 1024 * 1024 * 1024) as nat,
            "TiB"@,
        ),
{
}

/// Up to 53 bits an amount is counted exactly. Bytes are written whole; of a larger unit,
/// fewer than a hundred are written with one decimal, and others whole.
pub proof fn lemma_amounts_are_written_in_their_unit(bytes: nat)
    requires
        bytes < 0x20_0000_0000_0000,
    ensures
        bytes < 1024 ==> bytes_text(bytes) == text::decimal(bytes) + " B"@,
        bytes >= 1024 ==> ({
            let (size, name) = unit(bytes);
            &&& bytes >= 100 * size ==> bytes_text(bytes) == text::decimal(rounded(bytes, size))
                + seq![' '] + name
            &&& bytes < 100 * size ==> bytes_text(bytes) == text::decimal(
                rounded(10 * bytes, size) / 10,
            ) + seq!['.'] + text::decimal(rounded(10 * bytes, size) % 10) + seq![' '] + name
        }),
{
    reveal_strlit(" ");
    reveal_strlit(".");
    reveal_strlit("B");
    reveal_strlit(" B");
    assert(" "@ =~= seq![' ']);
    assert("."@ =~= seq!['.']);
    assert(" "@ + "B"@ =~= " B"@);
    assert(spacing(bytes) == 1);
    assert(rounded(bytes, 1) == bytes);
    assert(as_double(bytes) == bytes);
    if bytes < 1024 {
        assert(bytes_text(bytes) =~= text::decimal(bytes) + " B"@);
    }
}

/// A larger amount is first held as the nearest number of 53 significant bits.
pub proof fn lemma_large_amounts_keep_53_bits(bytes: nat)
    requires
        bytes >= 0x20_0000_0000_0000,
    ensures
        spacing(bytes) == 2 * spacing(bytes / 2),
        spacing(bytes) >= 2,
        as_double(bytes) == rounded(bytes, spacing(bytes)) * spacing(bytes),
        0x10_0000_0000_0000 * spacing(bytes) <= bytes < 0x20_0000_0000_0000 * spacing(bytes),
    decreases bytes,
{
    let half = bytes / 2;
    if half >= 0x20_0000_0000_0000 {
        lemma_large_amounts_keep_53_bits(half);
    }
}

/// A duration is written in hours, minutes and seconds that together make it up, the larger
/// ones only where they are needed, and the smaller ones behind them in two digits.
pub proof fn lemma_durations_are_made_up_of_their_parts(hours: nat, minutes: nat, seconds: nat)
    requires
        minutes < 60,
        seconds < 60,
    ensures
        duration_text(seconds) == text::decimal(seconds).push('s'),
        minutes > 0 ==> duration_text(60 * minutes + seconds) == text::decimal(minutes) + "m "@
            + text::zero_padded(text::decimal(seconds), 2).push('s'),
        hours > 0 ==> duration_text(3600 * hours + 60 * minutes + seconds) == text::decimal(hours)
            + "h "@ + text::zero_padded(text::decimal(minutes), 2) + "m "@ + text::zero_padded(
            text::decimal(seconds),
            2,
        ).push('s'),
{
    reveal_strlit("s");
    assert("s"@ =~= seq!['s']);
    assert(duration_text(seconds) =~= text::decimal(seconds).push('s'));
    if minutes > 0 {
        let total = 60 * minutes + seconds;
        assert(total % 3600 / 60 == minutes && total % 60 == seconds && total / 3600 == 0);
        assert(duration_text(total) =~= text::decimal(minutes) + "m "@ + text::zero_padded(
            text::decimal(seconds),
            2,
        ).push('s'));
    }
    if hours > 0 {
        let total = 3600 * hours + 60 * minutes + seconds;
        assert(total / 3600 == hours);
        assert(total % 3600 == 60 * minutes + seconds);
        assert(total % 60 == seconds);
        assert(duration_text(total) =~= text::decimal(hours) + "h "@ + text::zero_padded(
            text::decimal(minutes),
            2,
        ) + "m "@ + text::zero_padded(text::decimal(seconds), 2).push('s'));
    }
}

/// A transfer that has all of its bytes takes no more time; of another one, what was
/// estimated is written, if something was.
pub proof fn lemma_finished_transfers_take_no_more_time(
    transferred: u64,
    expected: u64,
    seconds: u64,
)
    ensures
        transferred >= expected ==> eta_text(transferred, expected, Some(seconds)) == "0s"@
            && eta_text(transferred, expected, None) == "0s"@,
        transferred < expected ==> eta_text(transferred, expected, Some(seconds)) == duration_text(
            seconds as nat,
        ) && eta_text(transferred, expected, None) == "--"@,
{
}

/// A transfer is written with what came and its rate; one whose size is known, also with its
/// size, its share and its time.
pub proof fn lemma_transfers_are_written_with_what_is_known(
    transferred: u64,
    expected: u64,
    estimate: EstimateView,
)
    ensures
        transfer_text(transferred, Some(expected), estimate) == bytes_text(transferred as nat)
            + seq!['/'] + bytes_text(expected as nat) + " ("@ + estimate.percentage + "%) "@
            + estimate.rate + "/s ETA "@ + eta_text(transferred, expected, estimate.seconds_left),
        transfer_text(transferred, None, estimate) == bytes_text(transferred as nat) + seq![' ']
            + estimate.rate + "/s"@,
{
    reveal_strlit("/");
    reveal_strlit(" ");
    assert("/"@ =~= seq!['/']);
    assert(" "@ =~= seq![' ']);
}

} // verus!
