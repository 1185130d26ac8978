//! Rendering of sizes, permissions and times for `ls`, and the scaled sizes
//! that `du` and the terminal report build on.
//!
//! Human-readable sizes are printed with one decimal (`{:.1}`) of
//! `size as f64 / unit as f64`. Every quantity involved is an exact binary
//! rational, so the text is computed here exactly with integers: the size is
//! first rounded to the nearest double (ties to even, as `as f64` does), the
//! quotient by the power-of-two unit is exact, and the decimal is rounded to
//! tenths with ties to even, as exact float formatting does.
use vstd::prelude::*;
use crate::text::{decimal, decimal_chars, digit_char, digit_to_char, string_of, push_char, push_str};

verus! {

/// `2^e`.
pub open spec fn two_to(e: nat) -> nat
    decreases e,
{
    if e == 0 { 1 } else { 2 * two_to((e - 1) as nat) }
}

/// The number of binary digits of `n` (0 for 0).
pub open spec fn bit_len(n: nat) -> nat
    decreases n,
{
    if n == 0 { 0 } else { 1 + bit_len(n / 2) }
}

/// The value of `n as f64` for an integer `n`: `n` rounded to 53 significant
/// bits, to the nearest such value, ties to the even significand.
pub open spec fn as_double(n: nat) -> nat {
    let b = bit_len(n);
    if b <= 53 {
        n
    } else {
        let p = two_to((b - 53) as nat);
        let q = n / p;
        let r = n % p;
        let h = p / 2;
        let up = r > h || (r == h && q % 2 == 1);
        (if up { q + 1 } else { q }) * p
    }
}

/// `f / unit` in tenths, rounded to nearest, ties to even.
pub open spec fn tenths(f: nat, unit: nat) -> nat {
    let t = f * 10 / unit;
    let r = f * 10 % unit;
    if 2 * r > unit || (2 * r == unit && t % 2 == 1) { t + 1 } else { t }
}

/// `{:.1}` of `f / unit`.
pub open spec fn one_decimal(f: nat, unit: nat) -> Seq<char> {
    let t = tenths(f, unit);
    decimal(t / 10) + seq!['.', digit_char(t % 10)]
}

/// `{:.1}` of `size as f64 / unit as f64` followed by a unit letter.
pub open spec fn scaled(size: nat, unit: nat, letter: char) -> Seq<char> {
    one_decimal(as_double(size), unit).push(letter)
}

pub open spec fn kib() -> nat { 1024 }
pub open spec fn mib() -> nat { 1024 * 1024 }
pub open spec fn gib() -> nat { 1024 * 1024 * 1024 }
pub open spec fn tib() -> nat { 1024 * 1024 * 1024 * 1024 }

proof fn lemma_bit_len_bound(n: nat, k: nat)
    requires
        n < two_to(k),
    ensures
        bit_len(n) <= k,
    decreases k,
{
    if n > 0 {
        assert(k > 0);
        lemma_bit_len_bound(n / 2, (k - 1) as nat);
    }
}

proof fn lemma_two_to_mono(j: nat, k: nat)
    requires
        j <= k,
    ensures
        two_to(j) <= two_to(k),
        two_to(j) >= 1,
    decreases k,
{
    if j < k {
        lemma_two_to_mono(j, (k - 1) as nat);
    } else if k > 0 {
        lemma_two_to_mono(0, (k - 1) as nat);
    }
}

proof fn lemma_two_to_64()
    ensures
        two_to(64) == 0x1_0000_0000_0000_0000,
        two_to(11) == 2048,
        two_to(53) == 0x20_0000_0000_0000,
{
    reveal_with_fuel(two_to, 65);
}

/// The exact value of `n as f64`.
fn double_value(n: u64) -> (f: u128)
    ensures
        f == as_double(n as nat),
        f <= 0x1_0000_0000_0000_0800,
{
    let mut m: u64 = n;
    let mut b: u32 = 0;
    proof {
        lemma_two_to_64();
        lemma_bit_len_bound(n as nat, 64);
    }
    while m > 0
        invariant
            b as nat + bit_len(m as nat) == bit_len(n as nat),
            bit_len(n as nat) <= 64,
        decreases m,
    {
        m = m / 2;
        b = b + 1;
    }
    if b <= 53 {
        return n as u128;
    }
    let s: u32 = b - 53;
    let mut p: u128 = 1;
    let mut j: u32 = 0;
    while j < s
        invariant
            j <= s,
            s <= 11,
            p == two_to(j as nat),
        decreases s - j,
    {
        proof {
            lemma_two_to_mono(j as nat, 10);
            reveal_with_fuel(two_to, 12);
        }
        p = p * 2;
        j = j + 1;
    }
    proof {
        lemma_two_to_mono(0, s as nat);
        lemma_two_to_mono(s as nat, 11);
    }
    let nn: u128 = n as u128;
    let q = nn / p;
    let r = nn % p;
    let h = p / 2;
    let up = r > h || (r == h && q % 2 == 1);
    proof {
        vstd::arithmetic::div_mod::lemma_fundamental_div_mod(nn as int, p as int);
        assert(q * p <= nn) by (nonlinear_arith)
            requires
                nn == p * q + r,
                r >= 0,
                p >= 1,
        ;
        assert((q + 1) * p == q * p + p) by (nonlinear_arith);
        if up {
            assert(r > 0 || p == 1);
        }
    }
    let qq = if up { q + 1 } else { q };
    proof {
        assert(qq * p <= 0x1_0000_0000_0000_0800) by (nonlinear_arith)
            requires
                qq == q || qq == q + 1,
                q * p <= nn,
                nn < 0x1_0000_0000_0000_0000,
                (q + 1) * p == q * p + p,
                p <= 2048,
        ;
    }
    qq * p
}

/// `f / unit` in tenths, rounded as `tenths` says.
fn tenths_of(f: u128, unit: u128) -> (t: u64)
    requires
        unit >= 1024,
        f <= 0x1_0000_0000_0000_0800,
    ensures
        t == tenths(f as nat, unit as nat),
{
    let ten_f = f * 10;
    let t = ten_f / unit;
    let r = ten_f % unit;
    proof {
        vstd::arithmetic::div_mod::lemma_fundamental_div_mod(ten_f as int, unit as int);
        assert(t * 1024 <= ten_f) by (nonlinear_arith)
            requires
                ten_f == unit * t + r,
                r >= 0,
                unit >= 1024,
                t >= 0,
        ;
    }
    let up = 2 * r > unit || (2 * r == unit && t % 2 == 1);
    let tt = if up { t + 1 } else { t };
    tt as u64
}

/// `{:.1}` of `size as f64 / unit as f64`, then `letter`.
pub(crate) fn scaled_text(size: u64, unit: u128, letter: char) -> (r: String)
    requires
        unit >= 1024,
    ensures
        r@ == scaled(size as nat, unit as nat, letter),
{
    let f = double_value(size);
    let t = tenths_of(f, unit);
    let mut v = decimal_chars(t / 10);
    v.push('.');
    v.push(digit_to_char(t % 10));
    v.push(letter);
    string_of(v.as_slice())
}

/// What `ls` prints as a size: the byte count, or with `-h` one decimal and
/// `G`, `M` or `K` from 1 KiB up.
pub open spec fn ls_size_spec(size: nat, human_readable: bool) -> Seq<char> {
    if !human_readable {
        decimal(size)
    } else if size >= gib() {
        scaled(size, gib(), 'G')
    } else if size >= mib() {
        scaled(size, mib(), 'M')
    } else if size >= kib() {
        scaled(size, kib(), 'K')
    } else {
        decimal(size)
    }
}

/// `format_size` of `ls`.
pub fn format_size(size: u64, human_readable: bool) -> (r: String)
    ensures
        r@ == ls_size_spec(size as nat, human_readable),
{
    if !human_readable {
        return crate::text::decimal_string(size);
    }
    if size >= 1024 * 1024 * 1024 {
        scaled_text(size, 1024 * 1024 * 1024, 'G')
    } else if size >= 1024 * 1024 {
        scaled_text(size, 1024 * 1024, 'M')
    } else if size >= 1024 {
        scaled_text(size, 1024, 'K')
    } else {
        crate::text::decimal_string(size)
    }
}

/// One permission character: `c` when the bit is set, `-` otherwise.
pub open spec fn perm_char(mode: u32, bit: u32, c: char) -> char {
    if mode & bit != 0 { c } else { '-' }
}

/// `ls -l`'s permission column: the type (`d` or `-`) and the nine
/// owner/group/other read-write-execute bits.
pub open spec fn permissions_spec(mode: u32, is_dir: bool) -> Seq<char> {
    seq![
        if is_dir { 'd' } else { '-' },
        perm_char(mode, 0o400, 'r'),
        perm_char(mode, 0o200, 'w'),
        perm_char(mode, 0o100, 'x'),
        perm_char(mode, 0o040, 'r'),
        perm_char(mode, 0o020, 'w'),
        perm_char(mode, 0o010, 'x'),
        perm_char(mode, 0o004, 'r'),
        perm_char(mode, 0o002, 'w'),
        perm_char(mode, 0o001, 'x')
    ]
}

/// The letter of the `k`-th permission bit counted from the owner's read bit:
/// `r`, `w`, `x` in turn.
pub open spec fn rwx(k: int) -> char {
    if k % 3 == 0 { 'r' } else if k % 3 == 1 { 'w' } else { 'x' }
}

/// The permission column is the type, then for each of the nine bits from
/// `0o400` down to `0o001` its letter when the bit is set and `-` when not.
pub proof fn lemma_permission_bits(mode: u32, is_dir: bool)
    ensures
        permissions_spec(mode, is_dir).len() == 10,
        permissions_spec(mode, is_dir)[0] == (if is_dir { 'd' } else { '-' }),
        forall|k: int| 0 <= k < 9 ==> #[trigger] permissions_spec(mode, is_dir)[1 + k]
            == (if mode & (0o400u32 >> (k as u32)) != 0 { rwx(k) } else { '-' }),
{
    assert(0o400u32 >> 0u32 == 0o400u32) by (bit_vector);
    assert(0o400u32 >> 1u32 == 0o200u32) by (bit_vector);
    assert(0o400u32 >> 2u32 == 0o100u32) by (bit_vector);
    assert(0o400u32 >> 3u32 == 0o040u32) by (bit_vector);
    assert(0o400u32 >> 4u32 == 0o020u32) by (bit_vector);
    assert(0o400u32 >> 5u32 == 0o010u32) by (bit_vector);
    assert(0o400u32 >> 6u32 == 0o004u32) by (bit_vector);
    assert(0o400u32 >> 7u32 == 0o002u32) by (bit_vector);
    assert(0o400u32 >> 8u32 == 0o001u32) by (bit_vector);
    let p = permissions_spec(mode, is_dir);
    assert forall|k: int| 0 <= k < 9 implies #[trigger] p[1 + k]
        == (if mode & (0o400u32 >> (k as u32)) != 0 { rwx(k) } else { '-' }) by {
        if k == 0 {} else if k == 1 {} else if k == 2 {} else if k == 3 {} else if k == 4 {}
        else if k == 5 {} else if k == 6 {} else if k == 7 {} else {}
    }
}

fn bit_char(mode: u32, bit: u32, c: char) -> (r: char)
    ensures
        r == perm_char(mode, bit, c),
{
    if mode & bit != 0 { c } else { '-' }
}

/// `format_permissions`.
pub fn format_permissions(mode: u32, is_dir: bool) -> (r: String)
    ensures
        r@ == permissions_spec(mode, is_dir),
        r@.len() == 10,
        r@[0] == (if is_dir { 'd' } else { '-' }),
        forall|k: int| 0 <= k < 9 ==> #[trigger] r@[1 + k]
            == (if mode & (0o400u32 >> (k as u32)) != 0 { rwx(k) } else { '-' }),
{
    proof { lemma_permission_bits(mode, is_dir); }
    let mut v: Vec<char> = Vec::new();
    v.push(if is_dir { 'd' } else { '-' });
    v.push(bit_char(mode, 0o400, 'r'));
    v.push(bit_char(mode, 0o200, 'w'));
    v.push(bit_char(mode, 0o100, 'x'));
    v.push(bit_char(mode, 0o040, 'r'));
    v.push(bit_char(mode, 0o020, 'w'));
    v.push(bit_char(mode, 0o010, 'x'));
    v.push(bit_char(mode, 0o004, 'r'));
    v.push(bit_char(mode, 0o002, 'w'));
    v.push(bit_char(mode, 0o001, 'x'));
    assert(v@ =~= permissions_spec(mode, is_dir));
    string_of(v.as_slice())
}

/// `month_name`: the English abbreviation of months 1 to 12, `???` otherwise.
pub open spec fn month_spec(m: u64) -> Seq<char> {
    if m == 1 { seq!['J', 'a', 'n'] }
    else if m == 2 { seq!['F', 'e', 'b'] }
    else if m == 3 { seq!['M', 'a', 'r'] }
    else if m == 4 { seq!['A', 'p', 'r'] }
    else if m == 5 { seq!['M', 'a', 'y'] }
    else if m == 6 { seq!['J', 'u', 'n'] }
    else if m == 7 { seq!['J', 'u', 'l'] }
    else if m == 8 { seq!['A', 'u', 'g'] }
    else if m == 9 { seq!['S', 'e', 'p'] }
    else if m == 10 { seq!['O', 'c', 't'] }
    else if m == 11 { seq!['N', 'o', 'v'] }
    else if m == 12 { seq!['D', 'e', 'c'] }
    else { seq!['?', '?', '?'] }
}

/// `month_name`.
pub fn month_name(m: u64) -> (r: &'static str)
    ensures
        r@ == month_spec(m),
{
    proof {
        reveal_strlit("Jan");
        reveal_strlit("Feb");
        reveal_strlit("Mar");
        reveal_strlit("Apr");
        reveal_strlit("May");
        reveal_strlit("Jun");
        reveal_strlit("Jul");
        reveal_strlit("Aug");
        reveal_strlit("Sep");
        reveal_strlit("Oct");
        reveal_strlit("Nov");
        reveal_strlit("Dec");
        reveal_strlit("???");
    }
    let r = if m == 1 { "Jan" }
    else if m == 2 { "Feb" }
    else if m == 3 { "Mar" }
    else if m == 4 { "Apr" }
    else if m == 5 { "May" }
    else if m == 6 { "Jun" }
    else if m == 7 { "Jul" }
    else if m == 8 { "Aug" }
    else if m == 9 { "Sep" }
    else if m == 10 { "Oct" }
    else if m == 11 { "Nov" }
    else if m == 12 { "Dec" }
    else { "???" };
    assert(r@ =~= month_spec(m));
    r
}

/// A number below 100 with two digits (`{:02}`).
pub open spec fn two_digits(n: nat) -> Seq<char> {
    seq![digit_char(n / 10), digit_char(n % 10)]
}

/// `ls -l`'s time column for a modification time of `secs` seconds after the
/// epoch: a month of 30 days counted within a 365-day year, the day of that
/// month, and the time of day, as `Mon DD HH:MM` (the month is `???` for the
/// last days of such a year).
pub open spec fn time_spec(secs: nat) -> Seq<char> {
    let days = secs / 86400;
    let hours = (secs % 86400) / 3600;
    let minutes = (secs % 3600) / 60;
    let month_day = days % 365;
    let month = month_day / 30 + 1;
    let day = month_day % 30 + 1;
    month_spec(month as u64) + seq![' '] + two_digits(day) + seq![' '] + two_digits(hours)
        + seq![':'] + two_digits(minutes)
}

fn push_two_digits(v: &mut Vec<char>, n: u64)
    requires
        n < 100,
    ensures
        final(v)@ == old(v)@ + two_digits(n as nat),
{
    v.push(digit_to_char(n / 10));
    v.push(digit_to_char(n % 10));
    assert(v@ =~= old(v)@ + two_digits(n as nat));
}

/// The time part of `format_time`, from the modification time in seconds since
/// the epoch (a time before the epoch, or none, counts as 0).
pub fn format_time(secs: u64) -> (r: String)
    ensures
        r@ == time_spec(secs as nat),
{
    let days = secs / 86400;
    let hours = (secs % 86400) / 3600;
    let minutes = (secs % 3600) / 60;
    let month_day = days % 365;
    let month = month_day / 30 + 1;
    let day = month_day % 30 + 1;
    let name = month_name(month);
    let mut v: Vec<char> = crate::text::chars_of(name);
    v.push(' ');
    push_two_digits(&mut v, day);
    v.push(' ');
    push_two_digits(&mut v, hours);
    v.push(':');
    push_two_digits(&mut v, minutes);
    assert(v@ =~= time_spec(secs as nat));
    string_of(v.as_slice())
}

} // verus!
