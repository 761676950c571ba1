//! Conversions between units of capacity, in the way `Duration` converts
//! between units of time: byte counts scaled by powers of 1024, rendered as
//! short human readable text ("1.5K"), and read back from such text ("4K").
use vstd::arithmetic::power::pow;
use vstd::arithmetic::power2::pow2;
use vstd::prelude::*;

verus! {

/// One byte.
pub const BYTE: i64 = 1;

/// 1024 bytes.
pub const KILOBYTE: i64 = BYTE * 1024;

/// 1024 kilobytes.
pub const MEGABYTE: i64 = KILOBYTE * 1024;

/// 1024 megabytes.
pub const GIGABYTE: i64 = MEGABYTE * 1024;

/// 1024 gigabytes.
pub const TERABYTE: i64 = GIGABYTE * 1024;

/// 1024 terabytes.
pub const PETABYTE: i64 = TERABYTE * 1024;

/// 1024 petabytes.
pub const EXABYTE: i64 = PETABYTE * 1024;

/// Whether `v` can be held by an `i64`.
pub open spec fn fits_i64(v: int) -> bool {
    i64::MIN <= v <= i64::MAX
}

/// `n` expressed after `k` steps up the scale of units: `n * 1024^k`.
pub open spec fn scaled(n: int, k: nat) -> int {
    n * pow(1024, k)
}

/// The suffix of the unit `k` steps above the byte (1 to 6).
pub open spec fn unit_suffix(k: nat) -> char {
    if k == 1 {
        'K'
    } else if k == 2 {
        'M'
    } else if k == 3 {
        'G'
    } else if k == 4 {
        'T'
    } else if k == 5 {
        'P'
    } else {
        'E'
    }
}

/// The unit a suffix letter names (1 to 6), or 0 for any other character.
pub open spec fn suffix_unit(c: char) -> nat {
    if c == 'K' {
        1
    } else if c == 'M' {
        2
    } else if c == 'G' {
        3
    } else if c == 'T' {
        4
    } else if c == 'P' {
        5
    } else if c == 'E' {
        6
    } else {
        0
    }
}

/// The unit a byte count of at least 1024 is written in: the largest unit,
/// trying exabytes first, whose size the count reaches.
pub open spec fn unit_of(n: int) -> nat {
    if n >= pow(1024, 6) {
        6
    } else if n >= pow(1024, 5) {
        5
    } else if n >= pow(1024, 4) {
        4
    } else if n >= pow(1024, 3) {
        3
    } else if n >= pow(1024, 2) {
        2
    } else {
        1
    }
}

/// The character of a decimal digit.
pub open spec fn digit_char(d: int) -> char {
    if d == 0 {
        '0'
    } else if d == 1 {
        '1'
    } else if d == 2 {
        '2'
    } else if d == 3 {
        '3'
    } else if d == 4 {
        '4'
    } else if d == 5 {
        '5'
    } else if d == 6 {
        '6'
    } else if d == 7 {
        '7'
    } else if d == 8 {
        '8'
    } else {
        '9'
    }
}

/// The decimal digits of `n`, most significant first, without leading zeros.
pub open spec fn digits(n: nat) -> Seq<char>
    decreases n,
{
    if n < 10 {
        seq![digit_char(n as int)]
    } else {
        digits(n / 10).push(digit_char((n % 10) as int))
    }
}

/// `n` in decimal, with a leading minus sign when it is negative.
pub open spec fn decimal(n: int) -> Seq<char> {
    if n < 0 {
        seq!['-'] + digits((-n) as nat)
    } else {
        digits(n as nat)
    }
}

/// `num / den` rounded to the nearest integer, halves going to the even
/// one (`num >= 0`, `den > 0`).
pub open spec fn round_half_even(num: int, den: int) -> int {
    let q = num / den;
    let r = num % den;
    if 2 * r < den {
        q
    } else if 2 * r > den {
        q + 1
    } else if q % 2 == 0 {
        q
    } else {
        q + 1
    }
}

/// The binary exponent of `num / den`: the largest `k`, up to `limit`, with
/// `2^k * den <= num` (0 when `num < 2 * den`).
pub open spec fn binary_exponent(num: int, den: int, limit: nat) -> nat
    decreases limit,
{
    if limit == 0 || num < 2 * den {
        0
    } else {
        1 + binary_exponent(num, 2 * den, (limit - 1) as nat)
    }
}

/// For a value `num / den` from 1 to below 2^53: the number of binary places
/// after the point in the nearest `f64`, whose 53 significant bits leave
/// `52 - exponent` of them there.
pub open spec fn f64_places(num: int, den: int) -> nat {
    (52 - binary_exponent(num, den, 52)) as nat
}

/// For a value `num / den` from 1 to below 2^53: the nearest `f64`, ties to
/// even, times `2^f64_places(num, den)`.
pub open spec fn f64_scaled(num: int, den: int) -> int {
    round_half_even(num * pow2(f64_places(num, den)), den)
}

/// The value of `n as f64` for `n` from 1 to below 2^63: `n` itself below
/// 2^53, else `n` rounded to 53 significant bits, ties to even.
pub open spec fn f64_of_int(n: int) -> int {
    let e = binary_exponent(n, 1, 62);
    if e <= 52 {
        n
    } else {
        let u = pow2((e - 52) as nat) as int;
        round_half_even(n, u) * u
    }
}

/// The quotient `n / size` (`size` a power of 1024 below `n`) in tenths, as
/// the floating point steps give it: `n as f64` (`f64_of_int`) divided by
/// `size as f64`, which is exact; times 100.0, rounded to the nearest `f64`; then `round()`, which
/// takes halves away from zero; then divided by 100.0, rounded to the
/// nearest `f64`; then that double, by its exact binary value, rounded to one
/// decimal place with ties to even, as `{:.1}` prints it.
pub open spec fn tenths(n: int, size: int) -> int {
    let x = f64_of_int(n);
    let yp = f64_places(x * 100, size);
    let y = f64_scaled(x * 100, size);
    let py = pow2(yp) as int;
    let h = (2 * y + py) / (2 * py);
    let zp = f64_places(h, 100);
    let z = f64_scaled(h, 100);
    round_half_even(10 * z, pow2(zp) as int)
}

/// The human readable form of a byte count. Below 1024 it is the count in
/// decimal. Otherwise it is written in the largest unit the count reaches:
/// `1K` when the count is exactly that unit, else the quotient with one
/// decimal place (`1.5K`), rounded as `tenths` says.
pub open spec fn capacity_text(n: int) -> Seq<char> {
    if n < 1024 {
        decimal(n)
    } else {
        let k = unit_of(n);
        let size = pow(1024, k);
        if n == size {
            seq!['1', unit_suffix(k)]
        } else {
            let t = tenths(n, size);
            digits((t / 10) as nat) + seq!['.'] + digits((t % 10) as nat) + seq![unit_suffix(k)]
        }
    }
}

/// Whether `c` is an ASCII decimal digit.
pub open spec fn is_digit(c: char) -> bool {
    '0' as int <= c as int <= '9' as int
}

/// The value of an ASCII decimal digit.
pub open spec fn digit_value(c: char) -> int {
    c as int - '0' as int
}

/// Whether every character of `s` is an ASCII decimal digit.
pub open spec fn all_digits(s: Seq<char>) -> bool {
    forall|i: int| 0 <= i < s.len() ==> is_digit(#[trigger] s[i])
}

/// The number that a run of decimal digits spells.
pub open spec fn digits_value(s: Seq<char>) -> int
    decreases s.len(),
{
    if s.len() == 0 {
        0
    } else {
        digits_value(s.drop_last()) * 10 + digit_value(s.last())
    }
}

/// The integer an `i64` literal spells: an optional `+` or `-`, then one or
/// more decimal digits, with a value an `i64` can hold. `None` for any other
/// text.
pub open spec fn integer_value(s: Seq<char>) -> Option<int> {
    let signed = s.len() > 0 && (s[0] == '-' || s[0] == '+');
    let body = if signed {
        s.drop_first()
    } else {
        s
    };
    let v = if s.len() > 0 && s[0] == '-' {
        -digits_value(body)
    } else {
        digits_value(body)
    };
    if body.len() > 0 && all_digits(body) && fits_i64(v) {
        Some(v)
    } else {
        None
    }
}

/// The byte count that a capacity text spells. Text of two or more
/// characters that ends in a unit suffix is an integer literal times that
/// unit; any other text is an integer literal of bytes. `None` when the
/// literal is malformed or the product does not fit an `i64`.
pub open spec fn capacity_value(s: Seq<char>) -> Option<int> {
    if s.len() > 1 && suffix_unit(s.last()) > 0 {
        match integer_value(s.drop_last()) {
            Some(v) => if fits_i64(scaled(v, suffix_unit(s.last()))) {
                Some(scaled(v, suffix_unit(s.last())))
            } else {
                None
            },
            None => None,
        }
    } else {
        integer_value(s)
    }
}

/// One step up the scale multiplies by 1024, and a value that fits after the
/// step fits before it.
proof fn lemma_scaled_step(n: int, k: nat)
    ensures
        scaled(n, k + 1) == scaled(n, k) * 1024,
        fits_i64(scaled(n, k + 1)) ==> fits_i64(scaled(n, k)),
{
    let p = pow(1024, k);
    assert(pow(1024, (k + 1) as nat) == 1024 * p) by {
        reveal(pow);
    }
    assert(n * (1024 * p) == (n * p) * 1024) by (nonlinear_arith);
}

/// The sizes of the units, as powers of 1024.
proof fn lemma_unit_sizes()
    ensures
        pow(1024, 0) == BYTE,
        pow(1024, 1) == KILOBYTE,
        pow(1024, 2) == MEGABYTE,
        pow(1024, 3) == GIGABYTE,
        pow(1024, 4) == TERABYTE,
        pow(1024, 5) == PETABYTE,
        pow(1024, 6) == EXABYTE,
{
    reveal_with_fuel(pow, 7);
}

/// A prefix of a run of digits spells no more than the whole run.
proof fn lemma_digits_value_prefix(s: Seq<char>, j: int)
    requires
        all_digits(s),
        0 <= j <= s.len(),
    ensures
        0 <= digits_value(s.subrange(0, j)) <= digits_value(s),
    decreases s.len(),
{
    if j == s.len() {
        assert(s.subrange(0, j) =~= s);
        if s.len() > 0 {
            lemma_digits_value_prefix(s.drop_last(), j - 1);
            assert(s.drop_last().subrange(0, j - 1) =~= s.drop_last());
            assert(is_digit(s[s.len() - 1]));
        }
    } else {
        lemma_digits_value_prefix(s.drop_last(), j);
        assert(s.drop_last().subrange(0, j) =~= s.subrange(0, j));
        lemma_digits_value_prefix(s.drop_last(), s.len() - 1);
        assert(s.drop_last().subrange(0, s.len() - 1) =~= s.drop_last());
        assert(is_digit(s[s.len() - 1]));
    }
}

/// The character of a digit is a digit with that value.
proof fn lemma_digit_char(d: int)
    requires
        0 <= d < 10,
    ensures
        is_digit(digit_char(d)),
        digit_value(digit_char(d)) == d,
{
}

/// The decimal digits of a number are a nonempty run of digits that spells
/// the number.
proof fn lemma_digits(n: nat)
    ensures
        digits(n).len() >= 1,
        all_digits(digits(n)),
        digits_value(digits(n)) == n,
    decreases n,
{
    let d = digits(n);
    lemma_digit_char((n % 10) as int);
    if n < 10 {
        assert(d.drop_last() =~= Seq::<char>::empty());
        assert(digits_value(Seq::<char>::empty()) == 0);
    } else {
        lemma_digits(n / 10);
        assert(d.drop_last() =~= digits(n / 10));
        assert forall|i: int| 0 <= i < d.len() implies is_digit(#[trigger] d[i]) by {
            if i < d.len() - 1 {
                assert(d[i] == digits(n / 10)[i]);
            }
        }
    }
}

/// A nonempty run of digits, with a value an `i64` holds, is read as that
/// value.
proof fn lemma_integer_value_of_digits(s: Seq<char>)
    requires
        s.len() >= 1,
        all_digits(s),
        fits_i64(digits_value(s)),
    ensures
        integer_value(s) == Some(digits_value(s)),
{
    assert(is_digit(s[0]));
}

/// Formatting is a function of the byte count alone: two values that stand
/// for the same number of bytes have the same human readable form.
pub proof fn lemma_capacity_deterministic<A: Capacity, B: Capacity>(a: &A, b: &B)
    requires
        a.byte_count() == b.byte_count(),
    ensures
        capacity_text(a.byte_count()) == capacity_text(b.byte_count()),
{
}

/// Reading back the human readable form of a byte count gives the count
/// again when that form has no fraction: for every count below 1024,
/// negative ones included, and for a count that is exactly the size of its
/// unit.
pub proof fn lemma_capacity_round_trip(n: int)
    requires
        (fits_i64(n) && n < 1024) || (fits_i64(n) && n >= 1024 && n == pow(1024, unit_of(n))),
    ensures
        capacity_value(capacity_text(n)) == Some(n),
{
    if 0 <= n < 1024 {
        let s = digits(n as nat);
        lemma_digits(n as nat);
        assert(is_digit(s[s.len() - 1]));
        lemma_integer_value_of_digits(s);
    } else if n < 0 {
        let d = digits((-n) as nat);
        let s = seq!['-'] + d;
        lemma_digits((-n) as nat);
        assert(s.last() == d.last());
        assert(is_digit(d[d.len() - 1]));
        assert(s.drop_first() =~= d);
    } else {
        let k = unit_of(n);
        let s = capacity_text(n);
        assert(s == seq!['1', unit_suffix(k)]);
        assert(s.drop_last() =~= seq!['1']);
        assert(seq!['1'].drop_last() =~= Seq::<char>::empty());
        assert(all_digits(seq!['1']));
        assert(digits_value(Seq::<char>::empty()) == 0);
        assert(digits_value(seq!['1']) == 1);
        lemma_integer_value_of_digits(seq!['1']);
        assert(scaled(1, k) == n);
    }
}

/// Reading back the human readable form of a byte count fails when that
/// form has a fraction: for a count of at least 1024 that is not exactly the
/// size of its unit, as in `1.5K`.
pub proof fn lemma_capacity_fraction_not_read(n: int)
    requires
        fits_i64(n),
        n >= 1024,
        n != pow(1024, unit_of(n)),
    ensures
        capacity_value(capacity_text(n)) is None,
{
    let k = unit_of(n);
    let t = tenths(n, pow(1024, k));
    let whole = digits((t / 10) as nat);
    let frac = digits((t % 10) as nat);
    let s = capacity_text(n);
    lemma_digits((t / 10) as nat);
    let init = whole + seq!['.'] + frac;
    assert(s =~= init.push(unit_suffix(k)));
    assert(s.drop_last() =~= init);
    assert(is_digit(init[0]));
    assert(init[whole.len() as int] == '.');
    assert(!all_digits(init));
}

/// `2^e`.
fn power_of_two(e: u32) -> (r: u128)
    requires
        e <= 64,
    ensures
        r == pow2(e as nat),
        1 <= r <= 0x1_0000_0000_0000_0000,
{
    let mut r: u128 = 1;
    let mut i: u32 = 0;
    proof {
        vstd::arithmetic::power2::lemma2_to64();
    }
    while i < e
        invariant
            i <= e <= 64,
            r == pow2(i as nat),
            pow2(64) == 0x1_0000_0000_0000_0000,
        decreases e - i,
    {
        proof {
            vstd::arithmetic::power2::lemma_pow2_unfold((i + 1) as nat);
            vstd::arithmetic::power2::lemma_pow2_strictly_increases(i as nat, 64);
        }
        r = r * 2;
        i = i + 1;
    }
    proof {
        vstd::arithmetic::power2::lemma_pow2_pos(e as nat);
        if e < 64 {
            vstd::arithmetic::power2::lemma_pow2_strictly_increases(e as nat, 64);
        }
    }
    r
}

/// `num / den` rounded to the nearest integer, halves to the even one.
fn round_even(num: u128, den: u128) -> (r: u128)
    requires
        den >= 1,
        num < 0x8000_0000_0000_0000_0000_0000_0000_0000,
    ensures
        r as int == round_half_even(num as int, den as int),
        r <= num / den + 1,
{
    let q = num / den;
    let rem = num % den;
    if rem < den - rem {
        q
    } else if rem > den - rem {
        q + 1
    } else if q % 2 == 0 {
        q
    } else {
        q + 1
    }
}

/// The binary exponent of `num / den`, up to `limit`, with `den * 2^exponent`.
fn exponent_of(num: u128, den: u128, limit: u32) -> (r: (u32, u128))
    requires
        1 <= den < 0x1_0000_0000_0000_0000_0000_0000_0000,
        num < 0x1_0000_0000_0000_0000_0000_0000_0000,
        limit <= 62,
    ensures
        r.0 as nat == binary_exponent(num as int, den as int, limit as nat),
        r.0 <= limit,
        r.1 as int == den * pow2(r.0 as nat),
        r.0 < limit ==> num < 2 * r.1,
{
    let mut k: u32 = 0;
    let mut d: u128 = den;
    proof {
        vstd::arithmetic::power2::lemma2_to64();
    }
    while k < limit && 2 * d <= num
        invariant
            k <= limit <= 62,
            1 <= den < 0x1_0000_0000_0000_0000_0000_0000_0000,
            num < 0x1_0000_0000_0000_0000_0000_0000_0000,
            d == den || d <= num,
            d as int == den * pow2(k as nat),
            binary_exponent(num as int, den as int, limit as nat) == k + binary_exponent(
                num as int,
                d as int,
                (limit - k) as nat,
            ),
        decreases limit - k,
    {
        proof {
            vstd::arithmetic::power2::lemma_pow2_unfold((k + 1) as nat);
            assert(den * pow2((k + 1) as nat) == (den * pow2(k as nat)) * 2) by (nonlinear_arith)
                requires
                    pow2((k + 1) as nat) == 2 * pow2(k as nat),
            ;
        }
        d = 2 * d;
        k = k + 1;
    }
    (k, d)
}

/// The nearest `f64` to `num / den` (a value from 1 to below 2^53), as its
/// number of binary places and its value times 2 to that power.
fn nearest_f64(num: u128, den: u128) -> (r: (u32, u128))
    requires
        1 <= den <= 0x1000_0000_0000_0000,
        num < 0x10_0000_0000_0000_0000_0000_0000,
    ensures
        r.0 as nat == f64_places(num as int, den as int),
        r.1 as int == f64_scaled(num as int, den as int),
        r.0 <= 52,
        r.1 <= num + 0x20_0000_0000_0000,
{
    let (k, d) = exponent_of(num, den, 52);
    let places = 52 - k;
    let p = power_of_two(places);
    proof {
        vstd::arithmetic::power2::lemma2_to64();
        vstd::arithmetic::power2::lemma2_to64_rest();
        vstd::arithmetic::power2::lemma_pow2_adds(k as nat, places as nat);
        vstd::arithmetic::power2::lemma_pow2_pos(places as nat);
        if k < 52 {
            assert(num * p < 2 * d * p) by (nonlinear_arith)
                requires
                    num < 2 * d,
                    p > 0,
            ;
            assert(2 * d * p == den * 0x20_0000_0000_0000) by (nonlinear_arith)
                requires
                    d == den * pow2(k as nat),
                    pow2(k as nat) * p == pow2(52),
                    pow2(52) == 0x10_0000_0000_0000,
            ;
            assert(den * 0x20_0000_0000_0000 <= 0x2_0000_0000_0000_0000_0000_0000_0000);
            assert(num * p < 0x2_0000_0000_0000_0000_0000_0000_0000);
        } else {
            assert(p == 1);
            assert(num * p == num) by (nonlinear_arith)
                requires
                    p == 1,
            ;
        }
    }
    let a = num * p;
    let m = round_even(a, den);
    proof {
        if k < 52 {
            vstd::arithmetic::div_mod::lemma_fundamental_div_mod(a as int, den as int);
            assert(a / den < 0x20_0000_0000_0000) by (nonlinear_arith)
                requires
                    a < den * 0x20_0000_0000_0000,
                    a == den * (a / den) + a % den,
                    a % den >= 0,
                    den > 0,
            ;
        } else {
            assert(a / den <= a) by (nonlinear_arith)
                requires
                    den >= 1,
                    a >= 0,
            ;
        }
    }
    (places, m)
}

/// The value of `n as f64`, for `n` from 1 to below 2^63.
fn int_as_f64(n: u128) -> (x: u128)
    requires
        1 <= n < 0x8000_0000_0000_0000,
    ensures
        x as int == f64_of_int(n as int),
        x <= n + 1024,
{
    let (e, _) = exponent_of(n, 1, 62);
    if e <= 52 {
        n
    } else {
        let u = power_of_two(e - 52);
        proof {
            vstd::arithmetic::power2::lemma2_to64();
            if e < 62 {
                vstd::arithmetic::power2::lemma_pow2_strictly_increases((e - 52) as nat, 10);
            }
        }
        let q = round_even(n, u);
        proof {
            vstd::arithmetic::div_mod::lemma_fundamental_div_mod(n as int, u as int);
            assert(q * u <= n + u) by (nonlinear_arith)
                requires
                    q <= n / u + 1,
                    n == u * (n / u) + n % u,
                    n % u >= 0,
                    u > 0,
            ;
        }
        q * u
    }
}

/// The text of one decimal digit.
fn digit_text(d: u128) -> (r: &'static str)
    requires
        d < 10,
    ensures
        r@ == seq![digit_char(d as int)],
{
    proof {
        reveal_strlit("0");
        reveal_strlit("1");
        reveal_strlit("2");
        reveal_strlit("3");
        reveal_strlit("4");
        reveal_strlit("5");
        reveal_strlit("6");
        reveal_strlit("7");
        reveal_strlit("8");
        reveal_strlit("9");
    }
    if d == 0 {
        "0"
    } else if d == 1 {
        "1"
    } else if d == 2 {
        "2"
    } else if d == 3 {
        "3"
    } else if d == 4 {
        "4"
    } else if d == 5 {
        "5"
    } else if d == 6 {
        "6"
    } else if d == 7 {
        "7"
    } else if d == 8 {
        "8"
    } else {
        "9"
    }
}

/// Appends the decimal digits of `v` to `out`.
fn push_digits(out: &mut String, v: u128)
    ensures
        final(out)@ == old(out)@ + digits(v as nat),
    decreases v,
{
    if v >= 10 {
        push_digits(out, v / 10);
    }
    out.append(digit_text(v % 10));
    assert(final(out)@ =~= old(out)@ + digits(v as nat));
}

/// Appends `n` in decimal to `out`.
fn push_decimal(out: &mut String, n: i64)
    ensures
        final(out)@ == old(out)@ + decimal(n as int),
{
    if n < 0 {
        proof {
            reveal_strlit("-");
        }
        out.append("-");
        let m: u128 = (0i128 - n as i128) as u128;
        push_digits(out, m);
        assert(final(out)@ =~= old(out)@ + decimal(n as int));
    } else {
        push_digits(out, n as u128);
    }
}

/// The size and the suffix of the unit a byte count of at least 1024 is
/// written in.
fn unit_for(n: i64) -> (r: (i64, &'static str))
    requires
        n >= 1024,
    ensures
        r.0 as int == pow(1024, unit_of(n as int)),
        KILOBYTE <= r.0 <= n,
        r.0 <= EXABYTE,
        r.1@ == seq![unit_suffix(unit_of(n as int))],
{
    proof {
        lemma_unit_sizes();
        reveal_strlit("K");
        reveal_strlit("M");
        reveal_strlit("G");
        reveal_strlit("T");
        reveal_strlit("P");
        reveal_strlit("E");
    }
    if n >= EXABYTE {
        (EXABYTE, "E")
    } else if n >= PETABYTE {
        (PETABYTE, "P")
    } else if n >= TERABYTE {
        (TERABYTE, "T")
    } else if n >= GIGABYTE {
        (GIGABYTE, "G")
    } else if n >= MEGABYTE {
        (MEGABYTE, "M")
    } else {
        (KILOBYTE, "K")
    }
}

/// A value that can be expressed in units of capacity.
///
/// Each conversion scales the byte count up by 1024 per unit, so that
/// `4.kilobytes() == 4096`. Overflow is a failure, never a wrapped or
/// saturated value: each conversion requires that its exact result fit an
/// `i64`, and a caller that cannot show this checks the range first.
pub trait Capacity {
    /// The number of bytes this value stands for.
    spec fn byte_count(&self) -> int;

    /// Size in bytes.
    fn bytes(&self) -> (r: i64)
        ensures
            r as int == self.byte_count(),
    ;

    /// Size in kilobytes: the byte count times 1024.
    fn kilobytes(&self) -> (r: i64)
        requires
            fits_i64(scaled(self.byte_count(), 1)),
        ensures
            r as int == scaled(self.byte_count(), 1),
    {
        let b = self.bytes();
        proof {
            lemma_scaled_step(b as int, 0);
            reveal(pow);
        }
        b * 1024
    }

    /// Size in megabytes: the kilobytes times 1024.
    fn megabytes(&self) -> (r: i64)
        requires
            fits_i64(scaled(self.byte_count(), 2)),
        ensures
            r as int == scaled(self.byte_count(), 2),
    {
        proof {
            lemma_scaled_step(self.byte_count(), 1);
        }
        self.kilobytes() * 1024
    }

    /// Size in gigabytes: the megabytes times 1024.
    fn gigabytes(&self) -> (r: i64)
        requires
            fits_i64(scaled(self.byte_count(), 3)),
        ensures
            r as int == scaled(self.byte_count(), 3),
    {
        proof {
            lemma_scaled_step(self.byte_count(), 2);
        }
        self.megabytes() * 1024
    }

    /// Size in terabytes: the gigabytes times 1024.
    fn terabytes(&self) -> (r: i64)
        requires
            fits_i64(scaled(self.byte_count(), 4)),
        ensures
            r as int == scaled(self.byte_count(), 4),
    {
        proof {
            lemma_scaled_step(self.byte_count(), 3);
        }
        self.gigabytes() * 1024
    }

    /// Size in petabytes: the terabytes times 1024.
    fn petabytes(&self) -> (r: i64)
        requires
            fits_i64(scaled(self.byte_count(), 5)),
        ensures
            r as int == scaled(self.byte_count(), 5),
    {
        proof {
            lemma_scaled_step(self.byte_count(), 4);
        }
        self.terabytes() * 1024
    }

    /// Size in exabytes: the petabytes times 1024.
    fn exabytes(&self) -> (r: i64)
        requires
            fits_i64(scaled(self.byte_count(), 6)),
        ensures
            r as int == scaled(self.byte_count(), 6),
    {
        proof {
            lemma_scaled_step(self.byte_count(), 5);
        }
        self.petabytes() * 1024
    }

    /// Size as a human readable string, such as `500`, `1K` or `1.5M`.
    fn capacity(&self) -> (r: String)
        ensures
            r@ == capacity_text(self.byte_count()),
    {
        let n = self.bytes();
        let mut out = String::new();
        if n < KILOBYTE {
            push_decimal(&mut out, n);
            return out;
        }
        let (size, suffix) = unit_for(n);
        if n == size {
            proof {
                reveal_strlit("1");
            }
            out.append("1");
            out.append(suffix);
            assert(out@ =~= capacity_text(n as int));
        } else {
            let x = int_as_f64(n as u128);
            let (yp, y) = nearest_f64(x * 100, size as u128);
            let py = power_of_two(yp);
            proof {
                assert((2 * y + py) / (2 * py) <= 2 * y + py) by (nonlinear_arith)
                    requires
                        py >= 1,
                ;
            }
            let h = (2 * y + py) / (2 * py);
            let (zp, z) = nearest_f64(h, 100);
            let pz = power_of_two(zp);
            let t = round_even(10 * z, pz);
            proof {
                reveal_strlit(".");
            }
            push_digits(&mut out, t / 10);
            out.append(".");
            push_digits(&mut out, t % 10);
            out.append(suffix);
            assert(out@ =~= capacity_text(n as int));
        }
        out
    }
}

impl Capacity for i64 {
    open spec fn byte_count(&self) -> int {
        *self as int
    }

    fn bytes(&self) -> (r: i64) {
        *self
    }
}

/// Reads the integer literal formed by the first `end` characters of `s`.
fn parse_integer(s: &str, end: usize) -> (r: Option<i64>)
    requires
        end <= s@.len(),
    ensures
        match r {
            Some(v) => integer_value(s@.subrange(0, end as int)) == Some(v as int),
            None => integer_value(s@.subrange(0, end as int)) is None,
        },
{
    let ghost t = s@.subrange(0, end as int);
    if end == 0 {
        return None;
    }
    let first = s.get_char(0);
    let negative = first == '-';
    let start: usize = if first == '-' || first == '+' {
        1
    } else {
        0
    };
    let ghost body = if start == 1 {
        t.drop_first()
    } else {
        t
    };
    assert(body =~= s@.subrange(start as int, end as int));
    let limit: i128 = 9223372036854775808;
    assert(integer_value(t) is Some ==> body.len() > 0 && all_digits(body) && digits_value(body)
        <= limit);
    if start == end {
        return None;
    }
    let mut acc: i128 = 0;
    let mut i: usize = start;
    while i < end
        invariant
            start <= i <= end <= s@.len(),
            body == s@.subrange(start as int, end as int),
            t == s@.subrange(0, end as int),
            limit == 9223372036854775808,
            integer_value(t) is Some ==> all_digits(body) && digits_value(body) <= limit,
            all_digits(s@.subrange(start as int, i as int)),
            acc as int == digits_value(s@.subrange(start as int, i as int)),
            0 <= acc <= limit,
        decreases end - i,
    {
        let c = s.get_char(i);
        let ghost before = s@.subrange(start as int, i as int);
        let ghost after = s@.subrange(start as int, i as int + 1);
        assert(after.drop_last() =~= before);
        assert(after.last() == c);
        let code = c as u32;
        if !('0' as u32 <= code && code <= '9' as u32) {
            assert(body[i - start] == c);
            assert(!all_digits(body));
            return None;
        }
        acc = acc * 10 + (code - '0' as u32) as i128;
        assert(all_digits(after)) by {
            assert forall|j: int| 0 <= j < after.len() implies is_digit(#[trigger] after[j]) by {
                if j < before.len() {
                    assert(after[j] == before[j]);
                }
            }
        }
        i = i + 1;
        if acc > limit {
            proof {
                assert(after =~= body.subrange(0, i - start));
                if all_digits(body) {
                    lemma_digits_value_prefix(body, i - start);
                }
            }
            return None;
        }
    }
    if negative {
        Some((0 - acc) as i64)
    } else if acc < limit {
        Some(acc as i64)
    } else {
        None
    }
}

/// A byte count, read from capacity text such as `4K` or made from an
/// integer.
#[derive(Debug)]
pub struct Bytes {
    size: i64,
}

impl Bytes {
    /// Reads a capacity text: digits with an optional sign, then an optional
    /// unit suffix (`K`, `M`, `G`, `T`, `P`, `E`). The error holds the text.
    pub fn parse(s: &str) -> (r: Result<Bytes, String>)
        ensures
            r is Ok <==> capacity_value(s@) is Some,
            r is Ok ==> r->Ok_0.byte_count() == capacity_value(s@)->Some_0,
            r is Err ==> r->Err_0@ == s@,
    {
        let len = s.unicode_len();
        if len > 1 {
            let last = s.get_char(len - 1);
            let unit: Option<i64> = if last == 'K' {
                Some(KILOBYTE)
            } else if last == 'M' {
                Some(MEGABYTE)
            } else if last == 'G' {
                Some(GIGABYTE)
            } else if last == 'T' {
                Some(TERABYTE)
            } else if last == 'P' {
                Some(PETABYTE)
            } else if last == 'E' {
                Some(EXABYTE)
            } else {
                None
            };
            proof {
                lemma_unit_sizes();
                assert(s@.drop_last() =~= s@.subrange(0, len - 1));
            }
            if let Some(size) = unit {
                return match parse_integer(s, len - 1) {
                    Some(v) => match v.checked_mul(size) {
                        Some(p) => Ok(Bytes { size: p }),
                        None => Err(s.to_owned()),
                    },
                    None => Err(s.to_owned()),
                };
            }
        }
        proof {
            assert(s@.subrange(0, len as int) =~= s@);
        }
        match parse_integer(s, len) {
            Some(v) => Ok(Bytes { size: v }),
            None => Err(s.to_owned()),
        }
    }
}

impl Capacity for Bytes {
    closed spec fn byte_count(&self) -> int {
        self.size as int
    }

    fn bytes(&self) -> (r: i64) {
        self.size
    }
}

impl From<i64> for Bytes {
    fn from(size: i64) -> (r: Bytes) {
        Bytes { size }
    }
}

impl vstd::std_specs::convert::FromSpecImpl<i64> for Bytes {
    open spec fn obeys_from_spec() -> bool {
        true
    }

    closed spec fn from_spec(size: i64) -> Bytes {
        Bytes { size }
    }
}

/// A `Bytes` made from an integer holds that many bytes.
pub proof fn lemma_bytes_from(n: i64)
    ensures
        <Bytes as vstd::std_specs::convert::FromSpec<i64>>::from_spec(n).byte_count() == n,
{
}

impl std::str::FromStr for Bytes {
    type Err = String;

    fn from_str(s: &str) -> (r: Result<Bytes, String>)
        ensures
            r is Ok <==> capacity_value(s@) is Some,
            r is Ok ==> r->Ok_0.byte_count() == capacity_value(s@)->Some_0,
            r is Err ==> r->Err_0@ == s@,
    {
        Bytes::parse(s)
    }
}

} // verus!
