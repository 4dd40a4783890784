//! Capacity strings: a human-readable byte quantity such as `"1500G"`,
//! `"1Ki"` or `"1.5MB"`.
//!
//! Grammar (no whitespace anywhere): one or more decimal digits, an optional
//! fractional part `.` followed by one to eighteen digits, and an optional
//! unit.  A unit is one of `B`, a decimal prefix `K`/`M`/`G`/`T`/`P`/`E`
//! (factor a power of 1000) optionally followed by `B`, or a binary prefix
//! `Ki`/`Mi`/`Gi`/`Ti`/`Pi`/`Ei` (factor a power of 1024) optionally followed
//! by `B`; letters are case-insensitive.  A fractional magnitude is scaled by
//! the unit factor and rounded to the nearest byte, halves rounding up.

use vstd::prelude::*;

verus! {

/// Error from the capacity parser.
#[derive(Debug, Clone, Copy, PartialEq, Eq, Structural)]
pub enum ParseError {
    /// The input does not match the capacity grammar.
    Malformed,
    /// The denoted byte count exceeds the unsigned 64-bit range.
    Overflow,
}

/// `c` is one of the decimal digits `'0'` through `'9'`.
pub open spec fn is_dec_digit(c: char) -> bool {
    48 <= c as u32 && c as u32 <= 57
}

/// Numeric value of a decimal digit character.
pub open spec fn digit_val(c: char) -> nat {
    (c as u32 - 48) as nat
}

/// Value of a sequence of decimal digit characters, most significant first.
pub open spec fn digits_val(s: Seq<char>) -> nat
    decreases s.len(),
{
    if s.len() == 0 {
        0
    } else {
        digits_val(s.drop_last()) * 10 + digit_val(s.last())
    }
}

/// Ten to the power `k`.
pub open spec fn pow10(k: nat) -> nat
    decreases k,
{
    if k == 0 {
        1
    } else {
        10 * pow10((k - 1) as nat)
    }
}

/// Index of the first character at or after `i` that is not a decimal digit
/// (or `s.len()` if all of them are).
pub open spec fn digits_end(s: Seq<char>, i: int) -> int
    decreases s.len() - i,
{
    if i < s.len() && is_dec_digit(s[i]) {
        digits_end(s, i + 1)
    } else {
        i
    }
}

/// Factor of a decimal unit prefix letter.
pub open spec fn dec_unit(c: char) -> Option<nat> {
    if c == 'k' || c == 'K' {
        Some(1000nat)
    } else if c == 'm' || c == 'M' {
        Some(1000000nat)
    } else if c == 'g' || c == 'G' {
        Some(1000000000nat)
    } else if c == 't' || c == 'T' {
        Some(1000000000000nat)
    } else if c == 'p' || c == 'P' {
        Some(1000000000000000nat)
    } else if c == 'e' || c == 'E' {
        Some(1000000000000000000nat)
    } else {
        None
    }
}

/// Factor of a binary unit prefix letter.
pub open spec fn bin_unit(c: char) -> Option<nat> {
    if c == 'k' || c == 'K' {
        Some(1024nat)
    } else if c == 'm' || c == 'M' {
        Some(1048576nat)
    } else if c == 'g' || c == 'G' {
        Some(1073741824nat)
    } else if c == 't' || c == 'T' {
        Some(1099511627776nat)
    } else if c == 'p' || c == 'P' {
        Some(1125899906842624nat)
    } else if c == 'e' || c == 'E' {
        Some(1152921504606846976nat)
    } else {
        None
    }
}

pub open spec fn is_b_char(c: char) -> bool {
    c == 'b' || c == 'B'
}

pub open spec fn is_i_char(c: char) -> bool {
    c == 'i' || c == 'I'
}

/// Byte factor denoted by a unit suffix, or `None` if the suffix is not part
/// of the grammar.  The empty suffix and `B` denote a factor of one.
pub open spec fn unit_factor(u: Seq<char>) -> Option<nat> {
    if u.len() == 0 {
        Some(1nat)
    } else if u.len() == 1 {
        if is_b_char(u[0]) {
            Some(1nat)
        } else {
            dec_unit(u[0])
        }
    } else if u.len() == 2 {
        if is_b_char(u[1]) {
            dec_unit(u[0])
        } else if is_i_char(u[1]) {
            bin_unit(u[0])
        } else {
            None
        }
    } else if u.len() == 3 {
        if is_i_char(u[1]) && is_b_char(u[2]) {
            bin_unit(u[0])
        } else {
            None
        }
    } else {
        None
    }
}

/// Byte count of the magnitude `iv.fv` (with `k` fractional digits) scaled by
/// the unit factor `f`, rounded to the nearest integer with halves rounding
/// up: the floor of `(iv + fv / 10^k) * f + 1/2`.
pub open spec fn scaled_value(iv: nat, fv: nat, k: nat, f: nat) -> nat {
    (2 * ((iv * pow10(k) + fv) * f) + pow10(k)) / (2 * pow10(k))
}

/// The exact byte count denoted by a capacity string, or `None` if the string
/// does not match the grammar.
pub open spec fn capacity_value(s: Seq<char>) -> Option<nat> {
    let e1 = digits_end(s, 0);
    if e1 == 0 {
        None
    } else if e1 < s.len() && s[e1] == '.' {
        let e2 = digits_end(s, e1 + 1);
        if e2 == e1 + 1 || e2 - e1 - 1 > 18 {
            None
        } else {
            match unit_factor(s.subrange(e2, s.len() as int)) {
                None => None,
                Some(f) => Some(
                    scaled_value(
                        digits_val(s.subrange(0, e1)),
                        digits_val(s.subrange(e1 + 1, e2)),
                        (e2 - e1 - 1) as nat,
                        f,
                    ),
                ),
            }
        }
    } else {
        match unit_factor(s.subrange(e1, s.len() as int)) {
            None => None,
            Some(f) => Some(scaled_value(digits_val(s.subrange(0, e1)), 0, 0, f)),
        }
    }
}

/// What `parse` returns on a given input: the denoted byte count when it
/// matches the grammar and fits in 64 bits, and otherwise which error.
pub open spec fn parse_result(s: Seq<char>) -> Result<u64, ParseError> {
    match capacity_value(s) {
        None => Err(ParseError::Malformed),
        Some(v) => if v > u64::MAX {
            Err(ParseError::Overflow)
        } else {
            Ok(v as u64)
        },
    }
}

proof fn lemma_digits_end_char(s: Seq<char>, i: int, e: int)
    requires
        0 <= i <= e <= s.len(),
        forall|j: int| i <= j < e ==> is_dec_digit(s[j]),
        e == s.len() || !is_dec_digit(s[e]),
    ensures
        digits_end(s, i) == e,
    decreases e - i,
{
    if i < e {
        lemma_digits_end_char(s, i + 1, e);
    }
}

/// Dropping trailing digits from a digit string can only shrink its value.
proof fn lemma_digits_val_prefix_le(s: Seq<char>, i: int)
    requires
        0 <= i <= s.len(),
    ensures
        digits_val(s.subrange(0, i)) <= digits_val(s),
    decreases s.len() - i,
{
    if i == s.len() {
        assert(s.subrange(0, i) =~= s);
    } else {
        lemma_digits_val_prefix_le(s, i + 1);
        assert(s.subrange(0, i + 1).drop_last() =~= s.subrange(0, i));
        assert(digits_val(s.subrange(0, i)) <= digits_val(s.subrange(0, i + 1)));
    }
}

proof fn lemma_pow10_pos(k: nat)
    ensures
        pow10(k) >= 1,
    decreases k,
{
    if k > 0 {
        lemma_pow10_pos((k - 1) as nat);
    }
}

proof fn lemma_pow10_mono(a: nat, b: nat)
    requires
        a <= b,
    ensures
        pow10(a) <= pow10(b),
    decreases b,
{
    if a < b {
        lemma_pow10_mono(a, (b - 1) as nat);
        lemma_pow10_pos(a);
    }
}

/// A `k`-digit string denotes a value below `10^k`.
proof fn lemma_digits_val_bound(s: Seq<char>)
    requires
        forall|j: int| 0 <= j < s.len() ==> is_dec_digit(s[j]),
    ensures
        digits_val(s) < pow10(s.len()),
    decreases s.len(),
{
    if s.len() > 0 {
        lemma_digits_val_bound(s.drop_last());
    }
}

/// The rounded scaled value is at least the integer part times the factor.
proof fn lemma_scaled_lower(iv: nat, fv: nat, k: nat, f: nat)
    requires
        f >= 1,
    ensures
        scaled_value(iv, fv, k, f) >= iv * f,
    decreases k,
{
    let p = pow10(k);
    lemma_pow10_pos(k);
    assert((iv * p + fv) * f >= (iv * f) * p) by (nonlinear_arith)
        requires p >= 1, f >= 1;
    vstd::arithmetic::div_mod::lemma_div_is_ordered(
        (2 * ((iv * f) * p) + p) as int,
        (2 * ((iv * p + fv) * f) + p) as int,
        2 * p as int,
    );
    assert((2 * ((iv * f) * p) + p) / (2 * p) >= iv * f) by (nonlinear_arith)
        requires p >= 1;
}

/// Every unit factor lies between one and `1024^6`.
proof fn lemma_unit_factor_bounds(u: Seq<char>)
    requires
        unit_factor(u) is Some,
    ensures
        1 <= unit_factor(u)->Some_0 <= 1152921504606846976,
{
}

/// True when the character at `i` is a decimal digit.
fn digit_at(s: &str, i: usize) -> (b: bool)
    requires
        i < s@.len(),
    ensures
        b == is_dec_digit(s@[i as int]),
{
    let d: u32 = s.get_char(i) as u32;
    48 <= d && d <= 57
}

/// Scan the run of digits starting at `from`; returns `digits_end(s@, from)`.
fn scan_digits(s: &str, from: usize, n: usize) -> (e: usize)
    requires
        n == s@.len(),
        from <= n,
    ensures
        from <= e <= n,
        e == digits_end(s@, from as int),
        forall|j: int| from <= j < e ==> is_dec_digit(s@[j]),
        e == n || !is_dec_digit(s@[e as int]),
{
    let mut e: usize = from;
    loop
        invariant
            n == s@.len(),
            from <= e <= n,
            forall|j: int| from <= j < e ==> is_dec_digit(s@[j]),
        ensures
            from <= e <= n,
            forall|j: int| from <= j < e ==> is_dec_digit(s@[j]),
            e == n || !is_dec_digit(s@[e as int]),
        decreases n - e,
    {
        if e >= n {
            break;
        }
        if !digit_at(s, e) {
            break;
        }
        e = e + 1;
    }
    proof {
        lemma_digits_end_char(s@, from as int, e as int);
    }
    e
}

/// Unit factor of the suffix of `s` that starts at `i`, as `unit_factor`
/// gives it.
fn parse_unit(s: &str, i: usize, n: usize) -> (r: Option<u64>)
    requires
        n == s@.len(),
        i <= n,
    ensures
        match r {
            Some(f) => unit_factor(s@.subrange(i as int, n as int)) == Some(f as nat),
            None => unit_factor(s@.subrange(i as int, n as int)) is None,
        },
{
    let ghost u = s@.subrange(i as int, n as int);
    let m = n - i;
    if m == 0 {
        Some(1)
    } else if m == 1 {
        let c0 = s.get_char(i);
        assert(u[0] == s@[i as int]);
        if c0 == 'b' || c0 == 'B' {
            Some(1)
        } else {
            dec_unit_exec(c0)
        }
    } else if m == 2 {
        let c0 = s.get_char(i);
        let c1 = s.get_char(i + 1);
        assert(u[0] == s@[i as int] && u[1] == s@[i as int + 1]);
        if c1 == 'b' || c1 == 'B' {
            dec_unit_exec(c0)
        } else if c1 == 'i' || c1 == 'I' {
            bin_unit_exec(c0)
        } else {
            None
        }
    } else if m == 3 {
        let c0 = s.get_char(i);
        let c1 = s.get_char(i + 1);
        let c2 = s.get_char(i + 2);
        assert(u[0] == s@[i as int] && u[1] == s@[i as int + 1] && u[2] == s@[i as int + 2]);
        if (c1 == 'i' || c1 == 'I') && (c2 == 'b' || c2 == 'B') {
            bin_unit_exec(c0)
        } else {
            None
        }
    } else {
        None
    }
}

fn dec_unit_exec(c: char) -> (r: Option<u64>)
    ensures
        match r {
            Some(f) => dec_unit(c) == Some(f as nat),
            None => dec_unit(c) is None,
        },
{
    if c == 'k' || c == 'K' {
        Some(1000)
    } else if c == 'm' || c == 'M' {
        Some(1000000)
    } else if c == 'g' || c == 'G' {
        Some(1000000000)
    } else if c == 't' || c == 'T' {
        Some(1000000000000)
    } else if c == 'p' || c == 'P' {
        Some(1000000000000000)
    } else if c == 'e' || c == 'E' {
        Some(1000000000000000000)
    } else {
        None
    }
}

fn bin_unit_exec(c: char) -> (r: Option<u64>)
    ensures
        match r {
            Some(f) => bin_unit(c) == Some(f as nat),
            None => bin_unit(c) is None,
        },
{
    if c == 'k' || c == 'K' {
        Some(1024)
    } else if c == 'm' || c == 'M' {
        Some(1048576)
    } else if c == 'g' || c == 'G' {
        Some(1073741824)
    } else if c == 't' || c == 'T' {
        Some(1099511627776)
    } else if c == 'p' || c == 'P' {
        Some(1125899906842624)
    } else if c == 'e' || c == 'E' {
        Some(1152921504606846976)
    } else {
        None
    }
}

/// Value of the digit run `s[from..to]`, accumulated left to right; reports
/// `None` when the run alone already exceeds the 64-bit range.
fn accumulate_digits(s: &str, from: usize, to: usize) -> (r: Option<u64>)
    requires
        to <= s@.len(),
        from <= to,
        forall|j: int| from <= j < to ==> is_dec_digit(s@[j]),
    ensures
        match r {
            Some(v) => v as nat == digits_val(s@.subrange(from as int, to as int)),
            None => digits_val(s@.subrange(from as int, to as int)) > u64::MAX,
        },
{
    let mut acc: u64 = 0;
    let mut idx: usize = from;
    while idx < to
        invariant
            to <= s@.len(),
            from <= idx <= to,
            forall|j: int| from <= j < to ==> is_dec_digit(s@[j]),
            acc as nat == digits_val(s@.subrange(from as int, idx as int)),
        decreases to - idx,
    {
        let d: u32 = s.get_char(idx) as u32;
        assert(is_dec_digit(s@[idx as int]));
        let dv: u64 = (d - 48) as u64;
        if acc > (u64::MAX - dv) / 10 {
            proof {
                let whole = s@.subrange(from as int, to as int);
                let part = s@.subrange(from as int, idx as int + 1);
                assert(part.drop_last() =~= s@.subrange(from as int, idx as int));
                assert(part.last() == s@[idx as int]);
                assert(digits_val(part) == acc * 10 + dv);
                assert(digits_val(part) > u64::MAX);
                assert(whole.subrange(0, idx + 1 - from) =~= part);
                lemma_digits_val_prefix_le(whole, idx + 1 - from);
            }
            return None;
        }
        proof {
            let part = s@.subrange(from as int, idx as int + 1);
            assert(part.drop_last() =~= s@.subrange(from as int, idx as int));
            assert(part.last() == s@[idx as int]);
        }
        acc = acc * 10 + dv;
        idx = idx + 1;
    }
    Some(acc)
}

/// Parse a capacity string into its exact byte count.
///
/// Returns `Malformed` when the input does not match the grammar and
/// `Overflow` when the denoted count does not fit in 64 bits.
pub fn parse(s: &str) -> (r: Result<u64, ParseError>)
    ensures
        r == parse_result(s@),
{
    let n = s.unicode_len();
    let e1 = scan_digits(s, 0, n);
    if e1 == 0 {
        return Err(ParseError::Malformed);
    }
    let mut has_frac: bool = false;
    let mut e2: usize = e1;
    if e1 < n {
        let c = s.get_char(e1);
        if c == '.' {
            has_frac = true;
            e2 = scan_digits(s, e1 + 1, n);
            if e2 == e1 + 1 || e2 - e1 - 1 > 18 {
                return Err(ParseError::Malformed);
            }
        }
    }
    let unit_start: usize = if has_frac {
        e2
    } else {
        e1
    };
    let f: u64 = match parse_unit(s, unit_start, n) {
        Some(f) => f,
        None => {
            return Err(ParseError::Malformed);
        },
    };
    let k: usize = if has_frac {
        e2 - e1 - 1
    } else {
        0
    };
    let ghost ivs = s@.subrange(0, e1 as int);
    let ghost fvn: nat = if has_frac {
        digits_val(s@.subrange(e1 as int + 1, e2 as int))
    } else {
        0
    };
    proof {
        assert(capacity_value(s@) == Some(
            scaled_value(digits_val(ivs), fvn, k as nat, f as nat),
        ));
        lemma_unit_factor_bounds(s@.subrange(unit_start as int, n as int));
    }
    // Integer part; if it alone exceeds the range, so does the whole value.
    let iv: u64 = match accumulate_digits(s, 0, e1) {
        Some(v) => v,
        None => {
            proof {
                lemma_scaled_lower(digits_val(ivs), fvn, k as nat, f as nat);
                assert(digits_val(ivs) * f as nat >= digits_val(ivs) * 1) by (nonlinear_arith)
                    requires f >= 1;
            }
            return Err(ParseError::Overflow);
        },
    };
    // Fractional part: at most eighteen digits, so it fits easily.
    let fv: u64 = if has_frac {
        proof {
            let fs = s@.subrange(e1 as int + 1, e2 as int);
            lemma_digits_val_bound(fs);
            lemma_pow10_mono(fs.len() as nat, 18);
            assert(pow10(18) == 1000000000000000000nat) by {
                reveal_with_fuel(pow10, 20);
            }
        }
        match accumulate_digits(s, e1 + 1, e2) {
            Some(v) => v,
            None => {
                // unreachable: the value is below `10^18`
                return Err(ParseError::Overflow);
            },
        }
    } else {
        0
    };
    // p == 10^k, at most 10^18.
    let mut p: u64 = 1;
    let mut j: usize = 0;
    proof {
        lemma_pow10_mono(0, 18);
        assert(pow10(18) == 1000000000000000000nat) by {
            reveal_with_fuel(pow10, 20);
        }
    }
    while j < k
        invariant
            j <= k <= 18,
            p as nat == pow10(j as nat),
            p <= 1000000000000000000,
        decreases k - j,
    {
        proof {
            lemma_pow10_mono(j as nat + 1, 18);
            assert(pow10(18) == 1000000000000000000nat) by {
                reveal_with_fuel(pow10, 20);
            }
        }
        p = p * 10;
        j = j + 1;
    }
    // If the integer part scaled by the unit factor is already out of range,
    // the rounded value is as well.
    let m: u128 = iv as u128 * f as u128;
    if m > u64::MAX as u128 {
        proof {
            lemma_scaled_lower(iv as nat, fvn, k as nat, f as nat);
        }
        return Err(ParseError::Overflow);
    }
    // The rounded value, computed exactly in 128 bits.
    proof {
        assert(fv as u128 * f as u128 <= 1000000000000000000u128 * 1152921504606846976u128)
            by (nonlinear_arith)
            requires fv < 1000000000000000000, f <= 1152921504606846976;
        assert(m * p as u128 <= 0xffffffffffffffffu128 * 1000000000000000000u128)
            by (nonlinear_arith)
            requires m <= 0xffffffffffffffff, p <= 1000000000000000000;
    }
    let num: u128 = 2 * (m * p as u128 + fv as u128 * f as u128) + p as u128;
    let q: u128 = num / (2 * p as u128);
    proof {
        assert(num as nat == 2 * ((iv as nat * pow10(k as nat) + fvn) * f as nat) + pow10(
            k as nat,
        )) by (nonlinear_arith)
            requires
                m == iv as u128 * f as u128,
                num == 2 * (m * p as u128 + fv as u128 * f as u128) + p as u128,
                p as nat == pow10(k as nat),
                fv as nat == fvn,
        ;
        assert(q as nat == scaled_value(iv as nat, fvn, k as nat, f as nat));
    }
    if q > u64::MAX as u128 {
        Err(ParseError::Overflow)
    } else {
        Ok(q as u64)
    }
}

/// Decimal digit character denoting `d` (meaningful for `d < 10`).
pub open spec fn digit_char(d: nat) -> char {
    if d == 0 {
        '0'
    } else if d == 1 {
        '1'
    } else if d == 2 {
        '2'
    } else if d == 3 {
        '3'
    } else if d == 4 {
        '4'
    } else if d == 5 {
        '5'
    } else if d == 6 {
        '6'
    } else if d == 7 {
        '7'
    } else if d == 8 {
        '8'
    } else {
        '9'
    }
}

/// Decimal digits of `n`, most significant first, without leading zeros
/// (except for `n == 0` itself).
pub open spec fn dec_digits(n: nat) -> Seq<char>
    decreases n,
{
    if n < 10 {
        seq![digit_char(n)]
    } else {
        dec_digits(n / 10).push(digit_char(n % 10))
    }
}

/// What `format` returns: the decimal digits of `n` followed by `B`.
pub open spec fn format_spec(n: nat) -> Seq<char> {
    dec_digits(n).push('B')
}

proof fn lemma_dec_digits_props(n: nat)
    ensures
        dec_digits(n).len() >= 1,
        forall|j: int| 0 <= j < dec_digits(n).len() ==> is_dec_digit(#[trigger] dec_digits(n)[j]),
        digits_val(dec_digits(n)) == n,
    decreases n,
{
    if n < 10 {
        let s1 = dec_digits(n);
        assert(s1.drop_last() =~= Seq::<char>::empty());
        assert(digits_val(s1.drop_last()) == 0);
        assert(s1.last() == digit_char(n));
        assert(digit_val(digit_char(n)) == n);
    } else {
        lemma_dec_digits_props(n / 10);
        let s = dec_digits(n);
        assert(s.drop_last() =~= dec_digits(n / 10));
        assert(s.last() == digit_char(n % 10));
        vstd::arithmetic::div_mod::lemma_fundamental_div_mod(n as int, 10);
    }
}

fn push_digit(out: &mut String, d: u64)
    requires
        d < 10,
    ensures
        final(out)@ == old(out)@.push(digit_char(d as nat)),
{
    if d == 0 {
        out.append("0");
        proof {
            reveal_strlit("0");
            assert(out@ =~= old(out)@.push('0'));
        }
    } else if d == 1 {
        out.append("1");
        proof {
            reveal_strlit("1");
            assert(out@ =~= old(out)@.push('1'));
        }
    } else if d == 2 {
        out.append("2");
        proof {
            reveal_strlit("2");
            assert(out@ =~= old(out)@.push('2'));
        }
    } else if d == 3 {
        out.append("3");
        proof {
            reveal_strlit("3");
            assert(out@ =~= old(out)@.push('3'));
        }
    } else if d == 4 {
        out.append("4");
        proof {
            reveal_strlit("4");
            assert(out@ =~= old(out)@.push('4'));
        }
    } else if d == 5 {
        out.append("5");
        proof {
            reveal_strlit("5");
            assert(out@ =~= old(out)@.push('5'));
        }
    } else if d == 6 {
        out.append("6");
        proof {
            reveal_strlit("6");
            assert(out@ =~= old(out)@.push('6'));
        }
    } else if d == 7 {
        out.append("7");
        proof {
            reveal_strlit("7");
            assert(out@ =~= old(out)@.push('7'));
        }
    } else if d == 8 {
        out.append("8");
        proof {
            reveal_strlit("8");
            assert(out@ =~= old(out)@.push('8'));
        }
    } else {
        out.append("9");
        proof {
            reveal_strlit("9");
            assert(out@ =~= old(out)@.push('9'));
        }
    }
}

fn push_digits(out: &mut String, n: u64)
    ensures
        final(out)@ == old(out)@ + dec_digits(n as nat),
    decreases n,
{
    if n >= 10 {
        push_digits(out, n / 10);
        push_digit(out, n % 10);
        proof {
            assert(out@ =~= old(out)@ + dec_digits(n as nat));
        }
    } else {
        push_digit(out, n);
        proof {
            assert(out@ =~= old(out)@ + dec_digits(n as nat));
        }
    }
}

/// Canonical capacity string for an exact byte count: its decimal digits
/// followed by `B`.  Parsing it back returns the same count
/// (`lemma_parse_format_round_trip`); other strings denoting the same count
/// are not reproduced.
pub fn format(n: u64) -> (r: String)
    ensures
        r@ == format_spec(n as nat),
{
    let mut out = String::new();
    push_digits(&mut out, n);
    out.append("B");
    proof {
        reveal_strlit("B");
        assert(out@ =~= format_spec(n as nat));
    }
    out
}

/// Round trip of the capacity notation: formatting any exact byte count and
/// parsing the result returns that same count.
pub proof fn lemma_parse_format_round_trip(n: u64)
    ensures
        parse_result(format_spec(n as nat)) == Ok::<u64, ParseError>(n),
{
    let s = format_spec(n as nat);
    let d = dec_digits(n as nat);
    lemma_dec_digits_props(n as nat);
    let len = d.len() as int;
    assert(forall|j: int| 0 <= j < len ==> is_dec_digit(s[j]));
    assert(!is_dec_digit(s[len]));
    lemma_digits_end_char(s, 0, len);
    assert(s.subrange(len, len + 1) =~= seq!['B']);
    assert(unit_factor(s.subrange(len, s.len() as int)) == Some(1nat));
    assert(s.subrange(0, len) =~= d);
    assert(capacity_value(s) == Some(scaled_value(n as nat, 0, 0, 1)));
    let p: nat = pow10(0);
    assert(p == 1);
    let v = scaled_value(n as nat, 0, 0, 1);
    assert(v == (2 * ((n as nat * p + 0) * 1) + p) / (2 * p));
    assert(v == n as nat) by (nonlinear_arith)
        requires
            p == 1,
            v == (2 * ((n as nat * p + 0) * 1) + p) / (2 * p),
    ;
}

} // verus!
