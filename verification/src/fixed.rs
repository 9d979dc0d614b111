//! Exact fixed-point decimal values, used for the saturation and
//! lightness colour parameters (percent scale, seven fractional digits).

use vstd::prelude::*;
use vstd::arithmetic::mul::lemma_mul_is_distributive_add_other_way;
use vstd::arithmetic::mul::lemma_mul_is_associative;

verus! {

/// One percent, in fixed-point units.
pub const FIXED_SCALE: u64 = 10_000_000;

/// One hundred percent, in fixed-point units: the top of the valid
/// range for saturation and lightness.
pub const FIXED_HUNDRED: u64 = 1_000_000_000;

/// A signed fixed-point decimal: the value `units / FIXED_SCALE`,
/// negated when `neg` is set. Magnitudes too large for `u64` saturate
/// at `u64::MAX` units; such a value is far outside [0, 100] either way.
/// Zero is always stored with `neg` clear.
#[derive(Clone, Copy, Debug, PartialEq, Eq, Structural)]
pub struct Fixed {
    pub neg: bool,
    pub units: u64,
}

impl Fixed {
    /// The value lies in the valid parameter range [0, 100].
    pub open spec fn spec_in_range(&self) -> bool {
        !self.neg && self.units <= FIXED_HUNDRED
    }

    /// Whether the value lies in [0, 100], the valid range for a
    /// saturation or lightness parameter.
    pub fn in_range(&self) -> (r: bool)
        ensures
            r == self.spec_in_range(),
    {
        !self.neg && self.units <= FIXED_HUNDRED
    }

    /// The value of a whole number of percent.
    pub fn from_whole(pct: u64) -> (r: Fixed)
        requires
            pct <= 100,
        ensures
            r.units == pct * FIXED_SCALE,
            !r.neg,
            r.spec_in_range(),
    {
        Fixed { neg: false, units: pct * FIXED_SCALE }
    }
}

// ----- characters -----

/// The character is an ASCII decimal digit.
pub open spec fn is_digit(c: char) -> bool {
    '0' as u32 <= c as u32 && c as u32 <= '9' as u32
}

/// The numeric value of an ASCII decimal digit.
pub open spec fn digit_of(c: char) -> int {
    c as u32 - '0' as u32
}

/// The value of a sequence of decimal digits, most significant first.
pub open spec fn digits_val(s: Seq<char>) -> int
    decreases s.len(),
{
    if s.len() == 0 {
        0
    } else {
        10 * digits_val(s.drop_last()) + digit_of(s.last())
    }
}

/// The index of the first occurrence of `c` in `s`, or `s.len()` if
/// `c` does not occur.
pub open spec fn find_char(s: Seq<char>, c: char) -> int
    decreases s.len(),
{
    if s.len() == 0 {
        0
    } else if s.first() == c {
        0
    } else {
        1 + find_char(s.drop_first(), c)
    }
}

pub proof fn lemma_find_char_props(s: Seq<char>, c: char)
    ensures
        0 <= find_char(s, c) <= s.len(),
        forall|j: int| 0 <= j < find_char(s, c) ==> s[j] != c,
        find_char(s, c) < s.len() ==> s[find_char(s, c)] == c,
    decreases s.len(),
{
    if s.len() == 0 {
    } else if s.first() == c {
    } else {
        lemma_find_char_props(s.drop_first(), c);
        assert forall|j: int| 0 <= j < find_char(s, c) implies s[j] != c by {
            if j > 0 {
                assert(s.drop_first()[j - 1] == s[j]);
            }
        }
        if find_char(s, c) < s.len() {
            assert(s.drop_first()[find_char(s, c) - 1] == s[find_char(s, c)]);
        }
    }
}

/// A forward scan that stops at the first occurrence of `c` lands
/// exactly on `find_char`.
pub proof fn lemma_find_char_unique(s: Seq<char>, c: char, i: int)
    requires
        0 <= i <= s.len(),
        forall|j: int| 0 <= j < i ==> s[j] != c,
        i < s.len() ==> s[i] == c,
    ensures
        i == find_char(s, c),
{
    lemma_find_char_props(s, c);
}

/// The position of the first occurrence of `c` in `s`, or the length
/// of `s` if there is none.
pub fn find_char_in(s: &str, c: char) -> (i: usize)
    ensures
        i as int == find_char(s@, c),
        i <= s@.len(),
{
    let n = s.unicode_len();
    let mut i: usize = 0;
    while i < n
        invariant
            0 <= i <= n,
            n == s@.len(),
            forall|j: int| 0 <= j < i ==> s@[j] != c,
        decreases n - i,
    {
        if s.get_char(i) == c {
            proof {
                lemma_find_char_unique(s@, c, i as int);
            }
            return i;
        }
        i = i + 1;
    }
    proof {
        lemma_find_char_unique(s@, c, n as int);
    }
    n
}

// ----- the decimal grammar -----

/// The token with a single leading sign removed.
pub open spec fn decimal_body(s: Seq<char>) -> Seq<char> {
    if s.len() > 0 && (s.first() == '+' || s.first() == '-') {
        s.drop_first()
    } else {
        s
    }
}

/// The token is a finite decimal number: an optional sign, then digits
/// with at most one point among them, at least one digit in all.
pub open spec fn is_decimal(s: Seq<char>) -> bool {
    let b = decimal_body(s);
    let dot = find_char(b, '.');
    &&& b.len() > 0
    &&& forall|j: int| 0 <= j < b.len() ==> is_digit(b[j]) || b[j] == '.'
    &&& (dot < b.len() ==> find_char(b.skip(dot + 1), '.') == b.len() - dot - 1)
    &&& b.len() - (if dot < b.len() { 1int } else { 0int }) >= 1
}

pub open spec fn pow10(n: nat) -> int
    decreases n,
{
    if n == 0 {
        1
    } else {
        10 * pow10((n - 1) as nat)
    }
}

/// The value of an unsigned decimal token, scaled by `FIXED_SCALE`:
/// integer part times ten million plus the first seven fractional
/// digits, padded with zeros. Fractional digits beyond the seventh
/// are dropped.
pub open spec fn dec_units_of(b: Seq<char>) -> int {
    let dot = find_char(b, '.');
    let ip = b.take(dot);
    let fp = if dot < b.len() {
        b.skip(dot + 1)
    } else {
        Seq::<char>::empty()
    };
    let k = vstd::math::min(fp.len() as int, 7);
    digits_val(ip) * 10_000_000 + digits_val(fp.take(k)) * pow10((7 - k) as nat)
}

/// What parsing a decimal token yields: `None` if the token is not a
/// finite decimal number, otherwise its fixed-point value, saturated
/// at `u64::MAX` units.
pub open spec fn spec_decimal(s: Seq<char>) -> Option<Fixed> {
    if is_decimal(s) {
        let u = dec_units_of(decimal_body(s));
        let units = if u > u64::MAX { u64::MAX as int } else { u };
        Some(Fixed { neg: s.first() == '-' && units > 0, units: units as u64 })
    } else {
        None
    }
}

proof fn lemma_pow10_adds(a: nat, b: nat)
    ensures
        pow10(a + b) == pow10(a) * pow10(b),
    decreases a,
{
    if a == 0 {
    } else {
        lemma_pow10_adds((a - 1) as nat, b);
        lemma_mul_is_associative(10, pow10((a - 1) as nat), pow10(b));
    }
}

proof fn lemma_pow10_pos(n: nat)
    ensures
        pow10(n) >= 1,
    decreases n,
{
    if n > 0 {
        lemma_pow10_pos((n - 1) as nat);
    }
}

/// Parse a decimal token. Returns exactly what the grammar admits:
/// `None` on anything that is not a finite decimal number.
#[verifier::rlimit(60)]
pub fn parse_decimal(s: &str) -> (r: Option<Fixed>)
    ensures
        r == spec_decimal(s@),
{
    let n = s.unicode_len();
    if n == 0 {
        return None;
    }
    let c0 = s.get_char(0);
    let has_sign = c0 == '+' || c0 == '-';
    let start: usize = if has_sign {
        1
    } else {
        0
    };
    let ghost b = decimal_body(s@);
    proof {
        assert(b =~= s@.subrange(start as int, n as int));
    }
    if start == n {
        // sign alone: the body is empty
        return None;
    }
    // Scan for the point and refuse anything but digits around it.
    let mut dot: usize = n;  // the position of '.' in s, or n
    let mut i: usize = start;
    let mut ndigits: usize = 0;
    while i < n
        invariant
            start <= i <= n,
            start < n,
            n == s@.len(),
            start <= 1,
            b == decimal_body(s@),
            b == s@.subrange(start as int, n as int),
            dot == n || (start <= dot < i && s@[dot as int] == '.'),
            forall|j: int| start <= j < i && j != dot ==> is_digit(s@[j]) && s@[j] != '.',
            ndigits == i - start - (if dot < n { 1int } else { 0int }),
        decreases n - i,
    {
        let c = s.get_char(i);
        let cu = c as u32;
        if 48 <= cu && cu <= 57 {
            ndigits = ndigits + 1;
        } else if c == '.' {
            if dot < n {
                // a second point: not a number
                proof {
                    lemma_not_decimal_two_dots(s@, b, start as int, dot as int, i as int);
                }
                return None;
            }
            dot = i;
        } else {
            // some other character: not a number
            proof {
                lemma_not_decimal_bad_char(s@, b, start as int, i as int);
            }
            return None;
        }
        i = i + 1;
    }
    if ndigits == 0 {
        // the body is just a point
        proof {
            assert(dot < n && n - start == 1);
            assert(b.len() == 1 && b[0] == '.');
            assert(find_char(b, '.') == 0);
        }
        return None;
    }
    proof {
        lemma_scan_is_decimal(s@, b, start as int, dot as int, ndigits as int);
    }
    // Accumulate the scaled value: integer digits, then the first
    // seven fractional digits, then zero padding up to seven.
    let ip_end: usize = if dot < n {
        dot
    } else {
        n
    };
    let ghost bdot = find_char(b, '.');
    let ghost ip = b.take(bdot);
    let ghost fp = if bdot < b.len() {
        b.skip(bdot + 1)
    } else {
        Seq::<char>::empty()
    };
    proof {
        assert(bdot == ip_end - start);
        assert(ip =~= s@.subrange(start as int, ip_end as int));
    }
    let mut acc: u64 = 0;
    let mut sat: bool = false;
    let ghost mut exact: int = 0int;
    let mut i: usize = start;
    while i < ip_end
        invariant
            start <= i <= ip_end <= n,
            n == s@.len(),
            start <= 1,
            ip == s@.subrange(start as int, ip_end as int),
            forall|j: int| start <= j < ip_end ==> is_digit(s@[j]),
            exact == digits_val(s@.subrange(start as int, i as int)),
            !sat ==> acc == exact && exact <= u64::MAX,
            sat ==> exact > u64::MAX,
            exact >= 0,
        decreases ip_end - i,
    {
        let c = s.get_char(i);
        let d: u64 = (c as u32 - 48) as u64;
        proof {
            assert(s@.subrange(start as int, i + 1).drop_last() =~= s@.subrange(
                start as int,
                i as int,
            ));
            assert(digits_val(s@.subrange(start as int, i + 1)) == 10 * exact + d);
        }
        if !sat {
            if acc <= (u64::MAX - d) / 10 {
                acc = acc * 10 + d;
            } else {
                sat = true;
            }
        }
        proof {
            exact = 10 * exact + d as int;
        }
        i = i + 1;
    }
    proof {
        assert(s@.subrange(start as int, ip_end as int) == ip);
        assert(exact == digits_val(ip));
    }
    // fractional digits
    let fp_start: usize = if dot < n {
        dot + 1
    } else {
        n
    };
    let ghost klen = vstd::math::min(fp.len() as int, 7);
    let fp_take: usize = if n - fp_start > 7 {
        7
    } else {
        n - fp_start
    };
    proof {
        if dot < n {
            assert(fp =~= s@.subrange(fp_start as int, n as int));
        }
        assert(klen == fp_take as int);
        assert(fp.take(0) =~= Seq::<char>::empty());
    }
    let mut j: usize = 0;
    while j < fp_take
        invariant
            0 <= j <= fp_take,
            fp_start + fp_take <= n,
            n == s@.len(),
            fp_take as int == klen,
            klen <= fp.len(),
            fp_take > 0 ==> fp == s@.subrange(fp_start as int, n as int),
            forall|jj: int| fp_start <= jj < n ==> is_digit(s@[jj]),
            exact == digits_val(ip) * pow10(j as nat) + digits_val(fp.take(j as int)),
            !sat ==> acc == exact && exact <= u64::MAX,
            sat ==> exact > u64::MAX,
            exact >= 0,
        decreases fp_take - j,
    {
        let c = s.get_char(fp_start + j);
        let d: u64 = (c as u32 - 48) as u64;
        proof {
            assert(fp.take(j + 1).drop_last() =~= fp.take(j as int));
            assert(fp.take(j + 1).last() == s@[fp_start + j]);
            assert(digits_val(fp.take(j + 1)) == 10 * digits_val(fp.take(j as int)) + d);
            assert(digits_val(ip) * pow10((j + 1) as nat) == 10 * (digits_val(ip) * pow10(
                j as nat,
            ))) by {
                lemma_mul_is_associative(10, digits_val(ip), pow10(j as nat));
                lemma_mul_is_associative(digits_val(ip), 10, pow10(j as nat));
            }
        }
        if !sat {
            if acc <= (u64::MAX - d) / 10 {
                acc = acc * 10 + d;
            } else {
                sat = true;
            }
        }
        proof {
            exact = 10 * exact + d as int;
        }
        j = j + 1;
    }
    // zero padding up to seven fractional digits
    let pad: usize = 7 - fp_take;
    let mut m: usize = 0;
    while m < pad
        invariant
            0 <= m <= pad,
            pad == 7 - fp_take,
            fp_take <= 7,
            fp_take as int == klen,
            exact == (digits_val(ip) * pow10(klen as nat) + digits_val(fp.take(klen))) * pow10(
                m as nat,
            ),
            !sat ==> acc == exact && exact <= u64::MAX,
            sat ==> exact > u64::MAX,
            exact >= 0,
        decreases pad - m,
    {
        proof {
            let base = digits_val(ip) * pow10(klen as nat) + digits_val(fp.take(klen));
            assert(base * pow10((m + 1) as nat) == 10 * (base * pow10(m as nat))) by {
                lemma_mul_is_associative(10, base, pow10(m as nat));
                lemma_mul_is_associative(base, 10, pow10(m as nat));
            }
        }
        if !sat {
            if acc <= u64::MAX / 10 {
                acc = acc * 10;
            } else {
                sat = true;
            }
        }
        proof {
            exact = 10 * exact;
        }
        m = m + 1;
    }
    proof {
        lemma_pow10_adds(klen as nat, (7 - klen) as nat);
        lemma_mul_is_distributive_add_other_way(
            pow10((7 - klen) as nat),
            digits_val(ip) * pow10(klen as nat),
            digits_val(fp.take(klen)),
        );
        lemma_mul_is_associative(digits_val(ip), pow10(klen as nat), pow10((7 - klen) as nat));
        assert(pow10(7) == 10_000_000) by {
            reveal_with_fuel(pow10, 8);
        }
        assert(exact == dec_units_of(b));
    }
    let units: u64 = if sat {
        u64::MAX
    } else {
        acc
    };
    let neg = s.get_char(0) == '-' && units > 0;
    Some(Fixed { neg, units })
}

proof fn lemma_not_decimal_two_dots(s: Seq<char>, b: Seq<char>, start: int, dot: int, i: int)
    requires
        b == decimal_body(s),
        b == s.subrange(start, s.len() as int),
        0 <= start <= dot < i < s.len(),
        start <= 1,
        s[dot] == '.',
        s[i] == '.',
        forall|j: int| start <= j < i && j != dot ==> s[j] != '.',
    ensures
        !is_decimal(s),
{
    let bdot = find_char(b, '.');
    assert forall|j: int| 0 <= j < dot - start implies b[j] != '.' by {
        assert(b[j] == s[j + start]);
    }
    lemma_find_char_unique(b, '.', dot - start);
    assert(bdot == dot - start);
    let rest = b.skip(bdot + 1);
    lemma_find_char_props(rest, '.');
    assert(rest[i - start - (bdot + 1)] == s[i]);
    assert(find_char(rest, '.') <= i - start - (bdot + 1)) by {
        if find_char(rest, '.') > i - start - (bdot + 1) {
            assert(rest[i - start - (bdot + 1)] != '.');
        }
    }
    assert(find_char(rest, '.') < rest.len());
    assert(find_char(rest, '.') != b.len() - bdot - 1);
}

proof fn lemma_not_decimal_bad_char(s: Seq<char>, b: Seq<char>, start: int, i: int)
    requires
        b == decimal_body(s),
        b == s.subrange(start, s.len() as int),
        0 <= start <= i < s.len(),
        start <= 1,
        !is_digit(s[i]),
        s[i] != '.',
    ensures
        !is_decimal(s),
{
    assert(b[i - start] == s[i]);
}

proof fn lemma_scan_is_decimal(s: Seq<char>, b: Seq<char>, start: int, dot: int, ndigits: int)
    requires
        b == decimal_body(s),
        b == s.subrange(start, s.len() as int),
        0 <= start <= s.len(),
        start <= 1,
        start < s.len(),
        dot == s.len() || (start <= dot < s.len() && s[dot] == '.'),
        forall|j: int| start <= j < s.len() && j != dot ==> is_digit(s[j]) && s[j] != '.',
        ndigits == s.len() - start - (if dot < s.len() { 1int } else { 0int }),
        ndigits >= 1,
    ensures
        is_decimal(s),
        dot < s.len() ==> find_char(b, '.') == dot - start,
        dot == s.len() ==> find_char(b, '.') == b.len(),
{
    assert forall|j: int| 0 <= j < b.len() implies is_digit(b[j]) || b[j] == '.' by {
        assert(b[j] == s[j + start]);
    }
    if dot < s.len() {
        assert forall|j: int| 0 <= j < dot - start implies b[j] != '.' by {
            assert(b[j] == s[j + start]);
        }
        lemma_find_char_unique(b, '.', dot - start);
        let bdot = find_char(b, '.');
        let rest = b.skip(bdot + 1);
        assert forall|j: int| 0 <= j < rest.len() implies rest[j] != '.' by {
            assert(rest[j] == s[j + dot + 1]);
        }
        lemma_find_char_unique(rest, '.', rest.len() as int);
    } else {
        assert forall|j: int| 0 <= j < b.len() implies b[j] != '.' by {
            assert(b[j] == s[j + start]);
        }
        lemma_find_char_unique(b, '.', b.len() as int);
    }
}

} // verus!
