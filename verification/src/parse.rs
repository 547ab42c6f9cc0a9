use vstd::prelude::*;
use vstd::string::StrSliceExecFns;
use crate::SCALE;
use crate::fixed::{ComplexPoint, Fixed};

verus! {

/// Largest absolute integer part a fixed-point literal may carry.
pub const INT_PART_LIMIT: u64 = 100000000;

/// Denominator of an 18-digit decimal fraction: 10^18.
pub const FRAC_DENOM: u64 = 1000000000000000000;

/// A value that can be read from a decimal string.
pub trait FromDecimal: Sized {
    /// The value that `s` denotes, if the grammar accepts it.
    spec fn from_decimal_spec(s: Seq<char>) -> Option<Self>;

    /// Reads `s`, returning exactly what the spec says.
    fn from_decimal(s: &str) -> (r: Option<Self>)
        ensures
            r == Self::from_decimal_spec(s@),
    ;
}

/// An ASCII decimal digit.
pub open spec fn is_digit(c: char) -> bool {
    '0' as u32 <= c as u32 <= '9' as u32
}

/// Its numeric value.
pub open spec fn digit_val(c: char) -> int {
    c as u32 - '0' as u32
}

/// Every character a digit.
pub open spec fn all_digits(s: Seq<char>) -> bool {
    forall|i: int| 0 <= i < s.len() ==> is_digit(#[trigger] s[i])
}

/// The value of a digit string read in base 10.
pub open spec fn digits_val(s: Seq<char>) -> int
    decreases s.len(),
{
    if s.len() == 0 {
        0
    } else {
        10 * digits_val(s.drop_last()) + digit_val(s.last())
    }
}

/// Powers of ten.
pub open spec fn pow10(k: nat) -> int
    decreases k,
{
    if k == 0 {
        1int
    } else {
        10 * pow10((k - 1) as nat)
    }
}

proof fn lemma_pow10_18()
    ensures
        pow10(18) == FRAC_DENOM,
        pow10(17) == FRAC_DENOM / 10,
{
    reveal_with_fuel(pow10, 20);
}

/// A digit string's value is non-negative and below 10^length.
pub proof fn lemma_digits_val_bound(s: Seq<char>)
    requires
        all_digits(s),
    ensures
        0 <= digits_val(s) < pow10(s.len()),
    decreases s.len(),
{
    if s.len() > 0 {
        assert(all_digits(s.drop_last())) by {
            assert(forall|i: int|
                0 <= i < s.len() - 1 ==> s.drop_last()[i] == #[trigger] s[i]);
        }
        lemma_digits_val_bound(s.drop_last());
        assert(is_digit(s.last()));
    }
}

/// Extending a digit string on the right never decreases its value.
pub proof fn lemma_digits_prefix_le(s: Seq<char>, k: int)
    requires
        all_digits(s),
        0 <= k <= s.len(),
    ensures
        digits_val(s.subrange(0, k)) <= digits_val(s),
    decreases s.len(),
{
    if k == s.len() {
        assert(s.subrange(0, k) =~= s);
    } else {
        assert(all_digits(s.drop_last())) by {
            assert(forall|i: int|
                0 <= i < s.len() - 1 ==> s.drop_last()[i] == #[trigger] s[i]);
        }
        assert(s.subrange(0, k) =~= s.drop_last().subrange(0, k));
        lemma_digits_prefix_le(s.drop_last(), k);
        lemma_digits_val_bound(s.drop_last());
        assert(is_digit(s.last()));
    }
}

/// Index of the first occurrence of `ch` in `s`.
pub open spec fn find_char(s: Seq<char>, ch: char) -> Option<int>
    decreases s.len(),
{
    if s.len() == 0 {
        None
    } else if s[0] == ch {
        Some(0int)
    } else {
        match find_char(s.subrange(1, s.len() as int), ch) {
            None => None,
            Some(i) => Some(i + 1),
        }
    }
}

/// What `find_char` returns: the first hit, or a miss everywhere.
pub proof fn lemma_find_char(s: Seq<char>, ch: char)
    ensures
        match find_char(s, ch) {
            Some(i) => 0 <= i < s.len() && s[i] == ch && forall|j: int|
                0 <= j < i ==> s[j] != ch,
            None => forall|j: int| 0 <= j < s.len() ==> s[j] != ch,
        },
    decreases s.len(),
{
    if s.len() > 0 && s[0] != ch {
        let t = s.subrange(1, s.len() as int);
        lemma_find_char(t, ch);
        match find_char(t, ch) {
            Some(i) => {
                assert(s[i + 1] == t[i]);
                assert forall|j: int| 0 <= j < i + 1 implies s[j] != ch by {
                    if j > 0 {
                        assert(t[j - 1] == s[j]);
                    }
                }
            },
            None => {
                assert forall|j: int| 0 <= j < s.len() implies s[j] != ch by {
                    if j > 0 {
                        assert(t[j - 1] == s[j]);
                    }
                }
            },
        }
    }
}

/// The converse: a first hit at `i` is what `find_char` returns.
pub proof fn lemma_find_char_at(s: Seq<char>, ch: char, i: int)
    requires
        0 <= i < s.len(),
        s[i] == ch,
        forall|j: int| 0 <= j < i ==> s[j] != ch,
    ensures
        find_char(s, ch) == Some(i),
    decreases s.len(),
{
    if i > 0 {
        lemma_find_char_at(s.subrange(1, s.len() as int), ch, i - 1);
    }
}

/// Finds the first occurrence of `separator` in `s`.
fn find_char_exec(s: &str, separator: char) -> (r: Option<usize>)
    ensures
        match r {
            Some(i) => find_char(s@, separator) == Some(i as int),
            None => find_char(s@, separator) is None,
        },
{
    let n = s.unicode_len();
    let mut idx: usize = 0;
    while idx < n
        invariant
            n == s@.len(),
            idx <= n,
            forall|j: int| 0 <= j < idx ==> s@[j] != separator,
        decreases n - idx,
    {
        if s.get_char(idx) == separator {
            proof {
                lemma_find_char_at(s@, separator, idx as int);
            }
            return Some(idx);
        }
        idx = idx + 1;
    }
    proof {
        lemma_find_char(s@, separator);
        if find_char(s@, separator) is Some {
            let i = find_char(s@, separator)->0;
            assert(s@[i] != separator);
        }
    }
    None
}

/// The value of a non-empty all-digit string, when it stays within `limit`.
pub open spec fn int_digits_spec(s: Seq<char>, limit: int) -> Option<int> {
    if s.len() > 0 && all_digits(s) && digits_val(s) <= limit {
        Some(digits_val(s))
    } else {
        None
    }
}

/// Reads a digit string bounded by `limit`, exactly as `int_digits_spec`
/// says.
fn parse_int_digits(s: &str, limit: u64) -> (r: Option<u64>)
    requires
        limit <= u64::MAX - 9,
    ensures
        match r {
            Some(v) => int_digits_spec(s@, limit as int) == Some(v as int),
            None => int_digits_spec(s@, limit as int) is None,
        },
{
    let n = s.unicode_len();
    if n == 0 {
        return None;
    }
    let mut acc: u64 = 0;
    let mut idx: usize = 0;
    while idx < n
        invariant
            n == s@.len(),
            idx <= n,
            limit <= u64::MAX - 9,
            all_digits(s@.subrange(0, idx as int)),
            acc == digits_val(s@.subrange(0, idx as int)),
            acc <= limit,
        decreases n - idx,
    {
        let c = s.get_char(idx);
        if !('0' <= c && c <= '9') {
            assert(!is_digit(s@[idx as int]));
            return None;
        }
        let d: u64 = (c as u32 - '0' as u32) as u64;
        proof {
            assert(s@.subrange(0, idx + 1).drop_last() =~= s@.subrange(0, idx as int));
            assert(s@.subrange(0, idx + 1).last() == s@[idx as int]);
        }
        if acc > limit / 10 {
            proof {
                vstd::arithmetic::div_mod::lemma_fundamental_div_mod(limit as int, 10);
                if all_digits(s@) {
                    lemma_digits_prefix_le(s@, idx + 1);
                }
            }
            return None;
        }
        proof {
            vstd::arithmetic::div_mod::lemma_fundamental_div_mod(limit as int, 10);
            vstd::arithmetic::mul::lemma_mul_inequality(acc as int, (limit as int) / 10, 10);
            assert((acc as int) * 10 <= ((limit as int) / 10) * 10);
            assert(((limit as int) / 10) * 10 <= limit as int);
            assert(0 <= d <= 9);
        }
        let sum: u64 = acc * 10 + d;
        if sum > limit {
            proof {
                if all_digits(s@) {
                    lemma_digits_prefix_le(s@, idx + 1);
                }
            }
            return None;
        }
        acc = sum;
        idx = idx + 1;
    }
    proof {
        assert(s@.subrange(0, n as int) =~= s@);
    }
    Some(acc)
}

/// The first 18 fraction digits, right-padded with zeros.
pub open spec fn frac18(fs: Seq<char>) -> Seq<char> {
    Seq::new(
        18,
        |i: int|
            if i < fs.len() {
                fs[i]
            } else {
                '0'
            },
    )
}

/// The fixed-point units contributed by the fraction digits `fs`: the
/// first 18 digits, scaled by SCALE and divided by 10^18, rounding down.
/// Digits beyond the 18th lie below one unit and are dropped.
pub open spec fn frac_units_spec(fs: Seq<char>) -> int {
    (digits_val(frac18(fs)) * (SCALE as int)) / (FRAC_DENOM as int)
}

/// Reads the fraction digits of a fixed-point literal into units, exactly
/// as `frac_units_spec` says; None when some character is not a digit.
fn parse_frac_digits(s: &str) -> (r: Option<i64>)
    ensures
        match r {
            Some(v) => all_digits(s@) && v as int == frac_units_spec(s@) && 0 <= v < SCALE,
            None => !all_digits(s@),
        },
{
    let n = s.unicode_len();
    let mut acc: u64 = 0;
    let mut t: usize = 0;
    while t < 18
        invariant
            n == s@.len(),
            t <= 18,
            forall|j: int| 0 <= j < t && j < n ==> is_digit(#[trigger] s@[j]),
            acc == digits_val(frac18(s@).subrange(0, t as int)),
            all_digits(frac18(s@).subrange(0, t as int)),
            acc < pow10(t as nat),
            pow10(t as nat) <= FRAC_DENOM,
        decreases 18 - t,
    {
        let c: char = if t < n {
            s.get_char(t)
        } else {
            '0'
        };
        if !('0' <= c && c <= '9') {
            assert(!is_digit(s@[t as int]));
            return None;
        }
        let d: u64 = (c as u32 - '0' as u32) as u64;
        proof {
            lemma_pow10_18();
            assert(pow10((t + 1) as nat) == 10 * pow10(t as nat));
            assert(pow10((t + 1) as nat) <= pow10(18)) by {
                lemma_pow10_monotone((t + 1) as nat, 18);
            }
            assert(frac18(s@).subrange(0, t + 1).drop_last() =~= frac18(s@).subrange(
                0,
                t as int,
            ));
            assert(frac18(s@).subrange(0, t + 1).last() == frac18(s@)[t as int]);
            assert(frac18(s@)[t as int] == c);
        }
        acc = acc * 10 + d;
        t = t + 1;
    }
    let mut u: usize = 18;
    while u < n
        invariant
            n == s@.len(),
            18 <= u,
            u <= n || u == 18,
            forall|j: int| 0 <= j < u && j < n ==> is_digit(#[trigger] s@[j]),
        decreases n - u,
    {
        let c = s.get_char(u);
        if !('0' <= c && c <= '9') {
            assert(!is_digit(s@[u as int]));
            return None;
        }
        u = u + 1;
    }
    proof {
        assert(frac18(s@).subrange(0, 18) =~= frac18(s@));
        assert(all_digits(s@)) by {
            assert(forall|j: int|
                0 <= j < s@.len() && j < 18 ==> is_digit(#[trigger] s@[j]));
        }
        lemma_pow10_18();
    }
    let wide: u128 = (acc as u128) * (SCALE as u128);
    let units: u64 = (wide / (FRAC_DENOM as u128)) as u64;
    proof {
        assert(wide < (FRAC_DENOM as u128) * (SCALE as u128)) by (nonlinear_arith)
            requires
                acc < FRAC_DENOM,
                wide == (acc as u128) * (SCALE as u128),
                SCALE > 0,
        ;
        vstd::arithmetic::div_mod::lemma_multiply_divide_lt(
            wide as int,
            FRAC_DENOM as int,
            SCALE as int,
        );
        vstd::arithmetic::div_mod::lemma_div_pos_is_pos(wide as int, FRAC_DENOM as int);
        vstd::arithmetic::mul::lemma_mul_is_commutative(FRAC_DENOM as int, SCALE as int);
    }
    Some(units as i64)
}

proof fn lemma_pow10_monotone(j: nat, k: nat)
    requires
        j <= k,
    ensures
        pow10(j) <= pow10(k),
    decreases k,
{
    if j < k {
        lemma_pow10_monotone(j, (k - 1) as nat);
        lemma_pow10_pos((k - 1) as nat);
    }
}

proof fn lemma_pow10_pos(k: nat)
    ensures
        pow10(k) >= 1,
    decreases k,
{
    if k > 0 {
        lemma_pow10_pos((k - 1) as nat);
    }
}

/// The units denoted by a sign, an integer digit part and a fraction digit
/// part, if the grammar accepts them: the integer part non-empty, all
/// characters digits, and the integer part within INT_PART_LIMIT.
pub open spec fn fixed_parts_spec(neg: bool, ip: Seq<char>, fp: Seq<char>) -> Option<i64> {
    if ip.len() > 0 && all_digits(ip) && all_digits(fp) && digits_val(ip) <= INT_PART_LIMIT as int {
        let mag = digits_val(ip) * (SCALE as int) + frac_units_spec(fp);
        Some(
            (if neg {
                -mag
            } else {
                mag
            }) as i64,
        )
    } else {
        None
    }
}

/// The fixed-point value denoted by `s`: an optional sign, a non-empty run
/// of integer digits, then optionally a point and fraction digits.
pub open spec fn fixed_spec(s: Seq<char>) -> Option<Fixed> {
    let neg = s.len() > 0 && s[0] == '-';
    let body = if s.len() > 0 && (s[0] == '-' || s[0] == '+') {
        s.subrange(1, s.len() as int)
    } else {
        s
    };
    let parts = match find_char(body, '.') {
        None => fixed_parts_spec(neg, body, Seq::empty()),
        Some(i) => fixed_parts_spec(
            neg,
            body.subrange(0, i),
            body.subrange(i + 1, body.len() as int),
        ),
    };
    match parts {
        Some(units) => Some(Fixed { units }),
        None => None,
    }
}

impl FromDecimal for Fixed {
    open spec fn from_decimal_spec(s: Seq<char>) -> Option<Fixed> {
        fixed_spec(s)
    }

    fn from_decimal(s: &str) -> (r: Option<Fixed>)
        ensures
            r == Self::from_decimal_spec(s@),
    {
        let n = s.unicode_len();
        if n == 0 {
            return None;
        }
        let c0 = s.get_char(0);
        let neg = c0 == '-';
        let start: usize = if c0 == '-' || c0 == '+' {
            1
        } else {
            0
        };
        let body = s.substring_char(start, n);
        proof {
            if start == 0 {
                assert(body@ =~= s@);
            }
        }
        let body_len = body.unicode_len();
        let dot = find_char_exec(body, '.');
        let (ipart, fpart): (&str, &str) = match dot {
            None => (body, ""),
            Some(i) => {
                proof {
                    lemma_find_char(body@, '.');
                }
                (body.substring_char(0, i), body.substring_char(i + 1, body_len))
            },
        };
        proof {
            if dot is None {
                reveal_strlit("");
                assert(fpart@ =~= Seq::<char>::empty());
            }
        }
        let ipv = parse_int_digits(ipart, INT_PART_LIMIT);
        let fpv = parse_frac_digits(fpart);
        match (ipv, fpv) {
            (Some(iv), Some(fv)) => {
                let mag: i64 = (iv * (SCALE as u64) + (fv as u64)) as i64;
                if neg {
                    Some(Fixed { units: -mag })
                } else {
                    Some(Fixed { units: mag })
                }
            },
            _ => None,
        }
    }
}

impl FromDecimal for u32 {
    /// A u32 is a non-empty run of digits whose value fits.
    open spec fn from_decimal_spec(s: Seq<char>) -> Option<u32> {
        if s.len() > 0 && all_digits(s) && digits_val(s) <= u32::MAX {
            Some(digits_val(s) as u32)
        } else {
            None
        }
    }

    fn from_decimal(s: &str) -> (r: Option<u32>)
        ensures
            r == Self::from_decimal_spec(s@),
    {
        match parse_int_digits(s, 4294967295) {
            Some(v) => Some(v as u32),
            None => None,
        }
    }
}

/// The pair denoted by `s`: the text before the first separator and the
/// text after it, each read as a `T`; nothing when the separator is
/// missing or either side is refused.
pub open spec fn parse_pair_spec<T: FromDecimal>(s: Seq<char>, separator: char) -> Option<(T, T)> {
    match find_char(s, separator) {
        None => None,
        Some(i) => {
            let left = T::from_decimal_spec(s.subrange(0, i));
            let right = T::from_decimal_spec(s.subrange(i + 1, s.len() as int));
            match (left, right) {
                (Some(l), Some(r)) => Some((l, r)),
                _ => None,
            }
        },
    }
}

/// Splits `s` at the first `separator` and reads both sides as a `T`,
/// exactly as `parse_pair_spec` says.
pub fn parse_pair<T: FromDecimal>(s: &str, separator: char) -> (r: Option<(T, T)>)
    ensures
        r == parse_pair_spec::<T>(s@, separator),
{
    let n = s.unicode_len();
    match find_char_exec(s, separator) {
        None => None,
        Some(i) => {
            proof {
                lemma_find_char(s@, separator);
            }
            let left = s.substring_char(0, i);
            let right = s.substring_char(i + 1, n);
            match (T::from_decimal(left), T::from_decimal(right)) {
                (Some(l), Some(r)) => Some((l, r)),
                _ => None,
            }
        },
    }
}

/// The complex point denoted by `s`: two fixed-point coordinates split by
/// a comma.
pub open spec fn complex_spec(s: Seq<char>) -> Option<ComplexPoint> {
    match parse_pair_spec::<Fixed>(s, ',') {
        Some(p) => Some(ComplexPoint { re: p.0, im: p.1 }),
        None => None,
    }
}

/// Reads a comma-separated complex point such as "-1.20,0.35", exactly as
/// `complex_spec` says.
pub fn parse_complex(s: &str) -> (r: Option<ComplexPoint>)
    ensures
        r == complex_spec(s@),
{
    match parse_pair::<Fixed>(s, ',') {
        Some(p) => Some(ComplexPoint { re: p.0, im: p.1 }),
        None => None,
    }
}

} // verus!
