//! Exact fixed-point monetary amounts with four fractional decimal digits.
//!
//! An [`Amount`] is an unsigned count of minor units (1/10000 of a unit).
//! It supports overflow-checked addition and subtraction and a lossless
//! text codec: [`Amount::from_text`] parses the decimal grammar and
//! [`Amount::to_text`] renders it back; `from_text(to_text(a))` always
//! returns `a`.

use vstd::prelude::*;

verus! {

/// Number of minor units in one whole unit.
pub const SCALE: u64 = 10000;

/// An exact monetary amount, stored as a count of 1/10000ths of a unit.
#[derive(Debug, Clone, Copy, PartialEq, Eq, Structural)]
pub struct Amount(u64);

impl View for Amount {
    type V = nat;

    closed spec fn view(&self) -> nat {
        self.0 as nat
    }
}

impl Amount {
    /// The zero amount.
    pub fn new() -> (r: Self)
        ensures
            r@ == 0,
    {
        Amount(0)
    }

    /// Builds an amount from a raw count of minor units.
    pub fn from_units(units: u64) -> (r: Self)
        ensures
            r@ == units,
    {
        Amount(units)
    }

    /// The raw count of minor units.
    pub fn units(self) -> (r: u64)
        ensures
            r == self@,
    {
        self.0
    }

    /// Adds two amounts; `None` exactly when the sum does not fit.
    pub fn checked_add(self, v: Self) -> (r: Option<Self>)
        ensures
            self@ + v@ <= u64::MAX ==> (r matches Some(s) && s@ == self@ + v@),
            self@ + v@ > u64::MAX ==> r is None,
    {
        match self.0.checked_add(v.0) {
            Some(u) => Some(Amount(u)),
            None => None,
        }
    }

    /// Subtracts `v`; `None` exactly when `v` exceeds `self`.
    pub fn checked_sub(self, v: Self) -> (r: Option<Self>)
        ensures
            v@ <= self@ ==> (r matches Some(s) && s@ == self@ - v@),
            v@ > self@ ==> r is None,
    {
        match self.0.checked_sub(v.0) {
            Some(u) => Some(Amount(u)),
            None => None,
        }
    }
}

/// Why a piece of text failed to parse as an [`Amount`].
#[derive(Debug, Clone, Copy, PartialEq, Eq, Structural)]
pub enum ParseAmountError {
    /// A part that should be a number is empty or holds a non-digit.
    Parse,
    /// The value does not fit in the amount domain.
    TooLarge,
    /// More than one decimal dot.
    MultipleDots,
    /// More than four significant fractional digits.
    TooPrecise,
}

impl ParseAmountError {
    /// A short human-readable description of the error.
    pub fn message(&self) -> (r: &'static str)
        ensures
            r@ == match *self {
                ParseAmountError::Parse => "int parsing error"@,
                ParseAmountError::TooLarge => "number is too large"@,
                ParseAmountError::MultipleDots => "wrong format: multiple dots"@,
                ParseAmountError::TooPrecise => "unsupported precision of >4"@,
            },
    {
        match *self {
            ParseAmountError::Parse => "int parsing error",
            ParseAmountError::TooLarge => "number is too large",
            ParseAmountError::MultipleDots => "wrong format: multiple dots",
            ParseAmountError::TooPrecise => "unsupported precision of >4",
        }
    }
}

// ---------------------------------------------------------------------------
// The text grammar, as mathematics over sequences of characters.
// ---------------------------------------------------------------------------

/// `c` is a decimal digit.
pub open spec fn is_digit(c: char) -> bool {
    48 <= c as int && c as int <= 57
}

/// The numeric value of a digit character.
pub open spec fn digit_val(c: char) -> int {
    c as int - 48
}

/// Every character of `s` is a decimal digit.
pub open spec fn all_digits(s: Seq<char>) -> bool {
    forall|i: int| 0 <= i < s.len() ==> is_digit(#[trigger] s[i])
}

/// The value of a digit string, most significant digit first.
pub open spec fn digits_val(s: Seq<char>) -> int
    decreases s.len(),
{
    if s.len() == 0 {
        0
    } else {
        digits_val(s.drop_last()) * 10 + digit_val(s.last())
    }
}

/// `s` with a single leading `+` removed, if present.
pub open spec fn strip_plus(s: Seq<char>) -> Seq<char> {
    if s.len() > 0 && s[0] == '+' {
        s.drop_first()
    } else {
        s
    }
}

/// `s` is a number an unsigned-integer parser accepts: an optional `+`,
/// then at least one digit, with a value that fits in `u64`.
pub open spec fn uint_ok(s: Seq<char>) -> bool {
    let d = strip_plus(s);
    d.len() > 0 && all_digits(d) && digits_val(d) <= u64::MAX
}

/// The value of such a number.
pub open spec fn uint_val(s: Seq<char>) -> int {
    digits_val(strip_plus(s))
}

/// `s` holds no decimal dot.
pub open spec fn no_dot(s: Seq<char>) -> bool {
    forall|i: int| 0 <= i < s.len() ==> (#[trigger] s[i]) != '.'
}

/// Index of the first dot of `s` (`s.len()` if there is none).
pub open spec fn first_dot(s: Seq<char>) -> int
    decreases s.len(),
{
    if s.len() == 0 {
        0
    } else if s[0] == '.' {
        0
    } else {
        1 + first_dot(s.drop_first())
    }
}

/// `s` with its trailing zero characters removed.
pub open spec fn strip0(s: Seq<char>) -> Seq<char>
    decreases s.len(),
{
    if s.len() > 0 && s.last() == '0' {
        strip0(s.drop_last())
    } else {
        s
    }
}

/// Ten to the `k`.
pub open spec fn p10(k: nat) -> int
    decreases k,
{
    if k == 0 {
        1
    } else {
        10 * p10((k - 1) as nat)
    }
}

/// Minor units contributed by a trimmed fractional digit string of at
/// most four digits: its value, right-padded with zeros to four digits.
pub open spec fn frac_units(t: Seq<char>) -> int {
    digits_val(t) * p10((4 - t.len()) as nat)
}

/// What parsing a piece of text yields: the minor-unit value, or the
/// error, for every possible input.
pub open spec fn parse_units(s: Seq<char>) -> Result<u64, ParseAmountError> {
    if no_dot(s) {
        if !uint_ok(s) {
            Err(ParseAmountError::Parse)
        } else if uint_val(s) * 10000 > u64::MAX {
            Err(ParseAmountError::TooLarge)
        } else {
            Ok((uint_val(s) * 10000) as u64)
        }
    } else {
        let k = first_dot(s);
        let ip = s.take(k);
        let fp = s.skip(k + 1);
        if !no_dot(fp) {
            Err(ParseAmountError::MultipleDots)
        } else if ip.len() > 0 && !uint_ok(ip) {
            Err(ParseAmountError::Parse)
        } else {
            let ipv = if ip.len() == 0 { 0 } else { uint_val(ip) };
            let ft = strip0(fp);
            if ft.len() > 4 {
                Err(ParseAmountError::TooPrecise)
            } else if ft.len() > 0 && !all_digits(ft) {
                Err(ParseAmountError::Parse)
            } else {
                let v = ipv * 10000 + frac_units(ft);
                if v > u64::MAX {
                    Err(ParseAmountError::TooLarge)
                } else {
                    Ok(v as u64)
                }
            }
        }
    }
}

// ---------------------------------------------------------------------------
// Facts about the grammar.
// ---------------------------------------------------------------------------

proof fn lemma_all_digits_drop_last(s: Seq<char>)
    requires
        s.len() > 0,
        all_digits(s),
    ensures
        all_digits(s.drop_last()),
{
    assert forall|i: int| 0 <= i < s.len() - 1 implies is_digit(#[trigger] s.drop_last()[i]) by {
        assert(s.drop_last()[i] == s[i]);
    }
}

proof fn lemma_digits_val_nonneg(s: Seq<char>)
    requires
        all_digits(s),
    ensures
        digits_val(s) >= 0,
    decreases s.len(),
{
    if s.len() > 0 {
        lemma_all_digits_drop_last(s);
        lemma_digits_val_nonneg(s.drop_last());
        assert(is_digit(s[s.len() - 1]));
    }
}

/// Extending a digit string on the right never decreases its value.
proof fn lemma_digits_val_prefix(s: Seq<char>, j: int)
    requires
        all_digits(s),
        0 <= j <= s.len(),
    ensures
        digits_val(s.take(j)) <= digits_val(s),
    decreases s.len(),
{
    if j == s.len() {
        assert(s.take(j) =~= s);
    } else {
        let d = s.drop_last();
        assert(s.take(j) =~= d.take(j));
        lemma_all_digits_drop_last(s);
        lemma_digits_val_prefix(d, j);
        lemma_digits_val_nonneg(d);
        assert(is_digit(s[s.len() - 1]));
    }
}

proof fn lemma_p10_pos(k: nat)
    ensures
        p10(k) >= 1,
    decreases k,
{
    if k > 0 {
        lemma_p10_pos((k - 1) as nat);
    }
}

proof fn lemma_p10_mul(a: nat, b: nat)
    ensures
        p10(a) * p10(b) == p10(a + b),
    decreases a,
{
    if a == 0 {
    } else {
        lemma_p10_mul((a - 1) as nat, b);
        assert(p10(a) * p10(b) == 10 * (p10((a - 1) as nat) * p10(b))) by (nonlinear_arith)
            requires
                p10(a) == 10 * p10((a - 1) as nat),
        ;
    }
}

proof fn lemma_p10_4()
    ensures
        p10(4) == 10000,
{
    assert(p10(0) == 1);
    assert(p10(1) == 10);
    assert(p10(2) == 100);
    assert(p10(3) == 1000);
    assert(p10(4) == 10000);
}

/// A digit string's value is below ten to its length.
proof fn lemma_digits_val_bound(s: Seq<char>)
    requires
        all_digits(s),
    ensures
        digits_val(s) < p10(s.len()),
    decreases s.len(),
{
    if s.len() > 0 {
        lemma_all_digits_drop_last(s);
        lemma_digits_val_bound(s.drop_last());
        assert(is_digit(s[s.len() - 1]));
    }
}

/// A digit string of at most four characters cannot overflow `u64`.
proof fn lemma_digits_val_bound_small(s: Seq<char>)
    requires
        s.len() <= 4,
        all_digits(s),
    ensures
        digits_val(s) <= u64::MAX,
{
    lemma_digits_val_bound(s);
    lemma_digits_val_nonneg(s);
    lemma_p10_4();
    if s.len() < 4 {
        lemma_p10_mul(s.len(), (4 - s.len()) as nat);
        lemma_p10_pos((4 - s.len()) as nat);
        lemma_p10_pos(s.len());
        assert(p10(s.len()) <= p10(4)) by (nonlinear_arith)
            requires
                p10(s.len()) * p10((4 - s.len()) as nat) == p10(4),
                p10((4 - s.len()) as nat) >= 1,
                p10(s.len()) >= 1,
        ;
    }
}

/// Characterizes the scan that found the first dot.
proof fn lemma_first_dot_at(s: Seq<char>, k: int)
    requires
        0 <= k < s.len(),
        s[k] == '.',
        forall|i: int| 0 <= i < k ==> (#[trigger] s[i]) != '.',
    ensures
        first_dot(s) == k,
    decreases k,
{
    if k > 0 {
        lemma_first_dot_at(s.drop_first(), k - 1);
    }
}

/// Trimming zeros keeps the significant value: the full string's value is
/// the trimmed one's times a power of ten.
proof fn lemma_strip0_val(s: Seq<char>)
    ensures
        strip0(s).len() <= s.len(),
        digits_val(s) == digits_val(strip0(s)) * p10((s.len() - strip0(s).len()) as nat),
    decreases s.len(),
{
    if s.len() > 0 && s.last() == '0' {
        let d = s.drop_last();
        lemma_strip0_val(d);
        let k = (d.len() - strip0(d).len()) as nat;
        assert(digit_val('0') == 0);
        assert(digits_val(s) == digits_val(d) * 10);
        assert((digits_val(strip0(d)) * p10(k)) * 10 == digits_val(strip0(d)) * (p10(k) * 10))
            by (nonlinear_arith);
        assert(p10(k) * 10 == p10(k + 1)) by {
            lemma_p10_mul(k, 1);
        }
    } else {
        assert(digits_val(s) == digits_val(s) * 1);
    }
}

/// A string whose last character is not `'0'` is already trimmed.
proof fn lemma_strip0_id(s: Seq<char>)
    requires
        s.len() == 0 || s.last() != '0',
    ensures
        strip0(s) == s,
{
}

/// Trimming preserves digit-string membership.
proof fn lemma_strip0_digits(s: Seq<char>)
    requires
        all_digits(s),
    ensures
        all_digits(strip0(s)),
    decreases s.len(),
{
    if s.len() > 0 && s.last() == '0' {
        lemma_all_digits_drop_last(s);
        lemma_strip0_digits(s.drop_last());
    }
}

// ---------------------------------------------------------------------------
// The verified parser.
// ---------------------------------------------------------------------------

/// Parses the digit-only range `[from, to)` of `s`; `None` exactly when
/// the range is empty, holds a non-digit, or overflows `u64`.
fn parse_digits(s: &str, from: usize, to: usize) -> (r: Option<u64>)
    requires
        from <= to <= s@.len(),
    ensures
        ({
            let part = s@.subrange(from as int, to as int);
            &&& (r is Some <==> (part.len() > 0 && all_digits(part) && digits_val(part)
                <= u64::MAX))
            &&& (r matches Some(v) ==> v == digits_val(part))
        }),
{
    let ghost part = s@.subrange(from as int, to as int);
    if from == to {
        return None;
    }
    let mut acc: u64 = 0;
    let mut i = from;
    while i < to
        invariant
            from <= i <= to <= s@.len(),
            part == s@.subrange(from as int, to as int),
            all_digits(part.take(i - from)),
            acc == digits_val(part.take(i - from)),
        decreases to - i,
    {
        let c = s.get_char(i);
        let cu = c as u32;
        proof {
            assert(part[i - from] == c);
        }
        if cu < 48 || cu > 57 {
            proof {
                assert(!is_digit(part[i - from]));
            }
            return None;
        }
        let d = (cu - 48) as u64;
        proof {
            assert(part.take(i - from + 1).drop_last() =~= part.take(i - from));
            assert(part.take(i - from + 1).last() == c);
            assert(d == digit_val(c));
        }
        let step = match acc.checked_mul(10) {
            Some(x) => x.checked_add(d),
            None => None,
        };
        match step {
            Some(x) => {
                acc = x;
                proof {
                    assert forall|jj: int| 0 <= jj < i - from + 1 implies is_digit(
                        #[trigger] part.take(i - from + 1)[jj],
                    ) by {
                        assert(part.take(i - from + 1)[jj] == part[jj]);
                        if jj < i - from {
                            assert(part.take(i - from)[jj] == part[jj]);
                        } else {
                            assert(part[jj] == c);
                        }
                    }
                }
            },
            None => {
                proof {
                    assert(digits_val(part.take(i - from + 1)) > u64::MAX);
                    if all_digits(part) {
                        lemma_digits_val_prefix(part, i - from + 1);
                    }
                }
                return None;
            },
        }
        i += 1;
    }
    proof {
        assert(part.take(to - from) =~= part);
    }
    Some(acc)
}

/// Parses the range `[from, to)` of `s` as an unsigned integer with an
/// optional leading `+`.
fn parse_uint_part(s: &str, from: usize, to: usize) -> (r: Option<u64>)
    requires
        from <= to <= s@.len(),
    ensures
        ({
            let part = s@.subrange(from as int, to as int);
            &&& (r is Some <==> uint_ok(part))
            &&& (r matches Some(v) ==> v == uint_val(part))
        }),
{
    let ghost part = s@.subrange(from as int, to as int);
    let start = if from < to && s.get_char(from) == '+' {
        from + 1
    } else {
        from
    };
    proof {
        assert(s@.subrange(start as int, to as int) =~= strip_plus(part));
    }
    parse_digits(s, start, to)
}

/// Ten to the `k`, for small `k`.
fn pow10_small(k: usize) -> (r: u64)
    requires
        k <= 4,
    ensures
        r == p10(k as nat),
{
    proof {
        assert(p10(0) == 1);
        assert(p10(1) == 10);
        assert(p10(2) == 100);
        assert(p10(3) == 1000);
        assert(p10(4) == 10000);
    }
    if k == 0 {
        1
    } else if k == 1 {
        10
    } else if k == 2 {
        100
    } else if k == 3 {
        1000
    } else {
        10000
    }
}

impl Amount {
    /// Parses a decimal amount: an optional `+`, an integer part (empty
    /// means zero when a dot follows), and an optional dot with at most
    /// four significant fractional digits.
    pub fn from_text(s: &str) -> (r: Result<Amount, ParseAmountError>)
        ensures
            match parse_units(s@) {
                Ok(v) => r matches Ok(a) && a@ == v,
                Err(e) => r matches Err(e2) && e2 == e,
            },
    {
        let n = s.unicode_len();
        let mut k: usize = 0;
        while k < n && s.get_char(k) != '.'
            invariant
                0 <= k <= n,
                n == s@.len(),
                forall|i: int| 0 <= i < k ==> (#[trigger] s@[i]) != '.',
            decreases n - k,
        {
            k += 1;
        }
        if k == n {
            // No dot: the whole text is the integer part.
            proof {
                assert(s@.subrange(0, n as int) =~= s@);
            }
            match parse_uint_part(s, 0, n) {
                None => Err(ParseAmountError::Parse),
                Some(v) => match v.checked_mul(SCALE) {
                    Some(u) => Ok(Amount(u)),
                    None => Err(ParseAmountError::TooLarge),
                },
            }
        } else {
            proof {
                lemma_first_dot_at(s@, k as int);
            }
            let ghost ip = s@.take(k as int);
            let ghost fp = s@.skip(k as int + 1);
            // Look for a second dot.
            let mut j = k + 1;
            while j < n && s.get_char(j) != '.'
                invariant
                    k < j <= n,
                    n == s@.len(),
                    forall|i: int| k < i < j ==> (#[trigger] s@[i]) != '.',
                decreases n - j,
            {
                j += 1;
            }
            if j < n {
                proof {
                    assert(fp[j - k - 1] == '.');
                }
                return Err(ParseAmountError::MultipleDots);
            }
            proof {
                assert forall|i: int| 0 <= i < fp.len() implies (#[trigger] fp[i]) != '.' by {
                    assert(fp[i] == s@[k + 1 + i]);
                }
            }
            // Integer part.
            let ipv: u64 = if k == 0 {
                0
            } else {
                proof {
                    assert(s@.subrange(0, k as int) =~= ip);
                }
                match parse_uint_part(s, 0, k) {
                    None => {
                        return Err(ParseAmountError::Parse);
                    },
                    Some(v) => v,
                }
            };
            // Fractional part: drop trailing zeros.
            let mut e = n;
            while e > k + 1 && s.get_char(e - 1) == '0'
                invariant
                    k + 1 <= e <= n,
                    n == s@.len(),
                    fp == s@.skip(k as int + 1),
                    strip0(fp) == strip0(s@.subrange(k as int + 1, e as int)),
                decreases e,
            {
                proof {
                    let cur = s@.subrange(k as int + 1, e as int);
                    assert(cur.drop_last() =~= s@.subrange(k as int + 1, e as int - 1));
                    assert(cur.last() == s@[e as int - 1]);
                }
                e -= 1;
            }
            let ghost ft = strip0(fp);
            proof {
                assert(fp =~= s@.subrange(k as int + 1, n as int));
                let cur = s@.subrange(k as int + 1, e as int);
                if e > k + 1 {
                    assert(cur.last() == s@[e as int - 1]);
                }
                lemma_strip0_id(cur);
                assert(ft == cur);
            }
            let flen = e - (k + 1);
            if flen > 4 {
                return Err(ParseAmountError::TooPrecise);
            }
            let fv: u64 = if flen == 0 {
                0
            } else {
                match parse_digits(s, k + 1, e) {
                    None => {
                        proof {
                            if all_digits(ft) {
                                lemma_digits_val_bound_small(ft);
                            }
                        }
                        return Err(ParseAmountError::Parse);
                    },
                    Some(v) => v,
                }
            };
            let m = pow10_small(4 - flen);
            proof {
                if ft.len() > 0 {
                    lemma_digits_val_bound(ft);
                    lemma_p10_mul(ft.len(), (4 - ft.len()) as nat);
                    lemma_digits_val_nonneg(ft);
                    lemma_p10_pos((4 - ft.len()) as nat);
                    lemma_p10_4();
                    assert(digits_val(ft) * p10((4 - ft.len()) as nat) < p10(4)) by (
                    nonlinear_arith)
                        requires
                            digits_val(ft) < p10(ft.len()),
                            digits_val(ft) >= 0,
                            p10((4 - ft.len()) as nat) >= 1,
                            p10(ft.len()) * p10((4 - ft.len()) as nat) == p10(4),
                    ;
                    assert(digits_val(ft) * p10((4 - ft.len()) as nat) >= 0) by (nonlinear_arith)
                        requires
                            digits_val(ft) >= 0,
                            p10((4 - ft.len()) as nat) >= 1,
                    ;
                } else {
                    assert(frac_units(ft) == 0);
                }
            }
            let scaled = fv * m;
            match ipv.checked_mul(SCALE) {
                None => Err(ParseAmountError::TooLarge),
                Some(x) => match x.checked_add(scaled) {
                    None => Err(ParseAmountError::TooLarge),
                    Some(u) => Ok(Amount(u)),
                },
            }
        }
    }
}

// ---------------------------------------------------------------------------
// Formatting.
// ---------------------------------------------------------------------------

/// The digit character for a value in `0..=9`.
pub open spec fn digit_char(d: int) -> char {
    if d == 0 {
        '0'
    } else if d == 1 {
        '1'
    } else if d == 2 {
        '2'
    } else if d == 3 {
        '3'
    } else if d == 4 {
        '4'
    } else if d == 5 {
        '5'
    } else if d == 6 {
        '6'
    } else if d == 7 {
        '7'
    } else if d == 8 {
        '8'
    } else {
        '9'
    }
}

/// The decimal digit string of `n`, most significant digit first, with
/// no leading zeros (a single `'0'` for zero).
pub open spec fn dec_digits(n: nat) -> Seq<char>
    decreases n,
{
    if n < 10 {
        seq![digit_char(n as int)]
    } else {
        dec_digits(n / 10).push(digit_char((n % 10) as int))
    }
}

/// The decimal digit string of `n`, zero-padded on the left to exactly
/// `w` digits (only the low `w` digits of `n` appear).
pub open spec fn padded(n: nat, w: nat) -> Seq<char>
    decreases w,
{
    if w == 0 {
        Seq::empty()
    } else {
        padded(n / 10, (w - 1) as nat).push(digit_char((n % 10) as int))
    }
}

/// The text an amount of `u` minor units renders to: the whole units,
/// then, unless zero, a dot and the four fractional digits with their
/// trailing zeros removed.
pub open spec fn format_units(u: nat) -> Seq<char> {
    if u % 10000 == 0 {
        dec_digits(u / 10000)
    } else {
        dec_digits(u / 10000) + seq!['.'] + strip0(padded((u % 10000) as nat, 4))
    }
}

proof fn lemma_digit_char(d: int)
    requires
        0 <= d <= 9,
    ensures
        is_digit(digit_char(d)),
        digit_val(digit_char(d)) == d,
        d != 0 ==> digit_char(d) != '0',
{
}

/// The decimal digit string of `n` is a digit string denoting `n`.
proof fn lemma_dec_digits(n: nat)
    ensures
        dec_digits(n).len() >= 1,
        all_digits(dec_digits(n)),
        digits_val(dec_digits(n)) == n,
    decreases n,
{
    if n < 10 {
        lemma_digit_char(n as int);
        let s = seq![digit_char(n as int)];
        assert(s.drop_last() =~= Seq::<char>::empty());
        assert(s.last() == digit_char(n as int));
        assert(digits_val(Seq::<char>::empty()) == 0);
        assert(digits_val(s) == digit_val(digit_char(n as int)));
        assert forall|i: int| 0 <= i < s.len() implies is_digit(#[trigger] s[i]) by {
            assert(s[i] == digit_char(n as int));
        }
    } else {
        lemma_dec_digits(n / 10);
        lemma_digit_char((n % 10) as int);
        let p = dec_digits(n / 10);
        let s = p.push(digit_char((n % 10) as int));
        assert(s.drop_last() =~= p);
        assert(s.last() == digit_char((n % 10) as int));
        assert(digits_val(s) == digits_val(p) * 10 + digit_val(s.last()));
        assert(digits_val(s) == (n / 10) * 10 + (n % 10));
        assert((n / 10) * 10 + (n % 10) == n);
        assert forall|i: int| 0 <= i < s.len() implies is_digit(#[trigger] s[i]) by {
            if i < p.len() {
                assert(s[i] == p[i]);
            } else {
                assert(s[i] == digit_char((n % 10) as int));
            }
        }
    }
}

/// The `w`-padded digit string of `n < 10^w` is a digit string of
/// length `w` denoting `n`.
proof fn lemma_padded(n: nat, w: nat)
    requires
        n < p10(w),
    ensures
        padded(n, w).len() == w,
        all_digits(padded(n, w)),
        digits_val(padded(n, w)) == n,
    decreases w,
{
    if w == 0 {
    } else {
        assert(n / 10 < p10((w - 1) as nat)) by (nonlinear_arith)
            requires
                n < 10 * p10((w - 1) as nat),
                n >= 0,
        ;
        lemma_padded(n / 10, (w - 1) as nat);
        lemma_digit_char((n % 10) as int);
        let p = padded(n / 10, (w - 1) as nat);
        let s = p.push(digit_char((n % 10) as int));
        assert(s.drop_last() =~= p);
        assert(s.last() == digit_char((n % 10) as int));
        assert forall|i: int| 0 <= i < s.len() implies is_digit(#[trigger] s[i]) by {
            if i < p.len() {
                assert(s[i] == p[i]);
            } else {
                assert(s[i] == digit_char((n % 10) as int));
            }
        }
    }
}

/// Digit strings hold neither a dot nor a sign.
proof fn lemma_all_digits_plain(s: Seq<char>)
    requires
        all_digits(s),
    ensures
        no_dot(s),
        s.len() > 0 ==> s[0] != '+',
{
    assert forall|i: int| 0 <= i < s.len() implies (#[trigger] s[i]) != '.' by {
        assert(is_digit(s[i]));
    }
    if s.len() > 0 {
        assert(is_digit(s[0]));
    }
}

/// A trimmed string does not end in `'0'`.
proof fn lemma_strip0_last(s: Seq<char>)
    ensures
        strip0(s).len() > 0 ==> strip0(s).last() != '0',
    decreases s.len(),
{
    if s.len() > 0 && s.last() == '0' {
        lemma_strip0_last(s.drop_last());
    }
}

/// Renders `n`'s decimal digits onto the end of `out`.
fn push_digits(n: u64, out: &mut String)
    ensures
        final(out)@ == old(out)@ + dec_digits(n as nat),
    decreases n,
{
    if n >= 10 {
        push_digits(n / 10, out);
    }
    let ds = digit_str(n % 10);
    out.append(ds);
    proof {
        if n < 10 {
            assert(dec_digits(n as nat) =~= seq![digit_char((n % 10) as int)]);
            assert(old(out)@ + dec_digits(n as nat) =~= final(out)@);
        } else {
            assert(dec_digits(n as nat) =~= dec_digits((n / 10) as nat).push(
                digit_char((n % 10) as int),
            ));
            assert(old(out)@ + dec_digits(n as nat) =~= final(out)@);
        }
    }
}

/// Renders the low `w` decimal digits of `n`, zero-padded, onto the
/// end of `out`.
fn push_padded(n: u64, w: u64, out: &mut String)
    ensures
        final(out)@ == old(out)@ + padded(n as nat, w as nat),
    decreases w,
{
    if w > 0 {
        push_padded(n / 10, w - 1, out);
        let ds = digit_str(n % 10);
        out.append(ds);
        proof {
            assert(padded(n as nat, w as nat) =~= padded((n / 10) as nat, (w - 1) as nat).push(
                digit_char((n % 10) as int),
            ));
            assert(old(out)@ + padded(n as nat, w as nat) =~= final(out)@);
        }
    } else {
        proof {
            assert(old(out)@ + padded(n as nat, 0) =~= old(out)@);
        }
    }
}

/// The one-character string for a digit value.
fn digit_str(d: u64) -> (r: &'static str)
    requires
        d < 10,
    ensures
        r@ == seq![digit_char(d as int)],
{
    if d == 0 {
        proof {
            reveal_strlit("0");
            assert("0"@ =~= seq![digit_char(0)]);
        }
        "0"
    } else if d == 1 {
        proof {
            reveal_strlit("1");
            assert("1"@ =~= seq![digit_char(1)]);
        }
        "1"
    } else if d == 2 {
        proof {
            reveal_strlit("2");
            assert("2"@ =~= seq![digit_char(2)]);
        }
        "2"
    } else if d == 3 {
        proof {
            reveal_strlit("3");
            assert("3"@ =~= seq![digit_char(3)]);
        }
        "3"
    } else if d == 4 {
        proof {
            reveal_strlit("4");
            assert("4"@ =~= seq![digit_char(4)]);
        }
        "4"
    } else if d == 5 {
        proof {
            reveal_strlit("5");
            assert("5"@ =~= seq![digit_char(5)]);
        }
        "5"
    } else if d == 6 {
        proof {
            reveal_strlit("6");
            assert("6"@ =~= seq![digit_char(6)]);
        }
        "6"
    } else if d == 7 {
        proof {
            reveal_strlit("7");
            assert("7"@ =~= seq![digit_char(7)]);
        }
        "7"
    } else if d == 8 {
        proof {
            reveal_strlit("8");
            assert("8"@ =~= seq![digit_char(8)]);
        }
        "8"
    } else {
        proof {
            reveal_strlit("9");
            assert("9"@ =~= seq![digit_char(9)]);
        }
        "9"
    }
}

impl Amount {
    /// Renders the amount: whole units, then, unless zero, a dot and
    /// the fractional digits with trailing zeros removed.
    pub fn to_text(&self) -> (r: String)
        ensures
            r@ == format_units(self@),
    {
        let u = self.0;
        let ip = u / SCALE;
        let fp = u % SCALE;
        let mut out = String::new();
        push_digits(ip, &mut out);
        proof {
            assert(out@ =~= dec_digits((u / 10000) as nat));
        }
        if fp > 0 {
            out.append(".");
            proof {
                reveal_strlit(".");
                lemma_p10_4();
                assert(p10(0) == 1);
                assert(p10(1) == 10);
                assert((u % 10000) as nat * p10(0) == u % 10000);
            }
            let ghost prefix = out@;
            let mut f = fp;
            let mut w: usize = 4;
            while f % 10 == 0
                invariant
                    1 <= w <= 4,
                    0 < f,
                    f < p10(w as nat),
                    fp == u % 10000,
                    0 < fp < 10000,
                    fp as nat == f as nat * p10((4 - w) as nat),
                    strip0(padded(fp as nat, 4)) == strip0(padded(f as nat, w as nat)),
                decreases f,
            {
                proof {
                    assert(p10(0) == 1);
                    assert(p10(1) == 10);
                    if w == 1 {
                        assert(f < 10 && f % 10 == 0 && f > 0);
                        assert(false);
                    }
                    let fn_ = (f / 10) as nat;
                    assert(f as nat == 10 * fn_);
                    assert(fn_ < p10((w - 1) as nat)) by (nonlinear_arith)
                        requires
                            10 * fn_ < p10(w as nat),
                            p10(w as nat) == 10 * p10((w - 1) as nat),
                    ;
                    assert(fp as nat == fn_ * p10((4 - (w - 1)) as nat)) by (nonlinear_arith)
                        requires
                            fp as nat == (10 * fn_) * p10((4 - w) as nat),
                            p10((4 - (w - 1)) as nat) == 10 * p10((4 - w) as nat),
                    ;
                    let pw = padded(f as nat, w as nat);
                    assert(pw =~= padded(fn_, (w - 1) as nat).push(digit_char((f % 10) as int)));
                    assert(pw.last() == '0');
                    assert(pw.drop_last() =~= padded(fn_, (w - 1) as nat));
                    assert(strip0(pw) == strip0(padded(fn_, (w - 1) as nat)));
                }
                f = f / 10;
                w = w - 1;
            }
            proof {
                let pw = padded(f as nat, w as nat);
                lemma_digit_char((f % 10) as int);
                assert(pw =~= padded((f / 10) as nat, (w - 1) as nat).push(
                    digit_char((f % 10) as int),
                ));
                assert(pw.last() != '0');
                lemma_strip0_id(pw);
                assert(strip0(padded(fp as nat, 4)) == pw);
            }
            push_padded(f, w as u64, &mut out);
            proof {
                assert(out@ =~= dec_digits((u / 10000) as nat) + seq!['.'] + strip0(
                    padded((u % 10000) as nat, 4),
                ));
            }
        }
        out
    }
}

// ---------------------------------------------------------------------------
// The round-trip law.
// ---------------------------------------------------------------------------

/// Round-trip: parsing the text an amount formats to returns exactly
/// that amount, for every amount `a`. Together with the contracts of
/// [`Amount::to_text`] and [`Amount::from_text`] this says
/// `from_text(a.to_text())` is `Ok(a)` for every `a`.
pub proof fn lemma_amount_round_trip(a: Amount)
    ensures
        parse_units(format_units(a@)) matches Ok(v) && v == a@,
{
    lemma_parse_format_round_trip(a.0);
}

/// Round-trip over the raw minor-unit count.
pub proof fn lemma_parse_format_round_trip(u: u64)
    ensures
        parse_units(format_units(u as nat)) == Ok::<u64, ParseAmountError>(u),
{
    let ipn = (u / 10000) as nat;
    let fpn = (u % 10000) as nat;
    let dd = dec_digits(ipn);
    lemma_dec_digits(ipn);
    lemma_all_digits_plain(dd);
    if fpn == 0 {
        let s = format_units(u as nat);
        assert(s == dd);
        assert(uint_ok(s));
        assert(uint_val(s) == ipn);
        assert(ipn * 10000 + fpn == u);
    } else {
        lemma_p10_4();
        lemma_padded(fpn, 4);
        let pd = padded(fpn, 4);
        let ft = strip0(pd);
        lemma_strip0_digits(pd);
        lemma_strip0_val(pd);
        lemma_strip0_last(pd);
        lemma_all_digits_plain(ft);
        let s = dd + seq!['.'] + ft;
        assert(format_units(u as nat) == s);
        let k = dd.len() as int;
        assert(s[k] == '.');
        assert forall|i: int| 0 <= i < k implies (#[trigger] s[i]) != '.' by {
            assert(s[i] == dd[i]);
        }
        lemma_first_dot_at(s, k);
        assert(!no_dot(s));
        let ip = s.take(k);
        let fp = s.skip(k + 1);
        assert(ip =~= dd);
        assert(fp =~= ft);
        assert(no_dot(fp));
        assert(uint_ok(ip));
        assert(uint_val(ip) == ipn);
        lemma_strip0_id(ft);
        assert(strip0(fp) == ft);
        assert(ft.len() <= 4);
        assert(frac_units(ft) == fpn);
        assert(ipn * 10000 + frac_units(ft) == u);
    }
}

} // verus!
