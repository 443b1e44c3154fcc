//! Numeric tokens: unsigned integers and reals held to six fractional digits,
//! how they are read from text and how they are written back.

use vstd::prelude::*;
use crate::text::push_char;

verus! {

/// A real number held exactly to six fractional digits, as a count of
/// millionths.
#[derive(Clone, Copy, Debug, PartialEq, Eq, Structural)]
pub struct Real {
    pub micros: i64,
}

/// The largest whole part a `Real` can hold.
pub const MAX_WHOLE: u64 = 9223372036854;

pub open spec fn is_digit(c: char) -> bool {
    '0' <= c <= '9'
}

pub open spec fn all_digits(s: Seq<char>) -> bool {
    forall|i: int| 0 <= i < s.len() ==> is_digit(#[trigger] s[i])
}

pub open spec fn digit_value(c: char) -> int {
    (c as u32) as int - 48
}

/// The value of a string of decimal digits, most significant first.
pub open spec fn digits_value(s: Seq<char>) -> int
    decreases s.len(),
{
    if s.len() == 0 {
        0
    } else {
        digits_value(s.drop_last()) * 10 + digit_value(s.last())
    }
}

/// An unsigned integer token: an optional `+`, then one or more digits.
pub open spec fn unsigned_digits(tok: Seq<char>) -> Seq<char> {
    if tok.len() > 0 && tok[0] == '+' {
        tok.drop_first()
    } else {
        tok
    }
}

pub open spec fn usize_of(tok: Seq<char>) -> Option<usize> {
    let d = unsigned_digits(tok);
    if d.len() > 0 && all_digits(d) && digits_value(d) <= usize::MAX {
        Some(digits_value(d) as usize)
    } else {
        None
    }
}

pub open spec fn is_negative(tok: Seq<char>) -> bool {
    tok.len() > 0 && tok[0] == '-'
}

/// A real token without its sign.
pub open spec fn unsigned_part(tok: Seq<char>) -> Seq<char> {
    if tok.len() > 0 && (tok[0] == '-' || tok[0] == '+') {
        tok.drop_first()
    } else {
        tok
    }
}

/// Index of the first `.`, or the length when there is none.
pub open spec fn find_dot(s: Seq<char>) -> int
    decreases s.len(),
{
    if s.len() == 0 {
        0
    } else if s[0] == '.' {
        0
    } else {
        1 + find_dot(s.drop_first())
    }
}

pub open spec fn whole_digits(b: Seq<char>) -> Seq<char> {
    b.take(find_dot(b))
}

pub open spec fn frac_digits(b: Seq<char>) -> Seq<char> {
    if find_dot(b) < b.len() {
        b.skip(find_dot(b) + 1)
    } else {
        seq![]
    }
}

/// The first six fractional digits, padded with zeros.
pub open spec fn six_places(f: Seq<char>) -> Seq<char> {
    Seq::new(6, |i: int| if i < f.len() { f[i] } else { '0' })
}

/// Rounding to the nearest millionth, halves away from zero.
pub open spec fn round_up(f: Seq<char>) -> int {
    if f.len() > 6 && f[6] >= '5' {
        1
    } else {
        0
    }
}

/// The number of millionths that an unsigned real token stands for.
pub open spec fn magnitude(b: Seq<char>) -> int {
    digits_value(whole_digits(b)) * 1000000 + digits_value(six_places(frac_digits(b))) + round_up(
        frac_digits(b),
    )
}

/// A real token: an optional sign, digits with at most one `.` among them and
/// at least one digit; it stands for its value rounded to six fractional
/// digits, which must fit.
pub open spec fn real_of(tok: Seq<char>) -> Option<Real> {
    let b = unsigned_part(tok);
    if all_digits(whole_digits(b)) && all_digits(frac_digits(b)) && (whole_digits(b).len() > 0
        || frac_digits(b).len() > 0) && magnitude(b) <= i64::MAX {
        Some(
            Real {
                micros: (if is_negative(tok) {
                    -magnitude(b)
                } else {
                    magnitude(b)
                }) as i64,
            },
        )
    } else {
        None
    }
}

pub proof fn lemma_find_dot(s: Seq<char>)
    ensures
        0 <= find_dot(s) <= s.len(),
        forall|j: int| 0 <= j < find_dot(s) ==> s[j] != '.',
        find_dot(s) < s.len() ==> s[find_dot(s)] == '.',
    decreases s.len(),
{
    if s.len() > 0 && s[0] != '.' {
        lemma_find_dot(s.drop_first());
        assert forall|j: int| 0 <= j < find_dot(s) implies s[j] != '.' by {
            if j > 0 {
                assert(s[j] == s.drop_first()[j - 1]);
            }
        }
    }
}

/// A dot-free prefix that ends at a dot or at the end locates the first dot.
pub proof fn lemma_find_dot_at(s: Seq<char>, k: int)
    requires
        0 <= k <= s.len(),
        forall|j: int| 0 <= j < k ==> s[j] != '.',
        k == s.len() || s[k] == '.',
    ensures
        find_dot(s) == k,
{
    lemma_find_dot(s);
    if find_dot(s) < k {
        assert(s[find_dot(s)] == '.');
    }
}

pub proof fn lemma_digits_prefix(s: Seq<char>, k: int)
    requires
        0 <= k <= s.len(),
        all_digits(s),
    ensures
        0 <= digits_value(s.take(k)) <= digits_value(s),
    decreases s.len(),
{
    if s.len() > 0 {
        assert(s.drop_last().take(s.len() - 1) =~= s.drop_last());
        if k < s.len() {
            assert(s.drop_last().take(k) =~= s.take(k));
            lemma_digits_prefix(s.drop_last(), k);
        } else {
            assert(s.take(k) =~= s);
            lemma_digits_prefix(s.drop_last(), k - 1);
        }
    } else {
        assert(s.take(k) =~= s);
    }
}

/// One step of reading digits left to right.
pub proof fn lemma_digits_step(s: Seq<char>, k: int)
    requires
        0 <= k < s.len(),
    ensures
        digits_value(s.take(k + 1)) == digits_value(s.take(k)) * 10 + digit_value(s[k]),
{
    assert(s.take(k + 1).drop_last() =~= s.take(k));
}

pub fn is_digit_char(c: char) -> (r: bool)
    ensures
        r == is_digit(c),
{
    '0' <= c && c <= '9'
}

pub fn digit_of(c: char) -> (r: u64)
    requires
        is_digit(c),
    ensures
        r == digit_value(c),
        r <= 9,
{
    (c as u32 - 48) as u64
}

/// Reads `line[start..end]` as an unsigned integer.
pub fn parse_usize(line: &Vec<char>, start: usize, end: usize) -> (r: Option<usize>)
    requires
        start <= end <= line.len(),
    ensures
        r == usize_of(line@.subrange(start as int, end as int)),
{
    let ghost tok = line@.subrange(start as int, end as int);
    let mut i = start;
    if i < end && line[i] == '+' {
        i += 1;
    }
    let ghost d = unsigned_digits(tok);
    assert(d =~= line@.subrange(i as int, end as int));
    if i == end {
        return None;
    }
    let ds = i;
    let mut acc: usize = 0;
    assert(d.take(0) =~= Seq::<char>::empty());
    while i < end
        invariant
            start <= ds <= i <= end <= line.len(),
            tok == line@.subrange(start as int, end as int),
            d == unsigned_digits(tok),
            d.len() > 0,
            d == line@.subrange(ds as int, end as int),
            all_digits(d.take(i - ds)),
            acc == digits_value(d.take(i - ds)),
        decreases end - i,
    {
        let c = line[i];
        assert(d[i - ds] == c);
        if !is_digit_char(c) {
            return None;
        }
        let v = digit_of(c);
        proof {
            lemma_digits_step(d, i - ds);
        }
        if acc > (usize::MAX - v as usize) / 10 {
            proof {
                let m = usize::MAX as int;
                let a = acc as int;
                let w = v as int;
                assert(a * 10 + w > m) by (nonlinear_arith)
                    requires
                        a > (m - w) / 10,
                        0 <= w <= 9,
                        m > 10,
                ;
                assert(all_digits(d.take(i - ds + 1))) by {
                    assert forall|j: int| 0 <= j < i - ds + 1 implies is_digit(
                        #[trigger] d.take(i - ds + 1)[j],
                    ) by {
                        if j < i - ds {
                            assert(d.take(i - ds + 1)[j] == d.take(i - ds)[j]);
                        }
                    }
                }
                if all_digits(d) {
                    lemma_digits_prefix(d, i - ds + 1);
                }
            }
            return None;
        }
        acc = acc * 10 + v as usize;
        assert forall|j: int| 0 <= j < i - ds + 1 implies is_digit(
            #[trigger] d.take(i - ds + 1)[j],
        ) by {
            if j < i - ds {
                assert(d.take(i - ds + 1)[j] == d.take(i - ds)[j]);
            }
        }
        i += 1;
    }
    assert(d.take(i - ds) =~= d);
    Some(acc)
}

pub open spec fn pow10(n: nat) -> nat
    decreases n,
{
    if n == 0 {
        1
    } else {
        10 * pow10((n - 1) as nat)
    }
}

proof fn lemma_pow10_small(p: nat)
    requires
        p <= 6,
    ensures
        pow10(p) <= 1000000,
        p == 6 ==> pow10(p) == 1000000,
{
    reveal_with_fuel(pow10, 7);
    if p == 0 {
    } else if p == 1 {
    } else if p == 2 {
    } else if p == 3 {
    } else if p == 4 {
    } else if p == 5 {
    }
}

proof fn lemma_take_digits_grow(s: Seq<char>, k: int)
    requires
        0 <= k < s.len(),
        all_digits(s.take(k)),
        is_digit(s[k]),
    ensures
        all_digits(s.take(k + 1)),
{
    assert forall|j: int| 0 <= j < k + 1 implies is_digit(#[trigger] s.take(k + 1)[j]) by {
        if j < k {
            assert(s.take(k + 1)[j] == s.take(k)[j]);
        }
    }
}

/// Reads `line[start..end]` as a real.
pub fn parse_real(line: &Vec<char>, start: usize, end: usize) -> (r: Option<Real>)
    requires
        start <= end <= line.len(),
    ensures
        r == real_of(line@.subrange(start as int, end as int)),
{
    let ghost tok = line@.subrange(start as int, end as int);
    let mut i = start;
    let mut neg = false;
    if i < end && (line[i] == '-' || line[i] == '+') {
        neg = line[i] == '-';
        i += 1;
    }
    let bs = i;
    let ghost b = unsigned_part(tok);
    assert(b =~= line@.subrange(bs as int, end as int));
    assert(neg == is_negative(tok));
    let mut whole: u64 = 0;
    assert(b.take(0) =~= Seq::<char>::empty());
    while i < end && is_digit_char(line[i])
        invariant
            start <= bs <= i <= end <= line.len(),
            tok == line@.subrange(start as int, end as int),
            b == unsigned_part(tok),
            b == line@.subrange(bs as int, end as int),
            all_digits(b.take(i - bs)),
            whole == digits_value(b.take(i - bs)),
            whole <= MAX_WHOLE,
        decreases end - i,
    {
        let v = digit_of(line[i]);
        assert(b[i - bs] == line@[i as int]);
        proof {
            lemma_digits_step(b, i - bs);
            lemma_take_digits_grow(b, i - bs);
        }
        if whole > (MAX_WHOLE - v) / 10 {
            proof {
                let k = i - bs;
                let a = whole as int;
                let w = v as int;
                assert(a * 10 + w > MAX_WHOLE) by (nonlinear_arith)
                    requires
                        a > (MAX_WHOLE - w) / 10,
                        0 <= w <= 9,
                ;
                lemma_find_dot(b);
                if find_dot(b) <= k {
                    assert(b.take(k + 1)[find_dot(b)] == b[find_dot(b)]);
                }
                let wd = whole_digits(b);
                if all_digits(wd) {
                    assert(wd.take(k + 1) =~= b.take(k + 1));
                    lemma_digits_prefix(wd, k + 1);
                    if all_digits(frac_digits(b)) {
                        let sp = six_places(frac_digits(b));
                        assert(all_digits(sp));
                        lemma_digits_prefix(sp, 0);
                        assert(sp.take(0) =~= Seq::<char>::empty());
                    }
                }
            }
            return None;
        }
        whole = whole * 10 + v;
        i += 1;
    }
    let k = i - bs;
    proof {
        lemma_find_dot(b);
    }
    proof {
        assert forall|j: int| 0 <= j < k implies b[j] != '.' by {
            assert(b.take(k as int)[j] == b[j]);
        }
    }
    if i < end && line[i] != '.' {
        proof {
            assert(b[k as int] == line@[i as int]);
            if find_dot(b) <= k {
                if find_dot(b) < k {
                    assert(b.take(k as int)[find_dot(b)] == b[find_dot(b)]);
                }
            }
            assert(whole_digits(b)[k as int] == b[k as int]);
        }
        return None;
    }
    proof {
        if i < end {
            assert(b[k as int] == line@[i as int]);
        }
        lemma_find_dot_at(b, k as int);
    }
    let fs: usize = if i < end {
        i + 1
    } else {
        end
    };
    assert(frac_digits(b) =~= line@.subrange(fs as int, end as int));
    assert(whole_digits(b) =~= b.take(k as int));
    let ghost f = frac_digits(b);
    let mut j = fs;
    while j < end
        invariant
            fs <= j <= end <= line.len(),
            tok == line@.subrange(start as int, end as int),
            b == unsigned_part(tok),
            f == frac_digits(b),
            f == line@.subrange(fs as int, end as int),
            all_digits(f.take(j - fs)),
        decreases end - j,
    {
        assert(f[j - fs] == line@[j as int]);
        if !is_digit_char(line[j]) {
            assert(!is_digit(f[j - fs]));
            return None;
        }
        proof {
            lemma_take_digits_grow(f, j - fs);
        }
        j += 1;
    }
    assert(f.take(j - fs) =~= f);
    if k == 0 && fs == end {
        return None;
    }
    let ghost sp = six_places(f);
    let mut fval: u64 = 0;
    let mut p: usize = 0;
    assert(sp.take(0) =~= Seq::<char>::empty());
    while p < 6
        invariant
            p <= 6,
            fs <= end <= line.len(),
            f == line@.subrange(fs as int, end as int),
            all_digits(f),
            sp == six_places(f),
            fval == digits_value(sp.take(p as int)),
            fval < pow10(p as nat),
        decreases 6 - p,
    {
        let c = if p < end - fs {
            line[fs + p]
        } else {
            '0'
        };
        assert(sp[p as int] == c);
        let v = digit_of(c);
        proof {
            lemma_digits_step(sp, p as int);
        }
        proof {
            lemma_pow10_small(p as nat);
            lemma_pow10_small((p + 1) as nat);
        }
        fval = fval * 10 + v;
        p += 1;
    }
    assert(sp.take(6) =~= sp);
    proof {
        lemma_pow10_small(6);
    }
    let up: u64 = if end - fs > 6 && line[fs + 6] >= '5' {
        1
    } else {
        0
    };
    let mag: u64 = whole * 1000000 + fval + up;
    if mag > i64::MAX as u64 {
        return None;
    }
    let m = mag as i64;
    Some(Real { micros: if neg { -m } else { m } })
}

pub open spec fn digit_char(d: int) -> char {
    if d <= 0 {
        '0'
    } else if d == 1 {
        '1'
    } else if d == 2 {
        '2'
    } else if d == 3 {
        '3'
    } else if d == 4 {
        '4'
    } else if d == 5 {
        '5'
    } else if d == 6 {
        '6'
    } else if d == 7 {
        '7'
    } else if d == 8 {
        '8'
    } else {
        '9'
    }
}

/// The decimal digits of `n`, without leading zeros.
pub open spec fn decimal(n: nat) -> Seq<char>
    decreases n,
{
    if n < 10 {
        seq![digit_char(n as int)]
    } else {
        decimal(n / 10).push(digit_char((n % 10) as int))
    }
}

/// The last `w` decimal digits of `n`, with leading zeros.
pub open spec fn padded(n: nat, w: nat) -> Seq<char>
    decreases w,
{
    if w == 0 {
        seq![]
    } else {
        padded(n / 10, (w - 1) as nat).push(digit_char((n % 10) as int))
    }
}

pub open spec fn abs_micros(r: Real) -> nat {
    if r.micros < 0 {
        (-r.micros) as nat
    } else {
        r.micros as nat
    }
}

/// A real written with six fractional digits: `-` when negative, the whole
/// part, `.`, then exactly six digits.
pub open spec fn real_text(r: Real) -> Seq<char> {
    (if r.micros < 0 {
        seq!['-']
    } else {
        seq![]
    }) + decimal(abs_micros(r) / 1000000) + seq!['.'] + padded(abs_micros(r), 6)
}

pub fn digit_to_char(d: u64) -> (c: char)
    requires
        d <= 9,
    ensures
        c == digit_char(d as int),
{
    if d == 0 {
        '0'
    } else if d == 1 {
        '1'
    } else if d == 2 {
        '2'
    } else if d == 3 {
        '3'
    } else if d == 4 {
        '4'
    } else if d == 5 {
        '5'
    } else if d == 6 {
        '6'
    } else if d == 7 {
        '7'
    } else if d == 8 {
        '8'
    } else {
        '9'
    }
}

/// Appends the decimal digits of `n`.
pub fn push_decimal(s: &mut String, n: u64)
    ensures
        final(s)@ == old(s)@ + decimal(n as nat),
    decreases n,
{
    if n < 10 {
        push_char(s, digit_to_char(n));
    } else {
        push_decimal(s, n / 10);
        push_char(s, digit_to_char(n % 10));
    }
}

/// Appends the last `w` digits of `n`, with leading zeros.
pub fn push_padded(s: &mut String, n: u64, w: u64)
    ensures
        final(s)@ == old(s)@ + padded(n as nat, w as nat),
    decreases w,
{
    if w > 0 {
        push_padded(s, n / 10, w - 1);
        push_char(s, digit_to_char(n % 10));
    }
}

/// Appends a real with six fractional digits.
pub fn push_real(s: &mut String, r: Real)
    ensures
        final(s)@ == old(s)@ + real_text(r),
{
    let ghost s0 = s@;
    let m: u64 = if r.micros < 0 {
        (0i128 - r.micros as i128) as u64
    } else {
        r.micros as u64
    };
    if r.micros < 0 {
        push_char(s, '-');
    }
    push_decimal(s, m / 1000000);
    push_char(s, '.');
    push_padded(s, m, 6);
    assert(s@ =~= s0 + real_text(r));
}

pub proof fn lemma_digit_char(d: int)
    requires
        0 <= d <= 9,
    ensures
        is_digit(digit_char(d)),
        digit_value(digit_char(d)) == d,
{
}

pub proof fn lemma_decimal(n: nat)
    ensures
        decimal(n).len() > 0,
        all_digits(decimal(n)),
        digits_value(decimal(n)) == n,
        decimal(n)[0] != '+',
        decimal(n)[0] != '-',
    decreases n,
{
    if n >= 10 {
        lemma_decimal(n / 10);
        let d = decimal(n);
        assert(d.drop_last() =~= decimal(n / 10));
        assert(d.last() == digit_char((n % 10) as int));
        lemma_digit_char((n % 10) as int);
        assert(digits_value(d) == digits_value(decimal(n / 10)) * 10 + digit_value(d.last()));
        vstd::arithmetic::div_mod::lemma_fundamental_div_mod(n as int, 10);
        assert(digits_value(d) == n);
        assert forall|i: int| 0 <= i < d.len() implies is_digit(#[trigger] d[i]) by {
            if i < d.len() - 1 {
                assert(d[i] == decimal(n / 10)[i]);
            }
        }
    } else {
        assert(decimal(n).drop_last() =~= Seq::<char>::empty());
        lemma_digit_char(n as int);
        assert(digits_value(Seq::<char>::empty()) == 0);
    }
}

pub proof fn lemma_padded(n: nat, w: nat)
    ensures
        padded(n, w).len() == w,
        all_digits(padded(n, w)),
        digits_value(padded(n, w)) == n % pow10(w),
    decreases w,
{
    if w > 0 {
        lemma_padded(n / 10, (w - 1) as nat);
        let d = padded(n, w);
        assert(d.drop_last() =~= padded(n / 10, (w - 1) as nat));
        lemma_digit_char((n % 10) as int);
        assert forall|i: int| 0 <= i < d.len() implies is_digit(#[trigger] d[i]) by {
            if i < d.len() - 1 {
                assert(d[i] == padded(n / 10, (w - 1) as nat)[i]);
            }
        }
        let p = pow10((w - 1) as nat);
        assert(p > 0) by {
            lemma_pow10_pos((w - 1) as nat);
        }
        vstd::arithmetic::div_mod::lemma_mod_breakdown(n as int, 10, p as int);
    }
}

proof fn lemma_pow10_pos(n: nat)
    ensures
        pow10(n) > 0,
    decreases n,
{
    if n > 0 {
        lemma_pow10_pos((n - 1) as nat);
    }
}

/// A number type that a line of whitespace-separated tokens can hold.
pub trait LineValue: Sized {
    /// The value a token stands for, if it is one.
    spec fn from_token(tok: Seq<char>) -> Option<Self>;

    /// Reads `line[start..end]` as a token of this type.
    fn parse_token(line: &Vec<char>, start: usize, end: usize) -> (r: Option<Self>)
        requires
            start <= end <= line.len(),
        ensures
            r == Self::from_token(line@.subrange(start as int, end as int)),
    ;
}

impl LineValue for usize {
    open spec fn from_token(tok: Seq<char>) -> Option<usize> {
        usize_of(tok)
    }

    fn parse_token(line: &Vec<char>, start: usize, end: usize) -> (r: Option<usize>) {
        parse_usize(line, start, end)
    }
}

impl LineValue for Real {
    open spec fn from_token(tok: Seq<char>) -> Option<Real> {
        real_of(tok)
    }

    fn parse_token(line: &Vec<char>, start: usize, end: usize) -> (r: Option<Real>) {
        parse_real(line, start, end)
    }
}

pub proof fn lemma_decimal_no_dot(n: nat)
    ensures
        forall|j: int| 0 <= j < decimal(n).len() ==> #[trigger] decimal(n)[j] != '.',
{
    lemma_decimal(n);
    assert forall|j: int| 0 <= j < decimal(n).len() implies #[trigger] decimal(n)[j] != '.' by {
        assert(is_digit(decimal(n)[j]));
    }
}

/// An unsigned integer written in decimal reads back as itself.
pub proof fn lemma_usize_text(n: usize)
    ensures
        usize_of(decimal(n as nat)) == Some(n),
{
    lemma_decimal(n as nat);
}

/// A whole number written in decimal reads back as that many units.
pub proof fn lemma_whole_real_text(n: nat)
    requires
        n <= MAX_WHOLE,
    ensures
        real_of(decimal(n)) == Some(Real { micros: (n * 1000000) as i64 }),
{
    let t = decimal(n);
    lemma_decimal(n);
    lemma_decimal_no_dot(n);
    assert(unsigned_part(t) == t);
    lemma_find_dot_at(t, t.len() as int);
    assert(whole_digits(t) =~= t);
    assert(frac_digits(t) =~= Seq::<char>::empty());
    let sp = six_places(frac_digits(t));
    assert(sp =~= seq!['0', '0', '0', '0', '0', '0']);
    assert(all_digits(sp));
    reveal_with_fuel(digits_value, 7);
    assert(sp.drop_last() =~= seq!['0', '0', '0', '0', '0']);
    assert(sp.drop_last().drop_last() =~= seq!['0', '0', '0', '0']);
    assert(sp.drop_last().drop_last().drop_last() =~= seq!['0', '0', '0']);
    assert(sp.drop_last().drop_last().drop_last().drop_last() =~= seq!['0', '0']);
    assert(sp.drop_last().drop_last().drop_last().drop_last().drop_last() =~= seq!['0']);
    assert(seq!['0'].drop_last() =~= Seq::<char>::empty());
    assert(digits_value(sp) == 0);
    assert(!is_negative(t));
}

/// A real written with six fractional digits reads back as itself.
pub proof fn lemma_real_text(r: Real)
    requires
        r.micros != i64::MIN,
    ensures
        real_of(real_text(r)) == Some(r),
{
    let m = abs_micros(r);
    let q = m / 1000000;
    let d = decimal(q);
    let p = padded(m, 6);
    lemma_decimal(q);
    lemma_decimal_no_dot(q);
    lemma_padded(m, 6);
    lemma_pow10_small(6);
    let b = d + seq!['.'] + p;
    let t = real_text(r);
    if r.micros < 0 {
        assert(t =~= seq!['-'] + b);
        assert(unsigned_part(t) =~= b);
    } else {
        assert(t =~= b);
        assert(b[0] == d[0]);
        assert(unsigned_part(t) =~= b);
    }
    assert forall|j: int| 0 <= j < d.len() implies b[j] != '.' by {
        assert(b[j] == d[j]);
    }
    lemma_find_dot_at(b, d.len() as int);
    assert(whole_digits(b) =~= d);
    assert(frac_digits(b) =~= p);
    assert(six_places(p) =~= p);
    assert(round_up(p) == 0);
    vstd::arithmetic::div_mod::lemma_fundamental_div_mod(m as int, 1000000);
    assert(magnitude(b) == m);
}

/// A real read from a token is never the one value whose sign cannot flip.
pub proof fn lemma_real_of_ok(tok: Seq<char>)
    ensures
        real_of(tok) matches Some(r) ==> r.micros != i64::MIN,
{
    let b = unsigned_part(tok);
    if real_of(tok) is Some {
        let w = whole_digits(b);
        let sp = six_places(frac_digits(b));
        assert(all_digits(sp));
        lemma_digits_prefix(w, 0);
        lemma_digits_prefix(sp, 0);
        assert(w.take(0) =~= Seq::<char>::empty());
        assert(sp.take(0) =~= Seq::<char>::empty());
        assert(magnitude(b) >= 0);
    }
}

} // verus!
