//! Magnitudes of quantities: signed decimals held as a whole number of
//! millionths, read from and written as decimal text.
//!
//! Text is read as an optional sign, digits, an optional point and more
//! digits, with at least one digit in all; fraction digits past the sixth are
//! dropped. Text is written in the shortest form that reads back to the same
//! value: no plus sign, no trailing zeros after the point, and no point when
//! the fraction is zero.
use vstd::prelude::*;
use crate::text::push_all;

verus! {

/// The number of millionths in one unit of a magnitude.
pub const MICRO: u64 = 1000000;

pub open spec fn is_digit(c: char) -> bool {
    '0' <= c && c <= '9'
}

pub open spec fn digit_value(c: char) -> int {
    (c as int) - ('0' as int)
}

pub open spec fn digit_char(d: int) -> char {
    if d == 0 { '0' }
    else if d == 1 { '1' }
    else if d == 2 { '2' }
    else if d == 3 { '3' }
    else if d == 4 { '4' }
    else if d == 5 { '5' }
    else if d == 6 { '6' }
    else if d == 7 { '7' }
    else if d == 8 { '8' }
    else { '9' }
}

/// A character that may stand in the numeric front of a value.
pub open spec fn is_numeric_char(c: char) -> bool {
    is_digit(c) || c == '+' || c == '-' || c == '.'
}

pub open spec fn all_digits(s: Seq<char>) -> bool {
    forall|i: int| 0 <= i < s.len() ==> is_digit(#[trigger] s[i])
}

pub open spec fn has_digit(s: Seq<char>) -> bool {
    exists|i: int| 0 <= i < s.len() && is_digit(#[trigger] s[i])
}

/// The length of the longest prefix of `s` whose characters all satisfy `p`.
pub open spec fn run_len(s: Seq<char>, p: spec_fn(char) -> bool) -> nat
    decreases s.len(),
{
    if s.len() > 0 && p(s[0]) {
        1 + run_len(s.drop_first(), p)
    } else {
        0
    }
}

/// The value of a sequence of decimal digits.
pub open spec fn digits_value(s: Seq<char>) -> int
    decreases s.len(),
{
    if s.len() == 0 {
        0
    } else {
        digits_value(s.drop_last()) * 10 + digit_value(s.last())
    }
}

pub open spec fn pow10(n: nat) -> int
    decreases n,
{
    if n == 0 { 1 } else { 10 * pow10((n - 1) as nat) }
}

/// The shortest decimal digits of `n`.
pub open spec fn digits_of(n: nat) -> Seq<char>
    decreases n,
{
    if n < 10 {
        seq![digit_char(n as int)]
    } else {
        digits_of(n / 10).push(digit_char((n % 10) as int))
    }
}

/// The last `w` decimal digits of `n`, with leading zeros.
pub open spec fn padded(n: nat, w: nat) -> Seq<char>
    decreases w,
{
    if w == 0 {
        Seq::empty()
    } else {
        padded(n / 10, (w - 1) as nat).push(digit_char((n % 10) as int))
    }
}

/// `s` without its trailing zeros.
pub open spec fn strip_zeros(s: Seq<char>) -> Seq<char>
    decreases s.len(),
{
    if s.len() > 0 && s.last() == '0' {
        strip_zeros(s.drop_last())
    } else {
        s
    }
}

/// The millionths that fraction digits `f` stand for; digits past the sixth do not count.
pub open spec fn frac_micro(f: Seq<char>) -> int {
    if f.len() >= 6 {
        digits_value(f.take(6))
    } else {
        digits_value(f) * pow10((6 - f.len()) as nat)
    }
}

pub open spec fn sign_len(p: Seq<char>) -> int {
    if p.len() > 0 && (p[0] == '+' || p[0] == '-') { 1 } else { 0 }
}

/// Splits decimal text into its sign (true when negative), whole digits and
/// fraction digits; `None` when it is not decimal text.
pub open spec fn decimal_parts(p: Seq<char>) -> Option<(bool, Seq<char>, Seq<char>)> {
    let neg = p.len() > 0 && p[0] == '-';
    let b = p.skip(sign_len(p));
    let k = run_len(b, |c: char| is_digit(c)) as int;
    if k == b.len() {
        if k >= 1 { Some((neg, b, Seq::empty())) } else { None }
    } else if b[k] == '.' && all_digits(b.skip(k + 1)) && b.len() >= 2 {
        Some((neg, b.take(k), b.skip(k + 1)))
    } else {
        None
    }
}

/// The magnitude, in millionths, that decimal text `p` stands for, where it
/// is decimal text whose value fits in an `i64`.
pub open spec fn parse_magnitude(p: Seq<char>) -> Option<int> {
    match decimal_parts(p) {
        Some((neg, w, f)) => {
            let u = digits_value(w) * MICRO + frac_micro(f);
            let m = if neg { -u } else { u };
            if i64::MIN <= m <= i64::MAX { Some(m) } else { None }
        },
        None => None,
    }
}

pub open spec fn abs(m: int) -> nat {
    if m < 0 { (-m) as nat } else { m as nat }
}

/// The text of magnitude `m` (in millionths).
pub open spec fn magnitude_text(m: int) -> Seq<char> {
    let a = abs(m);
    let whole = a / (MICRO as nat);
    let frac = a % (MICRO as nat);
    (if m < 0 { seq!['-'] } else { Seq::empty() }) + digits_of(whole) + (if frac == 0 {
        Seq::empty()
    } else {
        seq!['.'] + strip_zeros(padded(frac, 6))
    })
}

pub proof fn lemma_run_len(s: Seq<char>, p: spec_fn(char) -> bool, k: int)
    requires
        0 <= k <= s.len(),
        forall|i: int| 0 <= i < k ==> p(#[trigger] s[i]),
        k == s.len() || !p(s[k]),
    ensures
        run_len(s, p) == k,
    decreases k,
{
    if k > 0 {
        assert forall|i: int| 0 <= i < k - 1 implies p(#[trigger] s.drop_first()[i]) by {
            assert(s.drop_first()[i] == s[i + 1]);
        }
        lemma_run_len(s.drop_first(), p, k - 1);
    }
}

pub proof fn lemma_digits_value_push(s: Seq<char>, c: char)
    ensures
        digits_value(s.push(c)) == digits_value(s) * 10 + digit_value(c),
{
    assert(s.push(c).drop_last() =~= s);
}

pub proof fn lemma_digits_of(n: nat)
    ensures
        digits_of(n).len() >= 1,
        all_digits(digits_of(n)),
        digits_value(digits_of(n)) == n,
    decreases n,
{
    if n < 10 {
        assert(digits_value(digits_of(n)) == digits_value(seq![digit_char(n as int)].drop_last()) * 10
            + digit_value(digit_char(n as int)));
        assert(seq![digit_char(n as int)].drop_last() =~= Seq::<char>::empty());
    } else {
        lemma_digits_of(n / 10);
        lemma_digits_value_push(digits_of(n / 10), digit_char((n % 10) as int));
    }
}

pub proof fn lemma_padded(n: nat, w: nat)
    ensures
        padded(n, w).len() == w,
        all_digits(padded(n, w)),
        digits_value(padded(n, w)) == n % (pow10(w) as nat),
    decreases w,
{
    if w == 0 {
    } else {
        lemma_padded(n / 10, (w - 1) as nat);
        lemma_digits_value_push(padded(n / 10, (w - 1) as nat), digit_char((n % 10) as int));
        let q = pow10((w - 1) as nat);
        assert(q >= 1) by { lemma_pow10_pos((w - 1) as nat); }
        let x = (n / 10) as int;
        let r = (x % q) * 10 + (n % 10) as int;
        assert(0 <= x % q < q);
        assert(0 <= r < 10 * q) by (nonlinear_arith)
            requires r == (x % q) * 10 + (n % 10) as int, 0 <= x % q < q, 0 <= ((n % 10) as int) < 10;
        assert(x == q * (x / q) + x % q) by (nonlinear_arith)
            requires q >= 1;
        assert(n == (x / q) * (10 * q) + r) by (nonlinear_arith)
            requires n == 10 * x + (n % 10) as int, x == q * (x / q) + x % q, r == (x % q) * 10 + (n % 10) as int;
        vstd::arithmetic::div_mod::lemma_fundamental_div_mod_converse(n as int, 10 * q, x / q, r);
    }
}

pub proof fn lemma_pow10_six()
    ensures
        pow10(6) == MICRO,
{
    reveal_with_fuel(pow10, 7);
}

pub proof fn lemma_pow10_pos(n: nat)
    ensures
        pow10(n) >= 1,
    decreases n,
{
    if n > 0 {
        lemma_pow10_pos((n - 1) as nat);
    }
}

pub proof fn lemma_strip_zeros(s: Seq<char>)
    requires
        all_digits(s),
    ensures
        strip_zeros(s).len() <= s.len(),
        strip_zeros(s) =~= s.take(strip_zeros(s).len() as int),
        digits_value(s) == digits_value(strip_zeros(s)) * pow10((s.len() - strip_zeros(s).len()) as nat),
        strip_zeros(s).len() == 0 || strip_zeros(s).last() != '0',
    decreases s.len(),
{
    if s.len() > 0 && s.last() == '0' {
        let t = s.drop_last();
        lemma_strip_zeros(t);
        assert(s =~= t.push('0'));
        lemma_digits_value_push(t, '0');
        let k = (t.len() - strip_zeros(t).len()) as nat;
        assert(((s.len() - strip_zeros(s).len()) as nat) == k + 1);
        assert(digits_value(strip_zeros(t)) * pow10(k) * 10 == digits_value(strip_zeros(t)) * (10 * pow10(k)))
            by (nonlinear_arith);
    } else {
        assert(s =~= s.take(s.len() as int));
    }
}

proof fn lemma_frac(fp: nat)
    requires
        0 < fp < MICRO,
    ensures
        1 <= strip_zeros(padded(fp, 6)).len() <= 6,
        all_digits(strip_zeros(padded(fp, 6))),
        frac_micro(strip_zeros(padded(fp, 6))) == fp,
{
    let p = padded(fp, 6);
    let f = strip_zeros(p);
    lemma_padded(fp, 6);
    lemma_pow10_six();
    lemma_strip_zeros(p);
    let k = (6 - f.len()) as nat;
    vstd::arithmetic::div_mod::lemma_small_mod(fp, MICRO as nat);
    assert(digits_value(p) == fp);
    assert(f.len() != 0) by {
        if f.len() == 0 {
            assert(digits_value(f) == 0);
            assert(digits_value(p) == 0 * pow10(6));
        }
    }
    assert(all_digits(f)) by {
        assert forall|i: int| 0 <= i < f.len() implies is_digit(#[trigger] f[i]) by {
            assert(f[i] == p[i]);
        }
    }
    if f.len() == 6 {
        assert(f.take(6) =~= f);
        assert(pow10(0) == 1);
    } else {
        assert(frac_micro(f) == digits_value(f) * pow10(k));
    }
}

proof fn lemma_sub_digits(s: Seq<char>, lo: int, hi: int)
    requires
        all_digits(s),
        0 <= lo <= hi <= s.len(),
    ensures
        all_digits(s.subrange(lo, hi)),
{
    assert forall|i: int| 0 <= i < hi - lo implies is_digit(#[trigger] s.subrange(lo, hi)[i]) by {
        assert(s.subrange(lo, hi)[i] == s[lo + i]);
    }
}

/// Magnitude text reads back to the magnitude it was written from.
pub proof fn lemma_magnitude_round_trip(m: int)
    requires
        i64::MIN <= m <= i64::MAX,
    ensures
        parse_magnitude(magnitude_text(m)) == Some(m),
        magnitude_text(m).len() >= 1,
        forall|i: int| 0 <= i < magnitude_text(m).len() ==> is_numeric_char(#[trigger] magnitude_text(m)[i]),
        is_digit(magnitude_text(m).last()),
        is_digit(magnitude_text(m)[0]) || magnitude_text(m)[0] == '-',
        has_digit(magnitude_text(m)),
{
    let a = abs(m);
    let whole = a / (MICRO as nat);
    let frac = a % (MICRO as nat);
    let sg: Seq<char> = if m < 0 { seq!['-'] } else { Seq::empty() };
    let d = digits_of(whole);
    lemma_digits_of(whole);
    let tail: Seq<char> = if frac == 0 { Seq::empty() } else { seq!['.'] + strip_zeros(padded(frac, 6)) };
    let t = magnitude_text(m);
    assert(t == sg + d + tail);
    if frac != 0 {
        lemma_frac(frac);
    }
    let b = d + tail;
    assert(t.skip(sign_len(t)) =~= b);
    assert(is_digit(d[0]));
    assert(has_digit(t)) by {
        assert(t[sg.len() as int] == d[0]);
    }
    assert(forall|i: int| 0 <= i < d.len() ==> b[i] == d[i]);
    lemma_run_len(b, |c: char| is_digit(c), d.len() as int);
    if frac == 0 {
        assert(b =~= d);
        assert(digits_value(d) * MICRO + frac_micro(Seq::<char>::empty()) == a) by {
            lemma_pow10_six();
        }
        assert(t.last() == d.last());
    } else {
        let f = strip_zeros(padded(frac, 6));
        assert(b[d.len() as int] == '.');
        assert(b.skip(d.len() as int + 1) =~= f);
        assert(b.take(d.len() as int) =~= d);
        assert(t.last() == f.last());
    }
    assert forall|i: int| 0 <= i < t.len() implies is_numeric_char(#[trigger] t[i]) by {
        if i < sg.len() {
        } else if i < sg.len() + d.len() {
            assert(t[i] == d[i - sg.len()]);
        } else if frac != 0 {
            let f = strip_zeros(padded(frac, 6));
            if i > sg.len() + d.len() {
                assert(t[i] == f[i - sg.len() - d.len() - 1]);
            }
        }
    }
}

pub proof fn lemma_pow10_add(a: nat, b: nat)
    ensures
        pow10(a + b) == pow10(a) * pow10(b),
    decreases a,
{
    if a > 0 {
        lemma_pow10_add((a - 1) as nat, b);
        assert(pow10(a + b) == 10 * pow10((a - 1 + b) as nat));
        assert(10 * (pow10((a - 1) as nat) * pow10(b)) == (10 * pow10((a - 1) as nat)) * pow10(b))
            by (nonlinear_arith);
    }
}

pub proof fn lemma_digits_value_bound(s: Seq<char>)
    requires
        all_digits(s),
    ensures
        0 <= digits_value(s) < pow10(s.len()),
    decreases s.len(),
{
    if s.len() > 0 {
        let t = s.drop_last();
        lemma_sub_digits(s, 0, s.len() - 1);
        assert(t =~= s.subrange(0, s.len() - 1));
        lemma_digits_value_bound(t);
        assert(is_digit(s[s.len() - 1]));
        let v = digits_value(t);
        let q = pow10(t.len());
        assert(v * 10 + digit_value(s.last()) < 10 * q) by (nonlinear_arith)
            requires v < q, 0 <= digit_value(s.last()) < 10;
    }
}

pub fn is_digit_char(c: char) -> (r: bool)
    ensures
        r == is_digit(c),
{
    '0' <= c && c <= '9'
}

pub fn is_numeric_char_exec(c: char) -> (r: bool)
    ensures
        r == is_numeric_char(c),
{
    is_digit_char(c) || c == '+' || c == '-' || c == '.'
}

fn digit_of(c: char) -> (r: u64)
    requires
        is_digit(c),
    ensures
        r == digit_value(c),
        r < 10,
{
    ((c as u32) - ('0' as u32)) as u64
}

fn char_of_digit(d: u64) -> (r: char)
    requires
        d < 10,
    ensures
        r == digit_char(d as int),
        is_digit(r),
        digit_value(r) == d,
{
    if d == 0 { '0' }
    else if d == 1 { '1' }
    else if d == 2 { '2' }
    else if d == 3 { '3' }
    else if d == 4 { '4' }
    else if d == 5 { '5' }
    else if d == 6 { '6' }
    else if d == 7 { '7' }
    else if d == 8 { '8' }
    else { '9' }
}

fn pow10_exec(e: u64) -> (r: u64)
    requires
        e <= 6,
    ensures
        r == pow10(e as nat),
        r <= MICRO,
{
    let mut r: u64 = 1;
    let mut i: u64 = 0;
    while i < e
        invariant
            i <= e <= 6,
            r == pow10(i as nat),
        decreases e - i,
    {
        proof {
            lemma_pow10_le_micro((i + 1) as nat);
        }
        r = r * 10;
        i = i + 1;
    }
    proof {
        lemma_pow10_le_micro(e as nat);
    }
    r
}

pub proof fn lemma_pow10_le_micro(i: nat)
    requires
        i <= 6,
    ensures
        pow10(i) <= MICRO,
{
    reveal_with_fuel(pow10, 7);
    if i == 0 {
    } else if i == 1 {
    } else if i == 2 {
    } else if i == 3 {
    } else if i == 4 {
    } else if i == 5 {
    } else {
    }
}

/// The largest whole part that a magnitude can have.
const WHOLE_LIMIT: u64 = 9223372036854;

/// Reads decimal text as a magnitude in millionths.
pub fn read_magnitude(p: &Vec<char>) -> (r: Option<i64>)
    ensures
        r matches Some(m) ==> parse_magnitude(p@) == Some(m as int),
        r is None ==> parse_magnitude(p@) is None,
{
    let n = p.len();
    let mut j: usize = 0;
    let mut neg = false;
    if n > 0 && (p[0] == '+' || p[0] == '-') {
        neg = p[0] == '-';
        j = 1;
    }
    let ghost b = p@.skip(j as int);
    assert(j == sign_len(p@));
    assert(neg == (p@.len() > 0 && p@[0] == '-'));
    let mut k: usize = j;
    let mut whole: u64 = 0;
    let mut big = false;
    assert(p@.subrange(j as int, j as int) =~= Seq::<char>::empty());
    while k < n && is_digit_char(p[k])
        invariant
            j <= k <= n == p@.len(),
            b == p@.skip(j as int),
            forall|i: int| j <= i < k ==> is_digit(#[trigger] p@[i]),
            !big ==> whole == digits_value(p@.subrange(j as int, k as int)) && whole <= WHOLE_LIMIT,
            big ==> digits_value(p@.subrange(j as int, k as int)) > WHOLE_LIMIT,
        decreases n - k,
    {
        let d = digit_of(p[k]);
        proof {
            assert(p@.subrange(j as int, k + 1) =~= p@.subrange(j as int, k as int).push(p@[k as int]));
            lemma_digits_value_push(p@.subrange(j as int, k as int), p@[k as int]);
        }
        if !big {
            let next = whole * 10 + d;
            if next > WHOLE_LIMIT {
                big = true;
            } else {
                whole = next;
            }
        }
        k = k + 1;
    }
    proof {
        lemma_run_len(b, |c: char| is_digit(c), k - j);
        assert(b.take(k - j) =~= p@.subrange(j as int, k as int));
    }
    let ghost kk = (k - j) as int;
    let mut frac: u64 = 0;
    if k == n {
        if k == j {
            return None;
        }
        assert(b =~= b.take(kk));
        proof {
            assert(digits_value(Seq::<char>::empty()) == 0);
            assert(frac_micro(Seq::<char>::empty()) == 0 * pow10(6));
        }
    } else {
        if p[k] != '.' {
            return None;
        }
        if n < 2 + j {
            return None;
        }
        let mut t: usize = k + 1;
        let mut facc: u64 = 0;
        assert(p@.subrange(k + 1, k + 1) =~= Seq::<char>::empty());
        while t < n
            invariant
                k < t <= n == p@.len(),
                j <= k,
                b == p@.skip(j as int),
                kk == k - j,
                p@[k as int] == '.',
                j == sign_len(p@),
                neg == (p@.len() > 0 && p@[0] == '-'),
                b.take(kk) =~= p@.subrange(j as int, k as int),
                kk == run_len(b, |c: char| is_digit(c)),
                !big ==> whole == digits_value(p@.subrange(j as int, k as int)) && whole <= WHOLE_LIMIT,
                big ==> digits_value(p@.subrange(j as int, k as int)) > WHOLE_LIMIT,
                forall|i: int| k < i < t ==> is_digit(#[trigger] p@[i]),
                t <= k + 7 ==> facc == digits_value(p@.subrange(k + 1, t as int)),
                t > k + 7 ==> facc == digits_value(p@.subrange(k + 1, k + 7)),
                facc < MICRO,
            decreases n - t,
        {
            if !is_digit_char(p[t]) {
                proof {
                    assert(b.skip(kk + 1)[t - k - 1] == p@[t as int]);
                    assert(!all_digits(b.skip(kk + 1)));
                    assert(kk < b.len() && b[kk] == '.');
                }
                return None;
            }
            if t - k < 7 {
                let d = digit_of(p[t]);
                proof {
                    assert(p@.subrange(k + 1, t + 1) =~= p@.subrange(k + 1, t as int).push(p@[t as int]));
                    lemma_digits_value_push(p@.subrange(k + 1, t as int), p@[t as int]);
                    assert(all_digits(p@.subrange(k + 1, t + 1)));
                    lemma_digits_value_bound(p@.subrange(k + 1, t + 1));
                    lemma_pow10_le_micro((t + 1 - (k + 1)) as nat);
                }
                facc = facc * 10 + d;
            }
            t = t + 1;
        }
        let ghost f = b.skip(kk + 1);
        assert(f =~= p@.subrange(k + 1, n as int));
        assert(all_digits(f));
        assert(b[kk] == '.');
        let cnt: u64 = if n - (k + 1) >= 6 { 6 } else { (n - (k + 1)) as u64 };
        let scale = pow10_exec(6 - cnt);
        proof {
            if cnt == 6 {
                assert(f.take(6) =~= p@.subrange(k + 1, k + 7));
                assert(pow10(0) == 1);
                assert(frac_micro(f) == facc);
                assert(facc * scale == facc);
            } else {
                lemma_digits_value_bound(f);
                lemma_pow10_add(cnt as nat, (6 - cnt) as nat);
                lemma_pow10_six();
                assert(facc * scale < MICRO) by (nonlinear_arith)
                    requires facc < pow10(cnt as nat), scale == pow10((6 - cnt) as nat),
                        pow10(cnt as nat) * pow10((6 - cnt) as nat) == MICRO, scale >= 0;
            }
        }
        frac = facc * scale;
    }
    proof {
        assert(decimal_parts(p@) is Some);
    }
    let u: i128 = (whole as i128) * (MICRO as i128) + (frac as i128);
    if big {
        proof {
            let w = decimal_parts(p@).unwrap().1;
            let f = decimal_parts(p@).unwrap().2;
            assert(w == p@.subrange(j as int, k as int));
            let uu = digits_value(w) * MICRO + frac_micro(f);
            assert(frac_micro(f) >= 0) by {
                if f.len() >= 6 {
                    lemma_sub_digits(f, 0, 6);
                    lemma_digits_value_bound(f.take(6));
                } else {
                    lemma_digits_value_bound(f);
                    lemma_pow10_pos((6 - f.len()) as nat);
                    assert(digits_value(f) * pow10((6 - f.len()) as nat) >= 0) by (nonlinear_arith)
                        requires digits_value(f) >= 0, pow10((6 - f.len()) as nat) >= 1;
                }
            }
            assert(digits_value(w) * MICRO >= (WHOLE_LIMIT + 1) * MICRO) by (nonlinear_arith)
                requires digits_value(w) >= WHOLE_LIMIT + 1;
        }
        return None;
    }
    let m: i128 = if neg { -u } else { u };
    if m < (i64::MIN as i128) || m > (i64::MAX as i128) {
        return None;
    }
    Some(m as i64)
}

/// The shortest decimal digits of `n`.
pub fn digits_chars(n: u128) -> (r: Vec<char>)
    ensures
        r@ == digits_of(n as nat),
{
    let mut rest: u128 = n / 10;
    let mut out: Vec<char> = Vec::new();
    out.push(char_of_digit((n % 10) as u64));
    assert(out@ =~= seq![digit_char((n % 10) as int)]);
    while rest > 0
        invariant
            rest > 0 ==> digits_of(n as nat) == digits_of(rest as nat) + out@,
            rest == 0 ==> digits_of(n as nat) == out@,
        decreases rest,
    {
        let c = char_of_digit((rest % 10) as u64);
        let ghost before = out@;
        out.insert(0, c);
        assert(out@ =~= seq![c] + before);
        proof {
            if rest >= 10 {
                assert(digits_of(rest as nat) + before =~= digits_of((rest / 10) as nat) + out@);
            } else {
                assert(digits_of(rest as nat) + before =~= out@);
            }
        }
        rest = rest / 10;
    }
    out
}

/// The last `w` decimal digits of `n`, with leading zeros.
fn padded_chars(n: u64, w: usize) -> (r: Vec<char>)
    ensures
        r@ == padded(n as nat, w as nat),
{
    let mut out: Vec<char> = Vec::new();
    let mut rest: u64 = n;
    let mut i: usize = 0;
    while i < w
        invariant
            i <= w,
            padded(n as nat, w as nat) == padded(rest as nat, (w - i) as nat) + out@,
        decreases w - i,
    {
        let c = char_of_digit(rest % 10);
        let ghost before = out@;
        out.insert(0, c);
        assert(out@ =~= seq![c] + before);
        assert(padded(rest as nat, (w - i) as nat) + before =~= padded((rest / 10) as nat, (w - i - 1) as nat) + out@);
        rest = rest / 10;
        i = i + 1;
    }
    assert(padded(rest as nat, 0) + out@ =~= out@);
    out
}

/// Removes the trailing zeros of `v`.
fn strip_zero_chars(v: &mut Vec<char>)
    ensures
        final(v)@ == strip_zeros(old(v)@),
{
    while v.len() > 0 && v[v.len() - 1] == '0'
        invariant
            strip_zeros(v@) == strip_zeros(old(v)@),
        decreases v@.len(),
    {
        let ghost before = v@;
        v.pop();
        assert(v@ =~= before.drop_last());
    }
}

/// The text of magnitude `m` (in millionths).
pub fn magnitude_chars(m: i128) -> (r: Vec<char>)
    ensures
        r@ == magnitude_text(m as int),
{
    let a: u128 = if m < 0 { ((-(m + 1)) as u128) + 1 } else { m as u128 };
    let whole: u128 = a / (MICRO as u128);
    let frac: u128 = a % (MICRO as u128);
    let mut out: Vec<char> = Vec::new();
    if m < 0 {
        out.push('-');
    }
    let d = digits_chars(whole);
    push_all(&mut out, &d);
    if frac != 0 {
        out.push('.');
        let mut f = padded_chars(frac as u64, 6);
        strip_zero_chars(&mut f);
        push_all(&mut out, &f);
    }
    let ghost sg: Seq<char> = if m < 0 { seq!['-'] } else { Seq::empty() };
    assert(out@ =~= magnitude_text(m as int));
    out
}

} // verus!
