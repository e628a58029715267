//! Decimal number literals: which texts are one, and which integer one names.
//!
//! Lua has a single number type, so the collector's counts, levels and
//! timestamps arrive as number literals. A literal is kept as written, and
//! reading it as an integer is exact: `1e3` and `1000.0` name 1000, `2.5`
//! names no integer.

use vstd::prelude::*;

use crate::text::{ascii_text, digits_value};

verus! {

pub open spec fn is_digit_char(c: char) -> bool {
    '0' <= c <= '9'
}

/// Where a run of digits from `i` ends.
pub open spec fn run_end(s: Seq<char>, i: int) -> int
    decreases s.len() - i,
{
    if 0 <= i < s.len() && is_digit_char(s[i]) {
        run_end(s, i + 1)
    } else {
        i
    }
}

/// The marks that split a literal `-?W*(.F*)?([eE][+-]?X*)?`: after the sign,
/// after the whole digits `W`, after the fraction `.F`, where the exponent's
/// digits `X` start, and where they end. Without a point the fraction mark is
/// the whole mark; without an exponent the last three marks coincide.
pub open spec fn literal_marks(s: Seq<char>) -> (int, int, int, int, int) {
    let a = if s.len() > 0 && s[0] == '-' {
        1int
    } else {
        0int
    };
    let b = run_end(s, a);
    let c = if b < s.len() && s[b] == '.' {
        run_end(s, b + 1)
    } else {
        b
    };
    if c < s.len() && (s[c] == 'e' || s[c] == 'E') {
        let d = if c + 1 < s.len() && (s[c + 1] == '+' || s[c + 1] == '-') {
            c + 2
        } else {
            c + 1
        };
        (a, b, c, d, run_end(s, d))
    } else {
        (a, b, c, c, c)
    }
}

/// Whether `s` is a number literal: the whole text has the shape above, there
/// is a digit before or after the point, and an exponent has digits. This is
/// the grammar Rust's `f64::from_str` accepts, on texts without `inf` or `nan`.
pub open spec fn is_number_literal(s: Seq<char>) -> bool {
    let (a, b, c, d, e) = literal_marks(s);
    &&& e == s.len()
    &&& (b > a || c > b + 1)
    &&& (d > c ==> e > d)
}

/// The literal's digits, whole then fraction, as one run.
pub open spec fn literal_digits(s: Seq<char>) -> Seq<char> {
    let (a, b, c, d, e) = literal_marks(s);
    s.subrange(a, b) + if c > b {
        s.subrange(b + 1, c)
    } else {
        Seq::<char>::empty()
    }
}

/// The literal's exponent; zero when it has none.
pub open spec fn literal_exponent(s: Seq<char>) -> int {
    let (a, b, c, d, e) = literal_marks(s);
    if d > c {
        let x = digits_value(s.subrange(d, e)) as int;
        if s[c + 1] == '-' {
            -x
        } else {
            x
        }
    } else {
        0
    }
}

/// Where the decimal point falls among the literal's digits once the exponent
/// has moved it.
pub open spec fn literal_point(s: Seq<char>) -> int {
    let (a, b, c, d, e) = literal_marks(s);
    (b - a) + literal_exponent(s)
}

/// Ten to the power `n`.
pub open spec fn pow10(n: nat) -> nat
    decreases n,
{
    if n == 0 {
        1
    } else {
        10 * pow10((n - 1) as nat)
    }
}

/// Whether every digit at or after position `k` is a zero.
pub open spec fn zeros_from(ds: Seq<char>, k: int) -> bool {
    forall|i: int| 0 <= i < ds.len() && k <= i ==> ds[i] == '0'
}

/// The integer a literal names, if it names one: every digit after the point
/// is a zero, and the value is the digits before the point followed by as many
/// zeros as the point lies past the last digit.
pub open spec fn literal_integer(s: Seq<char>) -> Option<int> {
    if !is_number_literal(s) {
        None
    } else {
        let ds = literal_digits(s);
        let k = literal_point(s);
        if !zeros_from(ds, k) {
            None
        } else {
            let whole: int = if k <= 0 {
                0
            } else if k >= ds.len() {
                (digits_value(ds) * pow10((k - ds.len()) as nat)) as int
            } else {
                digits_value(ds.subrange(0, k)) as int
            };
            Some(
                if s[0] == '-' {
                    -whole
                } else {
                    whole
                },
            )
        }
    }
}

/// The integer a literal names, when it also fits an `i64`.
pub open spec fn integer_i64(s: Seq<char>) -> Option<i64> {
    match literal_integer(s) {
        Some(v) => if i64::MIN <= v <= i64::MAX {
            Some(v as i64)
        } else {
            None
        },
        None => None,
    }
}

/// Where a run of digits from `i` ends, read from the bytes.
fn digit_run(bytes: &[u8], i: usize) -> (end: usize)
    requires
        i <= bytes@.len(),
    ensures
        end as int == run_end(ascii_text(bytes@), i as int),
        i <= end <= bytes@.len(),
{
    let ghost s = ascii_text(bytes@);
    let mut j = i;
    while j < bytes.len() && 48 <= bytes[j] && bytes[j] <= 57
        invariant
            i <= j <= bytes@.len(),
            s == ascii_text(bytes@),
            run_end(s, j as int) == run_end(s, i as int),
        decreases bytes@.len() - j,
    {
        assert(s[j as int] == bytes@[j as int] as char);
        j = j + 1;
    }
    proof {
        if j < bytes@.len() {
            assert(s[j as int] == bytes@[j as int] as char);
        }
    }
    j
}

/// The marks of a literal held as ASCII bytes.
fn marks(bytes: &[u8]) -> (m: (usize, usize, usize, usize, usize))
    ensures
        (m.0 as int, m.1 as int, m.2 as int, m.3 as int, m.4 as int) == literal_marks(
            ascii_text(bytes@),
        ),
        m.0 <= m.1 <= m.2 <= m.3 <= m.4 <= bytes@.len(),
        m.2 > m.1 ==> m.2 >= m.1 + 1,
{
    let ghost s = ascii_text(bytes@);
    let n = bytes.len();
    let a: usize = if n > 0 && bytes[0] == 45 {
        1
    } else {
        0
    };
    let b = digit_run(bytes, a);
    let c = if b < n && bytes[b] == 46 {
        digit_run(bytes, b + 1)
    } else {
        b
    };
    proof {
        if n > 0 {
            assert(s[0] == bytes@[0] as char);
        }
        if b < n {
            assert(s[b as int] == bytes@[b as int] as char);
        }
        if c < n {
            assert(s[c as int] == bytes@[c as int] as char);
        }
        if c + 1 < n {
            assert(s[c + 1] == bytes@[c + 1] as char);
        }
    }
    if c < n && (bytes[c] == 101 || bytes[c] == 69) {
        let d = if c + 1 < n && (bytes[c + 1] == 43 || bytes[c + 1] == 45) {
            c + 2
        } else {
            c + 1
        };
        let e = digit_run(bytes, d);
        (a, b, c, d, e)
    } else {
        (a, b, c, c, c)
    }
}

/// Whether ASCII bytes are a number literal.
pub fn literal_ok(bytes: &[u8]) -> (ok: bool)
    ensures
        ok == is_number_literal(ascii_text(bytes@)),
{
    let (a, b, c, d, e) = marks(bytes);
    e == bytes.len() && (b > a || c > b + 1) && (d <= c || e > d)
}

/// The largest magnitude tracked exactly; anything at least this large is
/// out of an `i64`'s reach.
pub open spec fn cap() -> nat {
    0x1_0000_0000_0000_0000
}

pub open spec fn capped(v: nat) -> nat {
    if v < cap() {
        v
    } else {
        cap()
    }
}

/// The largest exponent tracked exactly; a literal's digits cannot span so
/// many places.
pub open spec fn exponent_cap() -> nat {
    0x1_0000_0000_0000_0000_0000
}

proof fn lemma_pow10_grows(m: nat, n: nat)
    requires
        m <= n,
    ensures
        pow10(m) <= pow10(n),
        pow10(n) >= 1,
    decreases n,
{
    if n > 0 {
        if m < n {
            lemma_pow10_grows(m, (n - 1) as nat);
        } else {
            lemma_pow10_grows(0, (n - 1) as nat);
        }
    }
}

proof fn lemma_pow10_big(n: nat)
    requires
        n >= 20,
    ensures
        pow10(n) >= cap(),
{
    reveal_with_fuel(pow10, 21);
    lemma_pow10_grows(20, n);
}

/// A run of digits is zero exactly when all its digits are zeros.
proof fn lemma_zero_digits(ds: Seq<char>)
    requires
        forall|i: int| 0 <= i < ds.len() ==> is_digit_char(#[trigger] ds[i]),
    ensures
        (digits_value(ds) == 0) == zeros_from(ds, 0),
    decreases ds.len(),
{
    if ds.len() > 0 {
        let t = ds.drop_last();
        assert forall|i: int| 0 <= i < t.len() implies is_digit_char(#[trigger] t[i]) by {
            assert(t[i] == ds[i]);
        }
        lemma_zero_digits(t);
        if zeros_from(ds, 0) {
            assert forall|i: int| 0 <= i < t.len() && 0 <= i implies t[i] == '0' by {
                assert(t[i] == ds[i]);
            }
            assert(ds[ds.len() - 1] == '0');
        }
        if digits_value(ds) == 0 {
            assert forall|i: int| 0 <= i < ds.len() && 0 <= i implies ds[i] == '0' by {
                if i < ds.len() - 1 {
                    assert(t[i] == ds[i]);
                }
            }
        }
    }
}

/// A run of digits holds only digits.
proof fn lemma_run(s: Seq<char>, i: int)
    requires
        0 <= i <= s.len(),
    ensures
        i <= run_end(s, i) <= s.len(),
        forall|j: int| i <= j < run_end(s, i) ==> is_digit_char(#[trigger] s[j]),
    decreases s.len() - i,
{
    if i < s.len() && is_digit_char(s[i]) {
        lemma_run(s, i + 1);
    }
}

/// A literal's digit run holds only digits, and is no longer than the literal.
proof fn lemma_literal_digits(s: Seq<char>)
    ensures
        forall|i: int|
            0 <= i < literal_digits(s).len() ==> is_digit_char(#[trigger] literal_digits(s)[i]),
        literal_digits(s).len() <= s.len(),
{
    let (a, b, c, d, e) = literal_marks(s);
    let ds = literal_digits(s);
    if s.len() > 0 {
        lemma_run(s, a);
        if b < s.len() && s[b] == '.' {
            lemma_run(s, b + 1);
        }
        assert forall|i: int| 0 <= i < ds.len() implies is_digit_char(#[trigger] ds[i]) by {
            if i < b - a {
                assert(ds[i] == s[a + i]);
            } else {
                assert(ds[i] == s[b + 1 + i - (b - a)]);
            }
        }
    } else {
        assert(ds.len() == 0);
    }
}

/// A number literal's characters are ASCII.
pub proof fn lemma_literal_ascii(s: Seq<char>)
    requires
        is_number_literal(s),
    ensures
        vstd::utf8::is_ascii_chars(s),
{
    let (a, b, c, d, e) = literal_marks(s);
    lemma_run(s, a);
    if b < s.len() && s[b] == '.' {
        lemma_run(s, b + 1);
    }
    if d > c {
        lemma_run(s, d);
    }
    assert forall|i: int| 0 <= i < s.len() implies '\0' <= #[trigger] s[i] <= '\u{7f}' by {
        if i < a {
            assert(s[0] == '-');
        } else if i < b {
            assert(is_digit_char(s[i]));
        } else if i < c {
            if i > b {
                assert(is_digit_char(s[i]));
            }
        } else if i < d {
        } else {
            assert(is_digit_char(s[i]));
        }
    }
}

/// When the exponent moves the point further than any digit run reaches, the
/// literal names zero if its digits are all zeros, and otherwise no integer
/// or one far out of an `i64`'s range.
proof fn lemma_far_point(s: Seq<char>)
    requires
        is_number_literal(s),
        s.len() <= 0x1_0000_0000_0000_0000,
        literal_exponent(s) >= exponent_cap() || literal_exponent(s) <= -exponent_cap(),
    ensures
        integer_i64(s) == if zeros_from(literal_digits(s), 0) {
            Some(0i64)
        } else {
            None
        },
{
    let ds = literal_digits(s);
    let k = literal_point(s);
    let (a, b, c, d, e) = literal_marks(s);
    lemma_literal_digits(s);
    lemma_run(s, a);
    lemma_zero_digits(ds);
    if literal_exponent(s) >= exponent_cap() {
        assert(k >= ds.len() + 20);
        assert(zeros_from(ds, k));
        let p = pow10((k - ds.len()) as nat);
        lemma_pow10_big((k - ds.len()) as nat);
        if !zeros_from(ds, 0) {
            assert(digits_value(ds) >= 1);
            assert(digits_value(ds) * p >= p) by (nonlinear_arith)
                requires
                    digits_value(ds) >= 1,
            ;
        } else {
            assert(digits_value(ds) * p == 0);
        }
    } else {
        assert(k < 0);
        assert(zeros_from(ds, k) == zeros_from(ds, 0));
    }
}

/// Whether the bytes' marks are those of their literal.
pub open spec fn marked(bytes: Seq<u8>, a: usize, b: usize, c: usize) -> bool {
    &&& (a as int, b as int, c as int) == (
        literal_marks(ascii_text(bytes)).0,
        literal_marks(ascii_text(bytes)).1,
        literal_marks(ascii_text(bytes)).2,
    )
    &&& a <= b <= c <= bytes.len()
    &&& (c > b ==> c >= b + 1)
}

/// The digit at position `i` of the literal's digit run.
fn digit_of(bytes: &[u8], a: usize, b: usize, c: usize, i: usize) -> (d: u8)
    requires
        marked(bytes@, a, b, c),
        i < literal_digits(ascii_text(bytes@)).len(),
    ensures
        d as char == literal_digits(ascii_text(bytes@))[i as int],
        48 <= d <= 57,
{
    let ghost s = ascii_text(bytes@);
    proof {
        lemma_literal_digits(s);
    }
    if i < b - a {
        assert(s[a + i] == bytes@[a + i] as char);
        assert(literal_digits(s)[i as int] == s[a + i]);
        bytes[a + i]
    } else {
        let j = b + 1 + (i - (b - a));
        assert(s[j as int] == bytes@[j as int] as char);
        assert(literal_digits(s)[i as int] == s[j as int]);
        bytes[j]
    }
}

/// Whether every digit of the run from `from` on is a zero.
fn zeros_after(bytes: &[u8], a: usize, b: usize, c: usize, n: usize, from: usize) -> (all: bool)
    requires
        marked(bytes@, a, b, c),
        n == literal_digits(ascii_text(bytes@)).len(),
        from <= n,
    ensures
        all == zeros_from(literal_digits(ascii_text(bytes@)), from as int),
{
    let ghost ds = literal_digits(ascii_text(bytes@));
    let mut i = from;
    while i < n
        invariant
            from <= i <= n,
            n == ds.len(),
            ds == literal_digits(ascii_text(bytes@)),
            marked(bytes@, a, b, c),
            forall|t: int| from <= t < i ==> ds[t] == '0',
        decreases n - i,
    {
        let digit = digit_of(bytes, a, b, c, i);
        if digit != 48 {
            return false;
        }
        i = i + 1;
    }
    true
}

/// The value of the first `m` digits of the run, capped.
fn prefix_capped(bytes: &[u8], a: usize, b: usize, c: usize, m: usize) -> (acc: u128)
    requires
        marked(bytes@, a, b, c),
        m <= literal_digits(ascii_text(bytes@)).len(),
    ensures
        acc as nat == capped(digits_value(literal_digits(ascii_text(bytes@)).subrange(0, m as int))),
{
    let ghost ds = literal_digits(ascii_text(bytes@));
    let mut acc: u128 = 0;
    let mut i: usize = 0;
    assert(ds.subrange(0, 0) =~= Seq::<char>::empty());
    while i < m
        invariant
            i <= m <= ds.len(),
            ds == literal_digits(ascii_text(bytes@)),
            marked(bytes@, a, b, c),
            acc as nat == capped(digits_value(ds.subrange(0, i as int))),
        decreases m - i,
    {
        let digit = digit_of(bytes, a, b, c, i);
        proof {
            let t = ds.subrange(0, i + 1);
            assert(t.drop_last() =~= ds.subrange(0, i as int));
            assert(t.last() == ds[i as int]);
        }
        if acc < 0x1_0000_0000_0000_0000 {
            let next = acc * 10 + (digit - 48) as u128;
            acc = if next < 0x1_0000_0000_0000_0000 {
                next
            } else {
                0x1_0000_0000_0000_0000
            };
        }
        i = i + 1;
    }
    acc
}

/// `v` followed by `extra` zeros, capped, from `v` capped.
fn scaled_capped(acc: u128, Ghost(v): Ghost<nat>, extra: u128) -> (out: u128)
    requires
        acc as nat == capped(v),
    ensures
        out as nat == capped(v * pow10(extra as nat)),
{
    if acc == 0 {
        assert(v == 0);
        assert(v * pow10(extra as nat) == 0);
        return 0;
    }
    let mut out = acc;
    let mut t: u128 = 0;
    assert(pow10(0) == 1);
    assert(v * pow10(0) == v);
    while t < extra && out < 0x1_0000_0000_0000_0000
        invariant
            0 <= t <= extra,
            v >= 1,
            out as nat == capped(v * pow10(t as nat)),
        decreases extra - t,
    {
        proof {
            assert(v * pow10((t + 1) as nat) == 10 * (v * pow10(t as nat))) by (nonlinear_arith)
                requires
                    pow10((t + 1) as nat) == 10 * pow10(t as nat),
            ;
        }
        let next = out * 10;
        out = if next < 0x1_0000_0000_0000_0000 {
            next
        } else {
            0x1_0000_0000_0000_0000
        };
        t = t + 1;
    }
    proof {
        if t < extra {
            lemma_pow10_grows(t as nat, extra as nat);
            assert(v * pow10(t as nat) <= v * pow10(extra as nat)) by (nonlinear_arith)
                requires
                    pow10(t as nat) <= pow10(extra as nat),
                    v >= 1,
            ;
        }
    }
    out
}

/// The exponent's digits `bytes[d..e]` read, capped at the exponent cap.
fn exponent_capped(bytes: &[u8], d: usize, e: usize) -> (x: u128)
    requires
        d <= e <= bytes@.len(),
        forall|t: int| d <= t < e ==> is_digit_char(#[trigger] ascii_text(bytes@)[t]),
    ensures
        x as nat == if digits_value(ascii_text(bytes@).subrange(d as int, e as int))
            < exponent_cap() {
            digits_value(ascii_text(bytes@).subrange(d as int, e as int))
        } else {
            exponent_cap()
        },
{
    let ghost s = ascii_text(bytes@);
    let mut x: u128 = 0;
    let mut j = d;
    assert(s.subrange(d as int, d as int) =~= Seq::<char>::empty());
    while j < e
        invariant
            d <= j <= e <= bytes@.len(),
            s == ascii_text(bytes@),
            forall|t: int| d <= t < e ==> is_digit_char(#[trigger] s[t]),
            x as nat == if digits_value(s.subrange(d as int, j as int)) < exponent_cap() {
                digits_value(s.subrange(d as int, j as int))
            } else {
                exponent_cap()
            },
        decreases e - j,
    {
        assert(s[j as int] == bytes@[j as int] as char);
        assert(is_digit_char(s[j as int]));
        let digit = (bytes[j] - 48) as u128;
        proof {
            let t = s.subrange(d as int, j + 1);
            assert(t.drop_last() =~= s.subrange(d as int, j as int));
            assert(t.last() == s[j as int]);
        }
        if x < 0x1_0000_0000_0000_0000_0000 {
            let next = x * 10 + digit;
            x = if next < 0x1_0000_0000_0000_0000_0000 {
                next
            } else {
                0x1_0000_0000_0000_0000_0000
            };
        }
        j = j + 1;
    }
    x
}

/// The integer an ASCII literal names, when it fits an `i64`.
pub fn literal_i64(bytes: &[u8]) -> (value: Option<i64>)
    ensures
        value == integer_i64(ascii_text(bytes@)),
{
    let ghost s = ascii_text(bytes@);
    if !literal_ok(bytes) {
        return None;
    }
    let (a, b, c, d, e) = marks(bytes);
    let ghost ds = literal_digits(s);
    proof {
        lemma_run(s, a as int);
        if c > b {
            lemma_run(s, b + 1);
        }
        lemma_run(s, d as int);
        lemma_literal_digits(s);
    }
    let n: usize = if c > b {
        (b - a) + (c - b - 1)
    } else {
        b - a
    };
    assert(ds.len() == n);
    let x = exponent_capped(bytes, d, e);
    let negative_exponent = d > c && bytes[c + 1] == 45;
    let negative = bytes[0] == 45;
    proof {
        if d > c {
            assert(s[c + 1] == bytes@[c + 1] as char);
        }
        assert(s[0] == bytes@[0] as char);
    }
    if x == 0x1_0000_0000_0000_0000_0000 {
        proof {
            lemma_far_point(s);
        }
        if zeros_after(bytes, a, b, c, n, 0) {
            return Some(0);
        } else {
            return None;
        }
    }
    let k: i128 = if negative_exponent {
        (b - a) as i128 - x as i128
    } else {
        (b - a) as i128 + x as i128
    };
    assert(k == literal_point(s));
    let from: usize = if k <= 0 {
        0
    } else if k >= n as i128 {
        n
    } else {
        k as usize
    };
    let zeros = zeros_after(bytes, a, b, c, n, from);
    assert(zeros == zeros_from(ds, k as int));
    if !zeros {
        return None;
    }
    if k <= 0 {
        return Some(0);
    }
    let m: usize = if k >= n as i128 {
        n
    } else {
        k as usize
    };
    let prefix = prefix_capped(bytes, a, b, c, m);
    let acc = if k > n as i128 {
        assert(ds.subrange(0, m as int) =~= ds);
        scaled_capped(prefix, Ghost(digits_value(ds)), (k - n as i128) as u128)
    } else {
        prefix
    };
    proof {
        let whole: int = if k >= ds.len() {
            (digits_value(ds) * pow10((k - ds.len()) as nat)) as int
        } else {
            digits_value(ds.subrange(0, k as int)) as int
        };
        if k == n {
            assert(ds.subrange(0, m as int) =~= ds);
            let p = pow10((k - ds.len()) as nat);
            assert(p == 1);
            assert(digits_value(ds) * p == digits_value(ds)) by (nonlinear_arith)
                requires
                    p == 1,
            ;
        }
        assert(acc as nat == capped(whole as nat));
        assert(literal_integer(s) == Some(
            if s[0] == '-' {
                -whole
            } else {
                whole
            },
        ));
    }
    if negative {
        if acc < 0x8000_0000_0000_0000 {
            Some(-(acc as i64))
        } else if acc == 0x8000_0000_0000_0000 {
            Some(i64::MIN)
        } else {
            None
        }
    } else {
        if acc <= 0x7fff_ffff_ffff_ffff {
            Some(acc as i64)
        } else {
            None
        }
    }
}

} // verus!
