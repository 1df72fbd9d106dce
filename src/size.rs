use vstd::prelude::*;
use vstd::arithmetic::div_mod::{
    lemma_basic_div,
    lemma_div_denominator,
    lemma_div_pos_is_pos,
    lemma_div_is_ordered,
    lemma_div_multiples_vanish_fancy,
    lemma_fundamental_div_mod,
    lemma_mod_bound,
};
use vstd::arithmetic::mul::lemma_mul_inequality;
use crate::error::ResizeError;
use crate::text::{
    same_letter_any_case, chars_of, char_is_digit, char_is_space, decimal_value, digit_value, is_digit, is_space, spells,
    spells_range,
};

verus! {

/// Ten to the power `n`.
pub open spec fn pow10(n: nat) -> nat
    decreases n,
{
    if n == 0 {
        1
    } else {
        10 * pow10((n - 1) as nat)
    }
}

/// Every character of `s` is an ASCII digit.
pub open spec fn all_digits(s: Seq<char>) -> bool {
    forall|i: int| 0 <= i < s.len() ==> is_digit(#[trigger] s[i])
}

/// `s` with every trailing `%` removed.
pub open spec fn strip_percent(s: Seq<char>) -> Seq<char>
    decreases s.len(),
{
    if s.len() > 0 && s.last() == '%' {
        strip_percent(s.drop_last())
    } else {
        s
    }
}

/// A leading sign `+` or `-` removed, if there is one.
pub open spec fn unsigned_part(t: Seq<char>) -> Seq<char> {
    if t.len() > 0 && (t[0] == '+' || t[0] == '-') {
        t.drop_first()
    } else {
        t
    }
}

/// The number written in `t` carries a minus sign.
pub open spec fn is_negative(t: Seq<char>) -> bool {
    t.len() > 0 && t[0] == '-'
}

/// Reads `s` as digits with at most one decimal point. The result holds the
/// digits in order with the point left out, whether a point was seen, how many
/// digits follow the point, and whether every character was a digit or the
/// one point.
pub open spec fn scan_decimal(s: Seq<char>) -> (Seq<char>, bool, nat, bool)
    decreases s.len(),
{
    if s.len() == 0 {
        (Seq::empty(), false, 0, true)
    } else {
        let prev = scan_decimal(s.drop_last());
        let c = s.last();
        if c == '.' {
            (prev.0, true, prev.2, prev.3 && !prev.1)
        } else if is_digit(c) {
            (prev.0.push(c), prev.1, if prev.1 { prev.2 + 1 } else { prev.2 }, prev.3)
        } else {
            (prev.0, prev.1, prev.2, false)
        }
    }
}

/// How many times `x` occurs in `s`.
pub open spec fn count_x(s: Seq<char>) -> nat
    decreases s.len(),
{
    if s.len() == 0 {
        0
    } else {
        count_x(s.drop_last()) + if s.last() == 'x' { 1nat } else { 0nat }
    }
}

/// The index of the first `x` in `s` (meaningful where `s` holds one).
pub open spec fn first_x(s: Seq<char>) -> int
    decreases s.len(),
{
    if s.len() == 0 {
        0
    } else if count_x(s.drop_last()) > 0 {
        first_x(s.drop_last())
    } else {
        s.len() - 1
    }
}

/// An unsigned integer as `u32` reads it: an optional `+`, then one or more
/// digits, whose value fits in `u32`.
pub open spec fn parse_u32_spec(t: Seq<char>) -> Option<u32> {
    let b = if t.len() > 0 && t[0] == '+' { t.drop_first() } else { t };
    if b.len() > 0 && all_digits(b) && decimal_value(b) <= u32::MAX {
        Some(decimal_value(b) as u32)
    } else {
        None
    }
}

/// What a size expression means.
pub enum SizeModel {
    /// A finite scale in percent: the integer written by `digits`, times ten
    /// to the power `exp - frac`, negated where `negative` holds.
    Percentage { negative: bool, digits: Seq<char>, frac: nat, exp: int },
    /// An infinite scale (`inf` or `infinity`).
    Infinite { negative: bool },
    /// A scale that is not a number (`nan`).
    NotANumber,
    /// An explicit target in pixels.
    Absolute { width: u32, height: u32 },
}

/// `s` without its trailing white space.
pub open spec fn trim_end(s: Seq<char>) -> Seq<char>
    decreases s.len(),
{
    if s.len() > 0 && is_space(s.last()) {
        trim_end(s.drop_last())
    } else {
        s
    }
}

/// `s` without its leading white space.
pub open spec fn trim_start(s: Seq<char>) -> Seq<char>
    decreases s.len(),
{
    if s.len() > 0 && is_space(s[0]) {
        trim_start(s.drop_first())
    } else {
        s
    }
}

/// `s` without leading and trailing white space.
pub open spec fn trimmed(s: Seq<char>) -> Seq<char> {
    trim_start(trim_end(s))
}

/// Is `c` the mark of an exponent?
pub open spec fn is_exp_mark(c: char) -> bool {
    c == 'e' || c == 'E'
}

/// The index of the first `e` or `E` in `s`, or its length where there is none.
pub open spec fn first_exp_mark(s: Seq<char>) -> int
    decreases s.len(),
{
    if s.len() == 0 {
        0
    } else {
        let p = first_exp_mark(s.drop_last());
        if p < s.len() - 1 {
            p
        } else if is_exp_mark(s.last()) {
            s.len() - 1
        } else {
            s.len() as int
        }
    }
}

/// The integer written in `t`: an optional sign, then digits.
pub open spec fn signed_value(t: Seq<char>) -> int {
    if is_negative(t) {
        -decimal_value(unsigned_part(t))
    } else {
        decimal_value(unsigned_part(t)) as int
    }
}

/// Reads a percentage as a floating-point literal: an optional sign, then
/// `inf`, `infinity` or `nan` in any ASCII case, or digits with at most one
/// point (at least one digit) and an optional exponent (`e` or `E`, an
/// optional sign, one or more digits).
pub open spec fn parse_percent(u: Seq<char>) -> Result<SizeModel, ResizeError> {
    let b = unsigned_part(u);
    if spells(b, seq!['i', 'n', 'f']) || spells(b, seq!['i', 'n', 'f', 'i', 'n', 'i', 't', 'y']) {
        Ok(SizeModel::Infinite { negative: is_negative(u) })
    } else if spells(b, seq!['n', 'a', 'n']) {
        Ok(SizeModel::NotANumber)
    } else {
        let i = first_exp_mark(b);
        let sc = scan_decimal(b.take(i));
        if !(sc.3 && sc.0.len() > 0) {
            Err(ResizeError::InvalidSizeFormat)
        } else if i == b.len() {
            Ok(SizeModel::Percentage { negative: is_negative(u), digits: sc.0, frac: sc.2, exp: 0 })
        } else {
            let x = b.skip(i + 1);
            if unsigned_part(x).len() > 0 && all_digits(unsigned_part(x)) {
                Ok(
                    SizeModel::Percentage {
                        negative: is_negative(u),
                        digits: sc.0,
                        frac: sc.2,
                        exp: signed_value(x),
                    },
                )
            } else {
                Err(ResizeError::InvalidSizeFormat)
            }
        }
    }
}

/// Reads a size expression.
///
/// - Trimmed of white space, it ends in `%`: every trailing `%` is removed
///   and the rest must be a percentage as `parse_percent` reads it; else the
///   format is invalid.
/// - Otherwise, the expression as given holds exactly one `x`: both sides
///   must be `u32` integers; else a dimension is invalid.
/// - Anything else is an invalid format.
pub open spec fn parse_spec(s: Seq<char>) -> Result<SizeModel, ResizeError> {
    let t = trimmed(s);
    if t.len() > 0 && t.last() == '%' {
        parse_percent(strip_percent(t))
    } else if count_x(s) == 1 {
        let i = first_x(s);
        match (parse_u32_spec(s.take(i)), parse_u32_spec(s.skip(i + 1))) {
            (Some(w), Some(h)) => Ok(SizeModel::Absolute { width: w, height: h }),
            _ => Err(ResizeError::InvalidDimension),
        }
    } else {
        Err(ResizeError::InvalidSizeFormat)
    }
}

/// `q` as a `u32`, stopped at `u32::MAX`.
pub open spec fn saturate(q: int) -> u32 {
    if q > u32::MAX {
        u32::MAX
    } else if q < 0 {
        0
    } else {
        q as u32
    }
}

/// `len` scaled by `digits * 10^(exp - frac)` percent, rounded toward
/// zero; a negative scale gives zero, and a result past `u32::MAX` stops
/// there.
pub open spec fn scale_len(len: u32, negative: bool, digits: Seq<char>, frac: nat, exp: int) -> u32 {
    if negative {
        0
    } else {
        let sh = exp - frac - 2;
        if sh >= 0 {
            saturate(len as int * decimal_value(digits) * pow10(sh as nat))
        } else {
            saturate((len as int * decimal_value(digits)) / pow10((-sh) as nat) as int)
        }
    }
}

/// `len` scaled by an infinite percentage: zero stays zero (the product is
/// not a number), any other length goes to `u32::MAX`; a negative one gives
/// zero.
pub open spec fn scale_infinite(len: u32, negative: bool) -> u32 {
    if negative || len == 0 {
        0
    } else {
        u32::MAX
    }
}

/// The target dimensions a size expression gives for an image of `w` by `h`.
pub open spec fn target_spec(m: SizeModel, w: u32, h: u32) -> (u32, u32) {
    match m {
        SizeModel::Percentage { negative, digits, frac, exp } => (
            scale_len(w, negative, digits, frac, exp),
            scale_len(h, negative, digits, frac, exp),
        ),
        SizeModel::Infinite { negative } => (scale_infinite(w, negative), scale_infinite(h, negative)),
        SizeModel::NotANumber => (0, 0),
        SizeModel::Absolute { width, height } => (width, height),
    }
}

/// The target dimensions of size expression `s` for an image of `w` by `h`.
pub open spec fn resolve_spec(s: Seq<char>, w: u32, h: u32) -> Result<(u32, u32), ResizeError> {
    match parse_spec(s) {
        Ok(m) => Ok(target_spec(m, w, h)),
        Err(e) => Err(e),
    }
}

// ---- facts about decimal values ----

proof fn lemma_pow10_positive(n: nat)
    ensures
        pow10(n) >= 1,
    decreases n,
{
    if n > 0 {
        lemma_pow10_positive((n - 1) as nat);
    }
}

/// The value of two digit strings written one after the other.
proof fn lemma_value_concat(a: Seq<char>, b: Seq<char>)
    ensures
        decimal_value(a + b) == decimal_value(a) * pow10(b.len()) + decimal_value(b),
    decreases b.len(),
{
    if b.len() == 0 {
        assert(a + b =~= a);
        assert(pow10(0) == 1);
        assert(decimal_value(a) * 1 == decimal_value(a));
    } else {
        let bl = b.drop_last();
        lemma_value_concat(a, bl);
        assert((a + b).drop_last() =~= a + bl);
        assert((a + b).last() == b.last());
        let va = decimal_value(a);
        let p = pow10(bl.len());
        assert(pow10(b.len()) == 10 * p);
        assert(decimal_value(a + b) == (va * p + decimal_value(bl)) * 10 + digit_value(b.last()));
        assert((va * p + decimal_value(bl)) * 10 == va * (10 * p) + decimal_value(bl) * 10)
            by (nonlinear_arith);
        assert(decimal_value(b) == decimal_value(bl) * 10 + digit_value(b.last()));
    }
}

/// The value of a digit string is below ten to the power of its length.
proof fn lemma_value_bound(s: Seq<char>)
    requires
        all_digits(s),
    ensures
        decimal_value(s) < pow10(s.len()),
    decreases s.len(),
{
    if s.len() > 0 {
        let sl = s.drop_last();
        assert(all_digits(sl)) by {
            assert forall|i: int| 0 <= i < sl.len() implies is_digit(#[trigger] sl[i]) by {
                assert(sl[i] == s[i]);
            }
        }
        assert(is_digit(s[s.len() - 1]));
        lemma_value_bound(sl);
        let v = decimal_value(sl);
        let p = pow10(sl.len());
        assert(v + 1 <= p);
        assert(v * 10 + 10 <= p * 10) by (nonlinear_arith)
            requires
                v + 1 <= p,
        ;
    }
}

/// A prefix of a digit string is worth no more than the whole string.
proof fn lemma_prefix_value_le(s: Seq<char>, j: int)
    requires
        0 <= j <= s.len(),
    ensures
        decimal_value(s.take(j)) <= decimal_value(s),
{
    lemma_value_concat(s.take(j), s.skip(j));
    assert(s.take(j) + s.skip(j) =~= s);
    lemma_pow10_positive(s.skip(j).len());
    let v = decimal_value(s.take(j));
    let p = pow10(s.skip(j).len());
    assert(v * p >= v) by (nonlinear_arith)
        requires
            p >= 1,
    ;
}

/// `(a * m + x) / m == a + x / m` for a positive `m`.
proof fn lemma_div_add_multiple(a: int, x: int, m: int)
    requires
        m > 0,
        x >= 0,
        a >= 0,
    ensures
        (a * m + x) / m == a + x / m,
{
    lemma_fundamental_div_mod(x, m);
    lemma_mod_bound(x, m);
    assert(a * m + x == m * (a + x / m) + x % m) by (nonlinear_arith)
        requires
            x == m * (x / m) + x % m,
    ;
    lemma_div_multiples_vanish_fancy(a + x / m, x % m, m);
}

// ---- executable reading of size expressions ----

/// Reads `v[lo..hi]` as a `u32` integer.
fn parse_u32_range(v: &Vec<char>, lo: usize, hi: usize) -> (r: Option<u32>)
    requires
        lo <= hi <= v@.len(),
    ensures
        r == parse_u32_spec(v@.subrange(lo as int, hi as int)),
{
    let ghost t = v@.subrange(lo as int, hi as int);
    let mut st: usize = lo;
    if lo < hi && v[lo] == '+' {
        st = lo + 1;
    }
    let ghost b = v@.subrange(st as int, hi as int);
    assert(b == if t.len() > 0 && t[0] == '+' { t.drop_first() } else { t });
    if st == hi {
        return None;
    }
    let mut acc: u64 = 0;
    let mut j: usize = st;
    while j < hi
        invariant
            lo <= st <= j <= hi <= v@.len(),
            b == v@.subrange(st as int, hi as int),
            t == v@.subrange(lo as int, hi as int),
            b == if t.len() > 0 && t[0] == '+' { t.drop_first() } else { t },
            all_digits(b.take(j - st)),
            acc == decimal_value(b.take(j - st)),
            acc <= u32::MAX,
        decreases hi - j,
    {
        let c = v[j];
        if !char_is_digit(c) {
            let ghost k: int = j - st;
            assert(b[k] == c);
            assert(!all_digits(b));
            assert(parse_u32_spec(t).is_none());
            return None;
        }
        let ghost pre = b.take(j - st);
        let ghost nxt = b.take(j - st + 1);
        assert(nxt.drop_last() =~= pre);
        assert(nxt.last() == c);
        acc = acc * 10 + (c as u64 - '0' as u64);
        assert(acc == decimal_value(nxt));
        j = j + 1;
        assert(all_digits(nxt)) by {
            assert forall|i: int| 0 <= i < nxt.len() implies is_digit(#[trigger] nxt[i]) by {
                if i < pre.len() {
                    assert(nxt[i] == pre[i]);
                }
            }
        }
        if acc > u32::MAX as u64 {
            proof {
                lemma_prefix_value_le(b, j - st);
                assert(b.take(j - st) == nxt);
                assert(all_digits(b) ==> decimal_value(b) > u32::MAX);
                assert(parse_u32_spec(t).is_none());
            }
            return None;
        }
    }
    assert(b.take(j - st) =~= b);
    Some(acc as u32)
}

/// Counts the `x` characters of `v` and finds the first one.
fn find_x(v: &Vec<char>) -> (r: (usize, usize))
    ensures
        r.0 == count_x(v@),
        count_x(v@) > 0 ==> r.1 == first_x(v@),
        r.1 <= v@.len(),
{
    let mut count: usize = 0;
    let mut first: usize = 0;
    let mut j: usize = 0;
    while j < v.len()
        invariant
            j <= v@.len(),
            count == count_x(v@.take(j as int)),
            count <= j,
            first <= j,
            count > 0 ==> first == first_x(v@.take(j as int)),
        decreases v@.len() - j,
    {
        let ghost pre = v@.take(j as int);
        let ghost nxt = v@.take(j + 1);
        assert(nxt.drop_last() =~= pre);
        if v[j] == 'x' {
            if count == 0 {
                first = j;
            }
            count = count + 1;
        }
        j = j + 1;
    }
    assert(v@.take(j as int) =~= v@);
    (count, first)
}

/// The scan of `v[st..hi]` as a decimal number.
fn scan_decimal_range(v: &Vec<char>, st: usize, hi: usize) -> (r: (Vec<char>, bool, usize, bool))
    requires
        st <= hi <= v@.len(),
    ensures
        ({
            let sc = scan_decimal(v@.subrange(st as int, hi as int));
            r.0@ == sc.0 && r.1 == sc.1 && r.2 == sc.2 && r.3 == sc.3
        }),
{
    let mut digits: Vec<char> = Vec::new();
    let mut dot = false;
    let mut frac: usize = 0;
    let mut ok = true;
    let mut j: usize = st;
    while j < hi
        invariant
            st <= j <= hi <= v@.len(),
            frac <= j - st,
            ({
                let sc = scan_decimal(v@.subrange(st as int, j as int));
                digits@ == sc.0 && dot == sc.1 && frac == sc.2 && ok == sc.3
            }),
        decreases hi - j,
    {
        let ghost nxt = v@.subrange(st as int, j + 1);
        assert(nxt.drop_last() =~= v@.subrange(st as int, j as int));
        let c = v[j];
        if c == '.' {
            ok = ok && !dot;
            dot = true;
        } else if char_is_digit(c) {
            digits.push(c);
            if dot {
                frac = frac + 1;
            }
        } else {
            ok = false;
        }
        j = j + 1;
    }
    (digits, dot, frac, ok)
}

proof fn lemma_scan_digits(s: Seq<char>)
    ensures
        all_digits(scan_decimal(s).0),
    decreases s.len(),
{
    if s.len() > 0 {
        lemma_scan_digits(s.drop_last());
        let d = scan_decimal(s.drop_last()).0;
        if is_digit(s.last()) && s.last() != '.' {
            let e = d.push(s.last());
            assert forall|i: int| 0 <= i < e.len() implies is_digit(#[trigger] e[i]) by {
                if i < d.len() {
                    assert(e[i] == d[i]);
                }
            }
        }
    }
}

// ---- exact percentage scaling ----

proof fn lemma_pow10_add2(f: nat)
    ensures
        pow10(f + 2) == 100 * pow10(f),
{
    assert(pow10(f + 2) == 10 * pow10(f + 1));
    assert(pow10(f + 1) == 10 * pow10(f));
}

proof fn lemma_single_value(d: char)
    ensures
        decimal_value(seq![d]) == digit_value(d),
{
    let s = seq![d];
    assert(s.drop_last() =~= Seq::<char>::empty());
    assert(s.last() == d);
    assert(decimal_value(s) == decimal_value(s.drop_last()) * 10 + digit_value(s.last()));
}

/// One step of the right-to-left scaling: a digit is put in front of `rest`.
proof fn lemma_scale_step(w: int, d: char, rest: Seq<char>, r: int)
    requires
        w >= 0,
        r == w * decimal_value(rest) / pow10(rest.len()) as int,
    ensures
        (w * digit_value(d) + r) / 10 == w * decimal_value(seq![d] + rest) / pow10(
            rest.len() + 1,
        ) as int,
{
    let p = pow10(rest.len()) as int;
    lemma_pow10_positive(rest.len());
    lemma_value_concat(seq![d], rest);
    lemma_single_value(d);
    assert((seq![d] + rest).len() == rest.len() + 1);
    let v = decimal_value(rest) as int;
    let dv = digit_value(d) as int;
    assert(pow10(rest.len() + 1) == 10 * p);
    assert(w * decimal_value(seq![d] + rest) == (w * dv) * p + w * v) by (nonlinear_arith)
        requires
            decimal_value(seq![d] + rest) == dv * p + v,
    ;
    lemma_div_add_multiple(w * dv, w * v, p);
    lemma_div_denominator((w * dv) * p + w * v, p, 10);
    assert(p * 10 == 10 * p);
}

/// `w * v / p` is at most `w` where `v < p`.
proof fn lemma_scaled_le(w: int, v: int, p: int)
    requires
        w >= 0,
        0 <= v < p,
    ensures
        w * v / p <= w,
{
    lemma_mul_inequality(v, p, w);
    assert(v * w == w * v && p * w == w * p) by (nonlinear_arith);
    lemma_div_is_ordered(w * v, w * p, p);
    lemma_div_add_multiple(w, 0, p);
}

/// `len` times the integer `digits`, over ten to the power `k`, rounded
/// toward zero and stopped at `u32::MAX`.
fn scale_down(len: u32, digits: &Vec<char>, k: usize) -> (r: u32)
    requires
        all_digits(digits@),
    ensures
        r == saturate((len as int * decimal_value(digits@)) / pow10(k as nat) as int),
{
    let ghost ds = digits@;
    let ghost w = len as int;
    let n = digits.len();
    // `m` digits take part in the fractional remainder, `pad` zeros stand
    // before them where there are fewer than `k` digits.
    let m: usize;
    let pad: usize;
    if n >= k {
        m = k;
        pad = 0;
    } else {
        m = n;
        pad = k - n;
    }
    assert(m + pad == k);
    // remainder part, right to left
    let mut r: u64 = 0;
    let mut t: usize = 0;
    assert(ds.subrange(n as int, n as int) =~= Seq::<char>::empty());
    assert(pow10(0) == 1);
    assert(decimal_value(ds.subrange(n as int, n as int)) == 0);
    assert(w * 0 == 0);
    while t < m
        invariant
            m <= n == ds.len(),
            ds == digits@,
            all_digits(ds),
            w == len as int,
            t <= m,
            r as int == w * decimal_value(ds.subrange(n - t, n as int)) / pow10(t as nat) as int,
            r <= len,
        decreases m - t,
    {
        let c = digits[n - 1 - t];
        let ghost rest = ds.subrange(n - t, n as int);
        assert(seq![c] + rest =~= ds.subrange(n - t - 1, n as int));
        assert(is_digit(ds[n - 1 - t]));
        proof {
            lemma_scale_step(w, c, rest, r as int);
        }
        let dv: u64 = c as u64 - '0' as u64;
        assert(dv <= 9 && dv == digit_value(c));
        assert((len as u64) * dv <= 9 * 4294967295) by (nonlinear_arith)
            requires
                dv <= 9,
                len <= 4294967295,
        ;
        r = (len as u64 * dv + r) / 10;
        t = t + 1;
        proof {
            let s2 = ds.subrange(n - t, n as int);
            assert(all_digits(s2)) by {
                assert forall|i: int| 0 <= i < s2.len() implies is_digit(#[trigger] s2[i]) by {
                    assert(s2[i] == ds[n - t + i]);
                }
            }
            lemma_value_bound(s2);
            lemma_scaled_le(w, decimal_value(s2) as int, pow10(t as nat) as int);
        }
    }
    let ghost lo = ds.subrange(n - m, n as int);
    let mut i: usize = 0;
    while i < pad
        invariant
            m <= n == ds.len(),
            lo == ds.subrange(n - m, n as int),
            w == len as int,
            i <= pad,
            r as int == w * decimal_value(lo) / pow10((m + i) as nat) as int,
        decreases pad - i,
    {
        proof {
            lemma_pow10_positive((m + i) as nat);
            lemma_div_denominator(w * decimal_value(lo), pow10((m + i) as nat) as int, 10);
            assert(pow10((m + i + 1) as nat) == 10 * pow10((m + i) as nat));
        }
        r = r / 10;
        i = i + 1;
    }
    // whole part, left to right, stopped at `cap`
    let cap: u64 = 4294967296;
    let mut h: u64 = 0;
    let mut j: usize = 0;
    while j < n - m
        invariant
            m <= n == ds.len(),
            ds == digits@,
            all_digits(ds),
            j <= n - m,
            cap == 4294967296,
            h <= cap,
            h == if decimal_value(ds.take(j as int)) < cap { decimal_value(ds.take(j as int)) } else { cap as nat },
        decreases n - m - j,
    {
        let c = digits[j];
        assert(is_digit(ds[j as int]));
        assert(ds.take(j + 1).drop_last() =~= ds.take(j as int));
        let dv: u64 = c as u64 - '0' as u64;
        assert(dv <= 9);
        let nh = h * 10 + dv;
        h = if nh < cap { nh } else { cap };
        j = j + 1;
    }
    let ghost hi = ds.take(n - m);
    proof {
        lemma_value_concat(hi, lo);
        assert(hi + lo =~= ds);
        let k = k as nat;
        let pk = pow10(k) as int;
        lemma_pow10_positive(k);
        let vh = decimal_value(hi) as int;
        if m < k {
            assert(hi.len() == 0);
            assert(vh == 0);
            assert(decimal_value(ds) == decimal_value(lo));
        } else {
            assert(m == k);
        }
        assert(w * decimal_value(ds) == (w * vh) * pk + w * decimal_value(lo)) by (nonlinear_arith)
            requires
                decimal_value(ds) == vh * pow10(lo.len()) + decimal_value(lo),
                m < k ==> vh == 0,
                m >= k ==> lo.len() == k && pow10(lo.len()) == pk,
        ;
        lemma_div_add_multiple(w * vh, w * decimal_value(lo), pk);
        assert(w * vh >= 0) by (nonlinear_arith)
            requires
                w >= 0,
                vh >= 0,
        ;
    }
    assert((len as u128) * (h as u128) <= 4294967295 * 4294967296) by (nonlinear_arith)
        requires
            h <= 4294967296,
            len <= 4294967295,
    ;
    let total: u128 = len as u128 * h as u128 + r as u128;
    proof {
        let q = (w * decimal_value(ds)) / pow10(k as nat) as int;
        let vh = decimal_value(hi) as int;
        assert(q == w * vh + r);
        if vh >= cap {
            if w >= 1 {
                assert(w * vh >= vh) by (nonlinear_arith)
                    requires
                        w >= 1,
                        vh >= 0,
                ;
                assert(w * (cap as int) >= cap) by (nonlinear_arith)
                    requires
                        w >= 1,
                ;
            } else {
                assert(w == 0);
                assert(w * vh == 0) by (nonlinear_arith)
                    requires
                        w == 0,
                ;
            }
        }
    }
    if total > u32::MAX as u128 {
        u32::MAX
    } else {
        total as u32
    }
}

/// The value of the integer `digits`, stopped at `2^32`.
fn capped_value(digits: &Vec<char>) -> (h: u64)
    requires
        all_digits(digits@),
    ensures
        h == if decimal_value(digits@) < 4294967296 { decimal_value(digits@) } else { 4294967296 },
{
    let ghost ds = digits@;
    let cap: u64 = 4294967296;
    let mut h: u64 = 0;
    let mut j: usize = 0;
    while j < digits.len()
        invariant
            ds == digits@,
            all_digits(ds),
            j <= ds.len(),
            cap == 4294967296,
            h <= cap,
            h == if decimal_value(ds.take(j as int)) < cap { decimal_value(ds.take(j as int)) } else { cap as nat },
        decreases ds.len() - j,
    {
        let c = digits[j];
        assert(is_digit(ds[j as int]));
        assert(ds.take(j + 1).drop_last() =~= ds.take(j as int));
        let dv: u64 = c as u64 - '0' as u64;
        assert(dv <= 9);
        let nh = h * 10 + dv;
        h = if nh < cap { nh } else { cap };
        j = j + 1;
    }
    assert(ds.take(ds.len() as int) =~= ds);
    h
}

/// `len` times the integer `digits` times ten to the power `j`, stopped at
/// `u32::MAX`.
fn scale_up(len: u32, digits: &Vec<char>, j: usize) -> (r: u32)
    requires
        all_digits(digits@),
        j < 10,
    ensures
        r == saturate(len as int * decimal_value(digits@) * pow10(j as nat)),
{
    let h = capped_value(digits);
    let mut p: u64 = 1;
    let mut i: usize = 0;
    assert(pow10(0) == 1);
    proof {
        reveal_with_fuel(pow10, 10);
    }
    assert(pow10(9) == 1000000000);
    while i < j
        invariant
            i <= j < 10,
            p == pow10(i as nat),
            pow10(9) == 1000000000,
        decreases j - i,
    {
        proof {
            assert(pow10((i + 1) as nat) == 10 * pow10(i as nat));
            lemma_pow10_mono((i + 1) as nat, 9);
        }
        p = p * 10;
        i = i + 1;
    }
    proof {
        lemma_pow10_mono(i as nat, 9);
    }
    let ghost w = len as int;
    let ghost d = decimal_value(digits@) as int;
    assert((len as u128) * (h as u128) * (p as u128) <= 4294967295 * 4294967296 * 1000000000)
        by (nonlinear_arith)
        requires
            h <= 4294967296,
            len <= 4294967295,
            p <= 1000000000,
    ;
    assert((len as u128) * (h as u128) <= 4294967295 * 4294967296) by (nonlinear_arith)
        requires
            h <= 4294967296,
            len <= 4294967295,
    ;
    let total: u128 = len as u128 * h as u128 * p as u128;
    proof {
        lemma_pow10_positive(j as nat);
        if d >= 4294967296 {
            if w >= 1 {
                assert(w * d * p >= d) by (nonlinear_arith)
                    requires
                        w >= 1,
                        d >= 0,
                        p >= 1,
                ;
                assert(w * 4294967296 * p >= 4294967296) by (nonlinear_arith)
                    requires
                        w >= 1,
                        p >= 1,
                ;
            } else {
                assert(w * d * p == 0 && w * 4294967296 * p == 0) by (nonlinear_arith)
                    requires
                        w == 0,
                ;
            }
        }
    }
    if total > u32::MAX as u128 {
        u32::MAX
    } else {
        total as u32
    }
}

// ---- size expressions ----

proof fn lemma_pow10_add(a: nat, b: nat)
    ensures
        pow10(a + b) == pow10(a) * pow10(b),
    decreases b,
{
    if b > 0 {
        lemma_pow10_add(a, (b - 1) as nat);
        assert(pow10(a + b) == 10 * pow10((a + b - 1) as nat));
        assert(pow10(b) == 10 * pow10((b - 1) as nat));
        assert(10 * (pow10(a) * pow10((b - 1) as nat)) == pow10(a) * (10 * pow10((b - 1) as nat)))
            by (nonlinear_arith);
    } else {
        assert(pow10(0) == 1);
    }
}

proof fn lemma_pow10_mono(a: nat, b: nat)
    requires
        a <= b,
    ensures
        pow10(a) <= pow10(b),
{
    lemma_pow10_add(a, (b - a) as nat);
    lemma_pow10_positive((b - a) as nat);
    lemma_pow10_positive(a);
    assert(pow10(a) * pow10((b - a) as nat) >= pow10(a)) by (nonlinear_arith)
        requires
            pow10((b - a) as nat) >= 1,
            pow10(a) >= 1,
    ;
}

proof fn lemma_pow10_ten()
    ensures
        pow10(10) == 10000000000,
{
    reveal_with_fuel(pow10, 11);
}

/// The value of the integer `digits`, stopped at `2^70`.
fn capped_exponent(digits: &Vec<char>) -> (e: u128)
    requires
        all_digits(digits@),
    ensures
        e == if decimal_value(digits@) < 0x40_0000_0000_0000_0000 { decimal_value(digits@) } else { 0x40_0000_0000_0000_0000 },
{
    let ghost ds = digits@;
    let cap: u128 = 0x40_0000_0000_0000_0000;
    let mut h: u128 = 0;
    let mut j: usize = 0;
    while j < digits.len()
        invariant
            ds == digits@,
            all_digits(ds),
            j <= ds.len(),
            cap == 0x40_0000_0000_0000_0000,
            h <= cap,
            h == if decimal_value(ds.take(j as int)) < cap { decimal_value(ds.take(j as int)) } else { cap as nat },
        decreases ds.len() - j,
    {
        let c = digits[j];
        assert(is_digit(ds[j as int]));
        assert(ds.take(j + 1).drop_last() =~= ds.take(j as int));
        let dv: u128 = c as u128 - '0' as u128;
        assert(dv <= 9);
        let nh = h * 10 + dv;
        h = if nh < cap { nh } else { cap };
        j = j + 1;
    }
    assert(ds.take(ds.len() as int) =~= ds);
    h
}

/// `len` scaled by a finite percentage, as `scale_len` states.
fn scale_percent(
    len: u32,
    negative: bool,
    digits: &Vec<char>,
    frac: usize,
    exp_negative: bool,
    exp_digits: &Vec<char>,
) -> (r: u32)
    requires
        all_digits(digits@),
        all_digits(exp_digits@),
        frac <= digits@.len(),
    ensures
        r == scale_len(
            len,
            negative,
            digits@,
            frac as nat,
            if exp_negative { -decimal_value(exp_digits@) } else { decimal_value(exp_digits@) as int },
        ),
{
    if negative {
        return 0;
    }
    let ghost big_e = decimal_value(exp_digits@) as int;
    let ghost x = if exp_negative { -big_e } else { big_e };
    let ghost sh = x - frac - 2;
    let ghost w = len as int;
    let ghost d = decimal_value(digits@) as int;
    let e = capped_exponent(exp_digits);
    let n = digits.len();
    assert(n as int <= 0xffff_ffff_ffff_ffff);
    let k: i128 = if exp_negative {
        frac as i128 + 2 + e as i128
    } else {
        frac as i128 + 2 - e as i128
    };
    if k > n as i128 + 10 {
        proof {
            assert(-sh >= k);
            lemma_value_bound(digits@);
            lemma_pow10_ten();
            lemma_pow10_add(10, n as nat);
            lemma_pow10_mono((n + 10) as nat, (-sh) as nat);
            assert(w * d < pow10((n + 10) as nat)) by (nonlinear_arith)
                requires
                    0 <= w < 10000000000,
                    0 <= d < pow10(n as nat),
                    pow10((n + 10) as nat) == 10000000000 * pow10(n as nat),
            ;
            assert(w * d >= 0) by (nonlinear_arith)
                requires
                    w >= 0,
                    d >= 0,
            ;
            lemma_basic_div(w * d, pow10((-sh) as nat) as int);
        }
        return 0;
    }
    if k >= 0 {
        assert(-sh == k);
        if k <= n as i128 {
            let r = scale_down(len, digits, k as usize);
            proof {
                if k == 0 {
                    assert(pow10(0) == 1);
                    assert(w * d * 1 == w * d);
                    assert((w * d) / 1 == w * d);
                }
            }
            return r;
        }
        // fewer digits than the divisor's zeros: divide by the rest one at a time
        let r1 = scale_down(len, digits, n);
        proof {
            lemma_value_bound(digits@);
            lemma_pow10_positive(n as nat);
            lemma_scaled_le(w, d, pow10(n as nat) as int);
            assert(w * d >= 0) by (nonlinear_arith)
                requires
                    w >= 0,
                    d >= 0,
            ;
        }
        let extra: usize = (k - n as i128) as usize;
        let mut r: u32 = r1;
        let mut i: usize = 0;
        while i < extra
            invariant
                i <= extra,
                n + extra == k,
                w * d >= 0,
                r as int == (w * d) / pow10((n + i) as nat) as int,
            decreases extra - i,
        {
            proof {
                lemma_pow10_positive((n + i) as nat);
                lemma_div_denominator(w * d, pow10((n + i) as nat) as int, 10);
                assert(pow10((n + i + 1) as nat) == 10 * pow10((n + i) as nat));
            }
            r = r / 10;
            i = i + 1;
        }
        return r;
    }
    let j: i128 = -k;
    if j >= 10 {
        let h = capped_value(digits);
        if len == 0 || h == 0 {
            proof {
                assert(w * d * pow10(sh as nat) == 0) by (nonlinear_arith)
                    requires
                        w == 0 || d == 0,
                ;
            }
            return 0;
        }
        proof {
            assert(sh >= 10);
            lemma_pow10_ten();
            lemma_pow10_mono(10, sh as nat);
            assert(w * d * pow10(sh as nat) >= pow10(sh as nat)) by (nonlinear_arith)
                requires
                    w >= 1,
                    d >= 1,
                    pow10(sh as nat) >= 0,
            ;
        }
        return u32::MAX;
    }
    assert(sh == j);
    scale_up(len, digits, j as usize)
}

/// A percentage as written: its sign, its digits with the point left out,
/// how many of those digits follow the point, and the exponent's sign and
/// digits (none where no exponent is written).
#[derive(Debug, Clone)]
pub struct Percent {
    pub negative: bool,
    pub digits: Vec<char>,
    pub frac_len: usize,
    pub exp_negative: bool,
    pub exp_digits: Vec<char>,
}

/// A parsed size expression, reused for every image of a run.
#[derive(Debug, Clone)]
pub enum SizeSpec {
    /// Scale each image by a finite percentage of its own size.
    Percentage(Percent),
    /// An infinite percentage, negative where the flag holds.
    InfinitePercentage(bool),
    /// A percentage that is not a number.
    NanPercentage,
    /// Give every image the same width and height.
    Absolute(u32, u32),
}

impl SizeSpec {
    /// The digits of a percentage and of its exponent are ASCII digits, and
    /// no more of them follow the point than there are.
    pub open spec fn wf(&self) -> bool {
        match self {
            SizeSpec::Percentage(p) => all_digits(p.digits@) && p.frac_len <= p.digits@.len()
                && all_digits(p.exp_digits@),
            _ => true,
        }
    }

    /// What this size expression means.
    pub open spec fn model(&self) -> SizeModel {
        match self {
            SizeSpec::Percentage(p) => SizeModel::Percentage {
                negative: p.negative,
                digits: p.digits@,
                frac: p.frac_len as nat,
                exp: if p.exp_negative {
                    -decimal_value(p.exp_digits@)
                } else {
                    decimal_value(p.exp_digits@) as int
                },
            },
            SizeSpec::InfinitePercentage(negative) => SizeModel::Infinite { negative: *negative },
            SizeSpec::NanPercentage => SizeModel::NotANumber,
            SizeSpec::Absolute(w, h) => SizeModel::Absolute { width: *w, height: *h },
        }
    }

    /// The target dimensions for an image of `width` by `height`.
    pub fn target_dims(&self, width: u32, height: u32) -> (r: (u32, u32))
        requires
            self.wf(),
        ensures
            r == target_spec(self.model(), width, height),
    {
        match self {
            SizeSpec::Percentage(p) => (
                scale_percent(width, p.negative, &p.digits, p.frac_len, p.exp_negative, &p.exp_digits),
                scale_percent(height, p.negative, &p.digits, p.frac_len, p.exp_negative, &p.exp_digits),
            ),
            SizeSpec::InfinitePercentage(negative) => (
                if *negative || width == 0 { 0 } else { u32::MAX },
                if *negative || height == 0 { 0 } else { u32::MAX },
            ),
            SizeSpec::NanPercentage => (0, 0),
            SizeSpec::Absolute(w, h) => (*w, *h),
        }
    }
}

/// The index of the first `e` or `E` in `v[lo..hi]`, or `hi`.
fn find_exp_mark(v: &Vec<char>, lo: usize, hi: usize) -> (r: usize)
    requires
        lo <= hi <= v@.len(),
    ensures
        lo <= r <= hi,
        r == lo + first_exp_mark(v@.subrange(lo as int, hi as int)),
{
    let mut f: usize = lo;
    let mut j: usize = lo;
    assert(v@.subrange(lo as int, lo as int).len() == 0);
    while j < hi
        invariant
            lo <= f <= j <= hi <= v@.len(),
            f == lo + first_exp_mark(v@.subrange(lo as int, j as int)),
        decreases hi - j,
    {
        assert(v@.subrange(lo as int, j + 1).drop_last() =~= v@.subrange(lo as int, j as int));
        assert(v@.subrange(lo as int, j + 1).last() == v@[j as int]);
        if f == j && !(v[j] == 'e' || v[j] == 'E') {
            f = j + 1;
        }
        j = j + 1;
    }
    f
}

/// A copy of `v[lo..hi]`, and whether it is all ASCII digits.
fn copy_digits(v: &Vec<char>, lo: usize, hi: usize) -> (r: (Vec<char>, bool))
    requires
        lo <= hi <= v@.len(),
    ensures
        r.0@ == v@.subrange(lo as int, hi as int),
        r.1 == all_digits(v@.subrange(lo as int, hi as int)),
{
    let mut out: Vec<char> = Vec::new();
    let mut ok = true;
    let mut j: usize = lo;
    while j < hi
        invariant
            lo <= j <= hi <= v@.len(),
            out@ == v@.subrange(lo as int, j as int),
            ok == all_digits(out@),
        decreases hi - j,
    {
        let c = v[j];
        let ghost prev = out@;
        out.push(c);
        if !char_is_digit(c) {
            assert(out@[prev.len() as int] == c);
            ok = false;
        } else {
            proof {
                if ok {
                    assert forall|i: int| 0 <= i < out@.len() implies is_digit(#[trigger] out@[i]) by {
                        if i < prev.len() {
                            assert(out@[i] == prev[i]);
                        }
                    }
                } else {
                    let i = choose|i: int| 0 <= i < prev.len() && !is_digit(#[trigger] prev[i]);
                    assert(out@[i] == prev[i]);
                }
            }
        }
        j = j + 1;
        assert(out@ =~= v@.subrange(lo as int, j as int));
    }
    (out, ok)
}

/// Reads `v[lo..e]` as a percentage.
#[verifier::rlimit(80)]
fn parse_percent_range(v: &Vec<char>, lo: usize, e: usize) -> (r: Result<SizeSpec, ResizeError>)
    requires
        lo <= e <= v@.len(),
    ensures
        match r {
            Ok(sp) => sp.wf() && parse_percent(v@.subrange(lo as int, e as int)) == Ok::<SizeModel, ResizeError>(sp.model()),
            Err(er) => parse_percent(v@.subrange(lo as int, e as int)) == Err::<SizeModel, ResizeError>(er),
        },
{
    let ghost u = v@.subrange(lo as int, e as int);
    let negative = lo < e && v[lo] == '-';
    let st: usize = if lo < e && (v[lo] == '+' || v[lo] == '-') { lo + 1 } else { lo };
    let ghost b = v@.subrange(st as int, e as int);
    assert(unsigned_part(u) =~= b);
    assert(negative == is_negative(u));
    let inf: Vec<char> = vec!['i', 'n', 'f'];
    let infinity: Vec<char> = vec!['i', 'n', 'f', 'i', 'n', 'i', 't', 'y'];
    let nan: Vec<char> = vec!['n', 'a', 'n'];
    assert(inf@ == seq!['i', 'n', 'f']);
    assert(infinity@ == seq!['i', 'n', 'f', 'i', 'n', 'i', 't', 'y']);
    assert(nan@ == seq!['n', 'a', 'n']);
    if spells_range(v, st, e, &inf) || spells_range(v, st, e, &infinity) {
        return Ok(SizeSpec::InfinitePercentage(negative));
    }
    if spells_range(v, st, e, &nan) {
        return Ok(SizeSpec::NanPercentage);
    }
    let i = find_exp_mark(v, st, e);
    assert(b.take(i - st) =~= v@.subrange(st as int, i as int));
    let (digits, _dot, frac, ok) = scan_decimal_range(v, st, i);
    proof {
        lemma_scan_digits(b.take(i - st));
        lemma_scan_frac_le(b.take(i - st));
    }
    if !(ok && digits.len() > 0) {
        return Err(ResizeError::InvalidSizeFormat);
    }
    if i == e {
        let exp_digits: Vec<char> = Vec::new();
        assert(decimal_value(exp_digits@) == 0);
        return Ok(
            SizeSpec::Percentage(
                Percent { negative, digits, frac_len: frac, exp_negative: false, exp_digits },
            ),
        );
    }
    let xs: usize = i + 1;
    let ghost x = v@.subrange(xs as int, e as int);
    assert(b.skip(i - st + 1) =~= x);
    let exp_negative = xs < e && v[xs] == '-';
    let xst: usize = if xs < e && (v[xs] == '+' || v[xs] == '-') { xs + 1 } else { xs };
    assert(unsigned_part(x) =~= v@.subrange(xst as int, e as int));
    let (exp_digits, all) = copy_digits(v, xst, e);
    if xst < e && all {
        Ok(
            SizeSpec::Percentage(
                Percent { negative, digits, frac_len: frac, exp_negative, exp_digits },
            ),
        )
    } else {
        Err(ResizeError::InvalidSizeFormat)
    }
}

/// Reads a size expression: `PERCENT%` or `WIDTHxHEIGHT`.
#[verifier::rlimit(80)]
pub fn parse_size_spec(size_str: &str) -> (r: Result<SizeSpec, ResizeError>)
    ensures
        match r {
            Ok(sp) => sp.wf() && parse_spec(size_str@) == Ok::<SizeModel, ResizeError>(sp.model()),
            Err(e) => parse_spec(size_str@) == Err::<SizeModel, ResizeError>(e),
        },
{
    let v = chars_of(size_str);
    let ghost s = v@;
    let n = v.len();
    let mut hi: usize = n;
    assert(s.take(n as int) =~= s);
    while hi > 0 && char_is_space(v[hi - 1])
        invariant
            hi <= n == s.len(),
            s == v@,
            trim_end(s) == trim_end(s.take(hi as int)),
        decreases hi,
    {
        assert(s.take(hi as int).drop_last() =~= s.take(hi - 1));
        hi = hi - 1;
    }
    assert(trim_end(s) == s.take(hi as int));
    let mut lo: usize = 0;
    assert(s.subrange(0, hi as int) =~= s.take(hi as int));
    while lo < hi && char_is_space(v[lo])
        invariant
            lo <= hi <= n == s.len(),
            s == v@,
            trimmed(s) == trim_start(s.subrange(lo as int, hi as int)),
        decreases hi - lo,
    {
        assert(s.subrange(lo as int, hi as int).drop_first() =~= s.subrange(lo + 1, hi as int));
        lo = lo + 1;
    }
    let ghost t = s.subrange(lo as int, hi as int);
    assert(trimmed(s) == t);
    if lo < hi && v[hi - 1] == '%' {
        let mut e: usize = hi;
        while e > lo && v[e - 1] == '%'
            invariant
                lo <= e <= hi <= n == s.len(),
                s == v@,
                t == s.subrange(lo as int, hi as int),
                t.len() > 0 && t.last() == '%',
                strip_percent(t) == strip_percent(s.subrange(lo as int, e as int)),
            decreases e,
        {
            assert(s.subrange(lo as int, e as int).drop_last() =~= s.subrange(lo as int, e - 1));
            e = e - 1;
        }
        assert(strip_percent(s.subrange(lo as int, e as int)) == s.subrange(lo as int, e as int));
        parse_percent_range(&v, lo, e)
    } else {
        let (count, i) = find_x(&v);
        if count == 1 {
            assert(i < n) by {
                lemma_first_x_in_range(s);
            }
            let w = parse_u32_range(&v, 0, i);
            let h = parse_u32_range(&v, i + 1, n);
            assert(s.subrange(0, i as int) =~= s.take(i as int));
            assert(s.subrange(i + 1, n as int) =~= s.skip(i + 1));
            match (w, h) {
                (Some(w), Some(h)) => Ok(SizeSpec::Absolute(w, h)),
                _ => Err(ResizeError::InvalidDimension),
            }
        } else {
            Err(ResizeError::InvalidSizeFormat)
        }
    }
}

/// The target dimensions that `size_str` gives for an image of
/// `orig_width` by `orig_height`.
///
/// `P%` (tested after trimming white space) scales both sides by `P / 100`
/// and rounds toward zero, exactly, exponents included. A negative `P` or
/// `nan` gives zero, `inf` gives `u32::MAX` for a non-zero side, and a side
/// past `u32::MAX` stops there. `WxH` gives `(W, H)` whatever the original
/// size.
pub fn parse_size(size_str: &str, orig_width: u32, orig_height: u32) -> (r: Result<(u32, u32), ResizeError>)
    ensures
        r == resolve_spec(size_str@, orig_width, orig_height),
{
    match parse_size_spec(size_str) {
        Ok(sp) => Ok(sp.target_dims(orig_width, orig_height)),
        Err(e) => Err(e),
    }
}

proof fn lemma_scan_frac_le(s: Seq<char>)
    ensures
        scan_decimal(s).2 <= scan_decimal(s).0.len(),
    decreases s.len(),
{
    if s.len() > 0 {
        lemma_scan_frac_le(s.drop_last());
    }
}

proof fn lemma_first_x_in_range(s: Seq<char>)
    requires
        count_x(s) > 0,
    ensures
        0 <= first_x(s) < s.len(),
    decreases s.len(),
{
    if count_x(s.drop_last()) > 0 {
        lemma_first_x_in_range(s.drop_last());
    }
}

// ---- laws ----

/// A number written with digits `a`, then, where `b` is not empty, a point
/// and the digits `b`.
pub open spec fn written_decimal(a: Seq<char>, b: Seq<char>) -> Seq<char> {
    if b.len() == 0 {
        a
    } else {
        a + seq!['.'] + b
    }
}

proof fn lemma_scan_append_digits(p: Seq<char>, q: Seq<char>)
    requires
        all_digits(q),
    ensures
        ({
            let sp = scan_decimal(p);
            scan_decimal(p + q) == (
                sp.0 + q,
                sp.1,
                if sp.1 { sp.2 + q.len() } else { sp.2 },
                sp.3,
            )
        }),
    decreases q.len(),
{
    if q.len() == 0 {
        assert(p + q =~= p);
        assert(scan_decimal(p).0 + q =~= scan_decimal(p).0);
    } else {
        let ql = q.drop_last();
        assert(all_digits(ql)) by {
            assert forall|i: int| 0 <= i < ql.len() implies is_digit(#[trigger] ql[i]) by {
                assert(ql[i] == q[i]);
            }
        }
        lemma_scan_append_digits(p, ql);
        assert((p + q).drop_last() =~= p + ql);
        assert((p + q).last() == q.last());
        assert(is_digit(q[q.len() - 1]));
        assert((scan_decimal(p).0 + ql).push(q.last()) =~= scan_decimal(p).0 + q);
    }
}

proof fn lemma_count_x_concat(p: Seq<char>, q: Seq<char>)
    ensures
        count_x(p + q) == count_x(p) + count_x(q),
    decreases q.len(),
{
    if q.len() == 0 {
        assert(p + q =~= p);
    } else {
        lemma_count_x_concat(p, q.drop_last());
        assert((p + q).drop_last() =~= p + q.drop_last());
        assert((p + q).last() == q.last());
    }
}

proof fn lemma_first_x_concat(p: Seq<char>, q: Seq<char>)
    requires
        count_x(p) > 0,
    ensures
        first_x(p + q) == first_x(p),
    decreases q.len(),
{
    if q.len() == 0 {
        assert(p + q =~= p);
    } else {
        lemma_first_x_concat(p, q.drop_last());
        assert((p + q).drop_last() =~= p + q.drop_last());
        lemma_count_x_concat(p, q.drop_last());
    }
}

proof fn lemma_digits_no_x(a: Seq<char>)
    requires
        all_digits(a),
    ensures
        count_x(a) == 0,
    decreases a.len(),
{
    if a.len() > 0 {
        let al = a.drop_last();
        assert(all_digits(al)) by {
            assert forall|i: int| 0 <= i < al.len() implies is_digit(#[trigger] al[i]) by {
                assert(al[i] == a[i]);
            }
        }
        lemma_digits_no_x(al);
        assert(is_digit(a[a.len() - 1]));
    }
}

/// A positive percentage `P%` written in digits, with or without a decimal
/// point, gives each side `floor(side * P / 100)`, wherever that fits in `u32`.
/// Here `P` is the integer written by `a` then `b`, over ten to the power of
/// the length of `b`.
#[verifier::rlimit(80)]
pub proof fn lemma_percentage_scales(a: Seq<char>, b: Seq<char>, w: u32, h: u32)
    requires
        a.len() > 0,
        all_digits(a),
        all_digits(b),
        decimal_value(a + b) > 0,
        (w as int * decimal_value(a + b)) / (100 * pow10(b.len())) as int <= u32::MAX,
        (h as int * decimal_value(a + b)) / (100 * pow10(b.len())) as int <= u32::MAX,
    ensures
        resolve_spec(written_decimal(a, b).push('%'), w, h) == Ok::<(u32, u32), ResizeError>(
            (
                ((w as int * decimal_value(a + b)) / (100 * pow10(b.len())) as int) as u32,
                ((h as int * decimal_value(a + b)) / (100 * pow10(b.len())) as int) as u32,
            ),
        ),
{
    let t = written_decimal(a, b);
    let s = t.push('%');
    assert(s.drop_last() =~= t);
    assert(t.len() > 0 && t[0] == a[0]);
    assert(is_digit(a[0]));
    assert(t.last() != '%') by {
        if b.len() == 0 {
            assert(is_digit(a[a.len() - 1]));
        } else {
            assert(t.last() == b.last());
            assert(is_digit(b[b.len() - 1]));
        }
    }
    assert(strip_percent(t) == t);
    assert(s.last() == '%');
    assert(strip_percent(s) == strip_percent(s.drop_last()));
    assert(unsigned_part(t) == t);
    assert(!is_space(s.last()));
    assert(trim_end(s) == s);
    assert(s[0] == a[0]);
    assert(!is_space(s[0]));
    assert(trim_start(s) == s);
    assert(trimmed(s) == s);
    assert(!spells(t, seq!['i', 'n', 'f']) && !spells(t, seq!['i', 'n', 'f', 'i', 'n', 'i', 't', 'y'])
        && !spells(t, seq!['n', 'a', 'n'])) by {
        assert(!same_letter_any_case(t[0], 'i'));
        assert(!same_letter_any_case(t[0], 'n'));
    }
    assert forall|i: int| 0 <= i < t.len() implies !is_exp_mark(#[trigger] t[i]) by {
        if b.len() == 0 || i < a.len() {
            assert(t[i] == a[i]);
            assert(is_digit(a[i]));
        } else if i > a.len() {
            assert(t[i] == b[i - a.len() - 1]);
            assert(is_digit(b[i - a.len() - 1]));
        }
    }
    lemma_no_exp_mark(t);
    assert(t.take(t.len() as int) =~= t);
    lemma_pow10_add2(b.len());
    lemma_scan_append_digits(Seq::<char>::empty(), a);
    assert(Seq::<char>::empty() + a =~= a);
    if b.len() == 0 {
        assert(a + b =~= a);
        assert(pow10(0) == 1);
    } else {
        let ad = a + seq!['.'];
        assert(ad.drop_last() =~= a);
        assert(scan_decimal(ad) == (a, true, 0nat, true));
        lemma_scan_append_digits(ad, b);
        assert(t == ad + b);
    }
    let sc = scan_decimal(t);
    assert(sc.0 == a + b && sc.2 == b.len() && sc.3);
    assert(first_exp_mark(t) == t.len());
    let m = SizeModel::Percentage { negative: false, digits: a + b, frac: b.len(), exp: 0 };
    assert(!is_negative(t));
    assert(parse_percent(t) == Ok::<SizeModel, ResizeError>(m));
    assert(parse_spec(s) == Ok::<SizeModel, ResizeError>(m));
    let k = (b.len() + 2) as nat;
    assert(((-(0 - b.len() - 2)) as nat) == k);
    assert(pow10(k) == 100 * pow10(b.len()));
    lemma_pow10_positive(k);
    let dv = decimal_value(a + b) as int;
    assert(w as int * dv >= 0 && h as int * dv >= 0) by (nonlinear_arith)
        requires
            dv >= 0,
    ;
    lemma_div_pos_is_pos(w as int * dv, pow10(k) as int);
    lemma_div_pos_is_pos(h as int * dv, pow10(k) as int);
    assert(scale_len(w, false, a + b, b.len(), 0) == ((w as int * dv) / (100 * pow10(b.len())) as int) as u32);
    assert(scale_len(h, false, a + b, b.len(), 0) == ((h as int * dv) / (100 * pow10(b.len())) as int) as u32);
}

/// `WxH`, with `W` and `H` written in digits and each fitting in `u32`, gives
/// `(W, H)` whatever the original size.
pub proof fn lemma_absolute_size(a: Seq<char>, b: Seq<char>, w: u32, h: u32)
    requires
        a.len() > 0,
        b.len() > 0,
        all_digits(a),
        all_digits(b),
        decimal_value(a) <= u32::MAX,
        decimal_value(b) <= u32::MAX,
    ensures
        resolve_spec(a + seq!['x'] + b, w, h) == Ok::<(u32, u32), ResizeError>(
            (decimal_value(a) as u32, decimal_value(b) as u32),
        ),
{
    let ax = a + seq!['x'];
    let s = ax + b;
    assert(s.last() == b.last());
    assert(is_digit(b[b.len() - 1]));
    lemma_digits_no_x(a);
    lemma_digits_no_x(b);
    assert(ax.drop_last() =~= a);
    assert(count_x(ax) == 1);
    assert(first_x(ax) == a.len());
    lemma_count_x_concat(ax, b);
    lemma_first_x_concat(ax, b);
    assert(s.take(a.len() as int) =~= a);
    assert(s.skip(a.len() as int + 1) =~= b);
    assert(is_digit(a[0]));
    assert(is_digit(b[0]));
}

proof fn lemma_no_exp_mark(s: Seq<char>)
    requires
        forall|i: int| 0 <= i < s.len() ==> !is_exp_mark(#[trigger] s[i]),
    ensures
        first_exp_mark(s) == s.len(),
    decreases s.len(),
{
    if s.len() > 0 {
        let sl = s.drop_last();
        assert forall|i: int| 0 <= i < sl.len() implies !is_exp_mark(#[trigger] sl[i]) by {
            assert(sl[i] == s[i]);
        }
        lemma_no_exp_mark(sl);
        assert(!is_exp_mark(s[s.len() - 1]));
    }
}

} // verus!
