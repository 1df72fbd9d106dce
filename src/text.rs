use vstd::prelude::*;

verus! {

/// Is `c` one of the ASCII digits `0` to `9`?
pub open spec fn is_digit(c: char) -> bool {
    '0' <= c && c <= '9'
}

/// The numeric value of an ASCII digit.
pub open spec fn digit_value(c: char) -> nat {
    (c as int - '0' as int) as nat
}

/// The value of a string of decimal digits, most significant first.
pub open spec fn decimal_value(s: Seq<char>) -> nat
    decreases s.len(),
{
    if s.len() == 0 {
        0
    } else {
        decimal_value(s.drop_last()) * 10 + digit_value(s.last())
    }
}

/// `c` equals the lower-case ASCII letter `t`, or its upper-case form.
pub open spec fn same_letter_any_case(c: char, t: char) -> bool {
    c == t || (c as int) + 32 == t as int
}

/// The characters of `s`, one per element.
pub fn chars_of(s: &str) -> (r: Vec<char>)
    ensures
        r@ == s@,
{
    let n = s.unicode_len();
    let mut r: Vec<char> = Vec::new();
    let mut i: usize = 0;
    while i < n
        invariant
            n == s@.len(),
            i <= n,
            r@ == s@.take(i as int),
        decreases n - i,
    {
        r.push(s.get_char(i));
        i = i + 1;
        assert(r@ =~= s@.take(i as int));
    }
    assert(r@ =~= s@);
    r
}

/// Is `c` an ASCII digit?
pub fn char_is_digit(c: char) -> (r: bool)
    ensures
        r == is_digit(c),
{
    '0' <= c && c <= '9'
}

/// Compares `c` with the lower-case ASCII letter `t`, ignoring ASCII case.
pub fn char_matches_letter(c: char, t: char) -> (r: bool)
    requires
        'a' <= t && t <= 'z',
    ensures
        r == same_letter_any_case(c, t),
{
    c == t || (c as u32) + 32 == t as u32
}

/// White space as `char::is_whitespace` defines it (Unicode `White_Space`).
pub open spec fn is_space(c: char) -> bool {
    ('\u{9}' <= c && c <= '\u{d}') || c == ' ' || c == '\u{85}' || c == '\u{a0}' || c == '\u{1680}'
        || ('\u{2000}' <= c && c <= '\u{200a}') || c == '\u{2028}' || c == '\u{2029}'
        || c == '\u{202f}' || c == '\u{205f}' || c == '\u{3000}'
}

/// Is `c` white space?
pub fn char_is_space(c: char) -> (r: bool)
    ensures
        r == is_space(c),
{
    ('\u{9}' <= c && c <= '\u{d}') || c == ' ' || c == '\u{85}' || c == '\u{a0}' || c == '\u{1680}'
        || ('\u{2000}' <= c && c <= '\u{200a}') || c == '\u{2028}' || c == '\u{2029}'
        || c == '\u{202f}' || c == '\u{205f}' || c == '\u{3000}'
}

/// `e` spells the lower-case word `word`, ignoring ASCII case.
pub open spec fn spells(e: Seq<char>, word: Seq<char>) -> bool {
    e.len() == word.len() && forall|i: int| 0 <= i < e.len() ==> same_letter_any_case(e[i], word[i])
}

/// Does `v[lo..hi]` spell the lower-case ASCII word `word`, ignoring case?
pub fn spells_range(v: &Vec<char>, lo: usize, hi: usize, word: &Vec<char>) -> (r: bool)
    requires
        lo <= hi <= v@.len(),
        forall|i: int| 0 <= i < word@.len() ==> 'a' <= #[trigger] word@[i] && word@[i] <= 'z',
    ensures
        r == spells(v@.subrange(lo as int, hi as int), word@),
{
    let ghost e = v@.subrange(lo as int, hi as int);
    if hi - lo != word.len() {
        return false;
    }
    let n = v.len();
    let mut i: usize = 0;
    while i < word.len()
        invariant
            n == v@.len(),
            e == v@.subrange(lo as int, hi as int),
            lo <= hi <= v@.len(),
            e.len() == word@.len(),
            word@.len() == hi - lo,
            i <= word@.len(),
            forall|k: int| 0 <= k < word@.len() ==> 'a' <= #[trigger] word@[k] && word@[k] <= 'z',
            forall|k: int| 0 <= k < i ==> same_letter_any_case(e[k], word@[k]),
        decreases word@.len() - i,
    {
        assert(e[i as int] == v@[lo + i]);
        let k: usize = lo + i;
        if !char_matches_letter(v[k], word[i]) {
            return false;
        }
        i = i + 1;
    }
    true
}

} // verus!
