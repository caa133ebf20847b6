//! Dice-notation parsing.
//!
//! A dice expression is written `<count>d<sides-or-F><optional signed modifier>`,
//! for example `2d6`, `4dF` or `1d20+5`. As with the usual pattern-matching
//! reading of the notation, the expression may stand anywhere inside the input
//! string; the leftmost occurrence is the one that counts.

use vstd::prelude::*;
use vstd::string::StrSliceExecFns;

verus! {

/// The kind of die named by the notation: a standard die with a fixed number
/// of sides, or a Fudge die with the three faces -1, 0 and +1.
#[derive(Clone, Copy, PartialEq, Eq, Structural, Debug)]
pub enum DieSides {
    Standard(u32),
    Fudge,
}

/// A parsed dice expression: roll `count` dice of kind `sides`, then add
/// `modifier` to the total.
#[derive(Clone, Copy, PartialEq, Eq, Structural, Debug)]
pub struct DieSpec {
    pub count: u32,
    pub sides: DieSides,
    pub modifier: i32,
}

impl DieSpec {
    /// A die specification is well formed when a standard die has at least
    /// one side; a Fudge die always is.
    pub open spec fn wf(self) -> bool {
        match self.sides {
            DieSides::Standard(s) => s >= 1,
            DieSides::Fudge => true,
        }
    }
}

/// The library's one error: the input holds no well-formed dice expression.
#[derive(Clone, Copy, PartialEq, Eq, Structural, Debug)]
pub struct ParseError;

/// The text shown to the user when the notation is rejected.
pub open spec fn invalid_format_msg() -> Seq<char> {
    "Invalid dice format! Use XdX or XdF"@
}

impl ParseError {
    /// The fixed diagnostic message for a rejected input.
    pub fn message(&self) -> (m: &'static str)
        ensures
            m@ == invalid_format_msg(),
    {
        "Invalid dice format! Use XdX or XdF"
    }
}

/// A decimal digit, `'0'` through `'9'`.
pub open spec fn is_digit(c: char) -> bool {
    ('0' as u32) <= (c as u32) && (c as u32) <= ('9' as u32)
}

/// The numeric value of a decimal digit.
pub open spec fn digit_val(c: char) -> int {
    (c as u32) - ('0' as u32)
}

/// The length of the run of decimal digits of `s` that starts at index `i`.
pub open spec fn digit_run_len(s: Seq<char>, i: int) -> int
    decreases s.len() - i,
{
    if i < 0 || i >= s.len() || !is_digit(s[i]) {
        0
    } else {
        1 + digit_run_len(s, i + 1)
    }
}

/// The value of a string of decimal digits, most significant digit first.
pub open spec fn digits_val(s: Seq<char>) -> int
    decreases s.len(),
{
    if s.len() == 0 {
        0
    } else {
        10 * digits_val(s.drop_last()) + digit_val(s.last())
    }
}

/// A dice expression begins at index `i` of `s`: a nonempty digit run, the
/// letter `d`, then either another nonempty digit run or the letter `F`.
pub open spec fn match_at(s: Seq<char>, i: int) -> bool {
    &&& 0 <= i < s.len()
    &&& digit_run_len(s, i) >= 1
    &&& {
        let j = i + digit_run_len(s, i);
        &&& j < s.len()
        &&& s[j] == 'd'
        &&& (digit_run_len(s, j + 1) >= 1 || (j + 1 < s.len() && s[j + 1] == 'F'))
    }
}

/// The least index at or after `i` where a dice expression begins, if any.
pub open spec fn first_match_from(s: Seq<char>, i: int) -> Option<int>
    decreases s.len() - i,
{
    if i < 0 || i >= s.len() {
        None
    } else if match_at(s, i) {
        Some(i)
    } else {
        first_match_from(s, i + 1)
    }
}

/// The leftmost index of `s` where a dice expression begins, if any.
pub open spec fn first_match(s: Seq<char>) -> Option<int> {
    first_match_from(s, 0)
}

/// The count field of the expression at `i`: the digits before the `d`.
pub open spec fn count_str(s: Seq<char>, i: int) -> Seq<char> {
    s.subrange(i, i + digit_run_len(s, i))
}

/// The index just after the `d` of the expression at `i`.
pub open spec fn after_d(s: Seq<char>, i: int) -> int {
    i + digit_run_len(s, i) + 1
}

/// The expression at `i` names a Fudge die: no digits follow the `d`.
/// (A digit run is preferred over the literal `F` when both could start.)
pub open spec fn is_fudge_match(s: Seq<char>, i: int) -> bool {
    digit_run_len(s, after_d(s, i)) == 0
}

/// The sides field of the expression at `i`: the digits after the `d`.
pub open spec fn sides_str(s: Seq<char>, i: int) -> Seq<char> {
    s.subrange(after_d(s, i), after_d(s, i) + digit_run_len(s, after_d(s, i)))
}

/// The index just after the sides field of the expression at `i`.
pub open spec fn mod_start(s: Seq<char>, i: int) -> int {
    if is_fudge_match(s, i) {
        after_d(s, i) + 1
    } else {
        after_d(s, i) + digit_run_len(s, after_d(s, i))
    }
}

/// The expression at `i` carries a modifier: a sign followed by at least one
/// digit, immediately after the sides field.
pub open spec fn has_mod(s: Seq<char>, i: int) -> bool {
    let k = mod_start(s, i);
    &&& k < s.len()
    &&& (s[k] == '+' || s[k] == '-')
    &&& digit_run_len(s, k + 1) >= 1
}

/// The digits of the modifier of the expression at `i`.
pub open spec fn mod_str(s: Seq<char>, i: int) -> Seq<char> {
    let k = mod_start(s, i);
    s.subrange(k + 1, k + 1 + digit_run_len(s, k + 1))
}

/// The signed value of the modifier of the expression at `i`; zero when the
/// expression carries none.
pub open spec fn mod_val(s: Seq<char>, i: int) -> int {
    if has_mod(s, i) {
        if s[mod_start(s, i)] == '-' {
            -digits_val(mod_str(s, i))
        } else {
            digits_val(mod_str(s, i))
        }
    } else {
        0
    }
}

/// The count of the expression at `i`. A count whose digits exceed `u32::MAX`
/// fails to parse as a machine integer and falls back to one die.
pub open spec fn count_val(s: Seq<char>, i: int) -> int {
    let v = digits_val(count_str(s, i));
    if v <= u32::MAX {
        v
    } else {
        1
    }
}

/// What parsing an input string yields: `None` when no dice expression occurs
/// in it, when a standard die's sides are zero or too large for a machine
/// integer, or when the modifier is too large for one; otherwise the parsed
/// die specification, taken from the leftmost expression.
pub open spec fn parse_result(s: Seq<char>) -> Option<DieSpec> {
    match first_match(s) {
        Option::None => Option::None,
        Option::Some(i) => {
            let m = mod_val(s, i);
            if !(i32::MIN <= m <= i32::MAX) {
                Option::None
            } else if is_fudge_match(s, i) {
                Option::Some(
                    DieSpec {
                        count: count_val(s, i) as u32,
                        sides: DieSides::Fudge,
                        modifier: m as i32,
                    },
                )
            } else {
                let sv = digits_val(sides_str(s, i));
                if 1 <= sv <= u32::MAX {
                    Option::Some(
                        DieSpec {
                            count: count_val(s, i) as u32,
                            sides: DieSides::Standard(sv as u32),
                            modifier: m as i32,
                        },
                    )
                } else {
                    Option::None
                }
            }
        },
    }
}

/// A digit run is made of digits, has nonnegative length, and stays inside
/// the string.
pub proof fn lemma_run_bounds(s: Seq<char>, i: int)
    requires
        0 <= i <= s.len(),
    ensures
        0 <= digit_run_len(s, i),
        i + digit_run_len(s, i) <= s.len(),
        forall|k: int| i <= k < i + digit_run_len(s, i) ==> is_digit(s[k]),
    decreases s.len() - i,
{
    if i < s.len() && is_digit(s[i]) {
        lemma_run_bounds(s, i + 1);
    }
}

/// Walking over a stretch of digits shortens the remaining run by just that
/// stretch.
proof fn lemma_run_extends(s: Seq<char>, i: int, e: int)
    requires
        0 <= i <= e <= s.len(),
        forall|k: int| i <= k < e ==> is_digit(s[k]),
    ensures
        digit_run_len(s, i) == (e - i) + digit_run_len(s, e),
    decreases e - i,
{
    if i < e {
        lemma_run_extends(s, i + 1, e);
    }
}

proof fn lemma_first_match_some(s: Seq<char>, lo: int, i: int)
    requires
        0 <= lo <= i,
        match_at(s, i),
        forall|k: int| lo <= k < i ==> !match_at(s, k),
    ensures
        first_match_from(s, lo) == Some(i),
    decreases i - lo,
{
    if lo < i {
        lemma_first_match_some(s, lo + 1, i);
    }
}

proof fn lemma_first_match_none(s: Seq<char>, lo: int)
    requires
        0 <= lo,
        forall|k: int| lo <= k ==> !match_at(s, k),
    ensures
        first_match_from(s, lo) is None,
    decreases s.len() - lo,
{
    if lo < s.len() {
        lemma_first_match_none(s, lo + 1);
    }
}

/// The value of a string of digits is never negative.
pub proof fn lemma_digits_val_nonneg(s: Seq<char>)
    requires
        forall|k: int| 0 <= k < s.len() ==> is_digit(#[trigger] s[k]),
    ensures
        digits_val(s) >= 0,
    decreases s.len(),
{
    if s.len() > 0 {
        lemma_digits_val_nonneg(s.drop_last());
    }
}

/// Parsing a plain standard notation: a string `<count>d<sides>`, both
/// fields nonempty runs of digits whose values fit the machine's integers
/// and with at least one side, yields exactly that count and those sides,
/// and no modifier.
pub proof fn lemma_parse_standard(s: Seq<char>, c: Seq<char>, m: Seq<char>)
    requires
        s == c + seq!['d'] + m,
        c.len() >= 1,
        m.len() >= 1,
        forall|k: int| 0 <= k < c.len() ==> is_digit(#[trigger] c[k]),
        forall|k: int| 0 <= k < m.len() ==> is_digit(#[trigger] m[k]),
        digits_val(c) <= u32::MAX,
        1 <= digits_val(m) <= u32::MAX,
    ensures
        parse_result(s) == Some(
            DieSpec {
                count: digits_val(c) as u32,
                sides: DieSides::Standard(digits_val(m) as u32),
                modifier: 0,
            },
        ),
{
    let n = s.len() as int;
    let cl = c.len() as int;
    let ml = m.len() as int;
    assert(n == cl + 1 + ml);
    assert(forall|k: int| 0 <= k < cl ==> s[k] == c[k]);
    assert(s[cl] == 'd');
    assert(forall|k: int| 0 <= k < ml ==> s[cl + 1 + k] == m[k]);
    assert(!is_digit('d'));
    assert(forall|k: int| 0 <= k < cl ==> is_digit(s[k]));
    assert(forall|k: int| cl + 1 <= k < n ==> is_digit(s[k])) by {
        assert(forall|k: int| cl + 1 <= k < n ==> s[k] == m[k - cl - 1]);
    }
    lemma_run_extends(s, 0, cl);
    assert(digit_run_len(s, cl) == 0);
    assert(digit_run_len(s, 0) == cl);
    lemma_run_extends(s, cl + 1, n);
    assert(digit_run_len(s, n) == 0);
    assert(digit_run_len(s, cl + 1) == ml);
    assert(match_at(s, 0));
    lemma_first_match_some(s, 0, 0);
    assert(count_str(s, 0) =~= c);
    assert(after_d(s, 0) == cl + 1);
    assert(!is_fudge_match(s, 0));
    assert(sides_str(s, 0) =~= m);
    assert(mod_start(s, 0) == n);
    assert(!has_mod(s, 0));
    assert(mod_val(s, 0) == 0);
    assert(count_val(s, 0) == digits_val(c));
}

/// Parsing a standard notation with a signed modifier suffix: a string
/// `<count>d<sides><sign><digits>` yields that modifier with its sign,
/// beside the count and the sides.
pub proof fn lemma_parse_with_modifier(
    s: Seq<char>,
    c: Seq<char>,
    m: Seq<char>,
    sign: char,
    g: Seq<char>,
)
    requires
        s == c + seq!['d'] + m + seq![sign] + g,
        sign == '+' || sign == '-',
        c.len() >= 1,
        m.len() >= 1,
        g.len() >= 1,
        forall|k: int| 0 <= k < c.len() ==> is_digit(#[trigger] c[k]),
        forall|k: int| 0 <= k < m.len() ==> is_digit(#[trigger] m[k]),
        forall|k: int| 0 <= k < g.len() ==> is_digit(#[trigger] g[k]),
        digits_val(c) <= u32::MAX,
        1 <= digits_val(m) <= u32::MAX,
        sign == '+' ==> digits_val(g) <= i32::MAX,
        sign == '-' ==> digits_val(g) <= 0x8000_0000,
    ensures
        parse_result(s) == Some(
            DieSpec {
                count: digits_val(c) as u32,
                sides: DieSides::Standard(digits_val(m) as u32),
                modifier: (if sign == '-' {
                    -digits_val(g)
                } else {
                    digits_val(g)
                }) as i32,
            },
        ),
{
    let n = s.len() as int;
    let cl = c.len() as int;
    let ml = m.len() as int;
    let gl = g.len() as int;
    let ks = cl + 1 + ml;
    assert(n == ks + 1 + gl);
    assert(forall|k: int| 0 <= k < cl ==> s[k] == c[k]);
    assert(s[cl] == 'd');
    assert(forall|k: int| 0 <= k < ml ==> s[cl + 1 + k] == m[k]);
    assert(s[ks] == sign);
    assert(forall|k: int| 0 <= k < gl ==> s[ks + 1 + k] == g[k]);
    assert(!is_digit('d'));
    assert(!is_digit('+'));
    assert(!is_digit('-'));
    assert(forall|k: int| 0 <= k < cl ==> is_digit(s[k]));
    assert(forall|k: int| cl + 1 <= k < ks ==> is_digit(s[k])) by {
        assert(forall|k: int| cl + 1 <= k < ks ==> s[k] == m[k - cl - 1]);
    }
    assert(forall|k: int| ks + 1 <= k < n ==> is_digit(s[k])) by {
        assert(forall|k: int| ks + 1 <= k < n ==> s[k] == g[k - ks - 1]);
    }
    lemma_run_extends(s, 0, cl);
    assert(digit_run_len(s, cl) == 0);
    assert(digit_run_len(s, 0) == cl);
    lemma_run_extends(s, cl + 1, ks);
    assert(digit_run_len(s, ks) == 0);
    assert(digit_run_len(s, cl + 1) == ml);
    lemma_run_extends(s, ks + 1, n);
    assert(digit_run_len(s, n) == 0);
    assert(digit_run_len(s, ks + 1) == gl);
    assert(match_at(s, 0));
    lemma_first_match_some(s, 0, 0);
    assert(count_str(s, 0) =~= c);
    assert(after_d(s, 0) == cl + 1);
    assert(!is_fudge_match(s, 0));
    assert(sides_str(s, 0) =~= m);
    assert(mod_start(s, 0) == ks);
    assert(has_mod(s, 0));
    assert(mod_str(s, 0) =~= g);
    assert(count_val(s, 0) == digits_val(c));
    lemma_digits_val_nonneg(g);
}

/// Collect the characters of a string slice into a vector.
fn to_chars(s: &str) -> (v: Vec<char>)
    ensures
        v@ == s@,
{
    let n: usize = s.unicode_len();
    let mut v: Vec<char> = Vec::new();
    let mut i: usize = 0;
    while i < n
        invariant
            n == s@.len(),
            i <= n,
            v@ == s@.take(i as int),
        decreases n - i,
    {
        let c = s.get_char(i);
        v.push(c);
        i = i + 1;
        proof {
            assert(s@.take(i as int) =~= s@.take(i as int - 1).push(s@[i as int - 1]));
        }
    }
    proof {
        assert(s@.take(n as int) =~= s@);
    }
    v
}

/// The numeric value of a digit character.
fn char_digit(c: char) -> (d: u32)
    requires
        is_digit(c),
    ensures
        d == digit_val(c),
{
    (c as u32) - ('0' as u32)
}

/// The first index at or after `i` that does not continue a digit run.
fn digit_run_end(v: &Vec<char>, i: usize) -> (e: usize)
    requires
        i <= v@.len(),
    ensures
        i <= e <= v@.len(),
        e - i == digit_run_len(v@, i as int),
{
    let n: usize = v.len();
    let mut e: usize = i;
    while e < n && (('0' as u32) <= (v[e] as u32) && (v[e] as u32) <= ('9' as u32))
        invariant
            i <= e <= n,
            n == v@.len(),
            forall|k: int| i <= k < e ==> is_digit(v@[k]),
        decreases n - e,
    {
        e = e + 1;
    }
    proof {
        lemma_run_extends(v@, i as int, e as int);
    }
    e
}

/// Whether a dice expression begins at index `i`.
fn match_check(v: &Vec<char>, i: usize) -> (b: bool)
    requires
        i < v@.len(),
    ensures
        b == match_at(v@, i as int),
{
    proof {
        lemma_run_bounds(v@, i as int);
    }
    let e = digit_run_end(v, i);
    if e == i {
        return false;
    }
    if e == v.len() {
        return false;
    }
    if v[e] != 'd' {
        return false;
    }
    proof {
        lemma_run_bounds(v@, e as int + 1);
    }
    let e2 = digit_run_end(v, e + 1);
    if e2 > e + 1 {
        return true;
    }
    if e + 1 < v.len() && v[e + 1] == 'F' {
        return true;
    }
    false
}

/// The leftmost index where a dice expression begins, if any.
fn find_match(v: &Vec<char>) -> (r: Option<usize>)
    ensures
        match r {
            Some(i) => first_match(v@) == Some(i as int) && match_at(v@, i as int),
            None => first_match(v@) is None,
        },
{
    let n: usize = v.len();
    let mut i: usize = 0;
    while i < n
        invariant
            i <= n,
            n == v@.len(),
            forall|k: int| 0 <= k < i ==> !match_at(v@, k),
        decreases n - i,
    {
        if match_check(v, i) {
            proof {
                lemma_first_match_some(v@, 0, i as int);
            }
            return Some(i);
        }
        i = i + 1;
    }
    proof {
        lemma_first_match_none(v@, 0);
    }
    None
}

/// The value of the digits `v[start..end]`, saturated just above `lim`: the
/// exact value when it is at most `lim`, and `lim + 1` otherwise.
fn digits_value(v: &Vec<char>, start: usize, end: usize, lim: u64) -> (r: u64)
    requires
        start <= end <= v@.len(),
        forall|k: int| start <= k < end ==> is_digit(v@[k]),
        lim <= 0x1_0000_0000_0000,
    ensures
        digits_val(v@.subrange(start as int, end as int)) <= lim ==> r == digits_val(
            v@.subrange(start as int, end as int),
        ),
        digits_val(v@.subrange(start as int, end as int)) > lim ==> r == lim + 1,
{
    let mut acc: u64 = 0;
    let mut k: usize = start;
    while k < end
        invariant
            start <= k <= end <= v@.len(),
            forall|j: int| start <= j < end ==> is_digit(v@[j]),
            lim <= 0x1_0000_0000_0000,
            digits_val(v@.subrange(start as int, k as int)) <= lim ==> acc == digits_val(
                v@.subrange(start as int, k as int),
            ),
            digits_val(v@.subrange(start as int, k as int)) > lim ==> acc == lim + 1,
            digits_val(v@.subrange(start as int, k as int)) >= 0,
        decreases end - k,
    {
        let d: u32 = char_digit(v[k]);
        proof {
            assert(v@.subrange(start as int, k as int + 1).drop_last() =~= v@.subrange(
                start as int,
                k as int,
            ));
            assert(v@.subrange(start as int, k as int + 1).last() == v@[k as int]);
        }
        acc = acc * 10 + (d as u64);
        if acc > lim {
            acc = lim + 1;
        }
        k = k + 1;
    }
    acc
}

/// Parse a dice-notation string.
///
/// Succeeds exactly on the inputs on which [`parse_result`] yields a die
/// specification, and returns that specification; every other input is
/// rejected with the library's one error.
pub fn parse_notation(input: &str) -> (r: Result<DieSpec, ParseError>)
    ensures
        match r {
            Ok(d) => parse_result(input@) == Some(d) && d.wf(),
            Err(_) => parse_result(input@) is None,
        },
{
    let v = to_chars(input);
    let n = v.len();
    let found = find_match(&v);
    match found {
        None => Err(ParseError),
        Some(i) => {
            proof {
                lemma_run_bounds(v@, i as int);
            }
            let ce = digit_run_end(&v, i);
            proof {
                assert(match_at(v@, i as int));
                assert(ce as int == i as int + digit_run_len(v@, i as int));
                assert((ce as int) < v@.len());
            }
            let sides_start = ce + 1;
            proof {
                lemma_run_bounds(v@, sides_start as int);
            }
            let se = digit_run_end(&v, sides_start);
            let fudge = se == sides_start;

            let cv = digits_value(&v, i, ce, 0xFFFF_FFFF);
            let count: u32 = if cv <= 0xFFFF_FFFF {
                cv as u32
            } else {
                1
            };

            let ms = if fudge {
                proof {
                    assert(match_at(v@, i as int));
                    assert(ce as int == i as int + digit_run_len(v@, i as int));
                    assert(sides_start as int == i as int + digit_run_len(v@, i as int) + 1);
                    assert(digit_run_len(v@, sides_start as int) == 0);
                    assert((sides_start as int) < v@.len());
                }
                sides_start + 1
            } else {
                se
            };
            let mut modifier: i32 = 0;
            if ms < n && (v[ms] == '+' || v[ms] == '-') {
                let me = digit_run_end(&v, ms + 1);
                if me > ms + 1 {
                    proof {
                        lemma_run_bounds(v@, ms as int + 1);
                    }
                    let mag = digits_value(&v, ms + 1, me, 0x8000_0000);
                    if v[ms] == '-' {
                        if mag > 0x8000_0000 {
                            return Err(ParseError);
                        }
                        modifier = (-(mag as i64)) as i32;
                    } else {
                        if mag > 0x7FFF_FFFF {
                            return Err(ParseError);
                        }
                        modifier = mag as i32;
                    }
                }
            }

            if fudge {
                Ok(DieSpec { count, sides: DieSides::Fudge, modifier })
            } else {
                let sv = digits_value(&v, sides_start, se, 0xFFFF_FFFF);
                if sv == 0 || sv > 0xFFFF_FFFF {
                    return Err(ParseError);
                }
                Ok(DieSpec { count, sides: DieSides::Standard(sv as u32), modifier })
            }
        },
    }
}

} // verus!
