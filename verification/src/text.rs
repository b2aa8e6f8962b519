//! Character-level building blocks of the message grammar: runs of
//! characters, white space, trimming, tokens, separators and numbers.
//!
//! The functions here work on decoded text: `Seq<char>` in contracts,
//! `&[char]` in code.
use vstd::prelude::*;
use vstd::slice::slice_subrange;
use vstd::utf8::decode_utf8;
use vstd::utf8::valid_utf8;

verus! {

/// Length of the longest prefix of `s` whose elements all satisfy `p`.
pub open spec fn prefix_run<A>(s: Seq<A>, p: spec_fn(A) -> bool) -> nat
    decreases s.len(),
{
    if s.len() > 0 && p(s[0]) {
        1 + prefix_run(s.skip(1), p)
    } else {
        0
    }
}

/// Length of the longest suffix of `s` whose elements all satisfy `p`.
pub open spec fn suffix_run<A>(s: Seq<A>, p: spec_fn(A) -> bool) -> nat
    decreases s.len(),
{
    if s.len() > 0 && p(s.last()) {
        1 + suffix_run(s.drop_last(), p)
    } else {
        0
    }
}

/// A prefix run stays inside the sequence, covers only elements that satisfy
/// the predicate, and stops at the first element that does not.
pub proof fn lemma_prefix_run_bounds<A>(s: Seq<A>, p: spec_fn(A) -> bool)
    ensures
        prefix_run(s, p) <= s.len(),
        forall|i: int| 0 <= i < prefix_run(s, p) ==> p(#[trigger] s[i]),
        prefix_run(s, p) < s.len() ==> !p(s[prefix_run(s, p) as int]),
    decreases s.len(),
{
    if s.len() > 0 && p(s[0]) {
        let t = s.skip(1);
        lemma_prefix_run_bounds(t, p);
        assert forall|i: int| 0 <= i < prefix_run(s, p) implies p(#[trigger] s[i]) by {
            if i > 0 {
                assert(s[i] == t[i - 1]);
            }
        }
    }
}

/// The prefix run is the one length at which a run of elements that
/// satisfy the predicate starts the sequence and cannot be made longer.
pub proof fn lemma_prefix_run_is<A>(s: Seq<A>, p: spec_fn(A) -> bool, n: int)
    requires
        0 <= n <= s.len(),
        forall|i: int| 0 <= i < n ==> p(#[trigger] s[i]),
        n < s.len() ==> !p(s[n]),
    ensures
        prefix_run(s, p) == n,
    decreases s.len(),
{
    if n > 0 {
        let t = s.skip(1);
        assert forall|i: int| 0 <= i < n - 1 implies p(#[trigger] t[i]) by {}
        lemma_prefix_run_is(t, p, n - 1);
    }
}

/// The suffix run is the one length at which a run of elements that
/// satisfy the predicate reaches the end and cannot be made longer.
pub proof fn lemma_suffix_run_is<A>(s: Seq<A>, p: spec_fn(A) -> bool, n: int)
    requires
        0 <= n <= s.len(),
        forall|i: int| s.len() - n <= i < s.len() ==> p(#[trigger] s[i]),
        n < s.len() ==> !p(s[s.len() - n - 1]),
    ensures
        suffix_run(s, p) == n,
    decreases s.len(),
{
    if n > 0 {
        let t = s.drop_last();
        assert forall|i: int| t.len() - (n - 1) <= i < t.len() implies p(#[trigger] t[i]) by {}
        lemma_suffix_run_is(t, p, n - 1);
    }
}

/// White space: the characters with the Unicode property `White_Space`.
pub open spec fn is_whitespace(c: char) -> bool {
    let u = c as u32;
    ||| 0x09 <= u <= 0x0D
    ||| u == 0x20
    ||| u == 0x85
    ||| u == 0xA0
    ||| u == 0x1680
    ||| 0x2000 <= u <= 0x200A
    ||| u == 0x2028
    ||| u == 0x2029
    ||| u == 0x202F
    ||| u == 0x205F
    ||| u == 0x3000
}

/// The predicate "is white space" as a value.
pub open spec fn blank() -> spec_fn(char) -> bool {
    |c: char| is_whitespace(c)
}

/// The predicate "is not white space" as a value.
pub open spec fn solid() -> spec_fn(char) -> bool {
    |c: char| !is_whitespace(c)
}

/// `s` without its leading and trailing white space.
pub open spec fn trim(s: Seq<char>) -> Seq<char> {
    let rest = s.skip(prefix_run(s, blank()) as int);
    rest.take(rest.len() - suffix_run(rest, blank()))
}

/// Tells whether `c` is white space.
pub fn char_is_whitespace(c: char) -> (b: bool)
    ensures
        b == is_whitespace(c),
{
    let u: u32 = c as u32;
    (0x09 <= u && u <= 0x0D) || u == 0x20 || u == 0x85 || u == 0xA0 || u == 0x1680 || (0x2000 <= u
        && u <= 0x200A) || u == 0x2028 || u == 0x2029 || u == 0x202F || u == 0x205F || u == 0x3000
}

/// The end of the run that starts at `from` and is made of white space
/// (when `want` is true) or of anything else (when `want` is false).
pub fn scan_run(s: &[char], from: usize, want: bool) -> (end: usize)
    requires
        from <= s@.len(),
    ensures
        from <= end <= s@.len(),
        end - from == prefix_run(
            s@.skip(from as int),
            if want {
                blank()
            } else {
                solid()
            },
        ),
{
    let ghost p = if want {
        blank()
    } else {
        solid()
    };
    let ghost t = s@.skip(from as int);
    let mut i: usize = from;
    while i < s.len() && char_is_whitespace(s[i]) == want
        invariant
            from <= i <= s@.len(),
            t == s@.skip(from as int),
            p == (if want {
                blank()
            } else {
                solid()
            }),
            forall|j: int| 0 <= j < i - from ==> p(#[trigger] t[j]),
        decreases s@.len() - i,
    {
        i = i + 1;
    }
    proof {
        lemma_prefix_run_is(t, p, i - from);
    }
    i
}

/// The bounds of `trim(s)` inside `s`.
pub fn trim_bounds(s: &[char]) -> (bounds: (usize, usize))
    ensures
        bounds.0 <= bounds.1 <= s@.len(),
        s@.subrange(bounds.0 as int, bounds.1 as int) == trim(s@),
{
    let start = scan_run(s, 0, true);
    assert(s@.skip(0) == s@);
    let ghost rest = s@.skip(start as int);
    let mut end: usize = s.len();
    while end > start && char_is_whitespace(s[end - 1])
        invariant
            start <= end <= s@.len(),
            rest == s@.skip(start as int),
            forall|j: int| end - start <= j < rest.len() ==> is_whitespace(#[trigger] rest[j]),
        decreases end,
    {
        end = end - 1;
    }
    proof {
        let n = s@.len() - end;
        lemma_suffix_run_is(rest, blank(), n);
    }
    (start, end)
}

/// The second of the tokens that white space separates in `s`; empty when
/// `s` holds fewer than two tokens.
pub open spec fn second_token(s: Seq<char>) -> Seq<char> {
    let s1 = s.skip(prefix_run(s, blank()) as int);
    let s2 = s1.skip(prefix_run(s1, solid()) as int);
    let s3 = s2.skip(prefix_run(s2, blank()) as int);
    s3.take(prefix_run(s3, solid()) as int)
}

/// The bounds of `second_token(s)` inside `s`.
pub fn second_token_bounds(s: &[char]) -> (bounds: (usize, usize))
    ensures
        bounds.0 <= bounds.1 <= s@.len(),
        s@.subrange(bounds.0 as int, bounds.1 as int) == second_token(s@),
{
    let a = scan_run(s, 0, true);
    let b = scan_run(s, a, false);
    let c = scan_run(s, b, true);
    let d = scan_run(s, c, false);
    proof {
        let s1 = s@.skip(a as int);
        let s2 = s1.skip(b - a);
        let s3 = s2.skip(c - b);
        assert(s@.skip(0) == s@);
        assert(s2 == s@.skip(b as int));
        assert(s3 == s@.skip(c as int));
    }
    (c, d)
}

/// Whether the key/value separator, a colon and a space, stands at `i`.
pub open spec fn separator_at(s: Seq<char>, i: int) -> bool {
    0 <= i && i + 1 < s.len() && s[i] == ':' && s[i + 1] == ' '
}

/// The first position at or after `i` where the separator stands.
pub open spec fn separator_from(s: Seq<char>, i: int) -> Option<int>
    decreases s.len() - i,
{
    if i < 0 || i + 1 >= s.len() {
        None
    } else if separator_at(s, i) {
        Some(i)
    } else {
        separator_from(s, i + 1)
    }
}

/// The first position in `s` where the separator stands.
pub open spec fn first_separator(s: Seq<char>) -> Option<int> {
    separator_from(s, 0)
}

/// `first_separator` gives the least position of a separator, and gives
/// none exactly when there is none.
pub proof fn lemma_separator_from(s: Seq<char>, i: int)
    requires
        0 <= i,
    ensures
        match separator_from(s, i) {
            Some(r) => i <= r && separator_at(s, r) && forall|j: int|
                i <= j < r ==> !separator_at(s, j),
            None => forall|j: int| i <= j ==> !separator_at(s, j),
        },
    decreases s.len() - i,
{
    if i + 1 < s.len() && !separator_at(s, i) {
        lemma_separator_from(s, i + 1);
    }
}

/// Finds the first key/value separator of `s`.
pub fn find_separator(s: &[char]) -> (found: Option<usize>)
    ensures
        match found {
            Some(i) => first_separator(s@) == Some(i as int),
            None => first_separator(s@) is None,
        },
{
    let mut i: usize = 0;
    while i < s.len() && i + 1 < s.len()
        invariant
            i <= s@.len(),
            separator_from(s@, i as int) == first_separator(s@),
        decreases s@.len() - i,
    {
        if s[i] == ':' && s[i + 1] == ' ' {
            return Some(i);
        }
        i = i + 1;
    }
    None
}

/// The value of `c` as a digit in the given radix, if it is one: the
/// decimal digits, then the letters of either case from ten on.
pub open spec fn digit_value(c: char, radix: int) -> Option<int> {
    let u = c as u32 as int;
    let v = if 0x30 <= u <= 0x39 {
        u - 0x30
    } else if 0x61 <= u <= 0x7A {
        u - 0x61 + 10
    } else if 0x41 <= u <= 0x5A {
        u - 0x41 + 10
    } else {
        radix
    };
    if v < radix {
        Some(v)
    } else {
        None
    }
}

/// The number that the digits of `s` write in the given radix; none when
/// some character is no digit. The empty sequence writes zero.
pub open spec fn digits_value(s: Seq<char>, radix: int) -> Option<int>
    decreases s.len(),
{
    if s.len() == 0 {
        Some(0)
    } else {
        match (digits_value(s.drop_last(), radix), digit_value(s.last(), radix)) {
            (Some(high), Some(low)) => Some(high * radix + low),
            _ => None,
        }
    }
}

/// The digits of a number: `s` without one leading sign.
pub open spec fn unsigned_part(s: Seq<char>, minus: bool) -> Seq<char> {
    if s.len() > 0 && (s[0] == '+' || (minus && s[0] == '-')) {
        s.skip(1)
    } else {
        s
    }
}

/// Reads `s` as an unsigned number of at most `max`: an optional plus sign
/// and at least one digit, nothing else.
pub open spec fn parse_unsigned(s: Seq<char>, radix: int, max: int) -> Option<int> {
    let digits = unsigned_part(s, false);
    match digits_value(digits, radix) {
        Some(v) => if digits.len() > 0 && v <= max {
            Some(v)
        } else {
            None
        },
        None => None,
    }
}

/// Reads `s` as a signed number between `min` and `max`: an optional plus
/// or minus sign and at least one digit, nothing else.
pub open spec fn parse_signed(s: Seq<char>, radix: int, min: int, max: int) -> Option<int> {
    let digits = unsigned_part(s, true);
    let negative = s.len() > 0 && s[0] == '-';
    match digits_value(digits, radix) {
        Some(v) => {
            let value = if negative {
                -v
            } else {
                v
            };
            if digits.len() > 0 && min <= value <= max {
                Some(value)
            } else {
                None
            }
        },
        None => None,
    }
}

/// A number written in digits is not negative.
pub proof fn lemma_digits_value_nonnegative(s: Seq<char>, radix: int)
    requires
        radix >= 1,
    ensures
        digits_value(s, radix) is Some ==> digits_value(s, radix).unwrap() >= 0,
    decreases s.len(),
{
    if s.len() > 0 {
        lemma_digits_value_nonnegative(s.drop_last(), radix);
        if digits_value(s, radix) is Some {
            let high = digits_value(s.drop_last(), radix).unwrap();
            assert(high * radix >= 0) by (nonlinear_arith)
                requires
                    high >= 0,
                    radix >= 1,
            ;
        }
    }
}

/// Every prefix of a digit sequence is one too, and writes no larger a
/// number.
pub proof fn lemma_digits_value_prefix(s: Seq<char>, radix: int, k: int)
    requires
        radix >= 1,
        0 <= k <= s.len(),
        digits_value(s, radix) is Some,
    ensures
        digits_value(s.take(k), radix) is Some,
        digits_value(s.take(k), radix).unwrap() <= digits_value(s, radix).unwrap(),
    decreases s.len(),
{
    if k == s.len() {
        assert(s.take(k) == s);
    } else {
        let t = s.drop_last();
        lemma_digits_value_prefix(t, radix, k);
        assert(t.take(k) == s.take(k));
        lemma_digits_value_nonnegative(t, radix);
        let high = digits_value(t, radix).unwrap();
        assert(high * radix >= high) by (nonlinear_arith)
            requires
                high >= 0,
                radix >= 1,
        ;
    }
}

/// The value of `c` as a digit in the given radix.
pub fn digit_of(c: char, radix: u32) -> (d: Option<u32>)
    requires
        2 <= radix <= 36,
    ensures
        d == match digit_value(c, radix as int) {
            Some(v) => Some(v as u32),
            None => None,
        },
{
    let u: u32 = c as u32;
    let v: u32 = if 0x30 <= u && u <= 0x39 {
        u - 0x30
    } else if 0x61 <= u && u <= 0x7A {
        u - 0x61 + 10
    } else if 0x41 <= u && u <= 0x5A {
        u - 0x41 + 10
    } else {
        radix
    };
    if v < radix {
        Some(v)
    } else {
        None
    }
}

/// Reads the digits `s` as a number of at most `max`.
pub fn read_digits(s: &[char], radix: u32, max: u64) -> (r: Option<u64>)
    requires
        2 <= radix <= 36,
    ensures
        r == match digits_value(s@, radix as int) {
            Some(v) => if v <= max {
                Some(v as u64)
            } else {
                None
            },
            None => None,
        },
        digits_value(s@, radix as int) is Some ==> 0 <= digits_value(s@, radix as int).unwrap(),
{
    proof {
        lemma_digits_value_nonnegative(s@, radix as int);
    }
    let mut acc: u64 = 0;
    let mut i: usize = 0;
    while i < s.len()
        invariant
            2 <= radix <= 36,
            i <= s@.len(),
            digits_value(s@.take(i as int), radix as int) == Some(acc as int),
            acc <= max,
        decreases s@.len() - i,
    {
        let ghost next = s@.take(i + 1);
        proof {
            assert(next.drop_last() == s@.take(i as int));
            if digits_value(s@, radix as int) is Some {
                lemma_digits_value_prefix(s@, radix as int, i + 1);
            }
        }
        match digit_of(s[i], radix) {
            None => {
                return None;
            },
            Some(d) => {
                assert(acc * radix + d <= u64::MAX * 36 + 36) by (nonlinear_arith)
                    requires
                        acc <= u64::MAX,
                        radix <= 36,
                        d < radix,
                ;
                let wide: u128 = (acc as u128) * (radix as u128) + (d as u128);
                if wide > max as u128 {
                    return None;
                }
                acc = wide as u64;
            },
        }
        i = i + 1;
    }
    assert(s@.take(i as int) == s@);
    Some(acc)
}

/// Reads `s` as an unsigned number of at most `max`.
pub fn read_unsigned(s: &[char], radix: u32, max: u64) -> (r: Option<u64>)
    requires
        2 <= radix <= 36,
    ensures
        r == match parse_unsigned(s@, radix as int, max as int) {
            Some(v) => Some(v as u64),
            None => None,
        },
        parse_unsigned(s@, radix as int, max as int) is Some ==> 0 <= parse_unsigned(
            s@,
            radix as int,
            max as int,
        ).unwrap() <= max,
{
    proof {
        lemma_digits_value_nonnegative(unsigned_part(s@, false), radix as int);
    }
    let start: usize = if s.len() > 0 && s[0] == '+' {
        1
    } else {
        0
    };
    if start == s.len() {
        return None;
    }
    let digits = slice_subrange(s, start, s.len());
    assert(digits@ == unsigned_part(s@, false));
    read_digits(digits, radix, max)
}

/// Reads `s` as a signed number that fits 64 bits.
pub fn read_signed(s: &[char], radix: u32) -> (r: Option<i64>)
    requires
        2 <= radix <= 36,
    ensures
        r == match parse_signed(s@, radix as int, i64::MIN as int, i64::MAX as int) {
            Some(v) => Some(v as i64),
            None => None,
        },
{
    let negative = s.len() > 0 && s[0] == '-';
    let start: usize = if s.len() > 0 && (s[0] == '+' || s[0] == '-') {
        1
    } else {
        0
    };
    if start == s.len() {
        return None;
    }
    let digits = slice_subrange(s, start, s.len());
    assert(digits@ == unsigned_part(s@, true));
    proof {
        lemma_digits_value_nonnegative(digits@, radix as int);
    }
    if negative {
        match read_digits(digits, radix, 0x8000_0000_0000_0000u64) {
            None => None,
            Some(m) => if m == 0x8000_0000_0000_0000u64 {
                Some(i64::MIN)
            } else {
                Some(0 - (m as i64))
            },
        }
    } else {
        match read_digits(digits, radix, 0x7FFF_FFFF_FFFF_FFFFu64) {
            None => None,
            Some(m) => Some(m as i64),
        }
    }
}

/// The characters of `s`, one by one.
pub fn chars_of(s: &str) -> (chars: Vec<char>)
    ensures
        chars@ == s@,
{
    let mut chars: Vec<char> = Vec::new();
    for c in it: s.chars()
        invariant
            chars@ == it.seq().take(it.index() as int),
            it.seq() == s@,
    {
        chars.push(c);
    }
    chars
}

/// `String::from_utf8`: the text that `bytes` encode. The standard library
/// gives a string exactly when the bytes are valid UTF-8, and the string is
/// then made of those very bytes.
#[verifier::external_body]
pub(crate) fn decode(bytes: Vec<u8>) -> (text: Option<String>)
    ensures
        text is Some <==> valid_utf8(bytes@),
        text is Some ==> text.unwrap()@ == decode_utf8(bytes@),
{
    String::from_utf8(bytes).ok()
}

/// The lower-case form of a text, as the standard library's Unicode tables
/// define it.
pub uninterp spec fn lowercase_of(s: Seq<char>) -> Seq<char>;

/// `str::to_lowercase`: the lower-case form of `s`. It depends on the
/// characters of `s` alone.
#[verifier::external_body]
pub(crate) fn to_lowercase(s: &str) -> (lower: String)
    ensures
        lower@ == lowercase_of(s@),
{
    s.to_lowercase()
}

/// The character that writes the decimal digit `d`.
pub open spec fn digit_char(d: nat) -> char {
    if d == 0 {
        '0'
    } else if d == 1 {
        '1'
    } else if d == 2 {
        '2'
    } else if d == 3 {
        '3'
    } else if d == 4 {
        '4'
    } else if d == 5 {
        '5'
    } else if d == 6 {
        '6'
    } else if d == 7 {
        '7'
    } else if d == 8 {
        '8'
    } else {
        '9'
    }
}

/// The decimal digits of `n`, without sign or leading zero.
pub open spec fn decimal(n: nat) -> Seq<char>
    decreases n,
{
    if n < 10 {
        seq![digit_char(n)]
    } else {
        decimal(n / 10).push(digit_char(n % 10))
    }
}

/// What `decimal` writes reads back as the same number.
pub proof fn lemma_decimal_reads_back(n: nat)
    ensures
        decimal(n).len() > 0,
        decimal(n)[0] != '+',
        digits_value(decimal(n), 10) == Some(n as int),
        forall|max: int| n <= max ==> parse_unsigned(decimal(n), 10, max) == Some(n as int),
    decreases n,
{
    let s = decimal(n);
    if n < 10 {
        assert(digit_value(s.last(), 10) == Some(n as int));
    } else {
        lemma_decimal_reads_back(n / 10);
        assert(s.drop_last() == decimal(n / 10));
    }
}

/// The text of one decimal digit.
fn digit_text(d: usize) -> (text: &'static str)
    requires
        d < 10,
    ensures
        text@ == seq![digit_char(d as nat)],
{
    proof {
        reveal_strlit("0");
        reveal_strlit("1");
        reveal_strlit("2");
        reveal_strlit("3");
        reveal_strlit("4");
        reveal_strlit("5");
        reveal_strlit("6");
        reveal_strlit("7");
        reveal_strlit("8");
        reveal_strlit("9");
    }
    let text = match d {
        0 => "0",
        1 => "1",
        2 => "2",
        3 => "3",
        4 => "4",
        5 => "5",
        6 => "6",
        7 => "7",
        8 => "8",
        _ => "9",
    };
    text
}

/// Writes `n` in decimal digits.
pub fn format_decimal(n: usize) -> (text: String)
    ensures
        text@ == decimal(n as nat),
    decreases n,
{
    if n < 10 {
        String::from_str(digit_text(n))
    } else {
        let mut text = format_decimal(n / 10);
        text.append(digit_text(n % 10));
        text
    }
}

} // verus!
