//! Reading settings out of text: trimming, numbers and flags.

use crate::text;
use vstd::prelude::*;
use vstd::string::StrSliceExecFns;
use vstd::string::StringExecFns;

verus! {

broadcast use vstd::string::group_string_axioms;

/// The characters with the Unicode property `White_Space`.
pub open spec fn is_space(c: char) -> bool {
    ||| '\u{9}' <= c <= '\u{d}'
    ||| c == '\u{20}'
    ||| c == '\u{85}'
    ||| c == '\u{a0}'
    ||| c == '\u{1680}'
    ||| '\u{2000}' <= c <= '\u{200a}'
    ||| c == '\u{2028}'
    ||| c == '\u{2029}'
    ||| c == '\u{202f}'
    ||| c == '\u{205f}'
    ||| c == '\u{3000}'
}

/// Whether `c` is white space.
pub fn space(c: char) -> (r: bool)
    ensures
        r == is_space(c),
{
    ('\u{9}' <= c && c <= '\u{d}') || c == '\u{20}' || c == '\u{85}' || c == '\u{a0}' || c
        == '\u{1680}' || ('\u{2000}' <= c && c <= '\u{200a}') || c == '\u{2028}' || c == '\u{2029}'
        || c == '\u{202f}' || c == '\u{205f}' || c == '\u{3000}'
}

/// `s` without the white space at its two ends.
pub open spec fn trimmed(s: Seq<char>) -> Seq<char>
    decreases s.len(),
{
    if s.len() > 0 && is_space(s[0]) {
        trimmed(s.drop_first())
    } else if s.len() > 0 && is_space(s.last()) {
        trimmed(s.drop_last())
    } else {
        s
    }
}

/// The characters of `s`.
pub fn chars_of(s: &str) -> (r: Vec<char>)
    ensures
        r@ == s@,
{
    let mut r: Vec<char> = Vec::new();
    let mut rest = s.chars();
    loop
        invariant
            r@ + vstd::std_specs::iter::IteratorSpec::remaining(&rest) =~= s@,
            vstd::std_specs::iter::IteratorSpec::decrease(&rest) is Some,
        decreases vstd::std_specs::iter::IteratorSpec::decrease(&rest)->0,
    {
        match rest.next() {
            None => {
                assert(r@ =~= s@);
                return r;
            },
            Some(c) => {
                r.push(c);
            },
        }
    }
}

/// `s` without the white space at its two ends.
pub fn trim(s: &str) -> (r: &str)
    ensures
        r@ == trimmed(s@),
{
    let chars = chars_of(s);
    let mut from: usize = 0;
    let mut to: usize = chars.len();
    assert(s@.subrange(0, to as int) =~= s@);
    while from < to && space(chars[from])
        invariant
            chars@ == s@,
            to == s@.len(),
            from <= to,
            trimmed(s@) == trimmed(s@.subrange(from as int, to as int)),
        decreases to - from,
    {
        assert(s@.subrange(from as int, to as int).drop_first() =~= s@.subrange(from + 1, to as int));
        from = from + 1;
    }
    while from < to && space(chars[to - 1])
        invariant
            chars@ == s@,
            from <= to <= s@.len(),
            from < to ==> !is_space(s@[from as int]),
            trimmed(s@) == trimmed(s@.subrange(from as int, to as int)),
        decreases to - from,
    {
        assert(s@.subrange(from as int, to as int).drop_last() =~= s@.subrange(from as int, to - 1));
        to = to - 1;
    }
    s.substring_char(from, to)
}

/// How much white space leads.
pub open spec fn leading(s: Seq<char>) -> int
    decreases s.len(),
{
    if s.len() > 0 && is_space(s[0]) {
        1 + leading(s.drop_first())
    } else {
        0
    }
}

/// How much white space leads.
pub fn leading_spaces(s: &str) -> (r: usize)
    ensures
        r == leading(s@),
        r <= s@.len(),
{
    let chars = chars_of(s);
    let mut i: usize = 0;
    assert(s@.skip(0) =~= s@);
    while i < chars.len() && space(chars[i])
        invariant
            chars@ == s@,
            i <= s@.len(),
            leading(s@) == i + leading(s@.skip(i as int)),
        decreases s@.len() - i,
    {
        assert(s@.skip(i as int).drop_first() =~= s@.skip(i + 1));
        i = i + 1;
    }
    i
}

/// What is left after trimming follows the white space that leads.
pub proof fn lemma_trimmed_within(s: Seq<char>)
    ensures
        0 <= leading(s),
        leading(s) + trimmed(s).len() <= s.len(),
    decreases s.len(),
{
    if s.len() > 0 && is_space(s[0]) {
        lemma_trimmed_within(s.drop_first());
    } else if s.len() > 0 && is_space(s.last()) {
        lemma_trimmed_within(s.drop_last());
    }
}

/// Trimming again changes nothing.
pub proof fn trimming_is_idempotent(s: Seq<char>)
    ensures
        trimmed(trimmed(s)) == trimmed(s),
    decreases s.len(),
{
    if s.len() > 0 && is_space(s[0]) {
        trimming_is_idempotent(s.drop_first());
    } else if s.len() > 0 && is_space(s.last()) {
        trimming_is_idempotent(s.drop_last());
    }
}

/// The trimmed text, or nothing if it is empty.
pub open spec fn filled(s: Option<Seq<char>>) -> Option<Seq<char>> {
    match s {
        Some(t) => if trimmed(t).len() > 0 {
            Some(trimmed(t))
        } else {
            None
        },
        None => None,
    }
}

/// The trimmed text, or nothing if it is empty.
pub fn non_empty(value: Option<&str>) -> (r: Option<String>)
    ensures
        crate::protocol::shown_text(r) == filled(shown_str(value)),
{
    match value {
        Some(s) => {
            let t = trim(s);
            if t.is_empty() {
                None
            } else {
                Some(String::from_str(t))
            }
        },
        None => None,
    }
}

/// What an optional borrowed text shows.
pub open spec fn shown_str(o: Option<&str>) -> Option<Seq<char>> {
    match o {
        Some(s) => Some(s@),
        None => None,
    }
}

/// Whether two texts are the same.
pub fn same_text(a: &str, b: &str) -> (r: bool)
    ensures
        r == (a@ == b@),
{
    let left = chars_of(a);
    let right = chars_of(b);
    if left.len() != right.len() {
        return false;
    }
    let mut i: usize = 0;
    while i < left.len()
        invariant
            left@ == a@,
            right@ == b@,
            left@.len() == right@.len(),
            i <= left@.len(),
            forall|j: int| 0 <= j < i ==> left@[j] == right@[j],
        decreases left@.len() - i,
    {
        if left[i] != right[i] {
            return false;
        }
        i = i + 1;
    }
    assert(left@ =~= right@);
    true
}

/// The texts that switch a flag on.
pub open spec fn means_on(s: Seq<char>) -> bool {
    s == "1"@ || s == "true"@ || s == "TRUE"@ || s == "yes"@ || s == "YES"@
}

/// Whether `s` switches a flag on.
pub fn is_on(s: &str) -> (r: bool)
    ensures
        r == means_on(s@),
{
    same_text(s, "1") || same_text(s, "true") || same_text(s, "TRUE") || same_text(s, "yes")
        || same_text(s, "YES")
}

/// Every character is a decimal digit.
pub open spec fn all_digits(s: Seq<char>) -> bool {
    forall|i: int| 0 <= i < s.len() ==> '0' <= #[trigger] s[i] <= '9'
}

/// The number that a row of decimal digits denotes.
pub open spec fn digits_value(s: Seq<char>) -> nat
    decreases s.len(),
{
    if s.len() == 0 {
        0
    } else {
        digits_value(s.drop_last()) * 10 + (s.last() as int - '0' as int) as nat
    }
}

/// `s` without a leading plus sign.
pub open spec fn unsigned_part(s: Seq<char>) -> Seq<char> {
    if s.len() > 0 && s[0] == '+' {
        s.drop_first()
    } else {
        s
    }
}

/// The number that `s` denotes: decimal digits, at least one, perhaps behind a
/// plus sign, for a number of at most `max`.
pub open spec fn number(s: Seq<char>, max: nat) -> Option<nat> {
    let body = unsigned_part(s);
    if body.len() > 0 && all_digits(body) && digits_value(body) <= max {
        Some(digits_value(body))
    } else {
        None
    }
}

/// A longer row of digits denotes no smaller number.
proof fn lemma_digits_grow(s: Seq<char>, i: int)
    requires
        0 <= i <= s.len(),
        all_digits(s),
    ensures
        digits_value(s.take(i)) <= digits_value(s),
    decreases s.len() - i,
{
    if i == s.len() {
        assert(s.take(i) =~= s);
    } else {
        lemma_digits_grow(s, i + 1);
        assert(s.take(i + 1).drop_last() =~= s.take(i));
    }
}

/// Reads a number of at most `max`.
pub fn parse_number(s: &str, max: u64) -> (r: Option<u64>)
    ensures
        match r {
            Some(n) => number(s@, max as nat) == Some(n as nat),
            None => number(s@, max as nat) is None,
        },
{
    let chars = chars_of(s);
    let mut from: usize = 0;
    if chars.len() > 0 && chars[0] == '+' {
        from = 1;
    }
    let ghost body = unsigned_part(s@);
    assert(body =~= s@.skip(from as int));
    if from == chars.len() {
        return None;
    }
    let mut value: u64 = 0;
    let mut i: usize = from;
    assert(body.take(0) =~= Seq::<char>::empty());
    while i < chars.len()
        invariant
            chars@ == s@,
            body == unsigned_part(s@),
            body == s@.skip(from as int),
            from <= i <= chars@.len(),
            from < chars@.len(),
            value <= max,
            value == digits_value(body.take(i - from)),
            all_digits(body.take(i - from)),
        decreases chars@.len() - i,
    {
        let c = chars[i];
        assert(body[i - from] == c);
        assert(body.take(i - from + 1).drop_last() =~= body.take(i - from));
        if !('0' <= c && c <= '9') {
            return None;
        }
        let d: u64 = (c as u64) - 48;
        proof {
            if all_digits(body) {
                lemma_digits_grow(body, i - from + 1);
            }
        }
        if value > max / 10 {
            return None;
        }
        let shifted: u64 = value * 10;
        if d > max - shifted {
            return None;
        }
        value = shifted + d;
        assert forall|j: int| 0 <= j < i - from + 1 implies '0' <= #[trigger] body.take(
            i - from + 1,
        )[j] <= '9' by {
            if j < i - from {
                assert(body.take(i - from + 1)[j] == body.take(i - from)[j]);
            }
        }
        i = i + 1;
    }
    assert(body.take(i - from) =~= body);
    Some(value)
}

/// The stretch of `s` between two places neither starts nor ends with white space, and
/// there is nothing but white space around it.
pub open spec fn between_white_space(s: Seq<char>, from: int, to: int) -> bool {
    &&& 0 <= from <= to <= s.len()
    &&& forall|i: int| 0 <= i < from ==> is_space(#[trigger] s[i])
    &&& forall|i: int| to <= i < s.len() ==> is_space(#[trigger] s[i])
    &&& from < to ==> !is_space(s[from]) && !is_space(s[to - 1])
}

/// As `between_white_space`, for whatever counts as `blank`.
spec fn between(blank: spec_fn(char) -> bool, s: Seq<char>, from: int, to: int) -> bool {
    &&& 0 <= from <= to <= s.len()
    &&& forall|i: int| 0 <= i < from ==> blank(#[trigger] s[i])
    &&& forall|i: int| to <= i < s.len() ==> blank(#[trigger] s[i])
    &&& from < to ==> !blank(s[from]) && !blank(s[to - 1])
}

/// One blank more at the start.
proof fn lemma_blank_before(blank: spec_fn(char) -> bool, s: Seq<char>, a: int, b: int)
    requires
        s.len() > 0,
        blank(s[0]),
        between(blank, s.drop_first(), a, b),
    ensures
        between(blank, s, a + 1, b + 1),
        s.subrange(a + 1, b + 1) == s.drop_first().subrange(a, b),
{
    let t = s.drop_first();
    assert forall|i: int| 0 <= i < a + 1 implies blank(#[trigger] s[i]) by {
        if i > 0 {
            assert(t[i - 1] == s[i]);
        }
    }
    assert forall|i: int| b + 1 <= i < s.len() implies blank(#[trigger] s[i]) by {
        assert(t[i - 1] == s[i]);
    }
    if a < b {
        assert(t[a] == s[a + 1] && t[b - 1] == s[b]);
    }
    assert(s.subrange(a + 1, b + 1) =~= t.subrange(a, b));
}

/// One blank more at the end.
proof fn lemma_blank_behind(blank: spec_fn(char) -> bool, s: Seq<char>, a: int, b: int)
    requires
        s.len() > 0,
        blank(s.last()),
        between(blank, s.drop_last(), a, b),
    ensures
        between(blank, s, a, b),
        s.subrange(a, b) == s.drop_last().subrange(a, b),
{
    let t = s.drop_last();
    assert forall|i: int| 0 <= i < a implies blank(#[trigger] s[i]) by {
        assert(t[i] == s[i]);
    }
    assert forall|i: int| b <= i < s.len() implies blank(#[trigger] s[i]) by {
        if i < t.len() {
            assert(t[i] == s[i]);
        }
    }
    if a < b {
        assert(t[a] == s[a] && t[b - 1] == s[b - 1]);
    }
    assert(s.subrange(a, b) =~= t.subrange(a, b));
}

/// What is left after trimming, and where it stands.
proof fn lemma_trimmed(s: Seq<char>) -> (stretch: (int, int))
    ensures
        between(|c: char| is_space(c), s, stretch.0, stretch.1),
        trimmed(s) == s.subrange(stretch.0, stretch.1),
    decreases s.len(),
{
    let blank = |c: char| is_space(c);
    if s.len() > 0 && is_space(s[0]) {
        let (a, b) = lemma_trimmed(s.drop_first());
        assert(blank(s[0]));
        lemma_blank_before(blank, s, a, b);
        (a + 1, b + 1)
    } else if s.len() > 0 && is_space(s.last()) {
        let (a, b) = lemma_trimmed(s.drop_last());
        assert(blank(s.last()));
        lemma_blank_behind(blank, s, a, b);
        (a, b)
    } else {
        assert(s.subrange(0, s.len() as int) =~= s);
        (0, s.len() as int)
    }
}

/// What is trimmed off is white space, and all of it: what is left is a stretch of the
/// text that neither starts nor ends with white space, with nothing but white space
/// around it.
pub proof fn trimming_takes_the_white_space_around(s: Seq<char>)
    ensures
        exists|from: int, to: int| #[trigger]
            between_white_space(s, from, to) && trimmed(s) == s.subrange(from, to),
{
    let (a, b) = lemma_trimmed(s);
    assert(between_white_space(s, a, b));
}

/// White space are the characters that Unicode calls so: tab to carriage return,
/// blank, next line, no-break space, and the blanks of other scripts and of
/// typography.
pub proof fn white_space_is_what_unicode_calls_so(c: char)
    ensures
        is_space(c) <==> {
            let n = c as u32;
            9 <= n <= 13 || n == 32 || n == 133 || n == 160 || n == 5760 || 8192 <= n <= 8202 || n
                == 8232 || n == 8233 || n == 8239 || n == 8287 || n == 12288
        },
{
}

/// The digits of a number that is written down denote it.
proof fn lemma_written(n: nat)
    ensures
        all_digits(text::decimal_text(n)),
        digits_value(text::decimal_text(n)) == n,
        text::decimal_text(n).len() > 0,
        text::decimal_text(n)[0] != '+',
    decreases n,
{
    let s = text::decimal_text(n);
    if n < 10 {
        assert(s =~= seq![text::digit(n as int)]);
        assert(s.drop_last() =~= Seq::<char>::empty());
        assert(digits_value(s.drop_last()) == 0);
        assert(s.last() == text::digit(n as int));
    } else {
        lemma_written(n / 10);
        let front = text::decimal_text(n / 10);
        assert(s.drop_last() =~= front);
        assert(s.last() == text::digit((n % 10) as int));
        assert forall|i: int| 0 <= i < s.len() implies '0' <= #[trigger] s[i] <= '9' by {
            if i < front.len() {
                assert(s[i] == front[i]);
            }
        }
        assert(s[0] == front[0]);
    }
}

/// A number that is written down is read as it is, with or without a plus sign before
/// it, up to the limit; above the limit it is no number.
pub proof fn numbers_are_read_as_written(n: nat, max: nat)
    ensures
        n <= max ==> number(text::decimal_text(n), max) == Some(n),
        n > max ==> number(text::decimal_text(n), max) is None,
        number(seq!['+'] + text::decimal_text(n), max) == number(text::decimal_text(n), max),
{
    lemma_written(n);
    let s = text::decimal_text(n);
    assert((seq!['+'] + s).drop_first() =~= s);
    assert((seq!['+'] + s)[0] == '+');
}

/// What is read as a number is a row of digits, at least one, perhaps behind a plus
/// sign; zeros before it do not count, and nothing above the limit is read.
pub proof fn numbers_are_rows_of_digits(s: Seq<char>, max: nat)
    ensures
        number(s, max) is Some ==> s.len() > 0 && number(s, max)->0 <= max && forall|i: int|
            0 <= i < s.len() ==> ('0' <= #[trigger] s[i] <= '9') || (i == 0 && s[i] == '+' && s.len()
                > 1),
        s.len() > 0 && s[0] != '+' && number(s, max) is Some ==> number(seq!['0'] + s, max)
            == number(s, max),
{
    if number(s, max) is Some {
        let body = unsigned_part(s);
        assert forall|i: int| 0 <= i < s.len() implies ('0' <= #[trigger] s[i] <= '9') || (i == 0
            && s[i] == '+' && s.len() > 1) by {
            if s[0] == '+' {
                if i > 0 {
                    assert(body[i - 1] == s[i]);
                }
            } else {
                assert(body[i] == s[i]);
            }
        }
        if s[0] != '+' {
            let z = seq!['0'] + s;
            lemma_zero(s);
            assert forall|i: int| 0 <= i < z.len() implies '0' <= #[trigger] z[i] <= '9' by {
                if i > 0 {
                    assert(z[i] == s[i - 1]);
                }
            }
            assert(z[0] == '0');
        }
    }
}

/// A zero before a row of digits does not count.
proof fn lemma_zero(s: Seq<char>)
    ensures
        digits_value(seq!['0'] + s) == digits_value(s),
    decreases s.len(),
{
    let z = seq!['0'] + s;
    if s.len() == 0 {
        assert(z =~= seq!['0']);
        assert(z.drop_last() =~= Seq::<char>::empty());
        assert(digits_value(z.drop_last()) == 0);
    } else {
        lemma_zero(s.drop_last());
        assert(z.drop_last() =~= seq!['0'] + s.drop_last());
        assert(z.last() == s.last());
    }
}

/// A flag is switched on by one of five words and by nothing else.
pub proof fn five_words_switch_a_flag_on(s: Seq<char>)
    ensures
        means_on(s) <==> s == "1"@ || s == "true"@ || s == "TRUE"@ || s == "yes"@ || s == "YES"@,
{
}

} // verus!
