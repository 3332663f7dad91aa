//! Filter directives of the log, and where their parser cuts them.
//!
//! A directive is a list of parts between commas. A part has the form
//! `target[span{field}]=level`, any piece of which may be missing. The parser looks
//! for the marks between the pieces in the part without the white space around it,
//! but cuts the part with that white space, at the byte offsets where it found
//! them. Where white space leads, such an offset may lie inside a character.

use crate::scan;
use vstd::prelude::*;
use vstd::string::StrSliceExecFns;

verus! {

/// The first place from `from` on where `a` or `b` stands, or the end.
pub open spec fn next_mark(t: Seq<char>, from: int, a: char, b: char) -> int
    decreases t.len() - from,
{
    if 0 <= from < t.len() && t[from] != a && t[from] != b {
        next_mark(t, from + 1, a, b)
    } else {
        from
    }
}

/// The first place from `from` on where `a` or `b` stands, or the end.
fn find_mark(chars: &Vec<char>, from: usize, a: char, b: char) -> (r: usize)
    requires
        from <= chars@.len(),
    ensures
        r == next_mark(chars@, from as int, a, b),
        from <= r <= chars@.len(),
{
    let mut i: usize = from;
    while i < chars.len() && chars[i] != a && chars[i] != b
        invariant
            from <= i <= chars@.len(),
            next_mark(chars@, from as int, a, b) == next_mark(chars@, i as int, a, b),
        decreases chars@.len() - i,
    {
        i = i + 1;
    }
    i
}

/// Where the target ends.
pub open spec fn target_end(t: Seq<char>) -> int {
    next_mark(t, 0, '=', '[')
}

/// Where the name of the span ends.
pub open spec fn span_end(t: Seq<char>) -> int {
    next_mark(t, target_end(t) + 1, ']', '{')
}

/// Where the field ends.
pub open spec fn field_end(t: Seq<char>) -> int {
    next_mark(t, span_end(t) + 1, '}', '}')
}

/// The places at which target, span and field are cut out of a part, `t` being the
/// part without the white space around it.
pub open spec fn cuts(t: Seq<char>) -> Seq<int> {
    let a = target_end(t);
    let b = span_end(t);
    let c = field_end(t);
    if a >= t.len() {
        Seq::empty()
    } else if t[a] == '=' || b >= t.len() {
        seq![a]
    } else if t[b] == ']' || c >= t.len() {
        seq![a, a + 1, b]
    } else {
        seq![a, a + 1, b, b + 1, c]
    }
}

/// Where the sign before the level stands, if the parser gets there. The level is
/// what follows.
pub open spec fn level_mark(t: Seq<char>) -> Option<int> {
    let a = target_end(t);
    let b = span_end(t);
    let c = field_end(t);
    if a >= t.len() {
        None
    } else if t[a] == '=' {
        Some(a)
    } else if b >= t.len() {
        None
    } else if t[b] == ']' {
        if b + 1 < t.len() && t[b + 1] == '=' {
            Some(b + 1)
        } else {
            None
        }
    } else if b + 1 < c && c + 2 < t.len() && t[c + 1] == ']' && t[c + 2] == '=' {
        Some(c + 2)
    } else {
        None
    }
}

/// The cut of a part at the byte offset of `t`'s place `c` goes through no
/// character.
pub open spec fn clean(part: Seq<char>, t: Seq<char>, c: int) -> bool {
    vstd::utf8::is_char_boundary(
        vstd::utf8::encode_utf8(part),
        vstd::utf8::encode_utf8(t.take(c)).len() as usize as int,
    )
}

/// Target, span and field of a part are cut out between characters.
pub open spec fn clean_front(part: Seq<char>) -> bool {
    let t = scan::trimmed(part);
    forall|i: int| 0 <= i < cuts(t).len() ==> clean(part, t, #[trigger] cuts(t)[i])
}

/// The level of a part is cut out between characters.
pub open spec fn clean_level(part: Seq<char>) -> bool {
    let t = scan::trimmed(part);
    level_mark(t) matches Some(d) ==> clean(part, t, d + 1)
}

fn is_clean(part: &str, t: &str, c: usize) -> (r: bool)
    requires
        c <= t@.len(),
    ensures
        r == clean(part@, t@, c as int),
{
    assert(t@.subrange(0, c as int) =~= t@.take(c as int));
    part.is_char_boundary(t.substring_char(0, c).len())
}

/// Whether the pieces before the level, and the level, are cut out between
/// characters, and where the sign before the level stands.
fn look_at(part: &str) -> (r: (bool, bool, Option<usize>))
    ensures
        r.0 == clean_front(part@),
        r.1 == clean_level(part@),
        match r.2 {
            Some(d) => level_mark(scan::trimmed(part@)) == Some(d as int) && d < scan::trimmed(
                part@,
            ).len(),
            None => level_mark(scan::trimmed(part@)) is None,
        },
{
    let t = scan::trim(part);
    let chars = scan::chars_of(t);
    let ghost all = cuts(t@);
    let n: usize = chars.len();
    let a: usize = find_mark(&chars, 0, '=', '[');
    if a >= n {
        return (true, true, None);
    }
    let front: bool = is_clean(part, t, a);
    if chars[a] == '=' {
        assert(all[0] == a);
        return (front, is_clean(part, t, a + 1), Some(a));
    }
    let b: usize = find_mark(&chars, a + 1, ']', '{');
    if b >= n {
        assert(all[0] == a);
        return (front, true, None);
    }
    let span: bool = is_clean(part, t, a + 1) && is_clean(part, t, b);
    if chars[b] == ']' {
        assert(all[0] == a && all[1] == a + 1 && all[2] == b);
        return if b + 1 < n && chars[b + 1] == '=' {
            (front && span, is_clean(part, t, b + 2), Some(b + 1))
        } else {
            (front && span, true, None)
        };
    }
    let c: usize = find_mark(&chars, b + 1, '}', '}');
    if c >= n {
        assert(all[0] == a && all[1] == a + 1 && all[2] == b);
        return (front && span, true, None);
    }
    let field: bool = is_clean(part, t, b + 1) && is_clean(part, t, c);
    assert(all[0] == a && all[1] == a + 1 && all[2] == b && all[3] == b + 1 && all[4] == c);
    if b + 1 < c && n - c > 2 && chars[c + 1] == ']' && chars[c + 2] == '=' {
        (front && span && field, is_clean(part, t, c + 3), Some(c + 2))
    } else {
        (front && span && field, true, None)
    }
}

/// The part of a directive that starts at `p`.
pub open spec fn part_at(directive: Seq<char>, p: int) -> Seq<char> {
    directive.subrange(p, next_mark(directive, p, ',', ','))
}

/// Where the first part starts, from `p` on, that is not cut between characters
/// everywhere.
pub open spec fn fault_from(directive: Seq<char>, p: int) -> Option<int>
    decreases directive.len() - p,
{
    let e = next_mark(directive, p, ',', ',');
    if !(0 <= p <= directive.len()) {
        None
    } else if !clean_front(part_at(directive, p)) || !clean_level(part_at(directive, p)) {
        Some(p)
    } else if p <= e < directive.len() {
        fault_from(directive, e + 1)
    } else {
        None
    }
}

/// The parser cuts no character of the directive.
pub open spec fn legible(directive: Seq<char>) -> bool {
    fault_from(directive, 0) is None
}

/// What stands before the place at which the parser would cut a character: all
/// parts before, and of the part itself what comes before the level, if the cut is
/// the level's.
pub open spec fn legible_front(directive: Seq<char>) -> Seq<char> {
    match fault_from(directive, 0) {
        None => directive,
        Some(p) => {
            let part = part_at(directive, p);
            match level_mark(scan::trimmed(part)) {
                Some(d) if clean_front(part) => directive.take(p + scan::leading(part) + d),
                _ => directive.take(p),
            }
        },
    }
}

/// Whether the parser cuts no character of the directive.
pub fn is_legible(directive: &str) -> (r: bool)
    ensures
        r == legible(directive@),
{
    find_fault(directive).is_none()
}

/// Where the first part starts that is not cut between characters everywhere, and
/// how much of it the parser can be asked about.
fn find_fault(directive: &str) -> (r: Option<usize>)
    ensures
        match r {
            None => legible(directive@),
            Some(end) => !legible(directive@) && end <= directive@.len() && legible_front(
                directive@,
            ) == directive@.take(end as int),
        },
{
    let chars = scan::chars_of(directive);
    let ghost d = directive@;
    let mut p: usize = 0;
    loop
        invariant
            d == directive@,
            chars@ == d,
            p <= d.len(),
            fault_from(d, 0) == fault_from(d, p as int),
        decreases d.len() - p,
    {
        let e: usize = find_mark(&chars, p, ',', ',');
        let part = directive.substring_char(p, e);
        assert(part@ == part_at(d, p as int));
        let (front, level, mark) = look_at(part);
        if !front || !level {
            return match mark {
                Some(m) if front => {
                    proof {
                        scan::lemma_trimmed_within(part@);
                    }
                    Some(p + scan::leading_spaces(part) + m)
                },
                _ => Some(p),
            };
        }
        if e >= chars.len() {
            return None;
        }
        p = e + 1;
    }
}

/// What stands before the place at which the parser would cut a character.
pub fn front_of(directive: &str) -> (r: &str)
    ensures
        r@ == legible_front(directive@),
{
    match find_fault(directive) {
        None => directive,
        Some(end) => {
            assert(directive@.subrange(0, end as int) =~= directive@.take(end as int));
            directive.substring_char(0, end)
        },
    }
}

} // verus!
