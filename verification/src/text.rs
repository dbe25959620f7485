//! Text as a sequence of characters.
//!
//! Everything the program reads is text: solution files, project files, build
//! logs, mount tables. The spec functions here say what cutting,
//! trimming and joining text means, and each executable function is proved
//! against the one of them that its contract names.

use vstd::prelude::*;

use crate::list;

verus! {

/// `String::push` appends one character to the end of the text.
pub assume_specification[ String::push ](s: &mut String, ch: char)
    ensures
        final(s)@ == old(s)@.push(ch),
;

broadcast use {crate::list::lemma_texts_push, crate::list::lemma_pieces_push};

/// The characters of `text`, in order.
pub fn chars_of(text: &str) -> (r: Vec<char>)
    ensures
        r@ == text@,
{
    let mut out: Vec<char> = Vec::new();
    for c in it: text.chars()
        invariant
            out@ == it.seq().take(it.index() as int),
            it.seq() == text@,
    {
        out.push(c);
    }
    out
}

/// The text made of `chars`, in order.
pub fn string_of(chars: &[char]) -> (r: String)
    ensures
        r@ == chars@,
{
    let mut out = String::new();
    let mut i: usize = 0;
    while i < chars.len()
        invariant
            i <= chars@.len(),
            out@ == chars@.take(i as int),
        decreases chars@.len() - i,
    {
        out.push(chars[i]);
        i += 1;
    }
    assert(chars@.take(i as int) == chars@);
    out
}

/// `a` followed by `b`.
pub fn cat2(a: &str, b: &str) -> (r: String)
    ensures
        r@ == a@ + b@,
{
    let mut out = a.to_owned();
    out.append(b);
    out
}

/// `a` followed by `b` and `c`.
pub fn cat3(a: &str, b: &str, c: &str) -> (r: String)
    ensures
        r@ == a@ + b@ + c@,
{
    let mut out = cat2(a, b);
    out.append(c);
    out
}

/// `a` followed by `b`, `c` and `d`.
pub fn cat4(a: &str, b: &str, c: &str, d: &str) -> (r: String)
    ensures
        r@ == a@ + b@ + c@ + d@,
{
    let mut out = cat3(a, b, c);
    out.append(d);
    out
}

/// `a` followed by `b`, `c`, `d` and `e`.
pub fn cat5(a: &str, b: &str, c: &str, d: &str, e: &str) -> (r: String)
    ensures
        r@ == a@ + b@ + c@ + d@ + e@,
{
    let mut out = cat4(a, b, c, d);
    out.append(e);
    out
}

/// Adds a run of characters to the end of `out`.
pub fn push_all(out: &mut Vec<char>, more: &[char])
    ensures
        final(out)@ == old(out)@ + more@,
{
    let ghost before = out@;
    let mut i: usize = 0;
    while i < more.len()
        invariant
            i <= more@.len(),
            out@ == before + more@.take(i as int),
        decreases more@.len() - i,
    {
        out.push(more[i]);
        i += 1;
    }
    assert(more@.take(i as int) == more@);
}

/// Whether two runs of characters are the same.
pub fn same(a: &[char], b: &[char]) -> (r: bool)
    ensures
        r == (a@ == b@),
{
    if a.len() != b.len() {
        return false;
    }
    let mut i: usize = 0;
    while i < a.len()
        invariant
            i <= a@.len(),
            a@.len() == b@.len(),
            forall|j: int| 0 <= j < i ==> a@[j] == b@[j],
        decreases a@.len() - i,
    {
        if a[i] != b[i] {
            return false;
        }
        i += 1;
    }
    assert(a@ == b@);
    true
}

/// Whether a run of characters spells `text`.
pub fn is_text(s: &[char], text: &str) -> (r: bool)
    ensures
        r == (s@ == text@),
{
    let wanted = chars_of(text);
    same(s, &wanted)
}

/// Whether two strings hold the same text.
pub fn same_str(a: &str, b: &str) -> (r: bool)
    ensures
        r == (a@ == b@),
{
    let left = chars_of(a);
    is_text(&left, b)
}

/// Whether `p` stands at position `i` of `s`.
pub open spec fn occurs_at(s: Seq<char>, p: Seq<char>, i: int) -> bool {
    0 <= i && i + p.len() <= s.len() && s.subrange(i, i + p.len()) == p
}

/// Whether `p` stands at position `i` of `s`.
pub fn matches_at(s: &[char], p: &[char], i: usize) -> (r: bool)
    ensures
        r == occurs_at(s@, p@, i as int),
{
    if i > s.len() || p.len() > s.len() - i {
        return false;
    }
    same(&s[i..i + p.len()], p)
}

/// Whether `s` starts with the text `p`.
pub fn starts_with(s: &[char], p: &str) -> (r: bool)
    ensures
        r == p@.is_prefix_of(s@),
{
    let wanted = chars_of(p);
    matches_at(s, &wanted, 0)
}

/// Whether `s` ends with the text `p`.
pub fn ends_with(s: &[char], p: &str) -> (r: bool)
    ensures
        r == p@.is_suffix_of(s@),
{
    let wanted = chars_of(p);
    if wanted.len() > s.len() {
        return false;
    }
    matches_at(s, &wanted, s.len() - wanted.len())
}

/// What follows the text `p` at the start of `s`, if `s` starts with it.
pub open spec fn after_prefix(s: Seq<char>, p: Seq<char>) -> Option<Seq<char>> {
    if p.is_prefix_of(s) {
        Some(s.skip(p.len() as int))
    } else {
        None
    }
}

/// What follows the text `p` at the start of `s`, if `s` starts with it.
pub fn strip_prefix<'a>(s: &'a [char], p: &str) -> (r: Option<&'a [char]>)
    ensures
        match r {
            Some(rest) => after_prefix(s@, p@) == Some(rest@),
            None => after_prefix(s@, p@) is None,
        },
{
    let wanted = chars_of(p);
    if matches_at(s, &wanted, 0) {
        Some(&s[wanted.len()..s.len()])
    } else {
        None
    }
}

/// The first position of `p` in `s` at or after `from`.
pub open spec fn find_from(s: Seq<char>, p: Seq<char>, from: int) -> Option<int>
    decreases s.len() + 1 - from,
{
    if from < 0 || from + p.len() > s.len() {
        None
    } else if s.subrange(from, from + p.len()) == p {
        Some(from)
    } else {
        find_from(s, p, from + 1)
    }
}

/// The first position of the text `p` in `s`.
pub open spec fn find_text(s: Seq<char>, p: Seq<char>) -> Option<int> {
    find_from(s, p, 0)
}

/// A text found at a position stands there and nowhere before it, and a text
/// that is not found stands nowhere.
pub proof fn lemma_find_from(s: Seq<char>, p: Seq<char>, from: int)
    requires
        0 <= from,
    ensures
        match find_from(s, p, from) {
            Some(i) => {
                &&& from <= i
                &&& occurs_at(s, p, i)
                &&& forall|j: int| from <= j < i ==> !occurs_at(s, p, j)
            },
            None => forall|j: int| from <= j ==> !occurs_at(s, p, j),
        },
    decreases s.len() + 1 - from,
{
    if from + p.len() <= s.len() && s.subrange(from, from + p.len()) != p {
        lemma_find_from(s, p, from + 1);
    }
}

/// The first position of the run `p` in `s`.
pub fn find_chars(s: &[char], p: &[char]) -> (r: Option<usize>)
    ensures
        match r {
            Some(i) => find_text(s@, p@) == Some(i as int) && i + p@.len() <= s@.len(),
            None => find_text(s@, p@) is None,
        },
{
    let mut i: usize = 0;
    while i <= s.len() && p.len() <= s.len() - i
        invariant
            i <= s@.len() + 1,
            s@.len() < usize::MAX || i <= s@.len(),
            find_text(s@, p@) == find_from(s@, p@, i as int),
        decreases s@.len() + 1 - i,
    {
        if matches_at(s, p, i) {
            return Some(i);
        }
        if i == s.len() {
            assert(find_from(s@, p@, i as int + 1) is None);
            return None;
        }
        i += 1;
    }
    None
}

/// The first position of the text `p` in `s`.
pub fn find(s: &[char], p: &str) -> (r: Option<usize>)
    ensures
        match r {
            Some(i) => find_text(s@, p@) == Some(i as int) && i + p@.len() <= s@.len(),
            None => find_text(s@, p@) is None,
        },
{
    let wanted = chars_of(p);
    find_chars(s, &wanted)
}

/// Whether the text `p` stands anywhere in `s`.
pub open spec fn has_text(s: Seq<char>, p: Seq<char>) -> bool {
    find_text(s, p) is Some
}

/// Whether the text `p` stands anywhere in `s`.
pub fn contains(s: &[char], p: &str) -> (r: bool)
    ensures
        r == has_text(s@, p@),
{
    find(s, p).is_some()
}

/// The first position of the character `c` in `s`.
pub fn find_char(s: &[char], c: char) -> (r: Option<usize>)
    ensures
        match r {
            Some(i) => s@.index_of_first(c) == Some(i as int) && i < s@.len() && s@[i as int] == c,
            None => s@.index_of_first(c) is None && !s@.contains(c),
        },
{
    proof {
        s@.index_of_first_ensures(c);
    }
    let mut i: usize = 0;
    while i < s.len()
        invariant
            i <= s@.len(),
            forall|j: int| 0 <= j < i ==> s@[j] != c,
            match s@.index_of_first(c) {
                Some(k) => 0 <= k < s@.len() && s@[k] == c && (forall|j: int|
                    0 <= j < k < s@.len() ==> s@[j] != c),
                None => !s@.contains(c),
            },
        decreases s@.len() - i,
    {
        if s[i] == c {
            assert(s@.contains(c));
            return Some(i);
        }
        i += 1;
    }
    None
}

/// The last position of the character `c` in `s`.
pub fn rfind_char(s: &[char], c: char) -> (r: Option<usize>)
    ensures
        match r {
            Some(i) => s@.index_of_last(c) == Some(i as int) && i < s@.len() && s@[i as int] == c,
            None => s@.index_of_last(c) is None,
        },
{
    proof {
        s@.index_of_last_ensures(c);
    }
    let mut i: usize = s.len();
    while i > 0
        invariant
            i <= s@.len(),
            forall|j: int| i <= j < s@.len() ==> s@[j] != c,
            match s@.index_of_last(c) {
                Some(k) => 0 <= k < s@.len() && s@[k] == c && (forall|j: int|
                    0 <= k < j < s@.len() ==> s@[j] != c),
                None => !s@.contains(c),
            },
        decreases i,
    {
        i -= 1;
        if s[i] == c {
            assert(s@.contains(c));
            return Some(i);
        }
    }
    None
}

/// Whether the character `c` stands in `s`.
pub fn contains_char(s: &[char], c: char) -> (r: bool)
    ensures
        r == s@.contains(c),
{
    match find_char(s, c) {
        Some(i) => {
            assert(s@[i as int] == c);
            true
        },
        None => false,
    }
}

/// What stands before and after the first `c` of `s`.
pub open spec fn cut_at_char(s: Seq<char>, c: char) -> Option<(Seq<char>, Seq<char>)> {
    match s.index_of_first(c) {
        Some(i) => Some((s.take(i), s.skip(i + 1))),
        None => None,
    }
}

/// What stands before and after the first `c` of `s`.
pub fn split_once_char<'a>(s: &'a [char], c: char) -> (r: Option<(&'a [char], &'a [char])>)
    ensures
        match r {
            Some((left, right)) => cut_at_char(s@, c) == Some((left@, right@)),
            None => cut_at_char(s@, c) is None,
        },
{
    let n: usize = s.len();
    match find_char(s, c) {
        Some(i) => Some((&s[0..i], &s[i + 1..n])),
        None => None,
    }
}

/// What stands before and after the first `p` of `s`.
pub open spec fn cut_at_text(s: Seq<char>, p: Seq<char>) -> Option<(Seq<char>, Seq<char>)> {
    match find_text(s, p) {
        Some(i) => Some((s.take(i), s.skip(i + p.len()))),
        None => None,
    }
}

/// What stands before and after the first `p` of `s`.
pub fn split_once<'a>(s: &'a [char], p: &str) -> (r: Option<(&'a [char], &'a [char])>)
    ensures
        match r {
            Some((left, right)) => cut_at_text(s@, p@) == Some((left@, right@)),
            None => cut_at_text(s@, p@) is None,
        },
{
    let wanted = chars_of(p);
    let n: usize = s.len();
    match find_chars(s, &wanted) {
        Some(i) => Some((&s[0..i], &s[i + wanted.len()..n])),
        None => None,
    }
}

/// The characters that Unicode gives the property White_Space.
pub open spec fn is_white(c: char) -> bool {
    ||| '\t' <= c <= '\r'
    ||| c == ' '
    ||| c == '\u{85}'
    ||| c == '\u{a0}'
    ||| c == '\u{1680}'
    ||| '\u{2000}' <= c <= '\u{200a}'
    ||| c == '\u{2028}'
    ||| c == '\u{2029}'
    ||| c == '\u{202f}'
    ||| c == '\u{205f}'
    ||| c == '\u{3000}'
}

/// Whether Unicode gives `c` the property White_Space.
pub fn white(c: char) -> (r: bool)
    ensures
        r == is_white(c),
{
    ('\t' <= c && c <= '\r') || c == ' ' || c == '\u{85}' || c == '\u{a0}' || c == '\u{1680}' || (
    '\u{2000}' <= c && c <= '\u{200a}') || c == '\u{2028}' || c == '\u{2029}' || c == '\u{202f}'
        || c == '\u{205f}' || c == '\u{3000}'
}

/// `s` without the white space in front.
pub open spec fn trimmed_start(s: Seq<char>) -> Seq<char>
    decreases s.len(),
{
    if s.len() > 0 && is_white(s[0]) {
        trimmed_start(s.skip(1))
    } else {
        s
    }
}

/// `s` without the white space at the end.
pub open spec fn trimmed_end(s: Seq<char>) -> Seq<char>
    decreases s.len(),
{
    if s.len() > 0 && is_white(s[s.len() - 1]) {
        trimmed_end(s.take(s.len() - 1))
    } else {
        s
    }
}

/// `s` without the white space around it.
pub open spec fn trimmed(s: Seq<char>) -> Seq<char> {
    trimmed_end(trimmed_start(s))
}

/// `s` without the white space in front.
pub fn trim_start(s: &[char]) -> (r: &[char])
    ensures
        r@ == trimmed_start(s@),
        r@.len() <= s@.len(),
{
    let mut i: usize = 0;
    assert(s@.skip(0) == s@);
    while i < s.len() && white(s[i])
        invariant
            i <= s@.len(),
            trimmed_start(s@) == trimmed_start(s@.skip(i as int)),
        decreases s@.len() - i,
    {
        assert(s@.skip(i as int).skip(1) == s@.skip(i as int + 1));
        i += 1;
    }
    &s[i..s.len()]
}

/// `s` without the white space at the end.
pub fn trim_end(s: &[char]) -> (r: &[char])
    ensures
        r@ == trimmed_end(s@),
        r@.len() <= s@.len(),
{
    let mut n: usize = s.len();
    assert(s@.take(n as int) == s@);
    while n > 0 && white(s[n - 1])
        invariant
            n <= s@.len(),
            trimmed_end(s@) == trimmed_end(s@.take(n as int)),
        decreases n,
    {
        assert(s@.take(n as int).take(n - 1) == s@.take(n - 1));
        n -= 1;
    }
    &s[0..n]
}

/// `s` without the white space around it.
pub fn trim(s: &[char]) -> (r: &[char])
    ensures
        r@ == trimmed(s@),
        r@.len() <= s@.len(),
{
    trim_end(trim_start(s))
}

/// `s` without the run of `c` in front.
pub open spec fn without_leading(s: Seq<char>, c: char) -> Seq<char>
    decreases s.len(),
{
    if s.len() > 0 && s[0] == c {
        without_leading(s.skip(1), c)
    } else {
        s
    }
}

/// `s` without the run of `c` at the end.
pub open spec fn without_trailing(s: Seq<char>, c: char) -> Seq<char>
    decreases s.len(),
{
    if s.len() > 0 && s[s.len() - 1] == c {
        without_trailing(s.take(s.len() - 1), c)
    } else {
        s
    }
}

/// `s` without the runs of `c` around it.
pub open spec fn without_around(s: Seq<char>, c: char) -> Seq<char> {
    without_trailing(without_leading(s, c), c)
}

/// `s` without the run of `c` in front.
pub fn trim_start_char(s: &[char], c: char) -> (r: &[char])
    ensures
        r@ == without_leading(s@, c),
{
    let mut i: usize = 0;
    assert(s@.skip(0) == s@);
    while i < s.len() && s[i] == c
        invariant
            i <= s@.len(),
            without_leading(s@, c) == without_leading(s@.skip(i as int), c),
        decreases s@.len() - i,
    {
        assert(s@.skip(i as int).skip(1) == s@.skip(i as int + 1));
        i += 1;
    }
    &s[i..s.len()]
}

/// `s` without the run of `c` at the end.
pub fn trim_end_char(s: &[char], c: char) -> (r: &[char])
    ensures
        r@ == without_trailing(s@, c),
{
    let mut n: usize = s.len();
    assert(s@.take(n as int) == s@);
    while n > 0 && s[n - 1] == c
        invariant
            n <= s@.len(),
            without_trailing(s@, c) == without_trailing(s@.take(n as int), c),
        decreases n,
    {
        assert(s@.take(n as int).take(n - 1) == s@.take(n - 1));
        n -= 1;
    }
    &s[0..n]
}

/// `s` without the runs of `c` around it.
pub fn trim_char(s: &[char], c: char) -> (r: &[char])
    ensures
        r@ == without_around(s@, c),
{
    trim_end_char(trim_start_char(s, c), c)
}

/// `line` without one carriage return at its end.
pub open spec fn without_return(line: Seq<char>) -> Seq<char> {
    if line.len() > 0 && line[line.len() - 1] == '\r' {
        line.take(line.len() - 1)
    } else {
        line
    }
}

/// The lines of `s`: what stands between line feeds, each without the carriage
/// return that its line feed may have in front. Nothing follows the last one.
pub open spec fn lines_of(s: Seq<char>) -> Seq<Seq<char>>
    decreases s.len(),
{
    proof {
        s.index_of_first_ensures('\n');
    }
    match s.index_of_first('\n') {
        Some(i) => seq![without_return(s.take(i))] + lines_of(s.skip(i + 1)),
        None => if s.len() == 0 {
            Seq::empty()
        } else {
            seq![s]
        },
    }
}

/// The lines of `s`.
pub fn lines<'a>(s: &'a [char]) -> (r: Vec<&'a [char]>)
    ensures
        list::pieces(r@) == lines_of(s@),
{
    let mut out: Vec<&'a [char]> = Vec::new();
    let mut rest: &'a [char] = s;
    assert(list::pieces(out@) + lines_of(s@) == lines_of(s@));
    loop
        invariant
            lines_of(s@) == list::pieces(out@) + lines_of(rest@),
        decreases rest@.len(),
    {
        let n: usize = rest.len();
        match find_char(rest, '\n') {
            Some(i) => {
                let line: &'a [char] = if i > 0 && rest[i - 1] == '\r' {
                    &rest[0..i - 1]
                } else {
                    &rest[0..i]
                };
                let ghost before = out@;
                let ghost held = rest@;
                assert(line@ == without_return(rest@.take(i as int)));
                out.push(line);
                rest = &rest[i + 1..n];
                assert(list::pieces(out@) + lines_of(rest@) == list::pieces(before) + (seq![line@]
                    + lines_of(rest@)));
            },
            None => {
                if n > 0 {
                    let ghost before = out@;
                    out.push(rest);
                    assert(list::pieces(out@) == list::pieces(before) + seq![rest@]);
                } else {
                    assert(list::pieces(out@) + lines_of(rest@) == list::pieces(out@));
                }
                return out;
            },
        }
    }
}

/// The parts of `s` between the characters `c`.
pub open spec fn split_at(s: Seq<char>, c: char) -> Seq<Seq<char>>
    decreases s.len(),
{
    proof {
        s.index_of_first_ensures(c);
    }
    match s.index_of_first(c) {
        Some(i) => seq![s.take(i)] + split_at(s.skip(i + 1), c),
        None => seq![s],
    }
}

/// The parts of `s` between the characters `c`.
pub fn split_char<'a>(s: &'a [char], c: char) -> (r: Vec<&'a [char]>)
    ensures
        list::pieces(r@) == split_at(s@, c),
{
    let mut out: Vec<&'a [char]> = Vec::new();
    let mut rest: &'a [char] = s;
    assert(list::pieces(out@) + split_at(s@, c) == split_at(s@, c));
    loop
        invariant
            split_at(s@, c) == list::pieces(out@) + split_at(rest@, c),
        decreases rest@.len(),
    {
        let n: usize = rest.len();
        let ghost before = out@;
        match find_char(rest, c) {
            Some(i) => {
                let part: &'a [char] = &rest[0..i];
                out.push(part);
                rest = &rest[i + 1..n];
                assert(list::pieces(out@) + split_at(rest@, c) == list::pieces(before) + (seq![part@]
                    + split_at(rest@, c)));
            },
            None => {
                out.push(rest);
                assert(list::pieces(out@) == list::pieces(before) + seq![rest@]);
                return out;
            },
        }
    }
}

/// The part of `s` before the first `c`, or all of it.
pub open spec fn before_char(s: Seq<char>, c: char) -> Seq<char> {
    match s.index_of_first(c) {
        Some(i) => s.take(i),
        None => s,
    }
}

/// The part of `s` before the first `c`, or all of it.
pub fn first_part(s: &[char], c: char) -> (r: &[char])
    ensures
        r@ == before_char(s@, c),
{
    match find_char(s, c) {
        Some(i) => &s[0..i],
        None => s,
    }
}

/// How many characters `s` starts with before its first white space.
pub open spec fn word_len(s: Seq<char>) -> int
    decreases s.len(),
{
    if s.len() > 0 && !is_white(s[0]) {
        1 + word_len(s.skip(1))
    } else {
        0
    }
}

/// A word is no longer than the text that it starts.
pub proof fn lemma_word_len(s: Seq<char>)
    ensures
        0 <= word_len(s) <= s.len(),
        s.len() > 0 && !is_white(s[0]) ==> word_len(s) > 0,
    decreases s.len(),
{
    if s.len() > 0 && !is_white(s[0]) {
        lemma_word_len(s.skip(1));
    }
}

/// Trimming in front only ever shortens, and leaves no white space in front.
pub proof fn lemma_trimmed_start(s: Seq<char>)
    ensures
        trimmed_start(s).len() <= s.len(),
        trimmed_start(s).len() > 0 ==> !is_white(trimmed_start(s)[0]),
    decreases s.len(),
{
    if s.len() > 0 && is_white(s[0]) {
        lemma_trimmed_start(s.skip(1));
    }
}

/// The words of `s`: its longest runs without white space.
pub open spec fn words_of(s: Seq<char>) -> Seq<Seq<char>>
    decreases s.len(),
{
    let t = trimmed_start(s);
    proof {
        lemma_trimmed_start(s);
        lemma_word_len(t);
    }
    if t.len() == 0 {
        Seq::empty()
    } else {
        seq![t.take(word_len(t))] + words_of(t.skip(word_len(t)))
    }
}

/// The length of the word that `s` starts with.
pub fn measure_word(s: &[char]) -> (r: usize)
    ensures
        r == word_len(s@),
        r <= s@.len(),
{
    let mut i: usize = 0;
    assert(s@.skip(0) == s@);
    while i < s.len() && !white(s[i])
        invariant
            i <= s@.len(),
            word_len(s@) == i + word_len(s@.skip(i as int)),
        decreases s@.len() - i,
    {
        assert(s@.skip(i as int).skip(1) == s@.skip(i as int + 1));
        i += 1;
    }
    i
}

/// The words of `s`.
pub fn words<'a>(s: &'a [char]) -> (r: Vec<&'a [char]>)
    ensures
        list::pieces(r@) == words_of(s@),
{
    let mut out: Vec<&'a [char]> = Vec::new();
    let mut rest: &'a [char] = s;
    assert(list::pieces(out@) + words_of(s@) == words_of(s@));
    loop
        invariant
            words_of(s@) == list::pieces(out@) + words_of(rest@),
        decreases rest@.len(),
    {
        let t: &'a [char] = trim_start(rest);
        proof {
            lemma_trimmed_start(rest@);
            lemma_word_len(t@);
        }
        let n: usize = t.len();
        if n == 0 {
            assert(list::pieces(out@) + words_of(rest@) == list::pieces(out@));
            return out;
        }
        let ghost before = out@;
        let k = measure_word(t);
        let word: &'a [char] = &t[0..k];
        out.push(word);
        rest = &t[k..n];
        assert(list::pieces(out@) + words_of(rest@) == list::pieces(before) + (seq![word@] + words_of(rest@)));
    }
}

/// `c` in lower case, where it is an ASCII letter.
pub open spec fn lower_char(c: char) -> char {
    if 'A' <= c <= 'Z' {
        (c as u32 + 32) as char
    } else {
        c
    }
}

/// `c` in upper case, where it is an ASCII letter.
pub open spec fn upper_char(c: char) -> char {
    if 'a' <= c <= 'z' {
        (c as u32 - 32) as char
    } else {
        c
    }
}

/// `c` in lower case, where it is an ASCII letter.
pub fn to_lower(c: char) -> (r: char)
    ensures
        r == lower_char(c),
{
    if 'A' <= c && c <= 'Z' {
        (c as u8 + 32) as char
    } else {
        c
    }
}

/// `c` in upper case, where it is an ASCII letter.
pub fn to_upper(c: char) -> (r: char)
    ensures
        r == upper_char(c),
{
    if 'a' <= c && c <= 'z' {
        (c as u8 - 32) as char
    } else {
        c
    }
}

/// Whether `c` is an ASCII letter.
pub open spec fn is_letter(c: char) -> bool {
    'A' <= c <= 'Z' || 'a' <= c <= 'z'
}

/// Whether `c` is an ASCII letter.
pub fn letter(c: char) -> (r: bool)
    ensures
        r == is_letter(c),
{
    ('A' <= c && c <= 'Z') || ('a' <= c && c <= 'z')
}

/// `s` with its ASCII letters in lower case.
pub open spec fn lowered(s: Seq<char>) -> Seq<char> {
    s.map_values(|c: char| lower_char(c))
}

/// `s` with its ASCII letters in lower case.
pub fn lower(s: &[char]) -> (r: Vec<char>)
    ensures
        r@ == lowered(s@),
{
    let mut out: Vec<char> = Vec::new();
    let mut i: usize = 0;
    while i < s.len()
        invariant
            i <= s@.len(),
            out@ == lowered(s@).take(i as int),
        decreases s@.len() - i,
    {
        out.push(to_lower(s[i]));
        i += 1;
    }
    out
}

/// Whether two texts differ in the case of ASCII letters at most.
pub open spec fn alike(a: Seq<char>, b: Seq<char>) -> bool {
    lowered(a) == lowered(b)
}

/// Whether two texts differ in the case of ASCII letters at most.
pub fn eq_ignore_case(a: &str, b: &str) -> (r: bool)
    ensures
        r == alike(a@, b@),
{
    let left = lower(&chars_of(a));
    let right = lower(&chars_of(b));
    same(&left, &right)
}

/// `s` with every `from` put in as `to`.
pub open spec fn swapped(s: Seq<char>, from: char, to: char) -> Seq<char> {
    s.map_values(|c: char| if c == from { to } else { c })
}

/// `s` with every `from` put in as `to`.
pub fn replace_char(s: &[char], from: char, to: char) -> (r: Vec<char>)
    ensures
        r@ == swapped(s@, from, to),
{
    let mut out: Vec<char> = Vec::new();
    let mut i: usize = 0;
    while i < s.len()
        invariant
            i <= s@.len(),
            out@ == swapped(s@, from, to).take(i as int),
        decreases s@.len() - i,
    {
        let c = s[i];
        out.push(if c == from { to } else { c });
        i += 1;
    }
    out
}

/// `s` with each `from`, taken from the left, put in as `to`.
pub open spec fn replaced(s: Seq<char>, from: Seq<char>, to: Seq<char>) -> Seq<char>
    decreases s.len(),
{
    proof {
        lemma_find_from(s, from, 0);
    }
    if from.len() == 0 {
        s
    } else {
        match find_text(s, from) {
            Some(i) => s.take(i) + to + replaced(s.skip(i + from.len()), from, to),
            None => s,
        }
    }
}

/// `s` with each `from`, taken from the left, put in as `to`. An empty `from`
/// stands for nothing.
pub fn replace(s: &[char], from: &str, to: &[char]) -> (r: Vec<char>)
    ensures
        r@ == replaced(s@, from@, to@),
{
    let wanted = chars_of(from);
    let mut out: Vec<char> = Vec::new();
    let mut rest: &[char] = s;
    if wanted.len() == 0 {
        push_all(&mut out, s);
        return out;
    }
    assert(out@ + replaced(s@, from@, to@) == replaced(s@, from@, to@));
    loop
        invariant
            wanted@ == from@,
            wanted@.len() > 0,
            replaced(s@, from@, to@) == out@ + replaced(rest@, from@, to@),
        decreases rest@.len(),
    {
        let n: usize = rest.len();
        match find_chars(rest, &wanted) {
            Some(i) => {
                let ghost before = out@;
                let head: &[char] = &rest[0..i];
                push_all(&mut out, head);
                push_all(&mut out, to);
                rest = &rest[i + wanted.len()..n];
                assert(out@ + replaced(rest@, from@, to@) == before + (head@ + to@ + replaced(
                    rest@,
                    from@,
                    to@,
                )));
            },
            None => {
                push_all(&mut out, rest);
                return out;
            },
        }
    }
}

/// The texts of `list` with `between` between each two of them.
pub open spec fn joined(list: Seq<Seq<char>>, between: Seq<char>) -> Seq<char>
    decreases list.len(),
{
    if list.len() == 0 {
        Seq::empty()
    } else if list.len() == 1 {
        list[0]
    } else {
        joined(list.drop_last(), between) + between + list.last()
    }
}

/// The texts of `list` with `between` between each two of them.
pub fn join(list: &Vec<String>, between: &str) -> (r: String)
    ensures
        r@ == joined(list::texts(list@), between@),
{
    let mut out = String::new();
    let mut i: usize = 0;
    while i < list.len()
        invariant
            i <= list@.len(),
            out@ == joined(list::texts(list@).take(i as int), between@),
        decreases list@.len() - i,
    {
        assert(list::texts(list@).take(i as int + 1).drop_last() == list::texts(list@).take(i as int));
        if i > 0 {
            out.append(between);
        }
        out.append(list[i].as_str());
        i += 1;
    }
    assert(list::texts(list@).take(i as int) == list::texts(list@));
    out
}

/// Whether `text` is one of the texts of `list`.
pub fn listed(list: &Vec<String>, text: &str) -> (r: bool)
    ensures
        r == list::texts(list@).contains(text@),
{
    let wanted = chars_of(text);
    let mut i: usize = 0;
    while i < list.len()
        invariant
            i <= list@.len(),
            wanted@ == text@,
            forall|j: int| 0 <= j < i ==> list::texts(list@)[j] != text@,
        decreases list@.len() - i,
    {
        if same_str(list[i].as_str(), text) {
            assert(list::texts(list@)[i as int] == text@);
            return true;
        }
        i += 1;
    }
    false
}

/// A copy of a list of strings.
pub fn copy_list(list: &Vec<String>) -> (r: Vec<String>)
    ensures
        list::texts(r@) == list::texts(list@),
{
    let mut out: Vec<String> = Vec::new();
    let mut i: usize = 0;
    while i < list.len()
        invariant
            i <= list@.len(),
            list::texts(out@) == list::texts(list@).take(i as int),
        decreases list@.len() - i,
    {
        out.push(list[i].as_str().to_owned());
        i += 1;
    }
    assert(list::texts(list@).take(i as int) == list::texts(list@));
    out
}

/// How many bytes a character takes in UTF-8.
pub open spec fn char_width(c: char) -> int {
    if c <= '\u{7f}' {
        1
    } else if c <= '\u{7ff}' {
        2
    } else if c <= '\u{ffff}' {
        3
    } else {
        4
    }
}

/// How many bytes a text takes in UTF-8.
pub open spec fn byte_len(s: Seq<char>) -> int
    decreases s.len(),
{
    if s.len() == 0 {
        0
    } else {
        byte_len(s.drop_last()) + char_width(s.last())
    }
}

/// How many bytes a text takes in UTF-8.
pub fn measure_bytes(s: &[char]) -> (r: u128)
    ensures
        r == byte_len(s@),
{
    let mut total: u128 = 0;
    let mut i: usize = 0;
    while i < s.len()
        invariant
            i <= s@.len(),
            total == byte_len(s@.take(i as int)),
            total <= 4 * i,
        decreases s@.len() - i,
    {
        assert(s@.take(i as int + 1).drop_last() == s@.take(i as int));
        let c = s[i];
        let width: u128 = if c <= '\u{7f}' {
            1
        } else if c <= '\u{7ff}' {
            2
        } else if c <= '\u{ffff}' {
            3
        } else {
            4
        };
        total = total + width;
        i += 1;
    }
    assert(s@.take(i as int) == s@);
    total
}

/// The lines of a text that ends with a line, and of one that follows it, are the lines
/// of the two one after the other.
pub proof fn lemma_lines_after_lines(s: Seq<char>, more: Seq<char>)
    requires
        s.len() > 0 ==> s.last() == '\n',
    ensures
        lines_of(s + more) == lines_of(s) + lines_of(more),
    decreases s.len(),
{
    if s.len() == 0 {
        assert(s + more == more);
        s.index_of_first_ensures('\n');
        assert(lines_of(s) + lines_of(more) == lines_of(more));
    } else {
        let all = s + more;
        s.index_of_first_ensures('\n');
        all.index_of_first_ensures('\n');
        assert(s[s.len() - 1] == '\n');
        assert(s.contains('\n'));
        assert(all[s.len() - 1] == '\n');
        assert(all.contains('\n'));
        let i = s.index_of_first('\n')->0;
        let j = all.index_of_first('\n')->0;
        assert(all[i] == '\n');
        if j < s.len() {
            assert(s[j] == all[j]);
        }
        assert(i == j);
        let rest = s.skip(i + 1);
        assert(all.take(i) == s.take(i));
        assert(all.skip(i + 1) == rest + more);
        if rest.len() > 0 {
            assert(rest.last() == s.last());
        }
        lemma_lines_after_lines(rest, more);
        let first = without_return(s.take(i));
        assert(seq![first] + (lines_of(rest) + lines_of(more)) == seq![first] + lines_of(rest)
            + lines_of(more));
    }
}

} // verus!
