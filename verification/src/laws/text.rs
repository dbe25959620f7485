//! Laws on cutting, trimming and joining text, and on numbers.

use vstd::prelude::*;

use crate::number;
use crate::order;
use crate::text;

verus! {

/// Whether a text is nothing but white space.
pub open spec fn blank(s: Seq<char>) -> bool {
    forall|i: int| 0 <= i < s.len() ==> text::is_white(#[trigger] s[i])
}

/// Whether a text has no white space around it.
pub open spec fn tight(s: Seq<char>) -> bool {
    s.len() > 0 ==> !text::is_white(s[0]) && !text::is_white(s.last())
}

/// Whether a text has no white space in it.
pub open spec fn solid(s: Seq<char>) -> bool {
    forall|i: int| 0 <= i < s.len() ==> !text::is_white(#[trigger] s[i])
}

/// Whether a text is nothing but one character over and over.
pub open spec fn run_of(s: Seq<char>, c: char) -> bool {
    forall|i: int| 0 <= i < s.len() ==> #[trigger] s[i] == c
}

proof fn lemma_trimmed_start(front: Seq<char>, rest: Seq<char>)
    requires
        blank(front),
        rest.len() > 0 ==> !text::is_white(rest[0]),
    ensures
        text::trimmed_start(front + rest) == rest,
    decreases front.len(),
{
    let s = front + rest;
    if front.len() == 0 {
        assert(s == rest);
    } else {
        assert(s[0] == front[0]);
        assert(s.skip(1) == front.skip(1) + rest);
        assert forall|i: int| 0 <= i < front.skip(1).len() implies text::is_white(
            #[trigger] front.skip(1)[i],
        ) by {
            assert(front.skip(1)[i] == front[i + 1]);
        }
        lemma_trimmed_start(front.skip(1), rest);
    }
}

proof fn lemma_trimmed_end(rest: Seq<char>, back: Seq<char>)
    requires
        blank(back),
        rest.len() > 0 ==> !text::is_white(rest.last()),
    ensures
        text::trimmed_end(rest + back) == rest,
    decreases back.len(),
{
    let s = rest + back;
    if back.len() == 0 {
        assert(s == rest);
    } else {
        assert(s[s.len() - 1] == back[back.len() - 1]);
        assert(s.take(s.len() - 1) == rest + back.drop_last());
        lemma_trimmed_end(rest, back.drop_last());
    }
}

/// Trimming takes away all the white space around a text and nothing else.
pub proof fn lemma_trimmed(front: Seq<char>, core: Seq<char>, back: Seq<char>)
    requires
        blank(front),
        blank(back),
        tight(core),
    ensures
        text::trimmed(front + core + back) == core,
        text::trimmed_start(front + core) == core,
{
    lemma_trimmed_start(front, core);
    if core.len() == 0 {
        let all = front + core + back;
        assert forall|i: int| 0 <= i < all.len() implies text::is_white(#[trigger] all[i]) by {
            if i < front.len() {
                assert(all[i] == front[i]);
            } else {
                assert(all[i] == back[i - front.len()]);
            }
        }
        lemma_trimmed_start(all, Seq::empty());
        assert(all + Seq::<char>::empty() == all);
        assert(text::trimmed(all) == core);
    } else {
        assert(front + core + back == front + (core + back));
        assert((core + back)[0] == core[0]);
        lemma_trimmed_start(front, core + back);
        lemma_trimmed_end(core, back);
    }
}

/// What has no white space around it is left as it is.
pub proof fn lemma_tight_kept(core: Seq<char>)
    requires
        tight(core),
    ensures
        text::trimmed(core) == core,
        text::trimmed_start(core) == core,
{
    lemma_trimmed(Seq::empty(), core, Seq::empty());
    assert(Seq::<char>::empty() + core + Seq::<char>::empty() == core);
    assert(Seq::<char>::empty() + core == core);
}

/// What has no white space in front keeps its front.
pub proof fn lemma_trimmed_front(s: Seq<char>)
    requires
        s.len() > 0 ==> !text::is_white(s[0]),
    ensures
        text::trimmed_start(s) == s,
{
    lemma_trimmed_start(Seq::empty(), s);
    assert(Seq::<char>::empty() + s == s);
}

/// Every text is trimmed by taking white space away in front and behind.
pub proof fn lemma_trimmed_is_tight(s: Seq<char>) -> (r: (int, int))
    ensures
        0 <= r.0 <= r.1 <= s.len(),
        text::trimmed(s) == s.subrange(r.0, r.1),
        tight(text::trimmed(s)),
        blank(s.take(r.0)),
        blank(s.skip(r.1)),
{
    let a = lemma_start_of(s);
    let t = text::trimmed_start(s);
    let b = lemma_end_of(t);
    assert(t == s.skip(a));
    assert(t.take(b) == s.subrange(a, a + b));
    assert forall|i: int| 0 <= i < s.skip(a + b).len() implies text::is_white(
        #[trigger] s.skip(a + b)[i],
    ) by {
        assert(s.skip(a + b)[i] == t.skip(b)[i]);
    }
    if b > 0 {
        assert(t.take(b)[0] == t[0]);
    }
    (a, a + b)
}

proof fn lemma_start_of(s: Seq<char>) -> (a: int)
    ensures
        0 <= a <= s.len(),
        text::trimmed_start(s) == s.skip(a),
        blank(s.take(a)),
        a < s.len() ==> !text::is_white(s[a]),
    decreases s.len(),
{
    if s.len() > 0 && text::is_white(s[0]) {
        let rest = s.skip(1);
        let a = lemma_start_of(rest);
        assert(rest.skip(a) == s.skip(a + 1));
        assert forall|i: int| 0 <= i < s.take(a + 1).len() implies text::is_white(
            #[trigger] s.take(a + 1)[i],
        ) by {
            if i > 0 {
                assert(rest.take(a)[i - 1] == s[i]);
            }
        }
        a + 1
    } else {
        assert(s.skip(0) == s);
        0
    }
}

proof fn lemma_end_of(s: Seq<char>) -> (b: int)
    ensures
        0 <= b <= s.len(),
        text::trimmed_end(s) == s.take(b),
        blank(s.skip(b)),
        b > 0 ==> !text::is_white(s[b - 1]),
    decreases s.len(),
{
    if s.len() > 0 && text::is_white(s[s.len() - 1]) {
        let rest = s.take(s.len() - 1);
        let b = lemma_end_of(rest);
        assert(rest.take(b) == s.take(b));
        assert forall|i: int| 0 <= i < s.skip(b).len() implies text::is_white(
            #[trigger] s.skip(b)[i],
        ) by {
            if i + b < s.len() - 1 {
                assert(rest.skip(b)[i] == s[i + b]);
            }
        }
        b
    } else {
        assert(s.take(s.len() as int) == s);
        s.len() as int
    }
}

proof fn lemma_without_leading(front: Seq<char>, rest: Seq<char>, c: char)
    requires
        run_of(front, c),
        rest.len() > 0 ==> rest[0] != c,
    ensures
        text::without_leading(front + rest, c) == rest,
    decreases front.len(),
{
    let s = front + rest;
    if front.len() == 0 {
        assert(s == rest);
    } else {
        assert(s[0] == front[0]);
        assert(s.skip(1) == front.skip(1) + rest);
        assert forall|i: int| 0 <= i < front.skip(1).len() implies #[trigger] front.skip(1)[i]
            == c by {
            assert(front.skip(1)[i] == front[i + 1]);
        }
        lemma_without_leading(front.skip(1), rest, c);
    }
}

proof fn lemma_without_trailing(rest: Seq<char>, back: Seq<char>, c: char)
    requires
        run_of(back, c),
        rest.len() > 0 ==> rest.last() != c,
    ensures
        text::without_trailing(rest + back, c) == rest,
    decreases back.len(),
{
    let s = rest + back;
    if back.len() == 0 {
        assert(s == rest);
    } else {
        assert(s[s.len() - 1] == back[back.len() - 1]);
        assert(s.take(s.len() - 1) == rest + back.drop_last());
        lemma_without_trailing(rest, back.drop_last(), c);
    }
}

/// Taking a character away around a text takes away all of it there and nothing else.
pub proof fn lemma_without_around(front: Seq<char>, core: Seq<char>, back: Seq<char>, c: char)
    requires
        run_of(front, c),
        run_of(back, c),
        core.len() > 0,
        core[0] != c,
        core.last() != c,
    ensures
        text::without_leading(front + core, c) == core,
        text::without_trailing(core + back, c) == core,
        text::without_around(front + core + back, c) == core,
{
    lemma_without_leading(front, core, c);
    lemma_without_trailing(core, back, c);
    assert(front + core + back == front + (core + back));
    assert((core + back)[0] == core[0]);
    lemma_without_leading(front, core + back, c);
}

/// A text that does not hold a character is not cut at it.
pub proof fn lemma_uncut(s: Seq<char>, c: char)
    requires
        !s.contains(c),
    ensures
        text::cut_at_char(s, c) is None,
        text::split_at(s, c) == seq![s],
        text::before_char(s, c) == s,
{
    s.index_of_first_ensures(c);
}

/// A text is cut at the first occurrence of a character.
pub proof fn lemma_cut(a: Seq<char>, c: char, b: Seq<char>)
    requires
        !a.contains(c),
    ensures
        text::cut_at_char(a.push(c) + b, c) == Some((a, b)),
        text::split_at(a.push(c) + b, c) == seq![a] + text::split_at(b, c),
        text::before_char(a.push(c) + b, c) == a,
{
    let s = a.push(c) + b;
    s.index_of_first_ensures(c);
    assert(s[a.len() as int] == c);
    assert(s.contains(c));
    let i = s.index_of_first(c)->0;
    if i < a.len() {
        assert(a[i] == s[i]);
        assert(a.contains(c));
    }
    assert(i == a.len());
    assert(s.take(i) == a);
    assert(s.skip(i + 1) == b);
}

/// The parts of two texts with a character between them are the parts of the first and
/// then those of the second.
pub proof fn lemma_split_in_two(a: Seq<char>, c: char, b: Seq<char>)
    ensures
        text::split_at(a.push(c) + b, c) == text::split_at(a, c) + text::split_at(b, c),
    decreases a.len(),
{
    a.index_of_first_ensures(c);
    if !a.contains(c) {
        lemma_cut(a, c, b);
        lemma_uncut(a, c);
    } else {
        let i = a.index_of_first(c)->0;
        let front = a.take(i);
        let rest = a.skip(i + 1);
        assert(!front.contains(c)) by {
            if front.contains(c) {
                let j = choose|j: int| 0 <= j < front.len() && front[j] == c;
                assert(a[j] == c);
            }
        }
        assert(a == front.push(c) + rest);
        assert(a.push(c) + b == front.push(c) + (rest.push(c) + b));
        lemma_cut(front, c, rest.push(c) + b);
        lemma_cut(front, c, rest);
        lemma_split_in_two(rest, c, b);
        assert(seq![front] + (text::split_at(rest, c) + text::split_at(b, c)) == seq![front]
            + text::split_at(rest, c) + text::split_at(b, c));
    }
}

/// A text is cut at the first occurrence of another.
pub proof fn lemma_cut_text(a: Seq<char>, p: Seq<char>, b: Seq<char>)
    requires
        forall|j: int| 0 <= j < a.len() ==> !text::occurs_at(a + p + b, p, j),
    ensures
        text::find_text(a + p + b, p) == Some(a.len() as int),
        text::cut_at_text(a + p + b, p) == Some((a, b)),
        text::has_text(a + p + b, p),
{
    let s = a + p + b;
    text::lemma_find_from(s, p, 0);
    assert(s.subrange(a.len() as int, (a.len() + p.len()) as int) == p);
    assert(text::occurs_at(s, p, a.len() as int));
    assert(s.take(a.len() as int) == a);
    assert(s.skip((a.len() + p.len()) as int) == b);
}

/// A text cannot stand where its first character does not.
pub proof fn lemma_cut_text_at_head(a: Seq<char>, p: Seq<char>, b: Seq<char>)
    requires
        p.len() > 0,
        !a.contains(p[0]),
    ensures
        text::find_text(a + p + b, p) == Some(a.len() as int),
        text::cut_at_text(a + p + b, p) == Some((a, b)),
        text::has_text(a + p + b, p),
{
    let s = a + p + b;
    assert forall|j: int| 0 <= j < a.len() implies !text::occurs_at(s, p, j) by {
        if text::occurs_at(s, p, j) {
            assert(s.subrange(j, j + p.len())[0] == s[j]);
            assert(a[j] == s[j]);
            assert(a.contains(p[0]));
        }
    }
    lemma_cut_text(a, p, b);
}

/// A text that does not hold the first character of another does not hold the other.
pub proof fn lemma_no_text(s: Seq<char>, p: Seq<char>, c: char)
    requires
        p.contains(c),
        !s.contains(c),
    ensures
        text::find_text(s, p) is None,
        !text::has_text(s, p),
        text::cut_at_text(s, p) is None,
{
    text::lemma_find_from(s, p, 0);
    if let Some(i) = text::find_text(s, p) {
        let k = choose|k: int| 0 <= k < p.len() && p[k] == c;
        assert(s.subrange(i, i + p.len())[k] == s[i + k]);
        assert(s.contains(c));
    }
}

/// Every text that is found stands there, nowhere before, and what is cut is what stands
/// around it.
pub proof fn lemma_cut_text_whole(s: Seq<char>, p: Seq<char>)
    ensures
        match text::cut_at_text(s, p) {
            Some((a, b)) => s == a + p + b && (forall|j: int|
                0 <= j < a.len() ==> !text::occurs_at(s, p, j)),
            None => forall|j: int| !text::occurs_at(s, p, j),
        },
{
    text::lemma_find_from(s, p, 0);
    if let Some(i) = text::find_text(s, p) {
        assert(s.subrange(i, i + p.len()) == p);
        assert(s == s.take(i) + p + s.skip(i + p.len()));
    }
}

/// A line that ends in a line feed is the first of the lines.
pub proof fn lemma_first_line(line: Seq<char>, rest: Seq<char>)
    requires
        !line.contains('\n'),
        line.len() > 0 ==> line.last() != '\r',
    ensures
        text::lines_of(line.push('\n') + rest) == seq![line] + text::lines_of(rest),
{
    let s = line.push('\n') + rest;
    s.index_of_first_ensures('\n');
    assert(s[line.len() as int] == '\n');
    assert(s.contains('\n'));
    let i = s.index_of_first('\n')->0;
    if i < line.len() {
        assert(line[i] == s[i]);
        assert(line.contains('\n'));
    }
    assert(i == line.len());
    assert(s.take(i) == line);
    assert(s.skip(i + 1) == rest);
}

/// Whether texts can be written down as lines and read back.
pub open spec fn are_lines(lines: Seq<Seq<char>>) -> bool {
    forall|i: int|
        0 <= i < lines.len() ==> !(#[trigger] lines[i]).contains('\n') && (lines[i].len() > 0
            ==> lines[i].last() != '\r')
}

/// Lines, each with a line feed behind it.
pub open spec fn written_lines(lines: Seq<Seq<char>>) -> Seq<char>
    decreases lines.len(),
{
    if lines.len() == 0 {
        Seq::empty()
    } else {
        lines[0].push('\n') + written_lines(lines.skip(1))
    }
}

/// Lines that are written down are read back.
pub proof fn lemma_lines_read_back(lines: Seq<Seq<char>>)
    requires
        are_lines(lines),
    ensures
        text::lines_of(written_lines(lines)) == lines,
    decreases lines.len(),
{
    if lines.len() == 0 {
        let s = Seq::<char>::empty();
        s.index_of_first_ensures('\n');
        assert(text::lines_of(s) == lines);
    } else {
        let rest = lines.skip(1);
        assert forall|i: int| 0 <= i < rest.len() implies !(#[trigger] rest[i]).contains('\n') && (
        rest[i].len() > 0 ==> rest[i].last() != '\r') by {
            assert(rest[i] == lines[i + 1]);
        }
        lemma_lines_read_back(rest);
        assert(!lines[0].contains('\n'));
        lemma_first_line(lines[0], written_lines(rest));
        assert(seq![lines[0]] + rest == lines);
    }
}

proof fn lemma_word_end(word: Seq<char>, rest: Seq<char>)
    requires
        solid(word),
        rest.len() > 0 ==> text::is_white(rest[0]),
    ensures
        text::word_len(word + rest) == word.len(),
    decreases word.len(),
{
    let s = word + rest;
    if word.len() == 0 {
        assert(s == rest);
    } else {
        assert(s[0] == word[0]);
        assert(s.skip(1) == word.skip(1) + rest);
        assert forall|i: int| 0 <= i < word.skip(1).len() implies !text::is_white(
            #[trigger] word.skip(1)[i],
        ) by {
            assert(word.skip(1)[i] == word[i + 1]);
        }
        lemma_word_end(word.skip(1), rest);
    }
}

/// A word is what stands in front of the first white space, and the words of a text are
/// its first word and those of the rest.
pub proof fn lemma_first_word(front: Seq<char>, word: Seq<char>, rest: Seq<char>)
    requires
        blank(front),
        solid(word),
        word.len() > 0,
        rest.len() > 0 ==> text::is_white(rest[0]),
    ensures
        text::words_of(front + word + rest) == seq![word] + text::words_of(rest),
        text::word_len(word + rest) == word.len(),
{
    let s = front + word + rest;
    assert(s == front + (word + rest));
    assert((word + rest)[0] == word[0]);
    lemma_trimmed_start(front, word + rest);
    lemma_word_end(word, rest);
    assert((word + rest).take(word.len() as int) == word);
    assert((word + rest).skip(word.len() as int) == rest);
}

proof fn lemma_decimal_value(n: nat)
    ensures
        number::decimal(n).len() > 0,
        number::all_digits(number::decimal(n), 10),
        number::digits_value(number::decimal(n), 10) == n,
    decreases n,
{
    reveal_with_fuel(number::digits_value, 2);
    let d = number::decimal(n);
    if n < 10 {
        assert(d.drop_last() == Seq::<char>::empty());
        assert(d.last() == number::digit(n as int));
    } else {
        let front = number::decimal(n / 10);
        lemma_decimal_value(n / 10);
        assert(d.drop_last() == front);
        assert(d.last() == number::digit(n as int % 10));
        assert forall|i: int| 0 <= i < d.len() implies number::is_digit(#[trigger] d[i])
            && number::digit_value(d[i]) < 10 by {
            if i < front.len() {
                assert(d[i] == front[i]);
            }
        }
    }
}

/// A number that is written down is read back.
pub proof fn lemma_number_read_back(n: nat, max: int)
    requires
        n <= max,
    ensures
        number::number(number::decimal(n), 10, max) == Some(n as int),
        number::decimal(n).len() > 0,
        solid(number::decimal(n)),
        tight(number::decimal(n)),
        forall|c: char| !number::is_digit(c) ==> !#[trigger] number::decimal(n).contains(c),
{
    let d = number::decimal(n);
    lemma_decimal_value(n);
    assert(number::is_digit(d[0]));
    assert(number::without_plus(d) == d);
    assert forall|i: int| 0 <= i < d.len() implies !text::is_white(#[trigger] d[i]) by {
        assert(number::is_digit(d[i]));
    }
    assert(!text::is_white(d[d.len() - 1]));
    assert forall|c: char| !number::is_digit(c) implies !#[trigger] d.contains(c) by {
        if d.contains(c) {
            let i = choose|i: int| 0 <= i < d.len() && d[i] == c;
            assert(number::is_digit(d[i]));
        }
    }
}

/// Numbers that are written the same are the same.
pub proof fn lemma_decimals_differ(a: nat, b: nat)
    requires
        number::decimal(a) == number::decimal(b),
    ensures
        a == b,
{
    lemma_decimal_value(a);
    lemma_decimal_value(b);
}

/// One character is put in for another wherever it stands, and nowhere else.
pub proof fn lemma_swapped(s: Seq<char>, from: char, to: char)
    ensures
        text::swapped(s, from, to).len() == s.len(),
        forall|i: int|
            0 <= i < s.len() ==> #[trigger] text::swapped(s, from, to)[i] == if s[i] == from {
                to
            } else {
                s[i]
            },
        from != to ==> !text::swapped(s, from, to).contains(from),
{
}

/// Texts are put together with something between each two of them: the first, and then
/// the others.
pub proof fn lemma_joined_first(first: Seq<char>, rest: Seq<Seq<char>>, between: Seq<char>)
    requires
        rest.len() > 0,
    ensures
        text::joined(seq![first] + rest, between) == first + between + text::joined(rest, between),
    decreases rest.len(),
{
    let all = seq![first] + rest;
    if rest.len() == 1 {
        assert(all.drop_last() == seq![first]);
        assert(all.last() == rest[0]);
        assert(text::joined(seq![first], between) == first);
        assert(text::joined(rest, between) == rest[0]);
        assert(text::joined(all, between) == text::joined(all.drop_last(), between) + between
            + all.last());
    } else {
        lemma_joined_first(first, rest.drop_last(), between);
        assert(all.drop_last() == seq![first] + rest.drop_last());
        assert(all.last() == rest.last());
        assert(text::joined(all, between) == text::joined(all.drop_last(), between) + between
            + all.last());
        assert(first + between + text::joined(rest.drop_last(), between) + between + rest.last()
            == first + between + (text::joined(rest.drop_last(), between) + between
            + rest.last()));
    }
}

/// Names that are put together with a character between them that none of them holds
/// come apart at that character.
pub proof fn lemma_joined_splits(names: Seq<Seq<char>>, c: char)
    requires
        names.len() > 0,
        forall|i: int| 0 <= i < names.len() ==> !(#[trigger] names[i]).contains(c),
    ensures
        text::split_at(text::joined(names, seq![c]), c) == names,
    decreases names.len(),
{
    if names.len() == 1 {
        assert(!names[0].contains(c));
        lemma_uncut(names[0], c);
        assert(seq![names[0]] == names);
    } else {
        let rest = names.skip(1);
        assert forall|i: int| 0 <= i < rest.len() implies !(#[trigger] rest[i]).contains(c) by {
            assert(rest[i] == names[i + 1]);
        }
        lemma_joined_splits(rest, c);
        lemma_joined_first(names[0], rest, seq![c]);
        assert(seq![names[0]] + rest == names);
        let tail = text::joined(rest, seq![c]);
        assert(names[0] + seq![c] + tail == names[0].push(c) + tail);
        assert(!names[0].contains(c));
        lemma_cut(names[0], c, tail);
    }
}

/// Putting names together with one character and changing it into another is putting
/// them together with the other.
pub proof fn lemma_joined_swapped(names: Seq<Seq<char>>, from: char, to: char)
    requires
        forall|i: int| 0 <= i < names.len() ==> !(#[trigger] names[i]).contains(from),
    ensures
        text::swapped(text::joined(names, seq![from]), from, to) == text::joined(names, seq![to]),
    decreases names.len(),
{
    if names.len() == 0 {
        assert(text::swapped(Seq::<char>::empty(), from, to) == Seq::<char>::empty());
    } else {
        let last = names.last();
        assert(!names[names.len() - 1].contains(from));
        assert(text::swapped(last, from, to) == last) by {
            assert forall|i: int| 0 <= i < last.len() implies last[i] != from by {
                assert(last.contains(last[i]));
            }
        }
        if names.len() > 1 {
            let front = names.drop_last();
            assert forall|i: int| 0 <= i < front.len() implies !(#[trigger] front[i]).contains(
                from,
            ) by {
                assert(front[i] == names[i]);
            }
            lemma_joined_swapped(front, from, to);
            let head = text::joined(front, seq![from]);
            assert(text::swapped(head + seq![from] + last, from, to) == text::swapped(
                head,
                from,
                to,
            ) + seq![to] + text::swapped(last, from, to));
        }
    }
}

/// A text in lower case has the same letters and no capital ones; texts are alike if and
/// only if they differ in the case of ASCII letters at most.
pub proof fn lemma_alike(a: Seq<char>, b: Seq<char>)
    ensures
        text::alike(a, b) <==> a.len() == b.len() && forall|i: int|
            0 <= i < a.len() ==> (#[trigger] a[i] == b[i] || ('A' <= a[i] <= 'Z' && b[i] as int
                == a[i] as int + 32) || ('a' <= a[i] <= 'z' && b[i] as int == a[i] as int - 32)),
        text::lowered(a).len() == a.len(),
        forall|i: int| 0 <= i < a.len() ==> !('A' <= #[trigger] text::lowered(a)[i] <= 'Z'),
        text::alike(a, text::lowered(a)),
{
    let x = text::lowered(a);
    let y = text::lowered(b);
    assert(text::lowered(x) == x);
    if x == y {
        assert forall|i: int| 0 <= i < a.len() implies (#[trigger] a[i] == b[i] || ('A' <= a[i]
            <= 'Z' && b[i] as int == a[i] as int + 32) || ('a' <= a[i] <= 'z' && b[i] as int
            == a[i] as int - 32)) by {
            assert(x[i] == y[i]);
            assert(x[i] == text::lower_char(a[i]));
            assert(y[i] == text::lower_char(b[i]));
        }
        assert(x.len() == y.len());
    }
    if a.len() == b.len() && forall|i: int|
        0 <= i < a.len() ==> (#[trigger] a[i] == b[i] || ('A' <= a[i] <= 'Z' && b[i] as int
            == a[i] as int + 32) || ('a' <= a[i] <= 'z' && b[i] as int == a[i] as int - 32)) {
        assert forall|i: int| 0 <= i < a.len() implies x[i] == y[i] by {
            assert(a[i] == a[i]);
            assert(x[i] == text::lower_char(a[i]));
            assert(y[i] == text::lower_char(b[i]));
        }
        assert(x == y);
    }
}

/// A text is put in for another at its first occurrence and then in the rest, and nowhere
/// where the other does not stand.
pub proof fn lemma_replaced(a: Seq<char>, from: Seq<char>, b: Seq<char>, to: Seq<char>)
    requires
        from.len() > 0,
        forall|j: int| 0 <= j < a.len() ==> !text::occurs_at(a + from + b, from, j),
    ensures
        text::replaced(a + from + b, from, to) == a + to + text::replaced(b, from, to),
{
    lemma_cut_text(a, from, b);
    let s = a + from + b;
    assert(s.take(a.len() as int) == a);
    assert(s.skip((a.len() + from.len()) as int) == b);
}


/// A dot before an extension is no part of it.
pub proof fn lemma_joined_dot(extension: Seq<char>)
    requires
        extension.len() > 0,
        extension[0] != '.',
    ensures
        text::without_leading(extension, '.') == extension,
        text::without_leading(seq!['.'] + extension, '.') == extension,
{
    lemma_without_leading(seq!['.'], extension, '.');
}


/// A run of a character at the end goes, and nothing else does.
pub proof fn lemma_trailing(rest: Seq<char>, back: Seq<char>, c: char)
    requires
        run_of(back, c),
        rest.len() > 0 ==> rest.last() != c,
    ensures
        text::without_trailing(rest + back, c) == rest,
{
    lemma_without_trailing(rest, back, c);
}

/// What is left when a run of a character at the end goes is the front of the text.
pub proof fn lemma_trailing_part(s: Seq<char>, c: char)
    ensures
        text::without_trailing(s, c).len() <= s.len(),
        forall|i: int|
            0 <= i < text::without_trailing(s, c).len() ==> #[trigger] text::without_trailing(
                s,
                c,
            )[i] == s[i],
    decreases s.len(),
{
    if s.len() > 0 && s[s.len() - 1] == c {
        lemma_trailing_part(s.take(s.len() - 1), c);
    }
}

proof fn lemma_cut_line(held: Seq<char>, rest: Seq<char>)
    requires
        !held.contains('\n'),
    ensures
        text::lines_of(held.push('\n') + rest) == seq![text::without_return(held)]
            + text::lines_of(rest),
{
    let s = held.push('\n') + rest;
    let k = held.len() as int;
    s.index_of_first_ensures('\n');
    assert(s[k] == '\n');
    assert(s.index_of_first('\n') == Some(k)) by {
        let i = s.index_of_first('\n')->0;
        if i < k {
            assert(held[i] == '\n');
        }
    }
    assert(s.take(k) =~= held);
    assert(s.skip(k + 1) =~= rest);
}

/// A line ends at a line feed, with or without a carriage return before it.
pub proof fn lemma_line_ends(line: Seq<char>, rest: Seq<char>)
    requires
        !line.contains('\n'),
    ensures
        text::lines_of(line.push('\r').push('\n') + rest) == seq![line] + text::lines_of(rest),
{
    let held = line.push('\r');
    assert(!held.contains('\n')) by {
        if held.contains('\n') {
            let i = choose|i: int| 0 <= i < held.len() && held[i] == '\n';
            assert(line[i] == '\n');
        }
    }
    lemma_cut_line(held, rest);
    assert(text::without_return(held) =~= line);
}

/// The last line may end with the text, and a text without lines has none.
pub proof fn lemma_last_line(line: Seq<char>)
    requires
        !line.contains('\n'),
    ensures
        line.len() > 0 ==> text::lines_of(line) == seq![line],
        text::lines_of(Seq::empty()) == Seq::<Seq<char>>::empty(),
{
    line.index_of_first_ensures('\n');
    Seq::<char>::empty().index_of_first_ensures('\n');
}

/// The white space that is trimmed is that of Unicode.
pub proof fn lemma_white_space(c: char)
    ensures
        ({
            let n = c as int;
            text::is_white(c) <==> 9 <= n <= 13 || n == 32 || n == 133 || n == 160 || n == 5760
                || 8192 <= n <= 8202 || n == 8232 || n == 8233 || n == 8239 || n == 8287 || n
                == 12288
        }),
{
}

/// The words of a text are what stands between its white space.
pub proof fn lemma_words_read_back(words: Seq<Seq<char>>)
    requires
        forall|i: int|
            0 <= i < words.len() ==> (#[trigger] words[i]).len() > 0 && solid(words[i]),
    ensures
        text::words_of(text::joined(words, seq![' '])) == words,
    decreases words.len(),
{
    if words.len() == 0 {
        assert(text::words_of(Seq::<char>::empty()) =~= words);
    } else if words.len() == 1 {
        let e = Seq::<char>::empty();
        assert(e + words[0] + e =~= words[0]);
        lemma_first_word(e, words[0], e);
        assert(text::words_of(e) =~= Seq::<Seq<char>>::empty());
        assert(words =~= seq![words[0]]);
    } else {
        let rest = words.skip(1);
        assert forall|i: int| 0 <= i < rest.len() implies (#[trigger] rest[i]).len() > 0 && solid(
            rest[i],
        ) by {
            assert(rest[i] == words[i + 1]);
        }
        lemma_words_read_back(rest);
        lemma_joined_first(words[0], rest, seq![' ']);
        assert(seq![words[0]] + rest =~= words);
        let tail = text::joined(rest, seq![' ']);
        let e = Seq::<char>::empty();
        assert(e + words[0] + (seq![' '] + tail) =~= words[0] + seq![' '] + tail);
        lemma_first_word(e, words[0], seq![' '] + tail);
        lemma_leading_blank(tail);
    }
}

proof fn lemma_leading_blank(s: Seq<char>)
    ensures
        text::words_of(seq![' '] + s) == text::words_of(s),
{
    let more = seq![' '] + s;
    assert(more.skip(1) =~= s);
    assert(text::trimmed_start(more) == text::trimmed_start(s));
}

/// A number is read with or without a plus before it, and nothing else is one: no other
/// character may stand in it, and it may not be larger than what it is read as.
pub proof fn lemma_numbers(n: nat, max: int, s: Seq<char>, i: int)
    ensures
        n <= max ==> number::number(seq!['+'] + number::decimal(n), 10, max) == Some(n as int),
        n > max ==> number::number(number::decimal(n), 10, max) is None,
        number::number(Seq::empty(), 10, max) is None,
        0 <= i < s.len() && !('0' <= s[i] <= '9') && !(i == 0 && s[i] == '+') ==> number::number(
            s,
            10,
            max,
        ) is None,
{
    lemma_decimal_value(n);
    let d = number::decimal(n);
    let more = seq!['+'] + d;
    assert(more.skip(1) =~= d);
    number::lemma_decimal_digits(n);
    assert(number::is_digit(d[0]));
    assert(number::without_plus(d) == d);
    if 0 <= i < s.len() && !('0' <= s[i] <= '9') && !(i == 0 && s[i] == '+') {
        let digits = number::without_plus(s);
        if s[0] == '+' {
            assert(digits[i - 1] == s[i]);
        } else {
            assert(digits[i] == s[i]);
        }
    }
}

/// Capital letters and small ones are each other's, and other characters have no other.
pub proof fn lemma_capitals(c: char)
    ensures
        'a' <= c <= 'z' ==> text::upper_char(c) as int == c as int - 32 && text::lower_char(
            text::upper_char(c),
        ) == c,
        'A' <= c <= 'Z' ==> text::lower_char(c) as int == c as int + 32 && text::upper_char(
            text::lower_char(c),
        ) == c,
        !('a' <= c <= 'z') && !('A' <= c <= 'Z') ==> text::upper_char(c) == c && text::lower_char(c)
            == c,
{
}

/// Texts are in order like words in a dictionary: the first character that differs
/// decides, and what is a part of something longer comes before it.
pub proof fn lemma_dictionary_order(
    front: Seq<char>,
    a: char,
    b: char,
    x: Seq<char>,
    y: Seq<char>,
)
    ensures
        a != b ==> order::text_before(front.push(a) + x, front.push(b) + y) == (a < b),
        order::text_before(front, front.push(a) + x),
        !order::text_before(front.push(a) + x, front),
    decreases front.len(),
{
    let p = front.push(a) + x;
    let q = front.push(b) + y;
    if front.len() == 0 {
        assert(p[0] == a && q[0] == b);
    } else {
        let rest = front.skip(1);
        lemma_dictionary_order(rest, a, b, x, y);
        assert(p[0] == front[0] && q[0] == front[0]);
        assert(p.skip(1) =~= rest.push(a) + x);
        assert(q.skip(1) =~= rest.push(b) + y);
    }
}

} // verus!
