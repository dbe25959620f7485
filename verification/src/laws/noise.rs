//! Laws on lines of a log that look like something and are not.

use vstd::prelude::*;

use crate::laws::text as base;
use crate::number;
use crate::report;
use crate::text;

verus! {

/// What neither is called an error nor a warning is no message: the first word before the
/// first colon has to be one of these two.
pub proof fn lemma_other_words(word: Seq<char>, code: Seq<char>, rest: Seq<char>)
    requires
        word.len() > 0,
        base::solid(word),
        !word.contains(':'),
        word != "error"@,
        word != "warning"@,
        !code.contains(':'),
        code.len() > 0 ==> text::is_white(code[0]),
    ensures
        report::graded((word + code).push(':') + rest) is None,
{
    let head = word + code;
    assert(!head.contains(':')) by {
        if head.contains(':') {
            let i = choose|i: int| 0 <= i < head.len() && head[i] == ':';
            if i < word.len() {
                assert(word[i] == ':');
            } else {
                assert(code[i - word.len()] == ':');
            }
        }
    }
    base::lemma_cut(head, ':', rest);
    let (a, b) = base::lemma_trimmed_is_tight(head);
    let bare = text::trimmed(head);
    assert(a == 0) by {
        if a > 0 {
            assert(head.take(a)[0] == word[0]);
        }
    }
    assert(b >= word.len()) by {
        if b < word.len() {
            let back = head.skip(b);
            assert(back[0] == word[b]);
        }
    }
    let tail = bare.skip(word.len() as int);
    assert(bare =~= word + tail);
    if tail.len() > 0 {
        assert(tail[0] == code[0]);
    }
    let e = Seq::<char>::empty();
    base::lemma_first_word(e, word, tail);
    assert(bare.take(text::word_len(bare)) =~= word);
}

/// What holds no colon is no message.
pub proof fn lemma_no_colon(rest: Seq<char>)
    requires
        !rest.contains(':'),
    ensures
        report::graded(rest) is None,
{
    base::lemma_uncut(rest, ':');
}

/// A place is a row and a column: two numbers with a comma between them, and nothing else.
pub proof fn lemma_no_place(s: Seq<char>, a: Seq<char>, b: Seq<char>)
    ensures
        !s.contains(',') ==> report::position(s) is None,
        !a.contains(',') && number::number(text::trimmed(a), 10, u32::MAX as int) is None
            ==> report::position(a.push(',') + b) is None,
        !a.contains(',') && number::number(text::trimmed(b), 10, u32::MAX as int) is None
            ==> report::position(a.push(',') + b) is None,
{
    if !s.contains(',') {
        base::lemma_uncut(s, ',');
    }
    if !a.contains(',') {
        base::lemma_cut(a, ',', b);
    }
}

/// A line that closes no bracket points at no place, and one that points at nothing else
/// names no file.
pub proof fn lemma_no_bracket(s: Seq<char>)
    requires
        !s.contains(')'),
    ensures
        report::positioned(s) is None,
        !s.contains(':') ==> report::unpositioned(s) is None,
{
    reveal_strlit("): ");
    reveal_strlit(" : error");
    reveal_strlit(" : warning");
    assert("): "@[0] == ')');
    assert("): "@.contains(')'));
    base::lemma_no_text(s, "): "@, ')');
    if !s.contains(':') {
        assert(" : error"@[1] == ':');
        assert(" : error"@.contains(':'));
        assert(" : warning"@[1] == ':');
        assert(" : warning"@.contains(':'));
        base::lemma_no_text(s, " : error"@, ':');
        base::lemma_no_text(s, " : warning"@, ':');
    }
}

/// How full a memory is has to be told in bytes, and by a number; and the percentage has
/// to follow.
pub proof fn lemma_no_figures(
    front: Seq<char>,
    label: Seq<char>,
    gap: Seq<char>,
    words: Seq<Seq<char>>,
)
    requires
        label.len() > 0,
        !front.contains(label[0]),
        forall|i: int| 0 <= i < gap.len() ==> #[trigger] gap[i] == ' ',
        words.len() > 0,
        forall|i: int|
            0 <= i < words.len() ==> (#[trigger] words[i]).len() > 0 && base::solid(words[i]),
        words[0][0] != ':',
        words.len() < 3 || words[1] != "bytes"@ || number::number(words[0], 10, u64::MAX as int)
            is None,
    ensures
        report::memory_of(front + label + (gap + text::joined(words, seq![' '])), label) is None,
{
    let told = text::joined(words, seq![' ']);
    base::lemma_cut_text_at_head(front, label, gap + told);
    base::lemma_words_read_back(words);
    assert(told.len() > 0 && told[0] == words[0][0]) by {
        if words.len() > 1 {
            let rest = words.skip(1);
            base::lemma_joined_first(words[0], rest, seq![' ']);
            assert(seq![words[0]] + rest =~= words);
        }
    }
    assert(!text::is_white(words[0][0]));
    lemma_blank_gap(gap, told);
}

proof fn lemma_blank_gap(gap: Seq<char>, rest: Seq<char>)
    requires
        forall|i: int| 0 <= i < gap.len() ==> #[trigger] gap[i] == ' ',
        rest.len() > 0,
        !text::is_white(rest[0]),
        rest[0] != ':',
    ensures
        report::after_gap(gap + rest) == rest,
    decreases gap.len(),
{
    if gap.len() == 0 {
        assert(gap + rest =~= rest);
    } else {
        assert((gap + rest)[0] == gap[0]);
        assert((gap + rest).skip(1) =~= gap.skip(1) + rest);
        lemma_blank_gap(gap.skip(1), rest);
    }
}

/// What a line does not speak of stays unknown.
pub proof fn lemma_no_label(line: Seq<char>, label: Seq<char>, c: char)
    requires
        label.contains(c),
        !line.contains(c),
    ensures
        report::memory_of(line, label) is None,
{
    base::lemma_no_text(line, label, c);
}

/// A part of a tally that counts something else than what was built and what failed makes
/// no difference.
pub proof fn lemma_other_part(parts: Seq<Seq<char>>, figure: nat, what: Seq<char>)
    requires
        figure <= usize::MAX,
        what.len() > 0,
        base::tight(what),
        what.last() != '=',
        !"succeeded"@.is_prefix_of(what),
        !"failed"@.is_prefix_of(what),
    ensures
        report::counts_in(parts.push(" "@ + number::decimal(figure) + (" "@ + what)))
            == report::counts_in(parts),
{
    let e = Seq::<char>::empty();
    crate::laws::report::lemma_tally_part(figure, what, e, e);
    let part = " "@ + number::decimal(figure) + (" "@ + what);
    assert(part + e + e =~= part);
    assert(parts.push(part).drop_last() =~= parts);
}

/// Messages that differ in anything but how often they appeared are kept apart.
pub proof fn lemma_kept_apart(
    diagnostics: Seq<report::DiagnosticView>,
    found: report::DiagnosticView,
)
    requires
        forall|i: int|
            0 <= i < diagnostics.len() ==> (#[trigger] diagnostics[i]).severity != found.severity
                || diagnostics[i].file != found.file || diagnostics[i].line != found.line
                || diagnostics[i].column != found.column || diagnostics[i].message
                != found.message,
    ensures
        report::merged(diagnostics, found) == diagnostics.push(found),
{
    report::lemma_repeated_from(diagnostics, found, 0);
}

/// A message that the report has is not added to it, whatever else about it differs.
pub proof fn lemma_kept_together(
    diagnostics: Seq<report::DiagnosticView>,
    at: int,
    noise: bool,
)
    requires
        0 <= at < diagnostics.len(),
    ensures
        report::merged(
            diagnostics,
            (report::DiagnosticView {
                from_build_system: noise,
                count: 1,
                ..diagnostics[at]
            }),
        ).len() == diagnostics.len(),
{
    let found = report::DiagnosticView { from_build_system: noise, count: 1, ..diagnostics[at] };
    report::lemma_repeated_from(diagnostics, found, 0);
    assert(report::repeats(diagnostics[at], found));
}

} // verus!
