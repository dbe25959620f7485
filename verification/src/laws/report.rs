//! Laws on build logs.

use vstd::prelude::*;

use crate::laws::text as base;
use crate::number;
use crate::report;
use crate::report::Severity;
use crate::text;

verus! {

/// The word for a severity.
pub open spec fn word_of(severity: Severity) -> Seq<char> {
    match severity {
        Severity::Error => "error"@,
        Severity::Warning => "warning"@,
    }
}

proof fn lemma_words(severity: Severity)
    ensures
        word_of(severity).len() > 0,
        base::solid(word_of(severity)),
        !word_of(severity).contains(':'),
        report::severity_named(word_of(severity)) == Some(severity),
{
    reveal_strlit("error");
    reveal_strlit("warning");
    assert("error"@.len() != "warning"@.len());
}

/// What follows the place of a message: its severity and its text.
pub open spec fn spoken(severity: Severity, message: Seq<char>) -> Seq<char> {
    word_of(severity).push(':') + (seq![' '] + message)
}

/// What follows the place of a message that has a code.
pub open spec fn spoken_with_code(severity: Severity, code: Seq<char>, message: Seq<char>) -> Seq<
    char,
> {
    (word_of(severity) + seq![' '] + code).push(':') + (seq![' '] + message)
}

/// A message keeps its severity and the whole of its text, colons in it included. A code
/// in front of the colon stays in front of the text.
pub proof fn lemma_severity_read_back(severity: Severity, code: Seq<char>, message: Seq<char>)
    requires
        base::tight(message),
        base::tight(code),
        code.len() > 0,
        !code.contains(':'),
    ensures
        report::graded(spoken(severity, message)) == Some((severity, message)),
        report::graded(spoken_with_code(severity, code, message)) == Some(
            (severity, code + ": "@ + message),
        ),
{
    let word = word_of(severity);
    lemma_words(severity);
    base::lemma_trimmed(seq![' '], message, Seq::empty());
    assert(seq![' '] + message + Seq::<char>::empty() == seq![' '] + message);
    // Without a code.
    base::lemma_cut(word, ':', seq![' '] + message);
    assert(base::tight(word));
    base::lemma_tight_kept(word);
    base::lemma_first_word(Seq::empty(), word, Seq::empty());
    assert(word + Seq::<char>::empty() == word);
    assert(word.take(word.len() as int) == word);
    assert(word.skip(word.len() as int) == Seq::<char>::empty());
    base::lemma_tight_kept(Seq::empty());
    // With a code.
    let tail = seq![' '] + code;
    let head = word + seq![' '] + code;
    assert(head == word + tail);
    assert(!head.contains(':')) by {
        if head.contains(':') {
            let i = choose|i: int| 0 <= i < head.len() && head[i] == ':';
            if i < word.len() {
                assert(word[i] == ':');
            } else if i > word.len() {
                assert(code[i - word.len() - 1] == ':');
            }
        }
    }
    base::lemma_cut(head, ':', seq![' '] + message);
    assert(head[0] == word[0]);
    assert(head.last() == code.last());
    base::lemma_tight_kept(head);
    base::lemma_first_word(Seq::empty(), word, tail);
    assert(head.take(word.len() as int) == word);
    assert(head.skip(word.len() as int) == tail);
    base::lemma_trimmed(seq![' '], code, Seq::empty());
    assert(seq![' '] + code + Seq::<char>::empty() == tail);
}

/// A place in a file in front of what follows it.
pub open spec fn placed(file: Seq<char>, row: nat, column: nat, rest: Seq<char>) -> Seq<char> {
    file + ("("@ + number::decimal(row) + ","@ + number::decimal(column)) + "): "@ + rest
}

/// A place in a file is read back: the file, the line, the column and what follows.
pub proof fn lemma_place_read_back(file: Seq<char>, row: nat, column: nat, rest: Seq<char>)
    requires
        file.len() > 0,
        forall|j: int| !#[trigger] text::occurs_at(file, "): "@, j),
        row <= u32::MAX,
        column <= u32::MAX,
    ensures
        report::positioned(placed(file, row, column, rest)) == Some(
            (report::PointedView { file: file, line: row, column: column, rest: rest }),
        ),
{
    reveal_strlit("): ");
    reveal_strlit("(");
    reveal_strlit(",");
    let r = number::decimal(row);
    let c = number::decimal(column);
    base::lemma_number_read_back(row, u32::MAX as int);
    base::lemma_number_read_back(column, u32::MAX as int);
    let inside = "("@ + r + ","@ + c;
    let head = file + inside;
    let p = "): "@;
    let line = placed(file, row, column, rest);
    assert(line == head + p + rest);
    assert forall|i: int| 0 <= i < inside.len() implies inside[i] != ')' by {
        if 1 <= i < 1 + r.len() {
            assert(inside[i] == r[i - 1]);
            assert(!r.contains(')'));
            assert(r.contains(r[i - 1]));
        } else if i > 1 + r.len() {
            assert(inside[i] == c[i - 2 - r.len()]);
            assert(!c.contains(')'));
            assert(c.contains(c[i - 2 - r.len()]));
        }
    }
    assert forall|j: int| 0 <= j < head.len() implies !text::occurs_at(head + p + rest, p, j) by {
        if text::occurs_at(head + p + rest, p, j) {
            let s = head + p + rest;
            assert(s.subrange(j, j + p.len())[0] == s[j]);
            assert(s.subrange(j, j + p.len())[1] == s[j + 1]);
            assert(s.subrange(j, j + p.len())[2] == s[j + 2]);
            if j >= file.len() {
                assert(s[j] == inside[j - file.len()]);
            } else if j + 2 < file.len() {
                assert(file.subrange(j, j + 3) == p);
                assert(text::occurs_at(file, p, j));
            } else if j + 2 == file.len() {
                assert(s[j + 2] == inside[0]);
            } else {
                assert(s[j + 1] == inside[0]);
            }
        }
    }
    base::lemma_cut_text(head, p, rest);
    assert(line.take(head.len() as int) == head);
    assert(line.skip(head.len() as int + 3) == rest);
    head.index_of_last_ensures('(');
    let open = file.len() as int;
    assert(head[open] == '(');
    assert(head.contains('('));
    let at = head.index_of_last('(')->0;
    if at > open {
        assert(head[at] == inside[at - open]);
        if at - open < 1 + r.len() {
            assert(inside[at - open] == r[at - open - 1]);
            assert(!r.contains('('));
            assert(r.contains(r[at - open - 1]));
        } else if at - open > 1 + r.len() {
            assert(inside[at - open] == c[at - open - 2 - r.len()]);
            assert(!c.contains('('));
            assert(c.contains(c[at - open - 2 - r.len()]));
        }
    }
    assert(at == open);
    assert(head.skip(open + 1) == r.push(',') + c);
    assert(!r.contains(','));
    base::lemma_cut(r, ',', c);
    base::lemma_tight_kept(r);
    base::lemma_tight_kept(c);
    assert(head.take(open) == file);
}

/// A place that is only a file in front of what follows it.
pub open spec fn placed_nowhere(file: Seq<char>, rest: Seq<char>) -> Seq<char> {
    file + " : "@ + rest
}

/// A message about a file as a whole is read back: the file, and what follows. Nothing in
/// the file may look like the mark that is being looked for.
pub proof fn lemma_file_read_back(
    file: Seq<char>,
    back: Seq<char>,
    severity: Severity,
    rest: Seq<char>,
)
    requires
        file.len() > 0,
        base::tight(file),
        base::blank(back),
        forall|j: int| !(#[trigger] text::occurs_at(file + back, " :"@, j)),
        forall|j: int|
            !#[trigger] text::occurs_at(
                placed_nowhere(file + back, word_of(severity) + rest),
                "): "@,
                j,
            ),
        severity == Severity::Warning ==> forall|j: int|
            !#[trigger] text::occurs_at(
                placed_nowhere(file + back, word_of(severity) + rest),
                " : error"@,
                j,
            ),
    ensures
        report::positioned(placed_nowhere(file + back, word_of(severity) + rest)) is None,
        report::unpositioned(placed_nowhere(file + back, word_of(severity) + rest)) == Some(
            (report::PointedView {
                file: file,
                line: 0,
                column: 0,
                rest: word_of(severity) + rest,
            }),
        ),
{
    let whole = file + back;
    reveal_strlit(" :");
    reveal_strlit(" : ");
    reveal_strlit(" : error");
    reveal_strlit(" : warning");
    reveal_strlit("error");
    reveal_strlit("warning");
    lemma_words(severity);
    let word = word_of(severity);
    let line = placed_nowhere(whole, word + rest);
    text::lemma_find_from(line, "): "@, 0);
    let p = match severity {
        Severity::Error => " : error"@,
        Severity::Warning => " : warning"@,
    };
    assert(p =~= " : "@ + word);
    assert(line == whole + p + rest);
    assert forall|j: int| 0 <= j < whole.len() implies !text::occurs_at(whole + p + rest, p, j) by {
        if text::occurs_at(whole + p + rest, p, j) {
            let s = whole + p + rest;
            assert(s.subrange(j, j + p.len())[1] == s[j + 1]);
            assert(s.subrange(j, j + p.len())[0] == s[j]);
            if j + 1 < whole.len() {
                assert(whole[j] == ' ' && whole[j + 1] == ':');
                assert(whole.subrange(j, j + 2) =~= " :"@);
                assert(text::occurs_at(whole, " :"@, j));
            } else {
                assert(s[j + 1] == p[0]);
            }
        }
    }
    base::lemma_cut_text(whole, p, rest);
    if severity == Severity::Warning {
        text::lemma_find_from(line, " : error"@, 0);
    }
    assert(line.take(whole.len() as int) == whole);
    assert(line.skip(whole.len() as int + 3) == word + rest);
    assert(Seq::<char>::empty() + file + back =~= whole);
    base::lemma_trimmed(Seq::empty(), file, back);
    let tail = word + rest;
    assert(tail[0] == word[0]);
    base::lemma_trimmed_front(tail);
}

/// A message in a log, with its place, is read back whole: for every file, line, column
/// and severity, and for every text, colons included.
pub proof fn lemma_message_read_back(
    file: Seq<char>,
    row: nat,
    column: nat,
    severity: Severity,
    message: Seq<char>,
    output_directory: Option<Seq<char>>,
)
    requires
        file.len() > 0,
        forall|j: int| !#[trigger] text::occurs_at(file, "): "@, j),
        row <= u32::MAX,
        column <= u32::MAX,
        base::tight(message),
    ensures
        ({
            let line = placed(file, row, column, spoken(severity, message));
            report::diagnostic_of(line, output_directory) matches Some(found)
                && found.severity == severity && found.file == Some(file) && found.line == row
                && found.column == column && found.message == message && found.count == 1
        }),
{
    lemma_place_read_back(file, row, column, spoken(severity, message));
    reveal_strlit("error");
    lemma_severity_read_back(severity, "error"@, message);
}

/// The tally that Atmel Studio writes at the end of a log.
pub open spec fn tally_line(built: nat, failed: nat, skipped: nat) -> Seq<char> {
    "========== Build:"@ + (" "@ + number::decimal(built) + " succeeded or up-to-date"@ + ","@ + (
    " "@ + number::decimal(failed) + " failed"@) + ","@ + (" "@ + number::decimal(skipped)
        + " skipped =========="@))
}

/// One part of a tally: a figure and what it counts.
/// A part of a tally is a figure and what it counts, whatever marks follow.
pub proof fn lemma_tally_part(figure: nat, what: Seq<char>, back: Seq<char>, run: Seq<char>)
    requires
        figure <= usize::MAX,
        what.len() > 0,
        base::tight(what),
        what.last() != '=',
        base::blank(back),
        base::run_of(run, '='),
        run.len() > 0 || back.len() == 0,
    ensures
        ({
            let part = " "@ + number::decimal(figure) + (" "@ + what) + back + run;
            let bare = text::trimmed(text::without_trailing(text::trimmed(part), '='));
            &&& text::cut_at_char(bare, ' ') == Some((number::decimal(figure), what))
            &&& number::number(text::trimmed(number::decimal(figure)), 10, usize::MAX as int)
                == Some(figure as int)
        }),
{
    reveal_strlit(" ");
    let d = number::decimal(figure);
    base::lemma_number_read_back(figure, usize::MAX as int);
    base::lemma_tight_kept(d);
    let core = d + seq![' '] + what;
    let part = " "@ + d + (" "@ + what) + back + run;
    assert(core[0] == d[0]);
    assert(core.last() == what.last());
    if run.len() > 0 {
        let whole = core + back + run;
        assert(part == seq![' '] + whole + Seq::<char>::empty());
        assert(whole[0] == d[0]);
        assert(whole.last() == run.last());
        assert(run[run.len() - 1] == '=');
        base::lemma_trimmed(seq![' '], whole, Seq::empty());
        if back.len() > 0 {
            assert((core + back).last() == back.last());
            assert(text::is_white(back[back.len() - 1]));
        } else {
            assert((core + back).last() == core.last());
        }
        assert((core + back)[0] == d[0]);
        assert(d[0] != '=') by {
            assert(!d.contains('='));
            assert(d.contains(d[0]));
        }
        base::lemma_without_around(Seq::empty(), core + back, run, '=');
        base::lemma_trimmed(Seq::empty(), core, back);
        assert(Seq::<char>::empty() + core + back == core + back);
    } else {
        assert(part == seq![' '] + core + Seq::<char>::empty());
        base::lemma_trimmed(seq![' '], core, Seq::empty());
        assert(d[0] != '=') by {
            assert(!d.contains('='));
            assert(d.contains(d[0]));
        }
        base::lemma_without_around(Seq::empty(), core, Seq::empty(), '=');
        assert(core + Seq::<char>::empty() == core);
        base::lemma_tight_kept(core);
    }
    assert(core == d.push(' ') + what);
    assert(!d.contains(' '));
    base::lemma_cut(d, ' ', what);
}

/// The numbers of a tally are read back.
pub proof fn lemma_tally_read_back(built: nat, failed: nat, skipped: nat)
    requires
        built <= usize::MAX,
        failed <= usize::MAX,
        skipped <= usize::MAX,
    ensures
        "========== Build:"@.is_prefix_of(tally_line(built, failed, skipped)),
        report::counts_in(
            text::split_at(
                tally_line(built, failed, skipped).skip("========== Build:"@.len() as int),
                ',',
            ),
        ) == (built as int, failed as int),
        base::tight(tally_line(built, failed, skipped)),
{
    reveal_strlit("========== Build:");
    reveal_strlit(" ");
    reveal_strlit(",");
    reveal_strlit(" succeeded or up-to-date");
    reveal_strlit(" failed");
    reveal_strlit(" skipped ==========");
    reveal_strlit("succeeded");
    reveal_strlit("failed");
    let front = "========== Build:"@;
    let b = number::decimal(built);
    let f = number::decimal(failed);
    let k = number::decimal(skipped);
    base::lemma_number_read_back(built, usize::MAX as int);
    base::lemma_number_read_back(failed, usize::MAX as int);
    base::lemma_number_read_back(skipped, usize::MAX as int);
    let one = " "@ + b + " succeeded or up-to-date"@;
    let two = " "@ + f + " failed"@;
    let three = " "@ + k + " skipped =========="@;
    let rest = one + ","@ + two + ","@ + three;
    let line = tally_line(built, failed, skipped);
    assert(line == front + rest);
    assert(line.subrange(0, front.len() as int) == front);
    assert(line.skip(front.len() as int) == rest);
    assert(line[0] == '=' && line.last() == '=');
    // The parts.
    assert(!one.contains(',')) by {
        if one.contains(',') {
            let i = choose|i: int| 0 <= i < one.len() && one[i] == ',';
            if 1 <= i < 1 + b.len() {
                assert(b[i - 1] == ',');
                assert(b.contains(','));
            } else if i >= 1 + b.len() {
                assert(" succeeded or up-to-date"@[i - 1 - b.len()] == ',');
            }
        }
    }
    assert(!two.contains(',')) by {
        if two.contains(',') {
            let i = choose|i: int| 0 <= i < two.len() && two[i] == ',';
            if 1 <= i < 1 + f.len() {
                assert(f[i - 1] == ',');
                assert(f.contains(','));
            } else if i >= 1 + f.len() {
                assert(" failed"@[i - 1 - f.len()] == ',');
            }
        }
    }
    assert(!three.contains(',')) by {
        if three.contains(',') {
            let i = choose|i: int| 0 <= i < three.len() && three[i] == ',';
            if 1 <= i < 1 + k.len() {
                assert(k[i - 1] == ',');
                assert(k.contains(','));
            } else if i >= 1 + k.len() {
                assert(" skipped =========="@[i - 1 - k.len()] == ',');
            }
        }
    }
    assert(rest == one.push(',') + (two.push(',') + three));
    base::lemma_cut(one, ',', two.push(',') + three);
    base::lemma_cut(two, ',', three);
    base::lemma_uncut(three, ',');
    let parts = text::split_at(rest, ',');
    assert(parts == seq![one, two, three]);
    // Each of them.
    let what1 = " succeeded or up-to-date"@.skip(1);
    let what2 = " failed"@.skip(1);
    let what3 = " skipped"@.skip(1);
    reveal_strlit(" skipped");
    let run = " skipped =========="@.skip(9);
    lemma_tally_part(built, what1, Seq::empty(), Seq::empty());
    lemma_tally_part(failed, what2, Seq::empty(), Seq::empty());
    lemma_tally_part(skipped, what3, seq![' '], run);
    assert(one == " "@ + b + (" "@ + what1) + Seq::<char>::empty() + Seq::<char>::empty());
    assert(two == " "@ + f + (" "@ + what2) + Seq::<char>::empty() + Seq::<char>::empty());
    assert(three == " "@ + k + (" "@ + what3) + seq![' '] + run);
    assert("succeeded"@.is_prefix_of(what1)) by {
        assert(what1.subrange(0, 9) == "succeeded"@);
    }
    assert("failed"@.is_prefix_of(what2)) by {
        assert(what2.subrange(0, 6) == "failed"@);
    }
    assert(!"succeeded"@.is_prefix_of(what2));
    assert(what3[0] == 's' && what3[1] == 'k');
    assert(!"succeeded"@.is_prefix_of(what3)) by {
        if "succeeded"@.is_prefix_of(what3) {
            assert("succeeded"@[1] == what3.subrange(0, 9)[1]);
        }
    }
    assert(!"failed"@.is_prefix_of(what3)) by {
        if "failed"@.is_prefix_of(what3) {
            assert("failed"@[0] == what3.subrange(0, 6)[0]);
        }
    }
    let p0 = Seq::<Seq<char>>::empty();
    let p1 = seq![one];
    let p2 = seq![one, two];
    assert(p1.drop_last() == p0);
    assert(p2.drop_last() == p1);
    assert(parts.drop_last() == p2);
    assert(report::counts_in(p0) == (0int, 0int));
    assert(report::counts_in(p1) == (built as int, 0int));
    assert(report::counts_in(p2) == (built as int, failed as int));
}

/// Whether the last verdict in some lines is that the build succeeded.
pub open spec fn last_says_succeeded(lines: Seq<Seq<char>>) -> bool {
    exists|v: int|
        0 <= v < lines.len() && text::trimmed(#[trigger] lines[v]) == "Build succeeded."@ && (
        forall|j: int|
            v < j < lines.len() ==> text::trimmed(#[trigger] lines[j]) != "Build FAILED."@)
}

/// Whether a line is a tally.
pub open spec fn is_tally(line: Seq<char>) -> bool {
    "========== Build:"@.is_prefix_of(text::trimmed(line))
}

proof fn lemma_verdict(lines: Seq<Seq<char>>, output_directory: Option<Seq<char>>)
    ensures
        report::after_lines(lines, output_directory).verdict == last_says_succeeded(lines),
    decreases lines.len(),
{
    if lines.len() > 0 {
        let front = lines.drop_last();
        let last = lines.last();
        lemma_verdict(front, output_directory);
        reveal_strlit("Build succeeded.");
        reveal_strlit("Build FAILED.");
        if text::trimmed(last) == "Build succeeded."@ {
            assert(text::trimmed(lines[lines.len() - 1]) == "Build succeeded."@);
            assert(last_says_succeeded(lines));
        } else if text::trimmed(last) == "Build FAILED."@ {
            if last_says_succeeded(lines) {
                let v = choose|v: int|
                    0 <= v < lines.len() && text::trimmed(#[trigger] lines[v])
                        == "Build succeeded."@ && (forall|j: int|
                        v < j < lines.len() ==> text::trimmed(#[trigger] lines[j])
                            != "Build FAILED."@);
                assert(text::trimmed(lines[lines.len() - 1]) == "Build FAILED."@);
                assert(v == lines.len() - 1);
            }
        } else {
            if last_says_succeeded(lines) {
                let v = choose|v: int|
                    0 <= v < lines.len() && text::trimmed(#[trigger] lines[v])
                        == "Build succeeded."@ && (forall|j: int|
                        v < j < lines.len() ==> text::trimmed(#[trigger] lines[j])
                            != "Build FAILED."@);
                assert(v < front.len());
                assert(front[v] == lines[v]);
                assert forall|j: int| v < j < front.len() implies text::trimmed(
                    #[trigger] front[j],
                ) != "Build FAILED."@ by {
                    assert(front[j] == lines[j]);
                }
            }
            if last_says_succeeded(front) {
                let v = choose|v: int|
                    0 <= v < front.len() && text::trimmed(#[trigger] front[v])
                        == "Build succeeded."@ && (forall|j: int|
                        v < j < front.len() ==> text::trimmed(#[trigger] front[j])
                            != "Build FAILED."@);
                assert(lines[v] == front[v]);
                assert forall|j: int| v < j < lines.len() implies text::trimmed(
                    #[trigger] lines[j],
                ) != "Build FAILED."@ by {
                    if j < front.len() {
                        assert(front[j] == lines[j]);
                    }
                }
            }
        }
    }
}

proof fn lemma_projects(
    lines: Seq<Seq<char>>,
    output_directory: Option<Seq<char>>,
    at: int,
    built: nat,
    failed: nat,
    skipped: nat,
)
    requires
        0 <= at < lines.len(),
        text::trimmed(lines[at]) == tally_line(built, failed, skipped),
        forall|j: int| at < j < lines.len() ==> !is_tally(#[trigger] lines[j]),
        built <= usize::MAX,
        failed <= usize::MAX,
        skipped <= usize::MAX,
    ensures
        report::after_lines(lines, output_directory).projects == Some(
            (built as int, failed as int),
        ),
    decreases lines.len(),
{
    let front = lines.drop_last();
    if at == lines.len() - 1 {
        lemma_tally_read_back(built, failed, skipped);
        reveal_strlit("========== Build:");
        reveal_strlit("Build succeeded.");
        reveal_strlit("Build FAILED.");
        let bare = text::trimmed(lines.last());
        assert(bare.subrange(0, 17)[0] == bare[0]);
        assert(bare[0] == '=');
    } else {
        assert forall|j: int| at < j < front.len() implies !is_tally(#[trigger] front[j]) by {
            assert(front[j] == lines[j]);
        }
        lemma_projects(front, output_directory, at, built, failed, skipped);
        assert(!is_tally(lines[lines.len() - 1]));
    }
}

proof fn lemma_no_projects(lines: Seq<Seq<char>>, output_directory: Option<Seq<char>>)
    requires
        forall|j: int| 0 <= j < lines.len() ==> !is_tally(#[trigger] lines[j]),
    ensures
        report::after_lines(lines, output_directory).projects is None,
    decreases lines.len(),
{
    if lines.len() > 0 {
        let front = lines.drop_last();
        assert forall|j: int| 0 <= j < front.len() implies !is_tally(#[trigger] front[j]) by {
            assert(front[j] == lines[j]);
        }
        lemma_no_projects(front, output_directory);
        assert(!is_tally(lines[lines.len() - 1]));
    }
}

/// Whether diagnostics hold an error.
pub open spec fn holds_error(diagnostics: Seq<report::DiagnosticView>) -> bool {
    exists|i: int|
        0 <= i < diagnostics.len() && (#[trigger] diagnostics[i]).severity == Severity::Error
}

/// The log alone decides, and decides fully: a log with a tally of `built` projects and
/// `failed` ones is that of a build that succeeded if and only if its last verdict says
/// so, there is no error in it, at least one project was built and none failed. However
/// many were built makes no difference.
pub proof fn lemma_success_with_tally(
    lines: Seq<Seq<char>>,
    output_directory: Option<Seq<char>>,
    at: int,
    built: nat,
    failed: nat,
    skipped: nat,
)
    requires
        base::are_lines(lines),
        0 <= at < lines.len(),
        text::trimmed(lines[at]) == tally_line(built, failed, skipped),
        forall|j: int| at < j < lines.len() ==> !is_tally(#[trigger] lines[j]),
        built <= usize::MAX,
        failed <= usize::MAX,
        skipped <= usize::MAX,
    ensures
        ({
            let found = report::report_of(base::written_lines(lines), output_directory);
            found.succeeded <==> last_says_succeeded(lines) && !holds_error(found.diagnostics)
                && built >= 1 && failed == 0
        }),
{
    base::lemma_lines_read_back(lines);
    lemma_verdict(lines, output_directory);
    lemma_projects(lines, output_directory, at, built, failed, skipped);
    let diagnostics = report::after_lines(lines, output_directory).diagnostics;
    lemma_any_error(diagnostics);
}

/// A log without a tally is that of a build that succeeded if and only if its last
/// verdict says so and there is no error in it.
pub proof fn lemma_success_without_tally(
    lines: Seq<Seq<char>>,
    output_directory: Option<Seq<char>>,
)
    requires
        base::are_lines(lines),
        forall|j: int| 0 <= j < lines.len() ==> !is_tally(#[trigger] lines[j]),
    ensures
        ({
            let found = report::report_of(base::written_lines(lines), output_directory);
            found.succeeded <==> last_says_succeeded(lines) && !holds_error(found.diagnostics)
        }),
{
    base::lemma_lines_read_back(lines);
    lemma_verdict(lines, output_directory);
    lemma_no_projects(lines, output_directory);
    lemma_any_error(report::after_lines(lines, output_directory).diagnostics);
}

proof fn lemma_any_error(diagnostics: Seq<report::DiagnosticView>)
    ensures
        report::any_error(diagnostics) == holds_error(diagnostics),
{
    if report::any_error(diagnostics) {
        let i = choose|i: int|
            0 <= i < diagnostics.len() && (#[trigger] diagnostics[i]).severity == Severity::Error;
        assert(diagnostics[i].severity == Severity::Error);
    }
    if holds_error(diagnostics) {
        let i = choose|i: int|
            0 <= i < diagnostics.len() && (#[trigger] diagnostics[i]).severity == Severity::Error;
        assert(diagnostics[i].severity == Severity::Error);
    }
}


/// Whether a line is neither a verdict, a tally, a note, nor a part of what stands above
/// it, and does not speak of memory.
pub open spec fn is_plain(line: Seq<char>) -> bool {
    let bare = text::trimmed(line);
    &&& line.len() > 0
    &&& line[0] != ' ' && line[0] != '\t'
    &&& bare != "Build succeeded."@
    &&& bare != "Build FAILED."@
    &&& !"========== Build:"@.is_prefix_of(bare)
    &&& !"cc1.exe:"@.is_prefix_of(bare)
    &&& !"cc1plus.exe:"@.is_prefix_of(bare)
    &&& !"collect2.exe:"@.is_prefix_of(bare)
    &&& !("make:"@.is_prefix_of(bare) && text::has_text(bare, "Error"@))
    &&& !text::has_text(bare, "Memory Usage"@)
}

proof fn lemma_prefix_differs(line: Seq<char>, front: Seq<char>, i: int)
    requires
        0 <= i < front.len(),
        i < line.len(),
        line[i] != front[i],
    ensures
        !front.is_prefix_of(line),
        line != front,
{
    if front.is_prefix_of(line) {
        assert(line.subrange(0, front.len() as int)[i] == line[i]);
    }
}

proof fn lemma_plain_message(
    line: Seq<char>,
    state: report::Progress,
    output_directory: Option<Seq<char>>,
)
    requires
        is_plain(line),
    ensures
        report::after_line(state, line, output_directory) == match report::diagnostic_of(
            line,
            output_directory,
        ) {
            Some(found) => (report::Progress {
                diagnostics: report::merged(state.diagnostics, found),
                ..state
            }),
            None => state,
        },
{
    reveal_strlit("Program Memory Usage");
    reveal_strlit("Data Memory Usage");
    reveal_strlit("Memory Usage");
    let bare = text::trimmed(line);
    text::lemma_find_from(bare, "Memory Usage"@, 0);
    assert(bare =~= bare.subrange(0, bare.len() as int));
    lemma_no_memory(bare, bare, bare.len() as int, "Program Memory Usage"@, 8);
    lemma_no_memory(bare, bare, bare.len() as int, "Data Memory Usage"@, 5);
}

proof fn lemma_no_memory(line: Seq<char>, bare: Seq<char>, b: int, label: Seq<char>, skip: int)
    requires
        0 <= b <= line.len(),
        bare == line.subrange(0, b),
        0 <= skip < label.len(),
        label.skip(skip) =~= "Memory Usage"@,
        forall|j: int| !text::occurs_at(line, "Memory Usage"@, j),
    ensures
        report::memory_of(bare, label) is None,
{
    text::lemma_find_from(bare, label, 0);
    if let Some(i) = text::find_text(bare, label) {
        assert(bare.subrange(i, i + label.len()) == label);
        let j = i + skip;
        let n = "Memory Usage"@.len();
        assert(line.subrange(j, j + n) =~= label.skip(skip));
        assert(text::occurs_at(line, "Memory Usage"@, j));
    }
}

/// Whether two messages are the same but for how often they appeared: of the same
/// severity, about the same place, in the same words.
pub open spec fn says_the_same(one: report::DiagnosticView, other: report::DiagnosticView) -> bool {
    one.severity == other.severity && one.file == other.file && one.line == other.line
        && one.column == other.column && one.message == other.message
}

/// A message at the end of a log counts once more where the log held it before, and is
/// added where it did not. Nothing else changes.
#[verifier::rlimit(40)]
pub proof fn lemma_one_more_message(
    lines: Seq<Seq<char>>,
    file: Seq<char>,
    row: nat,
    column: nat,
    severity: Severity,
    message: Seq<char>,
    output_directory: Option<Seq<char>>,
)
    requires
        base::are_lines(lines),
        !placed(file, row, column, spoken(severity, message)).contains('\n'),
        is_plain(placed(file, row, column, spoken(severity, message))),
        file.len() > 0,
        forall|j: int| !#[trigger] text::occurs_at(file, "): "@, j),
        row <= u32::MAX,
        column <= u32::MAX,
        base::tight(message),
    ensures
        ({
            let line = placed(file, row, column, spoken(severity, message));
            let before = report::report_of(base::written_lines(lines), output_directory);
            let after = report::report_of(base::written_lines(lines.push(line)), output_directory);
            let noise = report::generated(file, output_directory);
            let found = report::DiagnosticView {
                severity: severity,
                file: Some(file),
                line: row,
                column: column,
                message: message,
                from_build_system: noise,
                count: 1,
            };
            let all = before.diagnostics;
            &&& after.notes == before.notes
            &&& after.program == before.program
            &&& after.data == before.data
            &&& after.summary == before.summary
            &&& (forall|i: int| 0 <= i < all.len() ==> !says_the_same(#[trigger] all[i], found))
                ==> after.diagnostics == all.push(found)
            &&& forall|i: int|
                0 <= i < all.len() && says_the_same(#[trigger] all[i], found)
                    ==> after.diagnostics == all.update(
                    i,
                    (report::DiagnosticView { count: all[i].count + 1, ..all[i] }),
                )
        }),
{
    let line = placed(file, row, column, spoken(severity, message));
    lemma_message_read_back(file, row, column, severity, message, output_directory);
    let found = report::diagnostic_of(line, output_directory)->0;
    let more = lines.push(line);
    assert forall|i: int| 0 <= i < more.len() implies !(#[trigger] more[i]).contains('\n') && (
    more[i].len() > 0 ==> more[i].last() != '\r') by {
        if i < lines.len() {
            assert(more[i] == lines[i]);
        } else {
            lemma_no_return(file, row, column, severity, message);
        }
    }
    base::lemma_lines_read_back(lines);
    base::lemma_lines_read_back(more);
    assert(more.drop_last() == lines);
    let state = report::after_lines(lines, output_directory);
    lemma_plain_message(line, state, output_directory);
    let all = state.diagnostics;
    report::lemma_repeated_from(all, found, 0);
    report::lemma_messages_folded(lines, output_directory);
    assert forall|i: int| 0 <= i < all.len() && says_the_same(#[trigger] all[i], found) implies
        report::merged(all, found) == all.update(
        i,
        (report::DiagnosticView { count: all[i].count + 1, ..all[i] }),
    ) by {
        let k = report::repeated_from(all, found, 0)->0;
        if k != i {
            if k < i {
                assert(report::repeats(all[k], all[i]));
            } else {
                assert(report::repeats(all[i], found));
            }
        }
    }
}

proof fn lemma_no_return(
    file: Seq<char>,
    row: nat,
    column: nat,
    severity: Severity,
    message: Seq<char>,
)
    requires
        base::tight(message),
    ensures
        ({
            let line = placed(file, row, column, spoken(severity, message));
            line.len() > 0 && line.last() != '\r'
        }),
{
    let line = placed(file, row, column, spoken(severity, message));
    if message.len() > 0 {
        assert(line.last() == message.last());
    } else {
        assert(line.last() == ' ');
    }
}

/// A message that stands anywhere in a log is in the report.
#[verifier::rlimit(40)]
pub proof fn lemma_message_reported(
    lines: Seq<Seq<char>>,
    at: int,
    file: Seq<char>,
    row: nat,
    column: nat,
    severity: Severity,
    message: Seq<char>,
    output_directory: Option<Seq<char>>,
) -> (k: int)
    requires
        base::are_lines(lines),
        0 <= at < lines.len(),
        lines[at] == placed(file, row, column, spoken(severity, message)),
        is_plain(lines[at]),
        file.len() > 0,
        forall|j: int| !#[trigger] text::occurs_at(file, "): "@, j),
        row <= u32::MAX,
        column <= u32::MAX,
        base::tight(message),
    ensures
        ({
            let found = report::report_of(base::written_lines(lines), output_directory);
            &&& 0 <= k < found.diagnostics.len()
            &&& found.diagnostics[k].severity == severity
            &&& found.diagnostics[k].file == Some(file)
            &&& found.diagnostics[k].line == row
            &&& found.diagnostics[k].column == column
            &&& found.diagnostics[k].message == message
            &&& found.diagnostics[k].count >= 1
            &&& severity == Severity::Error ==> !found.succeeded
        }),
{
    base::lemma_lines_read_back(lines);
    lemma_message_read_back(file, row, column, severity, message, output_directory);
    let line = lines[at];
    let found = report::diagnostic_of(line, output_directory)->0;
    let front = lines.take(at + 1);
    assert(front.drop_last() == lines.take(at));
    let state = report::after_lines(lines.take(at), output_directory);
    lemma_plain_message(line, state, output_directory);
    report::lemma_repeated_from(state.diagnostics, found, 0);
    let then = report::after_lines(front, output_directory).diagnostics;
    let k = match report::repeated_from(state.diagnostics, found, 0) {
        Some(i) => i,
        None => state.diagnostics.len() as int,
    };
    assert(report::repeats(then[k], found));
    report::lemma_first_lines(lines, at + 1, output_directory);
    report::lemma_messages_folded(lines, output_directory);
    let whole = report::after_lines(lines, output_directory).diagnostics;
    assert(report::with_count(whole[k], 0) == report::with_count(then[k], 0));
    assert(whole[k].severity == report::with_count(whole[k], 0).severity);
    assert(whole[k].file == report::with_count(whole[k], 0).file);
    assert(whole[k].line == report::with_count(whole[k], 0).line);
    assert(whole[k].column == report::with_count(whole[k], 0).column);
    assert(whole[k].message == report::with_count(whole[k], 0).message);
    k
}

/// Whether a text ends in another or starts with it, in any mixture of capitals.
pub open spec fn ends_like(s: Seq<char>, end: Seq<char>) -> bool {
    s.len() >= end.len() && text::alike(s.skip(s.len() - end.len()), end)
}

pub open spec fn starts_like(s: Seq<char>, front: Seq<char>) -> bool {
    s.len() >= front.len() && text::alike(s.take(front.len() as int), front)
}

/// A message is about the build system if and only if its file is a makefile or lies
/// where the build writes.
pub proof fn lemma_noise(file: Seq<char>, output_directory: Option<Seq<char>>)
    ensures
        report::generated(file, output_directory) <==> ends_like(file, "makefile"@) || ends_like(
            file,
            ".mk"@,
        ) || (output_directory matches Some(directory) && starts_like(file, directory)),
{
    reveal_strlit("makefile");
    reveal_strlit(".mk");
    let low = text::lowered(file);
    assert(text::lowered("makefile"@) =~= "makefile"@);
    assert(text::lowered(".mk"@) =~= ".mk"@);
    if file.len() >= 8 {
        let k = file.len() - 8;
        assert(text::lowered(file.skip(k)) =~= low.subrange(k, file.len() as int));
    }
    if file.len() >= 3 {
        let k = file.len() - 3;
        assert(text::lowered(file.skip(k)) =~= low.subrange(k, file.len() as int));
    }
    if let Some(directory) = output_directory {
        if file.len() >= directory.len() {
            assert(text::lowered(file.take(directory.len() as int)) =~= low.subrange(
                0,
                directory.len() as int,
            ));
        }
    }
}

/// A line that says how full a memory is.
pub open spec fn memory_line(
    front: Seq<char>,
    label: Seq<char>,
    gap: Seq<char>,
    bytes: nat,
    percent: Seq<char>,
    rest: Seq<char>,
) -> Seq<char> {
    front + label + (gap + (number::decimal(bytes) + (" "@ + "bytes"@ + (" "@
        + percent + rest))))
}

/// A line that says how full a memory is gives the number of bytes and the percentage.
pub proof fn lemma_memory_read_back(
    front: Seq<char>,
    label: Seq<char>,
    gap: Seq<char>,
    bytes: nat,
    percent: Seq<char>,
    rest: Seq<char>,
)
    requires
        label.len() > 0,
        !front.contains(label[0]),
        forall|i: int| 0 <= i < gap.len() ==> (#[trigger] gap[i] == ' ' || gap[i] == '\t' || gap[i] == ':'),
        bytes <= u64::MAX,
        percent.len() > 0,
        base::solid(percent),
        rest.len() > 0 ==> text::is_white(rest[0]),
    ensures
        report::memory_of(memory_line(front, label, gap, bytes, percent, rest), label) == Some(
            (report::MemoryView { bytes: bytes, percent: percent }),
        ),
{
    reveal_strlit(" ");
    reveal_strlit("bytes");
    let digits = number::decimal(bytes);
    base::lemma_number_read_back(bytes, u64::MAX as int);
    let tail = " "@ + percent + rest;
    let middle = " "@ + "bytes"@ + tail;
    let figures = digits + middle;
    let after = gap + figures;
    base::lemma_cut_text_at_head(front, label, after);
    assert(figures[0] == digits[0]);
    number::lemma_decimal_digits(bytes);
    lemma_after_gap(gap, figures);
    assert(Seq::<char>::empty() + digits + middle =~= figures);
    base::lemma_first_word(Seq::empty(), digits, middle);
    base::lemma_first_word(" "@, "bytes"@, tail);
    base::lemma_first_word(" "@, percent, rest);
    let words = text::words_of(figures);
    assert(words =~= seq![digits] + (seq!["bytes"@] + (seq![percent] + text::words_of(rest))));
    assert(words[0] == digits);
    assert(words[1] == "bytes"@);
    assert(words[2] == percent);
}

proof fn lemma_after_gap(gap: Seq<char>, rest: Seq<char>)
    requires
        forall|i: int| 0 <= i < gap.len() ==> (#[trigger] gap[i] == ' ' || gap[i] == '\t' || gap[i] == ':'),
        rest.len() > 0,
        number::is_digit(rest[0]),
    ensures
        report::after_gap(gap + rest) == rest,
    decreases gap.len(),
{
    if gap.len() == 0 {
        assert(gap + rest =~= rest);
    } else {
        assert((gap + rest)[0] == gap[0]);
        assert((gap + rest).skip(1) =~= gap.skip(1) + rest);
        lemma_after_gap(gap.skip(1), rest);
    }
}

/// The report says how full the memories are as the last line about each of them does.
pub proof fn lemma_memory_reported(
    lines: Seq<Seq<char>>,
    at: int,
    gap: Seq<char>,
    bytes: nat,
    percent: Seq<char>,
    output_directory: Option<Seq<char>>,
)
    requires
        0 <= at < lines.len(),
        forall|i: int| 0 <= i < gap.len() ==> (#[trigger] gap[i] == ' ' || gap[i] == '\t' || gap[i] == ':'),
        bytes <= u64::MAX,
        percent.len() > 0,
        base::solid(percent),
        forall|j: int|
            at < j < lines.len() ==> !text::has_text(
                text::trimmed(#[trigger] lines[j]),
                "Memory Usage"@,
            ),
    ensures
        text::trimmed(lines[at]) == memory_line(
            Seq::empty(),
            "Program Memory Usage"@,
            gap,
            bytes,
            percent,
            Seq::empty(),
        ) ==> report::after_lines(lines, output_directory).program == Some(
            (report::MemoryView { bytes: bytes, percent: percent }),
        ),
        text::trimmed(lines[at]) == memory_line(
            Seq::empty(),
            "Data Memory Usage"@,
            gap,
            bytes,
            percent,
            Seq::empty(),
        ) ==> report::after_lines(lines, output_directory).data == Some(
            (report::MemoryView { bytes: bytes, percent: percent }),
        ),
    decreases lines.len(),
{
    reveal_strlit("Program Memory Usage");
    reveal_strlit("Data Memory Usage");
    reveal_strlit("Memory Usage");
    reveal_strlit("Build succeeded.");
    reveal_strlit("Build FAILED.");
    reveal_strlit("========== Build:");
    let front = lines.drop_last();
    let program = memory_line(Seq::empty(), "Program Memory Usage"@, gap, bytes, percent, Seq::empty());
    let data = memory_line(Seq::empty(), "Data Memory Usage"@, gap, bytes, percent, Seq::empty());
    let bare = text::trimmed(lines[at]);
    if at == lines.len() - 1 {
        lemma_memory_read_back(Seq::empty(), "Program Memory Usage"@, gap, bytes, percent, Seq::empty());
        lemma_memory_read_back(Seq::empty(), "Data Memory Usage"@, gap, bytes, percent, Seq::empty());
        if bare == program {
            assert(bare[0] == 'P');
            lemma_prefix_differs(bare, "Build succeeded."@, 0);
            lemma_prefix_differs(bare, "Build FAILED."@, 0);
            lemma_prefix_differs(bare, "========== Build:"@, 0);
        }
        if bare == data {
            assert(bare[0] == 'D');
            lemma_prefix_differs(bare, "Build succeeded."@, 0);
            lemma_prefix_differs(bare, "Build FAILED."@, 0);
            lemma_prefix_differs(bare, "========== Build:"@, 0);
            lemma_no_program(gap, bytes, percent);
        }
    } else {
        assert forall|j: int| at < j < front.len() implies !text::has_text(
            text::trimmed(#[trigger] front[j]),
            "Memory Usage"@,
        ) by {
            assert(front[j] == lines[j]);
        }
        lemma_memory_reported(front, at, gap, bytes, percent, output_directory);
        let last = text::trimmed(lines[lines.len() - 1]);
        text::lemma_find_from(last, "Memory Usage"@, 0);
        assert(last =~= last.subrange(0, last.len() as int));
        lemma_no_memory(last, last, last.len() as int, "Program Memory Usage"@, 8);
        lemma_no_memory(last, last, last.len() as int, "Data Memory Usage"@, 5);
    }
}

/// A line about the data memory holds no capital P but in the percentage.
proof fn lemma_no_program(gap: Seq<char>, bytes: nat, percent: Seq<char>)
    requires
        forall|i: int| 0 <= i < gap.len() ==> (#[trigger] gap[i] == ' ' || gap[i] == '\t' || gap[i] == ':'),
        bytes <= u64::MAX,
        base::solid(percent),
    ensures
        report::memory_of(
            memory_line(Seq::empty(), "Data Memory Usage"@, gap, bytes, percent, Seq::empty()),
            "Program Memory Usage"@,
        ) is None,
{
    reveal_strlit("Program Memory Usage");
    reveal_strlit("Data Memory Usage");
    reveal_strlit(" ");
    reveal_strlit("bytes");
    let line = memory_line(Seq::empty(), "Data Memory Usage"@, gap, bytes, percent, Seq::empty());
    let label = "Program Memory Usage"@;
    let digits = number::decimal(bytes);
    number::lemma_decimal_digits(bytes);
    text::lemma_find_from(line, label, 0);
    if let Some(i) = text::find_text(line, label) {
        let piece = line.subrange(i, i + 20);
        assert(piece[0] == 'P' && piece[7] == ' ');
        let a = 17 + gap.len();
        let b = a + digits.len();
        let c = b + 7;
        if i < 17 {
            assert(line[i] == "Data Memory Usage"@[i]);
        } else if i < a {
            assert(line[i] == gap[i - 17]);
        } else if i < b {
            assert(line[i] == digits[i - a]);
        } else if i < c {
            assert(line[i] == (" "@ + "bytes"@ + " "@)[i - b]);
        } else {
            assert(line[i + 7] == percent[i + 7 - c]);
        }
    }
}

/// A line that tells why the compiler or the linker gave up is kept as a note, once, and
/// lines that tell nothing of the kind are not.
pub proof fn lemma_notes_kept(
    lines: Seq<Seq<char>>,
    line: Seq<char>,
    rest: Seq<char>,
    output_directory: Option<Seq<char>>,
)
    requires
        text::trimmed(line) == "cc1.exe:"@ + rest || text::trimmed(line) == "cc1plus.exe:"@ + rest
            || text::trimmed(line) == "collect2.exe:"@ + rest || (text::trimmed(line) == "make:"@
            + rest && text::has_text(rest, "Error"@)),
        !text::has_text(text::trimmed(line), "Memory Usage"@),
    ensures
        ({
            let before = report::after_lines(lines, output_directory);
            let after = report::after_lines(lines.push(line), output_directory);
            &&& after.notes == if before.notes.contains(text::trimmed(line)) {
                before.notes
            } else {
                before.notes.push(text::trimmed(line))
            }
            &&& after.diagnostics == before.diagnostics
        }),
{
    reveal_strlit("Program Memory Usage");
    reveal_strlit("Data Memory Usage");
    reveal_strlit("Memory Usage");
    reveal_strlit("Build succeeded.");
    reveal_strlit("Build FAILED.");
    reveal_strlit("========== Build:");
    reveal_strlit("cc1.exe:");
    reveal_strlit("cc1plus.exe:");
    reveal_strlit("make:");
    reveal_strlit("collect2.exe:");
    let bare = text::trimmed(line);
    assert(lines.push(line).drop_last() == lines);
    assert(bare[0] == 'c' || bare[0] == 'm');
    lemma_prefix_differs(bare, "Build succeeded."@, 0);
    lemma_prefix_differs(bare, "Build FAILED."@, 0);
    lemma_prefix_differs(bare, "========== Build:"@, 0);
    text::lemma_find_from(bare, "Memory Usage"@, 0);
    assert(bare =~= bare.subrange(0, bare.len() as int));
    lemma_no_memory(bare, bare, bare.len() as int, "Program Memory Usage"@, 8);
    lemma_no_memory(bare, bare, bare.len() as int, "Data Memory Usage"@, 5);
    if bare == "cc1.exe:"@ + rest {
        assert(bare.subrange(0, 8) =~= "cc1.exe:"@);
    } else if bare == "cc1plus.exe:"@ + rest {
        assert(bare.subrange(0, 12) =~= "cc1plus.exe:"@);
    } else if bare == "collect2.exe:"@ + rest {
        assert(bare.subrange(0, 13) =~= "collect2.exe:"@);
    } else {
        assert(bare.subrange(0, 5) =~= "make:"@);
        text::lemma_find_from(rest, "Error"@, 0);
        text::lemma_find_from(bare, "Error"@, 0);
        let i = text::find_text(rest, "Error"@)->0;
        let n = "Error"@.len();
        assert(bare.subrange(i + 5, i + 5 + n) =~= rest.subrange(i, i + n));
        assert(text::occurs_at(bare, "Error"@, i + 5));
    }
}

/// Lines of any other kind leave the notes as they are.
pub proof fn lemma_nothing_else_noted(
    lines: Seq<Seq<char>>,
    line: Seq<char>,
    output_directory: Option<Seq<char>>,
)
    requires
        !"cc1.exe:"@.is_prefix_of(text::trimmed(line)),
        !"cc1plus.exe:"@.is_prefix_of(text::trimmed(line)),
        !"collect2.exe:"@.is_prefix_of(text::trimmed(line)),
        !("make:"@.is_prefix_of(text::trimmed(line)) && text::has_text(
            text::trimmed(line),
            "Error"@,
        )),
    ensures
        report::after_lines(lines.push(line), output_directory).notes == report::after_lines(
            lines,
            output_directory,
        ).notes,
{
    assert(lines.push(line).drop_last() == lines);
}

/// An indented line, which continues a message, is no message itself.
pub proof fn lemma_indented_is_no_message(
    lines: Seq<Seq<char>>,
    line: Seq<char>,
    output_directory: Option<Seq<char>>,
)
    requires
        line.len() > 0,
        line[0] == ' ' || line[0] == '\t',
    ensures
        report::after_lines(lines.push(line), output_directory).diagnostics == report::after_lines(
            lines,
            output_directory,
        ).diagnostics,
{
    assert(lines.push(line).drop_last() == lines);
}

/// What the tally says is reported in its own words, without the marks around it.
pub proof fn lemma_tally_summarised(
    lines: Seq<Seq<char>>,
    at: int,
    said: Seq<char>,
    run: Seq<char>,
    output_directory: Option<Seq<char>>,
)
    requires
        0 <= at < lines.len(),
        base::tight(said),
        said.len() > 0,
        said.last() != '=',
        base::run_of(run, '='),
        run.len() > 0,
        text::trimmed(lines[at]) == "========== Build:"@ + said + " "@ + run,
        forall|j: int| at < j < lines.len() ==> !is_tally(#[trigger] lines[j]),
    ensures
        report::after_lines(lines, output_directory).summary == Some("Build:"@ + said),
    decreases lines.len(),
{
    reveal_strlit("========== Build:");
    reveal_strlit("Build:");
    reveal_strlit(" ");
    reveal_strlit("Build succeeded.");
    reveal_strlit("Build FAILED.");
    if at == lines.len() - 1 {
        let bare = text::trimmed(lines[at]);
        let front = "========== Build:"@.take(10);
        let core = " Build:"@ + said + " "@;
        reveal_strlit(" Build:");
        assert(bare =~= front + core + run);
        base::lemma_without_around(front, core, run, '=');
        let words = "Build:"@ + said;
        assert(core =~= seq![' '] + words + seq![' ']);
        base::lemma_trimmed(seq![' '], words, seq![' ']);
        assert(bare.subrange(0, 17) =~= "========== Build:"@);
        assert(bare[0] == '=');
        lemma_prefix_differs(bare, "Build succeeded."@, 0);
        lemma_prefix_differs(bare, "Build FAILED."@, 0);
    } else {
        let front = lines.drop_last();
        assert forall|j: int| at < j < front.len() implies !is_tally(#[trigger] front[j]) by {
            assert(front[j] == lines[j]);
        }
        lemma_tally_summarised(front, at, said, run, output_directory);
        assert(!is_tally(lines[lines.len() - 1]));
    }
}

/// A message about a file but no place in it gives the file and the message, whether or
/// not a code stands before it.
pub proof fn lemma_placeless_message_read_back(
    file: Seq<char>,
    severity: Severity,
    code: Seq<char>,
    message: Seq<char>,
    output_directory: Option<Seq<char>>,
)
    requires
        file.len() > 0,
        base::tight(file),
        forall|j: int| !(#[trigger] text::occurs_at(file, " :"@, j)),
        base::tight(message),
        base::tight(code),
        code.len() > 0,
        !code.contains(':'),
        forall|j: int|
            !#[trigger] text::occurs_at(
                placed_nowhere(file, spoken(severity, message)),
                "): "@,
                j,
            ),
        forall|j: int|
            !#[trigger] text::occurs_at(
                placed_nowhere(file, spoken_with_code(severity, code, message)),
                "): "@,
                j,
            ),
        severity == Severity::Warning ==> forall|j: int|
            !#[trigger] text::occurs_at(
                placed_nowhere(file, spoken(severity, message)),
                " : error"@,
                j,
            ),
        severity == Severity::Warning ==> forall|j: int|
            !#[trigger] text::occurs_at(
                placed_nowhere(file, spoken_with_code(severity, code, message)),
                " : error"@,
                j,
            ),
    ensures
        ({
            let found = report::diagnostic_of(
                placed_nowhere(file, spoken(severity, message)),
                output_directory,
            );
            found matches Some(held) && held.severity == severity && held.file == Some(file)
                && held.line == 0 && held.column == 0 && held.message == message && held.count == 1
        }),
        ({
            let found = report::diagnostic_of(
                placed_nowhere(file, spoken_with_code(severity, code, message)),
                output_directory,
            );
            found matches Some(held) && held.severity == severity && held.file == Some(file)
                && held.line == 0 && held.column == 0 && held.message == code + ": "@ + message
                && held.count == 1
        }),
{
    let word = word_of(severity);
    let one = seq![':', ' '] + message;
    let two = seq![' '] + code + seq![':', ' '] + message;
    assert(spoken(severity, message) =~= word + one);
    assert(spoken_with_code(severity, code, message) =~= word + two);
    let e = Seq::<char>::empty();
    assert(file + e =~= file);
    lemma_file_read_back(file, e, severity, one);
    lemma_file_read_back(file, e, severity, two);
    lemma_severity_read_back(severity, code, message);
}

/// Blanks around the row and the column make no difference.
pub proof fn lemma_blanks_in_place(
    front: Seq<char>,
    row: nat,
    middle: Seq<char>,
    last: Seq<char>,
    column: nat,
    back: Seq<char>,
)
    requires
        base::blank(front),
        base::blank(middle),
        base::blank(last),
        base::blank(back),
        row <= u32::MAX,
        column <= u32::MAX,
    ensures
        report::position(
            (front + number::decimal(row) + middle).push(',') + (last + number::decimal(column)
                + back),
        ) == Some((row, column)),
{
    base::lemma_number_read_back(row, u32::MAX as int);
    base::lemma_number_read_back(column, u32::MAX as int);
    let first = front + number::decimal(row) + middle;
    let second = last + number::decimal(column) + back;
    assert(!first.contains(',')) by {
        if first.contains(',') {
            let i = choose|i: int| 0 <= i < first.len() && first[i] == ',';
            let n = number::decimal(row).len();
            if i < front.len() {
                assert(text::is_white(front[i]));
            } else if i < front.len() + n {
                assert(number::decimal(row)[i - front.len()] == ',');
                assert(number::decimal(row).contains(','));
            } else {
                assert(text::is_white(middle[i - front.len() - n]));
            }
        }
    }
    base::lemma_cut(first, ',', second);
    base::lemma_trimmed(front, number::decimal(row), middle);
    base::lemma_trimmed(last, number::decimal(column), back);
}

/// A tally may say more after the word that counts.
pub proof fn lemma_tally_in_other_words(
    built: nat,
    failed: nat,
    more: Seq<char>,
    other: Seq<char>,
)
    requires
        built <= usize::MAX,
        failed <= usize::MAX,
        base::tight("succeeded"@ + more),
        base::tight("failed"@ + other),
        !more.contains(',') && !other.contains(','),
        ("succeeded"@ + more).last() != '=',
        ("failed"@ + other).last() != '=',
    ensures
        report::counts_in(
            seq![
                " "@ + number::decimal(built) + (" "@ + ("succeeded"@ + more)),
                " "@ + number::decimal(failed) + (" "@ + ("failed"@ + other)),
            ],
        ) == (built as int, failed as int),
        report::counts_in(
            seq![
                " "@ + number::decimal(failed) + (" "@ + ("failed"@ + other)),
                " "@ + number::decimal(built) + (" "@ + ("succeeded"@ + more)),
            ],
        ) == (built as int, failed as int),
{
    reveal_strlit("succeeded");
    reveal_strlit("failed");
    let good = "succeeded"@ + more;
    let bad = "failed"@ + other;
    let e = Seq::<char>::empty();
    lemma_tally_part(built, good, e, e);
    lemma_tally_part(failed, bad, e, e);
    let one = " "@ + number::decimal(built) + (" "@ + good);
    let two = " "@ + number::decimal(failed) + (" "@ + bad);
    assert(one + e + e =~= one);
    assert(two + e + e =~= two);
    assert(good.subrange(0, 9) =~= "succeeded"@);
    assert(bad.subrange(0, 6) =~= "failed"@);
    assert(!"succeeded"@.is_prefix_of(bad)) by {
        if "succeeded"@.is_prefix_of(bad) {
            assert(bad.subrange(0, 9)[0] == bad[0]);
        }
    }
    let list = seq![one, two];
    assert(list.drop_last() =~= seq![one]);
    assert(seq![one].drop_last() =~= Seq::<Seq<char>>::empty());
    assert(report::counts_in(seq![one].drop_last()) == (0int, 0int));
    assert(report::counts_in(seq![one]) == (built as int, 0int));
    let back = seq![two, one];
    assert(back.drop_last() =~= seq![two]);
    assert(seq![two].drop_last() =~= Seq::<Seq<char>>::empty());
    assert(report::counts_in(seq![two].drop_last()) == (0int, 0int));
    assert(report::counts_in(seq![two]) == (0int, failed as int));
}

} // verus!
