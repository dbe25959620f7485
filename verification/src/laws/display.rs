//! Laws on what is shown to the user.

use vstd::prelude::*;

use crate::host;
use crate::number;
use crate::path;
use crate::report;
use crate::report::{Severity, Style};

verus! {

/// A label is set flush right in ten columns.
pub proof fn lemma_labels_line_up(shown: Seq<char>)
    ensures
        ({
            let label = report::labelled(shown);
            &&& shown.is_suffix_of(label)
            &&& shown.len() <= 10 ==> label.len() == 10
            &&& shown.len() > 10 ==> label == shown
            &&& forall|i: int| 0 <= i < label.len() - shown.len() ==> #[trigger] label[i] == ' '
        }),
{
    let label = report::labelled(shown);
    let n = label.len() - shown.len();
    assert(label.subrange(n, label.len() as int) =~= shown);
}

/// Colour changes nothing but colour: with it a text stands between a mark that starts it
/// and one that ends it, and without it the text stands alone.
pub proof fn lemma_colour(code: Seq<char>, shown: Seq<char>)
    ensures
        report::painted((Style { color: false }), code, shown) == shown,
        report::painted((Style { color: true }), code, shown) == "\x1b["@ + code + "m"@ + shown
            + "\x1b[0m"@,
{
}

/// What is shown of a message behind its place.
pub open spec fn said(diagnostic: report::DiagnosticView) -> Seq<char> {
    if diagnostic.count > 1 {
        diagnostic.message + " ("@ + number::decimal(diagnostic.count) + "x)"@
    } else {
        diagnostic.message
    }
}

/// Where a message points, after the file.
pub open spec fn pointed(diagnostic: report::DiagnosticView) -> Seq<char> {
    if diagnostic.line > 0 {
        ":"@ + number::decimal(diagnostic.line) + ":"@ + number::decimal(diagnostic.column) + ": "@
    } else {
        ": "@
    }
}

proof fn lemma_said(diagnostic: report::DiagnosticView)
    ensures
        diagnostic.message + report::times_text(diagnostic.count) == said(diagnostic),
{
    assert(diagnostic.message + report::times_text(diagnostic.count) =~= said(diagnostic));
}

proof fn lemma_pointed(
    diagnostic: report::DiagnosticView,
    paths: host::PathsView,
    directory: Seq<char>,
    file: Seq<char>,
)
    requires
        diagnostic.file == Some(file),
    ensures
        report::place_text(diagnostic, paths, directory) == path::below(
            paths.host,
            host::for_user(paths, file),
            directory,
        ) + pointed(diagnostic),
{
    let shown = path::below(paths.host, host::for_user(paths, file), directory);
    assert(report::place_text(diagnostic, paths, directory) =~= shown + pointed(diagnostic));
}

proof fn lemma_end(front: Seq<char>, end: Seq<char>)
    ensures
        end.is_suffix_of(front + end),
        front.is_prefix_of(front + end),
{
    let all = front + end;
    assert(all.subrange(all.len() - end.len(), all.len() as int) =~= end);
    assert(all.subrange(0, front.len() as int) =~= front);
}

/// What is shown of a message ends in its place, its words and how often it appeared: the
/// row and the column only where they are known, the count only where it is more than
/// one.
pub proof fn lemma_message_shown(
    diagnostic: report::DiagnosticView,
    paths: host::PathsView,
    style: Style,
    directory: Seq<char>,
    file: Seq<char>,
)
    ensures
        ({
            let line = report::diagnostic_line(diagnostic, paths, style, directory);
            let shown = path::below(paths.host, host::for_user(paths, file), directory);
            &&& said(diagnostic).is_suffix_of(line)
            &&& diagnostic.file == Some(file) ==> (shown + pointed(diagnostic) + said(
                diagnostic,
            )).is_suffix_of(line)
        }),
{
    let line = report::diagnostic_line(diagnostic, paths, style, directory);
    let label = report::severity_label(style, diagnostic.severity) + " "@;
    let place = report::place_text(diagnostic, paths, directory);
    lemma_said(diagnostic);
    assert(line =~= label + place + (diagnostic.message + report::times_text(diagnostic.count)));
    lemma_end(label + place, said(diagnostic));
    if diagnostic.file == Some(file) {
        lemma_pointed(diagnostic, paths, directory, file);
        assert(line =~= label + (place + said(diagnostic)));
        lemma_end(label, place + said(diagnostic));
    }
}

/// What is shown of a message starts with what kind of message it is.
pub proof fn lemma_severity_shown(
    diagnostic: report::DiagnosticView,
    paths: host::PathsView,
    directory: Seq<char>,
)
    ensures
        ({
            let line = report::diagnostic_line(
                diagnostic,
                paths,
                (Style { color: false }),
                directory,
            );
            match diagnostic.severity {
                Severity::Error => "     error "@.is_prefix_of(line),
                Severity::Warning => "   warning "@.is_prefix_of(line),
            }
        }),
{
    reveal_strlit("error");
    reveal_strlit("warning");
    reveal_strlit("     error ");
    reveal_strlit("   warning ");
    reveal_strlit(" ");
    let style = Style { color: false };
    let line = report::diagnostic_line(diagnostic, paths, style, directory);
    let label = report::severity_label(style, diagnostic.severity) + " "@;
    let place = report::place_text(diagnostic, paths, directory);
    assert(report::labelled("error"@) + " "@ =~= "     error "@);
    assert(report::labelled("warning"@) + " "@ =~= "   warning "@);
    assert(line =~= label + (place + diagnostic.message + report::times_text(diagnostic.count)));
    lemma_end(label, place + diagnostic.message + report::times_text(diagnostic.count));
}

/// How often something is so among some messages.
pub open spec fn times(
    diagnostics: Seq<report::DiagnosticView>,
    counted: spec_fn(report::DiagnosticView) -> bool,
) -> nat {
    diagnostics.filter(counted).len()
}

/// Whether a message is a warning about the user's own files.
pub open spec fn own_warning(diagnostic: report::DiagnosticView) -> bool {
    diagnostic.severity == Severity::Warning && !diagnostic.from_build_system
}

/// Whether a message is an error in the user's own files.
pub open spec fn own_error(diagnostic: report::DiagnosticView) -> bool {
    diagnostic.severity == Severity::Error && !diagnostic.from_build_system
}

proof fn lemma_limited(diagnostics: Seq<report::DiagnosticView>)
    ensures
        report::limited_among(diagnostics, false) == times(
            diagnostics,
            |d: report::DiagnosticView| own_warning(d),
        ),
    decreases diagnostics.len(),
{
    reveal(Seq::filter);
    if diagnostics.len() > 0 {
        lemma_limited(diagnostics.drop_last());
    }
}

/// Without being asked for more, the program shows every error in the user's files and
/// the first twenty-five warnings, in the order in which they came.
pub proof fn lemma_first_warnings_shown(diagnostics: Seq<report::DiagnosticView>)
    ensures
        ({
            let shown = report::shown(diagnostics, false);
            let warnings = diagnostics.filter(|d: report::DiagnosticView| own_warning(d));
            let errors = diagnostics.filter(|d: report::DiagnosticView| own_error(d));
            &&& shown.filter(|d: report::DiagnosticView| own_error(d)) == errors
            &&& shown.filter(|d: report::DiagnosticView| own_warning(d)) == if warnings.len()
                <= 25 {
                warnings
            } else {
                warnings.take(25)
            }
            &&& shown.filter(|d: report::DiagnosticView| d.from_build_system).len() == 0
        }),
    decreases diagnostics.len(),
{
    reveal(Seq::filter);
    if diagnostics.len() > 0 {
        let front = diagnostics.drop_last();
        let last = diagnostics.last();
        lemma_first_warnings_shown(front);
        lemma_limited(front);
        let before = report::shown(front, false);
        let after = report::shown(diagnostics, false);
        let w = |d: report::DiagnosticView| own_warning(d);
        let warned = front.filter(w);
        if after != before {
            assert(after == before.push(last));
            assert(after.drop_last() == before);
        }
        if own_warning(last) {
            let all = diagnostics.filter(w);
            assert(all == warned.push(last));
            if warned.len() > 25 {
                assert(all.take(25) =~= warned.take(25));
            } else if warned.len() == 25 {
                assert(all.take(25) =~= warned);
            }
        }
    }
}

/// The number of errors, or of warnings, is how often those in the user's own files
/// appeared: the numbers of two lists add up to that of both.
pub proof fn lemma_numbers_add_up(
    one: Seq<report::DiagnosticView>,
    other: Seq<report::DiagnosticView>,
    single: report::DiagnosticView,
    severity: Severity,
)
    ensures
        report::tally(one + other, severity) == report::tally(one, severity) + report::tally(
            other,
            severity,
        ),
        report::tally(seq![single], severity) == if single.severity == severity
            && !single.from_build_system {
            single.count
        } else {
            0
        },
        report::tally(Seq::empty(), severity) == 0,
    decreases other.len(),
{
    assert(seq![single].drop_last() =~= Seq::<report::DiagnosticView>::empty());
    assert(report::tally(seq![single].drop_last(), severity) == 0);
    assert(seq![single].last() == single);
    if other.len() == 0 {
        assert(one + other =~= one);
    } else {
        lemma_numbers_add_up(one, other.drop_last(), single, severity);
        assert((one + other).drop_last() =~= one + other.drop_last());
        assert((one + other).last() == other.last());
    }
}

/// A comma stands before every third digit from the end, and nowhere else.
pub proof fn lemma_commas(digits: Seq<char>)
    requires
        !digits.contains(','),
    ensures
        ({
            let shown = report::grouped(digits);
            let n = shown.len();
            &&& digits.len() == 0 || n == digits.len() + (digits.len() - 1) / 3
            &&& forall|i: int| 0 <= i < n ==> (#[trigger] shown[i] == ',' <==> (n - i) % 4 == 0)
        }),
    decreases digits.len(),
{
    let shown = report::grouped(digits);
    if digits.len() <= 3 {
        assert forall|i: int| 0 <= i < shown.len() implies (#[trigger] shown[i] == ',' <==> (
        shown.len() - i) % 4 == 0) by {
            assert(digits.contains(digits[i]));
        }
    } else {
        let k = digits.len() - 3;
        let front = digits.take(k);
        let back = digits.skip(k);
        assert(!front.contains(',')) by {
            if front.contains(',') {
                let i = choose|i: int| 0 <= i < front.len() && front[i] == ',';
                assert(digits[i] == ',');
            }
        }
        lemma_commas(front);
        let before = report::grouped(front);
        assert(shown =~= before.push(',') + back);
        let n = shown.len();
        assert forall|i: int| 0 <= i < n implies (#[trigger] shown[i] == ',' <==> (n - i) % 4
            == 0) by {
            if i < before.len() {
                assert(shown[i] == before[i]);
                assert((n - i) % 4 == (before.len() - i) % 4);
            } else if i > before.len() {
                let j = i - before.len() - 1;
                assert(shown[i] == back[j]);
                assert(back[j] == digits[k + j]);
                assert(digits.contains(digits[k + j]));
            }
        }
    }
}

/// The nearest whole number: no other is nearer, and of two that are as near it is the
/// even one.
pub proof fn lemma_rounded_is_nearest(n: int, d: int)
    requires
        d > 0,
    ensures
        ({
            let found = number::rounded(n, d);
            &&& -d <= 2 * (n - found * d) <= d
            &&& 2 * (n - found * d) == d || 2 * (n - found * d) == -d ==> found % 2 == 0
        }),
{
    let q = n / d;
    let r = n % d;
    vstd::arithmetic::div_mod::lemma_fundamental_div_mod(n, d);
    vstd::arithmetic::div_mod::lemma_mod_bound(n, d);
    assert(d * q == q * d) by (nonlinear_arith);
    assert((q + 1) * d == q * d + d) by (nonlinear_arith);
}

/// A size is shown in the largest unit that it fills, to the nearest tenth, as a whole
/// number of bytes where it fills none.
pub proof fn lemma_size_shown(bytes: nat)
    requires
        bytes < 0x20_0000_0000_0000,
    ensures
        bytes < 1024 ==> report::size_text(bytes) == number::decimal(bytes) + " B"@,
        1024 <= bytes < 1048576 ==> exists|tenths: nat|
            report::size_text(bytes) == #[trigger] number::decimal(tenths / 10) + "."@
                + number::decimal(tenths % 10) + " KB"@ && -1024 <= 2 * (10 * bytes - tenths * 1024)
                <= 1024,
        1048576 <= bytes ==> exists|tenths: nat|
            report::size_text(bytes) == #[trigger] number::decimal(tenths / 10) + "."@
                + number::decimal(tenths % 10) + " MB"@ && -1048576 <= 2 * (10 * bytes - tenths
                * 1048576) <= 1048576,
{
    let b = bytes as int;
    assert(number::double_step(b) == 1);
    lemma_rounded_is_nearest(b, 1);
    assert(number::rounded(b, 1) * 1 == b);
    assert(number::nearest_double(b) == b);
    lemma_rounded_is_nearest(b * 10, 1024);
    lemma_rounded_is_nearest(b * 10, 1048576);
    if 1024 <= bytes < 1048576 {
        let tenths = number::tenths(b, 1024) as nat;
        assert(number::tenths(b, 1024) >= 0);
        assert(report::size_text(bytes) == number::decimal(tenths / 10) + "."@ + number::decimal(
            tenths % 10,
        ) + " KB"@);
    } else if bytes >= 1048576 {
        let tenths = number::tenths(b, 1048576) as nat;
        assert(number::tenths(b, 1048576) >= 0);
        assert(report::size_text(bytes) == number::decimal(tenths / 10) + "."@ + number::decimal(
            tenths % 10,
        ) + " MB"@);
    }
}

/// A number is written with as few digits as it takes, and a negative one with a sign.
pub proof fn lemma_numbers_written(n: nat)
    ensures
        number::decimal(n).len() > 1 ==> number::decimal(n)[0] != '0',
        number::signed(n as int) == number::decimal(n),
        n > 0 ==> number::signed(-n) == seq!['-'] + number::decimal(n),
        n < 10 ==> number::decimal(n).len() == 1,
        n >= 10 ==> number::decimal(n).len() == number::decimal(n / 10).len() + 1,
    decreases n,
{
    reveal_strlit("-");
    if n >= 10 {
        lemma_numbers_written(n / 10);
        if n / 10 < 10 {
            assert(number::decimal(n / 10) == seq![number::digit((n / 10) as int)]);
            assert(number::decimal(n)[0] == number::digit((n / 10) as int));
        } else {
            assert(number::decimal(n)[0] == number::decimal(n / 10)[0]);
        }
    }
}

/// A report is its messages, how many warnings are left out where any are, and its notes,
/// in this order and each on a line of its own.
pub proof fn lemma_report_shown(
    report: report::ReportView,
    paths: host::PathsView,
    directory: Seq<char>,
    verbose: bool,
)
    ensures
        ({
            let style = Style { color: false };
            let lines = report::report_lines(report, paths, style, directory, verbose);
            let messages = report::shown(report.diagnostics, verbose);
            let left = report::hidden(report.diagnostics, verbose);
            let extra = if left > 0 {
                1int
            } else {
                0
            };
            &&& lines.len() == messages.len() + extra + report.notes.len()
            &&& forall|i: int|
                0 <= i < messages.len() ==> lines[i] == report::diagnostic_line(
                    #[trigger] messages[i],
                    paths,
                    style,
                    directory,
                )
            &&& left > 0 ==> lines[messages.len() as int] == "       ... "@ + number::decimal(left)
                + " more warnings, run with --verbose to see them"@
            &&& forall|i: int|
                0 <= i < report.notes.len() ==> lines[messages.len() + extra + i] == "      note "@
                    + #[trigger] report.notes[i]
        }),
{
    reveal_strlit("...");
    reveal_strlit("note");
    reveal_strlit(" ");
    reveal_strlit("       ... ");
    reveal_strlit("      note ");
    let style = Style { color: false };
    let lines = report::report_lines(report, paths, style, directory, verbose);
    let messages = report::shown(report.diagnostics, verbose);
    let left = report::hidden(report.diagnostics, verbose);
    assert(report::labelled("..."@) + " "@ =~= "       ... "@);
    assert(report::labelled("note"@) + " "@ =~= "      note "@);
    let first = report::diagnostic_lines(messages, paths, style, directory);
    let second = report::hidden_lines(left, style);
    let third = report::note_lines(report.notes, style);
    assert(lines == first + second + third);
    assert forall|i: int| 0 <= i < messages.len() implies lines[i] == report::diagnostic_line(
        #[trigger] messages[i],
        paths,
        style,
        directory,
    ) by {
        assert(lines[i] == first[i]);
    }
    assert forall|i: int| 0 <= i < report.notes.len() implies lines[first.len() + second.len() + i]
        == "      note "@ + #[trigger] report.notes[i] by {
        assert(lines[first.len() + second.len() + i] == third[i]);
    }
    if left > 0 {
        assert(lines[messages.len() as int] == second[0]);
        assert(second[0] =~= "       ... "@ + number::decimal(left)
            + " more warnings, run with --verbose to see them"@);
    }
}

/// What is left out is counted: every warning is shown or among those left out.
pub proof fn lemma_left_out_counted(diagnostics: Seq<report::DiagnosticView>)
    ensures
        report::hidden(diagnostics, false) + report::tally(
            report::shown(diagnostics, false),
            Severity::Warning,
        ) == report::tally(diagnostics, Severity::Warning),
        report::hidden(diagnostics, true) == 0,
        report::shown(diagnostics, true) == diagnostics,
{
    report::lemma_nothing_lost(diagnostics, false);
    report::lemma_verbose_shows_all(diagnostics);
}

/// The doubles near a number are as far apart as their fifty-three bits make them.
pub proof fn lemma_double_step(n: int)
    requires
        0 <= n,
    ensures
        number::double_step(n) >= 1,
        n < 0x20_0000_0000_0000 * number::double_step(n),
        number::double_step(n) > 1 ==> 0x10_0000_0000_0000 * number::double_step(n) <= n,
        n < 0x20_0000_0000_0000 ==> number::nearest_double(n) == n,
    decreases n,
{
    if n >= 0x20_0000_0000_0000 {
        lemma_double_step(n / 2);
    } else {
        lemma_rounded_is_nearest(n, 1);
        assert(number::rounded(n, 1) * 1 == n);
    }
}

/// A double is the nearest that there is.
pub proof fn lemma_nearest_double(n: int)
    requires
        0 <= n,
    ensures
        ({
            let step = number::double_step(n);
            let found = number::nearest_double(n);
            -step <= 2 * (n - found) <= step
        }),
{
    lemma_double_step(n);
    lemma_rounded_is_nearest(n, number::double_step(n));
}

} // verus!
