//! Turning an Atmel Studio build log into something worth reading.
//!
//! Studio writes nothing to the console, so a build always writes a log file and
//! the result is read back out of it. The log is verbose MSBuild output; the parts
//! worth showing are the compiler diagnostics, the memory summary, and whether the
//! build actually succeeded.

use vstd::prelude::*;

use crate::host;
use crate::host::{Host, Paths};
use crate::list;
use crate::number;
use crate::order;
use crate::path;
use crate::text;

verus! {

broadcast use {crate::list::lemma_texts_push, crate::list::lemma_pieces_push};

/// Warnings shown before the rest are folded into a count.
pub const WARNING_LIMIT: usize = 25;

#[derive(Clone, Copy, PartialEq, Eq, Structural, Debug)]
pub enum Severity {
    Error,
    Warning,
}

/// One compiler or build-system message.
#[derive(Clone, Debug, PartialEq, Eq)]
pub struct Diagnostic {
    pub severity: Severity,
    /// The file as the log spells it, which is always a Windows path.
    pub file: Option<String>,
    pub line: u32,
    pub column: u32,
    pub message: String,
    /// True for messages about the generated makefile or the link step rather
    /// than about the user's source.
    pub from_build_system: bool,
    /// How many times the same message appeared.
    pub count: usize,
}

/// What a diagnostic stands for.
pub struct DiagnosticView {
    pub severity: Severity,
    pub file: Option<Seq<char>>,
    pub line: nat,
    pub column: nat,
    pub message: Seq<char>,
    pub from_build_system: bool,
    pub count: nat,
}

impl View for Diagnostic {
    type V = DiagnosticView;

    open spec fn view(&self) -> DiagnosticView {
        DiagnosticView {
            severity: self.severity,
            file: list::optional(self.file),
            line: self.line as nat,
            column: self.column as nat,
            message: self.message@,
            from_build_system: self.from_build_system,
            count: self.count as nat,
        }
    }
}

/// A memory usage figure reported after a successful link.
#[derive(Clone, Debug, PartialEq, Eq)]
pub struct Memory {
    pub bytes: u64,
    /// The percentage as the log spells it.
    pub percent: String,
}

/// What a memory usage figure stands for.
pub struct MemoryView {
    pub bytes: nat,
    pub percent: Seq<char>,
}

impl View for Memory {
    type V = MemoryView;

    open spec fn view(&self) -> MemoryView {
        MemoryView { bytes: self.bytes as nat, percent: self.percent@ }
    }
}

/// What an optional memory usage figure stands for.
pub open spec fn optional_memory(memory: Option<Memory>) -> Option<MemoryView> {
    match memory {
        Some(held) => Some(held@),
        None => None,
    }
}

/// Everything that was learned from one build.
#[derive(Clone, Debug)]
pub struct Report {
    pub diagnostics: Vec<Diagnostic>,
    pub notes: Vec<String>,
    pub program: Option<Memory>,
    pub data: Option<Memory>,
    pub succeeded: bool,
    pub summary: Option<String>,
}

/// What a report stands for.
pub struct ReportView {
    pub diagnostics: Seq<DiagnosticView>,
    pub notes: Seq<Seq<char>>,
    pub program: Option<MemoryView>,
    pub data: Option<MemoryView>,
    pub succeeded: bool,
    pub summary: Option<Seq<char>>,
}

impl View for Report {
    type V = ReportView;

    open spec fn view(&self) -> ReportView {
        ReportView {
            diagnostics: order::views(self.diagnostics@),
            notes: list::texts(self.notes@),
            program: optional_memory(self.program),
            data: optional_memory(self.data),
            succeeded: self.succeeded,
            summary: list::optional(self.summary),
        }
    }
}

/// Whether a diagnostic is about the user's own source and has a severity.
pub open spec fn counts(diagnostic: DiagnosticView, severity: Severity) -> bool {
    diagnostic.severity == severity && !diagnostic.from_build_system
}

/// How many messages of a severity there are about the user's own source.
pub open spec fn tally(diagnostics: Seq<DiagnosticView>, severity: Severity) -> nat
    decreases diagnostics.len(),
{
    if diagnostics.len() == 0 {
        0
    } else {
        let rest = tally(diagnostics.drop_last(), severity);
        if counts(diagnostics.last(), severity) {
            rest + diagnostics.last().count
        } else {
            rest
        }
    }
}

/// How many messages there are.
pub open spec fn total(diagnostics: Seq<DiagnosticView>) -> nat
    decreases diagnostics.len(),
{
    if diagnostics.len() == 0 {
        0
    } else {
        total(diagnostics.drop_last()) + diagnostics.last().count
    }
}

/// There are no more messages among the first few diagnostics than among all.
proof fn lemma_total_take(diagnostics: Seq<DiagnosticView>, n: int)
    requires
        0 <= n <= diagnostics.len(),
    ensures
        total(diagnostics.take(n)) <= total(diagnostics),
    decreases diagnostics.len(),
{
    if n == diagnostics.len() {
        assert(diagnostics.take(n) == diagnostics);
    } else {
        lemma_total_take(diagnostics.drop_last(), n);
        assert(diagnostics.drop_last().take(n) == diagnostics.take(n));
    }
}

/// Messages of one severity about the user's own source are among all messages.
pub proof fn lemma_tally_within_total(diagnostics: Seq<DiagnosticView>, severity: Severity)
    ensures
        tally(diagnostics, severity) <= total(diagnostics),
    decreases diagnostics.len(),
{
    if diagnostics.len() > 0 {
        lemma_tally_within_total(diagnostics.drop_last(), severity);
    }
}

impl Report {
    /// How many errors there are in the user's own source.
    pub fn errors(&self) -> (r: usize)
        requires
            total(self@.diagnostics) <= usize::MAX,
        ensures
            r == tally(self@.diagnostics, Severity::Error),
    {
        self.count(Severity::Error)
    }

    /// How many warnings there are about the user's own source.
    pub fn warnings(&self) -> (r: usize)
        requires
            total(self@.diagnostics) <= usize::MAX,
        ensures
            r == tally(self@.diagnostics, Severity::Warning),
    {
        self.count(Severity::Warning)
    }

    /// How many messages of a severity there are about the user's own source.
    pub fn count(&self, severity: Severity) -> (r: usize)
        requires
            total(self@.diagnostics) <= usize::MAX,
        ensures
            r == tally(self@.diagnostics, severity),
    {
        let ghost all = self@.diagnostics;
        let mut sum: usize = 0;
        let mut i: usize = 0;
        while i < self.diagnostics.len()
            invariant
                i <= self.diagnostics@.len(),
                all == order::views(self.diagnostics@),
                all.len() == self.diagnostics@.len(),
                total(all) <= usize::MAX,
                sum == tally(all.take(i as int), severity),
            decreases self.diagnostics@.len() - i,
        {
            assert(all.take(i as int + 1).drop_last() == all.take(i as int));
            assert(all[i as int] == self.diagnostics@[i as int]@);
            proof {
                lemma_tally_within_total(all.take(i as int + 1), severity);
                lemma_total_take(all, i as int + 1);
            }
            let diagnostic = &self.diagnostics[i];
            if diagnostic.severity == severity && !diagnostic.from_build_system {
                sum = sum + diagnostic.count;
            }
            i += 1;
        }
        assert(all.take(i as int) == all);
        sum
    }
}

/// The numbers of a tally, as far as some of its parts give them: how many
/// projects were built, and how many failed.
pub open spec fn counts_in(parts: Seq<Seq<char>>) -> (int, int)
    decreases parts.len(),
{
    if parts.len() == 0 {
        (0, 0)
    } else {
        let (succeeded, failed) = counts_in(parts.drop_last());
        let part = text::trimmed(text::without_trailing(text::trimmed(parts.last()), '='));
        match text::cut_at_char(part, ' ') {
            None => (succeeded, failed),
            Some((figure, what)) => match number::number(
                text::trimmed(figure),
                10,
                usize::MAX as int,
            ) {
                None => (succeeded, failed),
                Some(value) => if "succeeded"@.is_prefix_of(what) {
                    (value, failed)
                } else if "failed"@.is_prefix_of(what) {
                    (succeeded, value)
                } else {
                    (succeeded, failed)
                },
            },
        }
    }
}

/// "1 succeeded or up-to-date, 0 failed, 0 skipped"
pub fn parse_counts(tally: &str) -> (r: (usize, usize))
    ensures
        (r.0 as int, r.1 as int) == counts_in(text::split_at(tally@, ',')),
{
    let chars = text::chars_of(tally);
    let parts = text::split_char(&chars, ',');
    let ghost all = text::split_at(tally@, ',');
    let mut succeeded: usize = 0;
    let mut failed: usize = 0;
    let mut i: usize = 0;
    assert(list::pieces(parts@).len() == parts@.len());
    while i < parts.len()
        invariant
            i <= parts@.len(),
            all == list::pieces(parts@),
            all.len() == parts@.len(),
            (succeeded as int, failed as int) == counts_in(all.take(i as int)),
        decreases parts@.len() - i,
    {
        assert(all.take(i as int + 1).drop_last() == all.take(i as int));
        assert(all[i as int] == parts@[i as int]@);
        let part = text::trim(text::trim_end_char(text::trim(parts[i]), '='));
        match text::split_once_char(part, ' ') {
            None => {},
            Some((figure, what)) => {
                match number::parse_number(text::trim(figure), 10, usize::MAX as u64) {
                    None => {},
                    Some(value) => {
                        if text::starts_with(what, "succeeded") {
                            succeeded = value as usize;
                        } else if text::starts_with(what, "failed") {
                            failed = value as usize;
                        }
                    },
                }
            },
        }
        i += 1;
    }
    assert(all.take(i as int) == all);
    (succeeded, failed)
}

/// Whether a character may stand between the label of a figure and the figure.
pub open spec fn is_gap(c: char) -> bool {
    c == ' ' || c == '\t' || c == ':'
}

/// `s` without what stands between a label and a figure.
pub open spec fn after_gap(s: Seq<char>) -> Seq<char>
    decreases s.len(),
{
    if s.len() > 0 && is_gap(s[0]) {
        after_gap(s.skip(1))
    } else {
        s
    }
}

/// `s` without what stands between a label and a figure.
fn skip_gap(s: &[char]) -> (r: &[char])
    ensures
        r@ == after_gap(s@),
{
    let n: usize = s.len();
    let mut i: usize = 0;
    assert(s@.skip(0) == s@);
    while i < n && (s[i] == ' ' || s[i] == '\t' || s[i] == ':')
        invariant
            i <= n,
            n == s@.len(),
            after_gap(s@) == after_gap(s@.skip(i as int)),
        decreases n - i,
    {
        assert(s@.skip(i as int).skip(1) == s@.skip(i as int + 1));
        assert(s@.skip(i as int)[0] == s@[i as int]);
        i += 1;
    }
    assert(i < n ==> s@.skip(i as int)[0] == s@[i as int]);
    assert(s@.subrange(i as int, n as int) == s@.skip(i as int));
    &s[i..n]
}

/// The memory usage figure that a line gives under a label.
pub open spec fn memory_of(line: Seq<char>, label: Seq<char>) -> Option<MemoryView> {
    match text::cut_at_text(line, label) {
        None => None,
        Some((_, rest)) => {
            let words = text::words_of(after_gap(rest));
            if words.len() < 3 || words[1] != "bytes"@ {
                None
            } else {
                match number::number(words[0], 10, u64::MAX as int) {
                    Some(bytes) => Some(MemoryView { bytes: bytes as nat, percent: words[2] }),
                    None => None,
                }
            }
        },
    }
}

/// "Program Memory Usage : 135656 bytes   25.9 % Full"
pub fn parse_memory(line: &str, label: &str) -> (r: Option<Memory>)
    ensures
        optional_memory(r) == memory_of(line@, label@),
{
    let chars = text::chars_of(line);
    match text::split_once(&chars, label) {
        None => None,
        Some((_, rest)) => {
            let words = text::words(skip_gap(rest));
            assert(list::pieces(words@).len() == words@.len());
            if words.len() < 3 {
                return None;
            }
            assert(list::pieces(words@)[0] == words@[0]@);
            assert(list::pieces(words@)[1] == words@[1]@);
            assert(list::pieces(words@)[2] == words@[2]@);
            if !text::is_text(words[1], "bytes") {
                return None;
            }
            match number::parse_number(words[0], 10, u64::MAX) {
                Some(bytes) => Some(Memory { bytes: bytes, percent: text::string_of(words[2]) }),
                None => None,
            }
        },
    }
}

/// Whether a line is a message that the toolchain prints without a file.
pub open spec fn tells(line: Seq<char>) -> bool {
    "cc1.exe:"@.is_prefix_of(line) || "cc1plus.exe:"@.is_prefix_of(line) || (
    "make:"@.is_prefix_of(line) && text::has_text(line, "Error"@))
        || "collect2.exe:"@.is_prefix_of(line)
}

/// Messages the toolchain prints without a file, which still matter.
pub fn is_note(line: &str) -> (r: bool)
    ensures
        r == tells(line@),
{
    let s = text::chars_of(line);
    text::starts_with(&s, "cc1.exe:") || text::starts_with(&s, "cc1plus.exe:") || (
    text::starts_with(&s, "make:") && text::contains(&s, "Error")) || text::starts_with(
        &s,
        "collect2.exe:",
    )
}

/// Where a diagnostic points, and what follows that.
pub struct Pointed {
    pub file: String,
    pub line: u32,
    pub column: u32,
    pub rest: String,
}

/// What a place and what follows it stand for.
pub struct PointedView {
    pub file: Seq<char>,
    pub line: nat,
    pub column: nat,
    pub rest: Seq<char>,
}

impl View for Pointed {
    type V = PointedView;

    open spec fn view(&self) -> PointedView {
        PointedView {
            file: self.file@,
            line: self.line as nat,
            column: self.column as nat,
            rest: self.rest@,
        }
    }
}

/// What an optional place stands for.
pub open spec fn optional_pointed(pointed: Option<Pointed>) -> Option<PointedView> {
    match pointed {
        Some(held) => Some(held@),
        None => None,
    }
}

/// The line and the column between the brackets of `(295,6`.
pub open spec fn position(inside: Seq<char>) -> Option<(nat, nat)> {
    match text::cut_at_char(inside, ',') {
        None => None,
        Some((first, second)) => match (
            number::number(text::trimmed(first), 10, u32::MAX as int),
            number::number(text::trimmed(second), 10, u32::MAX as int),
        ) {
            (Some(line), Some(column)) => Some((line as nat, column as nat)),
            _ => None,
        },
    }
}

/// The parts of `C:\path\file.c(295,6): rest`.
pub open spec fn positioned(line: Seq<char>) -> Option<PointedView> {
    match text::find_text(line, "): "@) {
        None => None,
        Some(close) => {
            let head = line.take(close);
            match head.index_of_last('(') {
                None => None,
                Some(open) => match position(head.skip(open + 1)) {
                    None => None,
                    Some((row, column)) => if open == 0 {
                        None
                    } else {
                        Some(
                            PointedView {
                                file: head.take(open),
                                line: row,
                                column: column,
                                rest: line.skip(close + 3),
                            },
                        )
                    },
                },
            }
        },
    }
}

/// Splits `C:\path\file.c(295,6): rest`.
pub fn split_positioned(line: &str) -> (r: Option<Pointed>)
    ensures
        optional_pointed(r) == positioned(line@),
{
    let s = text::chars_of(line);
    let n: usize = s.len();
    match text::find(&s, "): ") {
        None => None,
        Some(close) => {
            proof {
                reveal_strlit("): ");
            }
            let head: &[char] = &s[0..close];
            assert(head@ == line@.take(close as int));
            match text::rfind_char(head, '(') {
                None => None,
                Some(open) => {
                    let inside: &[char] = &head[open + 1..close];
                    assert(inside@ == head@.skip(open as int + 1));
                    match text::split_once_char(inside, ',') {
                        None => None,
                        Some((first, second)) => {
                            let row = number::parse_number(text::trim(first), 10, u32::MAX as u64);
                            let column = number::parse_number(
                                text::trim(second),
                                10,
                                u32::MAX as u64,
                            );
                            match (row, column) {
                                (Some(row), Some(column)) => if open == 0 {
                                    None
                                } else {
                                    let file: &[char] = &head[0..open];
                                    let rest: &[char] = &s[close + 3..n];
                                    assert(file@ == head@.take(open as int));
                                    assert(rest@ == line@.skip(close as int + 3));
                                    Some(
                                        Pointed {
                                            file: text::string_of(file),
                                            line: row as u32,
                                            column: column as u32,
                                            rest: text::string_of(rest),
                                        },
                                    )
                                },
                                _ => None,
                            }
                        },
                    }
                },
            }
        },
    }
}

/// The parts of `C:\path\app.cproj : error : rest`.
pub open spec fn unpositioned(line: Seq<char>) -> Option<PointedView> {
    let found = match text::find_text(line, " : error"@) {
        Some(at) => Some(at),
        None => text::find_text(line, " : warning"@),
    };
    match found {
        None => None,
        Some(at) => {
            let file = text::trimmed(line.take(at));
            if file.len() == 0 {
                None
            } else {
                Some(
                    PointedView {
                        file: file,
                        line: 0,
                        column: 0,
                        rest: text::trimmed_start(line.skip(at + 3)),
                    },
                )
            }
        },
    }
}

/// Splits `C:\path\app.cproj : error : rest`.
pub fn split_unpositioned(line: &str) -> (r: Option<Pointed>)
    ensures
        optional_pointed(r) == unpositioned(line@),
{
    let s = text::chars_of(line);
    let n: usize = s.len();
    proof {
        reveal_strlit(" : error");
        reveal_strlit(" : warning");
    }
    let found = match text::find(&s, " : error") {
        Some(at) => Some(at),
        None => text::find(&s, " : warning"),
    };
    match found {
        None => None,
        Some(at) => {
            let head: &[char] = &s[0..at];
            assert(head@ == line@.take(at as int));
            let file = text::trim(head);
            if file.len() == 0 {
                return None;
            }
            let tail: &[char] = &s[at + 3..n];
            assert(tail@ == line@.skip(at as int + 3));
            Some(
                Pointed {
                    file: text::string_of(file),
                    line: 0,
                    column: 0,
                    rest: text::string_of(text::trim_start(tail)),
                },
            )
        },
    }
}

/// The severity that a word names.
pub open spec fn severity_named(word: Seq<char>) -> Option<Severity> {
    if word == "error"@ {
        Some(Severity::Error)
    } else if word == "warning"@ {
        Some(Severity::Warning)
    } else {
        None
    }
}

/// The severity and the message of `warning: message`, `error MSB6003: message`, or
/// `error  : message`.
pub open spec fn graded(rest: Seq<char>) -> Option<(Severity, Seq<char>)> {
    match text::cut_at_char(rest, ':') {
        None => None,
        Some((first, second)) => {
            let head = text::trimmed(first);
            let message = text::trimmed(second);
            match severity_named(head.take(text::word_len(head))) {
                None => None,
                Some(severity) => {
                    let code = text::trimmed(head.skip(text::word_len(head)));
                    if code.len() == 0 {
                        Some((severity, message))
                    } else {
                        Some((severity, code + ": "@ + message))
                    }
                },
            }
        },
    }
}

/// Splits `warning: message`, `error MSB6003: message`, or `error  : message`.
pub fn split_severity(rest: &str) -> (r: Option<(Severity, String)>)
    ensures
        match r {
            Some((severity, message)) => graded(rest@) == Some((severity, message@)),
            None => graded(rest@) is None,
        },
{
    let s = text::chars_of(rest);
    match text::split_once_char(&s, ':') {
        None => None,
        Some((first, second)) => {
            let head = text::trim(first);
            let n: usize = head.len();
            let message = text::string_of(text::trim(second));
            proof {
                text::lemma_word_len(head@);
            }
            let end: usize = text::measure_word(head);
            let word: &[char] = &head[0..end];
            assert(word@ == head@.take(end as int));
            let severity = if text::is_text(word, "error") {
                Severity::Error
            } else if text::is_text(word, "warning") {
                Severity::Warning
            } else {
                return None;
            };
            let tail: &[char] = &head[end..n];
            assert(tail@ == head@.skip(end as int));
            let code = text::trim(tail);
            if code.len() == 0 {
                Some((severity, message))
            } else {
                // The MSBuild code is the searchable part of the message.
                let shown = text::string_of(code);
                Some((severity, text::cat3(shown.as_str(), ": ", message.as_str())))
            }
        },
    }
}

/// Whether a file is a generated one.
pub open spec fn generated(file: Seq<char>, output_directory: Option<Seq<char>>) -> bool {
    let low = text::lowered(file);
    "makefile"@.is_suffix_of(low) || ".mk"@.is_suffix_of(low) || match output_directory {
        Some(directory) => text::lowered(directory).is_prefix_of(low),
        None => false,
    }
}

/// Messages about generated files are build-system noise, not source problems.
///
/// The generated makefile reports `recipe for target 'src/main.o' failed` for
/// every compile error, and the link step warns about its own command line.
pub fn is_generated(file: &str, output_directory: Option<&str>) -> (r: bool)
    ensures
        r == generated(file@, list::optional_str(output_directory)),
{
    let low = text::lower(&text::chars_of(file));
    if text::ends_with(&low, "makefile") || text::ends_with(&low, ".mk") {
        return true;
    }
    match output_directory {
        Some(directory) => {
            let front = text::lower(&text::chars_of(directory));
            text::matches_at(&low, &front, 0)
        },
        None => false,
    }
}

/// What an optional diagnostic stands for.
pub open spec fn optional_diagnostic(diagnostic: Option<Diagnostic>) -> Option<DiagnosticView> {
    match diagnostic {
        Some(held) => Some(held@),
        None => None,
    }
}

/// The diagnostic that a line is, if it is one.
pub open spec fn diagnostic_of(line: Seq<char>, output_directory: Option<Seq<char>>) -> Option<
    DiagnosticView,
> {
    let pointed = match positioned(line) {
        Some(found) => Some(found),
        None => unpositioned(line),
    };
    match pointed {
        None => None,
        Some(place) => match graded(place.rest) {
            None => None,
            Some((severity, message)) => Some(
                DiagnosticView {
                    severity: severity,
                    file: Some(place.file),
                    line: place.line,
                    column: place.column,
                    message: message,
                    from_build_system: generated(place.file, output_directory),
                    count: 1,
                },
            ),
        },
    }
}

/// Reads one diagnostic line.
///
/// Atmel's build task rewrites compiler output into the MSBuild canonical form
/// `C:\path\file.c(line,column): severity: message`, with a second form for
/// project-level failures: `C:\path\file.cproj : error : message`.
pub fn parse_diagnostic(line: &str, output_directory: Option<&str>) -> (r: Option<Diagnostic>)
    ensures
        optional_diagnostic(r) == diagnostic_of(line@, list::optional_str(output_directory)),
{
    let pointed = match split_positioned(line) {
        Some(found) => Some(found),
        None => split_unpositioned(line),
    };
    match pointed {
        None => None,
        Some(place) => match split_severity(place.rest.as_str()) {
            None => None,
            Some((severity, message)) => {
                let noise = is_generated(place.file.as_str(), output_directory);
                Some(
                    Diagnostic {
                        severity: severity,
                        file: Some(place.file),
                        line: place.line,
                        column: place.column,
                        message: message,
                        from_build_system: noise,
                        count: 1,
                    },
                )
            },
        },
    }
}

/// Whether two diagnostics say the same of the same place.
pub open spec fn repeats(a: DiagnosticView, b: DiagnosticView) -> bool {
    a.severity == b.severity && a.file == b.file && a.line == b.line && a.column == b.column
        && a.message == b.message
}

/// The first diagnostic at or after `from` that says the same as another.
pub open spec fn repeated_from(
    diagnostics: Seq<DiagnosticView>,
    diagnostic: DiagnosticView,
    from: int,
) -> Option<int>
    decreases diagnostics.len() - from,
{
    if from < 0 || from >= diagnostics.len() {
        None
    } else if repeats(diagnostics[from], diagnostic) {
        Some(from)
    } else {
        repeated_from(diagnostics, diagnostic, from + 1)
    }
}

/// Diagnostics with one more, which only adds to the count of one that says the
/// same.
pub open spec fn merged(diagnostics: Seq<DiagnosticView>, diagnostic: DiagnosticView) -> Seq<
    DiagnosticView,
> {
    match repeated_from(diagnostics, diagnostic, 0) {
        Some(i) => diagnostics.update(
            i,
            DiagnosticView { count: diagnostics[i].count + 1, ..diagnostics[i] },
        ),
        None => diagnostics.push(diagnostic),
    }
}

/// Whether two optional texts are the same.
fn same_optional(a: &Option<String>, b: &Option<String>) -> (r: bool)
    ensures
        r == (list::optional(*a) == list::optional(*b)),
{
    match (a, b) {
        (Some(x), Some(y)) => text::same_str(x.as_str(), y.as_str()),
        (None, None) => true,
        _ => false,
    }
}

/// Adds a diagnostic, or counts it where it is a repetition.
pub fn merge(diagnostics: &mut Vec<Diagnostic>, diagnostic: Diagnostic)
    requires
        forall|i: int|
            0 <= i < old(diagnostics)@.len() ==> (#[trigger] old(diagnostics)@[i]).count
                < usize::MAX,
    ensures
        order::views(final(diagnostics)@) == merged(order::views(old(diagnostics)@), diagnostic@),
{
    let ghost all = order::views(diagnostics@);
    let ghost before = diagnostics@;
    let mut i: usize = 0;
    while i < diagnostics.len()
        invariant
            i <= diagnostics@.len(),
            diagnostics@ == before,
            before == old(diagnostics)@,
            all == order::views(before),
            all.len() == before.len(),
            forall|k: int| 0 <= k < before.len() ==> (#[trigger] before[k]).count < usize::MAX,
            repeated_from(all, diagnostic@, 0) == repeated_from(all, diagnostic@, i as int),
        decreases diagnostics@.len() - i,
    {
        assert(all[i as int] == before[i as int]@);
        let same = {
            let held = &diagnostics[i];
            held.severity == diagnostic.severity && same_optional(&held.file, &diagnostic.file)
                && held.line == diagnostic.line && held.column == diagnostic.column
                && text::same_str(held.message.as_str(), diagnostic.message.as_str())
        };
        if same {
            let count: usize = diagnostics[i].count;
            diagnostics[i].count = count + 1;
            assert(order::views(diagnostics@) == all.update(
                i as int,
                DiagnosticView { count: all[i as int].count + 1, ..all[i as int] },
            ));
            return;
        }
        i += 1;
    }
    diagnostics.push(diagnostic);
    assert(order::views(diagnostics@) == all.push(diagnostic@));
}

/// Adds a note that is not there yet.
pub fn push_unique(notes: &mut Vec<String>, note: String)
    ensures
        list::texts(final(notes)@) == list::with_item(list::texts(old(notes)@), note@),
{
    if !text::listed(notes, note.as_str()) {
        notes.push(note);
    }
}

/// How far a log has been read.
pub struct Progress {
    pub diagnostics: Seq<DiagnosticView>,
    pub notes: Seq<Seq<char>>,
    pub program: Option<MemoryView>,
    pub data: Option<MemoryView>,
    pub summary: Option<Seq<char>>,
    /// How many projects were built and how many failed, where a tally says so.
    pub projects: Option<(int, int)>,
    /// Whether the last verdict was that the build succeeded.
    pub verdict: bool,
}

/// Whether a line is indented.
pub open spec fn indented(line: Seq<char>) -> bool {
    line.len() > 0 && (line[0] == ' ' || line[0] == '\t')
}

/// Whether a line is indented.
fn is_indented(line: &[char]) -> (r: bool)
    ensures
        r == indented(line@),
{
    line.len() > 0 && (line[0] == ' ' || line[0] == '\t')
}

/// What one line of a log adds. A diagnostic always starts at column zero; the
/// source excerpt and caret that follow it are indented, so anything indented is
/// context.
pub open spec fn after_line(
    state: Progress,
    line: Seq<char>,
    output_directory: Option<Seq<char>>,
) -> Progress {
    let bare = text::trimmed(line);
    if bare == "Build succeeded."@ {
        Progress { verdict: true, ..state }
    } else if bare == "Build FAILED."@ {
        Progress { verdict: false, ..state }
    } else if "========== Build:"@.is_prefix_of(bare) {
        Progress {
            summary: Some(text::trimmed(text::without_around(bare, '='))),
            projects: Some(
                counts_in(text::split_at(bare.skip("========== Build:"@.len() as int), ',')),
            ),
            ..state
        }
    } else if memory_of(bare, "Program Memory Usage"@) is Some {
        Progress { program: memory_of(bare, "Program Memory Usage"@), ..state }
    } else if memory_of(bare, "Data Memory Usage"@) is Some {
        Progress { data: memory_of(bare, "Data Memory Usage"@), ..state }
    } else if tells(bare) {
        Progress { notes: list::with_item(state.notes, bare), ..state }
    } else if indented(line) {
        state
    } else {
        match diagnostic_of(line, output_directory) {
            Some(diagnostic) => Progress {
                diagnostics: merged(state.diagnostics, diagnostic),
                ..state
            },
            None => state,
        }
    }
}

/// What the lines of a log hold.
pub open spec fn after_lines(lines: Seq<Seq<char>>, output_directory: Option<Seq<char>>) -> Progress
    decreases lines.len(),
{
    if lines.len() == 0 {
        Progress {
            diagnostics: Seq::empty(),
            notes: Seq::empty(),
            program: None,
            data: None,
            summary: None,
            projects: None,
            verdict: false,
        }
    } else {
        after_line(after_lines(lines.drop_last(), output_directory), lines.last(), output_directory)
    }
}

/// Whether there is an error among diagnostics, wherever it comes from.
pub open spec fn any_error(diagnostics: Seq<DiagnosticView>) -> bool {
    exists|i: int|
        0 <= i < diagnostics.len() && (#[trigger] diagnostics[i]).severity == Severity::Error
}

/// Whether a tally says that projects were built. Only Atmel Studio writes one; a
/// bare MSBuild run reports success with nothing but its verdict.
pub open spec fn projects_built(projects: Option<(int, int)>) -> bool {
    match projects {
        Some((succeeded, failed)) => failed == 0 && succeeded > 0,
        None => true,
    }
}

/// What a log says of a build.
pub open spec fn report_of(log: Seq<char>, output_directory: Option<Seq<char>>) -> ReportView {
    let state = after_lines(text::lines_of(log), output_directory);
    ReportView {
        diagnostics: state.diagnostics,
        notes: state.notes,
        program: state.program,
        data: state.data,
        succeeded: state.verdict && projects_built(state.projects) && !any_error(state.diagnostics),
        summary: state.summary,
    }
}

/// No message is counted more often than there are messages.
proof fn lemma_count_within_total(diagnostics: Seq<DiagnosticView>, i: int)
    requires
        0 <= i < diagnostics.len(),
    ensures
        diagnostics[i].count <= total(diagnostics),
    decreases diagnostics.len(),
{
    if i < diagnostics.len() - 1 {
        lemma_count_within_total(diagnostics.drop_last(), i);
    }
}

/// Counting one message once more makes one more message.
proof fn lemma_total_counted(diagnostics: Seq<DiagnosticView>, i: int, counted: DiagnosticView)
    requires
        0 <= i < diagnostics.len(),
        counted.count == diagnostics[i].count + 1,
    ensures
        total(diagnostics.update(i, counted)) == total(diagnostics) + 1,
    decreases diagnostics.len(),
{
    let after = diagnostics.update(i, counted);
    if i < diagnostics.len() - 1 {
        lemma_total_counted(diagnostics.drop_last(), i, counted);
        assert(after.drop_last() == diagnostics.drop_last().update(i, counted));
    } else {
        assert(after.drop_last() == diagnostics.drop_last());
    }
}

/// The diagnostic that says the same is one of the diagnostics, and the first.
pub proof fn lemma_repeated_from(
    diagnostics: Seq<DiagnosticView>,
    diagnostic: DiagnosticView,
    from: int,
)
    requires
        0 <= from,
    ensures
        match repeated_from(diagnostics, diagnostic, from) {
            Some(i) => from <= i < diagnostics.len() && repeats(diagnostics[i], diagnostic)
                && forall|k: int|
                from <= k < i ==> !repeats(#[trigger] diagnostics[k], diagnostic),
            None => forall|k: int|
                from <= k < diagnostics.len() ==> !repeats(#[trigger] diagnostics[k], diagnostic),
        },
    decreases diagnostics.len() - from,
{
    if from < diagnostics.len() && !repeats(diagnostics[from], diagnostic) {
        lemma_repeated_from(diagnostics, diagnostic, from + 1);
    }
}

/// A diagnostic that is added is one more message, whether or not it repeats one.
pub proof fn lemma_merged_total(diagnostics: Seq<DiagnosticView>, diagnostic: DiagnosticView)
    requires
        diagnostic.count == 1,
    ensures
        total(merged(diagnostics, diagnostic)) == total(diagnostics) + 1,
{
    lemma_repeated_from(diagnostics, diagnostic, 0);
    match repeated_from(diagnostics, diagnostic, 0) {
        Some(i) => {
            lemma_total_counted(
                diagnostics,
                i,
                DiagnosticView { count: diagnostics[i].count + 1, ..diagnostics[i] },
            );
        },
        None => {
            assert(diagnostics.push(diagnostic).drop_last() == diagnostics);
        },
    }
}

/// Reads a build log.
///
/// `output_directory` is the configuration's output directory as a Windows
/// path, used to tell messages about generated files apart from messages about
/// the user's own source.
pub fn parse(log: &str, output_directory: Option<&str>) -> (r: Report)
    ensures
        r@ == report_of(log@, list::optional_str(output_directory)),
        total(r@.diagnostics) <= usize::MAX,
{
    let chars = text::chars_of(log);
    let lines = text::lines(&chars);
    let ghost all = text::lines_of(log@);
    let ghost directory = list::optional_str(output_directory);
    let mut diagnostics: Vec<Diagnostic> = Vec::new();
    let mut notes: Vec<String> = Vec::new();
    let mut program: Option<Memory> = None;
    let mut data: Option<Memory> = None;
    let mut summary: Option<String> = None;
    let mut projects: Option<(usize, usize)> = None;
    let mut verdict = false;
    let mut i: usize = 0;
    assert(list::pieces(lines@).len() == lines@.len());
    assert(order::views(diagnostics@) == Seq::<DiagnosticView>::empty());
    assert(list::texts(notes@) == Seq::<Seq<char>>::empty());
    while i < lines.len()
        invariant
            i <= lines@.len(),
            all == list::pieces(lines@),
            all.len() == lines@.len(),
            directory == list::optional_str(output_directory),
            order::views(diagnostics@) == after_lines(all.take(i as int), directory).diagnostics,
            total(order::views(diagnostics@)) <= i,
            list::texts(notes@) == after_lines(all.take(i as int), directory).notes,
            optional_memory(program) == after_lines(all.take(i as int), directory).program,
            optional_memory(data) == after_lines(all.take(i as int), directory).data,
            list::optional(summary) == after_lines(all.take(i as int), directory).summary,
            match projects {
                Some((succeeded, failed)) => after_lines(all.take(i as int), directory).projects
                    == Some((succeeded as int, failed as int)),
                None => after_lines(all.take(i as int), directory).projects is None,
            },
            verdict == after_lines(all.take(i as int), directory).verdict,
        decreases lines@.len() - i,
    {
        assert(all.take(i as int + 1).drop_last() == all.take(i as int));
        assert(all[i as int] == lines@[i as int]@);
        let line = lines[i];
        i += 1;
        let bare = text::trim(line);
        if text::is_text(bare, "Build succeeded.") {
            verdict = true;
            continue;
        }
        if text::is_text(bare, "Build FAILED.") {
            verdict = false;
            continue;
        }
        if let Some(rest) = text::strip_prefix(bare, "========== Build:") {
            summary = Some(text::string_of(text::trim(text::trim_char(bare, '='))));
            projects = Some(parse_counts(text::string_of(rest).as_str()));
            continue;
        }
        let shown = text::string_of(bare);
        if let Some(memory) = parse_memory(shown.as_str(), "Program Memory Usage") {
            program = Some(memory);
            continue;
        }
        if let Some(memory) = parse_memory(shown.as_str(), "Data Memory Usage") {
            data = Some(memory);
            continue;
        }
        if is_note(shown.as_str()) {
            push_unique(&mut notes, shown);
            continue;
        }
        if is_indented(line) {
            continue;
        }
        if let Some(diagnostic) = parse_diagnostic(text::string_of(line).as_str(), output_directory) {
            proof {
                let held = order::views(diagnostics@);
                lemma_merged_total(held, diagnostic@);
                assert forall|k: int| 0 <= k < diagnostics@.len() implies (
                #[trigger] diagnostics@[k]).count < usize::MAX by {
                    lemma_count_within_total(held, k);
                    assert(held[k] == diagnostics@[k]@);
                }
            }
            merge(&mut diagnostics, diagnostic);
        }
    }
    assert(all.take(i as int) == all);
    let errors = has_error(&diagnostics);
    let built = match projects {
        Some((succeeded, failed)) => failed == 0 && succeeded > 0,
        None => true,
    };
    Report {
        diagnostics: diagnostics,
        notes: notes,
        program: program,
        data: data,
        succeeded: verdict && built && !errors,
        summary: summary,
    }
}

/// Whether there is an error among diagnostics, wherever it comes from.
fn has_error(diagnostics: &Vec<Diagnostic>) -> (r: bool)
    ensures
        r == any_error(order::views(diagnostics@)),
{
    let ghost all = order::views(diagnostics@);
    let mut i: usize = 0;
    while i < diagnostics.len()
        invariant
            i <= diagnostics@.len(),
            all == order::views(diagnostics@),
            all.len() == diagnostics@.len(),
            forall|k: int| 0 <= k < i ==> (#[trigger] all[k]).severity != Severity::Error,
        decreases diagnostics@.len() - i,
    {
        assert(all[i as int] == diagnostics@[i as int]@);
        if diagnostics[i].severity == Severity::Error {
            return true;
        }
        i += 1;
    }
    false
}

/// Whether a line of a log is read as a diagnostic.
pub open spec fn is_message(line: Seq<char>, output_directory: Option<Seq<char>>) -> bool {
    let bare = text::trimmed(line);
    &&& bare != "Build succeeded."@
    &&& bare != "Build FAILED."@
    &&& !"========== Build:"@.is_prefix_of(bare)
    &&& memory_of(bare, "Program Memory Usage"@) is None
    &&& memory_of(bare, "Data Memory Usage"@) is None
    &&& !tells(bare)
    &&& !indented(line)
    &&& diagnostic_of(line, output_directory) is Some
}

/// How many lines of a log are read as diagnostics.
pub open spec fn message_lines(lines: Seq<Seq<char>>, output_directory: Option<Seq<char>>) -> nat
    decreases lines.len(),
{
    if lines.len() == 0 {
        0
    } else {
        message_lines(lines.drop_last(), output_directory) + if is_message(
            lines.last(),
            output_directory,
        ) {
            1nat
        } else {
            0
        }
    }
}

/// Folding repeated messages together loses none: the counts of the diagnostics add
/// up to the number of lines that are diagnostics.
pub proof fn lemma_every_message_counted(
    lines: Seq<Seq<char>>,
    output_directory: Option<Seq<char>>,
)
    ensures
        total(after_lines(lines, output_directory).diagnostics) == message_lines(
            lines,
            output_directory,
        ),
    decreases lines.len(),
{
    if lines.len() > 0 {
        lemma_every_message_counted(lines.drop_last(), output_directory);
        let state = after_lines(lines.drop_last(), output_directory);
        match diagnostic_of(lines.last(), output_directory) {
            Some(diagnostic) => {
                lemma_merged_total(state.diagnostics, diagnostic);
            },
            None => {},
        }
    }
}

/// Whether no two diagnostics say the same, and each was seen at least once.
pub open spec fn folded(diagnostics: Seq<DiagnosticView>) -> bool {
    &&& forall|i: int, j: int|
        0 <= i < j < diagnostics.len() ==> !repeats(
            #[trigger] diagnostics[i],
            #[trigger] diagnostics[j],
        )
    &&& forall|i: int| 0 <= i < diagnostics.len() ==> (#[trigger] diagnostics[i]).count >= 1
}

/// Repeated messages are folded together: no two diagnostics of a report say the
/// same of the same place, and no note stands there twice.
pub proof fn lemma_messages_folded(lines: Seq<Seq<char>>, output_directory: Option<Seq<char>>)
    ensures
        folded(after_lines(lines, output_directory).diagnostics),
        after_lines(lines, output_directory).notes.no_duplicates(),
    decreases lines.len(),
{
    if lines.len() > 0 {
        lemma_messages_folded(lines.drop_last(), output_directory);
        let state = after_lines(lines.drop_last(), output_directory);
        match diagnostic_of(lines.last(), output_directory) {
            Some(diagnostic) => {
                let held = state.diagnostics;
                let after = merged(held, diagnostic);
                lemma_repeated_from(held, diagnostic, 0);
                assert forall|i: int, j: int| 0 <= i < j < after.len() implies !repeats(
                    #[trigger] after[i],
                    #[trigger] after[j],
                ) by {
                    if j < held.len() {
                        assert(!repeats(held[i], held[j]));
                    } else {
                        assert(!repeats(held[i], diagnostic));
                    }
                }
                assert(folded(after));
            },
            None => {},
        }
        let bare = text::trimmed(lines.last());
        list::lemma_with_item_unique(state.notes, bare);
    }
}

/// A build that is called successful left no error, not even one from the build
/// system, and its log says that it succeeded.
pub proof fn lemma_success_means_no_errors(log: Seq<char>, output_directory: Option<Seq<char>>)
    requires
        report_of(log, output_directory).succeeded,
    ensures
        tally(report_of(log, output_directory).diagnostics, Severity::Error) == 0,
        exists|i: int|
            0 <= i < text::lines_of(log).len() && text::trimmed(#[trigger] text::lines_of(log)[i])
                == "Build succeeded."@,
{
    let state = after_lines(text::lines_of(log), output_directory);
    lemma_no_error_tally(state.diagnostics);
    lemma_verdict_spoken(text::lines_of(log), output_directory);
}

proof fn lemma_no_error_tally(diagnostics: Seq<DiagnosticView>)
    requires
        !any_error(diagnostics),
    ensures
        tally(diagnostics, Severity::Error) == 0,
    decreases diagnostics.len(),
{
    if diagnostics.len() > 0 {
        let rest = diagnostics.drop_last();
        assert forall|i: int| 0 <= i < rest.len() implies (#[trigger] rest[i]).severity
            != Severity::Error by {
            assert(rest[i] == diagnostics[i]);
        }
        lemma_no_error_tally(rest);
    }
}

proof fn lemma_verdict_spoken(lines: Seq<Seq<char>>, output_directory: Option<Seq<char>>)
    requires
        after_lines(lines, output_directory).verdict,
    ensures
        exists|i: int|
            0 <= i < lines.len() && text::trimmed(#[trigger] lines[i]) == "Build succeeded."@,
    decreases lines.len(),
{
    if lines.len() > 0 {
        if text::trimmed(lines.last()) == "Build succeeded."@ {
            assert(lines[lines.len() - 1] == lines.last());
        } else {
            let rest = lines.drop_last();
            lemma_verdict_spoken(rest, output_directory);
            let i = choose|i: int|
                0 <= i < rest.len() && text::trimmed(#[trigger] rest[i]) == "Build succeeded."@;
            assert(lines[i] == rest[i]);
        }
    }
}

/// A build whose last tally counts no project that was built, or one that failed,
/// is never called successful, whatever else the log says.
pub proof fn lemma_no_project_no_success(
    log: Seq<char>,
    output_directory: Option<Seq<char>>,
    succeeded: int,
    failed: int,
)
    requires
        after_lines(text::lines_of(log), output_directory).projects == Some((succeeded, failed)),
        succeeded == 0 || failed > 0,
    ensures
        !report_of(log, output_directory).succeeded,
{
}

/// Messages from the build system do not inflate the counts that are shown: a
/// report counts the same errors and warnings as it would without them.
pub proof fn lemma_noise_not_counted(diagnostics: Seq<DiagnosticView>, severity: Severity)
    ensures
        tally(diagnostics, severity) == tally(
            diagnostics.filter(|diagnostic: DiagnosticView| !diagnostic.from_build_system),
            severity,
        ),
    decreases diagnostics.len(),
{
    reveal(Seq::filter);
    if diagnostics.len() > 0 {
        lemma_noise_not_counted(diagnostics.drop_last(), severity);
        let own = |diagnostic: DiagnosticView| !diagnostic.from_build_system;
        let rest = diagnostics.drop_last().filter(own);
        if own(diagnostics.last()) {
            assert(rest.push(diagnostics.last()).drop_last() == rest);
        }
    }
}

/// ANSI styling, switched off when the output is not a terminal.
#[derive(Clone, Copy, Debug)]
pub struct Style {
    pub color: bool,
}

/// A text between the escape sequences of a style, if there are to be any.
pub open spec fn painted(style: Style, code: Seq<char>, shown: Seq<char>) -> Seq<char> {
    if style.color {
        "\x1b["@ + code + "m"@ + shown + "\x1b[0m"@
    } else {
        shown
    }
}

impl Style {
    pub fn new(color: bool) -> (r: Self)
        ensures
            r.color == color,
    {
        Style { color: color }
    }

    pub fn paint(&self, code: &str, shown: &str) -> (r: String)
        ensures
            r@ == painted(*self, code@, shown@),
    {
        if self.color {
            text::cat5("\x1b[", code, "m", shown, "\x1b[0m")
        } else {
            shown.to_owned()
        }
    }

    pub fn green(&self, shown: &str) -> (r: String)
        ensures
            r@ == painted(*self, "1;32"@, shown@),
    {
        self.paint("1;32", shown)
    }

    pub fn red(&self, shown: &str) -> (r: String)
        ensures
            r@ == painted(*self, "1;31"@, shown@),
    {
        self.paint("1;31", shown)
    }

    pub fn yellow(&self, shown: &str) -> (r: String)
        ensures
            r@ == painted(*self, "1;33"@, shown@),
    {
        self.paint("1;33", shown)
    }

    pub fn cyan(&self, shown: &str) -> (r: String)
        ensures
            r@ == painted(*self, "1;36"@, shown@),
    {
        self.paint("1;36", shown)
    }

    pub fn dim(&self, shown: &str) -> (r: String)
        ensures
            r@ == painted(*self, "2"@, shown@),
    {
        self.paint("2", shown)
    }
}

/// The width of a label.
pub const LABEL_WIDTH: usize = 10;

/// A text with as many spaces in front as a label needs.
pub open spec fn labelled(shown: Seq<char>) -> Seq<char> {
    if shown.len() < LABEL_WIDTH {
        Seq::new((LABEL_WIDTH - shown.len()) as nat, |i: int| ' ') + shown
    } else {
        shown
    }
}

/// Right-aligns a label the way cargo does, so the messages line up.
pub fn label(shown: &str) -> (r: String)
    ensures
        r@ == labelled(shown@),
{
    let s = text::chars_of(shown);
    let n: usize = s.len();
    let mut out: Vec<char> = Vec::new();
    while out.len() + n < LABEL_WIDTH
        invariant
            n <= usize::MAX - LABEL_WIDTH || out@.len() == 0,
            out@.len() == 0 || out@.len() + n <= LABEL_WIDTH,
            forall|i: int| 0 <= i < out@.len() ==> out@[i] == ' ',
        decreases LABEL_WIDTH - out@.len(),
    {
        out.push(' ');
    }
    text::push_all(&mut out, &s);
    assert(out@ == labelled(shown@));
    text::string_of(&out)
}

/// A path as one relative to `base` when that stays unambiguous.
pub fn relative_to(host: Host, file: &str, base: &str) -> (r: String)
    ensures
        r@ == path::below(host, file@, base@),
{
    path::below_of(host, file, base)
}

/// The place of a diagnostic in a message.
pub open spec fn place_text(
    diagnostic: DiagnosticView,
    paths: host::PathsView,
    base: Seq<char>,
) -> Seq<char> {
    match diagnostic.file {
        None => Seq::empty(),
        Some(file) => {
            let shown = path::below(paths.host, host::for_user(paths, file), base);
            if diagnostic.line > 0 {
                shown + ":"@ + number::decimal(diagnostic.line) + ":"@ + number::decimal(
                    diagnostic.column,
                ) + ": "@
            } else {
                shown + ": "@
            }
        },
    }
}

/// How often a message appeared, where that was more than once.
pub open spec fn times_text(count: nat) -> Seq<char> {
    if count > 1 {
        " ("@ + number::decimal(count) + "x)"@
    } else {
        Seq::empty()
    }
}

/// The painted label of a severity.
pub open spec fn severity_label(style: Style, severity: Severity) -> Seq<char> {
    match severity {
        Severity::Error => painted(style, "1;31"@, labelled("error"@)),
        Severity::Warning => painted(style, "1;33"@, labelled("warning"@)),
    }
}

/// The line that shows a diagnostic.
pub open spec fn diagnostic_line(
    diagnostic: DiagnosticView,
    paths: host::PathsView,
    style: Style,
    base: Seq<char>,
) -> Seq<char> {
    severity_label(style, diagnostic.severity) + " "@ + place_text(diagnostic, paths, base)
        + diagnostic.message + times_text(diagnostic.count)
}

/// The line that shows a diagnostic.
pub fn render_diagnostic(
    diagnostic: &Diagnostic,
    paths: &Paths,
    style: &Style,
    working_directory: &str,
) -> (r: String)
    ensures
        r@ == diagnostic_line(diagnostic@, paths@, *style, working_directory@),
{
    let front = match diagnostic.severity {
        Severity::Error => style.red(label("error").as_str()),
        Severity::Warning => style.yellow(label("warning").as_str()),
    };
    let place = match &diagnostic.file {
        None => String::new(),
        Some(file) => {
            let native = paths.from_windows(file.as_str());
            let shown = relative_to(paths.host, native.as_str(), working_directory);
            if diagnostic.line > 0 {
                let row = number::decimal_string(diagnostic.line as u64);
                let column = number::decimal_string(diagnostic.column as u64);
                let at = text::cat4(shown.as_str(), ":", row.as_str(), ":");
                text::cat3(at.as_str(), column.as_str(), ": ")
            } else {
                text::cat2(shown.as_str(), ": ")
            }
        },
    };
    let times = if diagnostic.count > 1 {
        let count = number::decimal_string(diagnostic.count as u64);
        text::cat3(" (", count.as_str(), "x)")
    } else {
        String::new()
    };
    text::cat5(
        front.as_str(),
        " ",
        place.as_str(),
        diagnostic.message.as_str(),
        times.as_str(),
    )
}

/// Whether a diagnostic is one of those of which only so many are shown.
pub open spec fn limited(diagnostic: DiagnosticView, verbose: bool) -> bool {
    !verbose && counts(diagnostic, Severity::Warning)
}

/// How many diagnostics there are of those of which only so many are shown.
pub open spec fn limited_among(diagnostics: Seq<DiagnosticView>, verbose: bool) -> nat
    decreases diagnostics.len(),
{
    if diagnostics.len() == 0 {
        0
    } else {
        limited_among(diagnostics.drop_last(), verbose) + if limited(diagnostics.last(), verbose) {
            1nat
        } else {
            0
        }
    }
}

/// The diagnostics that are shown.
pub open spec fn shown(diagnostics: Seq<DiagnosticView>, verbose: bool) -> Seq<DiagnosticView>
    decreases diagnostics.len(),
{
    if diagnostics.len() == 0 {
        Seq::empty()
    } else {
        let diagnostic = diagnostics.last();
        let rest = shown(diagnostics.drop_last(), verbose);
        if diagnostic.from_build_system && !verbose {
            rest
        } else if limited(diagnostic, verbose) && limited_among(diagnostics.drop_last(), verbose)
            >= WARNING_LIMIT {
            rest
        } else {
            rest.push(diagnostic)
        }
    }
}

/// How many warnings are folded into a count.
pub open spec fn hidden(diagnostics: Seq<DiagnosticView>, verbose: bool) -> nat
    decreases diagnostics.len(),
{
    if diagnostics.len() == 0 {
        0
    } else {
        let rest = hidden(diagnostics.drop_last(), verbose);
        if limited(diagnostics.last(), verbose) && limited_among(diagnostics.drop_last(), verbose)
            >= WARNING_LIMIT {
            rest + diagnostics.last().count
        } else {
            rest
        }
    }
}

/// The lines that show diagnostics.
pub open spec fn diagnostic_lines(
    diagnostics: Seq<DiagnosticView>,
    paths: host::PathsView,
    style: Style,
    base: Seq<char>,
) -> Seq<Seq<char>> {
    diagnostics.map_values(
        |diagnostic: DiagnosticView| diagnostic_line(diagnostic, paths, style, base),
    )
}

/// The line that tells how many warnings are not shown.
pub open spec fn hidden_lines(count: nat, style: Style) -> Seq<Seq<char>> {
    if count > 0 {
        seq![
            painted(style, "2"@, labelled("..."@)) + " "@ + painted(
                style,
                "2"@,
                number::decimal(count) + " more warnings, run with --verbose to see them"@,
            ),
        ]
    } else {
        Seq::empty()
    }
}

/// The lines that show notes.
pub open spec fn note_lines(notes: Seq<Seq<char>>, style: Style) -> Seq<Seq<char>> {
    notes.map_values(
        |note: Seq<char>| painted(style, "2"@, labelled("note"@)) + " "@ + note,
    )
}

/// The lines that are printed of a report.
pub open spec fn report_lines(
    report: ReportView,
    paths: host::PathsView,
    style: Style,
    base: Seq<char>,
    verbose: bool,
) -> Seq<Seq<char>> {
    diagnostic_lines(shown(report.diagnostics, verbose), paths, style, base) + hidden_lines(
        hidden(report.diagnostics, verbose),
        style,
    ) + note_lines(report.notes, style)
}

/// Warnings that are not shown are among the messages.
proof fn lemma_hidden_within_total(diagnostics: Seq<DiagnosticView>, verbose: bool)
    ensures
        hidden(diagnostics, verbose) <= total(diagnostics),
    decreases diagnostics.len(),
{
    if diagnostics.len() > 0 {
        lemma_hidden_within_total(diagnostics.drop_last(), verbose);
    }
}

/// Renders the report as the lines that are printed after a build.
pub fn render(
    report: &Report,
    paths: &Paths,
    style: &Style,
    working_directory: &str,
    verbose: bool,
) -> (r: Vec<String>)
    requires
        total(report@.diagnostics) <= usize::MAX,
    ensures
        list::texts(r@) == report_lines(report@, paths@, *style, working_directory@, verbose),
{
    let ghost all = report@.diagnostics;
    let ghost base = working_directory@;
    let mut lines: Vec<String> = Vec::new();
    let mut shown_warnings: usize = 0;
    let mut hidden_warnings: usize = 0;
    let mut i: usize = 0;
    assert(list::texts(lines@) == diagnostic_lines(
        shown(all.take(0), verbose),
        paths@,
        *style,
        base,
    ));
    while i < report.diagnostics.len()
        invariant
            i <= report.diagnostics@.len(),
            all == order::views(report.diagnostics@),
            all.len() == report.diagnostics@.len(),
            total(all) <= usize::MAX,
            base == working_directory@,
            list::texts(lines@) == diagnostic_lines(
                shown(all.take(i as int), verbose),
                paths@,
                *style,
                base,
            ),
            shown_warnings <= WARNING_LIMIT,
            shown_warnings == WARNING_LIMIT ==> limited_among(all.take(i as int), verbose)
                >= WARNING_LIMIT,
            shown_warnings < WARNING_LIMIT ==> limited_among(all.take(i as int), verbose)
                == shown_warnings,
            hidden_warnings == hidden(all.take(i as int), verbose),
        decreases report.diagnostics@.len() - i,
    {
        assert(all.take(i as int + 1).drop_last() == all.take(i as int));
        assert(all[i as int] == report.diagnostics@[i as int]@);
        proof {
            lemma_hidden_within_total(all.take(i as int + 1), verbose);
            lemma_total_take(all, i as int + 1);
        }
        let diagnostic = &report.diagnostics[i];
        let ghost held = shown(all.take(i as int), verbose);
        i += 1;
        if diagnostic.from_build_system && !verbose {
            continue;
        }
        if diagnostic.severity == Severity::Warning && !verbose {
            if shown_warnings >= WARNING_LIMIT {
                hidden_warnings = hidden_warnings + diagnostic.count;
                continue;
            }
            shown_warnings += 1;
        }
        lines.push(render_diagnostic(diagnostic, paths, style, working_directory));
        assert(diagnostic_lines(held.push(diagnostic@), paths@, *style, base) == diagnostic_lines(
            held,
            paths@,
            *style,
            base,
        ).push(diagnostic_line(diagnostic@, paths@, *style, base)));
    }
    assert(all.take(i as int) == all);
    let ghost told = list::texts(lines@);
    if hidden_warnings > 0 {
        let count = number::decimal_string(hidden_warnings as u64);
        let words = text::cat2(
            count.as_str(),
            " more warnings, run with --verbose to see them",
        );
        let front = style.dim(label("...").as_str());
        lines.push(text::cat3(front.as_str(), " ", style.dim(words.as_str()).as_str()));
    }
    let ghost folded_lines = told + hidden_lines(hidden(all, verbose), *style);
    assert(list::texts(lines@) == folded_lines);
    let ghost notes = note_lines(report@.notes, *style);
    let mut k: usize = 0;
    assert(folded_lines + notes.take(0) == folded_lines);
    while k < report.notes.len()
        invariant
            k <= report.notes@.len(),
            notes == note_lines(list::texts(report.notes@), *style),
            list::texts(lines@) == folded_lines + notes.take(k as int),
        decreases report.notes@.len() - k,
    {
        let front = style.dim(label("note").as_str());
        let line = text::cat3(front.as_str(), " ", report.notes[k].as_str());
        assert(notes[k as int] == line@);
        lines.push(line);
        k += 1;
        assert(list::texts(lines@) == folded_lines + notes.take(k as int));
    }
    assert(notes.take(k as int) == notes);
    lines
}

/// Whatever the log, no more warnings are shown than the limit allows unless all
/// are asked for.
pub proof fn lemma_few_warnings_shown(diagnostics: Seq<DiagnosticView>)
    ensures
        limited_among(shown(diagnostics, false), false) <= WARNING_LIMIT,
        limited_among(shown(diagnostics, false), false) <= limited_among(diagnostics, false),
    decreases diagnostics.len(),
{
    if diagnostics.len() > 0 {
        lemma_few_warnings_shown(diagnostics.drop_last());
        let rest = shown(diagnostics.drop_last(), false);
        assert(rest.push(diagnostics.last()).drop_last() == rest);
    }
}

/// Every warning about the user's own source is either shown or counted among the
/// rest, and every error in it is shown.
pub proof fn lemma_nothing_lost(diagnostics: Seq<DiagnosticView>, verbose: bool)
    ensures
        tally(shown(diagnostics, verbose), Severity::Warning) + hidden(diagnostics, verbose)
            == tally(diagnostics, Severity::Warning),
        tally(shown(diagnostics, verbose), Severity::Error) == tally(diagnostics, Severity::Error),
    decreases diagnostics.len(),
{
    if diagnostics.len() > 0 {
        lemma_nothing_lost(diagnostics.drop_last(), verbose);
        let rest = shown(diagnostics.drop_last(), verbose);
        assert(rest.push(diagnostics.last()).drop_last() == rest);
    }
}

/// When everything is asked for, every diagnostic is shown and none is folded away.
pub proof fn lemma_verbose_shows_all(diagnostics: Seq<DiagnosticView>)
    ensures
        shown(diagnostics, true) == diagnostics,
        hidden(diagnostics, true) == 0,
    decreases diagnostics.len(),
{
    if diagnostics.len() > 0 {
        lemma_verbose_shows_all(diagnostics.drop_last());
        assert(diagnostics.drop_last().push(diagnostics.last()) == diagnostics);
    }
}

/// Digits with a comma before every three of them that others stand in front of.
pub open spec fn grouped(digits: Seq<char>) -> Seq<char>
    decreases digits.len(),
{
    if digits.len() <= 3 {
        digits
    } else {
        grouped(digits.take(digits.len() - 3)).push(',') + digits.skip(digits.len() - 3)
    }
}

/// Digits with a comma before every three of them that others stand in front of.
fn group(digits: &[char]) -> (r: Vec<char>)
    ensures
        r@ == grouped(digits@),
    decreases digits@.len(),
{
    let n: usize = digits.len();
    if n <= 3 {
        let mut out: Vec<char> = Vec::new();
        text::push_all(&mut out, digits);
        return out;
    }
    let front: &[char] = &digits[0..n - 3];
    let back: &[char] = &digits[n - 3..n];
    assert(front@ == digits@.take(n - 3));
    assert(back@ == digits@.skip(n - 3));
    let mut out = group(front);
    out.push(',');
    text::push_all(&mut out, back);
    out
}

/// Formats a byte count with thousands separators.
pub fn thousands(value: u64) -> (r: String)
    ensures
        r@ == grouped(number::decimal(value as nat)),
{
    let digits = number::to_decimal(value);
    text::string_of(&group(&digits))
}

/// Separators only help the eye: without them the digits are those of the number.
pub proof fn lemma_thousands_keep_digits(value: nat)
    ensures
        grouped(number::decimal(value)).filter(|c: char| c != ',') == number::decimal(value),
{
    number::lemma_decimal_digits(value);
    assert forall|i: int| 0 <= i < number::decimal(value).len() implies number::decimal(value)[i]
        != ',' by {
        assert(number::is_digit(number::decimal(value)[i]));
    }
    lemma_grouped_keeps_digits(number::decimal(value));
}

proof fn lemma_grouped_keeps_digits(digits: Seq<char>)
    requires
        !digits.contains(','),
    ensures
        grouped(digits).filter(|c: char| c != ',') == digits,
    decreases digits.len(),
{
    let digit = |c: char| c != ',';
    if digits.len() <= 3 {
        lemma_filter_all(digits);
    } else {
        let front = digits.take(digits.len() - 3);
        let back = digits.skip(digits.len() - 3);
        assert forall|i: int| 0 <= i < front.len() implies front[i] != ',' by {
            assert(digits.contains(digits[i]));
        }
        assert forall|i: int| 0 <= i < back.len() implies back[i] != ',' by {
            assert(digits.contains(digits[i + digits.len() - 3]));
        }
        lemma_grouped_keeps_digits(front);
        lemma_filter_all(back);
        let left = grouped(front).push(',');
        assert(left.filter(digit) == front) by {
            reveal(Seq::filter);
            assert(left.drop_last() == grouped(front));
        }
        Seq::filter_distributes_over_add(left, back, digit);
        assert(front + back == digits);
    }
}

proof fn lemma_filter_all(digits: Seq<char>)
    requires
        !digits.contains(','),
    ensures
        digits.filter(|c: char| c != ',') == digits,
    decreases digits.len(),
{
    reveal(Seq::filter);
    if digits.len() > 0 {
        let rest = digits.drop_last();
        assert forall|i: int| 0 <= i < rest.len() implies rest[i] != ',' by {
            assert(digits.contains(digits[i]));
        }
        assert(digits.contains(digits.last()));
        lemma_filter_all(rest);
        assert(rest.push(digits.last()) == digits);
    }
}

/// A number of tenths with one decimal place.
pub open spec fn with_decimal(tenths: nat) -> Seq<char> {
    number::decimal(tenths / 10) + "."@ + number::decimal(tenths % 10)
}

/// A file size the way a person reads it.
pub open spec fn size_text(bytes: nat) -> Seq<char> {
    if bytes >= 0x10_0000 {
        with_decimal(number::tenths(bytes as int, 0x10_0000) as nat) + " MB"@
    } else if bytes >= 0x400 {
        with_decimal(number::tenths(bytes as int, 0x400) as nat) + " KB"@
    } else {
        number::decimal(bytes) + " B"@
    }
}

/// Formats a file size the way a person reads it.
pub fn file_size(bytes: u64) -> (r: String)
    ensures
        r@ == size_text(bytes as nat),
{
    if bytes >= 0x10_0000 {
        let tenths = number::count_tenths(bytes, 0x10_0000);
        let whole = number::decimal_string((tenths / 10) as u64);
        let part = number::decimal_string((tenths % 10) as u64);
        text::cat4(whole.as_str(), ".", part.as_str(), " MB")
    } else if bytes >= 0x400 {
        let tenths = number::count_tenths(bytes, 0x400);
        let whole = number::decimal_string((tenths / 10) as u64);
        let part = number::decimal_string((tenths % 10) as u64);
        text::cat4(whole.as_str(), ".", part.as_str(), " KB")
    } else {
        let whole = number::decimal_string(bytes);
        text::cat2(whole.as_str(), " B")
    }
}

/// Messages from the build system are never shown unless everything is asked for.
pub proof fn lemma_noise_not_shown(diagnostics: Seq<DiagnosticView>)
    ensures
        forall|i: int|
            0 <= i < shown(diagnostics, false).len() ==> !(#[trigger] shown(
                diagnostics,
                false,
            )[i]).from_build_system,
    decreases diagnostics.len(),
{
    if diagnostics.len() > 0 {
        lemma_noise_not_shown(diagnostics.drop_last());
        let all = shown(diagnostics, false);
        let rest = shown(diagnostics.drop_last(), false);
        assert forall|i: int| 0 <= i < all.len() implies !(#[trigger] all[i]).from_build_system by {
            if i < rest.len() {
                assert(all[i] == rest[i]);
            }
        }
    }
}

/// What the lines of a log add to what has been read before.
pub open spec fn after_more(
    state: Progress,
    lines: Seq<Seq<char>>,
    output_directory: Option<Seq<char>>,
) -> Progress
    decreases lines.len(),
{
    if lines.len() == 0 {
        state
    } else {
        after_line(
            after_more(state, lines.drop_last(), output_directory),
            lines.last(),
            output_directory,
        )
    }
}

proof fn lemma_after_more(
    first: Seq<Seq<char>>,
    lines: Seq<Seq<char>>,
    output_directory: Option<Seq<char>>,
)
    ensures
        after_lines(first + lines, output_directory) == after_more(
            after_lines(first, output_directory),
            lines,
            output_directory,
        ),
    decreases lines.len(),
{
    if lines.len() == 0 {
        assert(first + lines == first);
    } else {
        lemma_after_more(first, lines.drop_last(), output_directory);
        assert((first + lines).drop_last() == first + lines.drop_last());
        assert((first + lines).last() == lines.last());
    }
}

/// What a line says of memory, projects and the verdict counts whatever was said
/// before; where no line says it, what was said before stays.
proof fn lemma_last_word(
    state: Progress,
    lines: Seq<Seq<char>>,
    output_directory: Option<Seq<char>>,
)
    ensures
        ({
            let alone = after_lines(lines, output_directory);
            let after = after_more(state, lines, output_directory);
            &&& after.program == alone.program || (after.program == state.program
                && alone.program is None)
            &&& after.data == alone.data || (after.data == state.data && alone.data is None)
            &&& after.summary == alone.summary || (after.summary == state.summary
                && alone.summary is None)
            &&& after.projects == alone.projects || (after.projects == state.projects
                && alone.projects is None)
            &&& after.verdict == alone.verdict || (after.verdict == state.verdict
                && !alone.verdict)
        }),
    decreases lines.len(),
{
    if lines.len() > 0 {
        lemma_last_word(state, lines.drop_last(), output_directory);
    }
}

/// Notes that are there already are not added again.
proof fn lemma_notes_stay(
    state: Progress,
    lines: Seq<Seq<char>>,
    output_directory: Option<Seq<char>>,
)
    requires
        forall|note: Seq<char>| #[trigger]
            after_lines(lines, output_directory).notes.contains(note) ==> state.notes.contains(
                note,
            ),
    ensures
        after_more(state, lines, output_directory).notes == state.notes,
    decreases lines.len(),
{
    if lines.len() > 0 {
        let front = after_lines(lines.drop_last(), output_directory);
        let bare = text::trimmed(lines.last());
        let whole = after_lines(lines, output_directory);
        assert forall|note: Seq<char>| #[trigger] front.notes.contains(note) implies
            state.notes.contains(note) by {
            let i = choose|i: int| 0 <= i < front.notes.len() && front.notes[i] == note;
            assert(whole.notes[i] == note);
            assert(whole.notes.contains(note));
        }
        lemma_notes_stay(state, lines.drop_last(), output_directory);
        if whole.notes != front.notes {
            assert(whole.notes == front.notes.push(bare));
            assert(whole.notes[front.notes.len() as int] == bare);
            assert(whole.notes.contains(bare));
        } else if front.notes.contains(bare) {
            assert(state.notes.contains(bare));
        } else {
            assert(front.notes.push(bare).len() != front.notes.len());
        }
    }
}

/// A diagnostic with another count.
pub open spec fn with_count(diagnostic: DiagnosticView, count: nat) -> DiagnosticView {
    DiagnosticView { count: count, ..diagnostic }
}

/// Whether the diagnostics that one list starts with are those of another, but for how
/// often each was seen.
pub open spec fn starts_like(whole: Seq<DiagnosticView>, front: Seq<DiagnosticView>) -> bool {
    &&& front.len() <= whole.len()
    &&& forall|i: int|
        0 <= i < front.len() ==> with_count(#[trigger] whole[i], 0) == with_count(front[i], 0)
}

/// Adding a diagnostic keeps those that are there, in their order.
pub proof fn lemma_merged_starts_like(diagnostics: Seq<DiagnosticView>, diagnostic: DiagnosticView)
    ensures
        starts_like(merged(diagnostics, diagnostic), diagnostics),
{
    lemma_repeated_from(diagnostics, diagnostic, 0);
}

/// The diagnostics of the first lines of a log are the first of the log.
pub proof fn lemma_first_lines(lines: Seq<Seq<char>>, n: int, output_directory: Option<Seq<char>>)
    requires
        0 <= n <= lines.len(),
    ensures
        starts_like(
            after_lines(lines, output_directory).diagnostics,
            after_lines(lines.take(n), output_directory).diagnostics,
        ),
    decreases lines.len(),
{
    if n == lines.len() {
        assert(lines.take(n) == lines);
    } else {
        let front = lines.drop_last();
        lemma_first_lines(front, n, output_directory);
        assert(front.take(n) == lines.take(n));
        let few = after_lines(lines.take(n), output_directory).diagnostics;
        let most = after_lines(front, output_directory).diagnostics;
        let all = after_lines(lines, output_directory).diagnostics;
        if let Some(diagnostic) = diagnostic_of(lines.last(), output_directory) {
            lemma_merged_starts_like(most, diagnostic);
        }
        assert(starts_like(all, most));
        assert forall|i: int| 0 <= i < few.len() implies with_count(#[trigger] all[i], 0)
            == with_count(few[i], 0) by {
            assert(with_count(all[i], 0) == with_count(most[i], 0));
            assert(with_count(most[i], 0) == with_count(few[i], 0));
        }
    }
}

/// Diagnostics with the counts of the first of them added once more.
pub open spec fn counted_again(whole: Seq<DiagnosticView>, again: Seq<DiagnosticView>) -> Seq<
    DiagnosticView,
> {
    Seq::new(
        whole.len(),
        |i: int|
            with_count(
                whole[i],
                whole[i].count + if i < again.len() {
                    again[i].count
                } else {
                    0
                },
            ),
    )
}

/// A diagnostic that is added to those that it was added to before, and to those that
/// it was added to in the meantime, is counted in the same place.
proof fn lemma_merged_again(
    whole: Seq<DiagnosticView>,
    few: Seq<DiagnosticView>,
    diagnostic: DiagnosticView,
)
    requires
        diagnostic.count == 1,
        starts_like(whole, few),
        starts_like(whole, merged(few, diagnostic)),
    ensures
        merged(counted_again(whole, few), diagnostic) == counted_again(
            whole,
            merged(few, diagnostic),
        ),
{
    let held = counted_again(whole, few);
    lemma_repeated_from(few, diagnostic, 0);
    lemma_repeated_from(held, diagnostic, 0);
    let place = match repeated_from(few, diagnostic, 0) {
        Some(i) => i,
        None => few.len() as int,
    };
    let next = merged(few, diagnostic);
    assert(next.len() > place);
    assert(repeats(next[place], diagnostic));
    assert(with_count(whole[place], 0) == with_count(next[place], 0));
    assert(repeats(held[place], diagnostic));
    assert forall|k: int| 0 <= k < place implies !repeats(#[trigger] held[k], diagnostic) by {
        assert(with_count(whole[k], 0) == with_count(few[k], 0));
        assert(!repeats(few[k], diagnostic));
    }
    assert(repeated_from(held, diagnostic, 0) == Some(place));
    let left = merged(held, diagnostic);
    let right = counted_again(whole, next);
    assert forall|k: int| 0 <= k < left.len() implies left[k] == right[k] by {}
    assert(left == right);
}

/// Reading the first lines of a log once more counts their diagnostics once more.
proof fn lemma_read_again(lines: Seq<Seq<char>>, n: int, output_directory: Option<Seq<char>>)
    requires
        0 <= n <= lines.len(),
    ensures
        after_more(
            after_lines(lines, output_directory),
            lines.take(n),
            output_directory,
        ).diagnostics == counted_again(
            after_lines(lines, output_directory).diagnostics,
            after_lines(lines.take(n), output_directory).diagnostics,
        ),
    decreases n,
{
    let state = after_lines(lines, output_directory);
    let whole = state.diagnostics;
    if n == 0 {
        assert(lines.take(0).len() == 0);
        assert(counted_again(whole, Seq::empty()) == whole);
    } else {
        lemma_read_again(lines, n - 1, output_directory);
        assert(lines.take(n).drop_last() == lines.take(n - 1));
        let few = after_lines(lines.take(n - 1), output_directory).diagnostics;
        lemma_first_lines(lines, n - 1, output_directory);
        lemma_first_lines(lines, n, output_directory);
        if is_message(lines[n - 1], output_directory) {
            let diagnostic = diagnostic_of(lines[n - 1], output_directory)->0;
            lemma_merged_again(whole, few, diagnostic);
        }
    }
}

/// A report in which every message was seen twice as often.
pub open spec fn doubled(report: ReportView) -> ReportView {
    ReportView {
        diagnostics: report.diagnostics.map_values(
            |diagnostic: DiagnosticView| with_count(diagnostic, 2 * diagnostic.count),
        ),
        ..report
    }
}

/// Repeated messages are folded together: a log that ends with a line and is read twice
/// over gives the same report as once, but for every count being doubled. No two of its
/// diagnostics say the same, and no note stands there twice.
pub proof fn lemma_log_twice_over(log: Seq<char>, output_directory: Option<Seq<char>>)
    requires
        log.len() > 0 ==> log.last() == '\n',
    ensures
        report_of(log + log, output_directory) == doubled(report_of(log, output_directory)),
        folded(report_of(log, output_directory).diagnostics),
        report_of(log, output_directory).notes.no_duplicates(),
{
    let lines = text::lines_of(log);
    text::lemma_lines_after_lines(log, log);
    lemma_after_more(lines, lines, output_directory);
    let once = after_lines(lines, output_directory);
    let twice = after_lines(lines + lines, output_directory);
    lemma_last_word(once, lines, output_directory);
    lemma_notes_stay(once, lines, output_directory);
    lemma_read_again(lines, lines.len() as int, output_directory);
    assert(lines.take(lines.len() as int) == lines);
    let report = report_of(log, output_directory);
    assert(twice.diagnostics == doubled(report).diagnostics);
    assert(any_error(twice.diagnostics) == any_error(once.diagnostics)) by {
        if any_error(once.diagnostics) {
            let i = choose|i: int|
                0 <= i < once.diagnostics.len() && (#[trigger] once.diagnostics[i]).severity
                    == Severity::Error;
            assert(twice.diagnostics[i].severity == Severity::Error);
        }
        if any_error(twice.diagnostics) {
            let i = choose|i: int|
                0 <= i < twice.diagnostics.len() && (#[trigger] twice.diagnostics[i]).severity
                    == Severity::Error;
            assert(once.diagnostics[i].severity == Severity::Error);
        }
    }
    lemma_messages_folded(lines, output_directory);
}

} // verus!
