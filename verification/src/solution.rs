//! Reading Atmel Studio solution and project files.
//!
//! An `.atsln` lists the projects and the configuration names. A `.cproj` is an
//! MSBuild file that says where the build output lands and what it is called.
//! Between them they describe everything the program needs, so a project
//! directory usually needs no configuration file at all.

use vstd::prelude::*;

use crate::error;
use crate::error::{AppError, Failure};
use crate::host::Host;
use crate::list;
use crate::order;
use crate::path;
use crate::text;

verus! {

broadcast use {crate::list::lemma_texts_push, crate::list::lemma_pieces_push};

/// The text that bytes decode to when what is not UTF-8 in them is replaced.
pub uninterp spec fn lossy_text(bytes: Seq<u8>) -> Seq<char>;

/// `String::from_utf8_lossy` decodes bytes as UTF-8 and puts in a replacement
/// character for what is not. The result depends on the bytes alone, and is what
/// they encode where they are valid.
#[verifier::external_body]
pub(crate) fn decode_lossy(bytes: &Vec<u8>) -> (r: String)
    ensures
        r@ == lossy_text(bytes@),
        vstd::utf8::valid_utf8(bytes@) ==> r@ == vstd::utf8::decode_utf8(bytes@),
{
    String::from_utf8_lossy(bytes).into_owned()
}

/// The text of a file without the byte order marks in front.
pub open spec fn without_marks(s: Seq<char>) -> Seq<char> {
    text::without_leading(s, '\u{feff}')
}

/// Takes the byte order marks off the front of a file's text. Atmel writes its
/// files with one.
pub fn strip_marks(contents: &str) -> (r: String)
    ensures
        r@ == without_marks(contents@),
{
    let s = text::chars_of(contents);
    text::string_of(text::trim_start_char(&s, '\u{feff}'))
}

/// The text of a file, from its bytes or from why it could not be read.
pub open spec fn file_text(path: Seq<char>, contents: Result<Vec<u8>, String>) -> Result<
    Seq<char>,
    Failure,
> {
    match contents {
        Ok(bytes) => Ok(without_marks(lossy_text(bytes@))),
        Err(reason) => Err(Failure::Runtime("cannot read "@ + path + ": "@ + reason@)),
    }
}

/// The text of a file, from its bytes or from why it could not be read.
pub fn read(path: &str, contents: Result<Vec<u8>, String>) -> (r: Result<String, AppError>)
    ensures
        error::viewed(r) == file_text(path@, contents),
{
    match contents {
        Ok(bytes) => {
            let decoded = decode_lossy(&bytes);
            Ok(strip_marks(decoded.as_str()))
        },
        Err(reason) => Err(
            AppError::Runtime(text::cat4("cannot read ", path, ": ", reason.as_str())),
        ),
    }
}

/// One project entry in a solution file.
#[derive(Clone, Debug, PartialEq, Eq)]
pub struct SolutionEntry {
    pub name: String,
    /// The path as written in the solution file, relative to it.
    pub relative_path: String,
}

/// What a project entry stands for.
pub struct EntryView {
    pub name: Seq<char>,
    pub relative_path: Seq<char>,
}

impl View for SolutionEntry {
    type V = EntryView;

    open spec fn view(&self) -> EntryView {
        EntryView { name: self.name@, relative_path: self.relative_path@ }
    }
}

/// An `.atsln` solution file.
#[derive(Clone, Debug)]
pub struct Solution {
    pub path: String,
    pub entries: Vec<SolutionEntry>,
    pub configurations: Vec<String>,
}

/// What a solution stands for.
pub struct SolutionView {
    pub path: Seq<char>,
    pub entries: Seq<EntryView>,
    pub configurations: Seq<Seq<char>>,
}

impl View for Solution {
    type V = SolutionView;

    open spec fn view(&self) -> SolutionView {
        SolutionView {
            path: self.path@,
            entries: order::views(self.entries@),
            configurations: list::texts(self.configurations@),
        }
    }
}

/// A field of a project line without the white space and the quotes around it.
pub open spec fn unquoted(field: Seq<char>) -> Seq<char> {
    text::without_around(text::trimmed(field), '"')
}

/// The entry in a line such as
/// `Project("{TYPE-GUID}") = "name", "relative\path.cproj", "{PROJECT-GUID}"`.
/// Only a named entry for a `.cproj` file is one.
pub open spec fn project_entry(line: Seq<char>) -> Option<EntryView> {
    match text::cut_at_char(line, '=') {
        Some((_, rest)) => {
            let fields = text::split_at(rest, ',');
            if fields.len() < 2 {
                None
            } else {
                let entry = EntryView {
                    name: unquoted(fields[0]),
                    relative_path: unquoted(fields[1]),
                };
                if entry.name.len() == 0 || !".cproj"@.is_suffix_of(
                    text::lowered(entry.relative_path),
                ) {
                    None
                } else {
                    Some(entry)
                }
            }
        },
        None => None,
    }
}

/// The entry in a project line, if it holds one.
pub fn parse_project_line(line: &str) -> (r: Option<SolutionEntry>)
    ensures
        match r {
            Some(entry) => project_entry(line@) == Some(entry@),
            None => project_entry(line@) is None,
        },
{
    let s = text::chars_of(line);
    let rest = match text::split_once_char(&s, '=') {
        Some((_, rest)) => rest,
        None => {
            return None;
        },
    };
    let fields = text::split_char(rest, ',');
    assert(text::split_at(rest@, ',').len() == fields@.len());
    if fields.len() < 2 {
        return None;
    }
    assert(text::split_at(rest@, ',')[0] == fields@[0]@);
    assert(text::split_at(rest@, ',')[1] == fields@[1]@);
    let name = text::trim_char(text::trim(fields[0]), '"');
    let relative_path = text::trim_char(text::trim(fields[1]), '"');
    if name.len() == 0 || !text::ends_with(&text::lower(relative_path), ".cproj") {
        return None;
    }
    Some(
        SolutionEntry {
            name: text::string_of(name),
            relative_path: text::string_of(relative_path),
        },
    )
}

/// The configuration name in a line such as `Debug|ARM = Debug|ARM`.
pub open spec fn platform_name(line: Seq<char>) -> Option<Seq<char>> {
    match text::cut_at_char(line, '=') {
        Some((left, _)) => {
            let name = text::trimmed(text::before_char(text::trimmed(left), '|'));
            if name.len() == 0 {
                None
            } else {
                Some(name)
            }
        },
        None => None,
    }
}

/// The configuration name in a line of the section that lists them.
fn parse_platform(line: &[char]) -> (r: Option<String>)
    ensures
        list::optional(r) == platform_name(line@),
{
    match text::split_once_char(line, '=') {
        Some((left, _)) => {
            let name = text::trim(text::first_part(text::trim(left), '|'));
            if name.len() == 0 {
                None
            } else {
                Some(text::string_of(name))
            }
        },
        None => None,
    }
}

/// How far a solution file has been read.
pub struct Reading {
    /// Whether the line at hand lies in the section of configuration names.
    pub inside: bool,
    pub entries: Seq<EntryView>,
    pub configurations: Seq<Seq<char>>,
}

/// What one more line of a solution file adds.
pub open spec fn read_line(state: Reading, raw: Seq<char>) -> Reading {
    let line = text::trimmed(raw);
    match text::after_prefix(line, "GlobalSection("@) {
        Some(rest) => Reading {
            inside: "SolutionConfigurationPlatforms"@.is_prefix_of(rest),
            ..state
        },
        None => if line == "EndGlobalSection"@ {
            Reading { inside: false, ..state }
        } else if state.inside {
            match platform_name(line) {
                Some(name) => Reading {
                    configurations: list::with_item(state.configurations, name),
                    ..state
                },
                None => state,
            }
        } else if "Project("@.is_prefix_of(line) {
            match project_entry(line) {
                Some(entry) => Reading { entries: state.entries.push(entry), ..state },
                None => state,
            }
        } else {
            state
        },
    }
}

/// What the lines of a solution file hold.
pub open spec fn read_lines(lines: Seq<Seq<char>>) -> Reading
    decreases lines.len(),
{
    if lines.len() == 0 {
        Reading { inside: false, entries: Seq::empty(), configurations: Seq::empty() }
    } else {
        read_line(read_lines(lines.drop_last()), lines.last())
    }
}

/// The solution that a text describes, before it is known where it lies.
pub open spec fn solution_of(contents: Seq<char>) -> SolutionView {
    let state = read_lines(text::lines_of(contents));
    SolutionView {
        path: Seq::empty(),
        entries: state.entries,
        configurations: state.configurations,
    }
}

/// The first entry at or after `from` with a name, whatever its case.
pub open spec fn entry_from(entries: Seq<EntryView>, name: Seq<char>, from: int) -> Option<int>
    decreases entries.len() - from,
{
    if from < 0 || from >= entries.len() {
        None
    } else if text::alike(entries[from].name, name) {
        Some(from)
    } else {
        entry_from(entries, name, from + 1)
    }
}

/// The names of the projects of a solution.
pub open spec fn entry_names(entries: Seq<EntryView>) -> Seq<Seq<char>> {
    entries.map_values(|entry: EntryView| entry.name)
}

/// The entry that the user means: the one they name, or the only one.
pub open spec fn chosen_entry(solution: SolutionView, wanted: Option<Seq<char>>) -> Result<
    EntryView,
    Failure,
> {
    let names = text::joined(entry_names(solution.entries), ", "@);
    match wanted {
        Some(name) => match entry_from(solution.entries, name, 0) {
            Some(i) => Ok(solution.entries[i]),
            None => Err(
                Failure::Usage(
                    solution.path + " has no project named "@ + name + ".\nIt holds: "@ + names,
                ),
            ),
        },
        None => if solution.entries.len() == 1 {
            Ok(solution.entries[0])
        } else if solution.entries.len() == 0 {
            Err(Failure::Runtime(solution.path + " lists no projects"@))
        } else {
            Err(
                Failure::Usage(
                    solution.path
                        + " holds several projects, so name the one to build with --project.\nIt holds: "@
                        + names,
                ),
            )
        },
    }
}

/// The project file that an entry of a solution points at.
pub open spec fn entry_path(host: Host, solution: Seq<char>, entry: EntryView) -> Seq<char> {
    path::joined(
        host,
        path::directory(host, solution),
        text::swapped(entry.relative_path, '\\', path::separator(host)),
    )
}

/// The solution at a path, from the bytes of the file or from why it could not be
/// read.
pub open spec fn solution_read(path: Seq<char>, contents: Result<Vec<u8>, String>) -> Result<
    SolutionView,
    Failure,
> {
    match file_text(path, contents) {
        Ok(held) => Ok(SolutionView { path: path, ..solution_of(held) }),
        Err(failure) => Err(failure),
    }
}

impl Solution {
    /// The solution at a path, from the bytes of the file or from why it could
    /// not be read.
    pub fn load(path: &str, contents: Result<Vec<u8>, String>) -> (r: Result<Self, AppError>)
        ensures
            error::viewed(r) == solution_read(path@, contents),
    {
        match read(path, contents) {
            Ok(held) => {
                let mut solution = Self::parse(held.as_str());
                solution.path = path.to_owned();
                Ok(solution)
            },
            Err(error) => Err(error),
        }
    }

    /// The solution that a text describes.
    pub fn parse(contents: &str) -> (r: Self)
        ensures
            r@ == solution_of(contents@),
    {
        let chars = text::chars_of(contents);
        let lines = text::lines(&chars);
        let ghost all = text::lines_of(contents@);
        let mut entries: Vec<SolutionEntry> = Vec::new();
        let mut configurations: Vec<String> = Vec::new();
        let mut inside = false;
        let mut i: usize = 0;
        assert(list::pieces(lines@).len() == lines@.len());
        assert(order::views(entries@) == Seq::<EntryView>::empty());
        assert(list::texts(configurations@) == Seq::<Seq<char>>::empty());
        while i < lines.len()
            invariant
                i <= lines@.len(),
                all == list::pieces(lines@),
                all.len() == lines@.len(),
                read_lines(all.take(i as int)) == (Reading {
                    inside: inside,
                    entries: order::views(entries@),
                    configurations: list::texts(configurations@),
                }),
            decreases lines@.len() - i,
        {
            assert(all.take(i as int + 1).drop_last() == all.take(i as int));
            assert(all[i as int] == lines@[i as int]@);
            let line = text::trim(lines[i]);
            i += 1;
            match text::strip_prefix(line, "GlobalSection(") {
                Some(rest) => {
                    inside = text::starts_with(rest, "SolutionConfigurationPlatforms");
                    continue;
                },
                None => {},
            }
            if text::is_text(line, "EndGlobalSection") {
                inside = false;
                continue;
            }
            if inside {
                match parse_platform(line) {
                    Some(name) => {
                        if !text::listed(&configurations, name.as_str()) {
                            configurations.push(name);
                        }
                    },
                    None => {},
                }
                continue;
            }
            if text::starts_with(line, "Project(") {
                match parse_project_line(text::string_of(line).as_str()) {
                    Some(entry) => {
                        let ghost before = entries@;
                        entries.push(entry);
                        assert(order::views(entries@) == order::views(before).push(entry@));
                    },
                    None => {},
                }
            }
        }
        assert(all.take(i as int) == all);
        Solution { path: String::new(), entries: entries, configurations: configurations }
    }

    /// The directory of the solution.
    pub fn directory(&self, host: Host) -> (r: String)
        ensures
            r@ == path::directory(host, self.path@),
    {
        path::directory_of(host, self.path.as_str())
    }

    /// Resolves a solution entry to the project file it points at.
    pub fn project_path(&self, host: Host, entry: &SolutionEntry) -> (r: String)
        ensures
            r@ == entry_path(host, self.path@, entry@),
    {
        let relative = text::chars_of(entry.relative_path.as_str());
        let native = text::string_of(
            &text::replace_char(&relative, '\\', path::separator_of(host)),
        );
        path::join(host, self.directory(host).as_str(), native.as_str())
    }

    /// Picks the entry the user meant, or explains the choice they have to make.
    pub fn entry(&self, wanted: Option<&str>) -> (r: Result<&SolutionEntry, AppError>)
        ensures
            error::viewed(r) == chosen_entry(self@, list::optional_str(wanted)),
    {
        assert(self@.entries.len() == self.entries@.len());
        match wanted {
            Some(name) => {
                let mut i: usize = 0;
                while i < self.entries.len()
                    invariant
                        i <= self.entries@.len(),
                        self@.entries.len() == self.entries@.len(),
                        wanted == Some(name),
                        entry_from(self@.entries, name@, 0) == entry_from(
                            self@.entries,
                            name@,
                            i as int,
                        ),
                    decreases self.entries@.len() - i,
                {
                    assert(self@.entries[i as int] == self.entries@[i as int]@);
                    if text::eq_ignore_case(self.entries[i].name.as_str(), name) {
                        return Ok(&self.entries[i]);
                    }
                    i += 1;
                }
                let names = text::join(&self.names(), ", ");
                Err(
                    AppError::Usage(
                        text::cat5(
                            self.path.as_str(),
                            " has no project named ",
                            name,
                            ".\nIt holds: ",
                            names.as_str(),
                        ),
                    ),
                )
            },
            None => {
                if self.entries.len() == 1 {
                    assert(self@.entries[0] == self.entries@[0]@);
                    return Ok(&self.entries[0]);
                }
                if self.entries.len() == 0 {
                    return Err(
                        AppError::Runtime(text::cat2(self.path.as_str(), " lists no projects")),
                    );
                }
                let names = text::join(&self.names(), ", ");
                Err(
                    AppError::Usage(
                        text::cat3(
                            self.path.as_str(),
                            " holds several projects, so name the one to build with --project.\nIt holds: ",
                            names.as_str(),
                        ),
                    ),
                )
            },
        }
    }

    /// The names of the projects.
    pub fn names(&self) -> (r: Vec<String>)
        ensures
            list::texts(r@) == entry_names(self@.entries),
    {
        let mut out: Vec<String> = Vec::new();
        let mut i: usize = 0;
        while i < self.entries.len()
            invariant
                i <= self.entries@.len(),
                list::texts(out@) == entry_names(self@.entries).take(i as int),
            decreases self.entries@.len() - i,
        {
            assert(self@.entries[i as int] == self.entries@[i as int]@);
            out.push(self.entries[i].name.as_str().to_owned());
            i += 1;
        }
        assert(entry_names(self@.entries).take(i as int) == entry_names(self@.entries));
        out
    }
}

/// What an attribute of an opening tag is set to.
pub open spec fn attribute_value(tag: Seq<char>, name: Seq<char>) -> Option<Seq<char>> {
    match text::cut_at_text(tag, name + "=\""@) {
        Some((_, rest)) => match text::cut_at_char(rest, '"') {
            Some((value, _)) => Some(value),
            None => None,
        },
        None => None,
    }
}

/// Reads an attribute out of an opening tag.
pub fn attribute(tag: &str, name: &str) -> (r: Option<String>)
    ensures
        list::optional(r) == attribute_value(tag@, name@),
{
    let s = text::chars_of(tag);
    let needle = text::cat2(name, "=\"");
    match text::split_once(&s, needle.as_str()) {
        Some((_, rest)) => match text::split_once_char(rest, '"') {
            Some((value, _)) => Some(text::string_of(value)),
            None => None,
        },
        None => None,
    }
}

/// The configuration name in a condition such as
/// `'$(Configuration)' == 'Debug'`.
pub open spec fn condition_name(condition: Seq<char>) -> Option<Seq<char>> {
    match text::cut_at_text(condition, "=="@) {
        Some((left, right)) => {
            let name = text::trimmed(text::without_around(text::trimmed(right), '\''));
            if text::has_text(left, "$(Configuration)"@) && name.len() > 0 {
                Some(name)
            } else {
                None
            }
        },
        None => None,
    }
}

/// Reads the configuration name out of a condition.
pub fn configuration_of(condition: &str) -> (r: Option<String>)
    ensures
        list::optional(r) == condition_name(condition@),
{
    let s = text::chars_of(condition);
    match text::split_once(&s, "==") {
        Some((left, right)) => {
            if !text::contains(left, "$(Configuration)") {
                return None;
            }
            let name = text::trim(text::trim_char(text::trim(right), '\''));
            if name.len() == 0 {
                None
            } else {
                Some(text::string_of(name))
            }
        },
        None => None,
    }
}

/// The text of the first element with a tag, unless it is blank.
pub open spec fn element_text(xml: Seq<char>, tag: Seq<char>) -> Option<Seq<char>> {
    match text::cut_at_text(xml, "<"@ + tag + ">"@) {
        Some((_, rest)) => match text::cut_at_text(rest, "</"@ + tag + ">"@) {
            Some((inner, _)) => if text::trimmed(inner).len() == 0 {
                None
            } else {
                Some(text::trimmed(inner))
            },
            None => None,
        },
        None => None,
    }
}

/// Reads the text of the first `<tag>value</tag>` element.
pub fn tag_value(xml: &str, tag: &str) -> (r: Option<String>)
    ensures
        list::optional(r) == element_text(xml@, tag@),
{
    let s = text::chars_of(xml);
    let open = text::cat3("<", tag, ">");
    let close = text::cat3("</", tag, ">");
    match text::split_once(&s, open.as_str()) {
        Some((_, rest)) => match text::split_once(rest, close.as_str()) {
            Some((inner, _)) => {
                let value = text::trim(inner);
                if value.len() == 0 {
                    None
                } else {
                    Some(text::string_of(value))
                }
            },
            None => None,
        },
        None => None,
    }
}

/// A `<PropertyGroup>` block of a project file.
#[derive(Clone, Debug, PartialEq, Eq)]
pub struct PropertyGroup {
    pub condition: Option<String>,
    pub body: String,
}

/// What a property group stands for.
pub struct GroupView {
    pub condition: Option<Seq<char>>,
    pub body: Seq<char>,
}

impl View for PropertyGroup {
    type V = GroupView;

    open spec fn view(&self) -> GroupView {
        GroupView { condition: list::optional(self.condition), body: self.body@ }
    }
}

/// The property groups of a project file. A block runs from its opening tag to
/// the next closing one; a block with nothing in it does not count.
pub open spec fn groups_of(xml: Seq<char>) -> Seq<GroupView>
    decreases xml.len(),
{
    proof {
        reveal_strlit("</PropertyGroup>");
        text::lemma_find_from(xml, "<PropertyGroup"@, 0);
    }
    match text::find_text(xml, "<PropertyGroup"@) {
        Some(start) => {
            let after = xml.skip(start);
            proof {
                text::lemma_find_from(after, "</PropertyGroup>"@, 0);
            }
            match (after.index_of_first('>'), text::find_text(after, "</PropertyGroup>"@)) {
                (Some(open_end), Some(close)) => {
                    let rest = groups_of(after.skip(close + "</PropertyGroup>"@.len()));
                    if close > open_end + 1 {
                        seq![
                            GroupView {
                                condition: attribute_value(after.take(open_end), "Condition"@),
                                body: after.subrange(open_end + 1, close),
                            },
                        ] + rest
                    } else {
                        rest
                    }
                },
                _ => Seq::empty(),
            }
        },
        None => Seq::empty(),
    }
}

/// Splits a project file into its `<PropertyGroup>` blocks.
///
/// Atmel projects never nest property groups, so matching the next closing tag
/// is enough and avoids pulling in an XML parser for six values.
pub fn property_groups(xml: &str) -> (r: Vec<PropertyGroup>)
    ensures
        order::views(r@) == groups_of(xml@),
{
    let chars = text::chars_of(xml);
    let closing = text::chars_of("</PropertyGroup>");
    let mut groups: Vec<PropertyGroup> = Vec::new();
    let mut rest: &[char] = &chars;
    proof {
        reveal_strlit("</PropertyGroup>");
    }
    assert(order::views(groups@) + groups_of(xml@) == groups_of(xml@));
    loop
        invariant
            closing@ == "</PropertyGroup>"@,
            closing@.len() > 0,
            order::views(groups@) + groups_of(rest@) == groups_of(xml@),
        decreases rest@.len(),
    {
        let n: usize = rest.len();
        let start = match text::find(rest, "<PropertyGroup") {
            Some(start) => start,
            None => {
                assert(order::views(groups@) + groups_of(rest@) == order::views(groups@));
                return groups;
            },
        };
        let ghost held = rest@;
        let after: &[char] = &rest[start..n];
        let m: usize = after.len();
        let open_end = match text::find_char(after, '>') {
            Some(open_end) => open_end,
            None => {
                assert(order::views(groups@) + groups_of(rest@) == order::views(groups@));
                return groups;
            },
        };
        let close = match text::find_chars(after, &closing) {
            Some(close) => close,
            None => {
                assert(order::views(groups@) + groups_of(rest@) == order::views(groups@));
                return groups;
            },
        };
        let ghost before = groups@;
        let next: &[char] = &after[close + closing.len()..m];
        if close > open_end + 1 {
            let tag = text::string_of(&after[0..open_end]);
            let group = PropertyGroup {
                condition: attribute(tag.as_str(), "Condition"),
                body: text::string_of(&after[open_end + 1..close]),
            };
            groups.push(group);
            assert(order::views(groups@) == order::views(before).push(group@));
            assert(order::views(groups@) + groups_of(next@) == order::views(before) + (seq![group@]
                + groups_of(next@)));
        }
        rest = next;
    }
}

/// The bodies of the groups that hold for every configuration.
pub open spec fn global_bodies(groups: Seq<GroupView>) -> Seq<Seq<char>>
    decreases groups.len(),
{
    if groups.len() == 0 {
        Seq::empty()
    } else if groups.last().condition is None {
        global_bodies(groups.drop_last()).push(groups.last().body)
    } else {
        global_bodies(groups.drop_last())
    }
}

/// The configurations that groups hold for, each once.
pub open spec fn group_configurations(groups: Seq<GroupView>) -> Seq<Seq<char>>
    decreases groups.len(),
{
    if groups.len() == 0 {
        Seq::empty()
    } else {
        let held = group_configurations(groups.drop_last());
        match groups.last().condition {
            Some(condition) => match condition_name(condition) {
                Some(name) => list::with_item(held, name),
                None => held,
            },
            None => held,
        }
    }
}

/// A `.cproj` project file, reduced to the handful of properties that are used.
#[derive(Clone, Debug)]
pub struct Project {
    pub path: String,
    pub name: String,
    pub device: Option<String>,
    /// Configuration names that carry their own settings in the project file.
    pub configurations: Vec<String>,
    pub output_directory: String,
    pub output_file_name: String,
    pub output_extension: String,
}

/// What a project stands for.
pub struct ProjectView {
    pub path: Seq<char>,
    pub name: Seq<char>,
    pub device: Option<Seq<char>>,
    pub configurations: Seq<Seq<char>>,
    pub output_directory: Seq<char>,
    pub output_file_name: Seq<char>,
    pub output_extension: Seq<char>,
}

impl View for Project {
    type V = ProjectView;

    open spec fn view(&self) -> ProjectView {
        ProjectView {
            path: self.path@,
            name: self.name@,
            device: list::optional(self.device),
            configurations: list::texts(self.configurations@),
            output_directory: self.output_directory@,
            output_file_name: self.output_file_name@,
            output_extension: self.output_extension@,
        }
    }
}

/// A text, or another where there is none.
pub open spec fn or_else(value: Option<Seq<char>>, otherwise: Seq<char>) -> Seq<char> {
    match value {
        Some(held) => held,
        None => otherwise,
    }
}

/// The project that a project file describes. A property that the file does not
/// set has the value that Atmel's templates give it.
pub open spec fn project_of(xml: Seq<char>, path: Seq<char>, name: Seq<char>) -> ProjectView {
    let groups = groups_of(xml);
    let global = text::joined(global_bodies(groups), "\n"@);
    ProjectView {
        path: path,
        name: name,
        device: element_text(global, "avrdevice"@),
        configurations: group_configurations(groups),
        output_directory: or_else(
            element_text(global, "OutputDirectory"@),
            "$(MSBuildProjectDirectory)\\$(Configuration)"@,
        ),
        output_file_name: or_else(
            element_text(global, "OutputFileName"@),
            "$(MSBuildProjectName)"@,
        ),
        output_extension: text::without_leading(
            or_else(element_text(global, "OutputFileExtension"@), ".elf"@),
            '.',
        ),
    }
}

/// A text with its separators written the way the host writes them.
pub open spec fn with_separators(host: Host, s: Seq<char>) -> Seq<char> {
    match host {
        Host::Windows => text::swapped(s, '/', '\\'),
        Host::Wsl => text::swapped(s, '\\', '/'),
    }
}

/// Rewrites separators the way the host expects them.
pub fn normalize_separators(host: Host, path: &str) -> (r: String)
    ensures
        r@ == with_separators(host, path@),
{
    let s = text::chars_of(path);
    match host {
        Host::Windows => text::string_of(&text::replace_char(&s, '/', '\\')),
        Host::Wsl => text::string_of(&text::replace_char(&s, '\\', '/')),
    }
}

/// A template with its MSBuild properties put in.
pub open spec fn expanded(
    host: Host,
    project: ProjectView,
    template: Seq<char>,
    configuration: Seq<char>,
) -> Seq<char> {
    let a = text::replaced(
        template,
        "$(MSBuildProjectDirectory)"@,
        path::directory(host, project.path),
    );
    let b = text::replaced(a, "$(MSBuildProjectName)"@, project.name);
    let c = text::replaced(b, "$(AssemblyName)"@, project.name);
    with_separators(host, text::replaced(c, "$(Configuration)"@, configuration))
}

/// Where a configuration of a project writes its build output. A directory that
/// is not given from the project's own is taken from there.
pub open spec fn output_path(host: Host, project: ProjectView, configuration: Seq<char>) -> Seq<
    char,
> {
    let found = expanded(host, project, project.output_directory, configuration);
    if text::has_text(project.output_directory, "$(MSBuildProjectDirectory)"@) {
        found
    } else {
        path::joined(host, path::directory(host, project.path), found)
    }
}

/// The path of one artifact of a configuration.
pub open spec fn artifact_path(
    host: Host,
    project: ProjectView,
    configuration: Seq<char>,
    extension: Seq<char>,
) -> Seq<char> {
    path::joined(
        host,
        output_path(host, project, configuration),
        expanded(host, project, project.output_file_name, configuration) + "."@
            + text::without_leading(extension, '.'),
    )
}

/// The place of an extension in the order a person is most likely to want them.
pub open spec fn extension_rank(extension: Seq<char>) -> Option<int> {
    if extension == "elf"@ {
        Some(0)
    } else if extension == "bin"@ {
        Some(1)
    } else if extension == "hex"@ {
        Some(2)
    } else if extension == "srec"@ {
        Some(3)
    } else if extension == "eep"@ {
        Some(4)
    } else if extension == "lss"@ {
        Some(5)
    } else if extension == "map"@ {
        Some(6)
    } else {
        None
    }
}

/// The place of an extension in the order a person is most likely to want them.
pub fn rank_extension(extension: &str) -> (r: Option<u8>)
    ensures
        match r {
            Some(rank) => extension_rank(extension@) == Some(rank as int),
            None => extension_rank(extension@) is None,
        },
{
    if text::same_str(extension, "elf") {
        Some(0)
    } else if text::same_str(extension, "bin") {
        Some(1)
    } else if text::same_str(extension, "hex") {
        Some(2)
    } else if text::same_str(extension, "srec") {
        Some(3)
    } else if text::same_str(extension, "eep") {
        Some(4)
    } else if text::same_str(extension, "lss") {
        Some(5)
    } else if text::same_str(extension, "map") {
        Some(6)
    } else {
        None
    }
}

/// An artifact with the place of its extension.
#[derive(Clone, Debug)]
pub struct Artifact {
    pub rank: u8,
    pub path: String,
}

/// What an artifact stands for.
pub struct ArtifactView {
    pub rank: int,
    pub path: Seq<char>,
}

impl View for Artifact {
    type V = ArtifactView;

    open spec fn view(&self) -> ArtifactView {
        ArtifactView { rank: self.rank as int, path: self.path@ }
    }
}

impl order::Ranked for Artifact {
    open spec fn before(a: ArtifactView, b: ArtifactView) -> bool {
        a.rank < b.rank
    }

    fn goes_before(&self, other: &Self) -> bool {
        self.rank < other.rank
    }
}

/// A file as an artifact, if its name is the stem and a known extension.
pub open spec fn artifact_at(host: Host, stem: Seq<char>, file: Seq<char>) -> Option<
    ArtifactView,
> {
    if path::file_stem(host, file) != Some(stem) {
        None
    } else {
        match path::extension(host, file) {
            Some(extension) => match extension_rank(text::lowered(extension)) {
                Some(rank) => Some(ArtifactView { rank: rank, path: file }),
                None => None,
            },
            None => None,
        }
    }
}

/// The artifacts among some files, in the order of the files.
pub open spec fn artifacts_among(host: Host, stem: Seq<char>, files: Seq<Seq<char>>) -> Seq<
    ArtifactView,
>
    decreases files.len(),
{
    if files.len() == 0 {
        Seq::empty()
    } else {
        match artifact_at(host, stem, files.last()) {
            Some(artifact) => artifacts_among(host, stem, files.drop_last()).push(artifact),
            None => artifacts_among(host, stem, files.drop_last()),
        }
    }
}

/// The paths of artifacts.
pub open spec fn artifact_paths(artifacts: Seq<ArtifactView>) -> Seq<Seq<char>> {
    artifacts.map_values(|artifact: ArtifactView| artifact.path)
}

/// The artifacts of a stem among some files, the likeliest extension first.
pub open spec fn ranked_artifacts(host: Host, stem: Seq<char>, files: Seq<Seq<char>>) -> Seq<
    Seq<char>,
> {
    artifact_paths(order::arranged::<Artifact>(artifacts_among(host, stem, files)))
}

/// A file as an artifact, if it is one.
fn recognise(host: Host, stem: &str, file: &str) -> (r: Option<Artifact>)
    ensures
        match r {
            Some(artifact) => artifact_at(host, stem@, file@) == Some(artifact@),
            None => artifact_at(host, stem@, file@) is None,
        },
{
    match path::file_stem_of(host, file) {
        Some(found) => {
            if !text::same_str(found.as_str(), stem) {
                return None;
            }
        },
        None => {
            return None;
        },
    }
    match path::extension_of(host, file) {
        Some(extension) => {
            let low = text::string_of(&text::lower(&text::chars_of(extension.as_str())));
            match rank_extension(low.as_str()) {
                Some(rank) => Some(Artifact { rank: rank, path: file.to_owned() }),
                None => None,
            }
        },
        None => None,
    }
}

/// The project at a path, from the bytes of the file or from why it could not be read.
pub open spec fn project_read(
    host: Host,
    path: Seq<char>,
    contents: Result<Vec<u8>, String>,
) -> Result<ProjectView, Failure> {
    match file_text(path, contents) {
        Ok(held) => match path::file_stem(host, path) {
            Some(name) => Ok(project_of(held, path, name)),
            None => Err(Failure::Runtime(path + " has no file name"@)),
        },
        Err(failure) => Err(failure),
    }
}

impl Project {
    /// The project at a path, from the bytes of the file or from why it could
    /// not be read.
    pub fn load(host: Host, path: &str, contents: Result<Vec<u8>, String>) -> (r: Result<
        Self,
        AppError,
    >)
        ensures
            error::viewed(r) == project_read(host, path@, contents),
    {
        match read(path, contents) {
            Ok(held) => match path::file_stem_of(host, path) {
                Some(name) => Ok(Self::parse(held.as_str(), path, name.as_str())),
                None => Err(AppError::Runtime(text::cat2(path, " has no file name"))),
            },
            Err(error) => Err(error),
        }
    }

    /// The project that the text of a project file describes.
    pub fn parse(xml: &str, path: &str, name: &str) -> (r: Self)
        ensures
            r@ == project_of(xml@, path@, name@),
    {
        let groups = property_groups(xml);
        let ghost all = groups_of(xml@);
        let mut bodies: Vec<String> = Vec::new();
        let mut configurations: Vec<String> = Vec::new();
        let mut i: usize = 0;
        assert(order::views(groups@).len() == groups@.len());
        assert(list::texts(bodies@) == Seq::<Seq<char>>::empty());
        assert(list::texts(configurations@) == Seq::<Seq<char>>::empty());
        while i < groups.len()
            invariant
                i <= groups@.len(),
                all == order::views(groups@),
                all.len() == groups@.len(),
                list::texts(bodies@) == global_bodies(all.take(i as int)),
                list::texts(configurations@) == group_configurations(all.take(i as int)),
            decreases groups@.len() - i,
        {
            assert(all.take(i as int + 1).drop_last() == all.take(i as int));
            assert(all[i as int] == groups@[i as int]@);
            match &groups[i].condition {
                Some(condition) => {
                    match configuration_of(condition.as_str()) {
                        Some(found) => {
                            if !text::listed(&configurations, found.as_str()) {
                                configurations.push(found);
                            }
                        },
                        None => {},
                    }
                },
                None => {
                    bodies.push(groups[i].body.as_str().to_owned());
                },
            }
            i += 1;
        }
        assert(all.take(i as int) == all);
        let global = text::join(&bodies, "\n");
        let xml = global.as_str();
        let directory = match tag_value(xml, "OutputDirectory") {
            Some(held) => held,
            None => "$(MSBuildProjectDirectory)\\$(Configuration)".to_owned(),
        };
        let file_name = match tag_value(xml, "OutputFileName") {
            Some(held) => held,
            None => "$(MSBuildProjectName)".to_owned(),
        };
        let extension = match tag_value(xml, "OutputFileExtension") {
            Some(held) => held,
            None => ".elf".to_owned(),
        };
        let extension_chars = text::chars_of(extension.as_str());
        Project {
            path: path.to_owned(),
            name: name.to_owned(),
            device: tag_value(xml, "avrdevice"),
            configurations: configurations,
            output_directory: directory,
            output_file_name: file_name,
            output_extension: text::string_of(text::trim_start_char(&extension_chars, '.')),
        }
    }

    /// The directory of the project.
    pub fn directory(&self, host: Host) -> (r: String)
        ensures
            r@ == path::directory(host, self.path@),
    {
        path::directory_of(host, self.path.as_str())
    }

    /// Where a configuration writes its build output.
    pub fn output_directory(&self, host: Host, configuration: &str) -> (r: String)
        ensures
            r@ == output_path(host, self@, configuration@),
    {
        let found = self.expand(host, self.output_directory.as_str(), configuration);
        let template = text::chars_of(self.output_directory.as_str());
        if text::contains(&template, "$(MSBuildProjectDirectory)") {
            found
        } else {
            path::join(host, self.directory(host).as_str(), found.as_str())
        }
    }

    /// The base name shared by every artifact, without an extension.
    pub fn output_stem(&self, host: Host, configuration: &str) -> (r: String)
        ensures
            r@ == expanded(host, self@, self@.output_file_name, configuration@),
    {
        self.expand(host, self.output_file_name.as_str(), configuration)
    }

    /// The extension of the linked image, normally `elf`.
    pub fn default_extension(&self) -> (r: &str)
        ensures
            r@ == self@.output_extension,
    {
        self.output_extension.as_str()
    }

    /// The path of one artifact, whether or not it has been built yet.
    pub fn artifact(&self, host: Host, configuration: &str, extension: &str) -> (r: String)
        ensures
            r@ == artifact_path(host, self@, configuration@, extension@),
    {
        let s = text::chars_of(extension);
        let bare = text::string_of(text::trim_start_char(&s, '.'));
        let stem = self.output_stem(host, configuration);
        let name = text::cat3(stem.as_str(), ".", bare.as_str());
        path::join(host, self.output_directory(host, configuration).as_str(), name.as_str())
    }

    /// Every artifact this configuration has actually produced, among the files
    /// of its output directory.
    pub fn artifacts(&self, host: Host, configuration: &str, files: &Vec<String>) -> (r: Vec<
        String,
    >)
        ensures
            list::texts(r@) == ranked_artifacts(
                host,
                expanded(host, self@, self@.output_file_name, configuration@),
                list::texts(files@),
            ),
    {
        let stem = self.output_stem(host, configuration);
        let ghost all = list::texts(files@);
        let mut found: Vec<Artifact> = Vec::new();
        let mut i: usize = 0;
        while i < files.len()
            invariant
                i <= files@.len(),
                all == list::texts(files@),
                order::views(found@) == artifacts_among(host, stem@, all.take(i as int)),
            decreases files@.len() - i,
        {
            assert(all.take(i as int + 1).drop_last() == all.take(i as int));
            assert(all[i as int] == files@[i as int]@);
            let ghost before = found@;
            match recognise(host, stem.as_str(), files[i].as_str()) {
                Some(artifact) => {
                    found.push(artifact);
                    assert(order::views(found@) == order::views(before).push(artifact@));
                },
                None => {},
            }
            i += 1;
        }
        assert(all.take(i as int) == all);
        let sorted = order::arrange(found);
        let ghost paths = artifact_paths(order::views(sorted@));
        let mut out: Vec<String> = Vec::new();
        let mut k: usize = 0;
        while k < sorted.len()
            invariant
                k <= sorted@.len(),
                paths == artifact_paths(order::views(sorted@)),
                list::texts(out@) == paths.take(k as int),
            decreases sorted@.len() - k,
        {
            assert(order::views(sorted@)[k as int] == sorted@[k as int]@);
            assert(paths[k as int] == sorted@[k as int].path@);
            out.push(sorted[k].path.as_str().to_owned());
            k += 1;
        }
        assert(paths.take(k as int) == paths);
        out
    }

    /// Expands the MSBuild properties that appear in Atmel's project templates.
    pub fn expand(&self, host: Host, template: &str, configuration: &str) -> (r: String)
        ensures
            r@ == expanded(host, self@, template@, configuration@),
    {
        let directory = text::chars_of(self.directory(host).as_str());
        let name = text::chars_of(self.name.as_str());
        let wanted = text::chars_of(configuration);
        let t = text::chars_of(template);
        let a = text::replace(&t, "$(MSBuildProjectDirectory)", &directory);
        let b = text::replace(&a, "$(MSBuildProjectName)", &name);
        let c = text::replace(&b, "$(AssemblyName)", &name);
        let d = text::replace(&c, "$(Configuration)", &wanted);
        normalize_separators(host, text::string_of(&d).as_str())
    }
}

proof fn lemma_reading_unique(lines: Seq<Seq<char>>)
    ensures
        read_lines(lines).configurations.no_duplicates(),
    decreases lines.len(),
{
    if lines.len() > 0 {
        lemma_reading_unique(lines.drop_last());
        let state = read_lines(lines.drop_last());
        match platform_name(text::trimmed(lines.last())) {
            Some(name) => {
                list::lemma_with_item_unique(state.configurations, name);
            },
            None => {},
        }
    }
}

/// A solution offers each configuration once, for however many platforms it lists it.
pub proof fn lemma_solution_configurations_unique(contents: Seq<char>)
    ensures
        solution_of(contents).configurations.no_duplicates(),
{
    lemma_reading_unique(text::lines_of(contents));
}

proof fn lemma_groups_unique(groups: Seq<GroupView>)
    ensures
        group_configurations(groups).no_duplicates(),
    decreases groups.len(),
{
    if groups.len() > 0 {
        lemma_groups_unique(groups.drop_last());
        match groups.last().condition {
            Some(condition) => match condition_name(condition) {
                Some(name) => {
                    list::lemma_with_item_unique(group_configurations(groups.drop_last()), name);
                },
                None => {},
            },
            None => {},
        }
    }
}

/// A project offers each configuration once.
pub proof fn lemma_project_configurations_unique(xml: Seq<char>, path: Seq<char>, name: Seq<char>)
    ensures
        project_of(xml, path, name).configurations.no_duplicates(),
{
    lemma_groups_unique(groups_of(xml));
}

/// The search for an entry finds the first with the name.
proof fn lemma_entry_from(entries: Seq<EntryView>, name: Seq<char>, from: int)
    requires
        0 <= from,
    ensures
        match entry_from(entries, name, from) {
            Some(i) => from <= i < entries.len() && text::alike(entries[i].name, name),
            None => forall|i: int|
                from <= i < entries.len() ==> !text::alike((#[trigger] entries[i]).name, name),
        },
    decreases entries.len() - from,
{
    if from < entries.len() && !text::alike(entries[from].name, name) {
        lemma_entry_from(entries, name, from + 1);
    }
}

/// A project of a solution is found by its name in any case, and only then; without
/// a name it is found only where there is no other.
pub proof fn lemma_entry_found_by_name(solution: SolutionView, name: Seq<char>)
    ensures
        chosen_entry(solution, Some(name)) is Ok <==> exists|i: int|
            0 <= i < solution.entries.len() && text::alike(
                (#[trigger] solution.entries[i]).name,
                name,
            ),
        chosen_entry(solution, Some(name)) matches Ok(entry) ==> solution.entries.contains(entry)
            && text::alike(entry.name, name),
        chosen_entry(solution, None) is Ok <==> solution.entries.len() == 1,
{
    lemma_entry_from(solution.entries, name, 0);
}

/// Artifacts come in the order in which a person is most likely to want them, and
/// they are exactly those among the files.
pub proof fn lemma_artifacts_ranked(host: Host, stem: Seq<char>, files: Seq<Seq<char>>)
    ensures
        ({
            let found = artifacts_among(host, stem, files);
            let ranked = order::arranged::<Artifact>(found);
            &&& ranked_artifacts(host, stem, files) == artifact_paths(ranked)
            &&& ranked.to_multiset() == found.to_multiset()
            &&& forall|i: int, j: int|
                0 <= i < j < ranked.len() ==> (#[trigger] ranked[i]).rank <= (
                #[trigger] ranked[j]).rank
        }),
{
    let found = artifacts_among(host, stem, files);
    let ranked = order::arranged::<Artifact>(found);
    assert(order::by_rank::<Artifact>());
    order::lemma_arranged_in_order::<Artifact>(found);
    assert forall|i: int, j: int| 0 <= i < j < ranked.len() implies (#[trigger] ranked[i]).rank <= (
    #[trigger] ranked[j]).rank by {
        assert(!<Artifact as order::Ranked>::before(ranked[j], ranked[i]));
    }
}

/// Where a project file gives its output directory from its own, that is not taken
/// from anywhere else; any other is taken from the directory of the project, so it
/// is absolute wherever the project is.
pub proof fn lemma_relative_output_absolute(
    host: Host,
    project: ProjectView,
    configuration: Seq<char>,
)
    requires
        !text::has_text(project.output_directory, "$(MSBuildProjectDirectory)"@),
        path::absolute(host, path::directory(host, project.path)),
        ({
            let found = expanded(host, project, project.output_directory, configuration);
            path::prefix_len(host, found) > 0 ==> path::absolute(host, found)
        }),
    ensures
        path::absolute(host, output_path(host, project, configuration)),
{
    path::lemma_joined_absolute(
        host,
        path::directory(host, project.path),
        expanded(host, project, project.output_directory, configuration),
    );
}

} // verus!
