//! Laws on solution and project files.

use vstd::prelude::*;

use crate::error::Failure;
use crate::host::Host;
use crate::laws::text as base;
use crate::order;
use crate::path;
use crate::solution;
use crate::solution::Artifact;
use crate::text;

verus! {

/// Whether a text is the name of a file or a directory.
pub open spec fn is_name(s: Seq<char>) -> bool {
    s.len() > 0 && !s.contains('/') && !s.contains('\\')
}

proof fn lemma_joined_head(names: Seq<Seq<char>>, between: Seq<char>)
    requires
        names.len() > 0,
        names[0].len() > 0,
    ensures
        text::joined(names, between).len() > 0,
        text::joined(names, between)[0] == names[0][0],
{
    if names.len() > 1 {
        base::lemma_joined_first(names[0], names.skip(1), between);
        assert(seq![names[0]] + names.skip(1) == names);
    }
}

/// A directory and what lies below it, written with slashes.
pub open spec fn below_directory(directory: Seq<char>, rest: Seq<char>) -> Seq<char> {
    if directory.len() == 0 || directory.last() == '/' {
        directory + rest
    } else {
        directory + seq!['/'] + rest
    }
}

/// On WSL the project that an entry of a solution points at lies below the directory of
/// the solution, however deep: every backslash of the entry is a separator.
pub proof fn lemma_project_lies_below_its_solution(
    file: Seq<char>,
    name: Seq<char>,
    names: Seq<Seq<char>>,
)
    requires
        names.len() > 0,
        forall|i: int| 0 <= i < names.len() ==> is_name(#[trigger] names[i]),
    ensures
        ({
            let entry = solution::EntryView {
                name: name,
                relative_path: text::joined(names, seq!['\\']),
            };
            let directory = path::directory(Host::Wsl, file);
            let found = solution::entry_path(Host::Wsl, file, entry);
            &&& found == below_directory(directory, text::joined(names, seq!['/']))
            &&& names.is_suffix_of(text::split_at(found, '/'))
            &&& !directory.contains('\\') ==> !found.contains('\\')
        }),
{
    let directory = path::directory(Host::Wsl, file);
    let rest = text::joined(names, seq!['/']);
    assert forall|i: int| 0 <= i < names.len() implies !(#[trigger] names[i]).contains('\\')
        && !names[i].contains('/') by {
        assert(is_name(names[i]));
    }
    base::lemma_joined_swapped(names, '\\', '/');
    base::lemma_joined_splits(names, '/');
    assert(is_name(names[0]));
    lemma_joined_head(names, seq!['/']);
    assert(names[0].contains(names[0][0]));
    assert(rest[0] != '/');
    let entry = solution::EntryView {
        name: name,
        relative_path: text::joined(names, seq!['\\']),
    };
    let found = solution::entry_path(Host::Wsl, file, entry);
    assert(found == below_directory(directory, rest));
    // The names at the end.
    if directory.len() == 0 {
        assert(found == rest);
        assert(names.subrange(0, names.len() as int) == names);
    } else if directory.last() == '/' {
        let front = directory.drop_last();
        assert(found == front.push('/') + rest);
        base::lemma_split_in_two(front, '/', rest);
    } else {
        assert(found == directory.push('/') + rest);
        base::lemma_split_in_two(directory, '/', rest);
    }
    let all = text::split_at(found, '/');
    assert(all.subrange(all.len() - names.len(), all.len() as int) == names);
    // No backslash.
    base::lemma_swapped(entry.relative_path, '\\', '/');
    if !directory.contains('\\') && found.contains('\\') {
        let i = choose|i: int| 0 <= i < found.len() && found[i] == '\\';
        if i < directory.len() {
            assert(directory[i] == '\\');
        } else {
            let shift = found.len() - rest.len();
            if i >= shift {
                assert(rest[i - shift] == '\\');
                assert(rest.contains('\\'));
            }
        }
    }
}

/// Whether a text can be the contents of a field between quotes.
pub open spec fn quotable(s: Seq<char>) -> bool {
    s.len() > 0 && !s.contains(',') && s[0] != '"' && s.last() != '"'
}

/// A text in quotes, with a blank before it.
pub open spec fn quoted(s: Seq<char>) -> Seq<char> {
    seq![' ', '"'] + s + seq!['"']
}

/// The line of a solution file that lists a project.
pub open spec fn project_line(
    kind: Seq<char>,
    name: Seq<char>,
    file: Seq<char>,
    id: Seq<char>,
) -> Seq<char> {
    ("Project("@ + kind + ") "@).push('=') + (quoted(name).push(',') + (quoted(file).push(',')
        + quoted(id)))
}

proof fn lemma_unquoted(s: Seq<char>)
    requires
        quotable(s),
    ensures
        solution::unquoted(quoted(s)) == s,
        !quoted(s).contains(','),
{
    let core = seq!['"'] + s + seq!['"'];
    assert(quoted(s) == seq![' '] + core + Seq::<char>::empty());
    base::lemma_trimmed(seq![' '], core, Seq::empty());
    base::lemma_without_around(seq!['"'], s, seq!['"'], '"');
    if quoted(s).contains(',') {
        let i = choose|i: int| 0 <= i < quoted(s).len() && quoted(s)[i] == ',';
        assert(2 <= i < 2 + s.len());
        assert(s[i - 2] == ',');
    }
}

/// Whether a name ends in an extension, in any mixture of capitals.
pub open spec fn ends_in(s: Seq<char>, extension: Seq<char>) -> bool {
    s.len() >= extension.len() && text::alike(s.skip(s.len() - extension.len()), extension)
}

proof fn lemma_ends_in(s: Seq<char>, extension: Seq<char>)
    requires
        text::lowered(extension) == extension,
    ensures
        extension.is_suffix_of(text::lowered(s)) == ends_in(s, extension),
{
    let low = text::lowered(s);
    if s.len() >= extension.len() {
        let k = s.len() - extension.len();
        assert(text::lowered(s.skip(k)) == low.subrange(k, s.len() as int));
    }
}

proof fn lemma_cproj()
    ensures
        text::lowered(".cproj"@) == ".cproj"@,
{
    reveal_strlit(".cproj");
    assert(text::lowered(".cproj"@) =~= ".cproj"@);
}

/// A line that lists a project gives its name and its path, and one that lists anything
/// that is not a project of this kind gives nothing.
pub proof fn lemma_project_line_read_back(
    kind: Seq<char>,
    name: Seq<char>,
    file: Seq<char>,
    id: Seq<char>,
)
    requires
        !kind.contains('='),
        quotable(name),
        quotable(file),
    ensures
        solution::project_entry(project_line(kind, name, file, id)) == if ends_in(
            file,
            ".cproj"@,
        ) {
            Some((solution::EntryView { name: name, relative_path: file }))
        } else {
            None
        },
{
    reveal_strlit("Project(");
    reveal_strlit(") ");
    let front = "Project("@ + kind + ") "@;
    assert(!front.contains('=')) by {
        if front.contains('=') {
            let i = choose|i: int| 0 <= i < front.len() && front[i] == '=';
            if 8 <= i < 8 + kind.len() {
                assert(kind[i - 8] == '=');
            }
        }
    }
    lemma_unquoted(name);
    lemma_unquoted(file);
    let last = quoted(id);
    let second = quoted(file).push(',') + last;
    let rest = quoted(name).push(',') + second;
    base::lemma_cut(front, '=', rest);
    base::lemma_cut(quoted(name), ',', second);
    base::lemma_cut(quoted(file), ',', last);
    let fields = text::split_at(rest, ',');
    assert(fields == seq![quoted(name)] + (seq![quoted(file)] + text::split_at(last, ',')));
    assert(fields[0] == quoted(name));
    assert(fields[1] == quoted(file));
    lemma_cproj();
    lemma_ends_in(file, ".cproj"@);
}

/// The line of a solution file that names a configuration.
pub open spec fn configuration_line(name: Seq<char>, rest: Seq<char>, value: Seq<char>) -> Seq<
    char,
> {
    (name.push('|') + rest).push('=') + value
}

/// A line that names a configuration gives its name, which is what stands before the
/// platform.
pub proof fn lemma_configuration_line_read_back(
    name: Seq<char>,
    rest: Seq<char>,
    value: Seq<char>,
)
    requires
        name.len() > 0,
        base::tight(name),
        !name.contains('|'),
        !name.contains('='),
        !rest.contains('='),
    ensures
        solution::platform_name(configuration_line(name, rest, value)) == Some(name),
{
    let left = name.push('|') + rest;
    assert(!left.contains('=')) by {
        if left.contains('=') {
            let i = choose|i: int| 0 <= i < left.len() && left[i] == '=';
            if i < name.len() {
                assert(name[i] == '=');
            } else if i > name.len() {
                assert(rest[i - name.len() - 1] == '=');
            }
        }
    }
    base::lemma_cut(left, '=', value);
    let (a, b) = base::lemma_trimmed_is_tight(left);
    let bare = text::trimmed(left);
    assert(a == 0) by {
        if a > 0 {
            assert(left.take(a)[0] == left[0]);
            assert(left[0] == name[0]);
        }
    }
    assert(b > name.len()) by {
        if b <= name.len() {
            let tail = left.skip(b);
            let i = name.len() - b;
            assert(tail[i] == '|');
        }
    }
    let after = bare.skip(name.len() as int + 1);
    assert(bare == name.push('|') + after);
    base::lemma_cut(name, '|', after);
    base::lemma_tight_kept(name);
}

/// The value of an attribute is what stands between the quotes after its name.
pub proof fn lemma_attribute_read_back(
    before: Seq<char>,
    name: Seq<char>,
    value: Seq<char>,
    after: Seq<char>,
)
    requires
        name.len() > 0,
        !before.contains(name[0]),
        !value.contains('"'),
    ensures
        solution::attribute_value(before + (name + "=\""@) + (value.push('"') + after), name)
            == Some(value),
{
    let mark = name + "=\""@;
    base::lemma_cut_text_at_head(before, mark, value.push('"') + after);
    base::lemma_cut(value, '"', after);
}

/// A condition on the configuration names it.
pub proof fn lemma_condition_read_back(
    before: Seq<char>,
    middle: Seq<char>,
    name: Seq<char>,
)
    requires
        !before.contains('$'),
        !before.contains('='),
        !middle.contains('='),
        name.len() > 0,
        base::tight(name),
        name[0] != '\'',
        name.last() != '\'',
    ensures
        solution::condition_name(
            (before + "$(Configuration)"@ + middle) + "=="@ + (" '"@ + name + "' "@),
        ) == Some(name),
{
    reveal_strlit("$(Configuration)");
    reveal_strlit("==");
    reveal_strlit(" '");
    reveal_strlit("' ");
    let left = before + "$(Configuration)"@ + middle;
    let right = " '"@ + name + "' "@;
    assert(!left.contains('=')) by {
        if left.contains('=') {
            let i = choose|i: int| 0 <= i < left.len() && left[i] == '=';
            if i < before.len() {
                assert(before[i] == '=');
            } else if i >= before.len() + 16 {
                assert(middle[i - before.len() - 16] == '=');
            }
        }
    }
    base::lemma_cut_text_at_head(left, "=="@, right);
    base::lemma_cut_text_at_head(before, "$(Configuration)"@, middle);
    let core = seq!['\''] + name + seq!['\''];
    assert(right == seq![' '] + core + seq![' ']);
    base::lemma_trimmed(seq![' '], core, seq![' ']);
    base::lemma_without_around(seq!['\''], name, seq!['\''], '\'');
    base::lemma_tight_kept(name);
}

/// A condition on anything but the configuration names none.
pub proof fn lemma_other_condition(left: Seq<char>, right: Seq<char>)
    requires
        !left.contains('$'),
        !left.contains('='),
    ensures
        solution::condition_name(left + "=="@ + right) is None,
{
    reveal_strlit("==");
    reveal_strlit("$(Configuration)");
    base::lemma_cut_text_at_head(left, "=="@, right);
    assert("$(Configuration)"@[0] == '$');
    assert("$(Configuration)"@.contains('$'));
    base::lemma_no_text(left, "$(Configuration)"@, '$');
}

/// The text of an element is what stands between its tags, without the white space
/// around it.
pub proof fn lemma_element_read_back(
    before: Seq<char>,
    tag: Seq<char>,
    front: Seq<char>,
    value: Seq<char>,
    back: Seq<char>,
    after: Seq<char>,
)
    requires
        forall|j: int|
            0 <= j < before.len() ==> !#[trigger] text::occurs_at(
                before + ("<"@ + tag + ">"@) + (front + value + back + ("</"@ + tag + ">"@)
                    + after),
                "<"@ + tag + ">"@,
                j,
            ),
        !value.contains('<'),
        value.len() > 0,
        base::tight(value),
        base::blank(front),
        base::blank(back),
    ensures
        solution::element_text(
            before + ("<"@ + tag + ">"@) + (front + value + back + ("</"@ + tag + ">"@) + after),
            tag,
        ) == Some(value),
{
    reveal_strlit("<");
    reveal_strlit("</");
    let inner = front + value + back;
    let close = "</"@ + tag + ">"@;
    base::lemma_cut_text(before, "<"@ + tag + ">"@, inner + close + after);
    assert(!inner.contains('<')) by {
        if inner.contains('<') {
            let i = choose|i: int| 0 <= i < inner.len() && inner[i] == '<';
            if i < front.len() {
                assert(text::is_white(front[i]));
            } else if i < front.len() + value.len() {
                assert(value[i - front.len()] == '<');
            } else {
                assert(text::is_white(back[i - front.len() - value.len()]));
            }
        }
    }
    assert(close[0] == '<');
    base::lemma_cut_text_at_head(inner, close, after);
    base::lemma_trimmed(front, value, back);
}

/// A group of properties as it is written.
pub open spec fn group_text(attributes: Seq<char>, body: Seq<char>) -> Seq<char> {
    "<PropertyGroup"@ + attributes + seq!['>'] + body + "</PropertyGroup>"@
}

/// Groups of properties come out one by one, each with its condition and its body.
pub proof fn lemma_group_read_back(
    before: Seq<char>,
    attributes: Seq<char>,
    body: Seq<char>,
    rest: Seq<char>,
)
    requires
        forall|j: int|
            0 <= j < before.len() ==> !#[trigger] text::occurs_at(
                before + group_text(attributes, body) + rest,
                "<PropertyGroup"@,
                j,
            ),
        !attributes.contains('>'),
        !attributes.contains('<'),
        body.len() > 0,
        forall|j: int|
            0 <= j < body.len() ==> !#[trigger] text::occurs_at(
                body + "</PropertyGroup>"@ + rest,
                "</PropertyGroup>"@,
                j,
            ),
    ensures
        ({
            let groups = solution::groups_of(before + group_text(attributes, body) + rest);
            &&& groups.len() == 1 + solution::groups_of(rest).len()
            &&& groups[0].body == body
            &&& groups[0].condition == solution::attribute_value(
                "<PropertyGroup"@ + attributes,
                "Condition"@,
            )
            &&& groups.skip(1) == solution::groups_of(rest)
        }),
{
    reveal_strlit("<PropertyGroup");
    reveal_strlit("</PropertyGroup>");
    let p = "<PropertyGroup"@;
    let q = "</PropertyGroup>"@;
    let xml = before + group_text(attributes, body) + rest;
    let head = p + attributes;
    let b = attributes + seq!['>'] + body + q + rest;
    assert(xml == before + p + b);
    assert forall|j: int| 0 <= j < before.len() implies !text::occurs_at(before + p + b, p, j) by {
        assert(!text::occurs_at(xml, p, j));
    }
    base::lemma_cut_text(before, p, b);
    let after = xml.skip(before.len() as int);
    assert(after == group_text(attributes, body) + rest);
    assert(after == head.push('>') + (body + q + rest));
    assert(!head.contains('>')) by {
        if head.contains('>') {
            let i = choose|i: int| 0 <= i < head.len() && head[i] == '>';
            if i >= 14 {
                assert(attributes[i - 14] == '>');
            }
        }
    }
    base::lemma_cut(head, '>', body + q + rest);
    after.index_of_first_ensures('>');
    let k = head.len() as int;
    assert(after[k] == '>');
    assert(after.index_of_first('>') == Some(k)) by {
        let i = after.index_of_first('>')->0;
        if i < k {
            assert(head[i] == '>');
        }
    }
    let inner = head.push('>') + body;
    assert(after == inner + q + rest);
    assert forall|j: int| 0 <= j < inner.len() implies !text::occurs_at(inner + q + rest, q, j) by {
        if text::occurs_at(inner + q + rest, q, j) {
            let piece = (inner + q + rest).subrange(j, j + 16);
            assert(piece[0] == '<' && piece[1] == '/');
            if j > k {
                let m = j - (k + 1);
                assert((body + q + rest).subrange(m, m + 16) =~= piece);
                assert(text::occurs_at(body + q + rest, q, m));
            } else if j == 0 {
                assert(inner[1] == 'P');
            } else if j < 14 {
                assert(inner[j] == p[j]);
            } else if j < k {
                assert(attributes[j - 14] == '<');
            }
        }
    }
    base::lemma_cut_text(inner, q, rest);
    assert(after.take(k) == head);
    assert(after.subrange(k + 1, inner.len() as int) == body);
    assert(after.skip(inner.len() as int + q.len()) == rest);
    let groups = solution::groups_of(xml);
    assert(groups.skip(1) == solution::groups_of(rest));
}

/// Where no group starts there is none.
pub proof fn lemma_no_groups(xml: Seq<char>)
    requires
        !xml.contains('<'),
    ensures
        solution::groups_of(xml) == Seq::<solution::GroupView>::empty(),
{
    reveal_strlit("<PropertyGroup");
    assert("<PropertyGroup"@[0] == '<');
    assert("<PropertyGroup"@.contains('<'));
    base::lemma_no_text(xml, "<PropertyGroup"@, '<');
}


/// The lines of a solution file that list some projects.
pub open spec fn project_lines(kind: Seq<char>, entries: Seq<solution::EntryView>) -> Seq<
    Seq<char>,
>
    decreases entries.len(),
{
    if entries.len() == 0 {
        Seq::empty()
    } else {
        let entry = entries.last();
        project_lines(kind, entries.drop_last()) + seq![
            project_line(kind, entry.name, entry.relative_path, entry.name),
            "EndProject"@,
        ]
    }
}

/// The lines of a solution file that name some configurations.
pub open spec fn configuration_lines(names: Seq<Seq<char>>, platform: Seq<char>) -> Seq<Seq<char>> {
    names.map_values(
        |name: Seq<char>| seq!['\t'] + configuration_line(name, platform, name),
    )
}

/// A solution file that lists projects and configurations, among sections that are about
/// something else.
pub open spec fn solution_lines(
    kind: Seq<char>,
    entries: Seq<solution::EntryView>,
    names: Seq<Seq<char>>,
    platform: Seq<char>,
    others: Seq<Seq<char>>,
) -> Seq<Seq<char>> {
    project_lines(kind, entries) + seq![
        "GlobalSection(SolutionConfigurationPlatforms) = preSolution"@,
    ] + configuration_lines(names, platform) + seq![
        "EndGlobalSection"@,
        "GlobalSection(ProjectConfigurationPlatforms) = postSolution"@,
    ] + configuration_lines(others, platform) + seq!["EndGlobalSection"@]
}

/// Whether a project can be listed in a solution file.
pub open spec fn listable(entry: solution::EntryView) -> bool {
    quotable(entry.name) && quotable(entry.relative_path) && ends_in(
        entry.relative_path,
        ".cproj"@,
    )
}

/// Whether a configuration can be named in a solution file.
pub open spec fn nameable(name: Seq<char>) -> bool {
    name.len() > 0 && base::tight(name) && !name.contains('|') && !name.contains('=')
        && !"GlobalSection("@.is_prefix_of(name)
}

proof fn lemma_project_line_shape(
    kind: Seq<char>,
    name: Seq<char>,
    file: Seq<char>,
    id: Seq<char>,
)
    ensures
        base::tight(project_line(kind, name, file, id)),
        "Project("@.is_prefix_of(project_line(kind, name, file, id)),
        !"GlobalSection("@.is_prefix_of(project_line(kind, name, file, id)),
        project_line(kind, name, file, id) != "EndGlobalSection"@,
{
    reveal_strlit("Project(");
    reveal_strlit("GlobalSection(");
    reveal_strlit("EndGlobalSection");
    let line = project_line(kind, name, file, id);
    assert(line[0] == 'P');
    assert(line.last() == '"');
    assert(line.subrange(0, 8) =~= "Project("@);
    if "GlobalSection("@.is_prefix_of(line) {
        assert(line.subrange(0, 14)[0] == line[0]);
    }
}

proof fn lemma_reads_projects(kind: Seq<char>, entries: Seq<solution::EntryView>)
    requires
        !kind.contains('='),
        forall|i: int| 0 <= i < entries.len() ==> listable(#[trigger] entries[i]),
    ensures
        solution::read_lines(project_lines(kind, entries)) == (solution::Reading {
            inside: false,
            entries: entries,
            configurations: Seq::empty(),
        }),
    decreases entries.len(),
{
    if entries.len() > 0 {
        let front = entries.drop_last();
        let entry = entries.last();
        assert forall|i: int| 0 <= i < front.len() implies listable(#[trigger] front[i]) by {
            assert(front[i] == entries[i]);
        }
        lemma_reads_projects(kind, front);
        assert(listable(entries[entries.len() - 1]));
        let line = project_line(kind, entry.name, entry.relative_path, entry.name);
        let all = project_lines(kind, entries);
        let before = project_lines(kind, front);
        assert(all.drop_last() == before.push(line));
        assert(all.drop_last().drop_last() == before);
        assert(all.last() == "EndProject"@);
        assert(all.drop_last().last() == line);
        lemma_project_line_shape(kind, entry.name, entry.relative_path, entry.name);
        lemma_project_line_read_back(kind, entry.name, entry.relative_path, entry.name);
        base::lemma_tight_kept(line);
        assert(front.push(entry) == entries);
        assert(solution::read_lines(before.push(line)).entries == entries);
        reveal_strlit("EndProject");
        reveal_strlit("EndGlobalSection");
        reveal_strlit("GlobalSection(");
        reveal_strlit("Project(");
        let end = "EndProject"@;
        base::lemma_tight_kept(end);
        assert(end.subrange(0, 8)[0] == 'E');
        assert(!"Project("@.is_prefix_of(end));
        assert(!"GlobalSection("@.is_prefix_of(end));
        assert(end != "EndGlobalSection"@);
        let state = solution::read_lines(before.push(line));
        assert(solution::read_lines(before) == solution::Reading {
            inside: false,
            entries: front,
            configurations: Seq::empty(),
        });
        assert(state == solution::read_line(solution::read_lines(before), line));
        assert(state.entries == front.push(entry));
        assert(solution::read_line(state, end) == state);
        assert(solution::read_lines(all) == solution::read_line(state, end));
        assert(state.configurations == Seq::<Seq<char>>::empty());
    } else {
        assert(entries == Seq::<solution::EntryView>::empty());
    }
}

proof fn lemma_line_starts_like_its_name(
    name: Seq<char>,
    platform: Seq<char>,
    value: Seq<char>,
    front: Seq<char>,
)
    requires
        !front.is_prefix_of(name),
        !front.contains('|'),
    ensures
        !front.is_prefix_of(configuration_line(name, platform, value)),
{
    let line = configuration_line(name, platform, value);
    if front.is_prefix_of(line) {
        let n = front.len() as int;
        assert(line.subrange(0, n) == front);
        if n <= name.len() {
            assert(name.subrange(0, n) =~= front);
        } else {
            assert(front[name.len() as int] == line[name.len() as int]);
            assert(front[name.len() as int] == '|');
        }
    }
}

proof fn lemma_reads_configuration(
    state: solution::Reading,
    name: Seq<char>,
    platform: Seq<char>,
)
    requires
        nameable(name),
        !platform.contains('='),
    ensures
        ({
            let line = seq!['\t'] + configuration_line(name, platform, name);
            let next = solution::read_line(state, line);
            &&& next.inside == state.inside
            &&& state.inside ==> next.entries == state.entries
            &&& state.inside ==> next.configurations == if state.configurations.contains(name) {
                state.configurations
            } else {
                state.configurations.push(name)
            }
            &&& !state.inside ==> next.configurations == state.configurations
        }),
{
    reveal_strlit("EndGlobalSection");
    reveal_strlit("GlobalSection(");
    let core = configuration_line(name, platform, name);
    assert(core[0] == name[0]);
    assert(core.last() == name.last());
    assert(seq!['\t'] + core + Seq::<char>::empty() == seq!['\t'] + core);
    base::lemma_trimmed(seq!['\t'], core, Seq::empty());
    lemma_line_starts_like_its_name(name, platform, name, "GlobalSection("@);
    if core == "EndGlobalSection"@ {
        assert(core[name.len() as int] == '|');
    }
    lemma_configuration_line_read_back(name, platform, name);
}

proof fn lemma_reads_configurations(
    before: Seq<Seq<char>>,
    names: Seq<Seq<char>>,
    platform: Seq<char>,
)
    requires
        forall|i: int| 0 <= i < names.len() ==> nameable(#[trigger] names[i]),
        !platform.contains('='),
        names.no_duplicates(),
        solution::read_lines(before).inside ==> solution::read_lines(before).configurations.len()
            == 0,
    ensures
        ({
            let first = solution::read_lines(before);
            let last = solution::read_lines(before + configuration_lines(names, platform));
            &&& last.inside == first.inside
            &&& first.inside ==> last.entries == first.entries && last.configurations == names
            &&& !first.inside ==> last.configurations == first.configurations
        }),
    decreases names.len(),
{
    let lines = configuration_lines(names, platform);
    if names.len() == 0 {
        assert(before + lines == before);
    } else {
        let front = names.drop_last();
        assert forall|i: int| 0 <= i < front.len() implies nameable(#[trigger] front[i]) by {
            assert(front[i] == names[i]);
        }
        lemma_reads_configurations(before, front, platform);
        let all = before + lines;
        assert(all.drop_last() == before + configuration_lines(front, platform));
        let name = names.last();
        assert(all.last() == seq!['\t'] + configuration_line(name, platform, name));
        assert(nameable(names[names.len() - 1]));
        let state = solution::read_lines(all.drop_last());
        lemma_reads_configuration(state, name, platform);
        if state.inside {
            assert(!front.contains(name)) by {
                if front.contains(name) {
                    let i = choose|i: int| 0 <= i < front.len() && front[i] == name;
                    assert(names[i] == names[names.len() - 1]);
                }
            }
            assert(front.push(name) == names);
        }
    }
}

proof fn lemma_reads_nothing_else(
    before: Seq<Seq<char>>,
    names: Seq<Seq<char>>,
    platform: Seq<char>,
)
    requires
        !solution::read_lines(before).inside,
        forall|i: int| 0 <= i < names.len() ==> nameable(#[trigger] names[i]),
        forall|i: int| 0 <= i < names.len() ==> !"Project("@.is_prefix_of(#[trigger] names[i]),
        !platform.contains('='),
    ensures
        solution::read_lines(before + configuration_lines(names, platform))
            == solution::read_lines(before),
    decreases names.len(),
{
    let lines = configuration_lines(names, platform);
    if names.len() == 0 {
        assert(before + lines == before);
    } else {
        let front = names.drop_last();
        assert forall|i: int| 0 <= i < front.len() implies nameable(#[trigger] front[i])
            && !"Project("@.is_prefix_of(front[i]) by {
            assert(front[i] == names[i]);
        }
        lemma_reads_nothing_else(before, front, platform);
        let all = before + lines;
        assert(all.drop_last() == before + configuration_lines(front, platform));
        let name = names.last();
        let core = configuration_line(name, platform, name);
        assert(all.last() == seq!['\t'] + core);
        assert(nameable(names[names.len() - 1]));
        assert(!"Project("@.is_prefix_of(names[names.len() - 1]));
        let state = solution::read_lines(all.drop_last());
        lemma_reads_configuration(state, name, platform);
        reveal_strlit("Project(");
        assert(core[0] == name[0]);
        assert(core.last() == name.last());
        assert(seq!['\t'] + core + Seq::<char>::empty() == seq!['\t'] + core);
        base::lemma_trimmed(seq!['\t'], core, Seq::empty());
        lemma_line_starts_like_its_name(name, platform, name, "Project("@);
    }
}

/// A solution file gives back the projects and the configurations that were written into
/// it, all of them and in order, and takes nothing from its other sections.
#[verifier::rlimit(40)]
pub proof fn lemma_solution_read_back(
    kind: Seq<char>,
    entries: Seq<solution::EntryView>,
    names: Seq<Seq<char>>,
    platform: Seq<char>,
    others: Seq<Seq<char>>,
)
    requires
        !kind.contains('='),
        forall|i: int| 0 <= i < entries.len() ==> listable(#[trigger] entries[i]),
        names.no_duplicates(),
        forall|i: int| 0 <= i < names.len() ==> nameable(#[trigger] names[i]),
        forall|i: int| 0 <= i < others.len() ==> nameable(#[trigger] others[i]),
        forall|i: int| 0 <= i < others.len() ==> !"Project("@.is_prefix_of(#[trigger] others[i]),
        !platform.contains('='),
        base::are_lines(solution_lines(kind, entries, names, platform, others)),
    ensures
        ({
            let found = solution::solution_of(
                base::written_lines(solution_lines(kind, entries, names, platform, others)),
            );
            found.entries == entries && found.configurations == names
        }),
{
    let lines = solution_lines(kind, entries, names, platform, others);
    base::lemma_lines_read_back(lines);
    lemma_reads_projects(kind, entries);
    reveal_strlit("GlobalSection(");
    reveal_strlit("SolutionConfigurationPlatforms");
    reveal_strlit("GlobalSection(SolutionConfigurationPlatforms) = preSolution");
    reveal_strlit("GlobalSection(ProjectConfigurationPlatforms) = postSolution");
    reveal_strlit("EndGlobalSection");
    let first = "GlobalSection(SolutionConfigurationPlatforms) = preSolution"@;
    let second = "GlobalSection(ProjectConfigurationPlatforms) = postSolution"@;
    let end = "EndGlobalSection"@;
    let g = "GlobalSection("@;
    let s = "SolutionConfigurationPlatforms"@;
    base::lemma_tight_kept(first);
    base::lemma_tight_kept(second);
    base::lemma_tight_kept(end);
    assert(first.subrange(0, 14) =~= g);
    assert(first.skip(14).subrange(0, 30) =~= s);
    assert(second.subrange(0, 14) =~= g);
    assert(second.skip(14)[0] == 'P');
    assert(!s.is_prefix_of(second.skip(14))) by {
        if s.is_prefix_of(second.skip(14)) {
            assert(second.skip(14).subrange(0, 30)[0] == 'S');
        }
    }
    assert(!g.is_prefix_of(end)) by {
        if g.is_prefix_of(end) {
            assert(end.subrange(0, 14)[0] == 'G');
        }
    }
    let a = project_lines(kind, entries);
    let b = a.push(first);
    assert(b.drop_last() == a);
    let c = b + configuration_lines(names, platform);
    lemma_reads_configurations(b, names, platform);
    let d = c.push(end);
    assert(d.drop_last() == c);
    let e = d.push(second);
    assert(e.drop_last() == d);
    assert(!solution::read_lines(e).inside);
    let f = e + configuration_lines(others, platform);
    lemma_reads_nothing_else(e, others, platform);
    let h = f.push(end);
    assert(h.drop_last() == f);
    assert(h == lines);
    let before = solution::read_lines(a);
    assert(before.entries == entries);
    assert(solution::read_lines(b) == solution::read_line(before, first));
    assert(solution::read_lines(b).inside);
    assert(solution::read_lines(b).entries == entries);
    assert(solution::read_lines(c).configurations == names);
    assert(solution::read_lines(d) == solution::read_line(solution::read_lines(c), end));
    assert(solution::read_lines(d).configurations == names);
    assert(solution::read_lines(e).configurations == names);
    assert(solution::read_lines(h).configurations == names);
}


/// A piece of a template: a text, or a name that stands for something.
pub enum Piece {
    Text(Seq<char>),
    Directory,
    Name,
    Assembly,
    Configuration,
}

/// How a piece is written once the first `stage` kinds of name have been replaced.
pub open spec fn piece_text(piece: Piece, stage: int, values: (Seq<char>, Seq<char>, Seq<char>)) -> Seq<
    char,
> {
    match piece {
        Piece::Text(held) => held,
        Piece::Directory => if stage >= 1 {
            values.0
        } else {
            "$(MSBuildProjectDirectory)"@
        },
        Piece::Name => if stage >= 2 {
            values.1
        } else {
            "$(MSBuildProjectName)"@
        },
        Piece::Assembly => if stage >= 3 {
            values.1
        } else {
            "$(AssemblyName)"@
        },
        Piece::Configuration => if stage >= 4 {
            values.2
        } else {
            "$(Configuration)"@
        },
    }
}

/// How some pieces are written.
pub open spec fn pieces_text(
    pieces: Seq<Piece>,
    stage: int,
    values: (Seq<char>, Seq<char>, Seq<char>),
) -> Seq<char>
    decreases pieces.len(),
{
    if pieces.len() == 0 {
        Seq::empty()
    } else {
        piece_text(pieces[0], stage, values) + pieces_text(pieces.skip(1), stage, values)
    }
}

proof fn lemma_replaced_after(t: Seq<char>, s: Seq<char>, from: Seq<char>, to: Seq<char>)
    requires
        from.len() > 0,
        forall|j: int| 0 <= j < t.len() ==> !#[trigger] text::occurs_at(t + s, from, j),
    ensures
        text::replaced(t + s, from, to) == t + text::replaced(s, from, to),
{
    text::lemma_find_from(t + s, from, 0);
    text::lemma_find_from(s, from, 0);
    match text::find_text(s, from) {
        Some(i) => {
            let k = t.len() + i;
            assert((t + s).subrange(k, k + from.len()) =~= s.subrange(i, i + from.len()));
            assert(text::occurs_at(t + s, from, k));
            match text::find_text(t + s, from) {
                Some(m) => {
                    if m < k {
                        let j = m - t.len();
                        assert((t + s).subrange(m, m + from.len()) =~= s.subrange(
                            j,
                            j + from.len(),
                        ));
                        assert(text::occurs_at(s, from, j));
                    }
                    assert(m == k);
                    assert((t + s).take(m) =~= t + s.take(i));
                    assert((t + s).skip(m + from.len()) =~= s.skip(i + from.len()));
                },
                None => {},
            }
        },
        None => {
            if let Some(m) = text::find_text(t + s, from) {
                let j = m - t.len();
                assert((t + s).subrange(m, m + from.len()) =~= s.subrange(j, j + from.len()));
                assert(text::occurs_at(s, from, j));
            }
        },
    }
}

/// The name that is replaced at a stage, and what it stands for.
spec fn name_at(stage: int) -> Seq<char> {
    if stage == 0 {
        "$(MSBuildProjectDirectory)"@
    } else if stage == 1 {
        "$(MSBuildProjectName)"@
    } else if stage == 2 {
        "$(AssemblyName)"@
    } else {
        "$(Configuration)"@
    }
}

spec fn value_at(stage: int, values: (Seq<char>, Seq<char>, Seq<char>)) -> Seq<char> {
    if stage == 0 {
        values.0
    } else if stage == 1 {
        values.1
    } else if stage == 2 {
        values.1
    } else {
        values.2
    }
}

proof fn lemma_names_of_pieces()
    ensures
        forall|stage: int|
            0 <= stage < 4 ==> (#[trigger] name_at(stage)).len() > 12 && name_at(stage)[0] == '$'
                && !name_at(stage).skip(1).contains('$'),
        name_at(0)[2] == 'M' && name_at(1)[2] == 'M' && name_at(2)[2] == 'A' && name_at(3)[2]
            == 'C',
        name_at(0)[16] == 'D' && name_at(1)[16] == 'N',
        name_at(0).len() > 16 && name_at(1).len() > 16,
{
    reveal_strlit("$(MSBuildProjectDirectory)");
    reveal_strlit("$(MSBuildProjectName)");
    reveal_strlit("$(AssemblyName)");
    reveal_strlit("$(Configuration)");
}

/// What a text that holds no dollar stands before is replaced alone.
proof fn lemma_dollar_free(t: Seq<char>, s: Seq<char>, stage: int, to: Seq<char>)
    requires
        0 <= stage < 4,
        !t.contains('$'),
    ensures
        text::replaced(t + s, name_at(stage), to) == t + text::replaced(s, name_at(stage), to),
{
    lemma_names_of_pieces();
    let from = name_at(stage);
    assert forall|j: int| 0 <= j < t.len() implies !#[trigger] text::occurs_at(t + s, from, j) by {
        if text::occurs_at(t + s, from, j) {
            assert((t + s).subrange(j, j + from.len())[0] == t[j]);
            assert(t.contains('$'));
        }
    }
    lemma_replaced_after(t, s, from, to);
}

/// A name other than the one that is replaced stays.
proof fn lemma_other_name_kept(other: int, s: Seq<char>, stage: int, to: Seq<char>)
    requires
        0 <= stage < 4,
        0 <= other < 4,
        other != stage,
    ensures
        text::replaced(name_at(other) + s, name_at(stage), to) == name_at(other) + text::replaced(
            s,
            name_at(stage),
            to,
        ),
{
    lemma_names_of_pieces();
    let from = name_at(stage);
    let t = name_at(other);
    assert forall|j: int| 0 <= j < t.len() implies !#[trigger] text::occurs_at(t + s, from, j) by {
        if text::occurs_at(t + s, from, j) {
            let piece = (t + s).subrange(j, j + from.len());
            assert(piece[0] == t[j]);
            if j > 0 {
                assert(t.skip(1)[j - 1] == '$');
                assert(t.skip(1).contains('$'));
            } else {
                assert(piece[2] == t[2]);
                if other <= 1 && stage <= 1 {
                    assert(piece[16] == t[16]);
                }
            }
        }
    }
    lemma_replaced_after(t, s, from, to);
}

proof fn lemma_stage(
    pieces: Seq<Piece>,
    stage: int,
    values: (Seq<char>, Seq<char>, Seq<char>),
)
    requires
        0 <= stage < 4,
        !values.0.contains('$') && !values.1.contains('$') && !values.2.contains('$'),
        forall|i: int|
            0 <= i < pieces.len() ==> (#[trigger] pieces[i] matches Piece::Text(held)
                ==> !held.contains('$')),
    ensures
        text::replaced(
            pieces_text(pieces, stage, values),
            name_at(stage),
            value_at(stage, values),
        ) == pieces_text(pieces, stage + 1, values),
    decreases pieces.len(),
{
    let to = value_at(stage, values);
    let from = name_at(stage);
    lemma_names_of_pieces();
    if pieces.len() == 0 {
        text::lemma_find_from(Seq::<char>::empty(), from, 0);
    } else {
        let rest = pieces.skip(1);
        assert forall|i: int| 0 <= i < rest.len() implies (#[trigger] rest[i] matches Piece::Text(held)
            ==> !held.contains('$')) by {
            assert(rest[i] == pieces[i + 1]);
        }
        lemma_stage(rest, stage, values);
        let s = pieces_text(rest, stage, values);
        let first = pieces[0];
        let index: int = match first {
            Piece::Text(_) => -1,
            Piece::Directory => 0,
            Piece::Name => 1,
            Piece::Assembly => 2,
            Piece::Configuration => 3,
        };
        let t = piece_text(first, stage, values);
        if index < stage {
            lemma_dollar_free(t, s, stage, to);
        } else if index == stage {
            assert(t == from);
            assert(Seq::<char>::empty() + from + s == from + s);
            base::lemma_replaced(Seq::empty(), from, s, to);
            assert(Seq::<char>::empty() + to + text::replaced(s, from, to) == to + text::replaced(
                s,
                from,
                to,
            ));
        } else {
            assert(t == name_at(index));
            lemma_other_name_kept(index, s, stage, to);
        }
    }
}

/// A template is what it says: its texts as they are, and in place of each name what it
/// stands for, wherever and however often it stands there.
pub proof fn lemma_template_filled(
    host: Host,
    project: solution::ProjectView,
    pieces: Seq<Piece>,
    configuration: Seq<char>,
)
    requires
        !path::directory(host, project.path).contains('$'),
        !project.name.contains('$'),
        !configuration.contains('$'),
        forall|i: int|
            0 <= i < pieces.len() ==> (#[trigger] pieces[i] matches Piece::Text(held)
                ==> !held.contains('$')),
    ensures
        ({
            let values = (path::directory(host, project.path), project.name, configuration);
            let template = pieces_text(pieces, 0, values);
            let (from, to) = match host {
                Host::Windows => ('/', '\\'),
                Host::Wsl => ('\\', '/'),
            };
            let filled = pieces_text(pieces, 4, values);
            let found = solution::expanded(host, project, template, configuration);
            &&& found.len() == filled.len()
            &&& forall|i: int|
                0 <= i < filled.len() ==> #[trigger] found[i] == if filled[i] == from {
                    to
                } else {
                    filled[i]
                }
        }),
{
    let values = (path::directory(host, project.path), project.name, configuration);
    lemma_stage(pieces, 0, values);
    lemma_stage(pieces, 1, values);
    lemma_stage(pieces, 2, values);
    lemma_stage(pieces, 3, values);
    let filled = pieces_text(pieces, 4, values);
    base::lemma_swapped(filled, '/', '\\');
    base::lemma_swapped(filled, '\\', '/');
}

proof fn lemma_usual_directory(
    project: solution::ProjectView,
    configuration: Seq<char>,
)
    requires
        project.output_directory == "$(MSBuildProjectDirectory)\\$(Configuration)"@,
        !path::directory(Host::Wsl, project.path).contains('$'),
        !path::directory(Host::Wsl, project.path).contains('\\'),
        !project.name.contains('$'),
        !configuration.contains('$'),
        is_name(configuration),
    ensures
        solution::output_path(Host::Wsl, project, configuration) == path::directory(
            Host::Wsl,
            project.path,
        ) + seq!['/'] + configuration,
{
    let host = Host::Wsl;
    let directory = path::directory(host, project.path);
    let values = (directory, project.name, configuration);
    let pieces = seq![Piece::Directory, Piece::Text(seq!['\\']), Piece::Configuration];
    let mark = "$(MSBuildProjectDirectory)"@;
    let wanted = directory + seq!['/'] + configuration;
    let filled = directory + seq!['\\'] + configuration;
    assert(pieces.skip(1) =~= seq![Piece::Text(seq!['\\']), Piece::Configuration]);
    assert(pieces.skip(1).skip(1) =~= seq![Piece::Configuration]);
    assert(pieces.skip(1).skip(1).skip(1) =~= Seq::<Piece>::empty());
    assert(pieces_text(pieces, 0, values) == project.output_directory) by {
        reveal_strlit("$(MSBuildProjectDirectory)\\$(Configuration)");
        reveal_strlit("$(MSBuildProjectDirectory)");
        reveal_strlit("$(Configuration)");
        reveal_with_fuel(pieces_text, 4);
        assert(pieces_text(pieces, 0, values) =~= project.output_directory);
    }
    assert(pieces_text(pieces, 4, values) == filled) by {
        reveal_with_fuel(pieces_text, 4);
        assert(pieces_text(pieces, 4, values) =~= filled);
    }
    lemma_template_filled(host, project, pieces, configuration);
    let found = solution::expanded(host, project, project.output_directory, configuration);
    assert(found =~= wanted) by {
        assert forall|i: int| 0 <= i < wanted.len() implies found[i] == wanted[i] by {
            assert(found[i] == if filled[i] == '\\' {
                '/'
            } else {
                filled[i]
            });
            if i < directory.len() {
                assert(directory.contains(directory[i]));
            } else if i > directory.len() {
                assert(configuration.contains(configuration[i - directory.len() - 1]));
            }
        }
    }
    assert(text::has_text(project.output_directory, mark)) by {
        reveal_strlit("$(MSBuildProjectDirectory)\\$(Configuration)");
        reveal_strlit("$(MSBuildProjectDirectory)");
        let rest = project.output_directory.skip(mark.len() as int);
        assert(project.output_directory =~= Seq::<char>::empty() + mark + rest);
        base::lemma_cut_text_at_head(Seq::empty(), mark, rest);
    }
}

proof fn lemma_usual_stem(project: solution::ProjectView, configuration: Seq<char>)
    requires
        project.output_file_name == "$(MSBuildProjectName)"@,
        !path::directory(Host::Wsl, project.path).contains('$'),
        !project.name.contains('$'),
        is_name(project.name),
        !configuration.contains('$'),
    ensures
        solution::expanded(Host::Wsl, project, project.output_file_name, configuration)
            == project.name,
{
    let host = Host::Wsl;
    let values = (path::directory(host, project.path), project.name, configuration);
    let one = seq![Piece::Name];
    assert(one.skip(1) =~= Seq::<Piece>::empty());
    assert(pieces_text(one.skip(1), 0, values) =~= Seq::<char>::empty());
    assert(pieces_text(one.skip(1), 4, values) =~= Seq::<char>::empty());
    assert(pieces_text(one, 0, values) =~= project.output_file_name);
    assert(pieces_text(one, 4, values) =~= project.name);
    lemma_template_filled(host, project, one, configuration);
    let stem = solution::expanded(host, project, project.output_file_name, configuration);
    let filled = project.name;
    assert forall|i: int| 0 <= i < filled.len() implies stem[i] == filled[i] by {
        assert(stem[i] == if filled[i] == '\\' {
            '/'
        } else {
            filled[i]
        });
        assert(filled.contains(filled[i]));
    }
    assert(stem =~= project.name);
}

/// The directory and the files of a build lie where the project file says by default: in
/// a directory named after the configuration beside the project, and named after the
/// project.
pub proof fn lemma_usual_output(
    project: solution::ProjectView,
    configuration: Seq<char>,
    extension: Seq<char>,
)
    requires
        project.output_directory == "$(MSBuildProjectDirectory)\\$(Configuration)"@,
        project.output_file_name == "$(MSBuildProjectName)"@,
        !path::directory(Host::Wsl, project.path).contains('$'),
        !path::directory(Host::Wsl, project.path).contains('\\'),
        !project.name.contains('$'),
        is_name(project.name),
        !configuration.contains('$'),
        is_name(configuration),
        extension.len() > 0,
        extension[0] != '.',
    ensures
        ({
            let directory = path::directory(Host::Wsl, project.path);
            &&& solution::output_path(Host::Wsl, project, configuration) == directory + seq!['/']
                + configuration
            &&& solution::artifact_path(Host::Wsl, project, configuration, extension) == directory
                + seq!['/'] + configuration + seq!['/'] + project.name + seq!['.'] + extension
            &&& solution::artifact_path(Host::Wsl, project, configuration, seq!['.'] + extension)
                == solution::artifact_path(Host::Wsl, project, configuration, extension)
        }),
{
    reveal_strlit(".");
    let host = Host::Wsl;
    lemma_usual_directory(project, configuration);
    lemma_usual_stem(project, configuration);
    base::lemma_joined_dot(extension);
    let wanted = path::directory(host, project.path) + seq!['/'] + configuration;
    let file = project.name + "."@ + extension;
    assert(file[0] == project.name[0]);
    assert(project.name.contains(project.name[0]));
    assert(wanted.last() == configuration.last());
    assert(configuration.contains(configuration.last()));
    assert(path::joined(host, wanted, file) == wanted + seq!['/'] + file);
    assert(wanted + seq!['/'] + file =~= wanted + seq!['/'] + project.name + seq!['.']
        + extension);
}

/// Where an extension stands in the order in which artifacts are listed.
pub open spec fn listed_order() -> Seq<Seq<char>> {
    seq!["elf"@, "bin"@, "hex"@, "srec"@, "eep"@, "lss"@, "map"@]
}

/// Whether the extension of one file is listed no later than that of another.
pub open spec fn listed_before(host: Host, one: Seq<char>, other: Seq<char>) -> bool {
    match (path::extension(host, one), path::extension(host, other)) {
        (Some(x), Some(y)) => exists|a: int, b: int|
            0 <= a <= b < 7 && text::lowered(x) == #[trigger] listed_order()[a] && text::lowered(y)
                == #[trigger] listed_order()[b],
        _ => false,
    }
}

proof fn lemma_ranks(extension: Seq<char>)
    ensures
        match solution::extension_rank(extension) {
            Some(rank) => 0 <= rank < 7 && listed_order()[rank] == extension,
            None => !listed_order().contains(extension),
        },
        forall|i: int|
            0 <= i < 7 ==> solution::extension_rank(#[trigger] listed_order()[i]) == Some(i),
{
    reveal_strlit("elf");
    reveal_strlit("bin");
    reveal_strlit("hex");
    reveal_strlit("srec");
    reveal_strlit("eep");
    reveal_strlit("lss");
    reveal_strlit("map");
    assert("elf"@[0] == 'e' && "eep"@[0] == 'e' && "elf"@[1] == 'l' && "eep"@[1] == 'e');
    assert("bin"@[0] == 'b' && "hex"@[0] == 'h' && "srec"@[0] == 's' && "lss"@[0] == 'l'
        && "map"@[0] == 'm');
}

proof fn lemma_among(host: Host, stem: Seq<char>, files: Seq<Seq<char>>, file: Seq<char>)
    ensures
        solution::artifact_paths(solution::artifacts_among(host, stem, files)).contains(file)
            <==> files.contains(file) && solution::artifact_at(host, stem, file) is Some,
        forall|k: int|
            0 <= k < solution::artifacts_among(host, stem, files).len() ==> solution::artifact_at(
                host,
                stem,
                (#[trigger] solution::artifacts_among(host, stem, files)[k]).path,
            ) == Some(solution::artifacts_among(host, stem, files)[k]),
    decreases files.len(),
{
    let found = solution::artifacts_among(host, stem, files);
    let paths = solution::artifact_paths(found);
    if files.len() > 0 {
        let front = files.drop_last();
        lemma_among(host, stem, front, file);
        let before = solution::artifacts_among(host, stem, front);
        let held = solution::artifact_paths(before);
        assert(files == front.push(files.last()));
        if files.contains(file) && files.last() != file {
            let i = choose|i: int| 0 <= i < files.len() && files[i] == file;
            assert(front[i] == file);
        }
        if front.contains(file) {
            let i = choose|i: int| 0 <= i < front.len() && front[i] == file;
            assert(files[i] == file);
        }
        match solution::artifact_at(host, stem, files.last()) {
            Some(artifact) => {
                assert(paths =~= held.push(files.last()));
                if held.contains(file) {
                    let i = choose|i: int| 0 <= i < held.len() && held[i] == file;
                    assert(paths[i] == file);
                }
                if files.last() == file {
                    assert(paths[held.len() as int] == file);
                    assert(files[files.len() - 1] == file);
                }
                if paths.contains(file) && files.last() != file {
                    let i = choose|i: int| 0 <= i < paths.len() && paths[i] == file;
                    assert(held[i] == file);
                }
            },
            None => {
                assert(paths == held);
            },
        }
    }
}

/// The artifacts of a build are the files that are named like it and have one of the
/// extensions of artifacts, in any mixture of capitals. They are listed in the order of
/// their extensions.
pub proof fn lemma_artifacts_are_those_named(
    host: Host,
    stem: Seq<char>,
    files: Seq<Seq<char>>,
    file: Seq<char>,
)
    ensures
        solution::ranked_artifacts(host, stem, files).contains(file) <==> files.contains(file)
            && path::file_stem(host, file) == Some(stem) && (path::extension(host, file) matches Some(
            extension,
        ) && listed_order().contains(text::lowered(extension))),
        forall|i: int, j: int|
            0 <= i < j < solution::ranked_artifacts(host, stem, files).len() ==> listed_before(
                host,
                #[trigger] solution::ranked_artifacts(host, stem, files)[i],
                #[trigger] solution::ranked_artifacts(host, stem, files)[j],
            ),
{
    let found = solution::artifacts_among(host, stem, files);
    let ranked = order::arranged::<Artifact>(found);
    let paths = solution::ranked_artifacts(host, stem, files);
    solution::lemma_artifacts_ranked(host, stem, files);
    lemma_among(host, stem, files, file);
    assert forall|k: int| 0 <= k < ranked.len() implies found.contains(#[trigger] ranked[k]) by {
        assert(ranked.contains(ranked[k]));
        found.to_multiset_ensures();
        ranked.to_multiset_ensures();
        assert(ranked.to_multiset().count(ranked[k]) > 0);
    }
    assert forall|k: int| 0 <= k < found.len() implies ranked.contains(#[trigger] found[k]) by {
        assert(found.contains(found[k]));
        found.to_multiset_ensures();
        ranked.to_multiset_ensures();
        assert(found.to_multiset().count(found[k]) > 0);
    }
    if paths.contains(file) {
        let k = choose|k: int| 0 <= k < paths.len() && paths[k] == file;
        assert(ranked[k].path == file);
        let m = choose|m: int| 0 <= m < found.len() && found[m] == ranked[k];
        assert(solution::artifact_paths(found)[m] == file);
    }
    if solution::artifact_paths(found).contains(file) {
        let m = choose|m: int|
            0 <= m < found.len() && solution::artifact_paths(found)[m] == file;
        let k = choose|k: int| 0 <= k < ranked.len() && ranked[k] == found[m];
        assert(paths[k] == file);
    }
    if let Some(extension) = path::extension(host, file) {
        let low = text::lowered(extension);
        lemma_ranks(low);
        if listed_order().contains(low) {
            let i = choose|i: int| 0 <= i < 7 && listed_order()[i] == low;
            assert(solution::extension_rank(listed_order()[i]) == Some(i));
        }
        if let Some(rank) = solution::extension_rank(low) {
            assert(listed_order()[rank] == low);
        }
    }
    assert forall|i: int, j: int| 0 <= i < j < paths.len() implies listed_before(
        host,
        #[trigger] paths[i],
        #[trigger] paths[j],
    ) by {
        assert(found.contains(ranked[i]) && found.contains(ranked[j]));
        let p = choose|p: int| 0 <= p < found.len() && found[p] == ranked[i];
        let q = choose|q: int| 0 <= q < found.len() && found[q] == ranked[j];
        assert(solution::artifact_at(host, stem, found[p].path) == Some(found[p]));
        assert(solution::artifact_at(host, stem, found[q].path) == Some(found[q]));
        let x = path::extension(host, paths[i])->0;
        let y = path::extension(host, paths[j])->0;
        lemma_ranks(text::lowered(x));
        lemma_ranks(text::lowered(y));
        let a = ranked[i].rank;
        let b = ranked[j].rank;
        assert(text::lowered(x) == listed_order()[a]);
        assert(text::lowered(y) == listed_order()[b]);
    }
}


/// A text that starts unlike it goes on does not straddle another occurrence of itself.
proof fn lemma_no_straddle(body: Seq<char>, q: Seq<char>, rest: Seq<char>)
    requires
        q.len() > 0,
        forall|i: int| 0 < i < q.len() ==> #[trigger] q[i] != q[0],
        !text::has_text(body, q),
    ensures
        forall|j: int|
            0 <= j < body.len() ==> !#[trigger] text::occurs_at(body + q + rest, q, j),
{
    text::lemma_find_from(body, q, 0);
    assert forall|j: int| 0 <= j < body.len() implies !#[trigger] text::occurs_at(
        body + q + rest,
        q,
        j,
    ) by {
        if text::occurs_at(body + q + rest, q, j) {
            let whole = body + q + rest;
            if j + q.len() <= body.len() {
                assert(body.subrange(j, j + q.len()) =~= whole.subrange(j, j + q.len()));
                assert(text::occurs_at(body, q, j));
            } else {
                let i = body.len() - j;
                assert(whole.subrange(j, j + q.len())[i] == whole[body.len() as int]);
                assert(q[i] == q[0]);
            }
        }
    }
}

/// What makes a group hold for one configuration only.
pub open spec fn condition_for(name: Seq<char>) -> Seq<char> {
    " Condition=\" '$(Configuration)' == '"@ + name + "' \""@
}

/// Groups of properties for some configurations, all with the same contents.
pub open spec fn conditional_groups(names: Seq<Seq<char>>, body: Seq<char>) -> Seq<char>
    decreases names.len(),
{
    if names.len() == 0 {
        Seq::empty()
    } else {
        seq!['\n'] + group_text(condition_for(names[0]), body) + conditional_groups(
            names.skip(1),
            body,
        )
    }
}

/// Whether a configuration can be named in a condition.
pub open spec fn conditional(name: Seq<char>) -> bool {
    name.len() > 0 && base::tight(name) && !name.contains('\'') && !name.contains('"')
        && !name.contains('<') && !name.contains('>')
}

proof fn lemma_condition_for(name: Seq<char>)
    requires
        conditional(name),
    ensures
        ({
            let tag = "<PropertyGroup"@ + condition_for(name);
            &&& solution::attribute_value(tag, "Condition"@) matches Some(condition)
            &&& solution::condition_name(condition) == Some(name)
        }),
        !condition_for(name).contains('<'),
        !condition_for(name).contains('>'),
{
    reveal_strlit("<PropertyGroup");
    reveal_strlit(" Condition=\" '$(Configuration)' == '");
    reveal_strlit("' \"");
    reveal_strlit("Condition");
    reveal_strlit("=\"");
    reveal_strlit("==");
    reveal_strlit(" '");
    reveal_strlit("' ");
    reveal_strlit("$(Configuration)");
    let tag = "<PropertyGroup"@ + condition_for(name);
    let before = "<PropertyGroup"@ + seq![' '];
    let value = (seq![' ', '\''] + "$(Configuration)"@ + seq!['\'', ' ']) + "=="@ + (" '"@ + name
        + "' "@);
    let mark = "Condition"@ + "=\""@;
    assert(tag =~= before + mark + (value.push('"') + Seq::<char>::empty()));
    assert(!before.contains('C'));
    assert(!value.contains('"')) by {
        if value.contains('"') {
            let i = choose|i: int| 0 <= i < value.len() && value[i] == '"';
            let k = 24int;
            assert(k <= i < k + name.len());
            assert(name[i - k] == '"');
        }
    }
    lemma_attribute_read_back(before, "Condition"@, value, Seq::empty());
    assert(!name.contains('\''));
    assert(name.contains(name[0]) && name.contains(name.last()));
    lemma_condition_read_back(seq![' ', '\''], seq!['\'', ' '], name);
    let text = condition_for(name);
    if text.contains('<') || text.contains('>') {
        let c = if text.contains('<') {
            '<'
        } else {
            '>'
        };
        let i = choose|i: int| 0 <= i < text.len() && text[i] == c;
        let n = " Condition=\" '$(Configuration)' == '"@.len();
        if n <= i < n + name.len() {
            assert(name[i - n] == c);
        }
    }
}

proof fn lemma_marks()
    ensures
        "<PropertyGroup"@.len() > 0 && "<PropertyGroup"@[0] == '<',
        "</PropertyGroup>"@.len() > 0,
        forall|i: int| 0 < i < "<PropertyGroup"@.len() ==> #[trigger] "<PropertyGroup"@[i] != '<',
        forall|i: int|
            0 < i < "</PropertyGroup>"@.len() ==> #[trigger] "</PropertyGroup>"@[i]
                != "</PropertyGroup>"@[0],
{
    reveal_strlit("<PropertyGroup");
    reveal_strlit("</PropertyGroup>");
}

proof fn lemma_one_group(
    before: Seq<char>,
    attributes: Seq<char>,
    body: Seq<char>,
    rest: Seq<char>,
)
    requires
        !text::has_text(before, "<PropertyGroup"@),
        !attributes.contains('>'),
        !attributes.contains('<'),
        body.len() > 0,
        !text::has_text(body, "</PropertyGroup>"@),
    ensures
        ({
            let groups = solution::groups_of(before + group_text(attributes, body) + rest);
            &&& groups.len() == 1 + solution::groups_of(rest).len()
            &&& groups[0].body == body
            &&& groups[0].condition == solution::attribute_value(
                "<PropertyGroup"@ + attributes,
                "Condition"@,
            )
            &&& groups.skip(1) == solution::groups_of(rest)
        }),
{
    lemma_marks();
    let p = "<PropertyGroup"@;
    let q = "</PropertyGroup>"@;
    lemma_no_straddle(body, q, rest);
    let more = attributes + seq!['>'] + body + q + rest;
    lemma_no_straddle(before, p, more);
    assert(before + p + more =~= before + group_text(attributes, body) + rest);
    assert forall|j: int| 0 <= j < before.len() implies !#[trigger] text::occurs_at(
        before + group_text(attributes, body) + rest,
        p,
        j,
    ) by {
        assert(!text::occurs_at(before + p + more, p, j));
    }
    lemma_group_read_back(before, attributes, body, rest);
}

proof fn lemma_conditional_groups(names: Seq<Seq<char>>, body: Seq<char>)
    requires
        forall|i: int| 0 <= i < names.len() ==> conditional(#[trigger] names[i]),
        body.len() > 0,
        !text::has_text(body, "</PropertyGroup>"@),
    ensures
        ({
            let groups = solution::groups_of(conditional_groups(names, body));
            &&& groups.len() == names.len()
            &&& forall|i: int|
                0 <= i < names.len() ==> (#[trigger] groups[i].condition matches Some(condition)
                    && solution::condition_name(condition) == Some(names[i]))
        }),
    decreases names.len(),
{
    if names.len() == 0 {
        lemma_no_groups(Seq::empty());
    } else {
        let rest = names.skip(1);
        assert forall|i: int| 0 <= i < rest.len() implies conditional(#[trigger] rest[i]) by {
            assert(rest[i] == names[i + 1]);
        }
        lemma_conditional_groups(rest, body);
        assert(conditional(names[0]));
        lemma_condition_for(names[0]);
        lemma_marks();
        assert("<PropertyGroup"@.contains('<'));
        base::lemma_no_text(seq!['\n'], "<PropertyGroup"@, '<');
        lemma_one_group(seq!['\n'], condition_for(names[0]), body, conditional_groups(rest, body));
        let groups = solution::groups_of(conditional_groups(names, body));
        let later = solution::groups_of(conditional_groups(rest, body));
        assert forall|i: int| 0 <= i < names.len() implies (#[trigger] groups[i].condition matches Some(
            condition,
        ) && solution::condition_name(condition) == Some(names[i])) by {
            if i > 0 {
                assert(groups.skip(1)[i - 1] == groups[i]);
                assert(later[i - 1].condition is Some);
                assert(rest[i - 1] == names[i]);
            }
        }
    }
}

proof fn lemma_configurations_of(groups: Seq<solution::GroupView>, names: Seq<Seq<char>>)
    requires
        groups.len() == names.len() + 1,
        groups[0].condition is None,
        names.no_duplicates(),
        forall|i: int|
            0 <= i < names.len() ==> (#[trigger] groups[i + 1].condition matches Some(condition)
                && solution::condition_name(condition) == Some(names[i])),
    ensures
        solution::group_configurations(groups) == names,
        solution::global_bodies(groups) == seq![groups[0].body],
    decreases names.len(),
{
    let front = groups.drop_last();
    if names.len() == 0 {
        assert(front.len() == 0);
        assert(solution::group_configurations(front) == Seq::<Seq<char>>::empty());
        assert(solution::global_bodies(front) == Seq::<Seq<char>>::empty());
        assert(groups.last() == groups[0]);
        assert(names == Seq::<Seq<char>>::empty());
    } else {
        let before = names.drop_last();
        assert forall|i: int| 0 <= i < before.len() implies (#[trigger] front[i + 1].condition matches Some(
            condition,
        ) && solution::condition_name(condition) == Some(before[i])) by {
            assert(groups[i + 1].condition is Some);
        }
        lemma_configurations_of(front, before);
        let k = names.len() - 1;
        assert(groups[k + 1].condition is Some);
        assert(!before.contains(names.last())) by {
            if before.contains(names.last()) {
                let i = choose|i: int| 0 <= i < before.len() && before[i] == names.last();
                assert(names[i] == names[k]);
            }
        }
        assert(before.push(names.last()) == names);
    }
}

/// A project file gives back what was written into it: its configurations, all of them
/// and in order, and the properties that hold for all of them. What is set for one
/// configuration alone is not taken for the project.
#[verifier::rlimit(40)]
pub proof fn lemma_project_read_back(
    before: Seq<char>,
    body: Seq<char>,
    names: Seq<Seq<char>>,
    inner: Seq<char>,
    path: Seq<char>,
    name: Seq<char>,
)
    requires
        !text::has_text(before, "<PropertyGroup"@),
        body.len() > 0,
        !text::has_text(body, "</PropertyGroup>"@),
        inner.len() > 0,
        !text::has_text(inner, "</PropertyGroup>"@),
        names.no_duplicates(),
        forall|i: int| 0 <= i < names.len() ==> conditional(#[trigger] names[i]),
    ensures
        ({
            let xml = before + group_text(Seq::empty(), body) + conditional_groups(names, inner);
            let found = solution::project_of(xml, path, name);
            &&& found.path == path
            &&& found.name == name
            &&& found.configurations == names
            &&& found.device == solution::element_text(body, "avrdevice"@)
            &&& found.output_directory == match solution::element_text(body, "OutputDirectory"@) {
                Some(held) => held,
                None => "$(MSBuildProjectDirectory)\\$(Configuration)"@,
            }
            &&& found.output_file_name == match solution::element_text(body, "OutputFileName"@) {
                Some(held) => held,
                None => "$(MSBuildProjectName)"@,
            }
            &&& solution::element_text(body, "OutputFileExtension"@) is None
                ==> found.output_extension == "elf"@
            &&& forall|extension: Seq<char>|
                extension.len() > 0 && extension[0] != '.' && solution::element_text(
                    body,
                    "OutputFileExtension"@,
                ) == Some(#[trigger] (seq!['.'] + extension)) ==> found.output_extension
                    == extension
        }),
{
    let more = conditional_groups(names, inner);
    let xml = before + group_text(Seq::empty(), body) + more;
    lemma_one_group(before, Seq::empty(), body, more);
    lemma_conditional_groups(names, inner);
    reveal_strlit("<PropertyGroup");
    reveal_strlit("Condition");
    reveal_strlit("=\"");
    reveal_strlit(".elf");
    reveal_strlit("elf");
    let mark = "Condition"@ + "=\""@;
    assert("<PropertyGroup"@ + Seq::<char>::empty() =~= "<PropertyGroup"@);
    assert(mark[0] == 'C');
    assert(mark.contains('C'));
    base::lemma_no_text("<PropertyGroup"@, mark, 'C');
    let groups = solution::groups_of(xml);
    assert forall|i: int| 0 <= i < names.len() implies (#[trigger] groups[i + 1].condition matches Some(
        condition,
    ) && solution::condition_name(condition) == Some(names[i])) by {
        assert(groups.skip(1)[i] == groups[i + 1]);
        assert(solution::groups_of(more)[i].condition is Some);
    }
    lemma_configurations_of(groups, names);
    assert(text::joined(seq![body], "\n"@) == body);
    assert(".elf"@ =~= seq!['.'] + "elf"@);
    base::lemma_joined_dot("elf"@);
    assert forall|extension: Seq<char>|
        extension.len() > 0 && extension[0] != '.' implies text::without_leading(
        #[trigger] (seq!['.'] + extension),
        '.',
    ) == extension by {
        base::lemma_joined_dot(extension);
    }
}

/// Marks at the head of a file are no part of what it says.
pub proof fn lemma_marks_dropped(s: Seq<char>)
    requires
        s.len() > 0,
        s[0] != '\u{feff}',
    ensures
        solution::without_marks(seq!['\u{feff}'] + s) == s,
        solution::without_marks(s) == s,
{
    let more = seq!['\u{feff}'] + s;
    assert(more.skip(1) =~= s);
    assert(text::without_leading(s, '\u{feff}') == s);
    assert(more[0] == '\u{feff}');
}

/// A file that is read is the one that was asked for, and a project is called what its
/// file is called.
pub proof fn lemma_files_keep_their_names(
    host: Host,
    file: Seq<char>,
    contents: Result<Vec<u8>, String>,
)
    ensures
        solution::solution_read(file, contents) matches Ok(found) ==> found.path == file,
        solution::solution_read(file, contents) is Ok <==> contents is Ok,
        solution::project_read(host, file, contents) matches Ok(found) ==> found.path == file
            && path::file_stem(host, file) == Some(found.name),
        solution::project_read(host, file, contents) is Ok <==> contents is Ok && path::file_name(
            host,
            file,
        ) is Some,
{
}

/// A file that cannot be read is told of, with the reason.
pub proof fn lemma_unreadable_told(host: Host, file: Seq<char>, reason: String)
    ensures
        solution::solution_read(file, Err(reason)) == Err::<solution::SolutionView, _>(
            Failure::Runtime("cannot read "@ + file + ": "@ + reason@),
        ),
        solution::project_read(host, file, Err(reason)) == Err::<solution::ProjectView, _>(
            Failure::Runtime("cannot read "@ + file + ": "@ + reason@),
        ),
{
}

/// A project that a solution does not hold is told of, with those that it holds.
pub proof fn lemma_unknown_project_told(solution: solution::SolutionView, name: Seq<char>)
    requires
        solution.entries.len() > 1,
        solution::chosen_entry(solution, Some(name)) is Err,
    ensures
        ({
            let names = Seq::new(solution.entries.len(), |i: int| solution.entries[i].name);
            let held = "It holds: "@ + text::joined(names, ", "@);
            &&& solution::chosen_entry(solution, Some(name)) matches Err(Failure::Usage(said))
                && held.is_suffix_of(said) && (solution.path + " has no project named "@
                + name).is_prefix_of(said)
            &&& solution::chosen_entry(solution, None) matches Err(Failure::Usage(said))
                && held.is_suffix_of(said)
        }),
{
    let names = Seq::new(solution.entries.len(), |i: int| solution.entries[i].name);
    assert(solution::entry_names(solution.entries) =~= names);
    let list = text::joined(names, ", "@);
    reveal_strlit("It holds: ");
    reveal_strlit(".\nIt holds: ");
    reveal_strlit(
        " holds several projects, so name the one to build with --project.\nIt holds: ",
    );
    let held = "It holds: "@ + list;
    let front = solution.path + " has no project named "@ + name;
    let one = front + ".\nIt holds: "@ + list;
    assert(one.subrange(one.len() - held.len(), one.len() as int) =~= held);
    assert(one.subrange(0, front.len() as int) =~= front);
    let two = solution.path
        + " holds several projects, so name the one to build with --project.\nIt holds: "@ + list;
    assert(two.subrange(two.len() - held.len(), two.len() as int) =~= held);
    solution::lemma_entry_found_by_name(solution, name);
}

/// A project needs a name, and a line that lists one needs both a name and a file.
pub proof fn lemma_no_project(kind: Seq<char>, file: Seq<char>)
    requires
        !kind.contains('='),
        !kind.contains(','),
        !file.contains(','),
    ensures
        solution::project_entry(kind) is None,
        solution::project_entry(kind.push('=') + file) is None,
        solution::project_entry(
            kind.push('=') + (seq![' ', '"', '"'].push(',') + file),
        ) is None,
{
    base::lemma_uncut(kind, '=');
    base::lemma_cut(kind, '=', file);
    base::lemma_uncut(file, ',');
    let blank = seq![' ', '"', '"'];
    assert(!blank.contains(','));
    base::lemma_cut(kind, '=', blank.push(',') + file);
    base::lemma_cut(blank, ',', file);
    let fields = text::split_at(blank.push(',') + file, ',');
    assert(fields =~= seq![blank, file]);
    let core = seq!['"', '"'];
    assert(seq![' '] + core + Seq::<char>::empty() =~= blank);
    base::lemma_trimmed(seq![' '], core, Seq::empty());
    assert(core.skip(1) =~= seq!['"']);
    assert(seq!['"'].skip(1) =~= Seq::<char>::empty());
    assert(text::without_leading(Seq::<char>::empty(), '"') =~= Seq::<char>::empty());
    assert(text::without_leading(seq!['"'], '"') =~= Seq::<char>::empty());
    assert(text::without_leading(core, '"') =~= Seq::<char>::empty());
    assert(text::without_trailing(Seq::<char>::empty(), '"') =~= Seq::<char>::empty());
    assert(solution::unquoted(blank).len() == 0);
}

/// A line that assigns nothing names no configuration, and neither does one that assigns
/// to nothing.
pub proof fn lemma_no_configuration(line: Seq<char>, front: Seq<char>, rest: Seq<char>)
    requires
        !line.contains('='),
        base::blank(front),
    ensures
        solution::platform_name(line) is None,
        solution::platform_name(front.push('=') + rest) is None,
{
    base::lemma_uncut(line, '=');
    assert(!front.contains('=')) by {
        if front.contains('=') {
            let i = choose|i: int| 0 <= i < front.len() && front[i] == '=';
            assert(text::is_white(front[i]));
        }
    }
    base::lemma_cut(front, '=', rest);
    let e = Seq::<char>::empty();
    assert(front + e + e =~= front);
    base::lemma_trimmed(front, e, e);
    base::lemma_uncut(e, '|');
    base::lemma_tight_kept(e);
}

/// An element that is not there, or holds nothing, says nothing.
pub proof fn lemma_no_element(xml: Seq<char>, tag: Seq<char>, blank: Seq<char>)
    requires
        !xml.contains('<'),
        base::blank(blank),
    ensures
        solution::element_text(xml, tag) is None,
        solution::element_text(
            xml + ("<"@ + tag + ">"@) + (blank + ("</"@ + tag + ">"@) + xml),
            tag,
        ) is None,
        solution::element_text(xml + ("<"@ + tag + ">"@) + xml, tag) is None,
{
    reveal_strlit("<");
    reveal_strlit("</");
    let open = "<"@ + tag + ">"@;
    let close = "</"@ + tag + ">"@;
    assert(open[0] == '<' && close[0] == '<');
    assert(open.contains('<') && close.contains('<'));
    base::lemma_no_text(xml, open, '<');
    base::lemma_no_text(xml, close, '<');
    base::lemma_cut_text_at_head(xml, open, blank + close + xml);
    base::lemma_cut_text_at_head(xml, open, xml);
    assert(!blank.contains('<')) by {
        if blank.contains('<') {
            let i = choose|i: int| 0 <= i < blank.len() && blank[i] == '<';
            assert(text::is_white(blank[i]));
        }
    }
    base::lemma_cut_text_at_head(blank, close, xml);
    let e = Seq::<char>::empty();
    assert(blank + e + e =~= blank);
    base::lemma_trimmed(blank, e, e);
}

/// An attribute that is not there has no value.
pub proof fn lemma_no_attribute(tag: Seq<char>, name: Seq<char>)
    requires
        !tag.contains('='),
    ensures
        solution::attribute_value(tag, name) is None,
{
    reveal_strlit("=\"");
    let mark = name + "=\""@;
    assert(mark[name.len() as int] == '=');
    assert(mark.contains('='));
    base::lemma_no_text(tag, mark, '=');
}

/// A directory for the output that does not start from that of the project lies in it.
pub proof fn lemma_output_beside_project(
    project: solution::ProjectView,
    names: Seq<Seq<char>>,
    configuration: Seq<char>,
)
    requires
        names.len() > 0,
        forall|i: int| 0 <= i < names.len() ==> is_name(#[trigger] names[i]),
        forall|i: int| 0 <= i < names.len() ==> !(#[trigger] names[i]).contains('$'),
        project.output_directory == text::joined(names, seq!['\\']),
        !path::directory(Host::Wsl, project.path).contains('$'),
        !project.name.contains('$'),
        !configuration.contains('$'),
    ensures
        solution::output_path(Host::Wsl, project, configuration) == below_directory(
            path::directory(Host::Wsl, project.path),
            text::joined(names, seq!['/']),
        ),
{
    let host = Host::Wsl;
    let directory = path::directory(host, project.path);
    let values = (directory, project.name, configuration);
    let template = project.output_directory;
    let pieces = seq![Piece::Text(template)];
    lemma_joined_without(names, '\\', '$');
    assert(pieces.skip(1) =~= Seq::<Piece>::empty());
    reveal_with_fuel(pieces_text, 2);
    assert(pieces_text(pieces, 0, values) =~= template);
    assert(pieces_text(pieces, 4, values) =~= template);
    lemma_template_filled(host, project, pieces, configuration);
    let found = solution::expanded(host, project, template, configuration);
    let rest = text::joined(names, seq!['/']);
    assert forall|i: int| 0 <= i < names.len() implies !(#[trigger] names[i]).contains('\\') by {
        assert(is_name(names[i]));
    }
    base::lemma_joined_swapped(names, '\\', '/');
    base::lemma_swapped(template, '\\', '/');
    assert(found =~= rest) by {
        assert forall|i: int| 0 <= i < rest.len() implies found[i] == rest[i] by {
            assert(found[i] == if template[i] == '\\' {
                '/'
            } else {
                template[i]
            });
            assert(text::swapped(template, '\\', '/')[i] == rest[i]);
        }
    }
    reveal_strlit("$(MSBuildProjectDirectory)");
    let mark = "$(MSBuildProjectDirectory)"@;
    assert(mark[0] == '$');
    assert(mark.contains('$'));
    base::lemma_no_text(template, mark, '$');
    assert(is_name(names[0]));
    lemma_joined_head(names, seq!['/']);
    assert(names[0].contains(names[0][0]));
    assert(rest[0] != '/');
}

proof fn lemma_joined_without(names: Seq<Seq<char>>, c: char, d: char)
    requires
        c != d,
        forall|i: int| 0 <= i < names.len() ==> !(#[trigger] names[i]).contains(d),
    ensures
        !text::joined(names, seq![c]).contains(d),
    decreases names.len(),
{
    let all = text::joined(names, seq![c]);
    if all.contains(d) {
        let k = choose|k: int| 0 <= k < all.len() && all[k] == d;
        if names.len() == 1 {
            assert(names[0].contains(d));
        } else {
            let front = names.drop_last();
            assert forall|i: int| 0 <= i < front.len() implies !(#[trigger] front[i]).contains(
                d,
            ) by {
                assert(front[i] == names[i]);
            }
            lemma_joined_without(front, c, d);
            let before = text::joined(front, seq![c]);
            let last = names[names.len() - 1];
            if k < before.len() {
                assert(before[k] == d);
            } else if k > before.len() {
                assert(last[k - before.len() - 1] == d);
            }
        }
    }
}

/// On Windows the project that an entry points at lies below the directory of the
/// solution as it is written.
pub proof fn lemma_project_on_windows(directory: Seq<char>, file: Seq<char>, entry: solution::EntryView)
    requires
        path::directory(Host::Windows, file) == directory,
        directory.len() > 3,
        text::is_letter(directory[0]),
        directory[1] == ':',
        directory[2] == '\\',
        directory.last() != '\\' && directory.last() != '/',
        is_name(entry.relative_path),
        !entry.relative_path.contains(':'),
    ensures
        solution::entry_path(Host::Windows, file, entry) == directory + seq!['\\']
            + entry.relative_path,
{
    let rest = entry.relative_path;
    base::lemma_swapped(rest, '\\', '\\');
    assert(text::swapped(rest, '\\', '\\') =~= rest);
    assert(rest.contains(rest[0]));
    if rest.len() > 1 {
        assert(rest.contains(rest[1]));
    }
}

/// The properties that hold for all configurations are those of every group without a
/// condition, wherever it stands, and of no other.
pub proof fn lemma_properties_of_all(
    one: Seq<solution::GroupView>,
    other: Seq<solution::GroupView>,
    body: Seq<char>,
    condition: Seq<char>,
)
    ensures
        solution::global_bodies(one + other) == solution::global_bodies(one)
            + solution::global_bodies(other),
        solution::global_bodies(seq![(solution::GroupView { condition: None, body: body })])
            == seq![body],
        solution::global_bodies(
            seq![(solution::GroupView { condition: Some(condition), body: body })],
        ) == Seq::<Seq<char>>::empty(),
    decreases other.len(),
{
    let plain = seq![solution::GroupView { condition: None, body: body }];
    let held = seq![solution::GroupView { condition: Some(condition), body: body }];
    let e = Seq::<solution::GroupView>::empty();
    assert(solution::global_bodies(e) =~= Seq::<Seq<char>>::empty());
    assert(plain.drop_last() =~= e);
    assert(held.drop_last() =~= e);
    assert(solution::global_bodies(plain) =~= seq![body]);
    if other.len() == 0 {
        assert(one + other =~= one);
        assert(other =~= e);
        assert(solution::global_bodies(one) + Seq::<Seq<char>>::empty()
            =~= solution::global_bodies(one));
    } else {
        let front = other.drop_last();
        lemma_properties_of_all(one, front, body, condition);
        assert((one + other).drop_last() =~= one + front);
        assert((one + other).last() == other.last());
        assert(solution::global_bodies(one + other) =~= solution::global_bodies(one)
            + solution::global_bodies(other));
    }
}

/// A property that any group without a condition sets is a property of the project, the
/// first of several.
pub proof fn lemma_property_found(
    xml: Seq<char>,
    path: Seq<char>,
    name: Seq<char>,
    bodies: Seq<Seq<char>>,
)
    requires
        solution::global_bodies(solution::groups_of(xml)) == bodies,
    ensures
        ({
            let found = solution::project_of(xml, path, name);
            let all = text::joined(bodies, seq!['\n']);
            &&& found.device == solution::element_text(all, "avrdevice"@)
            &&& solution::element_text(all, "OutputDirectory"@) matches Some(held)
                ==> found.output_directory == held
            &&& solution::element_text(all, "OutputFileName"@) matches Some(held)
                ==> found.output_file_name == held
        }),
{
    reveal_strlit("\n");
    assert("\n"@ =~= seq!['\n']);
}

/// The configurations of a project are those that the conditions of its groups name, each
/// once, in the order in which they are first named.
pub proof fn lemma_configurations_named(
    groups: Seq<solution::GroupView>,
    body: Seq<char>,
    condition: Seq<char>,
)
    ensures
        solution::group_configurations(
            groups.push((solution::GroupView { condition: None, body: body })),
        ) == solution::group_configurations(groups),
        solution::group_configurations(
            groups.push((solution::GroupView { condition: Some(condition), body: body })),
        ) == match solution::condition_name(condition) {
            Some(name) => if solution::group_configurations(groups).contains(name) {
                solution::group_configurations(groups)
            } else {
                solution::group_configurations(groups).push(name)
            },
            None => solution::group_configurations(groups),
        },
        solution::group_configurations(Seq::empty()).len() == 0,
{
    let plain = groups.push(solution::GroupView { condition: None, body: body });
    let held = groups.push(solution::GroupView { condition: Some(condition), body: body });
    assert(plain.drop_last() =~= groups);
    assert(held.drop_last() =~= groups);
}

/// Blanks around the name of a configuration are no part of it, inside the quotes of a
/// condition and before the platform.
pub proof fn lemma_blanks_around_configuration(
    front: Seq<char>,
    name: Seq<char>,
    back: Seq<char>,
    rest: Seq<char>,
    value: Seq<char>,
)
    requires
        base::blank(front),
        base::blank(back),
        name.len() > 0,
        base::tight(name),
        !name.contains('\''),
        !name.contains('|'),
        !name.contains('='),
        !rest.contains('='),
    ensures
        solution::condition_name(
            "'$(Configuration)'"@ + "=="@ + (seq!['\''] + (front + name + back) + seq!['\'']),
        ) == Some(name),
        solution::platform_name(((name + back).push('|') + rest).push('=') + value) == Some(name),
{
    reveal_strlit("'$(Configuration)'");
    reveal_strlit("$(Configuration)");
    reveal_strlit("==");
    let left = "'$(Configuration)'"@;
    let inner = front + name + back;
    let right = seq!['\''] + inner + seq!['\''];
    base::lemma_cut_text_at_head(left, "=="@, right);
    assert(left =~= seq!['\''] + "$(Configuration)"@ + seq!['\'']);
    base::lemma_cut_text_at_head(seq!['\''], "$(Configuration)"@, seq!['\'']);
    base::lemma_tight_kept(right);
    assert(inner[0] != '\'' && inner.last() != '\'') by {
        assert(name.contains(name[0]) && name.contains(name.last()));
        if front.len() > 0 {
            assert(text::is_white(front[0]));
        }
        if back.len() > 0 {
            assert(text::is_white(back[back.len() - 1]));
        }
    }
    base::lemma_without_around(seq!['\''], inner, seq!['\''], '\'');
    base::lemma_trimmed(front, name, back);
    lemma_blank_before_platform(name, back, rest, value);
}

proof fn lemma_blank_before_platform(
    name: Seq<char>,
    back: Seq<char>,
    rest: Seq<char>,
    value: Seq<char>,
)
    requires
        base::blank(back),
        name.len() > 0,
        base::tight(name),
        !name.contains('|'),
        !name.contains('='),
        !rest.contains('='),
    ensures
        solution::platform_name(((name + back).push('|') + rest).push('=') + value) == Some(name),
{
    let wide = name + back;
    assert forall|c: char| c == '|' || c == '=' implies !wide.contains(c) by {
        if wide.contains(c) {
            let i = choose|i: int| 0 <= i < wide.len() && wide[i] == c;
            if i < name.len() {
                assert(name[i] == c);
            } else {
                assert(text::is_white(back[i - name.len()]));
            }
        }
    }
    let left = wide.push('|') + rest;
    assert(!left.contains('=')) by {
        if left.contains('=') {
            let i = choose|i: int| 0 <= i < left.len() && left[i] == '=';
            if i < wide.len() {
                assert(wide[i] == '=');
            } else if i > wide.len() {
                assert(rest[i - wide.len() - 1] == '=');
            }
        }
    }
    base::lemma_cut(left, '=', value);
    let (a, b) = base::lemma_trimmed_is_tight(left);
    let bare = text::trimmed(left);
    assert(a == 0) by {
        if a > 0 {
            assert(left.take(a)[0] == name[0]);
        }
    }
    assert(b > wide.len()) by {
        if b <= wide.len() {
            let tail = left.skip(b);
            assert(tail[wide.len() - b] == '|');
        }
    }
    let after = bare.skip(wide.len() as int + 1);
    assert(bare =~= wide.push('|') + after);
    base::lemma_cut(wide, '|', after);
    let e = Seq::<char>::empty();
    assert(e + name + back =~= wide);
    base::lemma_trimmed(e, name, back);
}

} // verus!
