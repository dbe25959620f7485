//! Laws on paths.

use vstd::prelude::*;

use crate::config;
use crate::host::Host;
use crate::order;
use crate::path;
use crate::path::{Form, Kind};
use crate::text;

verus! {

/// Whether a text is the name of a file or a directory, and not one that means this
/// directory or the one above.
pub open spec fn is_name(s: Seq<char>) -> bool {
    s.len() > 0 && !s.contains('/') && !s.contains('\\') && s != seq!['.'] && s != seq!['.', '.']
}

/// Whether a text is a directory by itself: one that a name may follow. On Windows it
/// lies on a drive.
pub open spec fn is_base(host: Host, s: Seq<char>) -> bool {
    match host {
        Host::Windows => s.len() >= 3 && text::is_letter(s[0]) && s[1] == ':' && s[2] == '\\',
        Host::Wsl => s.len() > 0,
    }
}

/// Whether a text is empty or ends in a separator, so that a name may follow.
pub open spec fn is_open(host: Host, s: Seq<char>) -> bool {
    s.len() == 0 || s.last() == path::separator(host)
}

proof fn lemma_on_drive(s: Seq<char>)
    requires
        is_base(Host::Windows, s),
    ensures
        !path::verbatim(Host::Windows, s),
        path::form(Host::Windows, s) == Form::Drive,
        path::prefix_len(Host::Windows, s) == 2,
        path::has_separator_root(Host::Windows, s),
        path::absolute(Host::Windows, s),
        path::body_start(Host::Windows, s) == 3,
{
}

proof fn lemma_on_linux(s: Seq<char>)
    ensures
        !path::verbatim(Host::Wsl, s),
        path::form(Host::Wsl, s) == Form::Nothing,
        path::prefix_len(Host::Wsl, s) == 0,
{
}

/// A name at the end of a path is its last part.
proof fn lemma_last_name(host: Host, s: Seq<char>, k: int, from: int)
    requires
        0 <= from <= k < s.len(),
        !path::verbatim(host, s),
        k > 0 ==> path::separates(host, s[k - 1]) || from == k,
        is_name(s.skip(k)),
    ensures
        path::names(host, s, from).len() > 0,
        path::names(host, s, from).last() == (path::PartView {
            kind: Kind::Name,
            start: k,
            end: s.len() as int,
        }),
    decreases k - from,
{
    path::lemma_name_end(host, s, from);
    let end = path::name_end(host, s, from);
    let name = s.skip(k);
    if from == k {
        assert(end == s.len()) by {
            if end < s.len() {
                assert(name[end - k] == s[end]);
                assert(name.contains(s[end]));
            }
        }
        if path::is_dot(s, k, end) {
            assert(name =~= seq!['.']);
        }
        assert(path::names(host, s, end + 1) == Seq::<path::PartView>::empty());
    } else {
        assert(end <= k - 1) by {
            if end > k - 1 {
                assert(!path::divides(host, s, s[k - 1]));
            }
        }
        lemma_last_name(host, s, k, end + 1);
        let rest = path::names(host, s, end + 1);
        if !path::is_blank(host, s, from, end) {
            let all = seq![path::named_part(s, from, end)] + rest;
            assert(all.last() == rest.last());
        }
    }
}

/// The parts of a path with a name behind it are those of the path and then the name.
proof fn lemma_names_then(host: Host, d: Seq<char>, n: Seq<char>, from: int)
    requires
        0 <= from <= d.len(),
        is_name(n),
        path::verbatim(host, d) == path::verbatim(host, d + seq![path::separator(host)] + n),
    ensures
        path::names(host, d + seq![path::separator(host)] + n, from) == path::names(
            host,
            d,
            from,
        ).push(
            (path::PartView {
                kind: Kind::Name,
                start: d.len() as int + 1,
                end: d.len() + 1 + n.len() as int,
            }),
        ),
    decreases d.len() - from,
{
    let c = path::separator(host);
    let s = d + seq![c] + n;
    let last = path::PartView {
        kind: Kind::Name,
        start: d.len() as int + 1,
        end: d.len() + 1 + n.len() as int,
    };
    let k = d.len() as int + 1;
    assert(s.skip(k) =~= n);
    path::lemma_name_end(host, s, k);
    let stop = path::name_end(host, s, k);
    assert(stop == s.len()) by {
        if stop < s.len() {
            assert(n[stop - k] == s[stop]);
            assert(n.contains(s[stop]));
        }
    }
    if path::is_dot(s, k, stop) {
        assert(n =~= seq!['.']);
    }
    assert(path::names(host, s, stop + 1) == Seq::<path::PartView>::empty());
    assert(path::names(host, s, k) =~= seq![last]);
    path::lemma_name_end(host, s, from);
    if from == d.len() {
        assert(s[from] == c);
        assert(path::name_end(host, s, from) == from);
        assert(path::names(host, s, from) == path::names(host, s, k));
        assert(path::names(host, d, from) == Seq::<path::PartView>::empty());
    } else {
        path::lemma_name_end(host, d, from);
        let end = path::name_end(host, d, from);
        assert(path::name_end(host, s, from) == end) by {
            let other = path::name_end(host, s, from);
            if other < end {
                assert(s[other] == d[other]);
                assert(!path::divides(host, d, d[other]));
            } else if end < other {
                if end < d.len() {
                    assert(s[end] == d[end]);
                    assert(!path::divides(host, s, s[end]));
                } else {
                    assert(s[end] == c);
                    assert(!path::divides(host, s, s[end]));
                }
            }
        }
        assert(path::named_part(s, from, end) == path::named_part(d, from, end));
        if end < d.len() {
            lemma_names_then(host, d, n, end + 1);
            if !path::is_blank(host, d, from, end) {
                assert(path::names(host, s, from) =~= path::names(host, d, from).push(last));
            }
        } else {
            assert(path::names(host, d, end + 1) == Seq::<path::PartView>::empty());
            assert(path::names(host, s, end + 1) =~= seq![last]);
            if !path::is_blank(host, d, from, end) {
                assert(path::names(host, s, from) =~= path::names(host, d, from).push(last));
            }
        }
    }
}

/// The parts of a file in a directory are those of the directory and then its name.
proof fn lemma_parts_then(host: Host, d: Seq<char>, n: Seq<char>)
    requires
        is_base(host, d),
        is_name(n),
    ensures
        path::parts(host, d + seq![path::separator(host)] + n) == path::parts(host, d).push(
            (path::PartView {
                kind: Kind::Name,
                start: d.len() as int + 1,
                end: d.len() + 1 + n.len() as int,
            }),
        ),
        path::parts(host, d).len() > 0,
        path::parts(host, d)[0].end > 0,
{
    let s = d + seq![path::separator(host)] + n;
    assert(s[0] == d[0]);
    match host {
        Host::Windows => {
            assert(s[1] == d[1] && s[2] == d[2]);
            lemma_on_drive(s);
            lemma_on_drive(d);
            lemma_names_then(host, d, n, 3);
        },
        Host::Wsl => {
            lemma_on_linux(s);
            lemma_on_linux(d);
            assert(path::starts_here(host, s) == path::starts_here(host, d));
            lemma_names_then(host, d, n, path::body_start(host, d));
            if path::body_start(host, d) == 0 {
                path::lemma_name_end(host, d, 0);
                let end = path::name_end(host, d, 0);
                assert(end > 0) by {
                    assert(!path::divides(host, d, d[0]));
                }
                assert(!path::is_dot(d, 0, end)) by {
                    if path::is_dot(d, 0, end) {
                        assert(d.len() == 1 || path::separates(host, d[1]));
                    }
                }
            }
        },
    }
    let all = path::parts(host, d);
    assert(path::parts(host, s) =~= all.push(
        path::PartView {
            kind: Kind::Name,
            start: d.len() as int + 1,
            end: d.len() + 1 + n.len() as int,
        },
    ));
}

/// A path that ends in a name ends where that name ends.
proof fn lemma_ends_in_name(host: Host, front: Seq<char>, m: Seq<char>)
    requires
        is_open(host, front),
        is_name(m),
        is_base(host, front + m),
        host == Host::Windows ==> front.len() >= 3,
    ensures
        path::parts(host, front + m).len() > 0,
        path::parts(host, front + m).last() == (path::PartView {
            kind: Kind::Name,
            start: front.len() as int,
            end: front.len() + m.len() as int,
        }),
{
    let s = front + m;
    let k = front.len() as int;
    assert(s.skip(k) =~= m);
    let start = path::body_start(host, s);
    match host {
        Host::Windows => {
            lemma_on_drive(s);
            assert(s[k - 1] == front.last());
        },
        Host::Wsl => {
            lemma_on_linux(s);
            if k == 0 {
                assert(m.contains(m[0]));
                assert(!path::starts_here(host, s)) by {
                    if path::starts_here(host, s) {
                        if s.len() > 1 {
                            assert(m.contains(m[1]));
                        } else {
                            assert(m =~= seq!['.']);
                        }
                    }
                }
            } else {
                assert(s[k - 1] == front.last());
            }
        },
    }
    lemma_last_name(host, s, k, start);
    let head = path::head(host, s);
    let rest = path::names(host, s, start);
    assert((head + rest).last() == rest.last());
}

/// A file has the name that it was given, in the directory that it was put in.
pub proof fn lemma_file_in_directory(host: Host, front: Seq<char>, m: Seq<char>, n: Seq<char>)
    requires
        is_open(host, front),
        is_name(m),
        is_base(host, front + m),
        host == Host::Windows ==> front.len() >= 3,
        is_name(n),
        host == Host::Windows ==> !n.contains(':'),
    ensures
        ({
            let directory = front + m;
            let file = directory + seq![path::separator(host)] + n;
            &&& path::joined(host, directory, n) == file
            &&& path::file_name(host, file) == Some(n)
            &&& path::parent(host, file) == Some(directory)
            &&& path::directory(host, file) == directory
        }),
{
    let d = front + m;
    let s = d + seq![path::separator(host)] + n;
    lemma_ends_in_name(host, front, m);
    lemma_parts_then(host, d, n);
    let all = path::parts(host, s);
    assert(all.last().start == d.len() + 1);
    assert(s.subrange(d.len() as int + 1, s.len() as int) =~= n);
    lemma_dots();
    assert(all[all.len() - 2] == path::parts(host, d).last());
    assert(s.take(d.len() as int) =~= d);
    if n.len() > 1 {
        assert(n.contains(n[1]));
    }
    lemma_relative(host, n);
    assert(d.last() == m.last());
    assert(m.contains(m.last()));
    match host {
        Host::Windows => lemma_on_drive(d),
        Host::Wsl => lemma_on_linux(d),
    }
}

proof fn lemma_dots()
    ensures
        ".."@ == seq!['.', '.'],
        "."@ == seq!['.'],
{
    reveal_strlit("..");
    reveal_strlit(".");
    assert(".."@ =~= seq!['.', '.']);
    assert("."@ =~= seq!['.']);
}

/// A name is neither absolute nor on a drive of its own.
proof fn lemma_relative(host: Host, n: Seq<char>)
    requires
        is_name(n),
    ensures
        host == Host::Wsl || !(n.len() >= 2 && text::is_letter(n[0]) && n[1] == ':') ==> {
            &&& path::prefix_len(host, n) == 0
            &&& !path::has_root(host, n)
            &&& !path::absolute(host, n)
        },
{
    assert(n.contains(n[0]));
    if n.len() > 1 {
        assert(n.contains(n[1]));
    }
}

/// A path that starts at the top is where it says, whatever it is joined to; and what is
/// read from a configuration file is taken from where that file lies.
pub proof fn lemma_absolute_stays(directory: Seq<char>, file: Seq<char>)
    requires
        file.len() > 0,
    ensures
        file[0] == '/' ==> path::joined(Host::Wsl, directory, file) == file,
        file[0] == '/' ==> config::resolved(Host::Wsl, Some(directory), file) == file,
        is_base(Host::Windows, file) ==> path::joined(Host::Windows, directory, file) == file,
        is_base(Host::Windows, file) ==> config::resolved(Host::Windows, Some(directory), file)
            == file,
        file[0] != '/' && directory.len() > 0 && directory.last() != '/' ==> config::resolved(
            Host::Wsl,
            Some(directory),
            file,
        ) == directory + seq!['/'] + file,
        file[0] != '/' ==> config::resolved(Host::Wsl, None, file) == file,
        is_base(Host::Windows, directory) && file[0] == '\\' && (file.len() == 1 || !path::separates(
            Host::Windows,
            file[1],
        )) ==> config::resolved(Host::Windows, Some(directory), file) == directory.take(2) + file,
{
    if is_base(Host::Windows, directory) {
        lemma_on_drive(directory);
    }
    lemma_on_linux(file);
    lemma_on_linux(directory);
    if is_base(Host::Windows, file) {
        lemma_on_drive(file);
    }
}

/// A name is its stem and its extension with a dot between them. A dot at its head starts
/// no extension.
pub proof fn lemma_stem_and_extension(front: Seq<char>, extension: Seq<char>)
    requires
        front.len() > 0,
        !extension.contains('.'),
    ensures
        path::stem(front + seq!['.'] + extension) == front,
        path::suffix(front + seq!['.'] + extension) == Some(extension),
        path::stem(extension) == extension,
        path::suffix(extension) is None,
        path::stem(seq!['.'] + extension) == seq!['.'] + extension,
        path::suffix(seq!['.'] + extension) is None,
{
    let name = front + seq!['.'] + extension;
    let k = front.len() as int;
    name.index_of_last_ensures('.');
    assert(name[k] == '.');
    assert(name.contains('.'));
    assert(name.index_of_last('.') == Some(k)) by {
        let i = name.index_of_last('.')->0;
        if i > k {
            assert(extension[i - k - 1] == '.');
        }
    }
    assert(name.take(k) =~= front);
    assert(name.skip(k + 1) =~= extension);
    extension.index_of_last_ensures('.');
    let hidden = seq!['.'] + extension;
    hidden.index_of_last_ensures('.');
    assert(hidden[0] == '.');
    assert(hidden.contains('.'));
    assert(hidden.index_of_last('.') == Some(0int)) by {
        let i = hidden.index_of_last('.')->0;
        if i > 0 {
            assert(extension[i - 1] == '.');
        }
    }
}

/// A directory is above every file that lies in it, and the directories above it are
/// above that file too.
pub proof fn lemma_ancestors_go_up(host: Host, front: Seq<char>, m: Seq<char>, n: Seq<char>)
    requires
        is_open(host, front),
        is_name(m),
        is_base(host, front + m),
        host == Host::Windows ==> front.len() >= 3,
        is_name(n),
        host == Host::Windows ==> !n.contains(':'),
    ensures
        ({
            let directory = front + m;
            let file = directory + seq![path::separator(host)] + n;
            path::ancestors(host, file) == seq![file] + path::ancestors(host, directory)
        }),
{
    lemma_file_in_directory(host, front, m, n);
}

/// The top has nothing above it.
pub proof fn lemma_nothing_above_the_top(drive: char)
    requires
        text::is_letter(drive),
    ensures
        path::ancestors(Host::Wsl, seq!['/']) == seq![seq!['/']],
        path::parent(Host::Wsl, seq!['/']) is None,
        path::parent(Host::Windows, seq![drive, ':', '\\']) is None,
        path::ancestors(Host::Windows, seq![drive, ':', '\\']) == seq![seq![drive, ':', '\\']],
{
    let root = seq!['/'];
    let top = seq![drive, ':', '\\'];
    lemma_on_linux(root);
    lemma_on_drive(top);
    assert(path::names(Host::Wsl, root, 1) == Seq::<path::PartView>::empty());
    assert(path::names(Host::Windows, top, 3) == Seq::<path::PartView>::empty());
    assert(path::parts(Host::Wsl, root).last().kind == Kind::Root);
    assert(path::parts(Host::Windows, top).last().kind == Kind::Root);
}

/// A file at the top lies in the top.
pub proof fn lemma_file_at_the_top(n: Seq<char>)
    requires
        is_name(n),
    ensures
        path::parent(Host::Wsl, seq!['/'] + n) == Some(seq!['/']),
        path::file_name(Host::Wsl, seq!['/'] + n) == Some(n),
        path::parent(Host::Wsl, n) == Some(Seq::<char>::empty()),
        path::file_name(Host::Wsl, n) == Some(n),
{
    let s = seq!['/'] + n;
    lemma_on_linux(s);
    lemma_on_linux(n);
    lemma_dots();
    lemma_ends_in_name(Host::Wsl, seq!['/'], n);
    assert(s.subrange(1, s.len() as int) =~= n);
    path::lemma_name_end(Host::Wsl, s, 1);
    let end = path::name_end(Host::Wsl, s, 1);
    assert(end == s.len()) by {
        if end < s.len() {
            assert(n[end - 1] == s[end]);
            assert(n.contains(s[end]));
        }
    }
    assert(path::names(Host::Wsl, s, end + 1) == Seq::<path::PartView>::empty());
    assert(path::is_dot(s, 1, end) ==> n =~= seq!['.']);
    assert(path::names(Host::Wsl, s, 1).len() == 1);
    assert(path::parts(Host::Wsl, s).len() == 2);
    assert(s.take(1) =~= seq!['/']);
    assert(Seq::<char>::empty() + n =~= n);
    lemma_ends_in_name(Host::Wsl, Seq::empty(), n);
    assert(n.contains(n[0]));
    path::lemma_name_end(Host::Wsl, n, 0);
    let stop = path::name_end(Host::Wsl, n, 0);
    assert(stop == n.len()) by {
        if stop < n.len() {
            assert(n.contains(n[stop]));
        }
    }
    assert(path::names(Host::Wsl, n, stop + 1) == Seq::<path::PartView>::empty());
    assert(!path::starts_here(Host::Wsl, n)) by {
        if path::starts_here(Host::Wsl, n) {
            if n.len() > 1 {
                assert(n.contains(n[1]));
            } else {
                assert(n =~= seq!['.']);
            }
        }
    }
    assert(path::parts(Host::Wsl, n).len() == 1);
    assert(n.subrange(0, n.len() as int) =~= n);
}

/// Names that follow a directory, with separators before each.
pub open spec fn inside(host: Host, directory: Seq<char>, names: Seq<Seq<char>>) -> Seq<char>
    decreases names.len(),
{
    if names.len() == 0 {
        directory
    } else {
        inside(host, directory, names.drop_last()) + seq![path::separator(host)] + names.last()
    }
}

proof fn lemma_inside(host: Host, d: Seq<char>, names: Seq<Seq<char>>)
    requires
        is_base(host, d),
        forall|i: int| 0 <= i < names.len() ==> is_name(#[trigger] names[i]),
    ensures
        ({
            let s = inside(host, d, names);
            let all = path::parts(host, s);
            let front = path::parts(host, d);
            &&& is_base(host, s)
            &&& s.len() >= d.len()
            &&& s.take(d.len() as int) == d
            &&& all.len() == front.len() + names.len()
            &&& all.take(front.len() as int) == front
            &&& names.len() > 0 ==> s.len() > d.len() + 1 && all[front.len() as int].start
                == d.len() + 1 && all.last().end == s.len()
            &&& s.skip(d.len() as int) == separated(host, names)
        }),
    decreases names.len(),
{
    let s = inside(host, d, names);
    if names.len() == 0 {
        assert(s.take(d.len() as int) =~= d);
        assert(path::parts(host, d).take(path::parts(host, d).len() as int) =~= path::parts(
            host,
            d,
        ));
        assert(s.skip(d.len() as int) =~= separated(host, names));
    } else {
        let before = names.drop_last();
        let n = names.last();
        assert forall|i: int| 0 <= i < before.len() implies is_name(#[trigger] before[i]) by {
            assert(before[i] == names[i]);
        }
        lemma_inside(host, d, before);
        let t = inside(host, d, before);
        assert(is_name(names[names.len() - 1]));
        lemma_parts_then(host, t, n);
        let front = path::parts(host, d);
        let held = path::parts(host, t);
        let all = path::parts(host, s);
        assert(s[0] == t[0]);
        if host == Host::Windows {
            assert(s[1] == t[1] && s[2] == t[2]);
        }
        assert(s.take(d.len() as int) =~= t.take(d.len() as int));
        assert(all.take(front.len() as int) =~= held.take(front.len() as int));
        if before.len() == 0 {
            assert(all[front.len() as int] == all.last());
        } else {
            assert(all[front.len() as int] == held[front.len() as int]);
        }
        assert(s.skip(d.len() as int) =~= t.skip(d.len() as int) + seq![path::separator(host)]
            + n);
    }
}

/// Names with a separator before each.
pub open spec fn separated(host: Host, names: Seq<Seq<char>>) -> Seq<char>
    decreases names.len(),
{
    if names.len() == 0 {
        Seq::empty()
    } else {
        separated(host, names.drop_last()) + seq![path::separator(host)] + names.last()
    }
}

/// What lies in a directory is shown from there: the names that follow it. What does not
/// is shown whole, and so is the directory itself.
pub proof fn lemma_shown_from_directory(host: Host, directory: Seq<char>, names: Seq<Seq<char>>)
    requires
        is_base(host, directory),
        forall|i: int| 0 <= i < names.len() ==> is_name(#[trigger] names[i]),
    ensures
        names.len() > 0 ==> path::below(host, inside(host, directory, names), directory)
            == separated(host, names).skip(1),
        path::below(host, directory, directory) == directory,
{
    let s = inside(host, directory, names);
    lemma_inside(host, directory, names);
    if names.len() > 0 {
        let p = path::parts(host, s);
        let b = path::parts(host, directory);
        assert(path::lies_in(host, s, directory)) by {
            assert forall|i: int| 0 <= i < b.len() implies path::same_part(
                s,
                #[trigger] p[i],
                directory,
                b[i],
            ) by {
                assert(p.take(b.len() as int)[i] == b[i]);
                path::lemma_parts_within(host, directory);
                assert(path::within(b[i], directory.len() as int));
                assert(s.subrange(b[i].start, b[i].end) =~= s.take(directory.len() as int).subrange(
                    b[i].start,
                    b[i].end,
                ));
                lemma_same_drive(host, s, directory);
            }
        }
        let k = directory.len() as int;
        assert(s.subrange(k + 1, s.len() as int) =~= s.skip(k).skip(1));
    }
}

proof fn lemma_same_drive(host: Host, s: Seq<char>, d: Seq<char>)
    requires
        is_base(host, s),
        is_base(host, d),
        s.take(d.len() as int) == d,
        d.len() <= s.len(),
    ensures
        path::parts(host, d).len() > 0,
        forall|i: int|
            0 <= i < path::parts(host, d).len() && (#[trigger] path::parts(host, d)[i]).kind
                == Kind::Prefix ==> path::part_key(s, path::parts(host, d)[i]) == path::part_key(
                d,
                path::parts(host, d)[i],
            ),
{
    match host {
        Host::Windows => {
            lemma_on_drive(s);
            lemma_on_drive(d);
            assert(s.take(2) =~= d.take(2)) by {
                assert(s.take(d.len() as int)[0] == d[0]);
                assert(s.take(d.len() as int)[1] == d[1]);
            }
            assert(path::prefix_key(s) == path::prefix_key(d));
            assert(path::parts(host, d)[0].kind == Kind::Prefix);
        },
        Host::Wsl => {
            lemma_on_linux(d);
            let n = seq!['a'];
            assert(n[0] == 'a');
            assert(seq!['.'][0] == '.' && seq!['.', '.'].len() == 2);
            lemma_parts_then(host, d, n);
            assert(path::head(host, d).len() <= 1);
            lemma_no_prefix(host, d, path::body_start(host, d));
        },
    }
}

proof fn lemma_no_prefix(host: Host, s: Seq<char>, from: int)
    requires
        0 <= from,
    ensures
        forall|i: int|
            0 <= i < path::names(host, s, from).len() ==> (#[trigger] path::names(host, s, from)[i]).kind
                != Kind::Prefix,
    decreases s.len() + 1 - from,
{
    if from < s.len() {
        path::lemma_name_end(host, s, from);
        lemma_no_prefix(host, s, path::name_end(host, s, from) + 1);
    }
}

/// Files of one directory are listed by name.
pub proof fn lemma_listed_by_name(host: Host, directory: Seq<char>, a: Seq<char>, b: Seq<char>)
    requires
        is_base(host, directory),
        is_name(a),
        is_name(b),
    ensures
        ({
            let c = path::separator(host);
            path::path_before(host, directory + seq![c] + a, directory + seq![c] + b)
                == order::text_before(a, b)
        }),
{
    let c = path::separator(host);
    let x = directory + seq![c] + a;
    let y = directory + seq![c] + b;
    lemma_parts_then(host, directory, a);
    lemma_parts_then(host, directory, b);
    let d = path::parts(host, directory);
    lemma_keys_then(host, directory, a);
    lemma_keys_then(host, directory, b);
    let keys = path::path_keys(host, directory);
    let p = path::KeyView { rank: 9, name: a };
    let q = path::KeyView { rank: 9, name: b };
    lemma_common_keys(keys, p, q);
    order::lemma_text_before_total(a, b);
}

proof fn lemma_keys_then(host: Host, d: Seq<char>, n: Seq<char>)
    requires
        is_base(host, d),
        is_name(n),
    ensures
        path::path_keys(host, d + seq![path::separator(host)] + n) == path::path_keys(host, d).push(
            (path::KeyView { rank: 9, name: n }),
        ),
{
    let s = d + seq![path::separator(host)] + n;
    lemma_parts_then(host, d, n);
    lemma_dots();
    let all = path::parts(host, s);
    let front = path::parts(host, d);
    assert(s[0] == d[0]);
    if host == Host::Windows {
        assert(s[1] == d[1] && s[2] == d[2]);
    }
    assert(s.take(d.len() as int) =~= d);
    lemma_same_drive(host, s, d);
    path::lemma_parts_within(host, d);
    let keys = path::path_keys(host, s);
    let held = path::path_keys(host, d);
    assert(s.subrange(d.len() as int + 1, s.len() as int) =~= n);
    assert forall|i: int| 0 <= i < front.len() implies keys[i] == held[i] by {
        assert(path::within(front[i], d.len() as int));
        assert(all[i] == front[i]);
        assert(s.subrange(front[i].start, front[i].end) =~= d.subrange(
            front[i].start,
            front[i].end,
        ));
    }
    assert(keys =~= held.push(path::KeyView { rank: 9, name: n }));
}

proof fn lemma_common_keys(keys: Seq<path::KeyView>, p: path::KeyView, q: path::KeyView)
    ensures
        path::keys_before(keys.push(p), keys.push(q)) == (p != q && path::key_before(p, q)),
    decreases keys.len(),
{
    let a = keys.push(p);
    let b = keys.push(q);
    if keys.len() == 0 {
        assert(a[0] == p && b[0] == q);
        assert(a.skip(1) =~= Seq::<path::KeyView>::empty());
        assert(b.skip(1) =~= Seq::<path::KeyView>::empty());
        assert(!path::keys_before(a.skip(1), b.skip(1)));
    } else {
        assert(a[0] == keys[0] && b[0] == keys[0]);
        assert(a.skip(1) =~= keys.skip(1).push(p));
        assert(b.skip(1) =~= keys.skip(1).push(q));
        lemma_common_keys(keys.skip(1), p, q);
    }
}

/// A path on a share of a server starts with both.
pub proof fn lemma_share(server: Seq<char>, share: Seq<char>, rest: Seq<char>)
    requires
        is_name(server),
        is_name(share),
        server != seq!['?'],
    ensures
        ({
            let front = seq!['\\', '\\'] + server + seq!['\\'] + share;
            let path = front + seq!['\\'] + rest;
            &&& path::prefix_len(Host::Windows, path) == front.len()
            &&& path::absolute(Host::Windows, path)
            &&& path::form(Host::Windows, path) == Form::Share
        }),
{
    let host = Host::Windows;
    let front = seq!['\\', '\\'] + server + seq!['\\'] + share;
    let s = front + seq!['\\'] + rest;
    assert(s[0] == '\\' && s[1] == '\\');
    let a = 2 + server.len() as int;
    assert(s[a] == '\\');
    assert(s[2] == server[0]);
    if server.len() == 1 {
        assert(server =~= seq![server[0]]);
        assert(server[0] != '?' && server[0] != '.');
    } else {
        assert(s[3] == server[1]);
        assert(server.contains(server[1]));
    }
    assert(!path::verbatim(host, s));
    assert(!path::has_device(host, s));
    path::lemma_name_end(host, s, 2);
    assert(path::name_end(host, s, 2) == a) by {
        let e = path::name_end(host, s, 2);
        if e < a {
            assert(s[e] == server[e - 2]);
            assert(server.contains(server[e - 2]));
        } else if e > a {
            assert(!path::divides(host, s, s[a]));
        }
    }
    let b = front.len() as int;
    assert(s[b] == '\\');
    path::lemma_name_end(host, s, a + 1);
    assert(path::name_end(host, s, a + 1) == b) by {
        let e = path::name_end(host, s, a + 1);
        if e < b {
            assert(s[e] == share[e - a - 1]);
            assert(share.contains(share[e - a - 1]));
        } else if e > b {
            assert(!path::divides(host, s, s[b]));
        }
    }
}

/// The head of a path that is taken as it is written, on a drive.
pub open spec fn written_top(drive: char) -> Seq<char> {
    seq!['\\', '\\', '?', '\\', drive, ':']
}

proof fn lemma_written(drive: char, s: Seq<char>)
    requires
        text::is_letter(drive),
        s.len() >= 7,
        s.take(6) == written_top(drive),
        s[6] == '\\',
    ensures
        path::verbatim(Host::Windows, s),
        path::form(Host::Windows, s) == Form::WrittenDrive,
        path::prefix_len(Host::Windows, s) == 6,
        path::has_separator_root(Host::Windows, s),
        path::absolute(Host::Windows, s),
        path::body_start(Host::Windows, s) == 7,
{
    let t = s.take(6);
    assert(s[0] == t[0] && s[1] == t[1] && s[2] == t[2] && s[3] == t[3] && s[4] == t[4] && s[5]
        == t[5]);
}

/// The pieces of a written path.
spec fn pieces_of(drive: char, names: Seq<Seq<char>>) -> Seq<path::PieceView>
    decreases names.len(),
{
    if names.len() == 0 {
        seq![
            path::PieceView { kind: Kind::Prefix, name: written_top(drive) },
            path::PieceView { kind: Kind::Root, name: seq!['\\'] },
        ]
    } else {
        pieces_of(drive, names.drop_last()).push(
            path::PieceView { kind: Kind::Name, name: names.last() },
        )
    }
}

proof fn lemma_pieces_of(drive: char, names: Seq<Seq<char>>)
    ensures
        pieces_of(drive, names).len() == names.len() + 2,
        names.len() == 0 ==> pieces_of(drive, names).last().kind == Kind::Root,
        names.len() > 0 ==> pieces_of(drive, names).last() == (path::PieceView {
            kind: Kind::Name,
            name: names.last(),
        }),
    decreases names.len(),
{
    if names.len() > 0 {
        lemma_pieces_of(drive, names.drop_last());
    }
}

proof fn lemma_top_pieces(drive: char)
    requires
        text::is_letter(drive),
    ensures
        ({
            let s = written_top(drive) + seq!['\\'];
            &&& s.take(6) == written_top(drive)
            &&& path::path_pieces(Host::Windows, s) == pieces_of(drive, Seq::empty())
        }),
{
    let host = Host::Windows;
    let top = written_top(drive);
    let s = top + seq!['\\'];
    assert(s.take(6) =~= top);
    lemma_written(drive, s);
    assert(path::names(host, s, 7) == Seq::<path::PartView>::empty());
    let a = path::PartView { kind: Kind::Prefix, start: 0, end: 6 };
    let b = path::PartView { kind: Kind::Root, start: 6, end: 7 };
    assert(path::head(host, s) =~= seq![a, b]);
    assert(path::parts(host, s) =~= seq![a, b]);
    assert(s.subrange(0, 6) =~= top);
    assert(path::path_pieces(host, s) =~= pieces_of(drive, Seq::empty()));
}

proof fn lemma_top_written(drive: char)
    ensures
        path::written(pieces_of(drive, Seq::empty())) == written_top(drive) + seq!['\\'],
{
    let pieces = pieces_of(drive, Seq::empty());
    let prefix = path::PieceView { kind: Kind::Prefix, name: written_top(drive) };
    let e = Seq::<path::PieceView>::empty();
    assert(pieces.drop_last() =~= seq![prefix]);
    assert(seq![prefix].drop_last() =~= e);
    assert(path::written(e) =~= Seq::<char>::empty());
    assert(path::written(seq![prefix]) =~= written_top(drive));
}

/// Where a path has one part more than another that it starts with, it has one piece more.
proof fn lemma_piece_more(d: Seq<char>, s: Seq<char>, n: Seq<char>)
    requires
        d.len() < s.len(),
        n.len() < s.len(),
        s.take(d.len() as int) == d,
        s.skip(s.len() - n.len()) == n,
        path::parts(Host::Windows, s) == path::parts(Host::Windows, d).push(
            (path::PartView {
                kind: Kind::Name,
                start: s.len() - n.len(),
                end: s.len() as int,
            }),
        ),
    ensures
        path::path_pieces(Host::Windows, s) == path::path_pieces(Host::Windows, d).push(
            (path::PieceView { kind: Kind::Name, name: n }),
        ),
{
    let host = Host::Windows;
    let front = path::parts(host, d);
    let held = path::path_pieces(host, d);
    let pieces = path::path_pieces(host, s);
    path::lemma_parts_within(host, d);
    assert forall|i: int| 0 <= i < held.len() implies pieces[i] == held[i] by {
        assert(path::within(front[i], d.len() as int));
        assert(s.subrange(front[i].start, front[i].end) =~= s.take(d.len() as int).subrange(
            front[i].start,
            front[i].end,
        ));
    }
    assert(s.subrange(s.len() - n.len(), s.len() as int) =~= n);
    assert(pieces =~= held.push(path::PieceView { kind: Kind::Name, name: n }));
}

proof fn lemma_first_name_part(drive: char, n: Seq<char>)
    requires
        text::is_letter(drive),
        is_name(n),
    ensures
        ({
            let d = written_top(drive) + seq!['\\'];
            let s = d + n;
            path::parts(Host::Windows, s) == path::parts(Host::Windows, d).push(
                (path::PartView { kind: Kind::Name, start: 7, end: s.len() as int }),
            )
        }),
{
    let host = Host::Windows;
    let d = written_top(drive) + seq!['\\'];
    let s = d + n;
    assert(d.take(6) =~= written_top(drive));
    assert(s.take(6) =~= written_top(drive));
    assert(s[6] == '\\');
    lemma_written(drive, d);
    lemma_written(drive, s);
    path::lemma_name_end(host, s, 7);
    let end = path::name_end(host, s, 7);
    assert(end == s.len()) by {
        if end < s.len() {
            assert(n[end - 7] == s[end]);
            assert(n.contains(s[end]));
        }
    }
    if path::is_dot(s, 7, end) {
        assert(n =~= seq!['.']);
    }
    assert(path::names(host, s, end + 1) == Seq::<path::PartView>::empty());
    let part = path::PartView { kind: Kind::Name, start: 7, end: end };
    assert(path::names(host, s, 7) =~= seq![part]);
    assert(path::names(host, d, 7) == Seq::<path::PartView>::empty());
    assert(path::head(host, s) =~= path::head(host, d));
    assert(path::parts(host, s) =~= path::parts(host, d).push(part));
}

proof fn lemma_next_name_part(drive: char, d: Seq<char>, n: Seq<char>)
    requires
        text::is_letter(drive),
        d.len() >= 7,
        d.take(6) == written_top(drive),
        d[6] == '\\',
        is_name(n),
    ensures
        ({
            let s = d + seq!['\\'] + n;
            &&& s.take(6) == written_top(drive)
            &&& s[6] == '\\'
            &&& path::parts(Host::Windows, s) == path::parts(Host::Windows, d).push(
                (path::PartView {
                    kind: Kind::Name,
                    start: s.len() - n.len(),
                    end: s.len() as int,
                }),
            )
        }),
{
    let host = Host::Windows;
    let s = d + seq!['\\'] + n;
    assert(s.take(6) =~= d.take(6));
    lemma_written(drive, d);
    lemma_written(drive, s);
    lemma_names_then(host, d, n, 7);
    assert(path::head(host, s) =~= path::head(host, d));
    let part = path::PartView {
        kind: Kind::Name,
        start: s.len() - n.len(),
        end: s.len() as int,
    };
    assert(path::parts(host, s) =~= path::parts(host, d).push(part));
}

proof fn lemma_written_pieces(drive: char, names: Seq<Seq<char>>)
    requires
        text::is_letter(drive),
        forall|i: int| 0 <= i < names.len() ==> is_name(#[trigger] names[i]),
    ensures
        written_path(drive, names).len() >= 7,
        written_path(drive, names).take(6) == written_top(drive),
        written_path(drive, names)[6] == '\\',
        path::path_pieces(Host::Windows, written_path(drive, names)) == pieces_of(drive, names),
        path::written(pieces_of(drive, names)) == written_path(drive, names),
    decreases names.len(),
{
    let host = Host::Windows;
    let s = written_path(drive, names);
    lemma_top_pieces(drive);
    lemma_top_written(drive);
    if names.len() == 0 {
        assert(names =~= Seq::<Seq<char>>::empty());
    } else {
        let before = names.drop_last();
        let n = names.last();
        assert forall|i: int| 0 <= i < before.len() implies is_name(#[trigger] before[i]) by {
            assert(before[i] == names[i]);
        }
        lemma_written_pieces(drive, before);
        assert(is_name(names[names.len() - 1]));
        let d = written_path(drive, before);
        let held = pieces_of(drive, before);
        lemma_pieces_of(drive, before);
        if before.len() == 0 {
            assert(before =~= Seq::<Seq<char>>::empty());
            assert(names[0] == n);
            assert(s == d + n);
            lemma_first_name_part(drive, n);
            assert(s.take(6) =~= d.take(6));
        } else {
            assert(s == d + seq!['\\'] + n);
            lemma_next_name_part(drive, d, n);
        }
        assert(s.take(d.len() as int) =~= d);
        assert(s.skip(s.len() - n.len()) =~= n);
        lemma_piece_more(d, s, n);
        let pieces = pieces_of(drive, names);
        assert(pieces.drop_last() =~= held);
        assert(path::written(pieces) =~= s);
    }
}

/// A path on a drive that is taken as it is written.
pub open spec fn written_path(drive: char, names: Seq<Seq<char>>) -> Seq<char>
    decreases names.len(),
{
    if names.len() == 0 {
        written_top(drive) + seq!['\\']
    } else if names.len() == 1 {
        written_top(drive) + seq!['\\'] + names[0]
    } else {
        written_path(drive, names.drop_last()) + seq!['\\'] + names.last()
    }
}

proof fn lemma_one_name(n: Seq<char>)
    requires
        is_name(n),
        !n.contains(':'),
    ensures
        path::path_pieces(Host::Windows, n) == seq![
            (path::PieceView { kind: Kind::Name, name: n }),
        ],
        path::prefix_len(Host::Windows, n) == 0,
        !path::absolute(Host::Windows, n),
{
    let host = Host::Windows;
    assert(n.contains(n[0]));
    if n.len() > 1 {
        assert(n.contains(n[1]));
    }
    lemma_relative(host, n);
    assert(!path::starts_here(host, n)) by {
        if path::starts_here(host, n) {
            if n.len() == 1 {
                assert(n =~= seq!['.']);
            }
        }
    }
    assert(n.skip(0) =~= n);
    path::lemma_name_end(host, n, 0);
    let end = path::name_end(host, n, 0);
    assert(end == n.len()) by {
        if end < n.len() {
            assert(n.contains(n[end]));
        }
    }
    if path::is_dot(n, 0, end) {
        assert(n =~= seq!['.']);
    }
    assert(path::names(host, n, end + 1) == Seq::<path::PartView>::empty());
    let part = path::PartView { kind: Kind::Name, start: 0, end: end };
    assert(path::names(host, n, 0) =~= seq![part]);
    assert(path::parts(host, n) =~= seq![part]);
    assert(n.subrange(0, end) =~= n);
    assert(path::path_pieces(host, n) =~= seq![path::PieceView { kind: Kind::Name, name: n }]);
}

/// A name behind a path that is taken as it is written follows it; one that means the
/// directory above takes its last name away, but never what stands before the names.
pub proof fn lemma_join_written(drive: char, names: Seq<Seq<char>>, n: Seq<char>)
    requires
        text::is_letter(drive),
        forall|i: int| 0 <= i < names.len() ==> is_name(#[trigger] names[i]),
        is_name(n),
        !n.contains(':'),
    ensures
        path::joined(Host::Windows, written_path(drive, names), n) == written_path(
            drive,
            names.push(n),
        ),
        path::joined(Host::Windows, written_path(drive, names), seq!['.', '.']) == written_path(
            drive,
            if names.len() > 0 {
                names.drop_last()
            } else {
                names
            },
        ),
{
    let host = Host::Windows;
    let s = written_path(drive, names);
    lemma_written_pieces(drive, names);
    lemma_written(drive, s);
    let all = names.push(n);
    assert forall|i: int| 0 <= i < all.len() implies is_name(#[trigger] all[i]) by {
        if i < names.len() {
            assert(all[i] == names[i]);
        }
    }
    lemma_written_pieces(drive, all);
    assert(all.drop_last() =~= names);
    let last = path::PieceView { kind: Kind::Name, name: n };
    lemma_one_name(n);
    lemma_one_piece(pieces_of(drive, names), last);
    lemma_dots();
    lemma_up_written(drive, names);
}

proof fn lemma_one_piece(pieces: Seq<path::PieceView>, last: path::PieceView)
    ensures
        path::with_pieces(pieces, seq![last]) == path::with_piece(pieces, last),
{
    let one = seq![last];
    assert(one.drop_last() =~= Seq::<path::PieceView>::empty());
    assert(path::with_pieces(pieces, one.drop_last()) == pieces);
}

proof fn lemma_up_piece()
    ensures
        path::path_pieces(Host::Windows, seq!['.', '.']) == seq![
            (path::PieceView { kind: Kind::Name, name: seq!['.', '.'] }),
        ],
        path::prefix_len(Host::Windows, seq!['.', '.']) == 0,
        !path::absolute(Host::Windows, seq!['.', '.']),
{
    let host = Host::Windows;
    let up = seq!['.', '.'];
    assert(up[0] == '.' && up[1] == '.');
    assert(path::prefix_len(host, up) == 0);
    assert(!path::starts_here(host, up));
    path::lemma_name_end(host, up, 0);
    assert(path::name_end(host, up, 0) == 2) by {
        let e = path::name_end(host, up, 0);
        if e < 2 {
            assert(up[e] == '.');
        }
    }
    assert(path::names(host, up, 3) == Seq::<path::PartView>::empty());
    let part = path::PartView { kind: Kind::Name, start: 0, end: 2 };
    assert(path::names(host, up, 0) =~= seq![part]);
    assert(path::parts(host, up) =~= seq![part]);
    assert(up.subrange(0, 2) =~= up);
    assert(path::path_pieces(host, up) =~= seq![path::PieceView { kind: Kind::Name, name: up }]);
}

proof fn lemma_up_written(drive: char, names: Seq<Seq<char>>)
    requires
        text::is_letter(drive),
        forall|i: int| 0 <= i < names.len() ==> is_name(#[trigger] names[i]),
    ensures
        path::joined(Host::Windows, written_path(drive, names), seq!['.', '.']) == written_path(
            drive,
            if names.len() > 0 {
                names.drop_last()
            } else {
                names
            },
        ),
{
    let s = written_path(drive, names);
    let up = seq!['.', '.'];
    lemma_dots();
    lemma_written_pieces(drive, names);
    lemma_written(drive, s);
    lemma_up_piece();
    let pieces = pieces_of(drive, names);
    lemma_pieces_of(drive, names);
    lemma_one_piece(pieces, path::PieceView { kind: Kind::Name, name: up });
    if names.len() > 0 {
        let before = names.drop_last();
        assert forall|i: int| 0 <= i < before.len() implies is_name(#[trigger] before[i]) by {
            assert(before[i] == names[i]);
        }
        lemma_written_pieces(drive, before);
        assert(is_name(names[names.len() - 1]));
        assert(path::plain_name(pieces.last()));
        assert(pieces.drop_last() =~= pieces_of(drive, before));
    }
}

/// What lies beside a directory is not shown from there, however alike their names start.
#[verifier::rlimit(40)]
pub proof fn lemma_shown_whole(
    host: Host,
    directory: Seq<char>,
    a: Seq<char>,
    b: Seq<char>,
    names: Seq<Seq<char>>,
)
    requires
        is_base(host, directory),
        is_name(a),
        is_name(b),
        a != b,
        forall|i: int| 0 <= i < names.len() ==> is_name(#[trigger] names[i]),
    ensures
        ({
            let c = path::separator(host);
            let path = inside(host, directory + seq![c] + a, names);
            path::below(host, path, directory + seq![c] + b) == path
        }),
{
    let c = path::separator(host);
    let x = directory + seq![c] + a;
    let y = directory + seq![c] + b;
    lemma_parts_then(host, directory, a);
    lemma_parts_then(host, directory, b);
    let d = path::parts(host, directory);
    let k = d.len() as int;
    assert(x[0] == directory[0]);
    if host == Host::Windows {
        assert(x[1] == directory[1] && x[2] == directory[2]);
    }
    lemma_inside(host, x, names);
    let path = inside(host, x, names);
    let p = path::parts(host, path);
    let q = path::parts(host, y);
    assert(p.take(k + 1)[k] == path::parts(host, x)[k]);
    assert(p[k] == path::parts(host, x)[k]);
    lemma_dots();
    assert(path.subrange(p[k].start, p[k].end) =~= a) by {
        assert(path.take(x.len() as int) == x);
        assert(path.subrange(p[k].start, p[k].end) =~= x.subrange(p[k].start, p[k].end));
        assert(x.subrange(directory.len() as int + 1, x.len() as int) =~= a);
    }
    assert(y.subrange(directory.len() as int + 1, y.len() as int) =~= b);
    assert(path::part_key(path, p[k]).name == a);
    assert(path::part_key(y, q[k]).name == b);
    assert(!path::same_part(path, p[k], y, q[k]));
    assert(!path::lies_in(host, path, y));
}

} // verus!
