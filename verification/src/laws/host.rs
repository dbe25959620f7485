//! Laws on the host, and on paths that are written for one and read on another.

use vstd::prelude::*;

use crate::error::Failure;
use crate::host;
use crate::host::Host;
use crate::laws::text as base;
use crate::number;
use crate::text;

verus! {

/// A character as a mount table writes it where it cannot stand for itself.
pub open spec fn escaped(n: int) -> Seq<char> {
    seq!['\\', number::digit(n / 64), number::digit((n / 8) % 8), number::digit(n % 8)]
}

/// A character that was written by its number is read as the character.
pub proof fn lemma_escape_read_back(front: Seq<char>, n: int, rest: Seq<char>)
    requires
        !front.contains('\\'),
        0 <= n <= 255,
    ensures
        host::unescaped(front + escaped(n) + rest) == front.push(n as char) + host::unescaped(rest),
{
    let s = front + escaped(n) + rest;
    let k = front.len() as int;
    s.index_of_first_ensures('\\');
    assert(s[k] == '\\');
    assert(s.contains('\\'));
    assert(s.index_of_first('\\') == Some(k)) by {
        let i = s.index_of_first('\\')->0;
        if i < k {
            assert(front[i] == '\\');
        }
    }
    assert(s.take(k) =~= front);
    let after = s.skip(k + 1);
    let digits = after.take(3);
    let a = n / 64;
    let b = (n / 8) % 8;
    let c = n % 8;
    assert(n == 64 * a + 8 * b + c);
    assert(0 <= a < 4 && 0 <= b < 8 && 0 <= c < 8);
    assert(digits =~= seq![number::digit(a), number::digit(b), number::digit(c)]);
    lemma_digit(a);
    lemma_digit(b);
    lemma_digit(c);
    assert(number::without_plus(digits) == digits);
    let two = digits.drop_last();
    let one = two.drop_last();
    assert(two =~= seq![number::digit(a), number::digit(b)]);
    assert(one =~= seq![number::digit(a)]);
    assert(one.drop_last() =~= Seq::<char>::empty());
    assert(number::digits_value(one.drop_last(), 8) == 0);
    assert(number::digits_value(one, 8) == a);
    assert(number::digits_value(two, 8) == a * 8 + b);
    assert(number::digits_value(digits, 8) == (a * 8 + b) * 8 + c);
    assert(host::escape(after) == Some(n as char));
    assert(s.skip(k + 4) =~= rest);
}

proof fn lemma_digit(value: int)
    requires
        0 <= value < 10,
    ensures
        number::is_digit(number::digit(value)),
        number::digit_value(number::digit(value)) == value,
        number::digit(value) != '+',
{
}

/// A line of a mount table.
pub open spec fn mount_line(
    source: Seq<char>,
    point: Seq<char>,
    kind: Seq<char>,
    rest: Seq<char>,
) -> Seq<char> {
    Seq::<char>::empty() + source + (seq![' '] + point + (seq![' '] + kind + rest))
}

/// Whether a text can be a field of a mount table.
pub open spec fn is_field(s: Seq<char>) -> bool {
    s.len() > 0 && base::solid(s) && !s.contains('\\')
}

/// A mount of a drive gives the drive, in lower case, and the place where it is mounted,
/// without slashes at its end. Mounts of anything else give nothing.
pub proof fn lemma_mount_read_back(
    drive: char,
    more: Seq<char>,
    point: Seq<char>,
    slashes: Seq<char>,
    kind: Seq<char>,
    rest: Seq<char>,
)
    requires
        is_field(seq![drive, ':'] + more),
        is_field(point),
        point.last() != '/',
        base::run_of(slashes, '/'),
        kind.len() > 0,
        base::solid(kind),
        rest.len() > 0 ==> text::is_white(rest[0]),
    ensures
        host::mount_of(mount_line(seq![drive, ':'] + more, point + slashes, kind, rest)) == if (
        kind == "drvfs"@ || kind == "9p"@ || kind == "virtiofs"@) && ('a' <= drive <= 'z' || 'A'
            <= drive <= 'Z') {
            Some(
                (host::MountView {
                    point: point,
                    drive: if drive <= 'Z' {
                        (drive as int + 32) as char
                    } else {
                        drive
                    },
                }),
            )
        } else {
            None
        },
{
    let source = seq![drive, ':'] + more;
    let place = point + slashes;
    assert(base::solid(place)) by {
        assert forall|i: int| 0 <= i < place.len() implies !text::is_white(#[trigger] place[i]) by {
            if i < point.len() {
                assert(place[i] == point[i]);
            } else {
                assert(place[i] == slashes[i - point.len()]);
            }
        }
    }
    assert(!place.contains('\\')) by {
        if place.contains('\\') {
            let i = choose|i: int| 0 <= i < place.len() && place[i] == '\\';
            if i < point.len() {
                assert(point[i] == '\\');
            } else {
                assert(slashes[i - point.len()] == '/');
            }
        }
    }
    let tail = seq![' '] + kind + rest;
    let middle = seq![' '] + place + tail;
    base::lemma_first_word(Seq::empty(), source, middle);
    base::lemma_first_word(seq![' '], place, tail);
    base::lemma_first_word(seq![' '], kind, rest);
    let fields = text::words_of(mount_line(source, place, kind, rest));
    assert(fields =~= seq![source] + (seq![place] + (seq![kind] + text::words_of(rest))));
    assert(fields[0] == source && fields[1] == place && fields[2] == kind);
    host::lemma_plain_field_kept(source);
    host::lemma_plain_field_kept(place);
    if point.len() > 0 {
        base::lemma_trailing(point, slashes, '/');
    }
    assert(source[0] == drive && source[1] == ':');
}

/// Whether a path is a directory or lies in it.
pub open spec fn is_in(path: Seq<char>, directory: Seq<char>) -> bool {
    path == directory || (directory + seq!['/']).is_prefix_of(path)
}

proof fn lemma_rest_under(path: Seq<char>, point: Seq<char>)
    ensures
        host::rest_under(path, point) is Some <==> is_in(path, point),
        host::rest_under(path, point) matches Some(rest) ==> path == point + rest,
{
    let more = point + seq!['/'];
    let n = point.len() as int;
    if point.is_prefix_of(path) {
        assert(path =~= point + path.skip(n));
        let rest = path.skip(n);
        if rest.len() == 0 {
            assert(path =~= point);
        } else if rest[0] == '/' {
            assert(path.subrange(0, n + 1) =~= more);
        }
    }
    if is_in(path, point) {
        if path == point {
            assert(path.subrange(0, n) =~= point);
        } else {
            assert(path.subrange(0, n + 1) =~= more);
            assert(path.subrange(0, n) =~= point) by {
                assert(path.subrange(0, n) =~= path.subrange(0, n + 1).take(n));
                assert(more.take(n) =~= point);
            }
            assert(path.subrange(0, n + 1)[n] == path[n]);
        }
    }
}

proof fn lemma_holder(mounts: Seq<host::MountView>, path: Seq<char>, from: int)
    requires
        0 <= from,
    ensures
        match host::holder_from(mounts, path, from) {
            Some(i) => from <= i < mounts.len() && is_in(path, mounts[i].point) && forall|k: int|
                from <= k < i ==> !is_in(path, (#[trigger] mounts[k]).point),
            None => forall|k: int|
                from <= k < mounts.len() ==> !is_in(path, (#[trigger] mounts[k]).point),
        },
    decreases mounts.len() - from,
{
    if from < mounts.len() {
        lemma_rest_under(path, mounts[from].point);
        lemma_holder(mounts, path, from + 1);
    }
}

/// A path has a Windows form if and only if it lies on a mounted drive: at a mount point
/// or below it, and not merely at a name that starts like one. The form names the drive
/// and holds no slash.
pub proof fn lemma_windows_form(mounts: Seq<host::MountView>, path: Seq<char>)
    ensures
        host::windows_path(mounts, path) is Ok <==> exists|i: int|
            0 <= i < mounts.len() && is_in(path, (#[trigger] mounts[i]).point),
        host::windows_path(mounts, path) matches Ok(found) ==> found.len() >= 3 && found[1] == ':'
            && found[2] == '\\' && !found.skip(1).contains('/') && exists|i: int|
            0 <= i < mounts.len() && is_in(path, (#[trigger] mounts[i]).point) && found[0]
                == text::upper_char(mounts[i].drive),
        host::windows_path(mounts, path) matches Err(failure) ==> failure is Runtime,
{
    lemma_holder(mounts, path, 0);
    if let Some(i) = host::holder(mounts, path) {
        lemma_rest_under(path, mounts[i].point);
        let rest = text::without_leading(host::rest_under(path, mounts[i].point)->0, '/');
        base::lemma_swapped(rest, '/', '\\');
        let found = host::windows_path(mounts, path)->Ok_0;
        let tail = found.skip(1);
        if tail.contains('/') {
            let j = choose|j: int| 0 <= j < tail.len() && tail[j] == '/';
            assert(j >= 2);
            assert(text::swapped(rest, '/', '\\')[j - 2] == '/');
        }
        assert(is_in(path, mounts[i].point));
    }
}

proof fn lemma_drive(mounts: Seq<host::MountView>, drive: char, from: int)
    requires
        0 <= from,
    ensures
        match host::drive_from(mounts, drive, from) {
            Some(i) => from <= i < mounts.len() && mounts[i].drive == drive && forall|k: int|
                from <= k < i ==> (#[trigger] mounts[k]).drive != drive,
            None => forall|k: int|
                from <= k < mounts.len() ==> (#[trigger] mounts[k]).drive != drive,
        },
    decreases mounts.len() - from,
{
    if from < mounts.len() {
        lemma_drive(mounts, drive, from + 1);
    }
}

/// A Windows path has a form here if and only if it names a drive that is mounted. The
/// form lies below the mount point and holds no backslash but in that.
pub proof fn lemma_linux_form(mounts: Seq<host::MountView>, letter: char, rest: Seq<char>)
    requires
        'a' <= letter <= 'z' || 'A' <= letter <= 'Z',
    ensures
        ({
            let path = seq![letter, ':', '\\'] + rest;
            let low = if letter <= 'Z' {
                (letter as int + 32) as char
            } else {
                letter
            };
            &&& host::linux_path(mounts, path) is Ok <==> exists|i: int|
                0 <= i < mounts.len() && (#[trigger] mounts[i]).drive == low
            &&& host::linux_path(mounts, path) matches Ok(found) ==> exists|i: int|
                0 <= i < mounts.len() && (#[trigger] mounts[i]).drive == low && (mounts[i].point
                    + seq!['/']).is_prefix_of(found) && !found.skip(
                    mounts[i].point.len() as int,
                ).contains('\\')
        }),
{
    reveal_strlit("\\\\");
    reveal_strlit("/");
    let path = seq![letter, ':', '\\'] + rest;
    let low = text::lower_char(letter);
    lemma_drive(mounts, low, 0);
    assert(path[0] == letter && path[1] == ':' && path[2] == '\\');
    if "\\\\"@.is_prefix_of(path) {
        assert(path.subrange(0, 2)[1] == path[1]);
    }
    assert(path.skip(3) =~= rest);
    if let Some(i) = host::drive_mount(mounts, low) {
        let point = mounts[i].point;
        let found = host::under_point(point, rest);
        let swapped = text::swapped(rest, '\\', '/');
        let tail = text::without_trailing(swapped, '/');
        base::lemma_swapped(rest, '\\', '/');
        base::lemma_trailing_part(swapped, '/');
        assert(found =~= point + "/"@ + tail);
        assert(found.subrange(0, point.len() as int + 1) =~= point + seq!['/']);
        let after = found.skip(point.len() as int);
        if after.contains('\\') {
            let j = choose|j: int| 0 <= j < after.len() && after[j] == '\\';
            assert(j > 0);
            assert(tail[j - 1] == '\\');
            assert(swapped[j - 1] == '\\');
            assert(swapped.contains('\\'));
        }
        assert(mounts[i].drive == low);
    }
}

/// What is no path on a drive has no form here.
pub proof fn lemma_no_linux_form(mounts: Seq<host::MountView>, path: Seq<char>)
    requires
        path.len() < 3 || path[1] != ':' || (path[2] != '\\' && path[2] != '/'),
    ensures
        host::linux_path(mounts, path) matches Err(Failure::Runtime(_)),
{
}

/// What the host is: Windows where it is Windows, WSL where it is that, and nothing that
/// the program can work on otherwise. Drives are where the mount table says, and at their
/// usual places where it says nothing.
pub proof fn lemma_host_detected(wsl: bool, table: Option<Seq<char>>, held: Seq<char>, k: int)
    requires
        0 <= k < 26,
    ensures
        host::detected(true, wsl, table) matches Ok(paths) && paths.host == Host::Windows,
        host::detected(false, true, table) matches Ok(paths) && paths.host == Host::Wsl,
        host::detected(false, false, table) is Err,
        host::detected(false, true, None) matches Ok(paths) && paths.mounts.len() == 26
            && paths.mounts[k].point == "/mnt/"@ + seq![('a' as int + k) as char]
            && paths.mounts[k].drive == ('a' as int + k) as char,
        host::mount_table(held).len() > 0 ==> host::detected(false, true, Some(held)) == Ok::<
            _,
            Failure,
        >((host::PathsView { host: Host::Wsl, mounts: host::mount_table(held) })),
        host::mount_table(held).len() == 0 ==> host::detected(false, true, Some(held))
            == host::detected(false, true, None),
{
    assert("/mnt/"@.push(host::letter_at(k)) =~= "/mnt/"@ + seq![('a' as int + k) as char]);
}

/// The mounts of a table are those of its lines, and no others.
pub proof fn lemma_every_mount_kept(lines: Seq<Seq<char>>, mount: host::MountView)
    ensures
        host::mounts_in(lines).contains(mount) <==> exists|i: int|
            0 <= i < lines.len() && host::mount_of(#[trigger] lines[i]) == Some(mount),
        host::mounts_in(lines).len() <= lines.len(),
    decreases lines.len(),
{
    let found = host::mounts_in(lines);
    if lines.len() > 0 {
        let front = lines.drop_last();
        lemma_every_mount_kept(front, mount);
        let before = host::mounts_in(front);
        let last = host::mount_of(lines.last());
        assert(lines[lines.len() - 1] == lines.last());
        if before.contains(mount) {
            let i = choose|i: int|
                0 <= i < front.len() && host::mount_of(#[trigger] front[i]) == Some(mount);
            assert(host::mount_of(lines[i]) == Some(mount));
            let j = choose|j: int| 0 <= j < before.len() && before[j] == mount;
            assert(found[j] == mount);
        }
        if last == Some(mount) {
            assert(found.last() == mount);
            assert(host::mount_of(lines[lines.len() - 1]) == Some(mount));
        }
        if found.contains(mount) && last != Some(mount) {
            let j = choose|j: int| 0 <= j < found.len() && found[j] == mount;
            assert(before[j] == mount);
        }
        if exists|i: int| 0 <= i < lines.len() && host::mount_of(#[trigger] lines[i]) == Some(mount) {
            let i = choose|i: int|
                0 <= i < lines.len() && host::mount_of(#[trigger] lines[i]) == Some(mount);
            if i < front.len() {
                assert(host::mount_of(front[i]) == Some(mount));
            }
        }
    }
}

/// Interoperation is on if and only if the first line of its status says so.
pub proof fn lemma_interop_status(first: Seq<char>, rest: Seq<char>)
    requires
        !first.contains('\n'),
        first.len() > 0 ==> first.last() != '\r',
    ensures
        host::is_enabled(first.push('\n') + rest) <==> text::trimmed(first) == "enabled"@,
        !host::is_enabled(Seq::empty()),
{
    base::lemma_first_line(first, rest);
    let lines = text::lines_of(first.push('\n') + rest);
    assert(lines[0] == first);
    Seq::<char>::empty().index_of_first_ensures('\n');
}

/// It is WSL if either variable of its own is set, or if the kernel is Microsoft's.
pub proof fn lemma_wsl_told(distro: bool, interop: bool, front: Seq<char>, rest: Seq<char>)
    ensures
        distro || interop ==> host::under_wsl(distro, interop, None),
        !host::under_wsl(false, false, None),
        host::under_wsl(false, false, Some(front + "Microsoft"@ + rest)),
        host::under_wsl(false, false, Some(front + "microsoft"@ + rest)),
{
    reveal_strlit("Microsoft");
    reveal_strlit("microsoft");
    let low = text::lowered(front) + "microsoft"@ + text::lowered(rest);
    assert(text::lowered(front + "Microsoft"@ + rest) =~= low);
    assert(text::lowered(front + "microsoft"@ + rest) =~= low);
    text::lemma_find_from(low, "microsoft"@, 0);
    let k = front.len() as int;
    assert(low.subrange(k, k + 9) =~= "microsoft"@);
    assert(text::occurs_at(low, "microsoft"@, k));
}


proof fn lemma_longer_is_wider(s: Seq<char>, n: int)
    requires
        0 <= n <= s.len(),
    ensures
        text::byte_len(s.take(n)) <= text::byte_len(s),
        n < s.len() ==> text::byte_len(s.take(n)) < text::byte_len(s),
    decreases s.len(),
{
    if n == s.len() {
        assert(s.take(n) =~= s);
    } else {
        lemma_longer_is_wider(s.drop_last(), n);
        assert(s.drop_last().take(n) =~= s.take(n));
    }
}

/// Where a path lies on several mounted drives, one mounted inside another, the innermost
/// is the one that counts.
pub proof fn lemma_innermost_mount_counts(table: Seq<char>, path: Seq<char>, other: int) -> (i: int)
    requires
        0 <= other < host::mount_table(table).len(),
        is_in(path, host::mount_table(table)[other].point),
    ensures
        0 <= i < host::mount_table(table).len(),
        is_in(path, host::mount_table(table)[i].point),
        host::mount_table(table)[other].point.len() <= host::mount_table(table)[i].point.len(),
        host::windows_path(host::mount_table(table), path) matches Ok(found) && found[0]
            == text::upper_char(host::mount_table(table)[i].drive),
{
    let mounts = host::mount_table(table);
    lemma_rest_under(path, mounts[other].point);
    host::lemma_most_specific_mount_wins(table, path, other);
    lemma_holder(mounts, path, 0);
    let i = host::holder(mounts, path)->0;
    lemma_rest_under(path, mounts[i].point);
    let a = mounts[i].point;
    let b = mounts[other].point;
    if a.len() < b.len() {
        assert(b.take(a.len() as int) =~= a) by {
            assert(a =~= path.take(a.len() as int));
            assert(b =~= path.take(b.len() as int));
        }
        lemma_longer_is_wider(b, a.len() as int);
    }
    i
}

/// A backslash that starts no number stands for itself.
pub proof fn lemma_backslash_kept(front: Seq<char>, rest: Seq<char>)
    requires
        !front.contains('\\'),
        rest.len() < 3 || !('0' <= rest[1] <= '7'),
    ensures
        host::unescaped(front.push('\\') + rest) == front.push('\\') + host::unescaped(rest),
{
    let s = front.push('\\') + rest;
    let k = front.len() as int;
    s.index_of_first_ensures('\\');
    assert(s[k] == '\\');
    assert(s.contains('\\'));
    assert(s.index_of_first('\\') == Some(k)) by {
        let i = s.index_of_first('\\')->0;
        if i < k {
            assert(front[i] == '\\');
        }
    }
    assert(s.take(k) =~= front);
    assert(s.skip(k + 1) =~= rest);
    if rest.len() >= 3 {
        let three = rest.take(3);
        let digits = number::without_plus(three);
        if three[0] == '+' {
            assert(digits[0] == rest[1]);
        } else {
            assert(digits[1] == rest[1]);
        }
    }
}

/// A path is told to the user in the form of the host, as it is where it has no other.
pub proof fn lemma_path_for_user(paths: host::PathsView, path: Seq<char>)
    ensures
        paths.host == Host::Windows ==> host::for_user(paths, path) == path,
        paths.host == Host::Windows ==> host::for_windows(paths, path) == Ok::<Seq<char>, Failure>(
            path,
        ),
        paths.host == Host::Wsl ==> host::for_windows(paths, path) == host::windows_path(
            paths.mounts,
            path,
        ),
        paths.host == Host::Wsl ==> (host::linux_path(paths.mounts, path) matches Ok(found)
            ==> host::for_user(paths, path) == found),
        paths.host == Host::Wsl && host::linux_path(paths.mounts, path) is Err ==> host::for_user(
            paths,
            path,
        ) == path,
{
}

/// A path of the other host is read as the file that it means there, whichever way its
/// separators lean. Shares of servers cannot be reached.
pub proof fn lemma_other_hosts_paths(
    mounts: Seq<host::MountView>,
    letter: char,
    lean: char,
    rest: Seq<char>,
)
    requires
        text::is_letter(letter),
        lean == '/' || lean == '\\',
    ensures
        ({
            let paths = host::PathsView { host: Host::Wsl, mounts: mounts };
            let path = seq![letter, ':', lean] + rest;
            let same = seq![letter, ':', '\\'] + rest;
            &&& host::native(paths, path) == host::linux_path(mounts, same)
            &&& host::native(paths, seq!['/'] + rest) == Ok::<Seq<char>, Failure>(seq!['/'] + rest)
            &&& host::native(paths, seq!['\\', '\\'] + rest) matches Err(Failure::Runtime(_))
        }),
{
    reveal_strlit("\\\\");
    let path = seq![letter, ':', lean] + rest;
    let same = seq![letter, ':', '\\'] + rest;
    let top = seq!['/'] + rest;
    let share = seq!['\\', '\\'] + rest;
    assert(path[1] == ':' && same[1] == ':' && top[0] == '/');
    assert(path.skip(3) =~= same.skip(3));
    assert(path[0] == same[0]);
    if "\\\\"@.is_prefix_of(path) {
        assert(path.subrange(0, 2)[1] == path[1]);
    }
    if "\\\\"@.is_prefix_of(same) {
        assert(same.subrange(0, 2)[1] == same[1]);
    }
    if "\\\\"@.is_prefix_of(top) {
        assert(top.subrange(0, 2)[0] == top[0]);
    }
    assert(share.subrange(0, 2) =~= "\\\\"@);
}

/// A kernel that is not Microsoft's does not make it WSL.
pub proof fn lemma_other_kernel(release: Seq<char>)
    requires
        !release.contains('f') && !release.contains('F'),
    ensures
        !host::under_wsl(false, false, Some(release)),
{
    reveal_strlit("microsoft");
    let low = text::lowered(release);
    assert("microsoft"@[7] == 'f');
    assert("microsoft"@.contains('f'));
    assert(!low.contains('f')) by {
        if low.contains('f') {
            let i = choose|i: int| 0 <= i < low.len() && low[i] == 'f';
            assert(low[i] == text::lower_char(release[i]));
            assert(release[i] == 'f' || release[i] == 'F');
            assert(release.contains(release[i]));
        }
    }
    base::lemma_no_text(low, "microsoft"@, 'f');
}

/// What is mounted from something that is no drive is no drive.
pub proof fn lemma_no_drive(
    source: Seq<char>,
    point: Seq<char>,
    kind: Seq<char>,
    rest: Seq<char>,
)
    requires
        is_field(source),
        source.len() < 2 || source[1] != ':' || !('a' <= source[0] <= 'z' || 'A' <= source[0]
            <= 'Z'),
        is_field(point),
        kind.len() > 0,
        base::solid(kind),
        rest.len() > 0 ==> text::is_white(rest[0]),
    ensures
        host::mount_of(mount_line(source, point, kind, rest)) is None,
{
    let tail = seq![' '] + kind + rest;
    let middle = seq![' '] + point + tail;
    base::lemma_first_word(Seq::empty(), source, middle);
    base::lemma_first_word(seq![' '], point, tail);
    base::lemma_first_word(seq![' '], kind, rest);
    let fields = text::words_of(mount_line(source, point, kind, rest));
    assert(fields =~= seq![source] + (seq![point] + (seq![kind] + text::words_of(rest))));
    assert(fields[0] == source && fields[1] == point && fields[2] == kind);
    host::lemma_plain_field_kept(source);
}

} // verus!
