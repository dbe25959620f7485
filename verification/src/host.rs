//! Where the program is running, and how to spell a path for the other side.
//!
//! The program drives Windows executables. On Windows that is the ordinary case.
//! Under WSL the same executables are reached through interop, so every path
//! handed to them has to be rewritten from `/mnt/c/...` to `C:\...`, and every
//! path printed back to the user has to be rewritten the other way.

use vstd::prelude::*;

use crate::error;
use crate::error::{AppError, Failure};
use crate::list;
use crate::number;
use crate::order;
use crate::path;
use crate::text;

verus! {

/// Where the program runs.
#[derive(Clone, Copy, PartialEq, Eq, Debug, Structural)]
pub enum Host {
    /// A native Windows executable.
    Windows,
    /// A Linux executable inside WSL, driving Windows tools through interop.
    Wsl,
}

/// What the text after a backslash stands for: three octal digits are the
/// number of a character.
pub open spec fn escape(s: Seq<char>) -> Option<char> {
    if s.len() < 3 {
        None
    } else {
        match number::number(s.take(3), 8, 255) {
            Some(value) => Some(value as char),
            None => None,
        }
    }
}

/// A field of the mount table with its octal escapes expanded. A backslash that
/// starts no escape stays.
pub open spec fn unescaped(s: Seq<char>) -> Seq<char>
    decreases s.len(),
{
    proof {
        s.index_of_first_ensures('\\');
    }
    match s.index_of_first('\\') {
        Some(i) => match escape(s.skip(i + 1)) {
            Some(c) => s.take(i).push(c) + unescaped(s.skip(i + 4)),
            None => s.take(i).push('\\') + unescaped(s.skip(i + 1)),
        },
        None => s,
    }
}

/// Expands the octal escapes of a field.
fn expand_escapes(field: &[char]) -> (r: Vec<char>)
    ensures
        r@ == unescaped(field@),
{
    let mut out: Vec<char> = Vec::new();
    let mut rest: &[char] = field;
    assert(out@ + unescaped(field@) == unescaped(field@));
    loop
        invariant
            out@ + unescaped(rest@) == unescaped(field@),
        decreases rest@.len(),
    {
        let n: usize = rest.len();
        match text::find_char(rest, '\\') {
            Some(i) => {
                let ghost held = out@;
                let ghost whole = rest@;
                text::push_all(&mut out, &rest[0..i]);
                let after: &[char] = &rest[i + 1..n];
                let mut value: Option<u64> = None;
                if after.len() >= 3 {
                    value = number::parse_number(&after[0..3], 8, 255);
                }
                match value {
                    Some(byte) => {
                        out.push(byte as u8 as char);
                        rest = &after[3..after.len()];
                        assert(rest@ == whole.skip(i + 4));
                        assert(out@ + unescaped(rest@) == held + (whole.take(i as int).push(
                            byte as u8 as char,
                        ) + unescaped(rest@)));
                    },
                    None => {
                        out.push('\\');
                        rest = after;
                        assert(out@ + unescaped(rest@) == held + (whole.take(i as int).push('\\')
                            + unescaped(rest@)));
                    },
                }
            },
            None => {
                text::push_all(&mut out, rest);
                return out;
            },
        }
    }
}

/// Expands the octal escapes that the mount table uses for spaces and
/// backslashes.
pub fn unescape(field: &str) -> (r: String)
    ensures
        r@ == unescaped(field@),
{
    let s = text::chars_of(field);
    text::string_of(&expand_escapes(&s))
}

/// A drive letter mounted into the WSL file system, such as `C:` at `/mnt/c`.
#[derive(Clone, Debug, PartialEq, Eq)]
pub struct Mount {
    pub point: String,
    pub drive: char,
}

/// What a mount stands for.
pub struct MountView {
    pub point: Seq<char>,
    pub drive: char,
}

impl View for Mount {
    type V = MountView;

    open spec fn view(&self) -> MountView {
        MountView { point: self.point@, drive: self.drive }
    }
}

impl order::Ranked for Mount {
    /// Longer mount points come first.
    open spec fn before(a: MountView, b: MountView) -> bool {
        text::byte_len(a.point) > text::byte_len(b.point)
    }

    fn goes_before(&self, other: &Self) -> bool {
        let a = text::measure_bytes(&text::chars_of(self.point.as_str()));
        let b = text::measure_bytes(&text::chars_of(other.point.as_str()));
        a > b
    }
}

/// The drive mappings that translate between Linux and Windows paths.
#[derive(Clone, Debug, PartialEq, Eq)]
pub struct Mounts {
    pub mounts: Vec<Mount>,
}

impl View for Mounts {
    type V = Seq<MountView>;

    open spec fn view(&self) -> Seq<MountView> {
        order::views(self.mounts@)
    }
}

/// The kinds of file system that Windows drives are mounted as.
pub open spec fn is_drive_kind(kind: Seq<char>) -> bool {
    kind == "drvfs"@ || kind == "9p"@ || kind == "virtiofs"@
}

/// The drive mapping in one line of the mount table, if it holds one: a source
/// that starts with a drive letter, a mount point, and a kind.
pub open spec fn mount_of(line: Seq<char>) -> Option<MountView> {
    let fields = text::words_of(line);
    if fields.len() < 3 || !is_drive_kind(fields[2]) {
        None
    } else {
        let source = unescaped(fields[0]);
        if source.len() >= 2 && source[1] == ':' && text::is_letter(source[0]) {
            Some(
                MountView {
                    point: text::without_trailing(unescaped(fields[1]), '/'),
                    drive: text::lower_char(source[0]),
                },
            )
        } else {
            None
        }
    }
}

/// The drive mappings of some lines, in the order of the lines.
pub open spec fn mounts_in(lines: Seq<Seq<char>>) -> Seq<MountView>
    decreases lines.len(),
{
    if lines.len() == 0 {
        Seq::empty()
    } else {
        match mount_of(lines.last()) {
            Some(mount) => mounts_in(lines.drop_last()).push(mount),
            None => mounts_in(lines.drop_last()),
        }
    }
}

/// The drive mappings of a mount table, the longest mount points first.
pub open spec fn mount_table(table: Seq<char>) -> Seq<MountView> {
    order::arranged::<Mount>(mounts_in(text::lines_of(table)))
}

/// The letter with a number from zero to twenty-five.
pub open spec fn letter_at(i: int) -> char {
    ('a' as int + i) as char
}

/// The mappings WSL uses when nothing has been configured: each drive at its
/// letter under `/mnt`.
pub open spec fn usual_mounts() -> Seq<MountView> {
    Seq::new(
        26,
        |i: int| MountView { point: "/mnt/"@.push(letter_at(i)), drive: letter_at(i) },
    )
}

/// What of a Linux path lies below a mount point, if the mount holds the path.
pub open spec fn rest_under(path: Seq<char>, point: Seq<char>) -> Option<Seq<char>> {
    match text::after_prefix(path, point) {
        Some(rest) => if rest.len() == 0 || rest[0] == '/' {
            Some(rest)
        } else {
            None
        },
        None => None,
    }
}

/// The first mount at or after `from` that holds a Linux path.
pub open spec fn holder_from(mounts: Seq<MountView>, path: Seq<char>, from: int) -> Option<int>
    decreases mounts.len() - from,
{
    if from < 0 || from >= mounts.len() {
        None
    } else if rest_under(path, mounts[from].point) is Some {
        Some(from)
    } else {
        holder_from(mounts, path, from + 1)
    }
}

/// The first mount that holds a Linux path.
pub open spec fn holder(mounts: Seq<MountView>, path: Seq<char>) -> Option<int> {
    holder_from(mounts, path, 0)
}

/// The path on a Windows drive of what lies at `rest` below its mount point.
pub open spec fn on_drive(drive: char, rest: Seq<char>) -> Seq<char> {
    seq![text::upper_char(drive), ':', '\\'] + text::swapped(
        text::without_leading(rest, '/'),
        '/',
        '\\',
    )
}

/// An absolute Linux path as a Windows path.
pub open spec fn windows_path(mounts: Seq<MountView>, path: Seq<char>) -> Result<
    Seq<char>,
    Failure,
> {
    match holder(mounts, path) {
        Some(i) => Ok(on_drive(mounts[i].drive, rest_under(path, mounts[i].point)->0)),
        None => Err(
            Failure::Runtime(
                path
                    + " is inside the WSL file system, which Atmel Studio cannot open.\nMove the project onto a Windows drive, such as /mnt/c, and try again."@,
            ),
        ),
    }
}

/// The first mount at or after `from` of a drive.
pub open spec fn drive_from(mounts: Seq<MountView>, drive: char, from: int) -> Option<int>
    decreases mounts.len() - from,
{
    if from < 0 || from >= mounts.len() {
        None
    } else if mounts[from].drive == drive {
        Some(from)
    } else {
        drive_from(mounts, drive, from + 1)
    }
}

/// The first mount of a drive.
pub open spec fn drive_mount(mounts: Seq<MountView>, drive: char) -> Option<int> {
    drive_from(mounts, drive, 0)
}

/// Whether a text starts with some character, a colon and a separator.
pub open spec fn names_drive(s: Seq<char>) -> bool {
    s.len() >= 3 && s[1] == ':' && (s[2] == '\\' || s[2] == '/')
}

/// What lies below a drive, below the point where the drive is mounted.
pub open spec fn under_point(point: Seq<char>, rest: Seq<char>) -> Seq<char> {
    point + "/"@ + text::without_trailing(text::swapped(rest, '\\', '/'), '/')
}

/// A Windows path as a Linux path.
pub open spec fn linux_path(mounts: Seq<MountView>, path: Seq<char>) -> Result<Seq<char>, Failure> {
    match text::after_prefix(path, "\\\\"@) {
        Some(rest) => {
            let share = rest.take(path::name_end(Host::Windows, rest, 0));
            Err(
                Failure::Runtime(
                    path + " is a network path (\\\\"@ + share + "), which atp cannot translate."@,
                ),
            )
        },
        None => if names_drive(path) {
            match drive_mount(mounts, text::lower_char(path[0])) {
                Some(i) => Ok(under_point(mounts[i].point, path.skip(3))),
                None => Err(
                    Failure::Runtime(
                        "drive "@ + seq![text::upper_char(text::lower_char(path[0]))]
                            + ": is not mounted in this WSL distribution"@,
                    ),
                ),
            }
        } else {
            Err(Failure::Runtime(path + " is not an absolute path"@))
        },
    }
}

/// The text of one character.
fn char_text(c: char) -> (r: String)
    ensures
        r@ == seq![c],
{
    let mut out = String::new();
    out.push(c);
    out
}

/// The drive mapping in one line of the mount table, if it holds one.
fn parse_mount(line: &[char]) -> (r: Option<Mount>)
    ensures
        match r {
            Some(mount) => mount_of(line@) == Some(mount@),
            None => mount_of(line@) is None,
        },
{
    let fields = text::words(line);
    assert(text::words_of(line@).len() == fields@.len());
    if fields.len() < 3 {
        return None;
    }
    assert(text::words_of(line@)[0] == fields@[0]@);
    assert(text::words_of(line@)[1] == fields@[1]@);
    assert(text::words_of(line@)[2] == fields@[2]@);
    let kind = fields[2];
    if !text::is_text(kind, "drvfs") && !text::is_text(kind, "9p") && !text::is_text(
        kind,
        "virtiofs",
    ) {
        return None;
    }
    let source = expand_escapes(fields[0]);
    if source.len() < 2 || source[1] != ':' || !text::letter(source[0]) {
        return None;
    }
    let point = expand_escapes(fields[1]);
    Some(
        Mount {
            point: text::string_of(text::trim_end_char(&point, '/')),
            drive: text::to_lower(source[0]),
        },
    )
}

impl Mounts {
    /// The mappings WSL uses when nothing has been configured.
    pub fn automount() -> (r: Self)
        ensures
            r@ == usual_mounts(),
    {
        let mut mounts: Vec<Mount> = Vec::new();
        let mut i: u8 = 0;
        while i < 26
            invariant
                i <= 26,
                order::views(mounts@) == usual_mounts().take(i as int),
            decreases 26 - i,
        {
            let drive = (97 + i) as char;
            let ghost before = mounts@;
            let mut point = "/mnt/".to_owned();
            point.push(drive);
            let mount = Mount { point: point, drive: drive };
            mounts.push(mount);
            assert(order::views(mounts@) == order::views(before).push(mount@));
            assert(usual_mounts()[i as int] == mount@);
            i += 1;
        }
        assert(usual_mounts().take(26) == usual_mounts());
        Mounts { mounts: mounts }
    }

    /// The mappings of the mount table that was read, or the usual ones where
    /// there is no table or it names no Windows drive.
    pub fn current(table: Option<&str>) -> (r: Self)
        ensures
            r@ == match table {
                Some(held) => if mount_table(held@).len() == 0 {
                    usual_mounts()
                } else {
                    mount_table(held@)
                },
                None => usual_mounts(),
            },
    {
        match table {
            Some(held) => {
                let mounts = Self::parse(held);
                assert(mounts@.len() == mounts.mounts@.len());
                if mounts.mounts.len() == 0 {
                    Self::automount()
                } else {
                    mounts
                }
            },
            None => Self::automount(),
        }
    }

    /// Reads drive mappings out of the text of a mount table.
    ///
    /// Longer mount points come first so that the most specific one wins.
    pub fn parse(table: &str) -> (r: Self)
        ensures
            r@ == mount_table(table@),
    {
        let chars = text::chars_of(table);
        let lines = text::lines(&chars);
        let ghost all = text::lines_of(table@);
        let mut mounts: Vec<Mount> = Vec::new();
        let mut i: usize = 0;
        assert(list::pieces(lines@).len() == lines@.len());
        while i < lines.len()
            invariant
                i <= lines@.len(),
                all == list::pieces(lines@),
                all.len() == lines@.len(),
                order::views(mounts@) == mounts_in(all.take(i as int)),
            decreases lines@.len() - i,
        {
            assert(all.take(i as int + 1).drop_last() == all.take(i as int));
            assert(all[i as int] == lines@[i as int]@);
            let ghost before = mounts@;
            match parse_mount(lines[i]) {
                Some(mount) => {
                    mounts.push(mount);
                    assert(order::views(mounts@) == order::views(before).push(mount@));
                },
                None => {},
            }
            i += 1;
        }
        assert(all.take(i as int) == all);
        Mounts { mounts: order::arrange(mounts) }
    }

    /// Rewrites an absolute Linux path as a Windows path.
    pub fn to_windows(&self, path: &str) -> (r: Result<String, AppError>)
        ensures
            error::viewed(r) == windows_path(self@, path@),
    {
        let s = text::chars_of(path);
        let mut i: usize = 0;
        assert(self@.len() == self.mounts@.len());
        while i < self.mounts.len()
            invariant
                i <= self.mounts@.len(),
                self@.len() == self.mounts@.len(),
                s@ == path@,
                holder(self@, path@) == holder_from(self@, path@, i as int),
            decreases self.mounts@.len() - i,
        {
            assert(self@[i as int] == self.mounts@[i as int]@);
            match text::strip_prefix(&s, self.mounts[i].point.as_str()) {
                Some(rest) => {
                    if rest.len() == 0 || rest[0] == '/' {
                        let mut out: Vec<char> = Vec::new();
                        out.push(text::to_upper(self.mounts[i].drive));
                        out.push(':');
                        out.push('\\');
                        let below = text::replace_char(
                            text::trim_start_char(rest, '/'),
                            '/',
                            '\\',
                        );
                        text::push_all(&mut out, &below);
                        assert(out@ == on_drive(self@[i as int].drive, rest@));
                        return Ok(text::string_of(&out));
                    }
                },
                None => {},
            }
            i += 1;
        }
        Err(
            AppError::Runtime(
                text::cat2(
                    path,
                    " is inside the WSL file system, which Atmel Studio cannot open.\nMove the project onto a Windows drive, such as /mnt/c, and try again.",
                ),
            ),
        )
    }

    /// Rewrites a Windows path as a Linux path.
    pub fn to_linux(&self, path: &str) -> (r: Result<String, AppError>)
        ensures
            error::viewed(r) == linux_path(self@, path@),
    {
        let s = text::chars_of(path);
        match text::strip_prefix(&s, "\\\\") {
            Some(rest) => {
                let end = path::end_of_name(Host::Windows, rest, 0);
                let share = text::string_of(&rest[0..end]);
                return Err(
                    AppError::Runtime(
                        text::cat4(
                            path,
                            " is a network path (\\\\",
                            share.as_str(),
                            "), which atp cannot translate.",
                        ),
                    ),
                );
            },
            None => {},
        }
        if s.len() < 3 || s[1] != ':' || (s[2] != '\\' && s[2] != '/') {
            return Err(AppError::Runtime(text::cat2(path, " is not an absolute path")));
        }
        let drive = text::to_lower(s[0]);
        let mut i: usize = 0;
        assert(self@.len() == self.mounts@.len());
        while i < self.mounts.len()
            invariant
                i <= self.mounts@.len(),
                self@.len() == self.mounts@.len(),
                s@ == path@,
                names_drive(s@),
                drive == text::lower_char(path@[0]),
                text::after_prefix(path@, "\\\\"@) is None,
                drive_mount(self@, drive) == drive_from(self@, drive, i as int),
            decreases self.mounts@.len() - i,
        {
            assert(self@[i as int] == self.mounts@[i as int]@);
            if self.mounts[i].drive == drive {
                let rest = text::replace_char(&s[3..s.len()], '\\', '/');
                let below = text::string_of(text::trim_end_char(&rest, '/'));
                return Ok(text::cat3(self.mounts[i].point.as_str(), "/", below.as_str()));
            }
            i += 1;
        }
        let shown = char_text(text::to_upper(drive));
        Err(
            AppError::Runtime(
                text::cat3("drive ", shown.as_str(), ": is not mounted in this WSL distribution"),
            ),
        )
    }
}

/// Whether a text looks like an absolute Windows path: a drive letter, a colon
/// and a separator, or a network path.
pub open spec fn is_windows_path(s: Seq<char>) -> bool {
    (names_drive(s) && text::is_letter(s[0])) || "\\\\"@.is_prefix_of(s)
}

/// Whether a text looks like an absolute Windows path.
pub fn looks_like_windows_path(path: &str) -> (r: bool)
    ensures
        r == is_windows_path(path@),
{
    let s = text::chars_of(path);
    (s.len() >= 3 && s[1] == ':' && (s[2] == '\\' || s[2] == '/') && text::letter(s[0]))
        || text::starts_with(&s, "\\\\")
}

/// Whether a text looks like an absolute Linux path.
pub open spec fn is_linux_path(s: Seq<char>) -> bool {
    s.len() > 0 && s[0] == '/'
}

/// Whether a text looks like an absolute Linux path.
pub fn looks_like_linux_path(path: &str) -> (r: bool)
    ensures
        r == is_linux_path(path@),
{
    let s = text::chars_of(path);
    s.len() > 0 && s[0] == '/'
}

/// Whether the status of a binfmt entry, which opens with either `enabled` or
/// `disabled` on a line of its own, says that it is enabled.
pub open spec fn is_enabled(status: Seq<char>) -> bool {
    let lines = text::lines_of(status);
    lines.len() > 0 && text::trimmed(lines[0]) == "enabled"@
}

/// Whether the status of a binfmt entry says that it is enabled.
pub fn enabled_in_binfmt_status(status: &str) -> (r: bool)
    ensures
        r == is_enabled(status@),
{
    let s = text::chars_of(status);
    let lines = text::lines(&s);
    assert(list::pieces(lines@).len() == lines@.len());
    if lines.len() == 0 {
        return false;
    }
    assert(list::pieces(lines@)[0] == lines@[0]@);
    text::is_text(text::trim(lines[0]), "enabled")
}

/// The files whose status tells whether Windows programs can be started.
pub fn interop_handlers() -> (r: Vec<String>)
    ensures
        list::texts(r@) == seq![
            "/proc/sys/fs/binfmt_misc/WSLInterop"@,
            "/proc/sys/fs/binfmt_misc/WSLInterop-late"@,
        ],
{
    let mut out: Vec<String> = Vec::new();
    out.push("/proc/sys/fs/binfmt_misc/WSLInterop".to_owned());
    out.push("/proc/sys/fs/binfmt_misc/WSLInterop-late".to_owned());
    assert(list::texts(out@) == seq![
        "/proc/sys/fs/binfmt_misc/WSLInterop"@,
        "/proc/sys/fs/binfmt_misc/WSLInterop-late"@,
    ]);
    out
}

/// Whether WSL's handler for Windows executables is registered and enabled,
/// given what each of the status files holds, where it could be read.
pub fn interop_registered(statuses: &Vec<Option<String>>) -> (r: bool)
    ensures
        r == exists|i: int|
            0 <= i < statuses@.len() && (#[trigger] statuses@[i]) is Some && is_enabled(
                statuses@[i]->0@,
            ),
{
    let mut i: usize = 0;
    while i < statuses.len()
        invariant
            i <= statuses@.len(),
            forall|j: int|
                0 <= j < i ==> !((#[trigger] statuses@[j]) is Some && is_enabled(
                    statuses@[j]->0@,
                )),
        decreases statuses@.len() - i,
    {
        match &statuses[i] {
            Some(status) => {
                if enabled_in_binfmt_status(status.as_str()) {
                    assert(statuses@[i as int] is Some && is_enabled(statuses@[i as int]->0@));
                    return true;
                }
            },
            None => {},
        }
        i += 1;
    }
    false
}

/// Whether a Linux program runs under WSL: one of WSL's variables is set, or the
/// kernel release, where it could be read, names Microsoft.
pub open spec fn under_wsl(distro: bool, interop: bool, release: Option<Seq<char>>) -> bool {
    distro || interop || match release {
        Some(held) => text::has_text(text::lowered(held), "microsoft"@),
        None => false,
    }
}

/// Whether a Linux program runs under WSL.
pub fn running_under_wsl(distro: bool, interop: bool, release: Option<&str>) -> (r: bool)
    ensures
        r == under_wsl(distro, interop, list::optional_str(release)),
{
    if distro || interop {
        return true;
    }
    match release {
        Some(held) => {
            let low = text::lower(&text::chars_of(held));
            text::contains(&low, "microsoft")
        },
        None => false,
    }
}

/// Path translation for the host the program is running on.
#[derive(Clone, Debug)]
pub struct Paths {
    pub host: Host,
    pub mounts: Mounts,
}

/// What path translation stands for.
pub struct PathsView {
    pub host: Host,
    pub mounts: Seq<MountView>,
}

impl View for Paths {
    type V = PathsView;

    open spec fn view(&self) -> PathsView {
        PathsView { host: self.host, mounts: self.mounts@ }
    }
}

/// A path written in either flavour as one that the host can open.
pub open spec fn native(paths: PathsView, path: Seq<char>) -> Result<Seq<char>, Failure> {
    match paths.host {
        Host::Windows => if is_linux_path(path) {
            match windows_path(usual_mounts(), path) {
                Ok(found) => Ok(found),
                Err(_) => Ok(path),
            }
        } else {
            Ok(path)
        },
        Host::Wsl => if is_windows_path(path) {
            linux_path(paths.mounts, path)
        } else {
            Ok(path)
        },
    }
}

/// A path of the host as a Windows executable needs to receive it.
pub open spec fn for_windows(paths: PathsView, path: Seq<char>) -> Result<Seq<char>, Failure> {
    match paths.host {
        Host::Windows => Ok(path),
        Host::Wsl => windows_path(paths.mounts, path),
    }
}

/// A Windows path as the user's shell would write it.
pub open spec fn for_user(paths: PathsView, path: Seq<char>) -> Seq<char> {
    match paths.host {
        Host::Windows => path,
        Host::Wsl => match linux_path(paths.mounts, path) {
            Ok(found) => found,
            Err(_) => path,
        },
    }
}

/// What the host is found to be, from whether the program is a Windows one,
/// whether it runs under WSL, and what the mount table holds.
pub open spec fn detected(windows: bool, wsl: bool, table: Option<Seq<char>>) -> Result<
    PathsView,
    Failure,
> {
    if windows {
        Ok(PathsView { host: Host::Windows, mounts: Seq::empty() })
    } else if wsl {
        Ok(
            PathsView {
                host: Host::Wsl,
                mounts: match table {
                    Some(held) => if mount_table(held).len() == 0 {
                        usual_mounts()
                    } else {
                        mount_table(held)
                    },
                    None => usual_mounts(),
                },
            },
        )
    } else {
        Err(Failure::Runtime("atp drives Atmel Studio, so it needs Windows or WSL."@))
    }
}

impl Paths {
    /// Settles on the host, refusing to run anywhere Atmel Studio cannot be
    /// reached.
    pub fn detect(windows: bool, wsl: bool, table: Option<&str>) -> (r: Result<Self, AppError>)
        ensures
            error::viewed(r) == detected(windows, wsl, list::optional_str(table)),
    {
        if windows {
            let mounts = Mounts { mounts: Vec::new() };
            assert(mounts@ == Seq::<MountView>::empty());
            return Ok(Paths { host: Host::Windows, mounts: mounts });
        }
        if !wsl {
            return Err(
                AppError::Runtime(
                    "atp drives Atmel Studio, so it needs Windows or WSL.".to_owned(),
                ),
            );
        }
        Ok(Paths { host: Host::Wsl, mounts: Mounts::current(table) })
    }

    /// Checks that this host can start a Windows program at all, given whether
    /// WSL's handler for them is registered.
    ///
    /// WSL runs `.exe` files through a binfmt handler that some distributions
    /// lose when systemd takes over binfmt registration. Without it every
    /// Windows program fails with a bare "Exec format error", which says
    /// nothing about the real problem.
    pub fn require_windows_programs(&self, registered: bool) -> (r: Result<(), AppError>)
        ensures
            r is Ok <==> self.host == Host::Windows || registered,
            r matches Err(error) ==> error@ == Failure::Runtime(
                "this WSL distribution cannot start Windows programs, so atp cannot reach Atmel Studio.\nThe WSLInterop binfmt handler is not registered. To restore it:\n  1. put [interop] enabled = true in /etc/wsl.conf\n  2. run sudo systemctl restart systemd-binfmt\n  3. if it still fails, run wsl --shutdown in Windows and start the distribution again\nReading commands such as atp output and atp configs work without it."@,
            ),
    {
        if self.host == Host::Windows || registered {
            return Ok(());
        }
        Err(
            AppError::Runtime(
                "this WSL distribution cannot start Windows programs, so atp cannot reach Atmel Studio.\nThe WSLInterop binfmt handler is not registered. To restore it:\n  1. put [interop] enabled = true in /etc/wsl.conf\n  2. run sudo systemctl restart systemd-binfmt\n  3. if it still fails, run wsl --shutdown in Windows and start the distribution again\nReading commands such as atp output and atp configs work without it.".to_owned(),
            ),
        )
    }

    /// Turns a path written in either flavour into one this host can open.
    ///
    /// A configuration file is shared between Windows and WSL, so a path in
    /// `atp.toml` may be written either way whichever host reads it.
    pub fn to_native(&self, path: &str) -> (r: Result<String, AppError>)
        ensures
            error::viewed(r) == native(self@, path@),
    {
        match self.host {
            Host::Windows => {
                if looks_like_linux_path(path) {
                    return match Mounts::automount().to_windows(path) {
                        Ok(found) => Ok(found),
                        Err(_) => Ok(path.to_owned()),
                    };
                }
                Ok(path.to_owned())
            },
            Host::Wsl => {
                if looks_like_windows_path(path) {
                    return self.mounts.to_linux(path);
                }
                Ok(path.to_owned())
            },
        }
    }

    /// Spells a path the way a Windows executable needs to receive it.
    pub fn to_windows(&self, path: &str) -> (r: Result<String, AppError>)
        ensures
            error::viewed(r) == for_windows(self@, path@),
    {
        match self.host {
            Host::Windows => Ok(path.to_owned()),
            Host::Wsl => self.mounts.to_windows(path),
        }
    }

    /// Spells a Windows path the way the user's shell would write it.
    ///
    /// Build logs are written by Windows tools, so the paths inside them are
    /// Windows paths even when the user reads the report in WSL.
    pub fn from_windows(&self, path: &str) -> (r: String)
        ensures
            r@ == for_user(self@, path@),
    {
        match self.host {
            Host::Windows => path.to_owned(),
            Host::Wsl => match self.mounts.to_linux(path) {
                Ok(found) => found,
                Err(_) => path.to_owned(),
            },
        }
    }
}

/// The mount that is found holds the path, and none before it does.
proof fn lemma_holder_from(mounts: Seq<MountView>, path: Seq<char>, from: int)
    requires
        0 <= from,
    ensures
        match holder_from(mounts, path, from) {
            Some(i) => from <= i < mounts.len() && rest_under(path, mounts[i].point) is Some
                && forall|k: int|
                from <= k < i ==> rest_under(path, (#[trigger] mounts[k]).point) is None,
            None => forall|k: int|
                from <= k < mounts.len() ==> rest_under(path, (#[trigger] mounts[k]).point)
                    is None,
        },
    decreases mounts.len() - from,
{
    if from < mounts.len() && rest_under(path, mounts[from].point) is None {
        lemma_holder_from(mounts, path, from + 1);
    }
}

/// The most specific mount wins: of the mounts in a mount table that hold a path,
/// the one that translates it has the longest mount point.
pub proof fn lemma_most_specific_mount_wins(table: Seq<char>, path: Seq<char>, other: int)
    requires
        0 <= other < mount_table(table).len(),
        rest_under(path, mount_table(table)[other].point) is Some,
    ensures
        ({
            let mounts = mount_table(table);
            &&& holder(mounts, path) matches Some(i)
            &&& text::byte_len(mounts[other].point) <= text::byte_len(mounts[i].point)
        }),
{
    let mounts = mount_table(table);
    lemma_holder_from(mounts, path, 0);
    assert(order::by_rank::<Mount>());
    order::lemma_arranged_in_order::<Mount>(mounts_in(text::lines_of(table)));
    let i = holder(mounts, path)->0;
    if i < other {
        assert(!<Mount as order::Ranked>::before(mounts[other], mounts[i]));
    }
}

/// Texts that hold none of a character are what they were when another character is
/// changed into it and back.
proof fn lemma_swapped_back(s: Seq<char>, from: char, to: char)
    requires
        !s.contains(to),
    ensures
        text::swapped(text::swapped(s, from, to), to, from) == s,
{
    let there = text::swapped(s, from, to);
    assert forall|i: int| 0 <= i < s.len() implies text::swapped(there, to, from)[i] == s[i] by {
        assert(s.contains(s[i]));
    }
    assert(text::swapped(there, to, from) == s);
}

/// A path that Windows programs are given comes back as it was: translating a Linux
/// path on a drive to Windows and back gives the same path.
///
/// `i` is the mount that holds the path, and the first one of its drive. The path
/// goes on below the mount point with a slash and `rest`, which holds no backslash
/// and neither starts nor ends with a slash.
pub proof fn lemma_linux_path_comes_back(mounts: Seq<MountView>, i: int, rest: Seq<char>)
    requires
        0 <= i < mounts.len(),
        'a' <= mounts[i].drive <= 'z',
        drive_mount(mounts, mounts[i].drive) == Some(i),
        holder(mounts, mounts[i].point + "/"@ + rest) == Some(i),
        !rest.contains('\\'),
        rest.len() > 0 ==> rest[0] != '/' && rest.last() != '/',
    ensures
        ({
            let path = mounts[i].point + "/"@ + rest;
            let there = seq![text::upper_char(mounts[i].drive), ':', '\\'] + text::swapped(
                rest,
                '/',
                '\\',
            );
            &&& windows_path(mounts, path) == Ok::<Seq<char>, Failure>(there)
            &&& linux_path(mounts, there) == Ok::<Seq<char>, Failure>(path)
        }),
{
    reveal_strlit("/");
    reveal_strlit("\\\\");
    let drive = mounts[i].drive;
    let point = mounts[i].point;
    let path = point + "/"@ + rest;
    let moved = text::swapped(rest, '/', '\\');
    let there = seq![text::upper_char(drive), ':', '\\'] + moved;
    assert(path.skip(point.len() as int) == "/"@ + rest);
    assert(path.take(point.len() as int) == point);
    assert(rest_under(path, point) == Some("/"@ + rest));
    assert(("/"@ + rest).skip(1) == rest);
    reveal_with_fuel(text::without_leading, 2);
    assert(text::without_leading("/"@ + rest, '/') == rest);
    assert(windows_path(mounts, path) == Ok::<Seq<char>, Failure>(there));
    assert(there[0] != '\\');
    assert(!"\\\\"@.is_prefix_of(there)) by {
        if "\\\\"@.is_prefix_of(there) {
            assert("\\\\"@ == there.subrange(0, 2));
            assert("\\\\"@[0] == there[0]);
        }
    }
    assert(there.skip(3) == moved);
    lemma_swapped_back(rest, '/', '\\');
    assert(text::without_trailing(rest, '/') == rest);
    assert(text::lower_char(there[0]) == drive);
    assert(under_point(point, moved) == path);
}

/// A path that a Windows program wrote is given back to it as it was: translating a
/// Windows path to Linux and back gives the same path.
///
/// `i` is the first mount of the drive, and no mount lies over the path below it.
/// The path is the drive in capitals, a colon, a backslash and `rest`, which holds
/// no slash and neither starts nor ends with a backslash.
pub proof fn lemma_windows_path_comes_back(mounts: Seq<MountView>, i: int, rest: Seq<char>)
    requires
        0 <= i < mounts.len(),
        'a' <= mounts[i].drive <= 'z',
        drive_mount(mounts, mounts[i].drive) == Some(i),
        holder(mounts, mounts[i].point + "/"@ + text::swapped(rest, '\\', '/')) == Some(i),
        !rest.contains('/'),
        rest.len() > 0 ==> rest[0] != '\\' && rest.last() != '\\',
    ensures
        ({
            let path = seq![text::upper_char(mounts[i].drive), ':', '\\'] + rest;
            let there = mounts[i].point + "/"@ + text::swapped(rest, '\\', '/');
            &&& linux_path(mounts, path) == Ok::<Seq<char>, Failure>(there)
            &&& windows_path(mounts, there) == Ok::<Seq<char>, Failure>(path)
        }),
{
    let moved = text::swapped(rest, '\\', '/');
    assert forall|k: int| 0 <= k < moved.len() implies moved[k] != '\\' by {
        assert(rest.contains(rest[k]));
    }
    lemma_swapped_back(rest, '\\', '/');
    if rest.len() > 0 {
        assert(rest.contains(rest[0]));
        assert(rest.contains(rest.last()));
    }
    lemma_linux_path_comes_back(mounts, i, moved);
}

/// In the usual layout no condition but those on the path is left: what lies below a
/// drive's letter under `/mnt` goes to Windows and comes back.
pub proof fn lemma_usual_path_comes_back(k: int, rest: Seq<char>)
    requires
        0 <= k < 26,
        !rest.contains('\\'),
        rest.len() > 0 ==> rest[0] != '/' && rest.last() != '/',
    ensures
        ({
            let path = "/mnt/"@.push(letter_at(k)) + "/"@ + rest;
            let there = seq![text::upper_char(letter_at(k)), ':', '\\'] + text::swapped(
                rest,
                '/',
                '\\',
            );
            &&& windows_path(usual_mounts(), path) == Ok::<Seq<char>, Failure>(there)
            &&& linux_path(usual_mounts(), there) == Ok::<Seq<char>, Failure>(path)
        }),
{
    reveal_strlit("/mnt/");
    reveal_strlit("/");
    let mounts = usual_mounts();
    let path = mounts[k].point + "/"@ + rest;
    assert forall|j: int| 0 <= j < 26 && j != k implies rest_under(
        path,
        (#[trigger] mounts[j]).point,
    ) is None by {
        if mounts[j].point.is_prefix_of(path) {
            assert(mounts[j].point == path.subrange(0, mounts[j].point.len() as int));
            assert(mounts[j].point[5] == path[5]);
        }
    }
    assert(mounts[k].point.is_prefix_of(path)) by {
        assert(path.subrange(0, mounts[k].point.len() as int) == mounts[k].point);
    }
    assert(path.skip(mounts[k].point.len() as int)[0] == '/');
    lemma_holder_from(mounts, path, 0);
    lemma_usual_drive(k, 0);
    lemma_linux_path_comes_back(mounts, k, rest);
}

proof fn lemma_usual_drive(k: int, from: int)
    requires
        0 <= from <= k < 26,
    ensures
        drive_from(usual_mounts(), letter_at(k), from) == Some(k),
    decreases k - from,
{
    if from < k {
        lemma_usual_drive(k, from + 1);
    }
}

/// A path that the host can open already is left as it is, whichever host it is.
pub proof fn lemma_native_path_kept(paths: PathsView, path: Seq<char>)
    requires
        paths.host == Host::Windows ==> !is_linux_path(path),
        paths.host == Host::Wsl ==> !is_windows_path(path),
    ensures
        native(paths, path) == Ok::<Seq<char>, Failure>(path),
{
}

/// A field without a backslash holds no escape and is left as it is.
pub proof fn lemma_plain_field_kept(field: Seq<char>)
    requires
        !field.contains('\\'),
    ensures
        unescaped(field) == field,
{
    field.index_of_first_ensures('\\');
}

/// A configuration file works from either host whichever way its paths are written:
/// in the usual layout a Linux path below a drive's letter is opened on Windows at the
/// path that is opened under WSL at the Linux one.
pub proof fn lemma_same_file_on_both_hosts(
    windows: PathsView,
    wsl: PathsView,
    k: int,
    rest: Seq<char>,
)
    requires
        windows.host == Host::Windows,
        wsl.host == Host::Wsl,
        wsl.mounts == usual_mounts(),
        0 <= k < 26,
        !rest.contains('\\'),
        rest.len() > 0 ==> rest[0] != '/' && rest.last() != '/',
    ensures
        ({
            let path = "/mnt/"@.push(letter_at(k)) + "/"@ + rest;
            let there = seq![text::upper_char(letter_at(k)), ':', '\\'] + text::swapped(
                rest,
                '/',
                '\\',
            );
            &&& native(windows, path) == Ok::<Seq<char>, Failure>(there)
            &&& native(windows, there) == Ok::<Seq<char>, Failure>(there)
            &&& native(wsl, there) == Ok::<Seq<char>, Failure>(path)
            &&& native(wsl, path) == Ok::<Seq<char>, Failure>(path)
        }),
{
    reveal_strlit("/mnt/");
    reveal_strlit("/");
    reveal_strlit("\\\\");
    lemma_usual_path_comes_back(k, rest);
    let path = "/mnt/"@.push(letter_at(k)) + "/"@ + rest;
    let there = seq![text::upper_char(letter_at(k)), ':', '\\'] + text::swapped(
        rest,
        '/',
        '\\',
    );
    assert(path[0] == '/');
    assert(there[0] != '/' && there[0] != '\\');
}

} // verus!
