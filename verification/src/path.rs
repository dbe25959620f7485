//! Paths as text, by the rules of the host that opens them.
//!
//! A path is a sequence of parts: a drive, a network share or the like on Windows,
//! the root, a leading dot, and names. Empty names and other dots do not count,
//! except that Windows takes a path that starts with `\\?\` as it is written: a
//! slash does not separate there and a dot is a part. A part is known by where it
//! stands in the text, so that what is cut out of a path keeps its spelling.

use vstd::prelude::*;

use crate::host::Host;
use crate::list;
use crate::order;
use crate::text;

verus! {

/// The separator that the host writes.
pub open spec fn separator(host: Host) -> char {
    match host {
        Host::Windows => '\\',
        Host::Wsl => '/',
    }
}

/// The separator that the host writes.
pub fn separator_of(host: Host) -> (r: char)
    ensures
        r == separator(host),
{
    match host {
        Host::Windows => '\\',
        Host::Wsl => '/',
    }
}

/// The separator that the host writes, as text.
pub fn separator_text(host: Host) -> (r: &'static str)
    ensures
        r@ == seq![separator(host)],
{
    proof {
        reveal_strlit("\\");
        reveal_strlit("/");
    }
    match host {
        Host::Windows => {
            assert("\\"@ == seq!['\\']);
            "\\"
        },
        Host::Wsl => {
            assert("/"@ == seq!['/']);
            "/"
        },
    }
}

/// Whether the host reads `c` as a separator.
pub open spec fn separates(host: Host, c: char) -> bool {
    c == '/' || (host == Host::Windows && c == '\\')
}

/// Whether the host reads `c` as a separator.
pub fn is_separator(host: Host, c: char) -> (r: bool)
    ensures
        r == separates(host, c),
{
    c == '/' || (host == Host::Windows && c == '\\')
}

/// What a part of a path is.
#[derive(Clone, Copy, PartialEq, Eq, Debug, Structural)]
pub enum Kind {
    /// A drive such as `C:`, a share such as `\\server\share`, or another form of
    /// either.
    Prefix,
    /// The separator that makes a path start at the top.
    Root,
    /// A leading dot, or one in a path that is taken as it is written.
    Here,
    /// A name, `..` among them.
    Name,
}

/// A part of a path, by its place in the text.
#[derive(Clone, Copy, PartialEq, Eq, Debug, Structural)]
pub struct Part {
    pub kind: Kind,
    pub start: usize,
    pub end: usize,
}

/// What a part stands for.
pub struct PartView {
    pub kind: Kind,
    pub start: int,
    pub end: int,
}

impl View for Part {
    type V = PartView;

    open spec fn view(&self) -> PartView {
        PartView { kind: self.kind, start: self.start as int, end: self.end as int }
    }
}

/// What a list of parts stands for.
pub open spec fn part_views(list: Seq<Part>) -> Seq<PartView> {
    list.map_values(|part: Part| part@)
}

/// Whether a path is taken as it is written.
pub open spec fn verbatim(host: Host, s: Seq<char>) -> bool {
    host == Host::Windows && s.len() >= 4 && s[0] == '\\' && s[1] == '\\' && s[2] == '?' && s[3]
        == '\\'
}

/// Whether a path is taken as it is written.
fn is_verbatim(host: Host, s: &[char]) -> (r: bool)
    ensures
        r == verbatim(host, s@),
{
    host == Host::Windows && s.len() >= 4 && s[0] == '\\' && s[1] == '\\' && s[2] == '?' && s[3]
        == '\\'
}

/// Whether `c` separates the names of a path.
pub open spec fn divides(host: Host, s: Seq<char>, c: char) -> bool {
    if verbatim(host, s) {
        c == '\\'
    } else {
        separates(host, c)
    }
}

/// Whether `c` separates the names of a path, which is taken as it is written or not.
fn is_divider(host: Host, written: bool, c: char) -> (r: bool)
    ensures
        r == if written {
            c == '\\'
        } else {
            separates(host, c)
        },
{
    if written {
        c == '\\'
    } else {
        is_separator(host, c)
    }
}

/// Where the name that starts at `from` ends.
pub open spec fn name_end(host: Host, s: Seq<char>, from: int) -> int
    decreases s.len() - from,
{
    if 0 <= from < s.len() && !divides(host, s, s[from]) {
        name_end(host, s, from + 1)
    } else {
        from
    }
}

/// A name ends at the first separator after its start, or at the end of the path.
pub proof fn lemma_name_end(host: Host, s: Seq<char>, from: int)
    requires
        0 <= from <= s.len(),
    ensures
        from <= name_end(host, s, from) <= s.len(),
        name_end(host, s, from) < s.len() ==> divides(host, s, s[name_end(host, s, from)]),
        forall|i: int| from <= i < name_end(host, s, from) ==> !divides(host, s, s[i]),
    decreases s.len() - from,
{
    if from < s.len() && !divides(host, s, s[from]) {
        lemma_name_end(host, s, from + 1);
    }
}

/// Where the name that starts at `from` ends.
pub fn end_of_name(host: Host, s: &[char], from: usize) -> (r: usize)
    requires
        from <= s@.len(),
    ensures
        r == name_end(host, s@, from as int),
        from <= r <= s@.len(),
{
    proof {
        lemma_name_end(host, s@, from as int);
    }
    let written = is_verbatim(host, s);
    let mut i: usize = from;
    while i < s.len() && !is_divider(host, written, s[i])
        invariant
            from <= i <= s@.len(),
            written == verbatim(host, s@),
            name_end(host, s@, from as int) == name_end(host, s@, i as int),
        decreases s@.len() - i,
    {
        i += 1;
    }
    i
}

/// Whether a path starts with a drive.
pub open spec fn has_drive(host: Host, s: Seq<char>) -> bool {
    host == Host::Windows && s.len() >= 2 && text::is_letter(s[0]) && s[1] == ':'
}

/// Where the server of a share that the path starts with would end.
pub open spec fn server_end(host: Host, s: Seq<char>) -> int {
    name_end(host, s, 2)
}

/// Whether a path starts with a share: two separators, a server and a name.
pub open spec fn has_share(host: Host, s: Seq<char>) -> bool {
    &&& host == Host::Windows
    &&& s.len() >= 2
    &&& separates(host, s[0])
    &&& separates(host, s[1])
    &&& 2 < server_end(host, s)
    &&& server_end(host, s) + 1 < name_end(host, s, server_end(host, s) + 1)
}

/// Whether a path starts with the name of a device.
pub open spec fn has_device(host: Host, s: Seq<char>) -> bool {
    &&& host == Host::Windows
    &&& s.len() >= 4
    &&& separates(host, s[0])
    &&& separates(host, s[1])
    &&& s[2] == '.'
    &&& separates(host, s[3])
}

/// Whether a path that is taken as it is written starts with a share.
pub open spec fn has_written_share(s: Seq<char>) -> bool {
    &&& s.len() >= 8
    &&& s[4] == 'U'
    &&& s[5] == 'N'
    &&& s[6] == 'C'
    &&& separates(Host::Windows, s[7])
}

/// Whether a path that is taken as it is written starts with a drive.
pub open spec fn has_written_drive(s: Seq<char>) -> bool {
    &&& s.len() >= 6
    &&& text::is_letter(s[4])
    &&& s[5] == ':'
    &&& s.len() == 6 || separates(Host::Windows, s[6])
}

/// What stands in front of the root and the names of a path.
#[derive(Clone, Copy, PartialEq, Eq, Debug, Structural)]
pub enum Form {
    Nothing,
    /// A drive such as `C:`.
    Drive,
    /// A share such as `\\server\share`.
    Share,
    /// A device such as `\\.\COM42`.
    Device,
    /// Something such as `\\?\name`.
    Written,
    /// A share such as `\\?\UNC\server\share`.
    WrittenShare,
    /// A drive such as `\\?\C:`.
    WrittenDrive,
}

/// What stands in front of the root and the names of a path.
pub open spec fn form(host: Host, s: Seq<char>) -> Form {
    if verbatim(host, s) {
        if has_written_share(s) {
            Form::WrittenShare
        } else if has_written_drive(s) {
            Form::WrittenDrive
        } else {
            Form::Written
        }
    } else if has_device(host, s) {
        Form::Device
    } else if has_drive(host, s) {
        Form::Drive
    } else if has_share(host, s) {
        Form::Share
    } else {
        Form::Nothing
    }
}

/// Where a server that starts at `from` and the name of its share end. The server may
/// have no share.
pub open spec fn share_end(host: Host, s: Seq<char>, from: int) -> int {
    let server = name_end(host, s, from);
    let end = name_end(host, s, server + 1);
    if server < s.len() && server + 1 < end {
        end
    } else {
        server
    }
}

/// How long what stands in front of the root and the names of a path is.
pub open spec fn prefix_len(host: Host, s: Seq<char>) -> int {
    match form(host, s) {
        Form::Nothing => 0,
        Form::Drive => 2,
        Form::Share => share_end(host, s, 2),
        Form::Device => name_end(host, s, 4),
        Form::Written => name_end(host, s, 4),
        Form::WrittenShare => share_end(host, s, 8),
        Form::WrittenDrive => 6,
    }
}

proof fn lemma_share_end(host: Host, s: Seq<char>, from: int)
    requires
        0 <= from <= s.len(),
    ensures
        from <= share_end(host, s, from) <= s.len(),
{
    lemma_name_end(host, s, from);
    let server = name_end(host, s, from);
    if server < s.len() {
        lemma_name_end(host, s, server + 1);
    }
}

/// What stands in front lies within the path, and is something.
proof fn lemma_prefix_len(host: Host, s: Seq<char>)
    ensures
        0 <= prefix_len(host, s) <= s.len(),
        form(host, s) != Form::Nothing <==> prefix_len(host, s) > 0,
        form(host, s) != Form::Nothing && form(host, s) != Form::Drive ==> prefix_len(host, s) >= 4,
        form(host, s) == Form::WrittenShare ==> prefix_len(host, s) >= 8,
{
    match form(host, s) {
        Form::Share => {
            lemma_name_end(host, s, 2);
            lemma_share_end(host, s, 2);
        },
        Form::Device => {
            lemma_name_end(host, s, 4);
        },
        Form::Written => {
            lemma_name_end(host, s, 4);
        },
        Form::WrittenShare => {
            lemma_share_end(host, s, 8);
        },
        _ => {},
    }
}

/// Where a server that starts at `from` and the name of its share end.
fn end_of_share(host: Host, s: &[char], from: usize) -> (r: usize)
    requires
        from <= s@.len(),
    ensures
        r == share_end(host, s@, from as int),
        from <= r <= s@.len(),
{
    proof {
        lemma_share_end(host, s@, from as int);
    }
    let server = end_of_name(host, s, from);
    if server < s.len() {
        let end = end_of_name(host, s, server + 1);
        if end > server + 1 {
            return end;
        }
    }
    server
}

/// How long what stands in front is, and what it is.
fn measure_prefix(host: Host, s: &[char]) -> (r: (usize, Form))
    ensures
        r.0 == prefix_len(host, s@),
        r.0 <= s@.len(),
        r.1 == form(host, s@),
{
    proof {
        lemma_prefix_len(host, s@);
    }
    let n: usize = s.len();
    if host != Host::Windows || n < 2 {
        return (0, Form::Nothing);
    }
    if is_verbatim(host, s) {
        if n >= 8 && s[4] == 'U' && s[5] == 'N' && s[6] == 'C' && is_separator(host, s[7]) {
            return (end_of_share(host, s, 8), Form::WrittenShare);
        }
        if n >= 6 && text::letter(s[4]) && s[5] == ':' && (n == 6 || is_separator(host, s[6])) {
            return (6, Form::WrittenDrive);
        }
        return (end_of_name(host, s, 4), Form::Written);
    }
    let apart = is_separator(host, s[0]) && is_separator(host, s[1]);
    if apart && n >= 4 && s[2] == '.' && is_separator(host, s[3]) {
        return (end_of_name(host, s, 4), Form::Device);
    }
    if text::letter(s[0]) && s[1] == ':' {
        return (2, Form::Drive);
    }
    if apart {
        let server = end_of_name(host, s, 2);
        if server > 2 && server < n {
            let share = end_of_name(host, s, server + 1);
            if share > server + 1 {
                return (share, Form::Share);
            }
        }
    }
    (0, Form::Nothing)
}

/// Whether a separator follows the drive or share of a path.
pub open spec fn has_separator_root(host: Host, s: Seq<char>) -> bool {
    prefix_len(host, s) < s.len() && separates(host, s[prefix_len(host, s)])
}

/// Whether a path starts at the top. Whatever stands in front is its own top, unless it
/// is a drive.
pub open spec fn has_root(host: Host, s: Seq<char>) -> bool {
    has_separator_root(host, s) || (form(host, s) != Form::Nothing && form(host, s) != Form::Drive)
}

/// Whether a path means the same wherever it is opened.
pub open spec fn absolute(host: Host, s: Seq<char>) -> bool {
    match host {
        Host::Windows => prefix_len(host, s) > 0 && has_root(host, s),
        Host::Wsl => has_root(host, s),
    }
}

/// Whether a dot stands alone in front of a path.
pub open spec fn starts_here(host: Host, s: Seq<char>) -> bool {
    let from = prefix_len(host, s);
    &&& !has_root(host, s)
    &&& from < s.len()
    &&& s[from] == '.'
    &&& (from + 1 == s.len() || separates(host, s[from + 1]))
}

/// Whether the name from `start` to `end` is a dot.
pub open spec fn is_dot(s: Seq<char>, start: int, end: int) -> bool {
    end == start + 1 && s[start] == '.'
}

/// Whether the name from `start` to `end` counts for nothing.
pub open spec fn is_blank(host: Host, s: Seq<char>, start: int, end: int) -> bool {
    end == start || (is_dot(s, start, end) && !verbatim(host, s))
}

/// The part that the name from `start` to `end` is.
pub open spec fn named_part(s: Seq<char>, start: int, end: int) -> PartView {
    PartView {
        kind: if is_dot(s, start, end) {
            Kind::Here
        } else {
            Kind::Name
        },
        start: start,
        end: end,
    }
}

/// The names of a path from `from` on.
pub open spec fn names(host: Host, s: Seq<char>, from: int) -> Seq<PartView>
    decreases s.len() + 1 - from,
{
    if from < 0 || from >= s.len() {
        Seq::empty()
    } else {
        let end = name_end(host, s, from);
        proof {
            lemma_name_end(host, s, from);
        }
        let rest = names(host, s, end + 1);
        if is_blank(host, s, from, end) {
            rest
        } else {
            seq![named_part(s, from, end)] + rest
        }
    }
}

/// The parts of a path that stand in front of its names.
pub open spec fn head(host: Host, s: Seq<char>) -> Seq<PartView> {
    let n = prefix_len(host, s);
    let prefix = if n > 0 {
        seq![PartView { kind: Kind::Prefix, start: 0, end: n }]
    } else {
        Seq::empty()
    };
    if has_separator_root(host, s) {
        prefix.push(PartView { kind: Kind::Root, start: n, end: n + 1 })
    } else if form(host, s) == Form::Share || form(host, s) == Form::Device {
        prefix.push(PartView { kind: Kind::Root, start: n, end: n })
    } else if starts_here(host, s) {
        prefix.push(PartView { kind: Kind::Here, start: n, end: n + 1 })
    } else {
        prefix
    }
}

/// Where the names of a path start.
pub open spec fn body_start(host: Host, s: Seq<char>) -> int {
    if has_separator_root(host, s) || starts_here(host, s) {
        prefix_len(host, s) + 1
    } else {
        prefix_len(host, s)
    }
}

/// The parts of a path.
pub open spec fn parts(host: Host, s: Seq<char>) -> Seq<PartView> {
    head(host, s) + names(host, s, body_start(host, s))
}

/// Whether a part lies within a path of `n` characters.
pub open spec fn within(part: PartView, n: int) -> bool {
    0 <= part.start <= part.end <= n
}

proof fn lemma_names_within(host: Host, s: Seq<char>, from: int)
    requires
        0 <= from,
    ensures
        forall|i: int|
            0 <= i < names(host, s, from).len() ==> within(#[trigger] names(host, s, from)[i], s.len() as int)
                && from <= names(host, s, from)[i].start && names(host, s, from)[i].kind != Kind::Prefix
                && names(host, s, from)[i].kind != Kind::Root
                && names(host, s, from)[i].start < names(host, s, from)[i].end,
        forall|i: int, j: int|
            0 <= i < j < names(host, s, from).len() ==> names(host, s, from)[i].end <= names(
                host,
                s,
                from,
            )[j].start,
    decreases s.len() + 1 - from,
{
    if from < s.len() {
        let end = name_end(host, s, from);
        lemma_name_end(host, s, from);
        lemma_names_within(host, s, end + 1);
        let all = names(host, s, from);
        let rest = names(host, s, end + 1);
        if !is_blank(host, s, from, end) {
            assert forall|i: int| 0 <= i < all.len() implies within(#[trigger] all[i], s.len() as int)
                && from <= all[i].start && all[i].kind != Kind::Prefix && all[i].kind != Kind::Root
                && all[i].start < all[i].end by {
                if i > 0 {
                    assert(all[i] == rest[i - 1]);
                }
            }
            assert forall|i: int, j: int| 0 <= i < j < all.len() implies all[i].end <= all[j].start by {
                assert(all[j] == rest[j - 1]);
                if i > 0 {
                    assert(all[i] == rest[i - 1]);
                }
            }
        }
    }
}

/// The parts of a path lie within it, in order.
pub proof fn lemma_parts_within(host: Host, s: Seq<char>)
    ensures
        forall|i: int|
            0 <= i < parts(host, s).len() ==> within(#[trigger] parts(host, s)[i], s.len() as int),
        forall|i: int, j: int|
            0 <= i < j < parts(host, s).len() ==> (#[trigger] parts(host, s)[i]).end
                <= (#[trigger] parts(host, s)[j]).start,
{
    lemma_prefix_len(host, s);
    lemma_names_within(host, s, body_start(host, s));
    let h = head(host, s);
    let n = names(host, s, body_start(host, s));
    let all = parts(host, s);
    assert forall|i: int| 0 <= i < all.len() implies within(#[trigger] all[i], s.len() as int) by {
        if i >= h.len() {
            assert(all[i] == n[i - h.len()]);
        }
    }
    assert forall|i: int, j: int| 0 <= i < j < all.len() implies (#[trigger] all[i]).end <= (
    #[trigger] all[j]).start by {
        if j >= h.len() {
            assert(all[j] == n[j - h.len()]);
        }
        if i >= h.len() {
            assert(all[i] == n[i - h.len()]);
        }
    }
}

/// The parts of a path.
pub fn parts_of(host: Host, s: &[char]) -> (r: Vec<Part>)
    ensures
        part_views(r@) == parts(host, s@),
        forall|i: int|
            0 <= i < r@.len() ==> (#[trigger] r@[i]).start <= r@[i].end <= s@.len(),
        forall|i: int, j: int|
            0 <= i < j < r@.len() ==> (#[trigger] r@[i]).end <= (#[trigger] r@[j]).start,
{
    let mut out: Vec<Part> = Vec::new();
    let (n, form) = measure_prefix(host, s);
    let written = is_verbatim(host, s);
    proof {
        lemma_prefix_len(host, s@);
    }
    if n > 0 {
        out.push(Part { kind: Kind::Prefix, start: 0, end: n });
    }
    let mut from: usize = n;
    if n < s.len() && is_separator(host, s[n]) {
        out.push(Part { kind: Kind::Root, start: n, end: n + 1 });
        from = n + 1;
    } else if form == Form::Share || form == Form::Device {
        out.push(Part { kind: Kind::Root, start: n, end: n });
    } else if !written && n < s.len() && s[n] == '.' && (n + 1 == s.len() || is_separator(host, s[n + 1])) {
        out.push(Part { kind: Kind::Here, start: n, end: n + 1 });
        from = n + 1;
    }
    assert(part_views(out@) == head(host, s@));
    assert(from == body_start(host, s@));
    assert(part_views(out@) + names(host, s@, from as int) == parts(host, s@));
    while from < s.len()
        invariant
            from <= s@.len(),
            written == verbatim(host, s@),
            part_views(out@) + names(host, s@, from as int) == parts(host, s@),
        decreases s@.len() - from,
    {
        let end = end_of_name(host, s, from);
        let ghost before = out@;
        let dot = end == from + 1 && s[from] == '.';
        if !(end == from || (dot && !written)) {
            let kind = if dot {
                Kind::Here
            } else {
                Kind::Name
            };
            let part = Part { kind: kind, start: from, end: end };
            out.push(part);
            assert(part_views(out@) == part_views(before).push(part@));
        }
        assert(part_views(out@) + names(host, s@, end + 1) == part_views(before) + names(
            host,
            s@,
            from as int,
        ));
        if end == s.len() {
            assert(names(host, s@, end + 1) == names(host, s@, end as int));
            from = end;
        } else {
            from = end + 1;
        }
    }
    assert(part_views(out@) + names(host, s@, from as int) == part_views(out@));
    proof {
        lemma_parts_within(host, s@);
        assert forall|i: int| 0 <= i < out@.len() implies (#[trigger] out@[i]).start <= out@[i].end
            <= s@.len() by {
            assert(part_views(out@)[i] == out@[i]@);
            assert(within(parts(host, s@)[i], s@.len() as int));
        }
        assert forall|i: int, j: int| 0 <= i < j < out@.len() implies (#[trigger] out@[i]).end <= (
        #[trigger] out@[j]).start by {
            assert(part_views(out@)[i] == out@[i]@);
            assert(part_views(out@)[j] == out@[j]@);
            assert(parts(host, s@)[i].end <= parts(host, s@)[j].start);
        }
    }
    out
}

/// A part of a path with its text.
#[derive(Clone, Debug)]
pub struct Piece {
    pub kind: Kind,
    pub name: Vec<char>,
}

/// What a part with its text stands for.
pub struct PieceView {
    pub kind: Kind,
    pub name: Seq<char>,
}

impl View for Piece {
    type V = PieceView;

    open spec fn view(&self) -> PieceView {
        PieceView { kind: self.kind, name: self.name@ }
    }
}

/// A part of a path with its text, where every root is written the same.
pub open spec fn piece(s: Seq<char>, part: PartView) -> PieceView {
    PieceView {
        kind: part.kind,
        name: if part.kind == Kind::Root {
            seq!['\\']
        } else {
            s.subrange(part.start, part.end)
        },
    }
}

/// The parts of a path with their texts.
pub open spec fn path_pieces(host: Host, s: Seq<char>) -> Seq<PieceView> {
    parts(host, s).map_values(|part: PartView| piece(s, part))
}

/// Whether a part is a name that does not go up.
pub open spec fn plain_name(piece: PieceView) -> bool {
    piece.kind == Kind::Name && piece.name != ".."@
}

/// Parts with one more put behind them: the top takes them back to what stands in
/// front, a dot leaves them as they are, and a name that goes up takes the last name
/// away.
pub open spec fn with_piece(pieces: Seq<PieceView>, more: PieceView) -> Seq<PieceView> {
    match more.kind {
        Kind::Root => if pieces.len() > 0 {
            seq![pieces[0], more]
        } else {
            seq![more]
        },
        Kind::Here => pieces,
        Kind::Prefix => pieces.push(more),
        Kind::Name => if more.name != ".."@ {
            pieces.push(more)
        } else if pieces.len() > 0 && plain_name(pieces.last()) {
            pieces.drop_last()
        } else {
            pieces
        },
    }
}

/// Parts with others put behind them one by one.
pub open spec fn with_pieces(pieces: Seq<PieceView>, more: Seq<PieceView>) -> Seq<PieceView>
    decreases more.len(),
{
    if more.len() == 0 {
        pieces
    } else {
        with_piece(with_pieces(pieces, more.drop_last()), more.last())
    }
}

/// Parts written down as a path of Windows.
pub open spec fn written(pieces: Seq<PieceView>) -> Seq<char>
    decreases pieces.len(),
{
    if pieces.len() == 0 {
        Seq::empty()
    } else {
        let front = pieces.drop_last();
        let last = pieces.last();
        if front.len() > 0 && front.last().kind != Kind::Root && last.kind != Kind::Root {
            written(front).push('\\') + last.name
        } else {
            written(front) + last.name
        }
    }
}

/// `rest` taken from the directory `base`.
///
/// A path that names its own top or drive stands alone. On Windows one that
/// names only a top keeps the drive or share of `base`. A directory that is taken as
/// it is written cannot be followed by dots, so they are resolved.
pub open spec fn joined(host: Host, base: Seq<char>, rest: Seq<char>) -> Seq<char> {
    if absolute(host, rest) || prefix_len(host, rest) > 0 {
        rest
    } else if verbatim(host, base) && rest.len() > 0 {
        written(with_pieces(path_pieces(host, base), path_pieces(host, rest)))
    } else if has_root(host, rest) {
        base.take(prefix_len(host, base)) + rest
    } else if base.len() == 0 || separates(host, base.last()) || (has_drive(host, base)
        && base.len() == 2) {
        base + rest
    } else {
        base + seq![separator(host)] + rest
    }
}

/// Whether a path means the same wherever it is opened.
pub fn is_absolute(host: Host, path: &str) -> (r: bool)
    ensures
        r == absolute(host, path@),
{
    let s = text::chars_of(path);
    let (n, form) = measure_prefix(host, &s);
    let root = (form != Form::Nothing && form != Form::Drive) || (n < s.len() && is_separator(
        host,
        s[n],
    ));
    match host {
        Host::Windows => n > 0 && root,
        Host::Wsl => root,
    }
}

/// The parts of a path with their texts.
fn pieces_of(host: Host, s: &[char]) -> (r: Vec<Piece>)
    ensures
        order::views(r@) == path_pieces(host, s@),
{
    let all = parts_of(host, s);
    let ghost pieces = path_pieces(host, s@);
    let mut out: Vec<Piece> = Vec::new();
    let mut i: usize = 0;
    assert(parts(host, s@).len() == all@.len());
    assert(order::views(out@) == pieces.take(0));
    while i < all.len()
        invariant
            i <= all@.len(),
            part_views(all@) == parts(host, s@),
            parts(host, s@).len() == all@.len(),
            pieces == path_pieces(host, s@),
            forall|j: int|
                0 <= j < all@.len() ==> (#[trigger] all@[j]).start <= all@[j].end <= s@.len(),
            order::views(out@) == pieces.take(i as int),
        decreases all@.len() - i,
    {
        assert(parts(host, s@)[i as int] == all@[i as int]@);
        let part = all[i];
        let mut name: Vec<char> = Vec::new();
        if part.kind == Kind::Root {
            name.push('\\');
        } else {
            text::push_all(&mut name, &s[part.start..part.end]);
        }
        let ghost before = out@;
        let item = Piece { kind: part.kind, name: name };
        out.push(item);
        assert(order::views(out@) == order::views(before).push(item@));
        assert(pieces[i as int] == item@);
        i += 1;
    }
    assert(pieces.take(i as int) == pieces);
    out
}

/// Whether a part is a name that does not go up.
fn is_plain_name(piece: &Piece) -> (r: bool)
    ensures
        r == plain_name(piece@),
{
    piece.kind == Kind::Name && !text::is_text(&piece.name, "..")
}

/// Puts one more part behind others.
fn put_piece(pieces: &mut Vec<Piece>, more: Piece)
    ensures
        order::views(final(pieces)@) == with_piece(order::views(old(pieces)@), more@),
{
    let ghost before = pieces@;
    let ghost all = order::views(before);
    assert(all.len() == before.len());
    let up = text::is_text(&more.name, "..");
    match more.kind {
        Kind::Here => {},
        Kind::Root => {
            while pieces.len() > 1
                invariant
                    order::views(pieces@) == all.take(pieces@.len() as int),
                    pieces@.len() <= all.len(),
                    all.len() >= 1 ==> pieces@.len() >= 1,
                decreases pieces@.len(),
            {
                let ghost held = pieces@;
                let _ = pieces.pop();
                assert(order::views(pieces@) == order::views(held).drop_last());
            }
            let ghost held = pieces@;
            pieces.push(more);
            assert(order::views(pieces@) == order::views(held).push(more@));
            assert(order::views(held) == all.take(held.len() as int));
            assert(order::views(pieces@) == with_piece(all, more@));
        },
        Kind::Name if up => {
            let n: usize = pieces.len();
            if n > 0 {
                assert(all[n - 1] == before[n - 1]@);
                if is_plain_name(&pieces[n - 1]) {
                    let _ = pieces.pop();
                    assert(order::views(pieces@) == all.drop_last());
                }
            }
        },
        _ => {
            pieces.push(more);
            assert(order::views(pieces@) == all.push(more@));
        },
    }
}

/// Writes parts down as a path of Windows.
fn write_pieces(pieces: &Vec<Piece>) -> (r: Vec<char>)
    ensures
        r@ == written(order::views(pieces@)),
{
    let ghost all = order::views(pieces@);
    let mut out: Vec<char> = Vec::new();
    let mut i: usize = 0;
    while i < pieces.len()
        invariant
            i <= pieces@.len(),
            all == order::views(pieces@),
            all.len() == pieces@.len(),
            out@ == written(all.take(i as int)),
        decreases pieces@.len() - i,
    {
        assert(all.take(i as int + 1).drop_last() == all.take(i as int));
        assert(all[i as int] == pieces@[i as int]@);
        if i > 0 {
            assert(all.take(i as int).last() == all[i - 1]);
            assert(all[i - 1] == pieces@[i - 1]@);
            if pieces[i - 1].kind != Kind::Root && pieces[i].kind != Kind::Root {
                out.push('\\');
            }
        }
        text::push_all(&mut out, &pieces[i].name);
        i += 1;
    }
    assert(all.take(i as int) == all);
    out
}

/// `rest` taken from a directory that is taken as it is written.
fn join_written(host: Host, base: &[char], rest: &[char]) -> (r: String)
    ensures
        r@ == written(with_pieces(path_pieces(host, base@), path_pieces(host, rest@))),
{
    let mut pieces = pieces_of(host, base);
    let more = pieces_of(host, rest);
    let ghost first = path_pieces(host, base@);
    let ghost all = path_pieces(host, rest@);
    let mut i: usize = 0;
    assert(all.len() == more@.len());
    while i < more.len()
        invariant
            i <= more@.len(),
            all == order::views(more@),
            all.len() == more@.len(),
            order::views(pieces@) == with_pieces(first, all.take(i as int)),
        decreases more@.len() - i,
    {
        assert(all.take(i as int + 1).drop_last() == all.take(i as int));
        assert(all[i as int] == more@[i as int]@);
        let mut name: Vec<char> = Vec::new();
        text::push_all(&mut name, &more[i].name);
        put_piece(&mut pieces, Piece { kind: more[i].kind, name: name });
        i += 1;
    }
    assert(all.take(i as int) == all);
    text::string_of(&write_pieces(&pieces))
}

/// `rest` taken from the directory `base`.
pub fn join(host: Host, base: &str, rest: &str) -> (r: String)
    ensures
        r@ == joined(host, base@, rest@),
{
    let b = text::chars_of(base);
    let s = text::chars_of(rest);
    proof {
        lemma_prefix_len(host, s@);
    }
    let (n, form) = measure_prefix(host, &s);
    let root = (form != Form::Nothing && form != Form::Drive) || (n < s.len() && is_separator(
        host,
        s[n],
    ));
    if n > 0 || (root && host == Host::Wsl) {
        return rest.to_owned();
    }
    if s.len() > 0 && is_verbatim(host, &b) {
        return join_written(host, &b, &s);
    }
    let (m, _) = measure_prefix(host, &b);
    if root {
        let front = text::string_of(&b[0..m]);
        return text::cat2(front.as_str(), rest);
    }
    let k: usize = b.len();
    if k == 0 || is_separator(host, b[k - 1]) || (host == Host::Windows && k == 2 && text::letter(
        b[0],
    ) && b[1] == ':') {
        text::cat2(base, rest)
    } else {
        text::cat3(base, separator_text(host), rest)
    }
}

/// The directory that holds what a path names, unless it names a top.
pub open spec fn parent(host: Host, s: Seq<char>) -> Option<Seq<char>> {
    let all = parts(host, s);
    if all.len() == 0 || all.last().kind == Kind::Prefix || all.last().kind == Kind::Root {
        None
    } else if all.len() == 1 {
        Some(Seq::empty())
    } else {
        Some(s.take(all[all.len() - 2].end))
    }
}

/// A path is longer than its parent.
pub proof fn lemma_parent_shorter(host: Host, s: Seq<char>)
    ensures
        parent(host, s) matches Some(held) ==> held.len() < s.len(),
{
    lemma_parts_within(host, s);
    lemma_prefix_len(host, s);
    lemma_names_within(host, s, body_start(host, s));
    let all = parts(host, s);
    let h = head(host, s);
    if all.len() > h.len() {
        assert(all.last() == names(host, s, body_start(host, s)).last());
    }
    if all.len() > 1 {
        assert(all[all.len() - 2].end <= all[all.len() - 1].start);
    }
}

/// A path, its parent, the parent of that, and so on.
pub open spec fn ancestors(host: Host, s: Seq<char>) -> Seq<Seq<char>>
    decreases s.len(),
{
    match parent(host, s) {
        Some(held) => {
            proof {
                lemma_parent_shorter(host, s);
            }
            seq![s] + ancestors(host, held)
        },
        None => seq![s],
    }
}

/// The directory that holds what a path names, unless it names a top.
pub fn parent_of(host: Host, path: &str) -> (r: Option<String>)
    ensures
        list::optional(r) == parent(host, path@),
{
    let s = text::chars_of(path);
    let all = parts_of(host, &s);
    let n: usize = all.len();
    assert(parts(host, path@).len() == n);
    if n == 0 {
        return None;
    }
    assert(parts(host, path@)[n - 1] == all@[n - 1]@);
    let kind = all[n - 1].kind;
    if kind == Kind::Prefix || kind == Kind::Root {
        return None;
    }
    if n == 1 {
        return Some(String::new());
    }
    assert(parts(host, path@)[n - 2] == all@[n - 2]@);
    let end = all[n - 2].end;
    Some(text::string_of(&s[0..end]))
}

/// A path, its parent, the parent of that, and so on.
pub fn ancestors_of(host: Host, path: &str) -> (r: Vec<String>)
    ensures
        list::texts(r@) == ancestors(host, path@),
{
    let mut out: Vec<String> = Vec::new();
    let mut current: String = path.to_owned();
    loop
        invariant_except_break
            list::texts(out@) + ancestors(host, current@) == ancestors(host, path@),
        ensures
            list::texts(out@) == ancestors(host, path@),
        decreases current@.len(),
    {
        let above = parent_of(host, current.as_str());
        proof {
            lemma_parent_shorter(host, current@);
        }
        let ghost before = out@;
        let ghost here = current@;
        out.push(current);
        assert(list::texts(out@) == list::texts(before).push(here));
        match above {
            Some(held) => {
                assert(list::texts(out@) + ancestors(host, held@) == list::texts(before)
                    + ancestors(host, here));
                current = held;
            },
            None => {
                assert(list::texts(out@) == list::texts(before) + ancestors(host, here));
                break;
            },
        }
    }
    out
}

/// The directory that holds what a path names, or a dot where it names a top.
pub open spec fn directory(host: Host, s: Seq<char>) -> Seq<char> {
    match parent(host, s) {
        Some(held) => held,
        None => "."@,
    }
}

/// The directory that holds what a path names, or a dot where it names a top.
pub fn directory_of(host: Host, path: &str) -> (r: String)
    ensures
        r@ == directory(host, path@),
{
    match parent_of(host, path) {
        Some(held) => held,
        None => ".".to_owned(),
    }
}

/// The last name of a path, unless the path ends otherwise.
pub open spec fn file_name(host: Host, s: Seq<char>) -> Option<Seq<char>> {
    let all = parts(host, s);
    if all.len() > 0 && all.last().kind == Kind::Name {
        let name = s.subrange(all.last().start, all.last().end);
        if name == ".."@ {
            None
        } else {
            Some(name)
        }
    } else {
        None
    }
}

/// The last name of a path, unless the path ends otherwise.
fn last_name<'a>(host: Host, s: &'a [char]) -> (r: Option<&'a [char]>)
    ensures
        match r {
            Some(name) => file_name(host, s@) == Some(name@),
            None => file_name(host, s@) is None,
        },
{
    let all = parts_of(host, s);
    let n: usize = all.len();
    assert(parts(host, s@).len() == n);
    if n == 0 {
        return None;
    }
    assert(parts(host, s@)[n - 1] == all@[n - 1]@);
    let last = all[n - 1];
    if last.kind != Kind::Name {
        return None;
    }
    let name: &'a [char] = &s[last.start..last.end];
    if text::is_text(name, "..") {
        None
    } else {
        Some(name)
    }
}

/// The last name of a path, unless the path ends otherwise.
pub fn file_name_of(host: Host, path: &str) -> (r: Option<String>)
    ensures
        list::optional(r) == file_name(host, path@),
{
    let s = text::chars_of(path);
    match last_name(host, &s) {
        Some(name) => Some(text::string_of(name)),
        None => None,
    }
}

/// A file name without its extension: what stands before its last dot, unless
/// that dot comes first.
pub open spec fn stem(name: Seq<char>) -> Seq<char> {
    match name.index_of_last('.') {
        Some(i) => if i > 0 {
            name.take(i)
        } else {
            name
        },
        None => name,
    }
}

/// What stands after the last dot of a file name, unless that dot comes first.
pub open spec fn suffix(name: Seq<char>) -> Option<Seq<char>> {
    match name.index_of_last('.') {
        Some(i) => if i > 0 {
            Some(name.skip(i + 1))
        } else {
            None
        },
        None => None,
    }
}

/// The last name of a path without its extension.
pub open spec fn file_stem(host: Host, s: Seq<char>) -> Option<Seq<char>> {
    match file_name(host, s) {
        Some(name) => Some(stem(name)),
        None => None,
    }
}

/// The extension of the last name of a path.
pub open spec fn extension(host: Host, s: Seq<char>) -> Option<Seq<char>> {
    match file_name(host, s) {
        Some(name) => suffix(name),
        None => None,
    }
}

/// The last name of a path without its extension.
pub fn file_stem_of(host: Host, path: &str) -> (r: Option<String>)
    ensures
        list::optional(r) == file_stem(host, path@),
{
    let s = text::chars_of(path);
    match last_name(host, &s) {
        Some(name) => match text::rfind_char(name, '.') {
            Some(i) => if i > 0 {
                Some(text::string_of(&name[0..i]))
            } else {
                Some(text::string_of(name))
            },
            None => Some(text::string_of(name)),
        },
        None => None,
    }
}

/// The extension of the last name of a path.
pub fn extension_of(host: Host, path: &str) -> (r: Option<String>)
    ensures
        list::optional(r) == extension(host, path@),
{
    let s = text::chars_of(path);
    match last_name(host, &s) {
        Some(name) => {
            let n: usize = name.len();
            match text::rfind_char(name, '.') {
                Some(i) => if i > 0 {
                    Some(text::string_of(&name[i + 1..n]))
                } else {
                    None
                },
                None => None,
            }
        },
        None => None,
    }
}

/// Whether a part of one path is the same as a part of another. Drives are the
/// same in either case, and shares with either separator.
pub open spec fn same_part(a: Seq<char>, p: PartView, b: Seq<char>, q: PartView) -> bool {
    part_key(a, p) == part_key(b, q)
}

/// Whether a path starts with all the parts of `base`.
pub open spec fn lies_in(host: Host, path: Seq<char>, base: Seq<char>) -> bool {
    let p = parts(host, path);
    let b = parts(host, base);
    &&& b.len() <= p.len()
    &&& forall|i: int| 0 <= i < b.len() ==> same_part(path, #[trigger] p[i], base, b[i])
}

/// What of a path lies below `base`, or all of the path where nothing does.
pub open spec fn below(host: Host, path: Seq<char>, base: Seq<char>) -> Seq<char> {
    let p = parts(host, path);
    let b = parts(host, base);
    if lies_in(host, path, base) && b.len() < p.len() {
        let rest = path.subrange(p[b.len() as int].start, p.last().end);
        if rest.len() == 0 {
            path
        } else {
            rest
        }
    } else {
        path
    }
}

/// Whether a part of one path is the same as a part of another.
fn parts_agree(a: &[char], p: Part, b: &[char], q: Part) -> (r: bool)
    requires
        p.start <= p.end <= a@.len(),
        q.start <= q.end <= b@.len(),
    ensures
        r == same_part(a@, p@, b@, q@),
{
    let x = key_of(a, p);
    let y = key_of(b, q);
    x.rank == y.rank && text::same(&x.name, &y.name)
}

/// What of a path lies below `base`, or all of the path where nothing does.
pub fn below_of(host: Host, path: &str, base: &str) -> (r: String)
    ensures
        r@ == below(host, path@, base@),
{
    let s = text::chars_of(path);
    let t = text::chars_of(base);
    let p = parts_of(host, &s);
    let b = parts_of(host, &t);
    assert(parts(host, path@).len() == p@.len());
    assert(parts(host, base@).len() == b@.len());
    if b.len() > p.len() {
        return path.to_owned();
    }
    let mut i: usize = 0;
    while i < b.len()
        invariant
            i <= b@.len() <= p@.len(),
            s@ == path@,
            t@ == base@,
            part_views(p@) == parts(host, path@),
            part_views(b@) == parts(host, base@),
            forall|j: int| 0 <= j < p@.len() ==> (#[trigger] p@[j]).start <= p@[j].end <= s@.len(),
            forall|j: int| 0 <= j < b@.len() ==> (#[trigger] b@[j]).start <= b@[j].end <= t@.len(),
            forall|j: int|
                0 <= j < i ==> same_part(
                    path@,
                    #[trigger] parts(host, path@)[j],
                    base@,
                    parts(host, base@)[j],
                ),
        decreases b@.len() - i,
    {
        assert(parts(host, path@)[i as int] == p@[i as int]@);
        assert(parts(host, base@)[i as int] == b@[i as int]@);
        if !parts_agree(&s, p[i], &t, b[i]) {
            assert(!lies_in(host, path@, base@));
            return path.to_owned();
        }
        i += 1;
    }
    let k: usize = b.len();
    let n: usize = p.len();
    if k == n {
        return path.to_owned();
    }
    assert(parts(host, path@)[k as int] == p@[k as int]@);
    assert(parts(host, path@)[n - 1] == p@[n - 1]@);
    let start = p[k].start;
    let end = p[n - 1].end;
    assert(start <= end);
    if start == end {
        return path.to_owned();
    }
    text::string_of(&s[start..end])
}

/// What decides where a part of a path belongs among others: the place of its kind,
/// and then its text.
#[derive(Clone, Debug)]
pub struct Key {
    pub rank: u8,
    pub name: Vec<char>,
}

/// What a key stands for.
pub struct KeyView {
    pub rank: int,
    pub name: Seq<char>,
}

impl View for Key {
    type V = KeyView;

    open spec fn view(&self) -> KeyView {
        KeyView { rank: self.rank as int, name: self.name@ }
    }
}

/// The key of what stands in front of a path of Windows.
pub open spec fn prefix_key(s: Seq<char>) -> KeyView {
    let n = prefix_len(Host::Windows, s);
    match form(Host::Windows, s) {
        Form::Written => KeyView { rank: 0, name: s.subrange(4, n) },
        Form::WrittenShare => KeyView { rank: 1, name: text::swapped(s.subrange(8, n), '\\', '\0') },
        Form::WrittenDrive => KeyView { rank: 2, name: text::lowered(s.subrange(4, n)) },
        Form::Device => KeyView { rank: 3, name: s.subrange(4, n) },
        Form::Share => KeyView {
            rank: 4,
            name: text::swapped(text::swapped(s.subrange(2, n), '/', '\\'), '\\', '\0'),
        },
        Form::Drive => KeyView { rank: 5, name: text::lowered(s.take(n)) },
        Form::Nothing => KeyView { rank: 5, name: Seq::empty() },
    }
}

/// The key of a part. What stands in front comes first, in the order of its forms,
/// drives whatever their case and shares by their server and then by their name. Then
/// come the top, a dot, a name that goes up, and every other name.
pub open spec fn part_key(s: Seq<char>, p: PartView) -> KeyView {
    let name = s.subrange(p.start, p.end);
    match p.kind {
        Kind::Prefix => prefix_key(s),
        Kind::Root => KeyView { rank: 6, name: Seq::empty() },
        Kind::Here => KeyView { rank: 7, name: Seq::empty() },
        Kind::Name => if name == ".."@ {
            KeyView { rank: 8, name: Seq::empty() }
        } else {
            KeyView { rank: 9, name: name }
        },
    }
}

/// The keys of the parts of a path.
pub open spec fn path_keys(host: Host, s: Seq<char>) -> Seq<KeyView> {
    parts(host, s).map_values(|p: PartView| part_key(s, p))
}

/// Whether what has one key belongs before what has another.
pub open spec fn key_before(a: KeyView, b: KeyView) -> bool {
    a.rank < b.rank || (a.rank == b.rank && order::text_before(a.name, b.name))
}

/// Whether one list of keys comes before another, by the first that differs.
pub open spec fn keys_before(a: Seq<KeyView>, b: Seq<KeyView>) -> bool
    decreases a.len(),
{
    if b.len() == 0 {
        false
    } else if a.len() == 0 {
        true
    } else if a[0] != b[0] {
        key_before(a[0], b[0])
    } else {
        keys_before(a.skip(1), b.skip(1))
    }
}

/// Whether one path comes before another, part by part.
pub open spec fn path_before(host: Host, a: Seq<char>, b: Seq<char>) -> bool {
    keys_before(path_keys(host, a), path_keys(host, b))
}

proof fn lemma_keys_before_total(a: Seq<KeyView>, b: Seq<KeyView>)
    ensures
        a == b ==> !keys_before(a, b),
        a != b ==> keys_before(a, b) != keys_before(b, a),
    decreases a.len(),
{
    if a.len() > 0 && b.len() > 0 {
        order::lemma_text_before_total(a[0].name, b[0].name);
        if a[0] == b[0] {
            lemma_keys_before_total(a.skip(1), b.skip(1));
            if a.skip(1) == b.skip(1) {
                assert(a == seq![a[0]] + a.skip(1));
                assert(b == seq![b[0]] + b.skip(1));
            }
        }
    } else if a.len() == 0 && b.len() == 0 {
        assert(a == b);
    }
}

proof fn lemma_keys_before_chains(a: Seq<KeyView>, b: Seq<KeyView>, c: Seq<KeyView>)
    requires
        keys_before(a, b),
        keys_before(b, c),
    ensures
        keys_before(a, c),
    decreases a.len(),
{
    if a.len() > 0 && b.len() > 0 && c.len() > 0 {
        if a[0] == b[0] && b[0] == c[0] {
            lemma_keys_before_chains(a.skip(1), b.skip(1), c.skip(1));
        } else if a[0] != b[0] && b[0] != c[0] {
            if a[0].rank == b[0].rank && b[0].rank == c[0].rank {
                order::lemma_text_before_chains(a[0].name, b[0].name, c[0].name);
                order::lemma_text_before_total(a[0].name, c[0].name);
            }
        }
    }
}

/// A copy of some characters.
fn copied(s: &[char]) -> (r: Vec<char>)
    ensures
        r@ == s@,
{
    let mut out: Vec<char> = Vec::new();
    text::push_all(&mut out, s);
    out
}

/// The key of what stands in front of a path of Windows.
fn key_of_prefix(s: &[char]) -> (r: Key)
    ensures
        r@ == prefix_key(s@),
{
    proof {
        lemma_prefix_len(Host::Windows, s@);
    }
    let (n, form) = measure_prefix(Host::Windows, s);
    match form {
        Form::Written => Key { rank: 0, name: copied(&s[4..n]) },
        Form::WrittenShare => Key { rank: 1, name: text::replace_char(&s[8..n], '\\', '\0') },
        Form::WrittenDrive => Key { rank: 2, name: text::lower(&s[4..n]) },
        Form::Device => Key { rank: 3, name: copied(&s[4..n]) },
        Form::Share => {
            let name = text::replace_char(&s[2..n], '/', '\\');
            Key { rank: 4, name: text::replace_char(&name, '\\', '\0') }
        },
        Form::Drive => Key { rank: 5, name: text::lower(&s[0..n]) },
        Form::Nothing => Key { rank: 5, name: Vec::new() },
    }
}

/// The key of a part.
fn key_of(s: &[char], p: Part) -> (r: Key)
    requires
        p.start <= p.end <= s@.len(),
    ensures
        r@ == part_key(s@, p@),
{
    let name: &[char] = &s[p.start..p.end];
    match p.kind {
        Kind::Prefix => key_of_prefix(s),
        Kind::Root => Key { rank: 6, name: Vec::new() },
        Kind::Here => Key { rank: 7, name: Vec::new() },
        Kind::Name => if text::is_text(name, "..") {
            Key { rank: 8, name: Vec::new() }
        } else {
            Key { rank: 9, name: copied(name) }
        },
    }
}

/// The keys of the parts of a path.
fn keys_of(host: Host, path: &str) -> (r: Vec<Key>)
    ensures
        order::views(r@) == path_keys(host, path@),
{
    let s = text::chars_of(path);
    let all = parts_of(host, &s);
    let ghost keys = path_keys(host, path@);
    let mut out: Vec<Key> = Vec::new();
    let mut i: usize = 0;
    assert(parts(host, path@).len() == all@.len());
    assert(order::views(out@) == keys.take(0));
    while i < all.len()
        invariant
            i <= all@.len(),
            s@ == path@,
            part_views(all@) == parts(host, path@),
            parts(host, path@).len() == all@.len(),
            keys == path_keys(host, path@),
            forall|j: int|
                0 <= j < all@.len() ==> (#[trigger] all@[j]).start <= all@[j].end <= s@.len(),
            order::views(out@) == keys.take(i as int),
        decreases all@.len() - i,
    {
        assert(parts(host, path@)[i as int] == all@[i as int]@);
        let ghost before = out@;
        let key = key_of(&s, all[i]);
        out.push(key);
        assert(order::views(out@) == order::views(before).push(key@));
        assert(keys[i as int] == key@);
        i += 1;
    }
    assert(keys.take(i as int) == keys);
    out
}

/// A path that was found, to be listed in order with others.
#[derive(Clone, Debug)]
pub struct Found {
    pub keys: Vec<Key>,
    pub path: String,
}

/// What a found path stands for.
pub struct FoundView {
    pub keys: Seq<KeyView>,
    pub path: Seq<char>,
}

impl View for Found {
    type V = FoundView;

    open spec fn view(&self) -> FoundView {
        FoundView { keys: order::views(self.keys@), path: self.path@ }
    }
}

impl order::Ranked for Found {
    open spec fn before(a: FoundView, b: FoundView) -> bool {
        keys_before(a.keys, b.keys)
    }

    fn goes_before(&self, other: &Self) -> bool {
        let ghost a = order::views(self.keys@);
        let ghost b = order::views(other.keys@);
        let mut i: usize = 0;
        assert(a.skip(0) == a && b.skip(0) == b);
        loop
            invariant
                a == order::views(self.keys@),
                b == order::views(other.keys@),
                a.len() == self.keys@.len(),
                b.len() == other.keys@.len(),
                i <= a.len(),
                i <= b.len(),
                keys_before(a, b) == keys_before(a.skip(i as int), b.skip(i as int)),
            decreases a.len() - i,
        {
            if i == other.keys.len() {
                return false;
            }
            if i == self.keys.len() {
                return true;
            }
            let ghost x = a.skip(i as int);
            let ghost y = b.skip(i as int);
            assert(x[0] == self.keys@[i as int]@);
            assert(y[0] == other.keys@[i as int]@);
            let p = &self.keys[i];
            let q = &other.keys[i];
            if p.rank != q.rank {
                return p.rank < q.rank;
            }
            if !text::same(&p.name, &q.name) {
                return order::comes_before(&p.name, &q.name);
            }
            assert(x.skip(1) == a.skip(i as int + 1));
            assert(y.skip(1) == b.skip(i as int + 1));
            i += 1;
        }
    }
}

/// Paths of one host, to be put in order.
pub open spec fn as_found(host: Host, list: Seq<Seq<char>>) -> Seq<FoundView> {
    list.map_values(|path: Seq<char>| FoundView { keys: path_keys(host, path), path: path })
}

/// The paths of a list of found ones.
pub open spec fn found_paths(list: Seq<FoundView>) -> Seq<Seq<char>> {
    list.map_values(|found: FoundView| found.path)
}

/// Paths in order, part by part.
pub open spec fn sorted_paths(host: Host, list: Seq<Seq<char>>) -> Seq<Seq<char>> {
    found_paths(order::arranged::<Found>(as_found(host, list)))
}

/// Puts paths in order, part by part.
pub fn sort_paths(host: Host, list: Vec<String>) -> (r: Vec<String>)
    ensures
        list::texts(r@) == sorted_paths(host, list::texts(list@)),
{
    let mut found: Vec<Found> = Vec::new();
    let mut i: usize = 0;
    while i < list.len()
        invariant
            i <= list@.len(),
            order::views(found@) == as_found(host, list::texts(list@)).take(i as int),
        decreases list@.len() - i,
    {
        let ghost before = found@;
        let path = list[i].as_str();
        let item = Found { keys: keys_of(host, path), path: path.to_owned() };
        found.push(item);
        assert(order::views(found@) == order::views(before).push(item@));
        assert(as_found(host, list::texts(list@))[i as int] == item@);
        i += 1;
    }
    assert(as_found(host, list::texts(list@)).take(i as int) == as_found(host, list::texts(list@)));
    let sorted = order::arrange(found);
    let mut out: Vec<String> = Vec::new();
    let ghost all = found_paths(order::views(sorted@));
    let mut k: usize = 0;
    while k < sorted.len()
        invariant
            k <= sorted@.len(),
            all == found_paths(order::views(sorted@)),
            list::texts(out@) == all.take(k as int),
        decreases sorted@.len() - k,
    {
        let ghost before = out@;
        let path = sorted[k].path.as_str().to_owned();
        out.push(path);
        assert(list::texts(out@) == list::texts(before).push(path@));
        assert(order::views(sorted@)[k as int] == sorted@[k as int]@);
        assert(all[k as int] == path@);
        k += 1;
    }
    assert(all.take(k as int) == all);
    out
}

/// Paths that are put in order are in order: none comes before one that stands in
/// front of it. They are the paths that were given.
pub proof fn lemma_paths_sorted(host: Host, list: Seq<Seq<char>>)
    ensures
        forall|i: int, j: int|
            0 <= i < j < sorted_paths(host, list).len() ==> !path_before(
                host,
                #[trigger] sorted_paths(host, list)[j],
                #[trigger] sorted_paths(host, list)[i],
            ),
        sorted_paths(host, list).to_multiset() == list.to_multiset(),
{
    let found = as_found(host, list);
    let sorted = order::arranged::<Found>(found);
    let out = sorted_paths(host, list);
    assert(order::by_rank::<Found>()) by {
        assert forall|a: FoundView, b: FoundView| #[trigger]
            <Found as order::Ranked>::before(a, b) implies !<Found as order::Ranked>::before(
            b,
            a,
        ) by {
            lemma_keys_before_total(a.keys, b.keys);
        }
        assert forall|a: FoundView, b: FoundView, c: FoundView|
            !#[trigger] <Found as order::Ranked>::before(a, b)
                && !#[trigger] <Found as order::Ranked>::before(
                b,
                c,
            ) implies !<Found as order::Ranked>::before(a, c) by {
            lemma_keys_before_total(a.keys, b.keys);
            lemma_keys_before_total(b.keys, c.keys);
            lemma_keys_before_total(a.keys, c.keys);
            if a.keys != b.keys && b.keys != c.keys {
                lemma_keys_before_chains(c.keys, b.keys, a.keys);
            }
        }
    }
    order::lemma_arranged_in_order::<Found>(found);
    assert forall|i: int| 0 <= i < sorted.len() implies (#[trigger] sorted[i]).keys == path_keys(
        host,
        sorted[i].path,
    ) by {
        broadcast use vstd::seq_lib::group_to_multiset_ensures;

        assert(sorted.contains(sorted[i]));
        assert(sorted.to_multiset().contains(sorted[i]));
        assert(found.contains(sorted[i]));
    }
    assert forall|i: int, j: int| 0 <= i < j < out.len() implies !path_before(
        host,
        #[trigger] out[j],
        #[trigger] out[i],
    ) by {
        assert(!<Found as order::Ranked>::before(sorted[j], sorted[i]));
    }
    lemma_paths_kept(found, sorted);
    assert(found_paths(found) == list);
}

/// Lists that hold the same found paths hold the same paths.
proof fn lemma_paths_kept(a: Seq<FoundView>, b: Seq<FoundView>)
    requires
        a.to_multiset() == b.to_multiset(),
    ensures
        found_paths(a).to_multiset() == found_paths(b).to_multiset(),
    decreases a.len(),
{
    broadcast use vstd::seq_lib::group_to_multiset_ensures;

    if a.len() == 0 {
        a.to_multiset_ensures();
        b.to_multiset_ensures();
        assert(b.len() == 0);
        assert(found_paths(a) == found_paths(b));
    } else {
        let last = a.last();
        assert(a.contains(last));
        assert(b.to_multiset().contains(last));
        assert(b.contains(last));
        let i = choose|i: int| 0 <= i < b.len() && b[i] == last;
        let front = a.drop_last();
        let rest = b.remove(i);
        assert(front.push(last) == a);
        assert(front.to_multiset() == a.to_multiset().remove(last));
        assert(rest.to_multiset() == b.to_multiset().remove(last));
        lemma_paths_kept(front, rest);
        assert(found_paths(a) == found_paths(front).push(last.path));
        assert(found_paths(rest) == found_paths(b).remove(i));
        assert(found_paths(b)[i] == last.path);
        assert(found_paths(b).to_multiset().remove(last.path) == found_paths(rest).to_multiset());
        assert(found_paths(b).contains(last.path));
        assert(found_paths(b).to_multiset() == found_paths(rest).to_multiset().insert(last.path));
    }
}

/// A path, and whether there is a file at it.
#[derive(Clone, Debug)]
pub struct Place {
    pub path: String,
    pub present: bool,
}

/// What a place stands for.
pub struct PlaceView {
    pub path: Seq<char>,
    pub present: bool,
}

impl View for Place {
    type V = PlaceView;

    open spec fn view(&self) -> PlaceView {
        PlaceView { path: self.path@, present: self.present }
    }
}

/// The first place at or after `from` at which there is a file.
pub open spec fn present_from(places: Seq<PlaceView>, from: int) -> Option<Seq<char>>
    decreases places.len() - from,
{
    if from < 0 || from >= places.len() {
        None
    } else if places[from].present {
        Some(places[from].path)
    } else {
        present_from(places, from + 1)
    }
}

/// The first place at which there is a file.
pub fn first_present(places: &Vec<Place>) -> (r: Option<String>)
    ensures
        list::optional(r) == present_from(order::views(places@), 0),
{
    let ghost all = order::views(places@);
    let mut i: usize = 0;
    while i < places.len()
        invariant
            i <= places@.len(),
            all == order::views(places@),
            all.len() == places@.len(),
            present_from(all, 0) == present_from(all, i as int),
        decreases places@.len() - i,
    {
        assert(all[i as int] == places@[i as int]@);
        if places[i].present {
            return Some(places[i].path.as_str().to_owned());
        }
        i += 1;
    }
    None
}

/// A name that ends within a path ends there whatever follows the path, and one that
/// ends with the path does so if a separator follows.
proof fn lemma_name_end_within(host: Host, s: Seq<char>, more: Seq<char>, from: int)
    requires
        4 <= s.len(),
        0 <= from <= s.len(),
        name_end(host, s, from) < s.len() || more.len() == 0 || divides(host, s, more[0]),
    ensures
        name_end(host, s + more, from) == name_end(host, s, from),
    decreases s.len() - from,
{
    lemma_name_end(host, s, from);
    assert(verbatim(host, s + more) == verbatim(host, s));
    if from < s.len() {
        assert((s + more)[from] == s[from]);
        if !divides(host, s, s[from]) {
            lemma_name_end_within(host, s, more, from + 1);
        }
    }
}

/// A path of Windows that starts with the name of a device, or that is taken as it is
/// written, is absolute, and so is every other that starts the same.
proof fn lemma_first_four_absolute(s: Seq<char>, other: Seq<char>)
    requires
        verbatim(Host::Windows, s) || has_device(Host::Windows, s),
        other.len() >= 4,
        other.take(4) == s.take(4),
    ensures
        absolute(Host::Windows, other),
{
    assert forall|i: int| 0 <= i < 4 implies other[i] == s[i] by {
        assert(other.take(4)[i] == other[i]);
        assert(s.take(4)[i] == s[i]);
    }
    lemma_prefix_len(Host::Windows, other);
}

/// What starts with an absolute path is absolute, as long as what follows does not
/// lengthen the name of a share that the path is.
proof fn lemma_extended_absolute(host: Host, base: Seq<char>, more: Seq<char>)
    requires
        absolute(host, base),
        form(host, base) == Form::Share ==> prefix_len(host, base) < base.len() || more.len() == 0
            || separates(host, more[0]),
    ensures
        absolute(host, base + more),
{
    let all = base + more;
    lemma_prefix_len(host, base);
    lemma_prefix_len(host, all);
    assert forall|i: int| 0 <= i < base.len() implies all[i] == base[i] by {}
    match host {
        Host::Wsl => {
            assert(all[0] == base[0]);
        },
        Host::Windows => {
            if verbatim(host, base) || has_device(host, base) {
                assert(all.take(4) == base.take(4));
                lemma_first_four_absolute(base, all);
            } else if has_drive(host, base) {
                assert(all[0] == base[0] && all[1] == base[1] && all[2] == base[2]);
                assert(form(host, all) == Form::Drive);
            } else {
                let server = server_end(host, base);
                lemma_name_end(host, base, 2);
                lemma_name_end(host, base, server + 1);
                lemma_name_end_within(host, base, more, 2);
                lemma_name_end_within(host, base, more, server + 1);
                assert(all[0] == base[0] && all[1] == base[1] && all[2] == base[2] && all[3]
                    == base[3]);
                assert(form(host, all) == Form::Share);
            }
        },
    }
}

/// The drive or share of an absolute path on Windows, where the rest of the path is
/// replaced by one that starts at the top.
proof fn lemma_other_top_absolute(base: Seq<char>, rest: Seq<char>)
    requires
        absolute(Host::Windows, base),
        rest.len() > 0,
        separates(Host::Windows, rest[0]),
    ensures
        absolute(Host::Windows, base.take(prefix_len(Host::Windows, base)) + rest),
{
    let host = Host::Windows;
    lemma_prefix_len(host, base);
    let p = prefix_len(host, base);
    let top = base.take(p);
    let tail = base.skip(p);
    assert(top + tail == base);
    let all = top + rest;
    assert forall|i: int| 0 <= i < p implies all[i] == base[i] && top[i] == base[i] by {}
    assert(all[p] == rest[0]);
    if verbatim(host, base) || has_device(host, base) {
        assert(all.take(4) == base.take(4));
        lemma_first_four_absolute(base, all);
    } else if has_drive(host, base) {
        assert(form(host, all) == Form::Drive);
    } else {
        let server = server_end(host, base);
        lemma_name_end(host, base, 2);
        lemma_name_end(host, base, server + 1);
        assert(tail.len() > 0 ==> tail[0] == base[p]);
        lemma_name_end_within(host, top, tail, 2);
        lemma_name_end_within(host, top, tail, server + 1);
        assert(form(host, top) == Form::Share);
        assert(prefix_len(host, top) == p);
        lemma_extended_absolute(host, top, rest);
    }
}

/// What stands in front of parts stays there whatever is put behind them.
proof fn lemma_front_stays(pieces: Seq<PieceView>, more: Seq<PieceView>)
    requires
        pieces.len() > 0,
        pieces[0].kind == Kind::Prefix,
    ensures
        with_pieces(pieces, more).len() > 0,
        with_pieces(pieces, more)[0] == pieces[0],
    decreases more.len(),
{
    if more.len() > 0 {
        lemma_front_stays(pieces, more.drop_last());
    }
}

/// Parts are written down behind what stands in front of them.
proof fn lemma_written_front(pieces: Seq<PieceView>)
    requires
        pieces.len() > 0,
    ensures
        pieces[0].name.is_prefix_of(written(pieces)),
    decreases pieces.len(),
{
    let front = pieces.drop_last();
    let first = pieces[0].name;
    if front.len() > 0 {
        lemma_written_front(front);
        assert(front[0] == pieces[0]);
        assert(written(pieces).subrange(0, first.len() as int) == written(front).subrange(
            0,
            first.len() as int,
        ));
    } else {
        assert(written(front) == Seq::<char>::empty());
        assert(written(pieces) == first);
        assert(first.subrange(0, first.len() as int) == first);
    }
}

/// What is taken from an absolute directory is absolute. What names a drive or a
/// share of its own stands alone, so it has to be absolute itself.
pub proof fn lemma_joined_absolute(host: Host, base: Seq<char>, rest: Seq<char>)
    requires
        absolute(host, base),
        prefix_len(host, rest) > 0 ==> absolute(host, rest),
    ensures
        absolute(host, joined(host, base, rest)),
{
    lemma_prefix_len(host, base);
    lemma_prefix_len(host, rest);
    if absolute(host, rest) {
    } else if verbatim(host, base) && rest.len() > 0 {
        let first = path_pieces(host, base);
        let all = with_pieces(first, path_pieces(host, rest));
        let n = prefix_len(host, base);
        assert(parts(host, base)[0] == head(host, base)[0]);
        assert(first[0] == (PieceView { kind: Kind::Prefix, name: base.subrange(0, n) }));
        lemma_front_stays(first, path_pieces(host, rest));
        lemma_written_front(all);
        let out = written(all);
        assert(base.subrange(0, n) == out.subrange(0, n));
        assert forall|i: int| 0 <= i < 4 implies out[i] == base[i] by {
            assert(base.subrange(0, n)[i] == out.subrange(0, n)[i]);
        }
        assert(out.take(4) == base.take(4));
        lemma_first_four_absolute(base, out);
    } else if has_root(host, rest) {
        lemma_other_top_absolute(base, rest);
    } else if separates(host, base.last()) {
        if form(host, base) == Form::Share {
            lemma_name_end(host, base, 2);
            lemma_name_end(host, base, server_end(host, base) + 1);
        }
        lemma_extended_absolute(host, base, rest);
    } else {
        let more = seq![separator(host)] + rest;
        assert(base + seq![separator(host)] + rest == base + more);
        lemma_extended_absolute(host, base, more);
    }
}

/// Of several places the first at which there is a file counts, and there is none
/// only where no place has one.
pub proof fn lemma_first_present(places: Seq<PlaceView>, from: int)
    requires
        0 <= from,
    ensures
        match present_from(places, from) {
            Some(path) => exists|i: int|
                from <= i < places.len() && #[trigger] places[i] == (PlaceView {
                    path: path,
                    present: true,
                }) && forall|k: int| from <= k < i ==> !(#[trigger] places[k]).present,
            None => forall|k: int|
                from <= k < places.len() ==> !(#[trigger] places[k]).present,
        },
    decreases places.len() - from,
{
    if from < places.len() {
        if places[from].present {
            assert(places[from] == (PlaceView { path: places[from].path, present: true }));
        } else {
            lemma_first_present(places, from + 1);
        }
    }
}

} // verus!
