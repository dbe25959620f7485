//! Telling whether artifacts are older than the sources they came from.
//!
//! A walk says which directory of a project it wants to see next and is handed what
//! the directory holds, where a directory that cannot be read holds nothing. Times
//! are numbers of nanoseconds since some fixed moment.

use vstd::prelude::*;

use crate::app;
use crate::app::Target;
use crate::host::Host;
use crate::list;
use crate::order;
use crate::path;
use crate::search;
use crate::search::Visit;
use crate::text;

verus! {

broadcast use {crate::list::lemma_texts_push, crate::list::lemma_pieces_push};

/// How far below the project a walk looks.
pub const WALK_DEPTH: usize = 12;

/// The later of two times, as far as there are any.
pub open spec fn later(a: Option<int>, b: Option<int>) -> Option<int> {
    match (a, b) {
        (Some(x), Some(y)) => if y > x {
            Some(y)
        } else {
            Some(x)
        },
        (None, _) => b,
        (_, None) => a,
    }
}

/// The earlier of two times, as far as there are any.
pub open spec fn earlier(a: Option<int>, b: Option<int>) -> Option<int> {
    match (a, b) {
        (Some(x), Some(y)) => if y < x {
            Some(y)
        } else {
            Some(x)
        },
        (None, _) => b,
        (_, None) => a,
    }
}

/// What an optional time stands for.
pub open spec fn time(moment: Option<i128>) -> Option<int> {
    match moment {
        Some(value) => Some(value as int),
        None => None,
    }
}

/// The later of two times, as far as there are any.
fn latest(a: Option<i128>, b: Option<i128>) -> (r: Option<i128>)
    ensures
        time(r) == later(time(a), time(b)),
{
    match (a, b) {
        (Some(x), Some(y)) => if y > x {
            Some(y)
        } else {
            Some(x)
        },
        (None, _) => b,
        (_, None) => a,
    }
}

/// The earlier of two times, as far as there are any.
fn earliest(a: Option<i128>, b: Option<i128>) -> (r: Option<i128>)
    ensures
        time(r) == earlier(time(a), time(b)),
{
    match (a, b) {
        (Some(x), Some(y)) => if y < x {
            Some(y)
        } else {
            Some(x)
        },
        (None, _) => b,
        (_, None) => a,
    }
}

/// Something that a directory holds, and when it last changed, if that is known.
#[derive(Clone, Debug)]
pub struct Seen {
    pub path: String,
    pub directory: bool,
    pub modified: Option<i128>,
}

/// What an entry of a directory stands for.
pub struct SeenView {
    pub path: Seq<char>,
    pub directory: bool,
    pub modified: Option<int>,
}

impl View for Seen {
    type V = SeenView;

    open spec fn view(&self) -> SeenView {
        SeenView {
            path: self.path@,
            directory: self.directory,
            modified: time(self.modified),
        }
    }
}

/// When the last of the files among `entries` changed.
pub open spec fn newest_among(entries: Seq<SeenView>) -> Option<int>
    decreases entries.len(),
{
    if entries.len() == 0 {
        None
    } else {
        let rest = newest_among(entries.drop_last());
        if entries.last().directory {
            rest
        } else {
            later(rest, entries.last().modified)
        }
    }
}

/// Whether a walk leaves a directory out.
pub open spec fn left_out(host: Host, skip: Seq<Seq<char>>, directory: Seq<char>) -> bool {
    match path::file_name(host, directory) {
        Some(name) => skip.contains(name),
        None => false,
    }
}

/// The directories among `entries` that a walk enters.
pub open spec fn walked(host: Host, skip: Seq<Seq<char>>, entries: Seq<SeenView>) -> Seq<Seq<char>>
    decreases entries.len(),
{
    if entries.len() == 0 {
        Seq::empty()
    } else {
        let entry = entries.last();
        let rest = walked(host, skip, entries.drop_last());
        if entry.directory && !left_out(host, skip, entry.path) {
            rest.push(entry.path)
        } else {
            rest
        }
    }
}

/// A walk through the directories of a project.
#[derive(Clone, Debug)]
pub struct Walk {
    pub host: Host,
    /// The names of directories that are left out.
    pub skip: Vec<String>,
    /// The directories that have yet to be seen, the next one last.
    pub pending: Vec<Visit>,
    /// When the last of the files that have been seen changed.
    pub newest: Option<i128>,
}

/// What a walk stands for.
pub struct WalkView {
    pub host: Host,
    pub skip: Seq<Seq<char>>,
    pub pending: Seq<search::VisitView>,
    pub newest: Option<int>,
}

impl View for Walk {
    type V = WalkView;

    open spec fn view(&self) -> WalkView {
        WalkView {
            host: self.host,
            skip: list::texts(self.skip@),
            pending: order::views(self.pending@),
            newest: time(self.newest),
        }
    }
}

/// The names of directories that hold no sources of a target: those of its
/// configurations, which hold build output, and two that tools keep.
pub open spec fn skip_list(target: app::TargetView) -> Seq<Seq<char>> {
    app::offered(target.solution, target.project) + seq![".git"@, ".vs"@]
}

/// A walk through a project that has seen nothing yet.
pub open spec fn walk_from(host: Host, target: app::TargetView) -> WalkView {
    WalkView {
        host: host,
        skip: skip_list(target),
        pending: seq![
            search::VisitView {
                directory: path::directory(host, target.project.path),
                depth: WALK_DEPTH as nat,
            },
        ],
        newest: None,
    }
}

/// A walk after it has seen what the directory that it asked for holds.
pub open spec fn walk_on(walk: WalkView, entries: Seq<SeenView>) -> WalkView {
    if walk.pending.len() == 0 {
        walk
    } else {
        let visit = walk.pending.last();
        let below = if visit.depth > 0 {
            search::visits(walked(walk.host, walk.skip, entries), (visit.depth - 1) as nat)
        } else {
            Seq::empty()
        };
        WalkView {
            host: walk.host,
            skip: walk.skip,
            pending: walk.pending.drop_last() + below,
            newest: later(walk.newest, newest_among(entries)),
        }
    }
}

impl Walk {
    /// A walk through the project of a target, ignoring build output.
    pub fn newest_source(host: Host, target: &Target) -> (r: Self)
        ensures
            r@ == walk_from(host, target@),
    {
        let mut skip = app::configurations(&target.solution, &target.project);
        let ghost names = list::texts(skip@);
        skip.push(".git".to_owned());
        skip.push(".vs".to_owned());
        assert(list::texts(skip@) == names + seq![".git"@, ".vs"@]);
        let first = Visit { directory: target.project.directory(host), depth: WALK_DEPTH };
        let mut pending: Vec<Visit> = Vec::new();
        pending.push(first);
        assert(order::views(pending@) == seq![first@]);
        Walk { host: host, skip: skip, pending: pending, newest: None }
    }

    /// The directory to see next.
    pub fn directory(&self) -> (r: Option<String>)
        ensures
            list::optional(r) == if self@.pending.len() > 0 {
                Some(self@.pending.last().directory)
            } else {
                None
            },
    {
        let n: usize = self.pending.len();
        assert(order::views(self.pending@).len() == n);
        if n == 0 {
            return None;
        }
        assert(order::views(self.pending@)[n - 1] == self.pending@[n - 1]@);
        Some(self.pending[n - 1].directory.as_str().to_owned())
    }

    /// Takes in what the next directory holds.
    pub fn walk(&mut self, entries: &Vec<Seen>)
        ensures
            final(self)@ == walk_on(old(self)@, order::views(entries@)),
    {
        let ghost waiting = order::views(self.pending@);
        assert(waiting.len() == self.pending@.len());
        let ghost before = self.pending@;
        let visit = match self.pending.pop() {
            Some(visit) => visit,
            None => {
                return;
            },
        };
        assert(waiting.last() == visit@);
        assert(order::views(self.pending@) == waiting.drop_last());
        let host = self.host;
        let depth: usize = visit.depth;
        let ghost all = order::views(entries@);
        let ghost skip = list::texts(self.skip@);
        let ghost had = self.newest;
        let mut newest: Option<i128> = None;
        let mut below: Vec<Visit> = Vec::new();
        let mut i: usize = 0;
        assert(depth == 0 ==> order::views(below@) == Seq::<search::VisitView>::empty());
        assert(depth > 0 ==> order::views(below@) == search::visits(
            walked(host, skip, all.take(0)),
            (depth - 1) as nat,
        ));
        while i < entries.len()
            invariant
                i <= entries@.len(),
                all == order::views(entries@),
                skip == list::texts(self.skip@),
                time(newest) == newest_among(all.take(i as int)),
                depth == 0 ==> order::views(below@) == Seq::<search::VisitView>::empty(),
                depth > 0 ==> order::views(below@) == search::visits(
                    walked(host, skip, all.take(i as int)),
                    (depth - 1) as nat,
                ),
            decreases entries@.len() - i,
        {
            assert(all.take(i as int + 1).drop_last() == all.take(i as int));
            assert(all[i as int] == entries@[i as int]@);
            let file = entries[i].path.as_str();
            if entries[i].directory {
                if depth > 0 && !is_left_out(host, &self.skip, file) {
                    let ghost held = below@;
                    let next = Visit { directory: file.to_owned(), depth: depth - 1 };
                    below.push(next);
                    assert(order::views(below@) == order::views(held).push(next@));
                    assert(search::visits(
                        walked(host, skip, all.take(i as int + 1)),
                        (depth - 1) as nat,
                    ) == search::visits(
                        walked(host, skip, all.take(i as int)),
                        (depth - 1) as nat,
                    ).push(next@));
                }
            } else {
                newest = latest(newest, entries[i].modified);
            }
            i += 1;
        }
        assert(all.take(i as int) == all);
        let ghost rest = self.pending@;
        let ghost more = below@;
        self.pending.append(&mut below);
        assert(order::views(rest + more) == order::views(rest) + order::views(more));
        self.newest = latest(self.newest, newest);
    }
}

/// Whether a walk leaves a directory out.
fn is_left_out(host: Host, skip: &Vec<String>, directory: &str) -> (r: bool)
    ensures
        r == left_out(host, list::texts(skip@), directory@),
{
    match path::file_name_of(host, directory) {
        Some(name) => text::listed(skip, name.as_str()),
        None => false,
    }
}

/// What a directory holds, for every directory.
pub type Listing = spec_fn(Seq<char>) -> Seq<SeenView>;

/// When the last of the files in and below a directory changed.
pub open spec fn newest_below(
    listing: Listing,
    host: Host,
    skip: Seq<Seq<char>>,
    directory: Seq<char>,
    depth: nat,
) -> Option<int>
    decreases depth, 0nat,
{
    let entries = listing(directory);
    if depth > 0 {
        later(
            newest_among(entries),
            newest_below_all(
                listing,
                host,
                skip,
                walked(host, skip, entries),
                (depth - 1) as nat,
            ),
        )
    } else {
        newest_among(entries)
    }
}

/// When the last of the files in and below some directories changed.
pub open spec fn newest_below_all(
    listing: Listing,
    host: Host,
    skip: Seq<Seq<char>>,
    directories: Seq<Seq<char>>,
    depth: nat,
) -> Option<int>
    decreases depth, directories.len() + 1,
{
    if directories.len() == 0 {
        None
    } else {
        later(
            newest_below_all(listing, host, skip, directories.drop_last(), depth),
            newest_below(listing, host, skip, directories.last(), depth),
        )
    }
}

/// When the last of the files changed that the visits still to be made will show.
pub open spec fn still_newer(
    listing: Listing,
    host: Host,
    skip: Seq<Seq<char>>,
    pending: Seq<search::VisitView>,
) -> Option<int>
    decreases pending.len(),
{
    if pending.len() == 0 {
        None
    } else {
        later(
            still_newer(listing, host, skip, pending.drop_last()),
            newest_below(listing, host, skip, pending.last().directory, pending.last().depth),
        )
    }
}

/// When the last of the files changed that a walk has seen or will still see.
pub open spec fn answer(listing: Listing, walk: WalkView) -> Option<int> {
    later(walk.newest, still_newer(listing, walk.host, walk.skip, walk.pending))
}

proof fn lemma_still_newer(
    listing: Listing,
    host: Host,
    skip: Seq<Seq<char>>,
    rest: Seq<search::VisitView>,
    directories: Seq<Seq<char>>,
    depth: nat,
)
    ensures
        still_newer(listing, host, skip, rest + search::visits(directories, depth)) == later(
            still_newer(listing, host, skip, rest),
            newest_below_all(listing, host, skip, directories, depth),
        ),
    decreases directories.len(),
{
    let all = rest + search::visits(directories, depth);
    if directories.len() == 0 {
        assert(all == rest);
    } else {
        assert(all.drop_last() == rest + search::visits(directories.drop_last(), depth));
        lemma_still_newer(listing, host, skip, rest, directories.drop_last(), depth);
    }
}

/// A walk comes to the time of the last change anywhere in the project, build output
/// left out: it sets out for it, no step loses it, and once nothing is left to see
/// it has it.
pub proof fn lemma_walk_finds_newest(listing: Listing, host: Host, target: app::TargetView)
    ensures
        answer(listing, walk_from(host, target)) == newest_below(
            listing,
            host,
            skip_list(target),
            path::directory(host, target.project.path),
            WALK_DEPTH as nat,
        ),
        forall|walk: WalkView|
            walk.pending.len() > 0 ==> #[trigger] answer(
                listing,
                walk_on(walk, listing(walk.pending.last().directory)),
            ) == answer(listing, walk),
        forall|walk: WalkView|
            walk.pending.len() == 0 ==> #[trigger] answer(listing, walk) == walk.newest,
{
    let first = walk_from(host, target);
    assert(first.pending.drop_last() == Seq::<search::VisitView>::empty());
    assert(still_newer(listing, host, first.skip, first.pending.drop_last()) is None);
    assert forall|walk: WalkView| walk.pending.len() > 0 implies #[trigger] answer(
        listing,
        walk_on(walk, listing(walk.pending.last().directory)),
    ) == answer(listing, walk) by {
        let visit = walk.pending.last();
        let entries = listing(visit.directory);
        let rest = walk.pending.drop_last();
        if visit.depth > 0 {
            lemma_still_newer(
                listing,
                walk.host,
                walk.skip,
                rest,
                walked(walk.host, walk.skip, entries),
                (visit.depth - 1) as nat,
            );
        } else {
            assert(rest + Seq::<search::VisitView>::empty() == rest);
        }
    }
}

/// How many directories a walk sees in and below a directory.
pub open spec fn walks_below(
    listing: Listing,
    host: Host,
    skip: Seq<Seq<char>>,
    directory: Seq<char>,
    depth: nat,
) -> nat
    decreases depth, 0nat,
{
    if depth > 0 {
        1 + walks_below_all(
            listing,
            host,
            skip,
            walked(host, skip, listing(directory)),
            (depth - 1) as nat,
        )
    } else {
        1
    }
}

/// How many directories a walk sees in and below some directories.
pub open spec fn walks_below_all(
    listing: Listing,
    host: Host,
    skip: Seq<Seq<char>>,
    directories: Seq<Seq<char>>,
    depth: nat,
) -> nat
    decreases depth, directories.len() + 1,
{
    if directories.len() == 0 {
        0
    } else {
        walks_below_all(listing, host, skip, directories.drop_last(), depth) + walks_below(
            listing,
            host,
            skip,
            directories.last(),
            depth,
        )
    }
}

/// How many directories a walk has yet to see.
pub open spec fn walks_left(
    listing: Listing,
    host: Host,
    skip: Seq<Seq<char>>,
    pending: Seq<search::VisitView>,
) -> nat
    decreases pending.len(),
{
    if pending.len() == 0 {
        0
    } else {
        walks_left(listing, host, skip, pending.drop_last()) + walks_below(
            listing,
            host,
            skip,
            pending.last().directory,
            pending.last().depth,
        )
    }
}

proof fn lemma_walks_left(
    listing: Listing,
    host: Host,
    skip: Seq<Seq<char>>,
    rest: Seq<search::VisitView>,
    directories: Seq<Seq<char>>,
    depth: nat,
)
    ensures
        walks_left(listing, host, skip, rest + search::visits(directories, depth)) == walks_left(
            listing,
            host,
            skip,
            rest,
        ) + walks_below_all(listing, host, skip, directories, depth),
    decreases directories.len(),
{
    let all = rest + search::visits(directories, depth);
    if directories.len() == 0 {
        assert(all == rest);
    } else {
        assert(all.drop_last() == rest + search::visits(directories.drop_last(), depth));
        lemma_walks_left(listing, host, skip, rest, directories.drop_last(), depth);
    }
}

/// Each step of a walk leaves one directory less to see, so every walk ends.
pub proof fn lemma_walk_ends(listing: Listing, walk: WalkView)
    requires
        walk.pending.len() > 0,
    ensures
        walks_left(
            listing,
            walk.host,
            walk.skip,
            walk_on(walk, listing(walk.pending.last().directory)).pending,
        ) + 1 == walks_left(listing, walk.host, walk.skip, walk.pending),
{
    let visit = walk.pending.last();
    let rest = walk.pending.drop_last();
    if visit.depth > 0 {
        lemma_walks_left(
            listing,
            walk.host,
            walk.skip,
            rest,
            walked(walk.host, walk.skip, listing(visit.directory)),
            (visit.depth - 1) as nat,
        );
    } else {
        assert(rest + Seq::<search::VisitView>::empty() == rest);
    }
}

/// When the first of some artifacts was built, as far as that is known.
pub open spec fn oldest(artifacts: Seq<Option<int>>) -> Option<int>
    decreases artifacts.len(),
{
    if artifacts.len() == 0 {
        None
    } else {
        earlier(oldest(artifacts.drop_last()), artifacts.last())
    }
}

/// What is said of artifacts that are older than the sources they came from.
pub open spec fn stale_note(
    target: app::TargetView,
    artifacts: Seq<Option<int>>,
    newest: Option<int>,
) -> Option<Seq<char>> {
    match (oldest(artifacts), newest) {
        (Some(built), Some(changed)) => if changed > built {
            Some(
                "note: "@ + app::target_label(target)
                    + " is older than the sources. Run atp build."@,
            )
        } else {
            None
        },
        _ => None,
    }
}

/// The times of artifacts.
pub open spec fn times(artifacts: Seq<Option<i128>>) -> Seq<Option<int>> {
    artifacts.map_values(|moment: Option<i128>| time(moment))
}

/// Says so when the artifacts are older than the sources they came from.
pub fn warn_if_stale(target: &Target, artifacts: &Vec<Option<i128>>, newest: Option<i128>) -> (r:
    Option<String>)
    ensures
        list::optional(r) == stale_note(target@, times(artifacts@), time(newest)),
{
    let ghost all = times(artifacts@);
    let mut first: Option<i128> = None;
    let mut i: usize = 0;
    while i < artifacts.len()
        invariant
            i <= artifacts@.len(),
            all == times(artifacts@),
            time(first) == oldest(all.take(i as int)),
        decreases artifacts@.len() - i,
    {
        assert(all.take(i as int + 1).drop_last() == all.take(i as int));
        assert(all[i as int] == time(artifacts@[i as int]));
        first = earliest(first, artifacts[i]);
        i += 1;
    }
    assert(all.take(i as int) == all);
    match (first, newest) {
        (Some(built), Some(changed)) => if changed > built {
            let label = target.label();
            Some(
                text::cat3(
                    "note: ",
                    label.as_str(),
                    " is older than the sources. Run atp build.",
                ),
            )
        } else {
            None
        },
        _ => None,
    }
}

} // verus!
