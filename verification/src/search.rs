//! Finding the solution or the project that is most likely meant.
//!
//! Walking up finds the solution from anywhere inside a project tree, which is
//! where builds are usually started. Only when that fails does the search go
//! downwards, so that starting one directory above a checkout still works.
//!
//! Reading directories is left to the caller. A search says which directory it
//! wants to see next and is handed what the directory holds, where a directory
//! that cannot be read holds nothing.

use vstd::prelude::*;

use crate::error;
use crate::error::{AppError, Failure};
use crate::host::Host;
use crate::list;
use crate::order;
use crate::path;
use crate::text;

verus! {

broadcast use {crate::list::lemma_texts_push, crate::list::lemma_pieces_push};

/// How far below the start a search looks.
pub const SEARCH_DEPTH: usize = 4;

/// Something that a directory holds.
#[derive(Clone, Debug)]
pub struct Listed {
    pub path: String,
    pub directory: bool,
}

/// What an entry of a directory stands for.
pub struct ListedView {
    pub path: Seq<char>,
    pub directory: bool,
}

impl View for Listed {
    type V = ListedView;

    open spec fn view(&self) -> ListedView {
        ListedView { path: self.path@, directory: self.directory }
    }
}

/// Whether a path ends in an extension, in any case.
pub open spec fn extends(host: Host, file: Seq<char>, extension: Seq<char>) -> bool {
    match path::extension(host, file) {
        Some(found) => text::alike(found, extension),
        None => false,
    }
}

/// Whether a path ends in an extension, in any case.
pub fn has_extension(host: Host, file: &str, extension: &str) -> (r: bool)
    ensures
        r == extends(host, file@, extension@),
{
    match path::extension_of(host, file) {
        Some(found) => text::eq_ignore_case(found.as_str(), extension),
        None => false,
    }
}

/// The paths among `entries` that end in an extension.
pub open spec fn matching(host: Host, extension: Seq<char>, entries: Seq<ListedView>) -> Seq<
    Seq<char>,
>
    decreases entries.len(),
{
    if entries.len() == 0 {
        Seq::empty()
    } else if extends(host, entries.last().path, extension) {
        matching(host, extension, entries.drop_last()).push(entries.last().path)
    } else {
        matching(host, extension, entries.drop_last())
    }
}

/// The paths among `entries` that end in an extension.
fn pick(host: Host, extension: &str, entries: &Vec<Listed>) -> (r: Vec<String>)
    ensures
        list::texts(r@) == matching(host, extension@, order::views(entries@)),
{
    let ghost all = order::views(entries@);
    let mut found: Vec<String> = Vec::new();
    let mut i: usize = 0;
    assert(list::texts(found@) == Seq::<Seq<char>>::empty());
    while i < entries.len()
        invariant
            i <= entries@.len(),
            all == order::views(entries@),
            list::texts(found@) == matching(host, extension@, all.take(i as int)),
        decreases entries@.len() - i,
    {
        assert(all.take(i as int + 1).drop_last() == all.take(i as int));
        assert(all[i as int] == entries@[i as int]@);
        if has_extension(host, entries[i].path.as_str(), extension) {
            found.push(entries[i].path.as_str().to_owned());
        }
        i += 1;
    }
    assert(all.take(i as int) == all);
    found
}

/// The only path there is, none where there is none, and a complaint where there
/// are several.
pub open spec fn only_one(found: Seq<Seq<char>>, complaint: Seq<char>) -> Result<
    Option<Seq<char>>,
    Failure,
> {
    if found.len() == 0 {
        Ok(None)
    } else if found.len() == 1 {
        Ok(Some(found[0]))
    } else {
        Err(
            Failure::Usage(
                complaint + ", so name the one to use:\n  "@ + text::joined(found, "\n  "@),
            ),
        )
    }
}

/// The only path there is, none where there is none, and a complaint where there
/// are several.
fn take_only(found: Vec<String>, complaint: &str) -> (r: Result<Option<String>, AppError>)
    ensures
        error::viewed_optional(r) == only_one(list::texts(found@), complaint@),
{
    assert(list::texts(found@).len() == found@.len());
    if found.len() == 0 {
        return Ok(None);
    }
    if found.len() == 1 {
        assert(list::texts(found@)[0] == found@[0]@);
        return Ok(Some(found[0].as_str().to_owned()));
    }
    let names = text::join(&found, "\n  ");
    Err(AppError::Usage(text::cat3(complaint, ", so name the one to use:\n  ", names.as_str())))
}

/// The only file with an extension that a directory holds.
pub open spec fn single(
    host: Host,
    directory: Seq<char>,
    extension: Seq<char>,
    entries: Seq<ListedView>,
) -> Result<Option<Seq<char>>, Failure> {
    only_one(
        path::sorted_paths(host, matching(host, extension, entries)),
        directory + " holds several ."@ + extension + " files"@,
    )
}

/// Finds files with an extension in one directory, refusing an ambiguous answer.
pub fn single_match(host: Host, directory: &str, extension: &str, entries: &Vec<Listed>) -> (r:
    Result<Option<String>, AppError>)
    ensures
        error::viewed_optional(r) == single(
            host,
            directory@,
            extension@,
            order::views(entries@),
        ),
{
    let found = pick(host, extension, entries);
    let complaint = text::cat4(directory, " holds several .", extension, " files");
    take_only(path::sort_paths(host, found), complaint.as_str())
}

/// What a search below `start` that found `found` comes to.
pub open spec fn downwards(
    host: Host,
    start: Seq<char>,
    extension: Seq<char>,
    found: Seq<Seq<char>>,
) -> Result<Option<Seq<char>>, Failure> {
    only_one(
        path::sorted_paths(host, found),
        "several ."@ + extension + " files sit below "@ + start,
    )
}

/// What a search below `start` that found `found` comes to, refusing an ambiguous
/// answer.
pub fn search_downwards(host: Host, start: &str, extension: &str, found: Vec<String>) -> (r: Result<
    Option<String>,
    AppError,
>)
    ensures
        error::viewed_optional(r) == downwards(host, start@, extension@, list::texts(found@)),
{
    let complaint = text::cat4("several .", extension, " files sit below ", start);
    take_only(path::sort_paths(host, found), complaint.as_str())
}

/// Whether a name is that of a directory that no search enters.
pub open spec fn skipped_name(name: Seq<char>) -> bool {
    name == ".git"@ || name == ".vs"@ || name == "node_modules"@ || name == "target"@ || name
        == "obj"@ || name == "bin"@
}

/// Whether no search enters a directory.
pub open spec fn skipped(host: Host, directory: Seq<char>) -> bool {
    match path::file_name(host, directory) {
        Some(name) => skipped_name(name),
        None => false,
    }
}

/// Whether no search enters a directory.
pub fn is_skipped(host: Host, directory: &str) -> (r: bool)
    ensures
        r == skipped(host, directory@),
{
    match path::file_name_of(host, directory) {
        Some(held) => {
            let name = held.as_str();
            text::same_str(name, ".git") || text::same_str(name, ".vs") || text::same_str(
                name,
                "node_modules",
            ) || text::same_str(name, "target") || text::same_str(name, "obj") || text::same_str(
                name,
                "bin",
            )
        },
        None => false,
    }
}

/// The files among `entries` that end in an extension.
pub open spec fn files_among(host: Host, extension: Seq<char>, entries: Seq<ListedView>) -> Seq<
    Seq<char>,
>
    decreases entries.len(),
{
    if entries.len() == 0 {
        Seq::empty()
    } else {
        let entry = entries.last();
        let rest = files_among(host, extension, entries.drop_last());
        if !entry.directory && extends(host, entry.path, extension) {
            rest.push(entry.path)
        } else {
            rest
        }
    }
}

/// The directories among `entries` that a search enters.
pub open spec fn entered(host: Host, entries: Seq<ListedView>) -> Seq<Seq<char>>
    decreases entries.len(),
{
    if entries.len() == 0 {
        Seq::empty()
    } else {
        let entry = entries.last();
        let rest = entered(host, entries.drop_last());
        if entry.directory && !skipped(host, entry.path) {
            rest.push(entry.path)
        } else {
            rest
        }
    }
}

/// A directory that a search has yet to see, and how far below it to look.
#[derive(Clone, Debug)]
pub struct Visit {
    pub directory: String,
    pub depth: usize,
}

/// What a visit stands for.
pub struct VisitView {
    pub directory: Seq<char>,
    pub depth: nat,
}

impl View for Visit {
    type V = VisitView;

    open spec fn view(&self) -> VisitView {
        VisitView { directory: self.directory@, depth: self.depth as nat }
    }
}

/// Visits to directories that are looked into equally far.
pub open spec fn visits(directories: Seq<Seq<char>>, depth: nat) -> Seq<VisitView> {
    directories.map_values(
        |directory: Seq<char>| VisitView { directory: directory, depth: depth },
    )
}

/// A search for files with one extension.
#[derive(Clone, Debug)]
pub struct Search {
    pub host: Host,
    pub extension: String,
    /// The directories that the search has yet to see, the next one first.
    pub pending: Vec<Visit>,
    pub found: Vec<String>,
}

/// What a search stands for.
pub struct SearchView {
    pub host: Host,
    pub extension: Seq<char>,
    pub pending: Seq<VisitView>,
    pub found: Seq<Seq<char>>,
}

impl View for Search {
    type V = SearchView;

    open spec fn view(&self) -> SearchView {
        SearchView {
            host: self.host,
            extension: self.extension@,
            pending: order::views(self.pending@),
            found: list::texts(self.found@),
        }
    }
}

/// A search that has seen nothing yet.
pub open spec fn search_from(host: Host, start: Seq<char>, extension: Seq<char>) -> SearchView {
    SearchView {
        host: host,
        extension: extension,
        pending: seq![VisitView { directory: start, depth: SEARCH_DEPTH as nat }],
        found: Seq::empty(),
    }
}

/// A search after it has seen what the directory that it asked for holds.
pub open spec fn collected(search: SearchView, entries: Seq<ListedView>) -> SearchView {
    if search.pending.len() == 0 {
        search
    } else {
        let visit = search.pending[0];
        let below = if visit.depth > 0 {
            visits(entered(search.host, entries), (visit.depth - 1) as nat)
        } else {
            Seq::empty()
        };
        SearchView {
            host: search.host,
            extension: search.extension,
            pending: below + search.pending.skip(1),
            found: search.found + files_among(search.host, search.extension, entries),
        }
    }
}

impl Search {
    /// A search for files with an extension, in and below `start`.
    pub fn new(host: Host, start: &str, extension: &str) -> (r: Self)
        ensures
            r@ == search_from(host, start@, extension@),
    {
        let mut pending: Vec<Visit> = Vec::new();
        let first = Visit { directory: start.to_owned(), depth: SEARCH_DEPTH };
        pending.push(first);
        let found: Vec<String> = Vec::new();
        assert(order::views(pending@) == seq![first@]);
        assert(list::texts(found@) == Seq::<Seq<char>>::empty());
        Search { host: host, extension: extension.to_owned(), pending: pending, found: found }
    }

    /// Takes in what the next directory holds.
    pub fn collect(&mut self, entries: &Vec<Listed>)
        ensures
            final(self)@ == collected(old(self)@, order::views(entries@)),
    {
        assert(order::views(self.pending@).len() == self.pending@.len());
        if self.pending.len() == 0 {
            return;
        }
        let host = self.host;
        let depth: usize = self.pending[0].depth;
        assert(order::views(self.pending@)[0] == self.pending@[0]@);
        let extension = self.extension.as_str().to_owned();
        let ghost all = order::views(entries@);
        let ghost had = list::texts(self.found@);
        let ghost waiting = order::views(self.pending@);
        let mut found: Vec<String> = text::copy_list(&self.found);
        let mut pending: Vec<Visit> = Vec::new();
        let mut i: usize = 0;
        assert(list::texts(found@) == had + files_among(host, extension@, all.take(0)));
        assert(depth == 0 ==> order::views(pending@) == Seq::<VisitView>::empty());
        assert(depth > 0 ==> order::views(pending@) == visits(
            entered(host, all.take(0)),
            (depth - 1) as nat,
        ));
        while i < entries.len()
            invariant
                i <= entries@.len(),
                all == order::views(entries@),
                list::texts(found@) == had + files_among(host, extension@, all.take(i as int)),
                depth == 0 ==> order::views(pending@) == Seq::<VisitView>::empty(),
                depth > 0 ==> order::views(pending@) == visits(
                    entered(host, all.take(i as int)),
                    (depth - 1) as nat,
                ),
            decreases entries@.len() - i,
        {
            assert(all.take(i as int + 1).drop_last() == all.take(i as int));
            assert(all[i as int] == entries@[i as int]@);
            let file = entries[i].path.as_str();
            if entries[i].directory {
                if depth > 0 && !is_skipped(host, file) {
                    let ghost before = pending@;
                    let visit = Visit { directory: file.to_owned(), depth: depth - 1 };
                    pending.push(visit);
                    assert(order::views(pending@) == order::views(before).push(visit@));
                    assert(visits(entered(host, all.take(i as int + 1)), (depth - 1) as nat)
                        == visits(entered(host, all.take(i as int)), (depth - 1) as nat).push(
                        visit@,
                    ));
                }
            } else if has_extension(host, file, extension.as_str()) {
                found.push(file.to_owned());
                assert(list::texts(found@) == had + files_among(
                    host,
                    extension@,
                    all.take(i as int + 1),
                ));
            }
            i += 1;
        }
        assert(all.take(i as int) == all);
        let ghost below = order::views(pending@);
        let mut k: usize = 1;
        assert(below + waiting.subrange(1, 1) == below);
        while k < self.pending.len()
            invariant
                1 <= k <= self.pending@.len(),
                waiting == order::views(self.pending@),
                order::views(pending@) == below + waiting.subrange(1, k as int),
            decreases self.pending@.len() - k,
        {
            let ghost before = pending@;
            assert(waiting[k as int] == self.pending@[k as int]@);
            let visit = Visit {
                directory: self.pending[k].directory.as_str().to_owned(),
                depth: self.pending[k].depth,
            };
            pending.push(visit);
            assert(order::views(pending@) == order::views(before).push(visit@));
            k += 1;
        }
        assert(waiting.subrange(1, k as int) == waiting.skip(1));
        self.pending = pending;
        self.found = found;
    }
}

/// What a directory holds, for every directory.
pub type Listing = spec_fn(Seq<char>) -> Seq<ListedView>;

/// The files with an extension in and below a directory.
pub open spec fn found_below(
    listing: Listing,
    host: Host,
    extension: Seq<char>,
    directory: Seq<char>,
    depth: nat,
) -> Seq<Seq<char>>
    decreases depth, 0nat,
{
    let entries = listing(directory);
    let here = files_among(host, extension, entries);
    if depth > 0 {
        here + found_below_all(
            listing,
            host,
            extension,
            entered(host, entries),
            (depth - 1) as nat,
        )
    } else {
        here
    }
}

/// The files with an extension in and below some directories, one after another.
pub open spec fn found_below_all(
    listing: Listing,
    host: Host,
    extension: Seq<char>,
    directories: Seq<Seq<char>>,
    depth: nat,
) -> Seq<Seq<char>>
    decreases depth, directories.len() + 1,
{
    if directories.len() == 0 {
        Seq::empty()
    } else {
        found_below(listing, host, extension, directories[0], depth) + found_below_all(
            listing,
            host,
            extension,
            directories.skip(1),
            depth,
        )
    }
}

/// The files that the visits which a search has yet to make will turn up.
pub open spec fn outstanding(
    listing: Listing,
    host: Host,
    extension: Seq<char>,
    pending: Seq<VisitView>,
) -> Seq<Seq<char>>
    decreases pending.len(),
{
    if pending.len() == 0 {
        Seq::empty()
    } else {
        found_below(listing, host, extension, pending[0].directory, pending[0].depth) + outstanding(
            listing,
            host,
            extension,
            pending.skip(1),
        )
    }
}

/// The files that a search has found or will still turn up.
pub open spec fn findings(listing: Listing, search: SearchView) -> Seq<Seq<char>> {
    search.found + outstanding(listing, search.host, search.extension, search.pending)
}

proof fn lemma_outstanding(
    listing: Listing,
    host: Host,
    extension: Seq<char>,
    directories: Seq<Seq<char>>,
    depth: nat,
    rest: Seq<VisitView>,
)
    ensures
        outstanding(listing, host, extension, visits(directories, depth) + rest)
            == found_below_all(listing, host, extension, directories, depth) + outstanding(
            listing,
            host,
            extension,
            rest,
        ),
    decreases directories.len(),
{
    let all = visits(directories, depth) + rest;
    if directories.len() == 0 {
        assert(all == rest);
    } else {
        assert(all.skip(1) == visits(directories.skip(1), depth) + rest);
        lemma_outstanding(listing, host, extension, directories.skip(1), depth, rest);
    }
}

/// A step of a search neither loses a file nor finds one that is not there: while
/// the directories stay as they are, what has been found and what is still to be
/// found make up the same files in the same order throughout.
pub proof fn lemma_collect_keeps_findings(listing: Listing, search: SearchView)
    requires
        search.pending.len() > 0,
    ensures
        findings(listing, collected(search, listing(search.pending[0].directory))) == findings(
            listing,
            search,
        ),
{
    let visit = search.pending[0];
    let entries = listing(visit.directory);
    let rest = search.pending.skip(1);
    let here = files_among(search.host, search.extension, entries);
    let later = outstanding(listing, search.host, search.extension, rest);
    if visit.depth > 0 {
        let directories = entered(search.host, entries);
        let depth = (visit.depth - 1) as nat;
        lemma_outstanding(listing, search.host, search.extension, directories, depth, rest);
        let below = found_below_all(listing, search.host, search.extension, directories, depth);
        assert(search.found + here + (below + later) == search.found + (here + below + later));
    } else {
        assert(Seq::<VisitView>::empty() + rest == rest);
        assert(search.found + here + later == search.found + (here + later));
    }
}

/// A search that has nothing left to see has found exactly the files in and below
/// its start, as it sees them from the start.
pub proof fn lemma_search_finds_all(
    listing: Listing,
    host: Host,
    start: Seq<char>,
    extension: Seq<char>,
)
    ensures
        findings(listing, search_from(host, start, extension)) == found_below(
            listing,
            host,
            extension,
            start,
            SEARCH_DEPTH as nat,
        ),
        forall|search: SearchView|
            search.pending.len() == 0 ==> #[trigger] findings(listing, search) == search.found,
{
    let first = search_from(host, start, extension);
    assert(first.pending.skip(1) == Seq::<VisitView>::empty());
    let all = found_below(listing, host, extension, start, SEARCH_DEPTH as nat);
    assert(outstanding(listing, host, extension, first.pending.skip(1)) == Seq::<
        Seq<char>,
    >::empty());
    assert(first.found + (all + Seq::<Seq<char>>::empty()) == all);
    assert forall|search: SearchView| search.pending.len() == 0 implies #[trigger] findings(
        listing,
        search,
    ) == search.found by {
        assert(search.found + Seq::<Seq<char>>::empty() == search.found);
    }
}

/// The way to the solution or project that is most likely meant.
#[derive(Clone, Debug)]
pub struct Discovery {
    pub host: Host,
    pub start: String,
    /// The directories at and above the start that have yet to be seen.
    pub above: Vec<String>,
    /// The search that follows when nothing was found above.
    pub search: Search,
}

/// What a discovery stands for.
pub struct DiscoveryView {
    pub host: Host,
    pub start: Seq<char>,
    pub above: Seq<Seq<char>>,
    pub search: SearchView,
}

impl View for Discovery {
    type V = DiscoveryView;

    open spec fn view(&self) -> DiscoveryView {
        DiscoveryView {
            host: self.host,
            start: self.start@,
            above: list::texts(self.above@),
            search: self.search@,
        }
    }
}

/// Where a discovery stands after it has seen one more directory.
#[derive(Clone, Debug)]
pub enum Progress {
    Found(String),
    Next(Discovery),
}

/// What progress stands for.
pub enum ProgressView {
    Found(Seq<char>),
    Next(DiscoveryView),
}

impl View for Progress {
    type V = ProgressView;

    open spec fn view(&self) -> ProgressView {
        match self {
            Progress::Found(file) => ProgressView::Found(file@),
            Progress::Next(discovery) => ProgressView::Next(discovery@),
        }
    }
}

/// A discovery that has seen nothing yet.
pub open spec fn discovery_from(host: Host, start: Seq<char>) -> DiscoveryView {
    DiscoveryView {
        host: host,
        start: start,
        above: path::ancestors(host, start),
        search: search_from(host, start, "atsln"@),
    }
}

/// The directory that a discovery wants to see next.
pub open spec fn wanted_directory(discovery: DiscoveryView) -> Option<Seq<char>> {
    if discovery.above.len() > 0 {
        Some(discovery.above[0])
    } else if discovery.search.pending.len() > 0 {
        Some(discovery.search.pending[0].directory)
    } else {
        None
    }
}

/// Why nothing was found.
pub open spec fn nothing_found(start: Seq<char>) -> Failure {
    Failure::Usage(
        "no .atsln or .cproj found in or below "@ + start
            + ".\nRun atp from a project directory, or name a solution in atp.toml."@,
    )
}

/// What comes of a discovery when the directory that it wanted to see holds
/// `entries`: the solutions at and above the start count first, then the
/// solutions below it, then the projects below it.
pub open spec fn discovered(discovery: DiscoveryView, entries: Seq<ListedView>) -> Result<
    ProgressView,
    Failure,
> {
    let host = discovery.host;
    let start = discovery.start;
    if discovery.above.len() > 0 {
        match single(host, discovery.above[0], "atsln"@, entries) {
            Err(failure) => Err(failure),
            Ok(Some(file)) => Ok(ProgressView::Found(file)),
            Ok(None) => Ok(
                ProgressView::Next(
                    DiscoveryView { above: discovery.above.skip(1), ..discovery },
                ),
            ),
        }
    } else {
        let search = collected(discovery.search, entries);
        if search.pending.len() > 0 {
            Ok(ProgressView::Next(DiscoveryView { search: search, ..discovery }))
        } else {
            match downwards(host, start, search.extension, search.found) {
                Err(failure) => Err(failure),
                Ok(Some(file)) => Ok(ProgressView::Found(file)),
                Ok(None) => if search.extension == "atsln"@ {
                    Ok(
                        ProgressView::Next(
                            DiscoveryView {
                                search: search_from(host, start, "cproj"@),
                                ..discovery
                            },
                        ),
                    )
                } else {
                    Err(nothing_found(start))
                },
            }
        }
    }
}

impl Discovery {
    /// A discovery that starts in a directory.
    pub fn new(host: Host, start: &str) -> (r: Self)
        ensures
            r@ == discovery_from(host, start@),
    {
        Discovery {
            host: host,
            start: start.to_owned(),
            above: path::ancestors_of(host, start),
            search: Search::new(host, start, "atsln"),
        }
    }

    /// The directory to see next.
    pub fn directory(&self) -> (r: Option<String>)
        ensures
            list::optional(r) == wanted_directory(self@),
    {
        assert(list::texts(self.above@).len() == self.above@.len());
        assert(order::views(self.search.pending@).len() == self.search.pending@.len());
        if self.above.len() > 0 {
            Some(self.above[0].as_str().to_owned())
        } else if self.search.pending.len() > 0 {
            Some(self.search.pending[0].directory.as_str().to_owned())
        } else {
            None
        }
    }

    /// Looks for the solution or project the user most likely means, in what the
    /// wanted directory holds.
    pub fn discover(self, entries: &Vec<Listed>) -> (r: Result<Progress, AppError>)
        ensures
            error::viewed(r) == discovered(self@, order::views(entries@)),
    {
        let mut next = self;
        let host = next.host;
        assert(list::texts(next.above@).len() == next.above@.len());
        if next.above.len() > 0 {
            let ghost before = next.above@;
            let directory = next.above.remove(0);
            assert(list::texts(next.above@) == list::texts(before).skip(1));
            assert(list::texts(before)[0] == directory@);
            return match single_match(host, directory.as_str(), "atsln", entries) {
                Err(error) => Err(error),
                Ok(Some(file)) => Ok(Progress::Found(file)),
                Ok(None) => Ok(Progress::Next(next)),
            };
        }
        next.search.collect(entries);
        assert(order::views(next.search.pending@).len() == next.search.pending@.len());
        if next.search.pending.len() > 0 {
            return Ok(Progress::Next(next));
        }
        let found = text::copy_list(&next.search.found);
        let extension = next.search.extension.as_str();
        match search_downwards(host, next.start.as_str(), extension, found) {
            Err(error) => Err(error),
            Ok(Some(file)) => Ok(Progress::Found(file)),
            Ok(None) => if text::same_str(extension, "atsln") {
                let search = Search::new(host, next.start.as_str(), "cproj");
                next.search = search;
                Ok(Progress::Next(next))
            } else {
                Err(
                    AppError::Usage(
                        text::cat3(
                            "no .atsln or .cproj found in or below ",
                            next.start.as_str(),
                            ".\nRun atp from a project directory, or name a solution in atp.toml.",
                        ),
                    ),
                )
            },
        }
    }
}

/// The solution in the first of some directories that holds one.
pub open spec fn first_single(listing: Listing, host: Host, directories: Seq<Seq<char>>) -> Result<
    Option<Seq<char>>,
    Failure,
>
    decreases directories.len(),
{
    if directories.len() == 0 {
        Ok(None)
    } else {
        match single(host, directories[0], "atsln"@, listing(directories[0])) {
            Ok(None) => first_single(listing, host, directories.skip(1)),
            decided => decided,
        }
    }
}

/// The project in or below the start, where there is no solution.
pub open spec fn only_project(listing: Listing, host: Host, start: Seq<char>) -> Result<
    Seq<char>,
    Failure,
> {
    let found = found_below(listing, host, "cproj"@, start, SEARCH_DEPTH as nat);
    match downwards(host, start, "cproj"@, found) {
        Err(failure) => Err(failure),
        Ok(Some(file)) => Ok(file),
        Ok(None) => Err(nothing_found(start)),
    }
}

/// What is most likely meant where directories hold what `listing` says: the one
/// solution in the nearest directory at or above the start that holds any, or else
/// the one solution below the start, or else the one project below it.
pub open spec fn meant(listing: Listing, host: Host, start: Seq<char>) -> Result<
    Seq<char>,
    Failure,
> {
    match first_single(listing, host, path::ancestors(host, start)) {
        Err(failure) => Err(failure),
        Ok(Some(file)) => Ok(file),
        Ok(None) => {
            let found = found_below(listing, host, "atsln"@, start, SEARCH_DEPTH as nat);
            match downwards(host, start, "atsln"@, found) {
                Err(failure) => Err(failure),
                Ok(Some(file)) => Ok(file),
                Ok(None) => only_project(listing, host, start),
            }
        },
    }
}

/// What a discovery that has got this far will come to.
pub open spec fn outcome(listing: Listing, discovery: DiscoveryView) -> Result<
    Seq<char>,
    Failure,
> {
    let host = discovery.host;
    let start = discovery.start;
    match first_single(listing, host, discovery.above) {
        Err(failure) => Err(failure),
        Ok(Some(file)) => Ok(file),
        Ok(None) => {
            let extension = discovery.search.extension;
            match downwards(host, start, extension, findings(listing, discovery.search)) {
                Err(failure) => Err(failure),
                Ok(Some(file)) => Ok(file),
                Ok(None) => if extension == "atsln"@ {
                    only_project(listing, host, start)
                } else {
                    Err(nothing_found(start))
                },
            }
        },
    }
}

/// A discovery sets out for what is meant.
pub proof fn lemma_discovery_starts_right(listing: Listing, host: Host, start: Seq<char>)
    ensures
        outcome(listing, discovery_from(host, start)) == meant(listing, host, start),
        wanted_directory(discovery_from(host, start)) is Some,
{
    lemma_search_finds_all(listing, host, start, "atsln"@);
}

/// Each step of a discovery keeps to what is meant: it ends with it, or goes on
/// with another directory to see and the same answer ahead.
pub proof fn lemma_discovery_stays_right(listing: Listing, discovery: DiscoveryView)
    requires
        discovery.search.host == discovery.host,
        discovery.search.pending.len() > 0,
    ensures
        ({
            let directory = wanted_directory(discovery)->0;
            match discovered(discovery, listing(directory)) {
                Err(failure) => outcome(listing, discovery) == Err::<Seq<char>, _>(failure),
                Ok(ProgressView::Found(file)) => outcome(listing, discovery) == Ok::<_, Failure>(
                    file,
                ),
                Ok(ProgressView::Next(next)) => {
                    &&& outcome(listing, next) == outcome(listing, discovery)
                    &&& next.search.host == next.host
                    &&& next.search.pending.len() > 0
                },
            }
        }),
{
    if discovery.above.len() == 0 {
        let entries = listing(discovery.search.pending[0].directory);
        let search = collected(discovery.search, entries);
        lemma_collect_keeps_findings(listing, discovery.search);
        lemma_search_finds_all(listing, discovery.host, discovery.start, "cproj"@);
        if search.pending.len() == 0 {
            assert(findings(listing, search) == search.found);
            reveal_strlit("atsln");
            reveal_strlit("cproj");
            assert("atsln"@[0] != "cproj"@[0]);
        }
    }
}

/// The directories in which the solution of a project may lie: that of the project
/// and the one above.
pub open spec fn solution_directories(host: Host, project: Seq<char>) -> Seq<Seq<char>> {
    match path::parent(host, project) {
        Some(directory) => match path::parent(host, directory) {
            Some(above) => seq![directory, above],
            None => Seq::empty(),
        },
        None => Seq::empty(),
    }
}

/// The directories in which the solution of a project may lie.
pub fn directories_for(host: Host, project: &str) -> (r: Vec<String>)
    ensures
        list::texts(r@) == solution_directories(host, project@),
{
    let mut out: Vec<String> = Vec::new();
    assert(list::texts(out@) == Seq::<Seq<char>>::empty());
    match path::parent_of(host, project) {
        Some(directory) => match path::parent_of(host, directory.as_str()) {
            Some(above) => {
                let ghost first = directory@;
                let ghost second = above@;
                out.push(directory);
                out.push(above);
                assert(list::texts(out@) == seq![first, second]);
            },
            None => {},
        },
        None => {},
    }
    out
}

/// The solutions that a directory holds, in order.
pub fn solutions_in(host: Host, entries: &Vec<Listed>) -> (r: Vec<String>)
    ensures
        list::texts(r@) == path::sorted_paths(
            host,
            matching(host, "atsln"@, order::views(entries@)),
        ),
{
    let found = pick(host, "atsln", entries);
    path::sort_paths(host, found)
}

/// How many directories a search sees in and below a directory.
pub open spec fn visits_below(listing: Listing, host: Host, directory: Seq<char>, depth: nat) -> nat
    decreases depth, 0nat,
{
    if depth > 0 {
        1 + visits_below_all(
            listing,
            host,
            entered(host, listing(directory)),
            (depth - 1) as nat,
        )
    } else {
        1
    }
}

/// How many directories a search sees in and below some directories.
pub open spec fn visits_below_all(
    listing: Listing,
    host: Host,
    directories: Seq<Seq<char>>,
    depth: nat,
) -> nat
    decreases depth, directories.len() + 1,
{
    if directories.len() == 0 {
        0
    } else {
        visits_below(listing, host, directories[0], depth) + visits_below_all(
            listing,
            host,
            directories.skip(1),
            depth,
        )
    }
}

/// How many directories a search has yet to see.
pub open spec fn visits_left(listing: Listing, host: Host, pending: Seq<VisitView>) -> nat
    decreases pending.len(),
{
    if pending.len() == 0 {
        0
    } else {
        visits_below(listing, host, pending[0].directory, pending[0].depth) + visits_left(
            listing,
            host,
            pending.skip(1),
        )
    }
}

proof fn lemma_visits_left(
    listing: Listing,
    host: Host,
    directories: Seq<Seq<char>>,
    depth: nat,
    rest: Seq<VisitView>,
)
    ensures
        visits_left(listing, host, visits(directories, depth) + rest) == visits_below_all(
            listing,
            host,
            directories,
            depth,
        ) + visits_left(listing, host, rest),
    decreases directories.len(),
{
    let all = visits(directories, depth) + rest;
    if directories.len() == 0 {
        assert(all == rest);
    } else {
        assert(all.skip(1) == visits(directories.skip(1), depth) + rest);
        lemma_visits_left(listing, host, directories.skip(1), depth, rest);
    }
}

/// Each step of a search leaves one directory less to see, so every search ends.
pub proof fn lemma_search_ends(listing: Listing, search: SearchView)
    requires
        search.pending.len() > 0,
    ensures
        visits_left(
            listing,
            search.host,
            collected(search, listing(search.pending[0].directory)).pending,
        ) + 1 == visits_left(listing, search.host, search.pending),
{
    let visit = search.pending[0];
    let rest = search.pending.skip(1);
    if visit.depth > 0 {
        lemma_visits_left(
            listing,
            search.host,
            entered(search.host, listing(visit.directory)),
            (visit.depth - 1) as nat,
            rest,
        );
    } else {
        assert(Seq::<VisitView>::empty() + rest == rest);
    }
}

/// How many directories a discovery sees at most before it ends.
pub open spec fn steps_left(listing: Listing, discovery: DiscoveryView) -> nat {
    let host = discovery.host;
    let later = search_from(host, discovery.start, "cproj"@).pending;
    discovery.above.len() + visits_left(listing, host, discovery.search.pending) + if
        discovery.search.extension == "atsln"@ {
        visits_left(listing, host, later)
    } else {
        0
    }
}

/// Each step of a discovery that does not end it brings it nearer to its end, so every
/// discovery ends.
pub proof fn lemma_discovery_ends(listing: Listing, discovery: DiscoveryView)
    requires
        discovery.search.host == discovery.host,
        discovery.search.pending.len() > 0,
    ensures
        steps_left(listing, discovery) > 0,
        ({
            let directory = wanted_directory(discovery)->0;
            discovered(discovery, listing(directory)) matches Ok(ProgressView::Next(next))
                ==> steps_left(listing, next) < steps_left(listing, discovery)
        }),
{
    reveal_strlit("atsln");
    reveal_strlit("cproj");
    assert("atsln"@[0] != "cproj"@[0]);
    if discovery.above.len() == 0 {
        lemma_search_ends(listing, discovery.search);
    }
}

} // verus!
