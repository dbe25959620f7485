//! Laws on telling whether artifacts are older than their sources.

use vstd::prelude::*;

use crate::app;
use crate::host::Host;
use crate::path;
use crate::stale;

verus! {

/// Whether a directory holds no sources of a target: it is named after a configuration
/// that the target offers, chosen or not, or is one that a tool keeps.
pub open spec fn holds_no_sources(host: Host, target: app::TargetView, directory: Seq<char>) -> bool {
    path::file_name(host, directory) matches Some(name) && (app::offered(
        target.solution,
        target.project,
    ).contains(name) || name == ".git"@ || name == ".vs"@)
}

/// Whether a set of directories holds every one that sources may lie in: the directory of
/// the project, and with any directory those in it that may hold sources.
pub open spec fn holds_all_sources(
    seen: spec_fn(Seq<char>) -> bool,
    listing: stale::Listing,
    host: Host,
    target: app::TargetView,
) -> bool {
    &&& seen(path::directory(host, target.project.path))
    &&& forall|directory: Seq<char>, i: int|
        #![trigger listing(directory)[i]]
        seen(directory) && 0 <= i < listing(directory).len() && listing(directory)[i].directory
            && !holds_no_sources(host, target, listing(directory)[i].path) ==> seen(
            listing(directory)[i].path,
        )
}

proof fn lemma_left_out(host: Host, target: app::TargetView, directory: Seq<char>)
    ensures
        stale::left_out(host, stale::skip_list(target), directory) == holds_no_sources(
            host,
            target,
            directory,
        ),
{
    let offered = app::offered(target.solution, target.project);
    let skip = stale::skip_list(target);
    if let Some(name) = path::file_name(host, directory) {
        if offered.contains(name) {
            let i = choose|i: int| 0 <= i < offered.len() && offered[i] == name;
            assert(skip[i] == name);
        }
        if name == ".git"@ {
            assert(skip[offered.len() as int] == name);
        }
        if name == ".vs"@ {
            assert(skip[(offered.len() + 1) as int] == name);
        }
        if skip.contains(name) {
            let i = choose|i: int| 0 <= i < skip.len() && skip[i] == name;
            if i < offered.len() {
                assert(offered[i] == name);
            }
        }
    }
}

/// The directories that a walk enters are among those that it is shown, and hold sources.
proof fn lemma_walked(
    host: Host,
    target: app::TargetView,
    entries: Seq<stale::SeenView>,
    k: int,
) -> (i: int)
    requires
        0 <= k < stale::walked(host, stale::skip_list(target), entries).len(),
    ensures
        0 <= i < entries.len(),
        entries[i].directory,
        entries[i].path == stale::walked(host, stale::skip_list(target), entries)[k],
        !holds_no_sources(host, target, entries[i].path),
    decreases entries.len(),
{
    let skip = stale::skip_list(target);
    let front = entries.drop_last();
    let rest = stale::walked(host, skip, front);
    if k < rest.len() {
        let i = lemma_walked(host, target, front, k);
        assert(front[i] == entries[i]);
        i
    } else {
        lemma_left_out(host, target, entries.last().path);
        entries.len() - 1
    }
}

proof fn lemma_same_below(
    one: stale::Listing,
    two: stale::Listing,
    seen: spec_fn(Seq<char>) -> bool,
    host: Host,
    target: app::TargetView,
    directory: Seq<char>,
    depth: nat,
)
    requires
        holds_all_sources(seen, one, host, target),
        forall|d: Seq<char>| seen(d) ==> #[trigger] one(d) == two(d),
        seen(directory),
    ensures
        stale::newest_below(one, host, stale::skip_list(target), directory, depth)
            == stale::newest_below(two, host, stale::skip_list(target), directory, depth),
    decreases depth, 0nat,
{
    let skip = stale::skip_list(target);
    assert(one(directory) == two(directory));
    if depth > 0 {
        let entries = one(directory);
        let directories = stale::walked(host, skip, entries);
        assert forall|k: int| 0 <= k < directories.len() implies seen(#[trigger] directories[k]) by {
            let i = lemma_walked(host, target, entries, k);
            assert(one(directory)[i].directory);
        }
        lemma_same_below_all(one, two, seen, host, target, directories, (depth - 1) as nat);
    }
}

proof fn lemma_same_below_all(
    one: stale::Listing,
    two: stale::Listing,
    seen: spec_fn(Seq<char>) -> bool,
    host: Host,
    target: app::TargetView,
    directories: Seq<Seq<char>>,
    depth: nat,
)
    requires
        holds_all_sources(seen, one, host, target),
        forall|d: Seq<char>| seen(d) ==> #[trigger] one(d) == two(d),
        forall|k: int| 0 <= k < directories.len() ==> seen(#[trigger] directories[k]),
    ensures
        stale::newest_below_all(one, host, stale::skip_list(target), directories, depth)
            == stale::newest_below_all(two, host, stale::skip_list(target), directories, depth),
    decreases depth, directories.len() + 1,
{
    if directories.len() > 0 {
        let front = directories.drop_last();
        assert forall|k: int| 0 <= k < front.len() implies seen(#[trigger] front[k]) by {
            assert(front[k] == directories[k]);
        }
        assert(seen(directories[directories.len() - 1]));
        lemma_same_below_all(one, two, seen, host, target, front, depth);
        lemma_same_below(one, two, seen, host, target, directories.last(), depth);
    }
}

/// Build output is never a source: what lies in the directories of the configurations
/// that a project offers, of all of them and not only of the one that was chosen, or in
/// those that tools keep, makes no difference to the time of the last change. Two disks
/// that differ only there give the same time.
pub proof fn lemma_build_output_is_no_source(
    one: stale::Listing,
    two: stale::Listing,
    seen: spec_fn(Seq<char>) -> bool,
    host: Host,
    target: app::TargetView,
)
    requires
        holds_all_sources(seen, one, host, target),
        forall|d: Seq<char>| seen(d) ==> #[trigger] one(d) == two(d),
    ensures
        stale::answer(one, stale::walk_from(host, target)) == stale::answer(
            two,
            stale::walk_from(host, target),
        ),
{
    stale::lemma_walk_finds_newest(one, host, target);
    stale::lemma_walk_finds_newest(two, host, target);
    lemma_same_below(
        one,
        two,
        seen,
        host,
        target,
        path::directory(host, target.project.path),
        stale::WALK_DEPTH as nat,
    );
}

/// Which configuration was chosen makes no difference to the time of the last change.
pub proof fn lemma_sources_of_every_configuration(
    listing: stale::Listing,
    host: Host,
    target: app::TargetView,
    configuration: Seq<char>,
)
    ensures
        stale::answer(listing, stale::walk_from(host, target)) == stale::answer(
            listing,
            stale::walk_from(
                host,
                (app::TargetView { configuration: configuration, ..target }),
            ),
        ),
{
}

/// Whether a directory lies `steps` below the directory of the project, by way of
/// directories that may hold sources.
pub open spec fn lies_below(
    listing: stale::Listing,
    host: Host,
    target: app::TargetView,
    start: Seq<char>,
    directory: Seq<char>,
    steps: nat,
) -> bool
    decreases steps,
{
    if steps == 0 {
        directory == start
    } else {
        exists|i: int|
            0 <= i < listing(start).len() && (#[trigger] listing(start)[i]).directory
                && !holds_no_sources(host, target, listing(start)[i].path) && lies_below(
                listing,
                host,
                target,
                listing(start)[i].path,
                directory,
                (steps - 1) as nat,
            )
    }
}

proof fn lemma_among(entries: Seq<stale::SeenView>, i: int)
    requires
        0 <= i < entries.len(),
        !entries[i].directory,
    ensures
        entries[i].modified matches Some(time) ==> stale::newest_among(entries) matches Some(
            newest,
        ) && newest >= time,
    decreases entries.len(),
{
    if i < entries.len() - 1 {
        lemma_among(entries.drop_last(), i);
    }
}

proof fn lemma_walked_has(
    host: Host,
    target: app::TargetView,
    entries: Seq<stale::SeenView>,
    i: int,
) -> (k: int)
    requires
        0 <= i < entries.len(),
        entries[i].directory,
        !holds_no_sources(host, target, entries[i].path),
    ensures
        0 <= k < stale::walked(host, stale::skip_list(target), entries).len(),
        stale::walked(host, stale::skip_list(target), entries)[k] == entries[i].path,
    decreases entries.len(),
{
    let skip = stale::skip_list(target);
    let rest = stale::walked(host, skip, entries.drop_last());
    if i < entries.len() - 1 {
        let k = lemma_walked_has(host, target, entries.drop_last(), i);
        k
    } else {
        lemma_left_out(host, target, entries[i].path);
        rest.len() as int
    }
}

proof fn lemma_below_all_has(
    listing: stale::Listing,
    host: Host,
    skip: Seq<Seq<char>>,
    directories: Seq<Seq<char>>,
    depth: nat,
    k: int,
)
    requires
        0 <= k < directories.len(),
    ensures
        stale::newest_below(listing, host, skip, directories[k], depth) matches Some(time)
            ==> stale::newest_below_all(listing, host, skip, directories, depth) matches Some(
            newest,
        ) && newest >= time,
    decreases directories.len(),
{
    if k < directories.len() - 1 {
        lemma_below_all_has(listing, host, skip, directories.drop_last(), depth, k);
    }
}

proof fn lemma_below_has(
    listing: stale::Listing,
    host: Host,
    target: app::TargetView,
    start: Seq<char>,
    depth: nat,
    directory: Seq<char>,
    steps: nat,
    i: int,
)
    requires
        steps <= depth,
        lies_below(listing, host, target, start, directory, steps),
        0 <= i < listing(directory).len(),
        !listing(directory)[i].directory,
    ensures
        listing(directory)[i].modified matches Some(time) ==> stale::newest_below(
            listing,
            host,
            stale::skip_list(target),
            start,
            depth,
        ) matches Some(newest) && newest >= time,
    decreases depth,
{
    let skip = stale::skip_list(target);
    let entries = listing(start);
    if steps == 0 {
        lemma_among(entries, i);
    } else {
        let j = choose|j: int|
            0 <= j < listing(start).len() && (#[trigger] listing(start)[j]).directory
                && !holds_no_sources(host, target, listing(start)[j].path) && lies_below(
                listing,
                host,
                target,
                listing(start)[j].path,
                directory,
                (steps - 1) as nat,
            );
        let k = lemma_walked_has(host, target, entries, j);
        let directories = stale::walked(host, skip, entries);
        lemma_below_has(
            listing,
            host,
            target,
            directories[k],
            (depth - 1) as nat,
            directory,
            (steps - 1) as nat,
            i,
        );
        lemma_below_all_has(listing, host, skip, directories, (depth - 1) as nat, k);
    }
}

/// The time of the last change is no earlier than that of any source: of any file that
/// lies in the project, as deep as a walk looks, by way of directories that may hold
/// sources.
pub proof fn lemma_no_source_is_newer(
    listing: stale::Listing,
    host: Host,
    target: app::TargetView,
    directory: Seq<char>,
    steps: nat,
    i: int,
)
    requires
        steps <= 12,
        lies_below(
            listing,
            host,
            target,
            path::directory(host, target.project.path),
            directory,
            steps,
        ),
        0 <= i < listing(directory).len(),
        !listing(directory)[i].directory,
    ensures
        listing(directory)[i].modified matches Some(time) ==> stale::answer(
            listing,
            stale::walk_from(host, target),
        ) matches Some(newest) && newest >= time,
{
    stale::lemma_walk_finds_newest(listing, host, target);
    lemma_below_has(
        listing,
        host,
        target,
        path::directory(host, target.project.path),
        12,
        directory,
        steps,
        i,
    );
}

proof fn lemma_among_is_one(entries: Seq<stale::SeenView>) -> (i: int)
    requires
        stale::newest_among(entries) is Some,
    ensures
        0 <= i < entries.len(),
        !entries[i].directory,
        entries[i].modified == stale::newest_among(entries),
    decreases entries.len(),
{
    let last = entries.last();
    if !last.directory && last.modified == stale::newest_among(entries) {
        entries.len() - 1
    } else {
        lemma_among_is_one(entries.drop_last())
    }
}

proof fn lemma_below_is_one(
    listing: stale::Listing,
    host: Host,
    target: app::TargetView,
    start: Seq<char>,
    depth: nat,
) -> (found: (Seq<char>, nat, int))
    requires
        stale::newest_below(listing, host, stale::skip_list(target), start, depth) is Some,
    ensures
        found.1 <= depth,
        lies_below(listing, host, target, start, found.0, found.1),
        0 <= found.2 < listing(found.0).len(),
        !listing(found.0)[found.2].directory,
        listing(found.0)[found.2].modified == stale::newest_below(
            listing,
            host,
            stale::skip_list(target),
            start,
            depth,
        ),
    decreases depth, 0nat,
{
    let skip = stale::skip_list(target);
    let entries = listing(start);
    let newest = stale::newest_below(listing, host, skip, start, depth);
    if stale::newest_among(entries) == newest {
        let i = lemma_among_is_one(entries);
        (start, 0nat, i)
    } else {
        let directories = stale::walked(host, skip, entries);
        let k = lemma_below_all_is_one(listing, host, skip, directories, (depth - 1) as nat);
        let found = lemma_below_is_one(listing, host, target, directories[k], (depth - 1) as nat);
        let i = lemma_walked(host, target, entries, k);
        assert(listing(start)[i].directory);
        assert(lies_below(listing, host, target, listing(start)[i].path, found.0, found.1));
        assert(lies_below(listing, host, target, start, found.0, found.1 + 1));
        (found.0, found.1 + 1, found.2)
    }
}

proof fn lemma_below_all_is_one(
    listing: stale::Listing,
    host: Host,
    skip: Seq<Seq<char>>,
    directories: Seq<Seq<char>>,
    depth: nat,
) -> (k: int)
    requires
        stale::newest_below_all(listing, host, skip, directories, depth) is Some,
    ensures
        0 <= k < directories.len(),
        stale::newest_below(listing, host, skip, directories[k], depth)
            == stale::newest_below_all(listing, host, skip, directories, depth),
    decreases directories.len(),
{
    let newest = stale::newest_below_all(listing, host, skip, directories, depth);
    if stale::newest_below(listing, host, skip, directories.last(), depth) == newest {
        directories.len() - 1
    } else {
        lemma_below_all_is_one(listing, host, skip, directories.drop_last(), depth)
    }
}

/// The time of the last change is that of a source.
pub proof fn lemma_newest_is_a_source(
    listing: stale::Listing,
    host: Host,
    target: app::TargetView,
) -> (found: (Seq<char>, nat, int))
    requires
        stale::answer(listing, stale::walk_from(host, target)) is Some,
    ensures
        found.1 <= 12,
        lies_below(
            listing,
            host,
            target,
            path::directory(host, target.project.path),
            found.0,
            found.1,
        ),
        0 <= found.2 < listing(found.0).len(),
        !listing(found.0)[found.2].directory,
        listing(found.0)[found.2].modified == stale::answer(
            listing,
            stale::walk_from(host, target),
        ),
{
    stale::lemma_walk_finds_newest(listing, host, target);
    lemma_below_is_one(listing, host, target, path::directory(host, target.project.path), 12)
}

proof fn lemma_oldest(artifacts: Seq<Option<int>>)
    ensures
        match stale::oldest(artifacts) {
            Some(first) => artifacts.contains(Some(first)) && forall|i: int|
                0 <= i < artifacts.len() ==> (#[trigger] artifacts[i] matches Some(time)
                    ==> time >= first),
            None => forall|i: int| 0 <= i < artifacts.len() ==> #[trigger] artifacts[i] is None,
        },
    decreases artifacts.len(),
{
    if artifacts.len() > 0 {
        let front = artifacts.drop_last();
        lemma_oldest(front);
        assert(artifacts[artifacts.len() - 1] == artifacts.last());
        match stale::oldest(artifacts) {
            Some(first) => {
                if artifacts.last() != Some(first) {
                    let i = choose|i: int| 0 <= i < front.len() && front[i] == Some(first);
                    assert(artifacts[i] == Some(first));
                }
                assert forall|i: int| 0 <= i < artifacts.len() implies (#[trigger] artifacts[i] matches Some(
                    time,
                ) ==> time >= first) by {
                    if i < front.len() {
                        assert(front[i] == artifacts[i]);
                    }
                }
            },
            None => {
                assert forall|i: int| 0 <= i < artifacts.len() implies #[trigger] artifacts[i]
                    is None by {
                    if i < front.len() {
                        assert(front[i] == artifacts[i]);
                    }
                }
            },
        }
    }
}

/// Artifacts are said to be stale if and only if one of them is known to be older than
/// the last change.
pub proof fn lemma_stale_means_older(
    target: app::TargetView,
    artifacts: Seq<Option<int>>,
    newest: Option<int>,
)
    ensures
        stale::stale_note(target, artifacts, newest) is Some <==> exists|i: int|
            0 <= i < artifacts.len() && (#[trigger] artifacts[i] matches Some(time) && newest matches Some(
                changed,
            ) && time < changed),
{
    lemma_oldest(artifacts);
    if stale::stale_note(target, artifacts, newest) is Some {
        let first = stale::oldest(artifacts)->0;
        let i = choose|i: int| 0 <= i < artifacts.len() && artifacts[i] == Some(first);
        assert(artifacts[i] == Some(first));
    }
}

/// What is told of stale artifacts names the project and the configuration.
pub proof fn lemma_stale_told(
    target: app::TargetView,
    artifacts: Seq<Option<int>>,
    newest: Option<int>,
)
    ensures
        stale::stale_note(target, artifacts, newest) matches Some(said) ==> said == "note: "@
            + target.project.name + " ["@ + target.configuration + "]"@
            + " is older than the sources. Run atp build."@,
{
    if let Some(said) = stale::stale_note(target, artifacts, newest) {
        assert(said =~= "note: "@ + target.project.name + " ["@ + target.configuration + "]"@
            + " is older than the sources. Run atp build."@);
    }
}

} // verus!
