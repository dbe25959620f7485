//! Laws on finding the solution or the project that is meant.

use vstd::prelude::*;

use crate::error::Failure;
use crate::host::Host;
use crate::path;
use crate::search;
use crate::text;

verus! {

/// Whether a directory is one that nothing is looked for in, by its name.
pub open spec fn is_passed_over(host: Host, directory: Seq<char>) -> bool {
    path::file_name(host, directory) matches Some(name) && (name == ".git"@ || name == ".vs"@
        || name == "node_modules"@ || name == "target"@ || name == "obj"@ || name == "bin"@)
}

/// Whether a file has an extension, in any mixture of capitals.
pub open spec fn has_extension(host: Host, file: Seq<char>, extension: Seq<char>) -> bool {
    path::extension(host, file) matches Some(found) && text::alike(found, extension)
}

/// Whether a directory lies `steps` below another, by way of directories that are not
/// passed over.
pub open spec fn lies_below(
    listing: search::Listing,
    host: Host,
    start: Seq<char>,
    directory: Seq<char>,
    steps: nat,
) -> bool
    decreases steps,
{
    if steps == 0 {
        directory == start
    } else {
        exists|i: int|
            0 <= i < listing(start).len() && (#[trigger] listing(start)[i]).directory
                && !is_passed_over(host, listing(start)[i].path) && lies_below(
                listing,
                host,
                listing(start)[i].path,
                directory,
                (steps - 1) as nat,
            )
    }
}

/// Whether a directory holds a file with an extension.
pub open spec fn holds(
    listing: search::Listing,
    host: Host,
    directory: Seq<char>,
    file: Seq<char>,
    extension: Seq<char>,
) -> bool {
    has_extension(host, file, extension) && exists|i: int|
        0 <= i < listing(directory).len() && !(#[trigger] listing(directory)[i]).directory
            && listing(directory)[i].path == file
}

proof fn lemma_files(host: Host, extension: Seq<char>, entries: Seq<search::ListedView>, file: Seq<
    char,
>)
    ensures
        search::files_among(host, extension, entries).contains(file) <==> has_extension(
            host,
            file,
            extension,
        ) && exists|i: int|
            0 <= i < entries.len() && !(#[trigger] entries[i]).directory && entries[i].path == file,
    decreases entries.len(),
{
    let found = search::files_among(host, extension, entries);
    if entries.len() > 0 {
        let front = entries.drop_last();
        let before = search::files_among(host, extension, front);
        let last = entries.last();
        lemma_files(host, extension, front, file);
        assert(entries[entries.len() - 1] == last);
        if exists|i: int|
            0 <= i < front.len() && !(#[trigger] front[i]).directory && front[i].path == file {
            let i = choose|i: int|
                0 <= i < front.len() && !(#[trigger] front[i]).directory && front[i].path == file;
            assert(entries[i] == front[i]);
        }
        if exists|i: int|
            0 <= i < entries.len() && !(#[trigger] entries[i]).directory && entries[i].path == file {
            let i = choose|i: int|
                0 <= i < entries.len() && !(#[trigger] entries[i]).directory && entries[i].path
                    == file;
            if i < front.len() {
                assert(front[i] == entries[i]);
            }
        }
        if before.contains(file) {
            let k = choose|k: int| 0 <= k < before.len() && before[k] == file;
            assert(found[k] == file);
        }
        if !last.directory && search::extends(host, last.path, extension) {
            assert(found == before.push(last.path));
            assert(found.last() == last.path);
            if found.contains(file) && last.path != file {
                let k = choose|k: int| 0 <= k < found.len() && found[k] == file;
                assert(before[k] == file);
            }
        }
    }
}

proof fn lemma_entered(host: Host, entries: Seq<search::ListedView>, directory: Seq<char>)
    ensures
        search::entered(host, entries).contains(directory) <==> !is_passed_over(host, directory)
            && exists|i: int|
            0 <= i < entries.len() && (#[trigger] entries[i]).directory && entries[i].path
                == directory,
    decreases entries.len(),
{
    let found = search::entered(host, entries);
    if entries.len() > 0 {
        let front = entries.drop_last();
        let before = search::entered(host, front);
        let last = entries.last();
        lemma_entered(host, front, directory);
        assert(entries[entries.len() - 1] == last);
        if exists|i: int|
            0 <= i < front.len() && (#[trigger] front[i]).directory && front[i].path == directory {
            let i = choose|i: int|
                0 <= i < front.len() && (#[trigger] front[i]).directory && front[i].path
                    == directory;
            assert(entries[i] == front[i]);
        }
        if exists|i: int|
            0 <= i < entries.len() && (#[trigger] entries[i]).directory && entries[i].path
                == directory {
            let i = choose|i: int|
                0 <= i < entries.len() && (#[trigger] entries[i]).directory && entries[i].path
                    == directory;
            if i < front.len() {
                assert(front[i] == entries[i]);
            }
        }
        if before.contains(directory) {
            let k = choose|k: int| 0 <= k < before.len() && before[k] == directory;
            assert(found[k] == directory);
        }
        if last.directory && !search::skipped(host, last.path) {
            assert(found == before.push(last.path));
            assert(found.last() == last.path);
            if found.contains(directory) && last.path != directory {
                let k = choose|k: int| 0 <= k < found.len() && found[k] == directory;
                assert(before[k] == directory);
            }
        }
    }
}

proof fn lemma_below_all(
    listing: search::Listing,
    host: Host,
    extension: Seq<char>,
    directories: Seq<Seq<char>>,
    depth: nat,
    file: Seq<char>,
)
    ensures
        search::found_below_all(listing, host, extension, directories, depth).contains(file)
            <==> exists|k: int|
            0 <= k < directories.len() && search::found_below(
                listing,
                host,
                extension,
                #[trigger] directories[k],
                depth,
            ).contains(file),
    decreases directories.len(),
{
    let found = search::found_below_all(listing, host, extension, directories, depth);
    if directories.len() > 0 {
        let rest = directories.skip(1);
        lemma_below_all(listing, host, extension, rest, depth, file);
        let first = search::found_below(listing, host, extension, directories[0], depth);
        let later = search::found_below_all(listing, host, extension, rest, depth);
        assert(found == first + later);
        if found.contains(file) {
            let i = choose|i: int| 0 <= i < found.len() && found[i] == file;
            if i < first.len() {
                assert(first[i] == file);
            } else {
                assert(later[i - first.len()] == file);
                let k = choose|k: int|
                    0 <= k < rest.len() && search::found_below(
                        listing,
                        host,
                        extension,
                        #[trigger] rest[k],
                        depth,
                    ).contains(file);
                assert(directories[k + 1] == rest[k]);
            }
        }
        if exists|k: int|
            0 <= k < directories.len() && search::found_below(
                listing,
                host,
                extension,
                #[trigger] directories[k],
                depth,
            ).contains(file) {
            let k = choose|k: int|
                0 <= k < directories.len() && search::found_below(
                    listing,
                    host,
                    extension,
                    #[trigger] directories[k],
                    depth,
                ).contains(file);
            if k == 0 {
                let i = choose|i: int| 0 <= i < first.len() && first[i] == file;
                assert(found[i] == file);
            } else {
                assert(rest[k - 1] == directories[k]);
                let i = choose|i: int| 0 <= i < later.len() && later[i] == file;
                assert(found[first.len() + i] == file);
            }
        }
    }
}

/// A search finds a file if it lies no deeper than the search goes.
proof fn lemma_found(
    listing: search::Listing,
    host: Host,
    extension: Seq<char>,
    start: Seq<char>,
    depth: nat,
    directory: Seq<char>,
    steps: nat,
    file: Seq<char>,
)
    requires
        steps <= depth,
        lies_below(listing, host, start, directory, steps),
        holds(listing, host, directory, file, extension),
    ensures
        search::found_below(listing, host, extension, start, depth).contains(file),
    decreases depth,
{
    let entries = listing(start);
    let here = search::files_among(host, extension, entries);
    let found = search::found_below(listing, host, extension, start, depth);
    if steps == 0 {
        lemma_files(host, extension, entries, file);
        let k = choose|k: int| 0 <= k < here.len() && here[k] == file;
        assert(found[k] == file);
    } else {
        let i = choose|i: int|
            0 <= i < listing(start).len() && (#[trigger] listing(start)[i]).directory
                && !is_passed_over(host, listing(start)[i].path) && lies_below(
                listing,
                host,
                listing(start)[i].path,
                directory,
                (steps - 1) as nat,
            );
        let next = listing(start)[i].path;
        lemma_found(
            listing,
            host,
            extension,
            next,
            (depth - 1) as nat,
            directory,
            (steps - 1) as nat,
            file,
        );
        lemma_entered(host, entries, next);
        assert(entries[i].directory);
        let directories = search::entered(host, entries);
        let k = choose|k: int| 0 <= k < directories.len() && directories[k] == next;
        lemma_below_all(listing, host, extension, directories, (depth - 1) as nat, file);
        assert(search::found_below(listing, host, extension, directories[k], (depth - 1) as nat).contains(
            file,
        ));
        let later = search::found_below_all(
            listing,
            host,
            extension,
            directories,
            (depth - 1) as nat,
        );
        let m = choose|m: int| 0 <= m < later.len() && later[m] == file;
        assert(found[here.len() + m] == file);
    }
}

/// What a search finds lies no deeper than it goes.
proof fn lemma_lies(
    listing: search::Listing,
    host: Host,
    extension: Seq<char>,
    start: Seq<char>,
    depth: nat,
    file: Seq<char>,
) -> (r: (Seq<char>, nat))
    requires
        search::found_below(listing, host, extension, start, depth).contains(file),
    ensures
        r.1 <= depth,
        lies_below(listing, host, start, r.0, r.1),
        holds(listing, host, r.0, file, extension),
    decreases depth,
{
    let entries = listing(start);
    let here = search::files_among(host, extension, entries);
    let found = search::found_below(listing, host, extension, start, depth);
    lemma_files(host, extension, entries, file);
    if here.contains(file) {
        (start, 0nat)
    } else {
        let directories = search::entered(host, entries);
        let n = choose|n: int| 0 <= n < found.len() && found[n] == file;
        if n < here.len() {
            assert(here[n] == file);
        }
        assert(depth > 0);
        let later = search::found_below_all(
            listing,
            host,
            extension,
            directories,
            (depth - 1) as nat,
        );
        assert(later[n - here.len()] == file);
        lemma_below_all(listing, host, extension, directories, (depth - 1) as nat, file);
        let k = choose|k: int|
            0 <= k < directories.len() && search::found_below(
                listing,
                host,
                extension,
                #[trigger] directories[k],
                (depth - 1) as nat,
            ).contains(file);
        let next = directories[k];
        let r = lemma_lies(listing, host, extension, next, (depth - 1) as nat, file);
        lemma_entered(host, entries, next);
        let i = choose|i: int|
            0 <= i < entries.len() && (#[trigger] entries[i]).directory && entries[i].path == next;
        assert(listing(start)[i].directory);
        assert(lies_below(listing, host, start, r.0, r.1 + 1));
        (r.0, r.1 + 1)
    }
}

/// A search below a directory finds every file with the extension that lies in it or up
/// to four directories further down, unless one of those is passed over.
pub proof fn lemma_search_finds(
    listing: search::Listing,
    host: Host,
    extension: Seq<char>,
    start: Seq<char>,
    directory: Seq<char>,
    steps: nat,
    file: Seq<char>,
)
    requires
        steps <= 4,
        lies_below(listing, host, start, directory, steps),
        holds(listing, host, directory, file, extension),
    ensures
        search::findings(listing, search::search_from(host, start, extension)).contains(file),
{
    search::lemma_search_finds_all(listing, host, start, extension);
    lemma_found(listing, host, extension, start, 4, directory, steps, file);
}

/// What a search below a directory finds has the extension, lies in that directory or up
/// to four further down, and is in no directory that is passed over.
pub proof fn lemma_search_finds_no_more(
    listing: search::Listing,
    host: Host,
    extension: Seq<char>,
    start: Seq<char>,
    file: Seq<char>,
) -> (r: (Seq<char>, nat))
    requires
        search::findings(listing, search::search_from(host, start, extension)).contains(file),
    ensures
        r.1 <= 4,
        lies_below(listing, host, start, r.0, r.1),
        holds(listing, host, r.0, file, extension),
{
    search::lemma_search_finds_all(listing, host, start, extension);
    lemma_lies(listing, host, extension, start, 4, file)
}

proof fn lemma_matching(
    host: Host,
    extension: Seq<char>,
    entries: Seq<search::ListedView>,
    file: Seq<char>,
)
    ensures
        search::matching(host, extension, entries).contains(file) <==> has_extension(
            host,
            file,
            extension,
        ) && exists|i: int| 0 <= i < entries.len() && (#[trigger] entries[i]).path == file,
    decreases entries.len(),
{
    let found = search::matching(host, extension, entries);
    if entries.len() > 0 {
        let front = entries.drop_last();
        let before = search::matching(host, extension, front);
        let last = entries.last();
        lemma_matching(host, extension, front, file);
        assert(entries[entries.len() - 1] == last);
        if exists|i: int| 0 <= i < front.len() && (#[trigger] front[i]).path == file {
            let i = choose|i: int| 0 <= i < front.len() && (#[trigger] front[i]).path == file;
            assert(entries[i] == front[i]);
        }
        if exists|i: int| 0 <= i < entries.len() && (#[trigger] entries[i]).path == file {
            let i = choose|i: int| 0 <= i < entries.len() && (#[trigger] entries[i]).path == file;
            if i < front.len() {
                assert(front[i] == entries[i]);
            }
        }
        if before.contains(file) {
            let k = choose|k: int| 0 <= k < before.len() && before[k] == file;
            assert(found[k] == file);
        }
        if search::extends(host, last.path, extension) {
            assert(found == before.push(last.path));
            assert(found.last() == last.path);
            if found.contains(file) && last.path != file {
                let k = choose|k: int| 0 <= k < found.len() && found[k] == file;
                assert(before[k] == file);
            }
        }
    }
}

proof fn lemma_sorted_same(host: Host, list: Seq<Seq<char>>, file: Seq<char>)
    ensures
        path::sorted_paths(host, list).contains(file) <==> list.contains(file),
        path::sorted_paths(host, list).len() == list.len(),
{
    path::lemma_paths_sorted(host, list);
    let sorted = path::sorted_paths(host, list);
    sorted.to_multiset_ensures();
    list.to_multiset_ensures();
    assert(sorted.to_multiset().len() == sorted.len());
    assert(list.to_multiset().len() == list.len());
    assert(sorted.to_multiset().count(file) > 0 <==> sorted.contains(file));
    assert(list.to_multiset().count(file) > 0 <==> list.contains(file));
}

/// A directory means a file with an extension if it holds just that one. It means none if
/// it holds none, and one has to be named if it holds several: the program does not
/// choose.
pub proof fn lemma_single_file(
    host: Host,
    directory: Seq<char>,
    extension: Seq<char>,
    entries: Seq<search::ListedView>,
    file: Seq<char>,
)
    ensures
        ({
            let result = search::single(host, directory, extension, entries);
            let found = search::matching(host, extension, entries);
            &&& found.contains(file) <==> has_extension(host, file, extension) && exists|i: int|
                0 <= i < entries.len() && (#[trigger] entries[i]).path == file
            &&& result == Ok::<Option<Seq<char>>, Failure>(None) <==> found.len() == 0
            &&& result matches Ok(Some(only)) ==> found == seq![only]
            &&& found.len() == 1 ==> result == Ok::<Option<Seq<char>>, Failure>(Some(found[0]))
            &&& found.len() > 1 ==> (result matches Err(Failure::Usage(_)))
        }),
{
    let found = search::matching(host, extension, entries);
    let sorted = path::sorted_paths(host, found);
    lemma_matching(host, extension, entries, file);
    lemma_sorted_same(host, found, file);
    if found.len() == 1 {
        lemma_sorted_same(host, found, found[0]);
        let k = choose|k: int| 0 <= k < sorted.len() && sorted[k] == found[0];
        assert(sorted[0] == found[0]);
        assert(found =~= seq![found[0]]);
    }
}

/// A solution beside the start, or in the nearest directory above it that holds one, is
/// the one that is meant, whatever lies anywhere else.
pub proof fn lemma_nearest_solution_wins(
    listing: search::Listing,
    host: Host,
    start: Seq<char>,
    above: int,
    file: Seq<char>,
)
    requires
        0 <= above < path::ancestors(host, start).len(),
        search::single(
            host,
            path::ancestors(host, start)[above],
            "atsln"@,
            listing(path::ancestors(host, start)[above]),
        ) == Ok::<Option<Seq<char>>, Failure>(Some(file)),
        forall|k: int|
            0 <= k < above ==> search::matching(
                host,
                "atsln"@,
                listing(#[trigger] path::ancestors(host, start)[k]),
            ).len() == 0,
    ensures
        search::outcome(listing, search::discovery_from(host, start)) == Ok::<
            Seq<char>,
            Failure,
        >(file),
{
    search::lemma_discovery_starts_right(listing, host, start);
    lemma_first(listing, host, path::ancestors(host, start), above, file);
}

proof fn lemma_first(
    listing: search::Listing,
    host: Host,
    directories: Seq<Seq<char>>,
    at: int,
    file: Seq<char>,
)
    requires
        0 <= at < directories.len(),
        search::single(host, directories[at], "atsln"@, listing(directories[at])) == Ok::<
            Option<Seq<char>>,
            Failure,
        >(Some(file)),
        forall|k: int|
            0 <= k < at ==> search::matching(
                host,
                "atsln"@,
                listing(#[trigger] directories[k]),
            ).len() == 0,
    ensures
        search::first_single(listing, host, directories) == Ok::<Option<Seq<char>>, Failure>(
            Some(file),
        ),
    decreases at,
{
    if at > 0 {
        let rest = directories.skip(1);
        lemma_single_file(host, directories[0], "atsln"@, listing(directories[0]), file);
        assert forall|k: int| 0 <= k < at - 1 implies search::matching(
            host,
            "atsln"@,
            listing(#[trigger] rest[k]),
        ).len() == 0 by {
            assert(rest[k] == directories[k + 1]);
        }
        lemma_first(listing, host, rest, at - 1, file);
    }
}

proof fn lemma_none(listing: search::Listing, host: Host, directories: Seq<Seq<char>>)
    requires
        forall|k: int|
            0 <= k < directories.len() ==> search::matching(
                host,
                "atsln"@,
                listing(#[trigger] directories[k]),
            ).len() == 0,
    ensures
        search::first_single(listing, host, directories) == Ok::<Option<Seq<char>>, Failure>(None),
    decreases directories.len(),
{
    if directories.len() > 0 {
        let rest = directories.skip(1);
        lemma_single_file(host, directories[0], "atsln"@, listing(directories[0]), Seq::empty());
        assert forall|k: int| 0 <= k < rest.len() implies search::matching(
            host,
            "atsln"@,
            listing(#[trigger] rest[k]),
        ).len() == 0 by {
            assert(rest[k] == directories[k + 1]);
        }
        lemma_none(listing, host, rest);
    }
}

/// Where no directory at or above the start holds a solution, the only solution below it
/// is meant; where there is none below it either, the only project below it. Several of
/// the kind that counts, or none at all, are an error.
pub proof fn lemma_otherwise_what_lies_below(
    listing: search::Listing,
    host: Host,
    start: Seq<char>,
)
    requires
        forall|k: int|
            0 <= k < path::ancestors(host, start).len() ==> search::matching(
                host,
                "atsln"@,
                listing(#[trigger] path::ancestors(host, start)[k]),
            ).len() == 0,
    ensures
        ({
            let solutions = search::findings(
                listing,
                search::search_from(host, start, "atsln"@),
            );
            let projects = search::findings(listing, search::search_from(host, start, "cproj"@));
            let result = search::outcome(listing, search::discovery_from(host, start));
            &&& solutions.len() == 1 ==> result == Ok::<Seq<char>, Failure>(solutions[0])
            &&& solutions.len() > 1 ==> (result matches Err(Failure::Usage(_)))
            &&& solutions.len() == 0 && projects.len() == 1 ==> result == Ok::<Seq<char>, Failure>(
                projects[0],
            )
            &&& solutions.len() == 0 && projects.len() != 1 ==> (result matches Err(
                Failure::Usage(_),
            ))
        }),
{
    search::lemma_discovery_starts_right(listing, host, start);
    search::lemma_search_finds_all(listing, host, start, "atsln"@);
    search::lemma_search_finds_all(listing, host, start, "cproj"@);
    lemma_none(listing, host, path::ancestors(host, start));
    let solutions = search::findings(listing, search::search_from(host, start, "atsln"@));
    let projects = search::findings(listing, search::search_from(host, start, "cproj"@));
    lemma_one_sorted(host, solutions);
    lemma_one_sorted(host, projects);
}

proof fn lemma_one_sorted(host: Host, list: Seq<Seq<char>>)
    ensures
        path::sorted_paths(host, list).len() == list.len(),
        list.len() == 1 ==> path::sorted_paths(host, list)[0] == list[0],
{
    lemma_sorted_same(host, list, Seq::empty());
    if list.len() == 1 {
        lemma_sorted_same(host, list, list[0]);
        let sorted = path::sorted_paths(host, list);
        let k = choose|k: int| 0 <= k < sorted.len() && sorted[k] == list[0];
        assert(sorted[0] == list[0]);
    }
}

/// The solution of a project is looked for beside it and one directory up.
pub proof fn lemma_solution_beside_or_above(
    host: Host,
    project: Seq<char>,
    directory: Seq<char>,
    above: Seq<char>,
)
    requires
        path::parent(host, project) == Some(directory),
        path::parent(host, directory) == Some(above),
    ensures
        search::solution_directories(host, project) == seq![directory, above],
{
}

} // verus!
