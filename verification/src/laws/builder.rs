//! Laws on the commands that are run for a build.

use vstd::prelude::*;

use crate::builder;
use crate::builder::{Action, Backend};
use crate::error::Failure;
use crate::host;
use crate::host::Host;
use crate::laws::host as machine;
use crate::laws::text as base;
use crate::number;
use crate::path;
use crate::report;
use crate::solution;
use crate::text;

verus! {

/// The command that MSBuild is run with asks for what was asked for: the configuration,
/// and the target of the action. No other argument of its own names a target, and what
/// the user adds follows.
pub proof fn lemma_msbuild_does_what_is_asked(
    request: builder::RequestView,
    paths: host::PathsView,
    root: Seq<char>,
    compilers: Seq<path::PlaceView>,
)
    requires
        request.backend == Backend::MsBuild,
        builder::command(request, paths, root, compilers) is Ok,
    ensures
        ({
            let argv = builder::command(request, paths, root, compilers)->Ok_0;
            let own = argv.len() - request.extra.len();
            &&& own == 6
            &&& argv.skip(own) == request.extra
            &&& argv[2] == "/p:Configuration="@ + request.configuration
            &&& argv[3] == match request.action {
                Action::Build => "/t:Build"@,
                Action::Rebuild => "/t:ReBuild"@,
                Action::Clean => "/t:Clean"@,
            }
            &&& forall|i: int|
                2 <= i < own ==> ("/t:"@.is_prefix_of(#[trigger] argv[i]) <==> i == 3)
            &&& paths.host == Host::Wsl ==> forall|i: int|
                0 <= i < own ==> ("/t:"@.is_prefix_of(#[trigger] argv[i]) <==> i == 3)
            &&& host::for_windows(paths, request.project.path) == Ok::<Seq<char>, Failure>(argv[1])
        }),
{
    reveal_strlit("/t:");
    reveal_strlit("Build");
    reveal_strlit("ReBuild");
    reveal_strlit("Clean");
    reveal_strlit("/t:Build");
    reveal_strlit("/t:ReBuild");
    reveal_strlit("/t:Clean");
    reveal_strlit("/p:Configuration=");
    reveal_strlit("/nologo");
    reveal_strlit("/v:normal");
    let argv = builder::command(request, paths, root, compilers)->Ok_0;
    assert("/t:"@ + "Build"@ =~= "/t:Build"@);
    assert("/t:"@ + "ReBuild"@ =~= "/t:ReBuild"@);
    assert("/t:"@ + "Clean"@ =~= "/t:Clean"@);
    assert(argv.skip(6) == request.extra);
    let p = "/t:"@;
    assert(argv[2][1] == 'p');
    assert(argv[4][1] == 'n');
    assert(argv[5][1] == 'v');
    assert(argv[3].subrange(0, 3) =~= p);
    assert forall|i: int| 2 <= i < 6 implies (p.is_prefix_of(#[trigger] argv[i]) <==> i == 3) by {
        if p.is_prefix_of(argv[i]) {
            assert(argv[i].subrange(0, 3)[1] == argv[i][1]);
        }
    }
    if paths.host == Host::Wsl {
        let program = builder::msbuild_at(compilers)->Ok_0;
        machine::lemma_windows_form(paths.mounts, program);
        machine::lemma_windows_form(paths.mounts, request.project.path);
        assert(argv[0][1] == ':' && argv[1][1] == ':');
        assert forall|i: int| 0 <= i < 6 implies (p.is_prefix_of(#[trigger] argv[i]) <==> i
            == 3) by {
            if i < 2 && p.is_prefix_of(argv[i]) {
                assert(argv[i].subrange(0, 3)[1] == argv[i][1]);
            }
        }
    }
}

/// The command that Studio is run with asks for what was asked for: the solution, the
/// action, the configuration, the project where there is a choice, the log, and what the
/// user adds, in this order.
pub proof fn lemma_studio_does_what_is_asked(
    request: builder::RequestView,
    paths: host::PathsView,
    root: Seq<char>,
    compilers: Seq<path::PlaceView>,
)
    requires
        request.backend == Backend::Studio,
        builder::command(request, paths, root, compilers) is Ok,
    ensures
        ({
            let argv = builder::command(request, paths, root, compilers)->Ok_0;
            let own = argv.len() - request.extra.len();
            let log = path::joined(
                paths.host,
                solution::output_path(paths.host, request.project, request.configuration),
                "atp-build.log"@,
            );
            &&& own == if request.project_name is Some {
                8int
            } else {
                6
            }
            &&& argv.skip(own) == request.extra
            &&& host::for_windows(paths, path::joined(paths.host, root, "AtmelStudio.exe"@)) == Ok::<
                Seq<char>,
                Failure,
            >(argv[0])
            &&& host::for_windows(paths, request.solution) == Ok::<Seq<char>, Failure>(argv[1])
            &&& argv[2] == match request.action {
                Action::Build => "/Build"@,
                Action::Rebuild => "/Rebuild"@,
                Action::Clean => "/Clean"@,
            }
            &&& argv[3] == request.configuration
            &&& request.project_name matches Some(name) ==> argv[4] == "/project"@ && argv[5]
                == name
            &&& argv[own - 2] == "/out"@
            &&& host::for_windows(paths, log) == Ok::<Seq<char>, Failure>(argv[own - 1])
        }),
{
    let argv = builder::command(request, paths, root, compilers)->Ok_0;
    let own = argv.len() - request.extra.len();
    assert(argv.skip(own) == request.extra);
}

/// Commands for requests that differ in the action alone differ, and so do those for
/// requests that differ in the configuration alone, whichever backend is used.
pub proof fn lemma_other_requests_other_commands(
    request: builder::RequestView,
    action: Action,
    configuration: Seq<char>,
    paths: host::PathsView,
    root: Seq<char>,
    compilers: Seq<path::PlaceView>,
)
    requires
        builder::command(request, paths, root, compilers) is Ok,
    ensures
        action != request.action ==> builder::command(
            (builder::RequestView { action: action, ..request }),
            paths,
            root,
            compilers,
        ) != builder::command(request, paths, root, compilers),
        configuration != request.configuration ==> builder::command(
            (builder::RequestView { configuration: configuration, ..request }),
            paths,
            root,
            compilers,
        ) != builder::command(request, paths, root, compilers),
{
    reveal_strlit("/t:Build");
    reveal_strlit("/t:ReBuild");
    reveal_strlit("/t:Clean");
    reveal_strlit("/Build");
    reveal_strlit("/Rebuild");
    reveal_strlit("/Clean");
    assert("/t:Build"@[3] == 'B' && "/t:ReBuild"@[3] == 'R' && "/t:Clean"@[3] == 'C');
    assert("/Build"@[1] == 'B' && "/Rebuild"@[1] == 'R' && "/Clean"@[1] == 'C');
    let other = builder::RequestView { action: action, ..request };
    let third = builder::RequestView { configuration: configuration, ..request };
    let one = builder::command(request, paths, root, compilers);
    let two = builder::command(other, paths, root, compilers);
    let three = builder::command(third, paths, root, compilers);
    match request.backend {
        Backend::MsBuild => {
            lemma_msbuild_does_what_is_asked(request, paths, root, compilers);
            if two is Ok {
                lemma_msbuild_does_what_is_asked(other, paths, root, compilers);
            }
            if three is Ok {
                lemma_msbuild_does_what_is_asked(third, paths, root, compilers);
                let p = "/p:Configuration="@;
                let x = one->Ok_0[2];
                let y = three->Ok_0[2];
                assert(x == p + request.configuration);
                assert(y == p + configuration);
                assert(x.skip(p.len() as int) == request.configuration);
                assert(y.skip(p.len() as int) == configuration);
            }
        },
        Backend::Studio => {
            lemma_studio_does_what_is_asked(request, paths, root, compilers);
            if two is Ok {
                lemma_studio_does_what_is_asked(other, paths, root, compilers);
            }
            if three is Ok {
                lemma_studio_does_what_is_asked(third, paths, root, compilers);
            }
        },
    }
}

/// What is started is the command: its program, made one that the host can execute, and
/// its arguments, in the directory of the solution. MSBuild is told where Studio is, and
/// Studio is not.
pub proof fn lemma_launch_is_the_command(
    request: builder::RequestView,
    paths: host::PathsView,
    root: Seq<char>,
    compilers: Seq<path::PlaceView>,
)
    ensures
        match builder::launch_of(request, paths, root, compilers) {
            Ok(launch) => {
                &&& builder::command(request, paths, root, compilers) == Ok::<
                    Seq<Seq<char>>,
                    Failure,
                >(seq![launch.shown] + launch.arguments)
                &&& match host::native(paths, launch.shown) {
                    Ok(found) => launch.program == found,
                    Err(_) => launch.program == launch.shown,
                }
                &&& launch.directory == path::directory(paths.host, request.solution)
                &&& launch.studio == if request.backend == Backend::MsBuild {
                    Some(root)
                } else {
                    None
                }
            },
            Err(failure) => builder::command(request, paths, root, compilers) == Err::<
                Seq<Seq<char>>,
                _,
            >(failure),
        },
{
    if let Ok(argv) = builder::command(request, paths, root, compilers) {
        builder::lemma_command_ends_in_extra(request, paths, root, compilers);
        assert(seq![argv[0]] + argv.skip(1) == argv);
    }
}

/// Every place that is tried is the native form of the one that was named, in order.
pub proof fn lemma_natives_one_by_one(paths: host::PathsView, places: Seq<Seq<char>>)
    ensures
        match builder::natives(paths, places) {
            Ok(found) => found.len() == places.len() && forall|i: int|
                0 <= i < places.len() ==> host::native(paths, #[trigger] places[i]) == Ok::<
                    Seq<char>,
                    Failure,
                >(found[i]),
            Err(failure) => exists|i: int|
                0 <= i < places.len() && host::native(paths, #[trigger] places[i]) == Err::<
                    Seq<char>,
                    _,
                >(failure),
        },
    decreases places.len(),
{
    if places.len() > 0 {
        let front = places.drop_last();
        lemma_natives_one_by_one(paths, front);
        match builder::natives(paths, front) {
            Ok(found) => {
                if let Ok(last) = host::native(paths, places.last()) {
                    let all = found.push(last);
                    assert forall|i: int| 0 <= i < places.len() implies host::native(
                        paths,
                        #[trigger] places[i],
                    ) == Ok::<Seq<char>, Failure>(all[i]) by {
                        if i < front.len() {
                            assert(front[i] == places[i]);
                        }
                    }
                } else {
                    assert(places[places.len() - 1] == places.last());
                }
            },
            Err(failure) => {
                let i = choose|i: int|
                    0 <= i < front.len() && host::native(paths, #[trigger] front[i]) == Err::<
                        Seq<char>,
                        _,
                    >(failure);
                assert(places[i] == front[i]);
            },
        }
    }
}

/// Studio is looked for where the user points before it is looked for anywhere else.
pub proof fn lemma_users_studio_first(configured: Seq<char>, environment: Seq<char>)
    requires
        environment.len() > 0,
    ensures
        builder::roots_to_try(Some(configured), Some(environment)) == seq![
            configured,
            environment,
            "C:\\Program Files (x86)\\Atmel\\Studio\\7.0"@,
            "C:\\Program Files (x86)\\Microchip\\Studio\\7.0"@,
            "C:\\Program Files\\Atmel\\Studio\\7.0"@,
            "C:\\Program Files\\Microchip\\Studio\\7.0"@,
        ],
        builder::roots_to_try(Some(configured), None) == builder::roots_to_try(
            None,
            Some(configured),
        ) || configured.len() == 0,
        builder::roots_to_try(None, None) == builder::roots_to_try(
            Some(configured),
            Some(environment),
        ).skip(2),
        builder::roots_to_try(None, Some(Seq::empty())) == builder::roots_to_try(None, None),
        builder::roots_to_try(None, Some(environment)) == builder::roots_to_try(
            Some(configured),
            Some(environment),
        ).skip(1),
{
    let none = builder::roots_to_try(None, None);
    let both = builder::roots_to_try(Some(configured), Some(environment));
    assert(both == seq![configured, environment] + none);
    assert(both.skip(2) == none);
    assert(builder::roots_to_try(None, Some(environment)) == seq![environment] + none);
    assert(both.skip(1) == seq![environment] + none);
    assert(builder::roots_to_try(Some(configured), None) == seq![configured] + none);
    if configured.len() > 0 {
        assert(builder::roots_to_try(None, Some(configured)) == seq![configured] + none);
    }
}

/// A build that left an empty log is an error, and one that left anything is read.
pub proof fn lemma_a_log_is_needed(
    request: builder::RequestView,
    paths: host::PathsView,
    log: Seq<char>,
    code: i32,
)
    ensures
        builder::result_of(request, paths, log, Some(code)) is Err <==> log.len() == 0,
        log.len() > 0 ==> builder::result_of(request, paths, log, Some(code)) == builder::result_of(
            request,
            paths,
            log,
            None,
        ),
        log.len() > 0 ==> builder::result_of(request, paths, log, None) == Ok::<
            report::ReportView,
            Failure,
        >(
            report::report_of(
                log,
                match host::for_windows(
                    paths,
                    solution::output_path(paths.host, request.project, request.configuration),
                ) {
                    Ok(directory) => Some(directory),
                    Err(_) => None,
                },
            ),
        ),
{
}

/// The file that is being compiled is the one that the last line to name one names.
pub proof fn lemma_last_file_compiled(
    lines: Seq<Seq<char>>,
    at: int,
    gap: Seq<char>,
    file: Seq<char>,
)
    requires
        0 <= at < lines.len(),
        file.len() > 0,
        base::tight(file),
        base::blank(gap),
        text::trimmed(lines[at]) == "Building file: "@ + (gap + file),
        forall|j: int|
            at < j < lines.len() ==> !"Building file: "@.is_prefix_of(
                text::trimmed(#[trigger] lines[j]),
            ),
    ensures
        builder::compiled_in(lines) == Some(file),
    decreases lines.len(),
{
    if at == lines.len() - 1 {
        let p = "Building file: "@;
        let bare = text::trimmed(lines[at]);
        assert(bare.subrange(0, p.len() as int) == p);
        assert(bare.skip(p.len() as int) == gap + file);
        assert(gap + file + Seq::<char>::empty() =~= gap + file);
        base::lemma_trimmed(gap, file, Seq::empty());
    } else {
        let front = lines.drop_last();
        assert forall|j: int| at < j < front.len() implies !"Building file: "@.is_prefix_of(
            text::trimmed(#[trigger] front[j]),
        ) by {
            assert(front[j] == lines[j]);
        }
        lemma_last_file_compiled(front, at, gap, file);
        assert(!"Building file: "@.is_prefix_of(text::trimmed(lines[lines.len() - 1])));
    }
}

/// Where no line names a file, none is being compiled.
pub proof fn lemma_no_file_compiled(lines: Seq<Seq<char>>)
    requires
        forall|j: int|
            0 <= j < lines.len() ==> !"Building file: "@.is_prefix_of(
                text::trimmed(#[trigger] lines[j]),
            ),
    ensures
        builder::compiled_in(lines) is None,
    decreases lines.len(),
{
    if lines.len() > 0 {
        let front = lines.drop_last();
        assert forall|j: int| 0 <= j < front.len() implies !"Building file: "@.is_prefix_of(
            text::trimmed(#[trigger] front[j]),
        ) by {
            assert(front[j] == lines[j]);
        }
        lemma_no_file_compiled(front);
        assert(!"Building file: "@.is_prefix_of(text::trimmed(lines[lines.len() - 1])));
    }
}

/// A watch that shows nothing never says anything; one that shows shows a file once,
/// until another is compiled, and clears its line at the end if it wrote one.
pub proof fn lemma_watch(watch: builder::Watch, again: builder::Watch, log: Option<String>, code: Option<i32>)
    requires
        again.show == watch.show,
        again.last@ == builder::shown_after(watch, builder::Sight::Running(log)),
    ensures
        builder::watch_step(again, builder::Sight::Running(log)) == Ok::<
            builder::StepView,
            Failure,
        >(builder::StepView::Wait),
        !watch.show ==> builder::watch_step(watch, builder::Sight::Running(log)) == Ok::<
            builder::StepView,
            Failure,
        >(builder::StepView::Wait),
        builder::watch_step(watch, builder::Sight::Running(log)) matches Ok(
            builder::StepView::Show(shown),
        ) ==> builder::shortened(again.last@).is_suffix_of(shown) && again.last@ != watch.last@,
        builder::watch_step(watch, builder::Sight::Ended(code)) matches Ok(
            builder::StepView::Done(shown, ended),
        ) && ended == code && (shown.len() > 0 <==> watch.show && watch.last@.len() > 0),
{
    reveal_strlit("\r\x1b[2K");
    if let Some(file) = builder::newly_compiled(watch, crate::list::optional(log)) {
        let shown = "\r\x1b[2K"@ + report::labelled("Compiling"@) + " "@ + builder::shortened(file);
        let n = builder::shortened(file).len();
        assert(shown.subrange(shown.len() - n, shown.len() as int) == builder::shortened(file));
    }
}

/// Studio is where the first place is that holds its program, and MSBuild likewise. Where
/// no place does it is an error.
pub proof fn lemma_first_place_counts(places: Seq<path::PlaceView>, at: int)
    requires
        forall|k: int| 0 <= k < at && k < places.len() ==> !(#[trigger] places[k]).present,
        0 <= at <= places.len(),
        at < places.len() ==> places[at].present,
    ensures
        at < places.len() ==> builder::located(places) == Ok::<Seq<char>, Failure>(
            places[at].path,
        ),
        at < places.len() ==> builder::msbuild_at(places) == Ok::<Seq<char>, Failure>(
            places[at].path,
        ),
        at == places.len() ==> (builder::located(places) matches Err(Failure::Runtime(_))),
        at == places.len() ==> (builder::msbuild_at(places) matches Err(Failure::Runtime(_))),
{
    lemma_present(places, 0, at);
}

proof fn lemma_present(places: Seq<path::PlaceView>, from: int, at: int)
    requires
        0 <= from <= at <= places.len(),
        at < places.len() ==> places[at].present,
        forall|k: int| from <= k < at ==> !(#[trigger] places[k]).present,
    ensures
        path::present_from(places, from) == if at < places.len() {
            Some(places[at].path)
        } else {
            None
        },
    decreases at - from,
{
    if from < at {
        lemma_present(places, from + 1, at);
    }
}

/// Every place that was tried is named where Studio is not found.
pub proof fn lemma_places_named(places: Seq<path::PlaceView>)
    requires
        places.len() > 0,
        forall|k: int|
            0 <= k < places.len() ==> !(#[trigger] places[k]).path.contains('\n'),
    ensures
        text::split_at(builder::tried_text(places), '\n').len() == places.len(),
        forall|k: int|
            0 <= k < places.len() ==> text::split_at(builder::tried_text(places), '\n')[k]
                == seq![' ', ' '] + (#[trigger] places[k]).path,
{
    reveal_strlit("\n");
    reveal_strlit("  ");
    let lines = places.map_values(|place: path::PlaceView| "  "@ + place.path);
    assert("\n"@ =~= seq!['\n']);
    assert forall|k: int| 0 <= k < lines.len() implies !(#[trigger] lines[k]).contains('\n') by {
        let line = lines[k];
        assert(line == "  "@ + places[k].path);
        if line.contains('\n') {
            let i = choose|i: int| 0 <= i < line.len() && line[i] == '\n';
            assert(i >= 2);
            assert(places[k].path[i - 2] == '\n');
        }
    }
    base::lemma_joined_splits(lines, '\n');
    assert("  "@ =~= seq![' ', ' ']);
}

/// What is too long to be shown on a line is shown by its end.
pub proof fn lemma_shortened(shown: Seq<char>)
    ensures
        ({
            let found = builder::shortened(shown);
            &&& found.len() <= 70
            &&& shown.len() <= 70 ==> found == shown
            &&& shown.len() > 70 ==> found.len() == 70 && "..."@.is_prefix_of(found) && found.skip(
                3,
            ) == shown.skip(shown.len() - 67)
        }),
{
    reveal_strlit("...");
    let found = builder::shortened(shown);
    if shown.len() > 70 {
        assert(found.subrange(0, 3) =~= "..."@);
        assert(found.skip(3) =~= shown.skip(shown.len() - 67));
    }
}

/// A file that is compiled while the user watches is shown, unless it was shown already.
pub proof fn lemma_file_shown(watch: builder::Watch, log: String, at: int, file: Seq<char>)
    requires
        watch.show,
        0 <= at < text::lines_of(log@).len(),
        file.len() > 0,
        base::tight(file),
        text::trimmed(text::lines_of(log@)[at]) == "Building file: "@ + file,
        forall|j: int|
            at < j < text::lines_of(log@).len() ==> !"Building file: "@.is_prefix_of(
                text::trimmed(#[trigger] text::lines_of(log@)[j]),
            ),
    ensures
        ({
            let step = builder::watch_step(watch, builder::Sight::Running(Some(log)));
            let after = builder::shown_after(watch, builder::Sight::Running(Some(log)));
            &&& after == file
            &&& file != watch.last@ ==> step == Ok::<builder::StepView, Failure>(
                builder::StepView::Show(
                    "\r\x1b[2K"@ + " Compiling "@ + builder::shortened(file),
                ),
            )
            &&& file == watch.last@ ==> step == Ok::<builder::StepView, Failure>(
                builder::StepView::Wait,
            )
        }),
{
    reveal_strlit("Compiling");
    reveal_strlit(" Compiling ");
    reveal_strlit(" ");
    let gap = Seq::<char>::empty();
    assert(gap + file =~= file);
    lemma_last_file_compiled(text::lines_of(log@), at, gap, file);
    assert(report::labelled("Compiling"@) + " "@ =~= " Compiling "@);
    assert("\r\x1b[2K"@ + report::labelled("Compiling"@) + " "@ + builder::shortened(file)
        =~= "\r\x1b[2K"@ + " Compiling "@ + builder::shortened(file));
}

/// Where a build leaves nothing in its log, the log and the code that the build ended with
/// are told.
pub proof fn lemma_missing_log_told(
    request: builder::RequestView,
    paths: host::PathsView,
    code: i32,
)
    ensures
        ({
            let output = solution::output_path(
                paths.host,
                request.project,
                request.configuration,
            );
            let log = path::joined(paths.host, output, "atp-build.log"@);
            &&& builder::result_of(request, paths, Seq::empty(), Some(code)) == Err::<
                report::ReportView,
                _,
            >(
                Failure::Runtime(
                    "the build produced no log at "@ + log + ".\nExit code was "@
                        + number::signed(code as int) + "."@,
                ),
            )
            &&& builder::result_of(request, paths, Seq::empty(), None) == Err::<
                report::ReportView,
                _,
            >(
                Failure::Runtime(
                    "the build produced no log at "@ + log + ".\nExit code was "@ + "unknown"@
                        + "."@,
                ),
            )
        }),
{
}

} // verus!
