//! Laws on what the user asks for and what is told in answer.

use vstd::prelude::*;

use crate::app;
use crate::builder::{Action, Backend};
use crate::command;
use crate::config;
use crate::error;
use crate::error::Failure;
use crate::host;
use crate::host::Host;
use crate::laws::text as base;
use crate::locate;
use crate::number;
use crate::order;
use crate::path;
use crate::report;
use crate::report::{Severity, Style};
use crate::search;
use crate::solution;
use crate::text;

verus! {

/// One of something is told of in the singular, any other number in the plural.
pub proof fn lemma_singular_and_plural(count: nat, noun: Seq<char>)
    ensures
        app::counted(1, noun) == seq!['1', ' '] + noun,
        count != 1 ==> app::counted(count, noun) == number::decimal(count) + seq![' '] + noun
            + seq!['s'],
{
    reveal_strlit(" ");
    reveal_strlit("s");
    assert(number::decimal(1) =~= seq!['1']);
    assert(app::counted(1, noun) =~= seq!['1', ' '] + noun);
    assert(count != 1 ==> app::counted(count, noun) =~= number::decimal(count) + seq![' '] + noun
        + seq!['s']);
}

/// A command is shown as it would be typed: what holds no blank stands as it is, what
/// holds one stands in quotes, and the arguments can be told apart.
pub proof fn lemma_command_shown(argv: Seq<Seq<char>>, argument: Seq<char>)
    ensures
        argument.contains(' ') ==> app::quoted(argument) == seq!['"'] + argument + seq!['"'],
        !argument.contains(' ') ==> app::quoted(argument) == argument,
        app::typed(seq![argument]) == app::quoted(argument),
        argv.len() > 0 && (forall|i: int|
            0 <= i < argv.len() ==> !(#[trigger] argv[i]).contains(' ')) ==> text::split_at(
            app::typed(argv),
            ' ',
        ) == argv,
        argv.len() > 0 ==> app::typed(argv.push(argument)) == app::typed(argv) + seq![' ']
            + app::quoted(argument),
{
    reveal_strlit("\"");
    reveal_strlit(" ");
    assert(" "@ =~= seq![' ']);
    assert("\""@ =~= seq!['"']);
    let one = seq![argument].map_values(|a: Seq<char>| app::quoted(a));
    assert(one =~= seq![app::quoted(argument)]);
    let all = argv.map_values(|a: Seq<char>| app::quoted(a));
    let more = argv.push(argument).map_values(|a: Seq<char>| app::quoted(a));
    assert(more =~= all.push(app::quoted(argument)));
    assert(more.drop_last() =~= all);
    if argv.len() > 0 && forall|i: int|
        0 <= i < argv.len() ==> !(#[trigger] argv[i]).contains(' ') {
        assert(all =~= argv);
        base::lemma_joined_splits(argv, ' ');
    }
}

/// A backend that the user names is the one that is used. Otherwise it is MSBuild if the
/// configuration file says so, in any mixture of capitals, and Studio in every other case.
pub proof fn lemma_backend_chosen(choice: Backend, config: config::ConfigView)
    ensures
        app::backend_of(Some(choice), config) == choice,
        app::backend_of(None, config) == Backend::MsBuild <==> (config.defaults.backend matches Some(
            name,
        ) && text::alike(name, "msbuild"@)),
{
}

/// A plan does what its flags say.
pub proof fn lemma_plan_follows_flags(
    rebuild: bool,
    clean: bool,
    output: bool,
    extension: Option<Seq<char>>,
    arguments: bool,
)
    ensures
        ({
            let plan = app::plan_of(rebuild, clean, output, extension, arguments);
            let lookup = output || extension is Some;
            &&& plan is Err <==> lookup && (clean || (!rebuild && arguments))
            &&& plan matches Err(failure) ==> failure is Usage
            &&& plan matches Ok(held) ==> (held.extension is Some <==> lookup)
            &&& extension matches Some(named) ==> (plan matches Ok(held) ==> held.extension == Some(
                named,
            ))
            &&& extension is None && output ==> (plan matches Ok(held) ==> held.extension == Some(
                "elf"@,
            ))
            &&& !lookup ==> plan == Ok::<app::PlanView, Failure>(
                (app::PlanView {
                    action: Some(
                        if clean {
                            Action::Clean
                        } else if rebuild {
                            Action::Rebuild
                        } else {
                            Action::Build
                        },
                    ),
                    extension: None,
                }),
            )
            &&& lookup && rebuild ==> (plan matches Ok(held) ==> held.action == Some(
                Action::Rebuild,
            ))
            &&& lookup && !rebuild ==> (plan matches Ok(held) ==> held.action is None)
        }),
{
}

/// The configurations that are offered are those of the solution, and those of the
/// project where the solution has none or there is none.
pub proof fn lemma_offered(solution: solution::SolutionView, project: solution::ProjectView)
    ensures
        solution.configurations.len() > 0 ==> app::offered(Some(solution), project)
            == solution.configurations,
        solution.configurations.len() == 0 ==> app::offered(Some(solution), project)
            == project.configurations,
        app::offered(None, project) == project.configurations,
{
}

proof fn lemma_alike_first(names: Seq<Seq<char>>, name: Seq<char>, from: int, at: int)
    requires
        0 <= from <= at < names.len(),
        text::alike(names[at], name),
        forall|k: int| from <= k < at ==> !text::alike(#[trigger] names[k], name),
    ensures
        app::alike_from(names, name, from) == Some(names[at]),
    decreases at - from,
{
    if from < at {
        lemma_alike_first(names, name, from + 1, at);
    }
}

/// A configuration is found by its name in any mixture of capitals, and named as the
/// project names it; of several that differ in capitals alone the first is meant. A name
/// on the command line wins over the one that the configuration file has for the project,
/// and that over the default.
pub proof fn lemma_configuration_chosen(
    name: Seq<char>,
    entry: config::ProjectConfigView,
    config: config::ConfigView,
    located: app::LocatedView,
    held: Seq<char>,
    at: int,
)
    requires
        0 <= at < app::offered(located.solution, located.project).len(),
        text::alike(app::offered(located.solution, located.project)[at], name),
        forall|k: int|
            0 <= k < at ==> !text::alike(
                #[trigger] app::offered(located.solution, located.project)[k],
                name,
            ),
    ensures
        ({
            let found = Ok::<Seq<char>, Failure>(
                app::offered(located.solution, located.project)[at],
            );
            &&& app::chosen(Some(name), config, located) == found
            &&& located.name == Some(held) && config::project_named(config.projects, held)
                == Some(entry) && entry.configuration == Some(name) ==> app::chosen(
                None,
                config,
                located,
            ) == found
            &&& located.name is None && config.defaults.configuration == Some(name) ==> app::chosen(
                None,
                config,
                located,
            ) == found
        }),
{
    let available = app::offered(located.solution, located.project);
    lemma_alike_first(available, name, 0, at);
}

/// A project is found by its name in any mixture of capitals, the first of several.
pub proof fn lemma_project_chosen(solution: solution::SolutionView, name: Seq<char>, at: int)
    requires
        0 <= at < solution.entries.len(),
        text::alike(solution.entries[at].name, name),
        forall|k: int| 0 <= k < at ==> !text::alike((#[trigger] solution.entries[k]).name, name),
    ensures
        solution::chosen_entry(solution, Some(name)) == Ok::<solution::EntryView, Failure>(
            solution.entries[at],
        ),
        solution.entries.len() == 1 ==> solution::chosen_entry(solution, None) == Ok::<
            solution::EntryView,
            Failure,
        >(solution.entries[0]),
        solution.entries.len() > 1 ==> (solution::chosen_entry(solution, None) matches Err(
            Failure::Usage(_),
        )),
        app::name_to_pass(solution, name) == if solution.entries.len() > 1 {
            Some(name)
        } else {
            None
        },
{
    lemma_entry_first(solution.entries, name, 0, at);
}

proof fn lemma_entry_first(entries: Seq<solution::EntryView>, name: Seq<char>, from: int, at: int)
    requires
        0 <= from <= at < entries.len(),
        text::alike(entries[at].name, name),
        forall|k: int| from <= k < at ==> !text::alike((#[trigger] entries[k]).name, name),
    ensures
        solution::entry_from(entries, name, from) == Some(at),
    decreases at - from,
{
    if from < at {
        lemma_entry_first(entries, name, from + 1, at);
    }
}

/// A project without a solution cannot be built with Studio, and everything else can be
/// built.
pub proof fn lemma_what_can_be_built(located: app::LocatedView, backend: Backend)
    ensures
        app::buildable(located, backend) is Err <==> located.solution is None && backend
            == Backend::Studio,
        app::buildable(located, backend) matches Ok(held) ==> held == located,
        app::buildable(located, backend) matches Err(failure) ==> failure is Usage,
{
}

/// What is asked of the backend is what the user asked for.
pub proof fn lemma_request_follows_target(
    target: app::TargetView,
    action: Action,
    backend: Backend,
    extra: Seq<Seq<char>>,
)
    ensures
        ({
            let request = app::request_of(target, action, backend, extra);
            &&& request.action == action
            &&& request.backend == backend
            &&& request.extra == extra
            &&& request.configuration == target.configuration
            &&& request.project == target.project
            &&& request.project_name == target.project_name
            &&& target.solution matches Some(held) ==> request.solution == held.path
            &&& target.solution is None ==> request.solution == target.project.path
        }),
{
}

/// A target is the project that was found in the configuration that was chosen.
pub proof fn lemma_target_follows_choice(
    config: config::ConfigView,
    located: app::LocatedView,
    configuration: Option<Seq<char>>,
)
    ensures
        match app::target_for(config, located, configuration) {
            Ok(target) => {
                &&& target.solution == located.solution
                &&& target.project == located.project
                &&& target.project_name == located.project_name
                &&& app::chosen(configuration, config, located) == Ok::<Seq<char>, Failure>(
                    target.configuration,
                )
            },
            Err(failure) => app::chosen(configuration, config, located) == Err::<Seq<char>, _>(
                failure,
            ),
        },
{
}

/// What is told in the end of a build that failed: that it failed, how many errors and
/// warnings there were, and where the log is. That Studio claimed success is told too.
pub proof fn lemma_failure_told(
    ending: app::EndingView,
    report: report::ReportView,
    host: Host,
    directory: Seq<char>,
    quiet: bool,
)
    requires
        !report.succeeded,
    ensures
        ({
            let style = Style { color: false };
            let lines = app::ending_lines(ending, report, style, host, directory, quiet);
            let errors = app::counted(report::tally(report.diagnostics, Severity::Error), "error"@);
            let warnings = app::counted(
                report::tally(report.diagnostics, Severity::Warning),
                "warning"@,
            );
            &&& lines.len() == if ending.exit_code == Some(0i32) {
                3int
            } else {
                2
            }
            &&& lines[0] == "    Failed "@ + ending.label + " in "@ + ending.seconds
                + "s \u{2014} "@ + errors + ", "@ + warnings
            &&& lines[1] == "       Log "@ + path::below(host, ending.log, directory)
        }),
{
    reveal_strlit("Failed");
    reveal_strlit("Log");
    reveal_strlit(" ");
    reveal_strlit("    Failed ");
    reveal_strlit("       Log ");
    let style = Style { color: false };
    let lines = app::ending_lines(ending, report, style, host, directory, quiet);
    let errors = app::counted(report::tally(report.diagnostics, Severity::Error), "error"@);
    let warnings = app::counted(report::tally(report.diagnostics, Severity::Warning), "warning"@);
    assert(report::labelled("Failed"@) + " "@ =~= "    Failed "@);
    assert(report::labelled("Log"@) + " "@ =~= "       Log "@);
    assert(lines[0] =~= "    Failed "@ + ending.label + " in "@ + ending.seconds + "s \u{2014} "@
        + errors + ", "@ + warnings);
}

/// What is told in the end of a build that succeeded: nothing where the user wants to hear
/// nothing, and otherwise that it is done, how full the memories are where both are known,
/// and what came of it. Nothing comes of cleaning.
#[verifier::rlimit(40)]
pub proof fn lemma_success_told(
    ending: app::EndingView,
    report: report::ReportView,
    host: Host,
    directory: Seq<char>,
)
    requires
        report.succeeded,
    ensures
        ({
            let style = Style { color: false };
            let lines = app::ending_lines(ending, report, style, host, directory, false);
            let errors = app::counted(report::tally(report.diagnostics, Severity::Error), "error"@);
            let warnings = app::counted(
                report::tally(report.diagnostics, Severity::Warning),
                "warning"@,
            );
            let clean = ending.action == Action::Clean;
            let memory = !clean && report.program is Some && report.data is Some;
            let artifact = !clean && ending.size is Some;
            let disagreed = ending.exit_code matches Some(code) && code != 0;
            let before = if memory {
                2int
            } else {
                1
            };
            &&& app::ending_lines(ending, report, style, host, directory, true).len() == 0
            &&& lines.len() == 1 + (if memory {
                1int
            } else {
                0
            }) + (if artifact {
                1int
            } else {
                0
            }) + (if disagreed {
                1int
            } else {
                0
            })
            &&& lines[0] == (if clean {
                "   Cleaned "@
            } else {
                "  Finished "@
            }) + ending.label + " in "@ + ending.seconds + "s \u{2014} "@ + errors + ", "@
                + warnings
            &&& memory ==> lines[1] == "    Memory Program "@ + report::grouped(
                number::decimal(report.program->0.bytes),
            ) + " B ("@ + ending.program_percent + "% full) \u{b7} Data "@ + report::grouped(
                number::decimal(report.data->0.bytes),
            ) + " B ("@ + ending.data_percent + "% full)"@
            &&& artifact ==> lines[before] == "    Output "@ + path::below(
                host,
                ending.artifact,
                directory,
            ) + " ("@ + report::size_text(ending.size->0 as nat) + ")"@
        }),
{
    reveal_strlit("Cleaned");
    reveal_strlit("Finished");
    reveal_strlit("Memory");
    reveal_strlit("Output");
    reveal_strlit(" ");
    reveal_strlit("   Cleaned ");
    reveal_strlit("  Finished ");
    reveal_strlit("    Output ");
    reveal_strlit("    Memory Program ");
    reveal_strlit(" Program ");
    let style = Style { color: false };
    let lines = app::ending_lines(ending, report, style, host, directory, false);
    let errors = app::counted(report::tally(report.diagnostics, Severity::Error), "error"@);
    let warnings = app::counted(report::tally(report.diagnostics, Severity::Warning), "warning"@);
    let clean = ending.action == Action::Clean;
    assert(report::labelled("Cleaned"@) + " "@ =~= "   Cleaned "@);
    assert(report::labelled("Finished"@) + " "@ =~= "  Finished "@);
    assert(report::labelled("Memory"@) + " Program "@ =~= "    Memory Program "@);
    assert(report::labelled("Output"@) + " "@ =~= "    Output "@);
    let front = if clean {
        "   Cleaned "@
    } else {
        "  Finished "@
    };
    assert(lines[0] =~= front + ending.label + " in "@ + ending.seconds + "s \u{2014} "@ + errors
        + ", "@ + warnings);
}

/// An artifact that is there is what is looked up. One that is not is an error: the user
/// has not built yet, or asked for something that a build does not make.
pub proof fn lemma_lookup(
    host: Host,
    working: Option<Seq<char>>,
    target: app::TargetView,
    extension: Seq<char>,
    files: Seq<Seq<char>>,
)
    ensures
        app::looked_up(host, working, target, extension, true, files) == Ok::<Seq<char>, Failure>(
            app::artifact_shown(host, working, target, extension),
        ),
        ({
            let stem = solution::expanded(
                host,
                target.project,
                target.project.output_file_name,
                target.configuration,
            );
            let built = solution::ranked_artifacts(host, stem, files);
            match app::looked_up(host, working, target, extension, false, files) {
                Ok(_) => false,
                Err(Failure::Runtime(_)) => built.len() == 0,
                Err(Failure::Usage(_)) => built.len() > 0,
                Err(_) => false,
            }
        }),
{
}

/// Every configuration is listed, indented, in order, after the project; the default is
/// marked, in whatever capitals it was given.
pub proof fn lemma_configurations_listed(config: config::ConfigView, located: app::LocatedView)
    ensures
        ({
            let names = app::offered(located.solution, located.project);
            let default = app::default_configuration(config, located.name);
            match app::configuration_lines(config, located) {
                Err(failure) => names.len() == 0 && failure is Runtime,
                Ok(lines) => {
                    &&& names.len() > 0
                    &&& lines.len() == names.len() + 1
                    &&& located.project.name.is_prefix_of(lines[0])
                    &&& located.project.device matches Some(device) ==> lines[0]
                        == located.project.name + " ("@ + device + ")"@
                    &&& located.project.device is None ==> lines[0] == located.project.name
                    &&& forall|i: int|
                        0 <= i < names.len() ==> lines[i + 1] == "    "@ + #[trigger] names[i] + (if (
                        default matches Some(name) && text::alike(name, names[i])) {
                            " (default)"@
                        } else {
                            Seq::empty()
                        })
                },
            }
        }),
{
    let names = app::offered(located.solution, located.project);
    let project = located.project;
    if let Ok(lines) = app::configuration_lines(config, located) {
        let n = project.name.len() as int;
        assert(lines[0].subrange(0, n) =~= project.name);
    }
}

/// Every project of a solution is listed, indented and in order, after the solution.
pub proof fn lemma_projects_listed(
    config: config::ConfigView,
    paths: host::PathsView,
    solution: solution::SolutionView,
)
    requires
        config.projects.len() == 0,
    ensures
        ({
            let lines = app::project_lines(config, paths, Some(solution));
            &&& lines.len() == solution.entries.len() + 1
            &&& lines[0] == "in "@ + solution.path + ":"@
            &&& forall|i: int|
                0 <= i < solution.entries.len() ==> lines[i + 1] == "    "@ + (
                #[trigger] solution.entries[i]).name
        }),
        app::project_lines(config, paths, None).len() == 1,
{
}

/// Projects of the configuration file are listed by name, the default marked, each with
/// what the file says of it.
pub proof fn lemma_named_project_listed(
    named: config::NamedView,
    config: config::ConfigView,
    paths: host::PathsView,
)
    ensures
        ({
            let lines = app::named_lines(named, config, paths);
            let described = named.entry.description is Some;
            &&& lines[0] == named.name + (if config.defaults.project == Some(named.name) {
                " (default)"@
            } else {
                Seq::empty()
            })
            &&& lines.len() == 1 + (if described {
                1int
            } else {
                0
            }) + (if named.entry.solution is Some {
                1int
            } else {
                0
            })
            &&& named.entry.description matches Some(held) ==> lines[1] == "    "@ + held
            &&& named.entry.solution matches Some(held) ==> "    "@.is_prefix_of(lines.last())
        }),
{
    let lines = app::named_lines(named, config, paths);
    if let Some(file) = named.entry.solution {
        let n = "    "@.len() as int;
        assert(lines.last().subrange(0, n) =~= "    "@);
    }
}

/// The Studio that the user names on the command line is the one that is used, whatever
/// the configuration file says.
pub proof fn lemma_studio_chosen(
    root: Seq<char>,
    config: config::ConfigView,
    paths: host::PathsView,
)
    ensures
        app::studio_named(Some(root), config, paths) == Ok::<Option<Seq<char>>, Failure>(
            Some(root),
        ),
        config.studio is None ==> app::studio_named(None, config, paths) == Ok::<
            Option<Seq<char>>,
            Failure,
        >(None),
        config.studio matches Some(held) ==> (app::studio_named(None, config, paths) is Err
            <==> host::native(paths, held) is Err),
{
}

/// The configuration file is looked for in the working directory, then beside the
/// program, then where the user keeps such files.
pub proof fn lemma_configuration_places(
    host: Host,
    working: Seq<char>,
    executable: Seq<char>,
    beside: Seq<char>,
    xdg: Seq<char>,
    appdata: Seq<char>,
    home: Seq<char>,
)
    requires
        path::parent(host, executable) == Some(beside),
        xdg.len() > 0,
        appdata.len() > 0,
        home.len() > 0,
    ensures
        ({
            let file = "atp.toml"@;
            let own = path::joined(host, xdg, "atp"@);
            let usual = match host {
                Host::Windows => path::joined(host, appdata, "atp"@),
                Host::Wsl => path::joined(host, path::joined(host, home, ".config"@), "atp"@),
            };
            &&& config::config_places(
                host,
                Some(working),
                Some(executable),
                Some(xdg),
                Some(appdata),
                Some(home),
            ) == seq![
                path::joined(host, working, file),
                path::joined(host, beside, file),
                path::joined(host, own, file),
                path::joined(host, usual, file),
            ]
            &&& config::config_places(host, None, None, None, None, None) == Seq::<
                Seq<char>,
            >::empty()
            &&& config::config_places(
                host,
                Some(working),
                None,
                Some(Seq::empty()),
                Some(Seq::empty()),
                Some(Seq::empty()),
            ) == seq![path::joined(host, working, file)]
            &&& config::user_place(host, Some(xdg), Some(appdata), Some(home)) == Some(own)
            &&& config::user_place(host, None, Some(appdata), Some(home)) == Some(usual)
            &&& config::user_place(host, None, None, Some(home)) == Some(
                path::joined(host, path::joined(host, home, ".config"@), "atp"@),
            )
            &&& config::user_place(host, None, None, None) is None
        }),
{
}

/// A configuration file that the user names is the one that is read, and has to be there.
/// Otherwise the first that is there is.
pub proof fn lemma_configuration_file_chosen(
    named: path::PlaceView,
    places: Seq<path::PlaceView>,
    at: int,
)
    requires
        0 <= at < places.len(),
        places[at].present,
        forall|k: int| 0 <= k < at ==> !(#[trigger] places[k]).present,
    ensures
        named.present ==> config::chosen_file(Some(named), places) == Ok::<
            Option<Seq<char>>,
            Failure,
        >(Some(named.path)),
        !named.present ==> (config::chosen_file(Some(named), places) matches Err(
            Failure::Usage(_),
        )),
        config::chosen_file(None, places) == Ok::<Option<Seq<char>>, Failure>(
            Some(places[at].path),
        ),
{
    lemma_present(places, 0, at);
}

proof fn lemma_present(places: Seq<path::PlaceView>, from: int, at: int)
    requires
        0 <= from <= at < places.len(),
        places[at].present,
        forall|k: int| from <= k < at ==> !(#[trigger] places[k]).present,
    ensures
        path::present_from(places, from) == Some(places[at].path),
    decreases at - from,
{
    if from < at {
        lemma_present(places, from + 1, at);
    }
}

/// A mistake of the user ends the program with another code than a failure, and neither
/// with success.
pub proof fn lemma_exit_codes(message: Seq<char>, code: int)
    ensures
        error::exit_code(Failure::Usage(message)) == 2,
        error::exit_code(Failure::Runtime(message)) == 1,
        error::exit_code(Failure::Exit(code)) == code,
        error::message(Failure::Usage(message)) == message,
        error::message(Failure::Runtime(message)) == message,
        error::message(Failure::Exit(code)).len() == 0,
{
}

/// A project that the configuration file names is where the file says; any other name is
/// looked for in the solution that is found. Without a name whatever is found is meant.
pub proof fn lemma_source_chosen(
    config: config::ConfigView,
    paths: host::PathsView,
    name: Seq<char>,
    entry: config::ProjectConfigView,
    file: Seq<char>,
)
    ensures
        config::project_named(config.projects, name) is None ==> app::source_of(
            config,
            paths,
            Some(name),
        ) == Ok::<app::SourceView, Failure>(app::SourceView::Discovered(Some(name))),
        config.defaults.project is None ==> app::source_of(config, paths, None) == Ok::<
            app::SourceView,
            Failure,
        >(app::SourceView::Discovered(None)),
        config.defaults.project == Some(name) ==> app::source_of(config, paths, None)
            == app::source_of(config, paths, Some(name)),
        config::project_named(config.projects, name) == Some(entry) && entry.solution is None
            ==> (app::source_of(config, paths, Some(name)) matches Err(Failure::Usage(_))),
        config::project_named(config.projects, name) == Some(entry) && entry.solution == Some(file)
            && paths.host == Host::Wsl && file.len() > 0 && file[0] == '/' ==> app::source_of(
            config,
            paths,
            Some(name),
        ) == Ok::<app::SourceView, Failure>(app::SourceView::Given(file, entry.project)),
{
    reveal_strlit("\\\\");
    if file.len() > 0 && file[0] == '/' && "\\\\"@.is_prefix_of(file) {
        assert(file.subrange(0, 2)[0] == file[0]);
    }
}

/// What a project file is found in is a solution that lists it, beside it or one
/// directory up; where none does, it is by itself.
pub proof fn lemma_owner_lists_project(
    world: locate::World,
    host: Host,
    directories: Seq<Seq<char>>,
    place: Seq<char>,
)
    ensures
        match locate::owner_in(world, host, directories, place) {
            Some(file) => locate::lists(world, host, file, place) && exists|k: int|
                0 <= k < directories.len() && locate::solutions_among(
                    host,
                    (world.entries)(#[trigger] directories[k]),
                ).contains(file),
            None => forall|k: int, j: int|
                0 <= k < directories.len() && 0 <= j < locate::solutions_among(
                    host,
                    (world.entries)(directories[k]),
                ).len() ==> !locate::lists(
                    world,
                    host,
                    #[trigger] locate::solutions_among(host, (world.entries)(directories[k]))[j],
                    place,
                ),
        },
    decreases directories.len(),
{
    if directories.len() > 0 {
        let rest = directories.skip(1);
        let solutions = locate::solutions_among(host, (world.entries)(directories[0]));
        lemma_first_lists(world, host, solutions, place);
        lemma_owner_lists_project(world, host, rest, place);
        match locate::owner_in(world, host, directories, place) {
            Some(file) => {
                if locate::first_listing(world, host, solutions, place) is Some {
                    assert(locate::solutions_among(host, (world.entries)(directories[0])).contains(
                        file,
                    ));
                } else {
                    let k = choose|k: int|
                        0 <= k < rest.len() && locate::solutions_among(
                            host,
                            (world.entries)(#[trigger] rest[k]),
                        ).contains(file);
                    assert(directories[k + 1] == rest[k]);
                }
            },
            None => {
                assert forall|k: int, j: int|
                    0 <= k < directories.len() && 0 <= j < locate::solutions_among(
                        host,
                        (world.entries)(directories[k]),
                    ).len() implies !locate::lists(
                    world,
                    host,
                    #[trigger] locate::solutions_among(host, (world.entries)(directories[k]))[j],
                    place,
                ) by {
                    if k > 0 {
                        assert(rest[k - 1] == directories[k]);
                    }
                }
            },
        }
    }
}

proof fn lemma_first_lists(
    world: locate::World,
    host: Host,
    solutions: Seq<Seq<char>>,
    place: Seq<char>,
)
    ensures
        match locate::first_listing(world, host, solutions, place) {
            Some(file) => solutions.contains(file) && locate::lists(world, host, file, place),
            None => forall|j: int|
                0 <= j < solutions.len() ==> !locate::lists(
                    world,
                    host,
                    #[trigger] solutions[j],
                    place,
                ),
        },
    decreases solutions.len(),
{
    if solutions.len() > 0 {
        let rest = solutions.skip(1);
        lemma_first_lists(world, host, rest, place);
        match locate::first_listing(world, host, solutions, place) {
            Some(file) => {
                if locate::lists(world, host, solutions[0], place) {
                    assert(solutions.contains(solutions[0]));
                } else {
                    let j = choose|j: int| 0 <= j < rest.len() && rest[j] == file;
                    assert(solutions[j + 1] == file);
                }
            },
            None => {
                assert forall|j: int| 0 <= j < solutions.len() implies !locate::lists(
                    world,
                    host,
                    #[trigger] solutions[j],
                    place,
                ) by {
                    if j > 0 {
                        assert(rest[j - 1] == solutions[j]);
                    }
                }
            },
        }
    }
}

/// What a build is told of: with `verbose` the log, then the messages, then how it ended.
/// Every line ends in a line feed.
pub proof fn lemma_account(
    ending: app::EndingView,
    report: report::ReportView,
    log: Seq<char>,
    paths: host::PathsView,
    style: Style,
    directory: Seq<char>,
    verbose: bool,
    quiet: bool,
)
    requires
        base::are_lines(report::report_lines(report, paths, style, directory, verbose)),
        base::are_lines(app::ending_lines(ending, report, style, paths.host, directory, quiet)),
    ensures
        ({
            let told = command::account(
                ending,
                report,
                log,
                paths,
                style,
                directory,
                verbose,
                quiet,
            );
            let messages = report::report_lines(report, paths, style, directory, verbose);
            let end = app::ending_lines(ending, report, style, paths.host, directory, quiet);
            &&& !verbose ==> text::lines_of(told) == messages + end
            &&& verbose ==> log.is_prefix_of(told) && text::lines_of(told.skip(log.len() as int))
                == messages + end
        }),
{
    let messages = report::report_lines(report, paths, style, directory, verbose);
    let end = app::ending_lines(ending, report, style, paths.host, directory, quiet);
    let a = command::line_text(messages);
    let b = command::line_text(end);
    lemma_line_text(messages);
    lemma_line_text(end);
    text::lemma_lines_after_lines(a, b);
    let told = command::account(ending, report, log, paths, style, directory, verbose, quiet);
    if verbose {
        assert(told.subrange(0, log.len() as int) =~= log);
        assert(told.skip(log.len() as int) =~= a + b);
    }
}

proof fn lemma_line_text(lines: Seq<Seq<char>>)
    requires
        base::are_lines(lines),
    ensures
        text::lines_of(command::line_text(lines)) == lines,
        command::line_text(lines).len() > 0 ==> command::line_text(lines).last() == '\n',
    decreases lines.len(),
{
    reveal_strlit("\n");
    if lines.len() == 0 {
        Seq::<char>::empty().index_of_first_ensures('\n');
    } else {
        let front = lines.drop_last();
        assert forall|i: int| 0 <= i < front.len() implies !(#[trigger] front[i]).contains('\n')
            && (front[i].len() > 0 ==> front[i].last() != '\r') by {
            assert(front[i] == lines[i]);
        }
        lemma_line_text(front);
        let before = command::line_text(front);
        let last = lines.last();
        assert(lines[lines.len() - 1] == last);
        let more = last.push('\n') + Seq::<char>::empty();
        assert(command::line_text(lines) =~= before + more);
        text::lemma_lines_after_lines(before, more);
        base::lemma_first_line(last, Seq::empty());
        Seq::<char>::empty().index_of_first_ensures('\n');
        assert(text::lines_of(Seq::<char>::empty()) =~= Seq::<Seq<char>>::empty());
        assert(text::lines_of(more) =~= seq![last]);
        assert(front + seq![last] =~= lines);
    }
}

/// What is wrong is told as it is; where the user named a project that the configuration
/// file does not have, the names that it has are told first.
pub proof fn lemma_failed_discovery_told(
    config: config::ConfigView,
    name: Seq<char>,
    failure: Failure,
)
    ensures
        app::discovery_failure(config, None, failure) == failure,
        config.projects.len() == 0 ==> app::discovery_failure(config, Some(name), failure)
            == failure,
        config.projects.len() > 0 ==> (app::discovery_failure(config, Some(name), failure) matches Failure::Usage(
            said,
        ) && name.is_prefix_of(said) && error::message(failure).is_suffix_of(said)),
{
    if config.projects.len() > 0 {
        let said = error::message(app::discovery_failure(config, Some(name), failure));
        let last = error::message(failure);
        assert(said.subrange(0, name.len() as int) =~= name);
        assert(said.subrange(said.len() - last.len(), said.len() as int) =~= last);
    }
}

/// What is printed is told from the working directory, unless it starts at the top.
pub proof fn lemma_told_from_working_directory(working: Seq<char>, file: Seq<char>)
    requires
        working.len() > 0,
        working.last() != '/',
        file.len() > 0,
    ensures
        app::from_working(Host::Wsl, Some(working), file) == if file[0] == '/' {
            file
        } else {
            working + seq!['/'] + file
        },
        app::from_working(Host::Wsl, None, file) == file,
{
}

/// The extensions of some files are told in their order.
pub proof fn lemma_extensions_told(host: Host, files: Seq<Seq<char>>)
    requires
        forall|i: int|
            0 <= i < files.len() ==> path::extension(host, #[trigger] files[i]) is Some,
    ensures
        app::extensions_of(host, files).len() == files.len(),
        forall|i: int|
            0 <= i < files.len() ==> path::extension(host, #[trigger] files[i]) == Some(
                app::extensions_of(host, files)[i],
            ),
    decreases files.len(),
{
    if files.len() > 0 {
        let front = files.drop_last();
        assert forall|i: int| 0 <= i < front.len() implies path::extension(
            host,
            #[trigger] front[i],
        ) is Some by {
            assert(front[i] == files[i]);
        }
        lemma_extensions_told(host, front);
        assert(path::extension(host, files[files.len() - 1]) is Some);
        assert forall|i: int| 0 <= i < files.len() implies path::extension(
            host,
            #[trigger] files[i],
        ) == Some(app::extensions_of(host, files)[i]) by {
            if i < front.len() {
                assert(front[i] == files[i]);
            }
        }
    }
}

/// What is going on is told by its name, in the project and the configuration that it is
/// done for.
pub proof fn lemma_announced(target: app::TargetView)
    ensures
        ({
            let style = Style { color: false };
            let label = target.project.name + " ["@ + target.configuration + "]"@;
            &&& app::announced(style, Action::Build, target) == "  Building "@ + label
            &&& app::announced(style, Action::Rebuild, target) == "Rebuilding "@ + label
            &&& app::announced(style, Action::Clean, target) == "  Cleaning "@ + label
            &&& command::announcement(style, Action::Build, target, true).len() == 0
            &&& command::announcement(style, Action::Build, target, false) == "  Building "@
                + label + "\n"@
        }),
{
    reveal_strlit("Building");
    reveal_strlit("Rebuilding");
    reveal_strlit("Cleaning");
    reveal_strlit("  Building ");
    reveal_strlit("Rebuilding ");
    reveal_strlit("  Cleaning ");
    reveal_strlit(" ");
    assert(report::labelled("Building"@) + " "@ =~= "  Building "@);
    assert(report::labelled("Rebuilding"@) + " "@ =~= "Rebuilding "@);
    assert(report::labelled("Cleaning"@) + " "@ =~= "  Cleaning "@);
}

/// That Studio and the log disagree is told last: that it claimed success of a build that
/// failed, and with which code it ended a build that succeeded.
pub proof fn lemma_disagreement_told(
    ending: app::EndingView,
    report: report::ReportView,
    host: Host,
    directory: Seq<char>,
    code: i32,
)
    ensures
        ({
            let style = Style { color: false };
            let lines = app::ending_lines(ending, report, style, host, directory, false);
            let told = "; the log is what decided this"@;
            &&& ending.exit_code == Some(0i32) && !report.succeeded ==> lines.last()
                == "      note Atmel Studio exited 0"@ + told
            &&& ending.exit_code == Some(code) && code != 0 && report.succeeded ==> lines.last()
                == "      note Atmel Studio exited "@ + number::signed(code as int) + told
        }),
{
    reveal_strlit("note");
    reveal_strlit(" ");
    reveal_strlit("Atmel Studio exited 0; the log is what decided this");
    reveal_strlit("      note Atmel Studio exited 0");
    reveal_strlit("; the log is what decided this");
    reveal_strlit("Atmel Studio exited ");
    reveal_strlit("      note Atmel Studio exited ");
    let style = Style { color: false };
    let lines = app::ending_lines(ending, report, style, host, directory, false);
    let told = "; the log is what decided this"@;
    assert(report::labelled("note"@) =~= "      note Atmel Studio exited "@.take(10));
    if ending.exit_code == Some(0i32) && !report.succeeded {
        assert(lines.last() =~= "      note Atmel Studio exited 0"@ + told);
    }
    if ending.exit_code == Some(code) && code != 0 && report.succeeded {
        assert(lines.last() =~= "      note Atmel Studio exited "@ + number::signed(code as int)
            + told);
    }
}

/// What a path means: nothing that is not there; what a solution file lists, where it is
/// one; and otherwise a project.
pub proof fn lemma_path_given(
    world: locate::World,
    goal: locate::GoalView,
    file: Seq<char>,
    inner: Option<Seq<char>>,
    extension: Seq<char>,
)
    requires
        path::extension(goal.host, file) == Some(extension),
    ensures
        !(world.existence)(file) ==> (locate::at_path(world, goal, file, inner) matches Err(
            Failure::Usage(_),
        )),
        (world.existence)(file) && text::alike(extension, "atsln"@) ==> locate::at_path(
            world,
            goal,
            file,
            inner,
        ) == locate::in_solution(world, goal, file, inner),
        (world.existence)(file) && !text::alike(extension, "atsln"@) ==> (locate::at_path(
            world,
            goal,
            file,
            inner,
        ) matches Ok(located) ==> located.project.path == file),
        locate::in_solution(world, goal, file, inner) matches Ok(located) ==> (
        located.solution matches Some(solution) && solution.path == file && located.name
            == goal.name && (located.project_name is Some <==> solution.entries.len() > 1)),
{
}

/// A solution lists a project if one of its entries leads to where that project lies.
pub proof fn lemma_listing_a_project(
    world: locate::World,
    host: Host,
    file: Seq<char>,
    place: Seq<char>,
    solution: solution::SolutionView,
)
    requires
        solution::solution_read(file, (world.contents)(file)) == Ok::<_, Failure>(solution),
    ensures
        locate::lists(world, host, file, place) <==> exists|i: int|
            0 <= i < solution.entries.len() && (world.place)(
                solution::entry_path(host, file, #[trigger] solution.entries[i]),
            ) == Some(place),
{
    let files = locate::project_files(host, solution);
    assert(solution.path == file);
    if locate::lists(world, host, file, place) {
        let i = choose|i: int|
            0 <= i < files.len() && (world.place)(#[trigger] files[i]) == Some(place);
        assert(files[i] == solution::entry_path(host, file, solution.entries[i]));
    }
    if exists|i: int|
        0 <= i < solution.entries.len() && (world.place)(
            solution::entry_path(host, file, #[trigger] solution.entries[i]),
        ) == Some(place) {
        let i = choose|i: int|
            0 <= i < solution.entries.len() && (world.place)(
                solution::entry_path(host, file, #[trigger] solution.entries[i]),
            ) == Some(place);
        assert(files[i] == solution::entry_path(host, file, solution.entries[i]));
    }
}

/// A project that is given by itself is built with the solution that lists it, if there
/// is one, and the project it is is the one that was given.
pub proof fn lemma_project_given(
    world: locate::World,
    goal: locate::GoalView,
    file: Seq<char>,
    place: Seq<char>,
)
    requires
        locate::at_project(world, goal, file) is Ok,
        (world.place)(file) == Some(place),
    ensures
        ({
            let located = locate::at_project(world, goal, file)->Ok_0;
            &&& solution::project_read(goal.host, file, (world.contents)(file)) == Ok::<_, Failure>(
                located.project,
            )
            &&& located.name == goal.name
            &&& match located.solution {
                Some(solution) => {
                    &&& locate::lists(world, goal.host, solution.path, place)
                    &&& located.project_name is Some <==> solution.entries.len() > 1
                    &&& located.project_name matches Some(name) ==> name == located.project.name
                },
                None => {
                    &&& goal.backend == Backend::MsBuild
                    &&& located.project_name is None
                    &&& locate::owner_in(
                        world,
                        goal.host,
                        search::solution_directories(goal.host, file),
                        place,
                    ) is None
                },
            }
        }),
{
    let project = solution::project_read(goal.host, file, (world.contents)(file))->Ok_0;
    let directories = search::solution_directories(goal.host, file);
    lemma_owner_lists_project(world, goal.host, directories, place);
}

/// What is meant follows from the name that the user or the configuration file gives: a
/// path of that file, from the working directory; or what is discovered from there.
pub proof fn lemma_what_is_meant(
    world: locate::World,
    config: config::ConfigView,
    paths: host::PathsView,
    working: Seq<char>,
    backend: Backend,
    found: Seq<char>,
)
    requires
        config.defaults.project is None,
        search::meant(world.entries, paths.host, working) == Ok::<_, Failure>(found),
    ensures
        ({
            let goal = locate::GoalView { host: paths.host, backend: backend, name: None };
            &&& locate::meant(world, config, paths, Ok(working), None, backend) == locate::at_path(
                world,
                goal,
                found,
                None,
            )
            &&& locate::meant(world, config, paths, Err(working), None, backend) is Err
        }),
{
}

/// A project of the configuration file is found by the name that it has there, and by no
/// other.
pub proof fn lemma_named_projects(projects: Seq<config::NamedView>, name: Seq<char>, i: int)
    requires
        config::in_order(projects),
    ensures
        0 <= i < projects.len() ==> config::project_named(projects, projects[i].name) == Some(
            projects[i].entry,
        ),
        (forall|k: int| 0 <= k < projects.len() ==> (#[trigger] projects[k]).name != name)
            ==> config::project_named(projects, name) is None,
{
    if 0 <= i < projects.len() {
        assert forall|k: int| 0 <= k < i implies (#[trigger] projects[k]).name
            != projects[i].name by {
            order::lemma_text_before_total(projects[k].name, projects[i].name);
        }
        lemma_named_at(projects, projects[i].name, 0, i);
    }
    if forall|k: int| 0 <= k < projects.len() ==> (#[trigger] projects[k]).name != name {
        lemma_named_at(projects, name, 0, projects.len() as int);
    }
}

proof fn lemma_named_at(
    projects: Seq<config::NamedView>,
    name: Seq<char>,
    from: int,
    at: int,
)
    requires
        0 <= from <= at <= projects.len(),
        at < projects.len() ==> projects[at].name == name,
        forall|k: int| from <= k < at ==> (#[trigger] projects[k]).name != name,
    ensures
        config::named_from(projects, name, from) == if at < projects.len() {
            Some(projects[at].entry)
        } else {
            None
        },
    decreases at - from,
{
    if from < at {
        lemma_named_at(projects, name, from + 1, at);
    }
}

/// Projects of the configuration file are listed one after the other, and what lies here
/// after them.
pub proof fn lemma_all_projects_listed(
    config: config::ConfigView,
    projects: Seq<config::NamedView>,
    more: config::NamedView,
    paths: host::PathsView,
    solution: solution::SolutionView,
)
    ensures
        app::all_named_lines(projects.push(more), config, paths) == app::all_named_lines(
            projects,
            config,
            paths,
        ) + app::named_lines(more, config, paths),
        app::all_named_lines(Seq::empty(), config, paths).len() == 0,
        config.projects.len() > 0 ==> app::project_lines(config, paths, None)
            == app::all_named_lines(config.projects, config, paths),
        config.projects.len() > 0 ==> app::project_lines(config, paths, Some(solution))
            == app::all_named_lines(config.projects, config, paths) + seq![Seq::<char>::empty()]
            + app::project_lines(
            (config::ConfigView { projects: Seq::empty(), ..config }),
            paths,
            Some(solution),
        ),
{
    assert(projects.push(more).drop_last() =~= projects);
    let named = app::all_named_lines(config.projects, config, paths);
    assert(named.push(Seq::<char>::empty()) =~= named + seq![Seq::<char>::empty()]);
}

/// What is not there is told of by what was asked for.
pub proof fn lemma_missing_told(
    host: Host,
    target: app::TargetView,
    extension: Seq<char>,
    file: Seq<char>,
    built: Seq<Seq<char>>,
)
    ensures
        ({
            let label = target.project.name + " ["@ + target.configuration + "]"@;
            let said = error::message(
                app::missing_failure(host, target, extension, file, built),
            );
            &&& built.len() == 0 ==> said == label
                + " has not been built yet. Run atp build first."@
            &&& built.len() > 0 ==> (label + " produced no ."@ + extension
                + " file.\nIt produced: "@).is_prefix_of(said) && file.is_suffix_of(said)
        }),
{
    let label = target.project.name + " ["@ + target.configuration + "]"@;
    let said = error::message(app::missing_failure(host, target, extension, file, built));
    if built.len() > 0 {
        let front = label + " produced no ."@ + extension + " file.\nIt produced: "@;
        assert(said.subrange(0, front.len() as int) =~= front);
        assert(said.subrange(said.len() - file.len(), said.len() as int) =~= file);
    }
}

} // verus!
