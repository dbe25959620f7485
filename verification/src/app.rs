//! What each command does.
//!
//! Every decision that a command takes is here: which project and configuration
//! are meant, what is run, what is looked up and what is printed. Reading files and
//! starting programs is left to the caller.

use vstd::prelude::*;

use crate::builder;
use crate::builder::{Action, Backend, Request};
use crate::config;
use crate::config::Config;
use crate::error;
use crate::error::{AppError, Failure};
use crate::host;
use crate::host::{Host, Paths};
use crate::list;
use crate::number;
use crate::order;
use crate::path;
use crate::report;
use crate::report::{Report, Style};
use crate::search;
use crate::solution;
use crate::solution::{Project, Solution};
use crate::text;

verus! {

broadcast use {crate::list::lemma_texts_push, crate::list::lemma_pieces_push};

/// A count with the noun that it counts.
pub open spec fn counted(count: nat, noun: Seq<char>) -> Seq<char> {
    if count == 1 {
        number::decimal(count) + " "@ + noun
    } else {
        number::decimal(count) + " "@ + noun + "s"@
    }
}

/// A count with the noun that it counts.
pub fn plural(count: usize, noun: &str) -> (r: String)
    ensures
        r@ == counted(count as nat, noun@),
{
    let digits = number::decimal_string(count as u64);
    if count == 1 {
        text::cat3(digits.as_str(), " ", noun)
    } else {
        text::cat4(digits.as_str(), " ", noun, "s")
    }
}

/// An argument the way a shell would need it typed.
pub open spec fn quoted(argument: Seq<char>) -> Seq<char> {
    if argument.contains(' ') {
        "\""@ + argument + "\""@
    } else {
        argument
    }
}

/// A command the way a shell would need it typed.
pub open spec fn typed(argv: Seq<Seq<char>>) -> Seq<char> {
    text::joined(argv.map_values(|argument: Seq<char>| quoted(argument)), " "@)
}

/// Renders a command the way a shell would need it typed.
pub fn quote(argv: &Vec<String>) -> (r: String)
    ensures
        r@ == typed(list::texts(argv@)),
{
    let ghost all = list::texts(argv@).map_values(|argument: Seq<char>| quoted(argument));
    let mut out: Vec<String> = Vec::new();
    let mut i: usize = 0;
    assert(list::texts(out@) == all.take(0));
    while i < argv.len()
        invariant
            i <= argv@.len(),
            all == list::texts(argv@).map_values(|argument: Seq<char>| quoted(argument)),
            list::texts(out@) == all.take(i as int),
        decreases argv@.len() - i,
    {
        let argument = argv[i].as_str();
        assert(all[i as int] == quoted(argument@));
        if text::contains_char(&text::chars_of(argument), ' ') {
            out.push(text::cat3("\"", argument, "\""));
        } else {
            out.push(argument.to_owned());
        }
        i += 1;
    }
    assert(all.take(i as int) == all);
    text::join(&out, " ")
}

/// Whether output is coloured: unless it is switched off, and only on a terminal.
pub fn style_for(no_color: bool, switched_off: bool, terminal: bool) -> (r: Style)
    ensures
        r.color == (!no_color && !switched_off && terminal),
{
    Style::new(!no_color && !switched_off && terminal)
}

/// The user's configuration directory, or that it cannot be told.
pub fn config_directory(found: Option<String>) -> (r: Result<String, AppError>)
    ensures
        error::viewed(r) == match found {
            Some(directory) => Ok(directory@),
            None => Err(
                Failure::Runtime("cannot tell where your configuration directory is"@),
            ),
        },
{
    match found {
        Some(directory) => Ok(directory),
        None => Err(
            AppError::Runtime("cannot tell where your configuration directory is".to_owned()),
        ),
    }
}

/// What `build` is to do: run a build, look an artifact up, or one after the other.
#[derive(Clone, Debug)]
pub struct BuildPlan {
    pub action: Option<Action>,
    /// The extension of the artifact to look up.
    pub extension: Option<String>,
}

/// What a plan stands for.
pub struct PlanView {
    pub action: Option<Action>,
    pub extension: Option<Seq<char>>,
}

impl View for BuildPlan {
    type V = PlanView;

    open spec fn view(&self) -> PlanView {
        PlanView { action: self.action, extension: list::optional(self.extension) }
    }
}

/// The extension of the artifact to look up, if one is. Naming an extension asks
/// for a lookup, and a lookup without one is for the linked image.
pub open spec fn lookup_extension(output: bool, extension: Option<Seq<char>>) -> Option<Seq<char>> {
    match extension {
        Some(named) => Some(named),
        None => if output {
            Some("elf"@)
        } else {
            None
        },
    }
}

/// The action that flags ask for.
pub open spec fn action_of(rebuild: bool, clean: bool) -> Action {
    if clean {
        Action::Clean
    } else if rebuild {
        Action::Rebuild
    } else {
        Action::Build
    }
}

/// The action that flags ask for.
pub fn action_for(rebuild: bool, clean: bool) -> (r: Action)
    ensures
        r == action_of(rebuild, clean),
{
    if clean {
        Action::Clean
    } else if rebuild {
        Action::Rebuild
    } else {
        Action::Build
    }
}

/// What `build` is to do with its flags. A lookup runs nothing unless a rebuild is
/// asked for as well, and arguments for the backend need something to run.
pub open spec fn plan_of(
    rebuild: bool,
    clean: bool,
    output: bool,
    extension: Option<Seq<char>>,
    arguments: bool,
) -> Result<PlanView, Failure> {
    match lookup_extension(output, extension) {
        None => Ok(PlanView { action: Some(action_of(rebuild, clean)), extension: None }),
        Some(wanted) => if clean {
            Err(Failure::Usage("--clean cannot be used with -o or -e"@))
        } else if rebuild {
            Ok(PlanView { action: Some(Action::Rebuild), extension: Some(wanted) })
        } else if arguments {
            Err(
                Failure::Usage(
                    "backend arguments require -f when an artifact is looked up"@,
                ),
            )
        } else {
            Ok(PlanView { action: None, extension: Some(wanted) })
        },
    }
}

/// Settles what `build` is to do with its flags.
pub fn plan_build(
    rebuild: bool,
    clean: bool,
    output: bool,
    extension: Option<&str>,
    extra: &Vec<String>,
) -> (r: Result<BuildPlan, AppError>)
    ensures
        error::viewed(r) == plan_of(
            rebuild,
            clean,
            output,
            list::optional_str(extension),
            extra@.len() > 0,
        ),
{
    let wanted = match extension {
        Some(named) => Some(named.to_owned()),
        None => if output {
            Some("elf".to_owned())
        } else {
            None
        },
    };
    if wanted.is_none() {
        return Ok(BuildPlan { action: Some(action_for(rebuild, clean)), extension: None });
    }
    if clean {
        return Err(AppError::Usage("--clean cannot be used with -o or -e".to_owned()));
    }
    if rebuild {
        return Ok(BuildPlan { action: Some(Action::Rebuild), extension: wanted });
    }
    if extra.len() > 0 {
        return Err(
            AppError::Usage(
                "backend arguments require -f when an artifact is looked up".to_owned(),
            ),
        );
    }
    Ok(BuildPlan { action: None, extension: wanted })
}

/// The backend that is used: the one that is asked for, or else the one that the
/// file sets, or else Studio.
pub open spec fn backend_of(choice: Option<Backend>, config: config::ConfigView) -> Backend {
    match choice {
        Some(backend) => backend,
        None => match config.defaults.backend {
            Some(name) => if text::alike(name, "msbuild"@) {
                Backend::MsBuild
            } else {
                Backend::Studio
            },
            None => Backend::Studio,
        },
    }
}

/// The backend that is used.
pub fn backend_for(choice: Option<Backend>, config: &Config) -> (r: Backend)
    ensures
        r == backend_of(choice, config@),
{
    if let Some(backend) = choice {
        return backend;
    }
    match &config.defaults.backend {
        Some(name) => if text::eq_ignore_case(name.as_str(), "msbuild") {
            Backend::MsBuild
        } else {
            Backend::Studio
        },
        None => Backend::Studio,
    }
}

/// Where a solution or project is to be found.
#[derive(Clone, Debug)]
pub enum Source {
    /// At a path that the file gives, where this project is meant inside it.
    Given(String, Option<String>),
    /// Wherever discovery finds it, where this project is meant inside it.
    Discovered(Option<String>),
}

/// What a source stands for.
pub enum SourceView {
    Given(Seq<char>, Option<Seq<char>>),
    Discovered(Option<Seq<char>>),
}

impl View for Source {
    type V = SourceView;

    open spec fn view(&self) -> SourceView {
        match self {
            Source::Given(file, inner) => SourceView::Given(file@, list::optional(*inner)),
            Source::Discovered(inner) => SourceView::Discovered(list::optional(*inner)),
        }
    }
}

/// The name of the project that is meant, if one is named anywhere.
pub open spec fn wanted_name(config: config::ConfigView, wanted: Option<Seq<char>>) -> Option<
    Seq<char>,
> {
    match wanted {
        Some(name) => Some(name),
        None => config.defaults.project,
    }
}

/// Where what is meant is to be found. A name is either a solution named in the
/// file or a project inside the solution that discovery finds.
pub open spec fn source_of(
    config: config::ConfigView,
    paths: host::PathsView,
    wanted: Option<Seq<char>>,
) -> Result<SourceView, Failure> {
    match wanted_name(config, wanted) {
        None => Ok(SourceView::Discovered(None)),
        Some(name) => match config::project_named(config.projects, name) {
            None => Ok(SourceView::Discovered(Some(name))),
            Some(entry) => match entry.solution {
                None => Err(
                    Failure::Usage(
                        "[projects."@ + name + "] in atp.toml has no solution path"@,
                    ),
                ),
                Some(file) => match host::native(paths, file) {
                    Err(failure) => Err(failure),
                    Ok(found) => Ok(
                        SourceView::Given(
                            config::resolved(paths.host, config.directory, found),
                            entry.project,
                        ),
                    ),
                },
            },
        },
    }
}

/// The name of the project that is meant, if one is named anywhere.
pub fn name_for(config: &Config, wanted: Option<&str>) -> (r: Option<String>)
    ensures
        list::optional(r) == wanted_name(config@, list::optional_str(wanted)),
{
    match wanted {
        Some(name) => Some(name.to_owned()),
        None => match &config.defaults.project {
            Some(name) => Some(name.as_str().to_owned()),
            None => None,
        },
    }
}

/// Settles where what is meant is to be found.
pub fn source_for(config: &Config, paths: &Paths, wanted: Option<&str>) -> (r: Result<
    Source,
    AppError,
>)
    ensures
        error::viewed(r) == source_of(config@, paths@, list::optional_str(wanted)),
{
    match name_for(config, wanted) {
        None => Ok(Source::Discovered(None)),
        Some(name) => match config.projects.get(name.as_str()) {
            None => Ok(Source::Discovered(Some(name))),
            Some(entry) => match &entry.solution {
                None => Err(
                    AppError::Usage(
                        text::cat3(
                            "[projects.",
                            name.as_str(),
                            "] in atp.toml has no solution path",
                        ),
                    ),
                ),
                Some(file) => match paths.to_native(file.as_str()) {
                    Err(error) => Err(error),
                    Ok(found) => {
                        let resolved = config.resolve(paths.host, found.as_str());
                        let inner = match &entry.project {
                            Some(project) => Some(project.as_str().to_owned()),
                            None => None,
                        };
                        Ok(Source::Given(resolved, inner))
                    },
                },
            },
        },
    }
}

/// Why nothing was discovered. Where a name matched nothing in a file that names
/// projects, and there is no solution either, both are said at once.
pub open spec fn discovery_failure(
    config: config::ConfigView,
    name: Option<Seq<char>>,
    failure: Failure,
) -> Failure {
    match name {
        Some(wanted) => if config.projects.len() > 0 {
            Failure::Usage(
                wanted + " is not in atp.toml, which names: "@ + text::joined(
                    config::project_names(config.projects),
                    ", "@,
                ) + "\n"@ + error::message(failure),
            )
        } else {
            failure
        },
        None => failure,
    }
}

/// Explains why nothing was discovered.
pub fn explain_discovery(config: &Config, name: Option<&str>, error: AppError) -> (r: AppError)
    ensures
        r@ == discovery_failure(config@, list::optional_str(name), error@),
{
    match name {
        Some(wanted) => if config.projects.is_empty() {
            error
        } else {
            let names = text::join(&config.names(), ", ");
            AppError::Usage(
                text::cat5(
                    wanted,
                    " is not in atp.toml, which names: ",
                    names.as_str(),
                    "\n",
                    error.message().as_str(),
                ),
            )
        },
        None => error,
    }
}

/// That a path leads nowhere.
pub fn no_such_file(file: &str) -> (r: AppError)
    ensures
        r@ == Failure::Usage(file@ + " does not exist"@),
{
    AppError::Usage(text::cat2(file, " does not exist"))
}

/// Whether a path is that of a solution.
pub open spec fn names_solution(host: Host, file: Seq<char>) -> bool {
    search::extends(host, file, "atsln"@)
}

/// Whether a path is that of a solution, rather than of a project.
pub fn is_solution(host: Host, file: &str) -> (r: bool)
    ensures
        r == names_solution(host, file@),
{
    search::has_extension(host, file, "atsln")
}

/// The name by which Studio is told which project is meant, which it needs only
/// when there is a choice.
pub open spec fn name_to_pass(solution: solution::SolutionView, name: Seq<char>) -> Option<
    Seq<char>,
> {
    if solution.entries.len() > 1 {
        Some(name)
    } else {
        None
    }
}

/// The name by which Studio is told which project is meant.
pub fn name_for_studio(solution: &Solution, name: &str) -> (r: Option<String>)
    ensures
        list::optional(r) == name_to_pass(solution@, name@),
{
    assert(solution@.entries.len() == solution.entries@.len());
    if solution.entries.len() > 1 {
        Some(name.to_owned())
    } else {
        None
    }
}

/// A project inside a solution: its file, and the name to tell Studio.
#[derive(Clone, Debug)]
pub struct Inside {
    pub file: String,
    pub name: Option<String>,
}

/// What a project inside a solution stands for.
pub struct InsideView {
    pub file: Seq<char>,
    pub name: Option<Seq<char>>,
}

impl View for Inside {
    type V = InsideView;

    open spec fn view(&self) -> InsideView {
        InsideView { file: self.file@, name: list::optional(self.name) }
    }
}

/// The project of a solution that is meant.
pub open spec fn inside_of(
    host: Host,
    solution: solution::SolutionView,
    wanted: Option<Seq<char>>,
) -> Result<InsideView, Failure> {
    match solution::chosen_entry(solution, wanted) {
        Err(failure) => Err(failure),
        Ok(entry) => Ok(
            InsideView {
                file: solution::entry_path(host, solution.path, entry),
                name: name_to_pass(solution, entry.name),
            },
        ),
    }
}

/// Finds the project of a solution that is meant.
pub fn open(host: Host, solution: &Solution, wanted: Option<&str>) -> (r: Result<Inside, AppError>)
    ensures
        error::viewed(r) == inside_of(host, solution@, list::optional_str(wanted)),
{
    match solution.entry(wanted) {
        Err(error) => Err(error),
        Ok(entry) => Ok(
            Inside {
                file: solution.project_path(host, entry),
                name: name_for_studio(solution, entry.name.as_str()),
            },
        ),
    }
}

/// What an optional solution stands for.
pub open spec fn optional_solution(solution: Option<Solution>) -> Option<solution::SolutionView> {
    match solution {
        Some(held) => Some(held@),
        None => None,
    }
}

/// A project, before a configuration has been chosen for it.
///
/// Showing which configurations there are has to get this far without one.
#[derive(Clone, Debug)]
pub struct Located {
    pub solution: Option<Solution>,
    pub project: Project,
    pub project_name: Option<String>,
    /// The name that the user or the file used, if any.
    pub name: Option<String>,
}

/// What a located project stands for.
pub struct LocatedView {
    pub solution: Option<solution::SolutionView>,
    pub project: solution::ProjectView,
    pub project_name: Option<Seq<char>>,
    pub name: Option<Seq<char>>,
}

impl View for Located {
    type V = LocatedView;

    open spec fn view(&self) -> LocatedView {
        LocatedView {
            solution: optional_solution(self.solution),
            project: self.project@,
            project_name: list::optional(self.project_name),
            name: list::optional(self.name),
        }
    }
}

/// A project that can be built with a backend. MSBuild can build a bare project
/// file, Studio cannot.
pub open spec fn buildable(located: LocatedView, backend: Backend) -> Result<LocatedView, Failure> {
    if located.solution is None && backend == Backend::Studio {
        Err(
            Failure::Usage(
                located.project.path
                    + " has no solution beside it, and Atmel Studio cannot build a project on its own.\nCreate a solution for it, or build with --backend msbuild."@,
            ),
        )
    } else {
        Ok(located)
    }
}

/// The configuration names that there are, preferring the solution's order.
pub open spec fn offered(
    solution: Option<solution::SolutionView>,
    project: solution::ProjectView,
) -> Seq<Seq<char>> {
    match solution {
        Some(held) => if held.configurations.len() > 0 {
            held.configurations
        } else {
            project.configurations
        },
        None => project.configurations,
    }
}

/// The configuration names, preferring the solution's order.
pub fn configurations(solution: &Option<Solution>, project: &Project) -> (r: Vec<String>)
    ensures
        list::texts(r@) == offered(optional_solution(*solution), project@),
{
    match solution {
        Some(held) => {
            assert(held@.configurations.len() == held.configurations@.len());
            if held.configurations.len() > 0 {
                return text::copy_list(&held.configurations);
            }
        },
        None => {},
    }
    text::copy_list(&project.configurations)
}

impl Located {
    /// A project that was found, unless the backend cannot build it.
    pub fn find(
        solution: Option<Solution>,
        project: Project,
        project_name: Option<String>,
        name: Option<String>,
        backend: Backend,
    ) -> (r: Result<Self, AppError>)
        ensures
            error::viewed(r) == buildable(
                (LocatedView {
                    solution: optional_solution(solution),
                    project: project@,
                    project_name: list::optional(project_name),
                    name: list::optional(name),
                }),
                backend,
            ),
    {
        if solution.is_none() && backend == Backend::Studio {
            return Err(
                AppError::Usage(
                    text::cat2(
                        project.path.as_str(),
                        " has no solution beside it, and Atmel Studio cannot build a project on its own.\nCreate a solution for it, or build with --backend msbuild.",
                    ),
                ),
            );
        }
        Ok(
            Located {
                solution: solution,
                project: project,
                project_name: project_name,
                name: name,
            },
        )
    }

    /// The configuration names this project offers, in the solution's order.
    pub fn configurations(&self) -> (r: Vec<String>)
        ensures
            list::texts(r@) == offered(self@.solution, self@.project),
    {
        configurations(&self.solution, &self.project)
    }
}

/// The configuration that the file asks for, for a project of that name.
pub open spec fn configured(config: config::ConfigView, name: Option<Seq<char>>) -> Option<
    Seq<char>,
> {
    match name {
        Some(held) => match config::project_named(config.projects, held) {
            Some(entry) => entry.configuration,
            None => None,
        },
        None => None,
    }
}

/// The configuration a named project asked for in the file.
pub fn configured_configuration(config: &Config, name: Option<&str>) -> (r: Option<String>)
    ensures
        list::optional(r) == configured(config@, list::optional_str(name)),
{
    match name {
        Some(held) => match config.projects.get(held) {
            Some(entry) => match &entry.configuration {
                Some(configuration) => Some(configuration.as_str().to_owned()),
                None => None,
            },
            None => None,
        },
        None => None,
    }
}

/// The configuration that is used where none is asked for: the one that the file
/// sets for the project, or else the one that it sets for all.
pub open spec fn default_configuration(config: config::ConfigView, name: Option<Seq<char>>) -> Option<
    Seq<char>,
> {
    match configured(config, name) {
        Some(configuration) => Some(configuration),
        None => config.defaults.configuration,
    }
}

/// The configuration that is used where none is asked for.
pub fn usual_configuration(config: &Config, name: Option<&str>) -> (r: Option<String>)
    ensures
        list::optional(r) == default_configuration(config@, list::optional_str(name)),
{
    match configured_configuration(config, name) {
        Some(configuration) => Some(configuration),
        None => match &config.defaults.configuration {
            Some(configuration) => Some(configuration.as_str().to_owned()),
            None => None,
        },
    }
}

/// The first text at or after `from` that is the same as another, whatever its
/// case.
pub open spec fn alike_from(names: Seq<Seq<char>>, name: Seq<char>, from: int) -> Option<Seq<char>>
    decreases names.len() - from,
{
    if from < 0 || from >= names.len() {
        None
    } else if text::alike(names[from], name) {
        Some(names[from])
    } else {
        alike_from(names, name, from + 1)
    }
}

/// The configuration that is meant, or a list of those that there are.
pub open spec fn chosen(
    explicit: Option<Seq<char>>,
    config: config::ConfigView,
    located: LocatedView,
) -> Result<Seq<char>, Failure> {
    let available = offered(located.solution, located.project);
    let wanted = match explicit {
        Some(name) => Some(name),
        None => default_configuration(config, located.name),
    };
    match wanted {
        Some(name) => match alike_from(available, name, 0) {
            Some(found) => Ok(found),
            None => Err(
                Failure::Usage(
                    located.project.name + " has no configuration named "@ + name
                        + ".\nIt offers: "@ + text::joined(available, ", "@),
                ),
            ),
        },
        None => if available.len() == 1 {
            Ok(available[0])
        } else {
            Err(
                Failure::Usage(
                    located.project.name
                        + " offers several configurations, so choose one with --configuration:\n  "@
                        + text::joined(available, "\n  "@)
                        + "\nSet a default with [defaults] configuration in atp.toml."@,
                ),
            )
        },
    }
}

/// Settles on a configuration name, or lists the ones that exist.
pub fn choose_configuration(explicit: Option<&str>, config: &Config, located: &Located) -> (r: Result<
    String,
    AppError,
>)
    ensures
        error::viewed(r) == chosen(list::optional_str(explicit), config@, located@),
{
    let available = located.configurations();
    let ghost all = list::texts(available@);
    assert(all.len() == available@.len());
    let project = located.project.name.as_str();
    let wanted = match explicit {
        Some(name) => Some(name.to_owned()),
        None => usual_configuration(config, list::borrowed(&located.name)),
    };
    match wanted {
        Some(name) => {
            let mut i: usize = 0;
            while i < available.len()
                invariant
                    i <= available@.len(),
                    all == list::texts(available@),
                    all == offered(located@.solution, located@.project),
                    all.len() == available@.len(),
                    list::optional(wanted) == Some(name@),
                    list::optional(wanted) == match explicit {
                        Some(given) => Some(given@),
                        None => default_configuration(config@, located@.name),
                    },
                    alike_from(all, name@, 0) == alike_from(all, name@, i as int),
                decreases available@.len() - i,
            {
                assert(all[i as int] == available@[i as int]@);
                if text::eq_ignore_case(available[i].as_str(), name.as_str()) {
                    return Ok(available[i].as_str().to_owned());
                }
                i += 1;
            }
            let names = text::join(&available, ", ");
            Err(
                AppError::Usage(
                    text::cat5(
                        project,
                        " has no configuration named ",
                        name.as_str(),
                        ".\nIt offers: ",
                        names.as_str(),
                    ),
                ),
            )
        },
        None => {
            if available.len() == 1 {
                assert(all[0] == available@[0]@);
                return Ok(available[0].as_str().to_owned());
            }
            let names = text::join(&available, "\n  ");
            Err(
                AppError::Usage(
                    text::cat4(
                        project,
                        " offers several configurations, so choose one with --configuration:\n  ",
                        names.as_str(),
                        "\nSet a default with [defaults] configuration in atp.toml.",
                    ),
                ),
            )
        },
    }
}

/// A choice is one of the names.
proof fn lemma_alike_from(names: Seq<Seq<char>>, name: Seq<char>, from: int)
    requires
        0 <= from,
    ensures
        match alike_from(names, name, from) {
            Some(found) => names.contains(found) && text::alike(found, name),
            None => forall|i: int|
                from <= i < names.len() ==> !text::alike(#[trigger] names[i], name),
        },
    decreases names.len() - from,
{
    if from < names.len() && !text::alike(names[from], name) {
        lemma_alike_from(names, name, from + 1);
    }
}

/// A configuration that is chosen is one that the project offers.
pub proof fn lemma_choice_is_offered(
    explicit: Option<Seq<char>>,
    config: config::ConfigView,
    located: LocatedView,
)
    requires
        chosen(explicit, config, located) is Ok,
    ensures
        offered(located.solution, located.project).contains(
            chosen(explicit, config, located)->Ok_0,
        ),
{
    let available = offered(located.solution, located.project);
    let wanted = match explicit {
        Some(name) => Some(name),
        None => default_configuration(config, located.name),
    };
    match wanted {
        Some(name) => {
            lemma_alike_from(available, name, 0);
        },
        None => {
            assert(available.contains(available[0]));
        },
    }
}

/// A configuration is never guessed: where neither the user nor the file names one,
/// a project gets one only if it offers no other.
pub proof fn lemma_never_guesses(config: config::ConfigView, located: LocatedView)
    requires
        default_configuration(config, located.name) is None,
    ensures
        chosen(None, config, located) is Ok <==> offered(located.solution, located.project).len()
            == 1,
{
}

/// What the command line names counts, whatever the file says; what the file says of
/// the project counts before what it says of all.
pub proof fn lemma_later_choice_wins(
    name: Seq<char>,
    config: config::ConfigView,
    other: config::ConfigView,
    located: LocatedView,
)
    ensures
        chosen(Some(name), config, located) == chosen(Some(name), other, located),
        configured(config, located.name) == Some(name) ==> chosen(None, config, located) == chosen(
            Some(name),
            config,
            located,
        ),
        configured(config, located.name) is None && config.defaults.configuration == Some(name)
            ==> chosen(None, config, located) == chosen(Some(name), config, located),
{
}

/// The name of a configuration is matched whatever its case: a name that differs
/// from an offered one in case alone is never refused.
pub proof fn lemma_case_does_not_matter(
    explicit: Seq<char>,
    config: config::ConfigView,
    located: LocatedView,
)
    ensures
        chosen(Some(explicit), config, located) is Ok <==> exists|i: int|
            0 <= i < offered(located.solution, located.project).len() && text::alike(
                #[trigger] offered(located.solution, located.project)[i],
                explicit,
            ),
        chosen(Some(explicit), config, located) matches Ok(found) ==> text::alike(found, explicit),
{
    let available = offered(located.solution, located.project);
    lemma_alike_from(available, explicit, 0);
    if let Some(found) = alike_from(available, explicit, 0) {
        let i = choose|i: int| 0 <= i < available.len() && available[i] == found;
        assert(text::alike(available[i], explicit));
    }
}

/// One project and configuration, resolved from every source that can name them.
#[derive(Clone, Debug)]
pub struct Target {
    pub solution: Option<Solution>,
    pub project: Project,
    /// Passed to Studio when the solution holds more than one project.
    pub project_name: Option<String>,
    pub configuration: String,
}

/// What a target stands for.
pub struct TargetView {
    pub solution: Option<solution::SolutionView>,
    pub project: solution::ProjectView,
    pub project_name: Option<Seq<char>>,
    pub configuration: Seq<char>,
}

impl View for Target {
    type V = TargetView;

    open spec fn view(&self) -> TargetView {
        TargetView {
            solution: optional_solution(self.solution),
            project: self.project@,
            project_name: list::optional(self.project_name),
            configuration: self.configuration@,
        }
    }
}

/// What a located project comes to with the configuration that is meant.
pub open spec fn target_for(
    config: config::ConfigView,
    located: LocatedView,
    configuration: Option<Seq<char>>,
) -> Result<TargetView, Failure> {
    match chosen(configuration, config, located) {
        Err(failure) => Err(failure),
        Ok(name) => Ok(
            TargetView {
                solution: located.solution,
                project: located.project,
                project_name: located.project_name,
                configuration: name,
            },
        ),
    }
}

/// What a project and a configuration are called together.
pub open spec fn target_label(target: TargetView) -> Seq<char> {
    target.project.name + " ["@ + target.configuration + "]"@
}

/// What a build of a target asks for.
pub open spec fn request_of(
    target: TargetView,
    action: Action,
    backend: Backend,
    extra: Seq<Seq<char>>,
) -> builder::RequestView {
    builder::RequestView {
        solution: match target.solution {
            Some(held) => held.path,
            None => target.project.path,
        },
        project: target.project,
        project_name: target.project_name,
        configuration: target.configuration,
        action: action,
        backend: backend,
        extra: extra,
    }
}

impl Target {
    /// Settles on a configuration for a project that has been found.
    pub fn resolve(config: &Config, located: Located, configuration: Option<&str>) -> (r: Result<
        Self,
        AppError,
    >)
        ensures
            error::viewed(r) == target_for(config@, located@, list::optional_str(configuration)),
    {
        match choose_configuration(configuration, config, &located) {
            Err(error) => Err(error),
            Ok(name) => Ok(
                Target {
                    solution: located.solution,
                    project: located.project,
                    project_name: located.project_name,
                    configuration: name,
                },
            ),
        }
    }

    /// What the project and the configuration are called together.
    pub fn label(&self) -> (r: String)
        ensures
            r@ == target_label(self@),
    {
        text::cat4(self.project.name.as_str(), " [", self.configuration.as_str(), "]")
    }

    /// What a build of this target asks for.
    pub fn request(self, action: Action, backend: Backend, extra: Vec<String>) -> (r: Request)
        ensures
            r@ == request_of(self@, action, backend, list::texts(extra@)),
    {
        let solution = match &self.solution {
            Some(held) => held.path.as_str().to_owned(),
            None => self.project.path.as_str().to_owned(),
        };
        Request {
            solution: solution,
            project: self.project,
            project_name: self.project_name,
            configuration: self.configuration,
            action: action,
            backend: backend,
            extra: extra,
        }
    }
}

/// How a build ended, apart from what its log says.
#[derive(Clone, Debug)]
pub struct Ending {
    pub action: Action,
    /// What the project and the configuration are called together.
    pub label: String,
    /// How many seconds the build took, with one decimal place.
    pub seconds: String,
    pub log: String,
    pub exit_code: Option<i32>,
    /// How full the program memory is, with one decimal place.
    pub program_percent: String,
    /// How full the data memory is, with one decimal place.
    pub data_percent: String,
    pub artifact: String,
    /// The size of the artifact, if there is one.
    pub size: Option<u64>,
}

/// What an ending stands for.
pub struct EndingView {
    pub action: Action,
    pub label: Seq<char>,
    pub seconds: Seq<char>,
    pub log: Seq<char>,
    pub exit_code: Option<i32>,
    pub program_percent: Seq<char>,
    pub data_percent: Seq<char>,
    pub artifact: Seq<char>,
    pub size: Option<u64>,
}

impl View for Ending {
    type V = EndingView;

    open spec fn view(&self) -> EndingView {
        EndingView {
            action: self.action,
            label: self.label@,
            seconds: self.seconds@,
            log: self.log@,
            exit_code: self.exit_code,
            program_percent: self.program_percent@,
            data_percent: self.data_percent@,
            artifact: self.artifact@,
            size: self.size,
        }
    }
}

/// The line that says how a build went: what was built, for how long, and how many
/// messages there were.
pub open spec fn went_line(
    front: Seq<char>,
    ending: EndingView,
    diagnostics: Seq<report::DiagnosticView>,
) -> Seq<char> {
    front + " "@ + ending.label + " in "@ + ending.seconds + "s \u{2014} "@ + counted(
        report::tally(diagnostics, report::Severity::Error),
        "error"@,
    ) + ", "@ + counted(report::tally(diagnostics, report::Severity::Warning), "warning"@)
}

/// The lines that end a build that failed. Studio reports success in its exit code
/// even when nothing built, so it is said when the two disagree.
pub open spec fn failure_lines(
    ending: EndingView,
    diagnostics: Seq<report::DiagnosticView>,
    style: Style,
    host: Host,
    base: Seq<char>,
) -> Seq<Seq<char>> {
    let lines = seq![
        went_line(
            report::painted(style, "1;31"@, report::labelled("Failed"@)),
            ending,
            diagnostics,
        ),
        report::painted(style, "2"@, report::labelled("Log"@)) + " "@ + path::below(
            host,
            ending.log,
            base,
        ),
    ];
    if ending.exit_code == Some(0i32) {
        lines.push(
            report::painted(style, "2"@, report::labelled("note"@)) + " "@ + report::painted(
                style,
                "2"@,
                "Atmel Studio exited 0; the log is what decided this"@,
            ),
        )
    } else {
        lines
    }
}

/// The line that tells how full the memory is, where the log tells of both.
pub open spec fn memory_lines(
    ending: EndingView,
    program: Option<report::MemoryView>,
    data: Option<report::MemoryView>,
    style: Style,
) -> Seq<Seq<char>> {
    match (program, data) {
        (Some(first), Some(second)) => seq![
            report::painted(style, "1;36"@, report::labelled("Memory"@)) + " Program "@
                + report::grouped(number::decimal(first.bytes)) + " B ("@ + ending.program_percent
                + "% full) \u{b7} Data "@ + report::grouped(number::decimal(second.bytes))
                + " B ("@ + ending.data_percent + "% full)"@,
        ],
        _ => Seq::empty(),
    }
}

/// The line that tells where the artifact is, where there is one.
pub open spec fn artifact_lines(
    ending: EndingView,
    style: Style,
    host: Host,
    base: Seq<char>,
) -> Seq<Seq<char>> {
    match ending.size {
        Some(bytes) => seq![
            report::painted(style, "1;36"@, report::labelled("Output"@)) + " "@ + path::below(
                host,
                ending.artifact,
                base,
            ) + " ("@ + report::size_text(bytes as nat) + ")"@,
        ],
        None => Seq::empty(),
    }
}

/// The line that says that the exit code and the log disagree, which they do where a
/// build that the log calls successful ended with another exit code than 0.
pub open spec fn disagreement_lines(exit_code: Option<i32>, style: Style) -> Seq<Seq<char>> {
    match exit_code {
        Some(code) => if code != 0 {
            seq![
                report::painted(style, "2"@, report::labelled("note"@)) + " "@ + report::painted(
                    style,
                    "2"@,
                    "Atmel Studio exited "@ + number::signed(code as int)
                        + "; the log is what decided this"@,
                ),
            ]
        } else {
            Seq::empty()
        },
        None => Seq::empty(),
    }
}

/// The lines that end a build that succeeded.
pub open spec fn success_lines(
    ending: EndingView,
    report: report::ReportView,
    style: Style,
    host: Host,
    base: Seq<char>,
) -> Seq<Seq<char>> {
    let word = if ending.action == Action::Clean {
        "Cleaned"@
    } else {
        "Finished"@
    };
    let first = seq![
        went_line(
            report::painted(style, "1;32"@, report::labelled(word)),
            ending,
            report.diagnostics,
        ),
    ];
    let told = if ending.action == Action::Clean {
        first
    } else {
        first + memory_lines(ending, report.program, report.data, style) + artifact_lines(
            ending,
            style,
            host,
            base,
        )
    };
    told + disagreement_lines(ending.exit_code, style)
}

/// The lines that end a build.
pub open spec fn ending_lines(
    ending: EndingView,
    report: report::ReportView,
    style: Style,
    host: Host,
    base: Seq<char>,
    quiet: bool,
) -> Seq<Seq<char>> {
    if !report.succeeded {
        failure_lines(ending, report.diagnostics, style, host, base)
    } else if quiet {
        Seq::empty()
    } else {
        success_lines(ending, report, style, host, base)
    }
}

/// The line that says how a build went.
fn tell_went(front: &str, ending: &Ending, report: &Report) -> (r: String)
    requires
        report::total(report@.diagnostics) <= usize::MAX,
    ensures
        r@ == went_line(front@, ending@, report@.diagnostics),
{
    let errors = plural(report.errors(), "error");
    let warnings = plural(report.warnings(), "warning");
    let took = text::cat5(front, " ", ending.label.as_str(), " in ", ending.seconds.as_str());
    text::cat5(took.as_str(), "s \u{2014} ", errors.as_str(), ", ", warnings.as_str())
}

/// The lines that end a build that failed.
fn tell_failure(ending: &Ending, report: &Report, style: &Style, host: Host, base: &str) -> (r: Vec<
    String,
>)
    requires
        report::total(report@.diagnostics) <= usize::MAX,
    ensures
        list::texts(r@) == failure_lines(ending@, report@.diagnostics, *style, host, base@),
{
    let mut lines: Vec<String> = Vec::new();
    let front = style.red(report::label("Failed").as_str());
    lines.push(tell_went(front.as_str(), ending, report));
    let place = style.dim(report::label("Log").as_str());
    let log = report::relative_to(host, ending.log.as_str(), base);
    lines.push(text::cat3(place.as_str(), " ", log.as_str()));
    if let Some(code) = ending.exit_code {
        if code == 0 {
            let note = style.dim(report::label("note").as_str());
            let words = style.dim("Atmel Studio exited 0; the log is what decided this");
            lines.push(text::cat3(note.as_str(), " ", words.as_str()));
        }
    }
    assert(list::texts(lines@) == failure_lines(ending@, report@.diagnostics, *style, host, base@));
    lines
}

/// The lines that end a build that succeeded.
fn tell_success(ending: &Ending, report: &Report, style: &Style, host: Host, base: &str) -> (r: Vec<
    String,
>)
    requires
        report::total(report@.diagnostics) <= usize::MAX,
    ensures
        list::texts(r@) == success_lines(ending@, report@, *style, host, base@),
{
    let mut lines: Vec<String> = Vec::new();
    let cleaned = ending.action == Action::Clean;
    let word = if cleaned {
        "Cleaned"
    } else {
        "Finished"
    };
    let front = style.green(report::label(word).as_str());
    let first = tell_went(front.as_str(), ending, report);
    let ghost went = first@;
    lines.push(first);
    assert(list::texts(lines@) == seq![went]);
    let ghost mut told = seq![went];
    if !cleaned {
        if let (Some(program), Some(data)) = (&report.program, &report.data) {
            let front = style.cyan(report::label("Memory").as_str());
            let one = report::thousands(program.bytes);
            let other = report::thousands(data.bytes);
            let left = text::cat5(
                front.as_str(),
                " Program ",
                one.as_str(),
                " B (",
                ending.program_percent.as_str(),
            );
            let right = text::cat5(
                left.as_str(),
                "% full) \u{b7} Data ",
                other.as_str(),
                " B (",
                ending.data_percent.as_str(),
            );
            lines.push(text::cat2(right.as_str(), "% full)"));
        }
        assert(list::texts(lines@) == seq![went] + memory_lines(
            ending@,
            report@.program,
            report@.data,
            *style,
        ));
        if let Some(bytes) = ending.size {
            let front = style.cyan(report::label("Output").as_str());
            let shown = report::relative_to(host, ending.artifact.as_str(), base);
            let size = report::file_size(bytes);
            let left = text::cat4(front.as_str(), " ", shown.as_str(), " (");
            lines.push(text::cat3(left.as_str(), size.as_str(), ")"));
        }
        proof {
            told = told + memory_lines(ending@, report@.program, report@.data, *style)
                + artifact_lines(ending@, *style, host, base@);
        }
        assert(list::texts(lines@) == told);
    }
    if let Some(code) = ending.exit_code {
        if code != 0 {
            let note = style.dim(report::label("note").as_str());
            let number = number::signed_string(code);
            let words = text::cat3(
                "Atmel Studio exited ",
                number.as_str(),
                "; the log is what decided this",
            );
            lines.push(text::cat3(note.as_str(), " ", style.dim(words.as_str()).as_str()));
        }
    }
    assert(list::texts(lines@) == told + disagreement_lines(ending@.exit_code, *style));
    lines
}

/// The lines that end a build, and whether the command succeeded.
pub fn conclude(
    ending: &Ending,
    report: &Report,
    style: &Style,
    host: Host,
    working_directory: &str,
    quiet: bool,
) -> (r: (Vec<String>, Result<(), AppError>))
    requires
        report::total(report@.diagnostics) <= usize::MAX,
    ensures
        list::texts(r.0@) == ending_lines(
            ending@,
            report@,
            *style,
            host,
            working_directory@,
            quiet,
        ),
        error::viewed(r.1) == if report@.succeeded {
            Ok(())
        } else {
            Err(Failure::Exit(1))
        },
{
    if !report.succeeded {
        let lines = tell_failure(ending, report, style, host, working_directory);
        return (lines, Err(AppError::Exit(1)));
    }
    if quiet {
        let lines: Vec<String> = Vec::new();
        assert(list::texts(lines@) == Seq::<Seq<char>>::empty());
        return (lines, Ok(()));
    }
    (tell_success(ending, report, style, host, working_directory), Ok(()))
}

/// The line that announces a build.
pub open spec fn announced(style: Style, action: Action, target: TargetView) -> Seq<char> {
    report::painted(style, "1;36"@, report::labelled(builder::verb_of(action))) + " "@
        + target_label(target)
}

/// The line that announces a build.
pub fn announce(style: &Style, action: Action, target: &Target) -> (r: String)
    ensures
        r@ == announced(*style, action, target@),
{
    let front = style.cyan(report::label(action.verb()).as_str());
    text::cat3(front.as_str(), " ", target.label().as_str())
}

/// A path from the working directory, or as it is where that is not known.
pub open spec fn from_working(host: Host, working: Option<Seq<char>>, file: Seq<char>) -> Seq<
    char,
> {
    match working {
        Some(directory) => path::joined(host, directory, file),
        None => file,
    }
}

/// A path from the working directory, or as it is where that is not known.
pub fn take_from_working(host: Host, working: Option<&str>, file: &str) -> (r: String)
    ensures
        r@ == from_working(host, list::optional_str(working), file@),
{
    match working {
        Some(directory) => path::join(host, directory, file),
        None => file.to_owned(),
    }
}

/// The artifacts directory of a target, from the working directory.
pub open spec fn directory_shown(
    host: Host,
    working: Option<Seq<char>>,
    target: TargetView,
) -> Seq<char> {
    from_working(
        host,
        working,
        solution::output_path(host, target.project, target.configuration),
    )
}

/// The artifacts directory, whether or not it exists yet.
pub fn command_output(host: Host, working: Option<&str>, target: &Target) -> (r: String)
    ensures
        r@ == directory_shown(host, list::optional_str(working), target@),
{
    let directory = target.project.output_directory(host, target.configuration.as_str());
    take_from_working(host, working, directory.as_str())
}

/// The artifact of a target with an extension, from the working directory.
pub open spec fn artifact_shown(
    host: Host,
    working: Option<Seq<char>>,
    target: TargetView,
    extension: Seq<char>,
) -> Seq<char> {
    from_working(
        host,
        working,
        solution::artifact_path(host, target.project, target.configuration, extension),
    )
}

/// The artifact of a target with an extension, whether or not it has been built.
pub fn artifact_file(host: Host, working: Option<&str>, target: &Target, extension: &str) -> (r:
    String)
    ensures
        r@ == artifact_shown(host, list::optional_str(working), target@, extension@),
{
    let file = target.project.artifact(host, target.configuration.as_str(), extension);
    take_from_working(host, working, file.as_str())
}

/// The extensions of files that have one.
pub open spec fn extensions_of(host: Host, files: Seq<Seq<char>>) -> Seq<Seq<char>>
    decreases files.len(),
{
    if files.len() == 0 {
        Seq::empty()
    } else {
        match path::extension(host, files.last()) {
            Some(extension) => extensions_of(host, files.drop_last()).push(extension),
            None => extensions_of(host, files.drop_last()),
        }
    }
}

/// Why there is no artifact with an extension, where these are the artifacts that
/// there are.
pub open spec fn missing_failure(
    host: Host,
    target: TargetView,
    extension: Seq<char>,
    file: Seq<char>,
    built: Seq<Seq<char>>,
) -> Failure {
    if built.len() == 0 {
        Failure::Runtime(
            target_label(target) + " has not been built yet. Run atp build first."@,
        )
    } else {
        Failure::Usage(
            target_label(target) + " produced no ."@ + extension + " file.\nIt produced: "@
                + text::joined(extensions_of(host, built), ", "@) + "\n"@ + file,
        )
    }
}

/// Says why there is no artifact with an extension.
pub fn missing(host: Host, target: &Target, extension: &str, file: &str, built: &Vec<String>) -> (r:
    AppError)
    ensures
        r@ == missing_failure(host, target@, extension@, file@, list::texts(built@)),
{
    let label = target.label();
    assert(list::texts(built@).len() == built@.len());
    if built.len() == 0 {
        return AppError::Runtime(
            text::cat2(label.as_str(), " has not been built yet. Run atp build first."),
        );
    }
    let ghost all = list::texts(built@);
    let mut available: Vec<String> = Vec::new();
    let mut i: usize = 0;
    assert(list::texts(available@) == Seq::<Seq<char>>::empty());
    while i < built.len()
        invariant
            i <= built@.len(),
            all == list::texts(built@),
            list::texts(available@) == extensions_of(host, all.take(i as int)),
        decreases built@.len() - i,
    {
        assert(all.take(i as int + 1).drop_last() == all.take(i as int));
        assert(all[i as int] == built@[i as int]@);
        match path::extension_of(host, built[i].as_str()) {
            Some(found) => {
                available.push(found);
            },
            None => {},
        }
        i += 1;
    }
    assert(all.take(i as int) == all);
    let names = text::join(&available, ", ");
    let left = text::cat5(
        label.as_str(),
        " produced no .",
        extension,
        " file.\nIt produced: ",
        names.as_str(),
    );
    AppError::Usage(text::cat3(left.as_str(), "\n", file))
}

/// What looking an artifact up comes to, where it is known whether its file is
/// there and what files the output directory holds.
pub open spec fn looked_up(
    host: Host,
    working: Option<Seq<char>>,
    target: TargetView,
    extension: Seq<char>,
    present: bool,
    files: Seq<Seq<char>>,
) -> Result<Seq<char>, Failure> {
    let file = artifact_shown(host, working, target, extension);
    if present {
        Ok(file)
    } else {
        let stem = solution::expanded(
            host,
            target.project,
            target.project.output_file_name,
            target.configuration,
        );
        Err(
            missing_failure(
                host,
                target,
                extension,
                file,
                solution::ranked_artifacts(host, stem, files),
            ),
        )
    }
}

/// Looks an artifact up.
pub fn lookup(
    host: Host,
    working: Option<&str>,
    target: &Target,
    extension: &str,
    present: bool,
    files: &Vec<String>,
) -> (r: Result<String, AppError>)
    ensures
        error::viewed(r) == looked_up(
            host,
            list::optional_str(working),
            target@,
            extension@,
            present,
            list::texts(files@),
        ),
{
    let file = artifact_file(host, working, target, extension);
    if present {
        return Ok(file);
    }
    let built = target.project.artifacts(host, target.configuration.as_str(), files);
    Err(missing(host, target, extension, file.as_str(), &built))
}

/// A mark behind what is used where nothing else is asked for.
pub open spec fn default_mark(default: bool) -> Seq<char> {
    if default {
        " (default)"@
    } else {
        Seq::empty()
    }
}

/// The lines that show a project that the file names.
pub open spec fn named_lines(
    named: config::NamedView,
    config: config::ConfigView,
    paths: host::PathsView,
) -> Seq<Seq<char>> {
    let first = seq![
        named.name + default_mark(config.defaults.project == Some(named.name)),
    ];
    let second = match named.entry.description {
        Some(description) => first.push("    "@ + description),
        None => first,
    };
    match named.entry.solution {
        Some(file) => second.push(
            "    "@ + match host::native(paths, file) {
                Ok(found) => config::resolved(paths.host, config.directory, found),
                Err(_) => file,
            },
        ),
        None => second,
    }
}

/// The lines that show some projects that the file names.
pub open spec fn all_named_lines(
    projects: Seq<config::NamedView>,
    config: config::ConfigView,
    paths: host::PathsView,
) -> Seq<Seq<char>>
    decreases projects.len(),
{
    if projects.len() == 0 {
        Seq::empty()
    } else {
        all_named_lines(projects.drop_last(), config, paths) + named_lines(
            projects.last(),
            config,
            paths,
        )
    }
}

/// The lines that show the projects of a solution.
pub open spec fn solution_lines(solution: solution::SolutionView) -> Seq<Seq<char>> {
    seq!["in "@ + solution.path + ":"@] + solution.entries.map_values(
        |entry: solution::EntryView| "    "@ + entry.name,
    )
}

/// The lines that list the projects that can be built: those that the file names,
/// and those of the solution that was found here, if one was.
pub open spec fn project_lines(
    config: config::ConfigView,
    paths: host::PathsView,
    here: Option<solution::SolutionView>,
) -> Seq<Seq<char>> {
    let named = all_named_lines(config.projects, config, paths);
    match here {
        Some(solution) => if config.projects.len() > 0 {
            named.push(Seq::empty()) + solution_lines(solution)
        } else {
            solution_lines(solution)
        },
        None => if config.projects.len() > 0 {
            named
        } else {
            seq!["no projects configured, and no solution found here"@]
        },
    }
}

/// Adds the lines that show a project that the file names.
fn tell_named(out: &mut Vec<String>, named: &config::Named, config: &Config, paths: &Paths)
    ensures
        list::texts(final(out)@) == list::texts(old(out)@) + named_lines(named@, config@, paths@),
{
    let ghost had = list::texts(out@);
    let name = named.name.as_str();
    let default = match &config.defaults.project {
        Some(project) => text::same_str(project.as_str(), name),
        None => false,
    };
    if default {
        out.push(text::cat2(name, " (default)"));
    } else {
        out.push(name.to_owned());
        assert(name@ + Seq::<char>::empty() == name@);
    }
    if let Some(description) = &named.entry.description {
        out.push(text::cat2("    ", description.as_str()));
    }
    if let Some(file) = &named.entry.solution {
        let shown = match paths.to_native(file.as_str()) {
            Ok(found) => config.resolve(paths.host, found.as_str()),
            Err(_) => file.as_str().to_owned(),
        };
        out.push(text::cat2("    ", shown.as_str()));
    }
    assert(list::texts(out@) == had + named_lines(named@, config@, paths@));
}

/// Adds the lines that show the projects of a solution.
fn tell_solution(out: &mut Vec<String>, solution: &Solution)
    ensures
        list::texts(final(out)@) == list::texts(old(out)@) + solution_lines(solution@),
{
    let ghost had = list::texts(out@);
    let ghost rest = solution@.entries.map_values(
        |entry: solution::EntryView| "    "@ + entry.name,
    );
    let first = text::cat3("in ", solution.path.as_str(), ":");
    let ghost front = had.push(first@);
    out.push(first);
    let mut i: usize = 0;
    assert(front + rest.take(0) == front);
    while i < solution.entries.len()
        invariant
            i <= solution.entries@.len(),
            rest == order::views(solution.entries@).map_values(
                |entry: solution::EntryView| "    "@ + entry.name,
            ),
            list::texts(out@) == front + rest.take(i as int),
        decreases solution.entries@.len() - i,
    {
        let line = text::cat2("    ", solution.entries[i].name.as_str());
        assert(order::views(solution.entries@)[i as int] == solution.entries@[i as int]@);
        assert(rest[i as int] == line@);
        out.push(line);
        i += 1;
        assert(list::texts(out@) == front + rest.take(i as int));
    }
    assert(rest.take(i as int) == rest);
    assert(front + rest == had + solution_lines(solution@));
}

/// Whether the projects of what was found here are listed, which are those of a
/// solution.
pub fn lists_projects(host: Host, file: &str) -> (r: bool)
    ensures
        r == (path::extension(host, file@) == Some("atsln"@)),
{
    match path::extension_of(host, file) {
        Some(extension) => text::same_str(extension.as_str(), "atsln"),
        None => false,
    }
}

/// The lines that list the projects that can be built.
pub fn command_projects(config: &Config, paths: &Paths, here: Option<&Solution>) -> (r: Vec<String>)
    ensures
        list::texts(r@) == project_lines(
            config@,
            paths@,
            match here {
                Some(solution) => Some(solution@),
                None => None,
            },
        ),
{
    let named = config.projects.list();
    let ghost all = config@.projects;
    let mut out: Vec<String> = Vec::new();
    let mut i: usize = 0;
    assert(all.len() == named@.len());
    assert(list::texts(out@) == Seq::<Seq<char>>::empty());
    while i < named.len()
        invariant
            i <= named@.len(),
            all == order::views(named@),
            all.len() == named@.len(),
            list::texts(out@) == all_named_lines(all.take(i as int), config@, paths@),
        decreases named@.len() - i,
    {
        assert(all.take(i as int + 1).drop_last() == all.take(i as int));
        assert(all[i as int] == named@[i as int]@);
        tell_named(&mut out, &named[i], config, paths);
        i += 1;
    }
    assert(all.take(i as int) == all);
    match here {
        Some(solution) => {
            if named.len() > 0 {
                out.push(String::new());
            } else {
                assert(Seq::<Seq<char>>::empty() + solution_lines(solution@) == solution_lines(
                    solution@,
                ));
            }
            tell_solution(&mut out, solution);
        },
        None => {
            if named.len() == 0 {
                out.push("no projects configured, and no solution found here".to_owned());
                assert(list::texts(out@) == seq![
                    "no projects configured, and no solution found here"@,
                ]);
            }
        },
    }
    out
}

/// The line that shows a project and its device.
pub open spec fn device_line(project: solution::ProjectView) -> Seq<char> {
    match project.device {
        Some(device) => project.name + " ("@ + device + ")"@,
        None => project.name,
    }
}

/// The line that shows a configuration, where this is the one that is used where
/// none is asked for.
pub open spec fn configuration_line(configuration: Seq<char>, default: Option<Seq<char>>) -> Seq<
    char,
> {
    "    "@ + configuration + default_mark(
        match default {
            Some(name) => text::alike(name, configuration),
            None => false,
        },
    )
}

/// The lines that list the configurations of a project.
pub open spec fn configuration_lines(config: config::ConfigView, located: LocatedView) -> Result<
    Seq<Seq<char>>,
    Failure,
> {
    let names = offered(located.solution, located.project);
    let default = default_configuration(config, located.name);
    if names.len() == 0 {
        Err(Failure::Runtime(located.project.name + " declares no configurations"@))
    } else {
        Ok(
            seq![device_line(located.project)] + names.map_values(
                |name: Seq<char>| configuration_line(name, default),
            ),
        )
    }
}

/// The lines that list the configurations of a project.
pub fn command_configs(config: &Config, located: &Located) -> (r: Result<Vec<String>, AppError>)
    ensures
        error::viewed_list(r) == configuration_lines(config@, located@),
{
    let names = located.configurations();
    let ghost all = list::texts(names@);
    assert(all.len() == names@.len());
    let project = located.project.name.as_str();
    if names.len() == 0 {
        return Err(AppError::Runtime(text::cat2(project, " declares no configurations")));
    }
    let default = usual_configuration(config, list::borrowed(&located.name));
    let ghost usual = list::optional(default);
    let ghost rest = all.map_values(|name: Seq<char>| configuration_line(name, usual));
    let first = match &located.project.device {
        Some(device) => text::cat4(project, " (", device.as_str(), ")"),
        None => project.to_owned(),
    };
    let ghost front = seq![first@];
    let mut out: Vec<String> = Vec::new();
    out.push(first);
    let mut i: usize = 0;
    assert(list::texts(out@) == front + rest.take(0));
    while i < names.len()
        invariant
            i <= names@.len(),
            all == list::texts(names@),
            usual == list::optional(default),
            rest == all.map_values(|name: Seq<char>| configuration_line(name, usual)),
            list::texts(out@) == front + rest.take(i as int),
        decreases names@.len() - i,
    {
        let name = names[i].as_str();
        let marked = match &default {
            Some(held) => text::eq_ignore_case(held.as_str(), name),
            None => false,
        };
        let line = if marked {
            text::cat3("    ", name, " (default)")
        } else {
            text::cat2("    ", name)
        };
        assert("    "@ + name@ + Seq::<char>::empty() == "    "@ + name@);
        assert(rest[i as int] == line@);
        out.push(line);
        i += 1;
        assert(list::texts(out@) == front + rest.take(i as int));
    }
    assert(rest.take(i as int) == rest);
    Ok(out)
}

/// A lookup never runs a build unless a rebuild is asked for, and then it rebuilds
/// everything first; a build without a lookup always runs.
pub proof fn lemma_lookup_runs_nothing(
    rebuild: bool,
    clean: bool,
    output: bool,
    extension: Option<Seq<char>>,
    arguments: bool,
)
    requires
        plan_of(rebuild, clean, output, extension, arguments) is Ok,
    ensures
        ({
            let plan = plan_of(rebuild, clean, output, extension, arguments)->Ok_0;
            &&& plan.extension is Some <==> output || extension is Some
            &&& plan.extension is Some ==> plan.action == if rebuild {
                Some(Action::Rebuild)
            } else {
                None
            }
            &&& plan.extension is None ==> plan.action is Some
            &&& plan.action is None ==> !arguments
            &&& clean ==> plan.extension is None
        }),
{
}

/// The directory and the artifacts that are printed are absolute wherever the working
/// directory is, unless a project gives its output from the current directory of some
/// drive.
pub proof fn lemma_printed_paths_absolute(
    host: Host,
    working: Seq<char>,
    target: TargetView,
    extension: Seq<char>,
)
    requires
        path::absolute(host, working),
    ensures
        ({
            let directory = solution::output_path(host, target.project, target.configuration);
            path::prefix_len(host, directory) > 0 ==> path::absolute(host, directory)
        }) ==> path::absolute(host, directory_shown(host, Some(working), target)),
        ({
            let file = solution::artifact_path(
                host,
                target.project,
                target.configuration,
                extension,
            );
            path::prefix_len(host, file) > 0 ==> path::absolute(host, file)
        }) ==> path::absolute(host, artifact_shown(host, Some(working), target, extension)),
{
    let directory = solution::output_path(host, target.project, target.configuration);
    if path::prefix_len(host, directory) > 0 ==> path::absolute(host, directory) {
        path::lemma_joined_absolute(host, working, directory);
    }
    let file = solution::artifact_path(host, target.project, target.configuration, extension);
    if path::prefix_len(host, file) > 0 ==> path::absolute(host, file) {
        path::lemma_joined_absolute(host, working, file);
    }
}

/// The Studio directory that is named: on the command line as it is written there, or
/// else in the file, from the directory that holds the file.
pub open spec fn studio_named(
    choice: Option<Seq<char>>,
    config: config::ConfigView,
    paths: host::PathsView,
) -> Result<Option<Seq<char>>, Failure> {
    match (choice, config.studio) {
        (Some(root), _) => Ok(Some(root)),
        (None, Some(root)) => match host::native(paths, root) {
            Err(failure) => Err(failure),
            Ok(found) => Ok(Some(config::resolved(paths.host, config.directory, found))),
        },
        (None, None) => Ok(None),
    }
}

/// The Studio directory that is named: on the command line, or else in the file.
pub fn studio_root(choice: Option<&str>, config: &Config, paths: &Paths) -> (r: Result<
    Option<String>,
    AppError,
>)
    ensures
        error::viewed_optional(r) == studio_named(list::optional_str(choice), config@, paths@),
{
    if let Some(root) = choice {
        return Ok(Some(root.to_owned()));
    }
    match &config.studio.root {
        Some(root) => match paths.to_native(root.as_str()) {
            Err(error) => Err(error),
            Ok(found) => Ok(Some(config.resolve(paths.host, found.as_str()))),
        },
        None => Ok(None),
    }
}

/// A project that is named on the command line is the one that counts, whatever the
/// file has as its default.
pub proof fn lemma_named_project_wins(
    config: config::ConfigView,
    other: Option<Seq<char>>,
    paths: host::PathsView,
    name: Seq<char>,
)
    ensures
        source_of(config, paths, Some(name)) == source_of(
            (config::ConfigView {
                defaults: config::DefaultsView { project: other, ..config.defaults },
                ..config
            }),
            paths,
            Some(name),
        ),
{
}

} // verus!
