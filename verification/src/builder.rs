//! Running a build and collecting the log.
//!
//! Two backends produce the same report. Atmel Studio is the one that always
//! works, because Atmel's makefile generator needs the Studio shell around it;
//! it is a windowed program, so the only way to see anything is to make it
//! write a log file and read that back. MSBuild is faster and streams its
//! output, but on many installations its makefile generator fails with a null
//! reference, so it stays opt-in.
//!
//! Starting programs and reading files is left to the caller. This module says
//! what to start and where, and what to make of the log.

use vstd::prelude::*;

use crate::error;
use crate::error::{AppError, Failure};
use crate::host;
use crate::host::{Host, Paths};
use crate::list;
use crate::number;
use crate::order;
use crate::path;
use crate::path::Place;
use crate::report;
use crate::report::Report;
use crate::solution;
use crate::solution::Project;
use crate::text;

verus! {

broadcast use {crate::list::lemma_texts_push, crate::list::lemma_pieces_push};

#[derive(Clone, Copy, PartialEq, Eq, Structural, Debug)]
pub enum Backend {
    Studio,
    MsBuild,
}

#[derive(Clone, Copy, PartialEq, Eq, Structural, Debug)]
pub enum Action {
    Build,
    Rebuild,
    Clean,
}

/// The switch that makes Studio perform an action.
pub open spec fn switch_of(action: Action) -> Seq<char> {
    match action {
        Action::Build => "/Build"@,
        Action::Rebuild => "/Rebuild"@,
        Action::Clean => "/Clean"@,
    }
}

/// The target that makes MSBuild perform an action.
pub open spec fn target_of(action: Action) -> Seq<char> {
    match action {
        Action::Build => "Build"@,
        Action::Rebuild => "ReBuild"@,
        Action::Clean => "Clean"@,
    }
}

/// What an action is called while it is going on.
pub open spec fn verb_of(action: Action) -> Seq<char> {
    match action {
        Action::Build => "Building"@,
        Action::Rebuild => "Rebuilding"@,
        Action::Clean => "Cleaning"@,
    }
}

impl Action {
    /// The switch that makes Studio perform this action.
    pub fn studio_switch(self) -> (r: &'static str)
        ensures
            r@ == switch_of(self),
    {
        match self {
            Action::Build => "/Build",
            Action::Rebuild => "/Rebuild",
            Action::Clean => "/Clean",
        }
    }

    /// The target that makes MSBuild perform this action.
    pub fn msbuild_target(self) -> (r: &'static str)
        ensures
            r@ == target_of(self),
    {
        match self {
            Action::Build => "Build",
            Action::Rebuild => "ReBuild",
            Action::Clean => "Clean",
        }
    }

    /// What this action is called while it is going on.
    pub fn verb(self) -> (r: &'static str)
        ensures
            r@ == verb_of(self),
    {
        match self {
            Action::Build => "Building",
            Action::Rebuild => "Rebuilding",
            Action::Clean => "Cleaning",
        }
    }
}

/// Studio installations to try when the user has not named one.
pub open spec fn studio_roots() -> Seq<Seq<char>> {
    seq![
        "C:\\Program Files (x86)\\Atmel\\Studio\\7.0"@,
        "C:\\Program Files (x86)\\Microchip\\Studio\\7.0"@,
        "C:\\Program Files\\Atmel\\Studio\\7.0"@,
        "C:\\Program Files\\Microchip\\Studio\\7.0"@,
    ]
}

/// The .NET Framework MSBuild that Atmel's targets are written for.
pub open spec fn msbuild_paths() -> Seq<Seq<char>> {
    seq![
        "C:\\Windows\\Microsoft.NET\\Framework64\\v4.0.30319\\MSBuild.exe"@,
        "C:\\Windows\\Microsoft.NET\\Framework\\v4.0.30319\\MSBuild.exe"@,
    ]
}

/// Some paths as ones that the host can open, or why the first that cannot be one
/// cannot.
pub open spec fn natives(paths: host::PathsView, places: Seq<Seq<char>>) -> Result<
    Seq<Seq<char>>,
    Failure,
>
    decreases places.len(),
{
    if places.len() == 0 {
        Ok(Seq::empty())
    } else {
        match natives(paths, places.drop_last()) {
            Err(failure) => Err(failure),
            Ok(found) => match host::native(paths, places.last()) {
                Err(failure) => Err(failure),
                Ok(place) => Ok(found.push(place)),
            },
        }
    }
}

/// A path that cannot be one that the host can open spoils all that follow.
proof fn lemma_natives_fail(paths: host::PathsView, places: Seq<Seq<char>>, n: int)
    requires
        0 <= n <= places.len(),
        natives(paths, places.take(n)) is Err,
    ensures
        natives(paths, places) == natives(paths, places.take(n)),
    decreases places.len(),
{
    if n == places.len() {
        assert(places.take(n) == places);
    } else {
        assert(places.drop_last().take(n) == places.take(n));
        lemma_natives_fail(paths, places.drop_last(), n);
    }
}

/// Some paths as ones that the host can open.
fn to_natives(paths: &Paths, places: &Vec<String>) -> (r: Result<Vec<String>, AppError>)
    ensures
        error::viewed_list(r) == natives(paths@, list::texts(places@)),
{
    let ghost all = list::texts(places@);
    let mut out: Vec<String> = Vec::new();
    let mut i: usize = 0;
    assert(list::texts(out@) == Seq::<Seq<char>>::empty());
    while i < places.len()
        invariant
            i <= places@.len(),
            all == list::texts(places@),
            all.len() == places@.len(),
            natives(paths@, all.take(i as int)) == Ok::<_, Failure>(list::texts(out@)),
        decreases places@.len() - i,
    {
        assert(all.take(i as int + 1).drop_last() == all.take(i as int));
        assert(all[i as int] == places@[i as int]@);
        match paths.to_native(places[i].as_str()) {
            Ok(found) => {
                out.push(found);
            },
            Err(error) => {
                proof {
                    lemma_natives_fail(paths@, all, i as int + 1);
                }
                return Err(error);
            },
        }
        i += 1;
    }
    assert(all.take(i as int) == all);
    Ok(out)
}

/// The places that Studio may be installed at, as the user and the environment
/// write them, before the usual ones.
pub open spec fn roots_to_try(configured: Option<Seq<char>>, environment: Option<Seq<char>>) -> Seq<
    Seq<char>,
> {
    let named = match configured {
        Some(root) => seq![root],
        None => Seq::empty(),
    };
    let set = match environment {
        Some(root) => if root.len() > 0 {
            named.push(root)
        } else {
            named
        },
        None => named,
    };
    set + studio_roots()
}

/// An Atmel Studio installation.
#[derive(Clone, Debug)]
pub struct Installation {
    pub root: String,
}

impl View for Installation {
    type V = Seq<char>;

    /// The directory that Studio is installed in.
    open spec fn view(&self) -> Seq<char> {
        self.root@
    }
}

/// The program of a Studio installation.
pub open spec fn studio_program(host: Host, root: Seq<char>) -> Seq<char> {
    path::joined(host, root, "AtmelStudio.exe"@)
}

/// The program of a Studio installation.
pub fn executable(host: Host, root: &str) -> (r: String)
    ensures
        r@ == studio_program(host, root@),
{
    path::join(host, root, "AtmelStudio.exe")
}

/// A list of places, one to a line and indented.
pub open spec fn tried_text(places: Seq<path::PlaceView>) -> Seq<char> {
    text::joined(places.map_values(|place: path::PlaceView| "  "@ + place.path), "\n"@)
}

/// The installation at the first place that holds the program, where `present` says
/// of each place whether it does.
pub open spec fn located(places: Seq<path::PlaceView>) -> Result<Seq<char>, Failure> {
    match path::present_from(places, 0) {
        Some(root) => Ok(root),
        None => Err(
            Failure::Runtime(
                "cannot find Atmel Studio. Tried:\n"@ + tried_text(places)
                    + "\nSet its directory with --studio, ATP_STUDIO_ROOT, or [studio] root in atp.toml."@,
            ),
        ),
    }
}

impl Installation {
    /// The directories in which to look for Studio's program, anything the user
    /// pointed at first.
    pub fn candidates(paths: &Paths, configured: Option<&str>, environment: Option<&str>) -> (r:
        Result<Vec<String>, AppError>)
        ensures
            error::viewed_list(r) == natives(
                paths@,
                roots_to_try(list::optional_str(configured), list::optional_str(environment)),
            ),
    {
        let mut roots: Vec<String> = Vec::new();
        assert(list::texts(roots@) == Seq::<Seq<char>>::empty());
        match configured {
            Some(root) => {
                roots.push(root.to_owned());
                assert(list::texts(roots@) == seq![root@]);
            },
            None => {},
        }
        match environment {
            Some(root) => {
                let length: usize = text::chars_of(root).len();
                if length > 0 {
                    roots.push(root.to_owned());
                }
            },
            None => {},
        }
        let ghost named = list::texts(roots@);
        roots.push("C:\\Program Files (x86)\\Atmel\\Studio\\7.0".to_owned());
        roots.push("C:\\Program Files (x86)\\Microchip\\Studio\\7.0".to_owned());
        roots.push("C:\\Program Files\\Atmel\\Studio\\7.0".to_owned());
        roots.push("C:\\Program Files\\Microchip\\Studio\\7.0".to_owned());
        assert(list::texts(roots@) == named + studio_roots());
        to_natives(paths, &roots)
    }

    /// Finds Studio among places of which it is known whether they hold its
    /// program.
    pub fn locate(places: &Vec<Place>) -> (r: Result<Self, AppError>)
        ensures
            error::viewed(r) == located(order::views(places@)),
    {
        match path::first_present(places) {
            Some(root) => Ok(Installation { root: root }),
            None => {
                let ghost all = order::views(places@).map_values(
                    |place: path::PlaceView| "  "@ + place.path,
                );
                let mut tried: Vec<String> = Vec::new();
                let mut i: usize = 0;
                assert(list::texts(tried@) == all.take(0));
                while i < places.len()
                    invariant
                        i <= places@.len(),
                        all == order::views(places@).map_values(
                            |place: path::PlaceView| "  "@ + place.path,
                        ),
                        list::texts(tried@) == all.take(i as int),
                    decreases places@.len() - i,
                {
                    let line = text::cat2("  ", places[i].path.as_str());
                    assert(order::views(places@)[i as int] == places@[i as int]@);
                    assert(all[i as int] == line@);
                    tried.push(line);
                    i += 1;
                }
                assert(all.take(i as int) == all);
                let shown = text::join(&tried, "\n");
                Err(
                    AppError::Runtime(
                        text::cat3(
                            "cannot find Atmel Studio. Tried:\n",
                            shown.as_str(),
                            "\nSet its directory with --studio, ATP_STUDIO_ROOT, or [studio] root in atp.toml.",
                        ),
                    ),
                )
            },
        }
    }

    /// The directory that Studio is installed in.
    pub fn root(&self) -> (r: &str)
        ensures
            r@ == self@,
    {
        self.root.as_str()
    }

    /// The program of this installation.
    pub fn studio_executable(&self, host: Host) -> (r: String)
        ensures
            r@ == studio_program(host, self@),
    {
        executable(host, self.root.as_str())
    }
}

/// The places at which MSBuild may be.
pub fn msbuild_candidates(paths: &Paths) -> (r: Result<Vec<String>, AppError>)
    ensures
        error::viewed_list(r) == natives(paths@, msbuild_paths()),
{
    let mut places: Vec<String> = Vec::new();
    places.push("C:\\Windows\\Microsoft.NET\\Framework64\\v4.0.30319\\MSBuild.exe".to_owned());
    places.push("C:\\Windows\\Microsoft.NET\\Framework\\v4.0.30319\\MSBuild.exe".to_owned());
    assert(list::texts(places@) == msbuild_paths());
    to_natives(paths, &places)
}

/// The first place at which MSBuild is.
pub open spec fn msbuild_at(places: Seq<path::PlaceView>) -> Result<Seq<char>, Failure> {
    match path::present_from(places, 0) {
        Some(place) => Ok(place),
        None => Err(
            Failure::Runtime(
                "cannot find the .NET Framework MSBuild that Atmel's targets need."@,
            ),
        ),
    }
}

/// The first place at which MSBuild is.
pub fn msbuild(places: &Vec<Place>) -> (r: Result<String, AppError>)
    ensures
        error::viewed(r) == msbuild_at(order::views(places@)),
{
    match path::first_present(places) {
        Some(place) => Ok(place),
        None => Err(
            AppError::Runtime(
                "cannot find the .NET Framework MSBuild that Atmel's targets need.".to_owned(),
            ),
        ),
    }
}

/// What to build.
#[derive(Clone, Debug)]
pub struct Request {
    pub solution: String,
    pub project: Project,
    /// Passed to Studio only when the solution holds more than one project.
    pub project_name: Option<String>,
    pub configuration: String,
    pub action: Action,
    pub backend: Backend,
    pub extra: Vec<String>,
}

/// What a request stands for.
pub struct RequestView {
    pub solution: Seq<char>,
    pub project: solution::ProjectView,
    pub project_name: Option<Seq<char>>,
    pub configuration: Seq<char>,
    pub action: Action,
    pub backend: Backend,
    pub extra: Seq<Seq<char>>,
}

impl View for Request {
    type V = RequestView;

    open spec fn view(&self) -> RequestView {
        RequestView {
            solution: self.solution@,
            project: self.project@,
            project_name: list::optional(self.project_name),
            configuration: self.configuration@,
            action: self.action,
            backend: self.backend,
            extra: list::texts(self.extra@),
        }
    }
}

/// Where the build log is written, inside the configuration's output directory.
///
/// It has to live somewhere a Windows process can write, which rules out `/tmp`
/// under WSL. The output directory is always on a Windows drive, because the
/// project itself has to be.
pub open spec fn log_of(host: Host, request: RequestView) -> Seq<char> {
    path::joined(
        host,
        solution::output_path(host, request.project, request.configuration),
        "atp-build.log"@,
    )
}

/// Where the build log is written.
pub fn log_path(host: Host, request: &Request) -> (r: String)
    ensures
        r@ == log_of(host, request@),
{
    let directory = request.project.output_directory(host, request.configuration.as_str());
    path::join(host, directory.as_str(), "atp-build.log")
}

/// The arguments that tell Studio which project is meant.
pub open spec fn project_arguments(name: Option<Seq<char>>) -> Seq<Seq<char>> {
    match name {
        Some(project) => seq!["/project"@, project],
        None => Seq::empty(),
    }
}

/// The command that has Studio build what is asked for.
pub open spec fn studio_command(
    request: RequestView,
    paths: host::PathsView,
    root: Seq<char>,
) -> Result<Seq<Seq<char>>, Failure> {
    match host::for_windows(paths, studio_program(paths.host, root)) {
        Err(failure) => Err(failure),
        Ok(program) => match host::for_windows(paths, request.solution) {
            Err(failure) => Err(failure),
            Ok(file) => match host::for_windows(paths, log_of(paths.host, request)) {
                Err(failure) => Err(failure),
                Ok(log) => Ok(
                    seq![program, file, switch_of(request.action), request.configuration]
                        + project_arguments(request.project_name) + seq!["/out"@, log]
                        + request.extra,
                ),
            },
        },
    }
}

/// The command that has MSBuild build what is asked for.
pub open spec fn msbuild_command(
    request: RequestView,
    paths: host::PathsView,
    compilers: Seq<path::PlaceView>,
) -> Result<Seq<Seq<char>>, Failure> {
    match msbuild_at(compilers) {
        Err(failure) => Err(failure),
        Ok(found) => match host::for_windows(paths, found) {
            Err(failure) => Err(failure),
            Ok(program) => match host::for_windows(paths, request.project.path) {
                Err(failure) => Err(failure),
                Ok(file) => Ok(
                    seq![
                        program,
                        file,
                        "/p:Configuration="@ + request.configuration,
                        "/t:"@ + target_of(request.action),
                        "/nologo"@,
                        "/v:normal"@,
                    ] + request.extra,
                ),
            },
        },
    }
}

/// The command that builds what is asked for.
pub open spec fn command(
    request: RequestView,
    paths: host::PathsView,
    root: Seq<char>,
    compilers: Seq<path::PlaceView>,
) -> Result<Seq<Seq<char>>, Failure> {
    match request.backend {
        Backend::Studio => studio_command(request, paths, root),
        Backend::MsBuild => msbuild_command(request, paths, compilers),
    }
}

/// Puts all of `more` at the end of a list.
fn extend(out: &mut Vec<String>, more: &Vec<String>)
    ensures
        list::texts(final(out)@) == list::texts(old(out)@) + list::texts(more@),
{
    let ghost had = list::texts(out@);
    let ghost all = list::texts(more@);
    let mut i: usize = 0;
    assert(had + all.take(0) == had);
    while i < more.len()
        invariant
            i <= more@.len(),
            all == list::texts(more@),
            list::texts(out@) == had + all.take(i as int),
        decreases more@.len() - i,
    {
        assert(all[i as int] == more@[i as int]@);
        out.push(more[i].as_str().to_owned());
        i += 1;
        assert(list::texts(out@) == had + all.take(i as int));
    }
    assert(all.take(i as int) == all);
}

/// The command that has Studio build what is asked for.
fn studio_line(request: &Request, paths: &Paths, installation: &Installation) -> (r: Result<
    Vec<String>,
    AppError,
>)
    ensures
        error::viewed_list(r) == studio_command(request@, paths@, installation@),
{
    let found = installation.studio_executable(paths.host);
    let program = match paths.to_windows(found.as_str()) {
        Ok(program) => program,
        Err(error) => {
            return Err(error);
        },
    };
    let file = match paths.to_windows(request.solution.as_str()) {
        Ok(file) => file,
        Err(error) => {
            return Err(error);
        },
    };
    let log = match paths.to_windows(log_path(paths.host, request).as_str()) {
        Ok(log) => log,
        Err(error) => {
            return Err(error);
        },
    };
    let ghost first = program@;
    let ghost second = file@;
    let ghost last = log@;
    let mut argv: Vec<String> = Vec::new();
    argv.push(program);
    argv.push(file);
    argv.push(request.action.studio_switch().to_owned());
    argv.push(request.configuration.as_str().to_owned());
    let ghost front = seq![first, second, switch_of(request.action), request.configuration@];
    assert(list::texts(argv@) == front);
    match &request.project_name {
        Some(name) => {
            argv.push("/project".to_owned());
            argv.push(name.as_str().to_owned());
        },
        None => {},
    }
    assert(list::texts(argv@) == front + project_arguments(request@.project_name));
    argv.push("/out".to_owned());
    argv.push(log);
    assert(list::texts(argv@) == front + project_arguments(request@.project_name) + seq![
        "/out"@,
        last,
    ]);
    extend(&mut argv, &request.extra);
    Ok(argv)
}

/// The command that has MSBuild build what is asked for.
fn msbuild_line(request: &Request, paths: &Paths, compilers: &Vec<Place>) -> (r: Result<
    Vec<String>,
    AppError,
>)
    ensures
        error::viewed_list(r) == msbuild_command(request@, paths@, order::views(compilers@)),
{
    let found = match msbuild(compilers) {
        Ok(found) => found,
        Err(error) => {
            return Err(error);
        },
    };
    let program = match paths.to_windows(found.as_str()) {
        Ok(program) => program,
        Err(error) => {
            return Err(error);
        },
    };
    let file = match paths.to_windows(request.project.path.as_str()) {
        Ok(file) => file,
        Err(error) => {
            return Err(error);
        },
    };
    let ghost first = program@;
    let ghost second = file@;
    let mut argv: Vec<String> = Vec::new();
    argv.push(program);
    argv.push(file);
    argv.push(text::cat2("/p:Configuration=", request.configuration.as_str()));
    argv.push(text::cat2("/t:", request.action.msbuild_target()));
    argv.push("/nologo".to_owned());
    argv.push("/v:normal".to_owned());
    assert(list::texts(argv@) == seq![
        first,
        second,
        "/p:Configuration="@ + request.configuration@,
        "/t:"@ + target_of(request.action),
        "/nologo"@,
        "/v:normal"@,
    ]);
    extend(&mut argv, &request.extra);
    Ok(argv)
}

/// Builds the argument list, which a dry run prints instead of running. The places
/// at which MSBuild may be matter only where it is the backend.
pub fn command_line(
    request: &Request,
    paths: &Paths,
    installation: &Installation,
    compilers: &Vec<Place>,
) -> (r: Result<Vec<String>, AppError>)
    ensures
        error::viewed_list(r) == command(
            request@,
            paths@,
            installation@,
            order::views(compilers@),
        ),
{
    match request.backend {
        Backend::Studio => studio_line(request, paths, installation),
        Backend::MsBuild => msbuild_line(request, paths, compilers),
    }
}

/// A command always has a program, and what the user adds for the backend stands
/// at its end as it was given.
pub proof fn lemma_command_ends_in_extra(
    request: RequestView,
    paths: host::PathsView,
    root: Seq<char>,
    compilers: Seq<path::PlaceView>,
)
    requires
        command(request, paths, root, compilers) is Ok,
    ensures
        ({
            let argv = command(request, paths, root, compilers)->Ok_0;
            &&& argv.len() > 0
            &&& request.extra.is_suffix_of(argv)
        }),
{
    let argv = command(request, paths, root, compilers)->Ok_0;
    assert(argv.skip(argv.len() - request.extra.len()) == request.extra);
}

/// Whether a command has at `i` the switch that names the log, and then the log.
pub open spec fn logs_at(argv: Seq<Seq<char>>, i: int, log: Result<Seq<char>, Failure>) -> bool {
    0 <= i < argv.len() - 1 && argv[i] == "/out"@ && log == Ok::<_, Failure>(argv[i + 1])
}

/// Studio is always told where to write a log, which is the whole reason a build
/// produces any output.
pub proof fn lemma_studio_always_logs(
    request: RequestView,
    paths: host::PathsView,
    root: Seq<char>,
    compilers: Seq<path::PlaceView>,
)
    requires
        request.backend == Backend::Studio,
        command(request, paths, root, compilers) is Ok,
    ensures
        exists|i: int|
            #[trigger] logs_at(
                command(request, paths, root, compilers)->Ok_0,
                i,
                host::for_windows(paths, log_of(paths.host, request)),
            ),
{
    let argv = command(request, paths, root, compilers)->Ok_0;
    let i = 4 + project_arguments(request.project_name).len() as int;
    assert(logs_at(argv, i, host::for_windows(paths, log_of(paths.host, request))));
}

/// The directory the build runs in.
///
/// Atmel's generated makefile uses paths relative to the project, so the
/// solution directory is what Studio itself uses.
pub fn working_directory(host: Host, request: &Request) -> (r: String)
    ensures
        r@ == path::directory(host, request@.solution),
{
    path::directory_of(host, request.solution.as_str())
}

/// A Windows program as one that the host can execute.
pub open spec fn runnable(paths: host::PathsView, program: Seq<char>) -> Seq<char> {
    match host::native(paths, program) {
        Ok(found) => found,
        Err(_) => program,
    }
}

/// Turns the Windows program path back into one this host can execute.
///
/// Under WSL the executable is reached through `/mnt/c`, and interop starts
/// the Windows process from there.
pub fn native_program(paths: &Paths, program: &str) -> (r: String)
    ensures
        r@ == runnable(paths@, program@),
{
    match paths.to_native(program) {
        Ok(found) => found,
        Err(_) => program.to_owned(),
    }
}

/// What to start for a build, and how.
#[derive(Clone, Debug)]
pub struct Launch {
    /// The program as Windows spells it.
    pub shown: String,
    /// The program as this host can execute it.
    pub program: String,
    pub arguments: Vec<String>,
    pub directory: String,
    /// What `AVRSTUDIO_EXE_PATH` is to be. Atmel's targets import their tasks
    /// through this variable, which Studio normally sets for its own process.
    pub studio: Option<String>,
}

/// What a launch stands for.
pub struct LaunchView {
    pub shown: Seq<char>,
    pub program: Seq<char>,
    pub arguments: Seq<Seq<char>>,
    pub directory: Seq<char>,
    pub studio: Option<Seq<char>>,
}

impl View for Launch {
    type V = LaunchView;

    open spec fn view(&self) -> LaunchView {
        LaunchView {
            shown: self.shown@,
            program: self.program@,
            arguments: list::texts(self.arguments@),
            directory: self.directory@,
            studio: list::optional(self.studio),
        }
    }
}

/// What to start for a build.
pub open spec fn launch_of(
    request: RequestView,
    paths: host::PathsView,
    root: Seq<char>,
    compilers: Seq<path::PlaceView>,
) -> Result<LaunchView, Failure> {
    match command(request, paths, root, compilers) {
        Err(failure) => Err(failure),
        Ok(argv) => Ok(
            LaunchView {
                shown: argv[0],
                program: runnable(paths, argv[0]),
                arguments: argv.skip(1),
                directory: path::directory(paths.host, request.solution),
                studio: match request.backend {
                    Backend::MsBuild => Some(root),
                    Backend::Studio => None,
                },
            },
        ),
    }
}

/// Settles what to start for a build.
pub fn launch(
    request: &Request,
    paths: &Paths,
    installation: &Installation,
    compilers: &Vec<Place>,
) -> (r: Result<Launch, AppError>)
    ensures
        error::viewed(r) == launch_of(request@, paths@, installation@, order::views(compilers@)),
{
    match command_line(request, paths, installation, compilers) {
        Err(error) => Err(error),
        Ok(argv) => {
            let mut arguments = argv;
            let ghost all = list::texts(arguments@);
            proof {
                lemma_command_ends_in_extra(
                    request@,
                    paths@,
                    installation@,
                    order::views(compilers@),
                );
            }
            assert(all.len() == arguments@.len());
            let shown = arguments.remove(0);
            assert(list::texts(arguments@) == all.skip(1));
            let program = native_program(paths, shown.as_str());
            let studio = match request.backend {
                Backend::MsBuild => Some(installation.root().to_owned()),
                Backend::Studio => None,
            };
            Ok(
                Launch {
                    shown: shown,
                    program: program,
                    arguments: arguments,
                    directory: working_directory(paths.host, request),
                    studio: studio,
                },
            )
        },
    }
}

/// The log of an MSBuild run: what it wrote, and then what it complained of.
pub fn msbuild_log(output: &Vec<u8>, complaints: &Vec<u8>) -> (r: String)
    ensures
        r@ == solution::lossy_text(output@) + solution::lossy_text(complaints@),
{
    let first = solution::decode_lossy(output);
    let second = solution::decode_lossy(complaints);
    text::cat2(first.as_str(), second.as_str())
}

/// An exit code, if it is known.
pub open spec fn code_text(code: Option<i32>) -> Seq<char> {
    match code {
        Some(value) => number::signed(value as int),
        None => "unknown"@,
    }
}

/// What a Windows program calls the output directory, if it can.
pub open spec fn windows_output(request: RequestView, paths: host::PathsView) -> Option<Seq<char>> {
    match host::for_windows(
        paths,
        solution::output_path(paths.host, request.project, request.configuration),
    ) {
        Ok(directory) => Some(directory),
        Err(_) => None,
    }
}

/// What came of a build that left a log and an exit code.
pub open spec fn result_of(
    request: RequestView,
    paths: host::PathsView,
    log: Seq<char>,
    exit_code: Option<i32>,
) -> Result<report::ReportView, Failure> {
    if log.len() == 0 {
        Err(
            Failure::Runtime(
                "the build produced no log at "@ + log_of(paths.host, request)
                    + ".\nExit code was "@ + code_text(exit_code) + "."@,
            ),
        )
    } else {
        Ok(report::report_of(log, windows_output(request, paths)))
    }
}

/// Reads what came of a build out of its log.
pub fn outcome(request: &Request, paths: &Paths, log: &str, exit_code: Option<i32>) -> (r: Result<
    Report,
    AppError,
>)
    ensures
        error::viewed(r) == result_of(request@, paths@, log@, exit_code),
        r matches Ok(report) ==> report::total(report@.diagnostics) <= usize::MAX,
{
    let length: usize = text::chars_of(log).len();
    if length == 0 {
        let place = log_path(paths.host, request);
        let code = match exit_code {
            Some(value) => number::signed_string(value),
            None => "unknown".to_owned(),
        };
        return Err(
            AppError::Runtime(
                text::cat5(
                    "the build produced no log at ",
                    place.as_str(),
                    ".\nExit code was ",
                    code.as_str(),
                    ".",
                ),
            ),
        );
    }
    let output = request.project.output_directory(paths.host, request.configuration.as_str());
    match paths.to_windows(output.as_str()) {
        Ok(directory) => Ok(report::parse(log, Some(directory.as_str()))),
        Err(_) => Ok(report::parse(log, None)),
    }
}

/// The file of the last of some lines that names one as being compiled.
pub open spec fn compiled_in(lines: Seq<Seq<char>>) -> Option<Seq<char>>
    decreases lines.len(),
{
    if lines.len() == 0 {
        None
    } else {
        match text::after_prefix(text::trimmed(lines.last()), "Building file: "@) {
            Some(file) => Some(text::trimmed(file)),
            None => compiled_in(lines.drop_last()),
        }
    }
}

/// The file Studio most recently started compiling, read from the partial log.
pub fn current_file(log: &str) -> (r: Option<String>)
    ensures
        list::optional(r) == compiled_in(text::lines_of(log@)),
{
    let chars = text::chars_of(log);
    let lines = text::lines(&chars);
    let ghost all = text::lines_of(log@);
    let mut i: usize = lines.len();
    assert(list::pieces(lines@).len() == lines@.len());
    assert(all.take(i as int) == all);
    while i > 0
        invariant
            i <= lines@.len(),
            all == text::lines_of(log@),
            all == list::pieces(lines@),
            all.len() == lines@.len(),
            compiled_in(all) == compiled_in(all.take(i as int)),
        decreases i,
    {
        assert(all.take(i as int).drop_last() == all.take(i as int - 1));
        i -= 1;
        assert(all[i as int] == lines@[i as int]@);
        match text::strip_prefix(text::trim(lines[i]), "Building file: ") {
            Some(file) => {
                return Some(text::string_of(text::trim(file)));
            },
            None => {},
        }
    }
    None
}

/// The most characters that a progress line shows of a file.
pub const PROGRESS_WIDTH: usize = 70;

/// A text shortened from the left to what a progress line shows.
pub open spec fn shortened(shown: Seq<char>) -> Seq<char> {
    if shown.len() <= PROGRESS_WIDTH {
        shown
    } else {
        "..."@ + shown.skip(shown.len() - (PROGRESS_WIDTH - 3))
    }
}

/// Shortens a text from the left to what a progress line shows.
pub fn truncate(shown: &str) -> (r: String)
    ensures
        r@ == shortened(shown@),
{
    let s = text::chars_of(shown);
    let n: usize = s.len();
    if n <= PROGRESS_WIDTH {
        return shown.to_owned();
    }
    let tail: &[char] = &s[n - (PROGRESS_WIDTH - 3)..n];
    assert(tail@ == shown@.skip(n - (PROGRESS_WIDTH - 3)));
    text::cat2("...", text::string_of(tail).as_str())
}

/// A progress line never shows more than its width, and ends as the text does.
pub proof fn lemma_shortened_fits(shown: Seq<char>)
    ensures
        shortened(shown).len() <= PROGRESS_WIDTH,
        shown.len() > PROGRESS_WIDTH ==> {
            &&& shortened(shown).len() == PROGRESS_WIDTH
            &&& "..."@.is_prefix_of(shortened(shown))
            &&& shortened(shown).skip(3).is_suffix_of(shown)
        },
{
    reveal_strlit("...");
    if shown.len() > PROGRESS_WIDTH {
        let tail = shown.skip(shown.len() - (PROGRESS_WIDTH - 3));
        assert(shortened(shown).skip(3) == tail);
        assert(shown.skip(shown.len() - tail.len()) == tail);
    }
}

/// What is seen of a running build.
#[derive(Clone, Debug)]
pub enum Sight {
    /// It is still running, and the log so far holds this, if it can be read.
    Running(Option<String>),
    /// It has ended, with an exit code if there is one.
    Ended(Option<i32>),
    /// It cannot be waited for.
    Lost(String),
}

/// What to do about a running build.
#[derive(Clone, Debug)]
pub enum Step {
    /// Look again later.
    Wait,
    /// Show a text, and look again later.
    Show(String),
    /// Show a text and stop looking.
    Done(String, Option<i32>),
}

/// What a step stands for.
pub enum StepView {
    Wait,
    Show(Seq<char>),
    Done(Seq<char>, Option<i32>),
}

impl View for Step {
    type V = StepView;

    open spec fn view(&self) -> StepView {
        match self {
            Step::Wait => StepView::Wait,
            Step::Show(shown) => StepView::Show(shown@),
            Step::Done(shown, code) => StepView::Done(shown@, *code),
        }
    }
}

/// A watch over a running build, which shows the file it is compiling as the log
/// grows.
#[derive(Clone, Debug)]
pub struct Watch {
    /// Whether to show anything at all.
    pub show: bool,
    /// The file that is being shown.
    pub last: String,
}

/// The file that a log newly names as being compiled.
pub open spec fn newly_compiled(watch: Watch, log: Option<Seq<char>>) -> Option<Seq<char>> {
    if !watch.show {
        None
    } else {
        match log {
            None => None,
            Some(held) => match compiled_in(text::lines_of(held)) {
                Some(file) => if file == watch.last@ {
                    None
                } else {
                    Some(file)
                },
                None => None,
            },
        }
    }
}

/// What a watch does at a sight.
pub open spec fn watch_step(watch: Watch, sight: Sight) -> Result<StepView, Failure> {
    match sight {
        Sight::Lost(reason) => Err(
            Failure::Runtime("cannot wait for Atmel Studio: "@ + reason@),
        ),
        Sight::Ended(code) => if watch.show && watch.last@.len() > 0 {
            Ok(StepView::Done("\r\x1b[2K"@, code))
        } else {
            Ok(StepView::Done(Seq::empty(), code))
        },
        Sight::Running(log) => match newly_compiled(watch, list::optional(log)) {
            Some(file) => Ok(
                StepView::Show(
                    "\r\x1b[2K"@ + report::labelled("Compiling"@) + " "@ + shortened(file),
                ),
            ),
            None => Ok(StepView::Wait),
        },
    }
}

/// The file that a watch shows after a sight.
pub open spec fn shown_after(watch: Watch, sight: Sight) -> Seq<char> {
    match sight {
        Sight::Running(log) => match newly_compiled(watch, list::optional(log)) {
            Some(file) => file,
            None => watch.last@,
        },
        _ => watch.last@,
    }
}

impl Watch {
    /// A watch over a build that has only just been started.
    pub fn new(show: bool) -> (r: Self)
        ensures
            r.show == show,
            r.last@ == Seq::<char>::empty(),
    {
        Watch { show: show, last: String::new() }
    }

    /// Decides what to do at a sight of the build.
    pub fn watch(&mut self, sight: &Sight) -> (r: Result<Step, AppError>)
        ensures
            error::viewed(r) == watch_step(*old(self), *sight),
            final(self).show == old(self).show,
            final(self).last@ == shown_after(*old(self), *sight),
    {
        match sight {
            Sight::Lost(reason) => Err(
                AppError::Runtime(text::cat2("cannot wait for Atmel Studio: ", reason.as_str())),
            ),
            Sight::Ended(code) => {
                let length: usize = text::chars_of(self.last.as_str()).len();
                if self.show && length > 0 {
                    Ok(Step::Done("\r\x1b[2K".to_owned(), *code))
                } else {
                    Ok(Step::Done(String::new(), *code))
                }
            },
            Sight::Running(log) => {
                if !self.show {
                    return Ok(Step::Wait);
                }
                let found = match log {
                    Some(held) => current_file(held.as_str()),
                    None => None,
                };
                match found {
                    Some(file) => {
                        if text::same_str(file.as_str(), self.last.as_str()) {
                            return Ok(Step::Wait);
                        }
                        let front = report::label("Compiling");
                        let shown = truncate(file.as_str());
                        let line = text::cat4("\r\x1b[2K", front.as_str(), " ", shown.as_str());
                        self.last = file;
                        Ok(Step::Show(line))
                    },
                    None => Ok(Step::Wait),
                }
            },
        }
    }
}

} // verus!
