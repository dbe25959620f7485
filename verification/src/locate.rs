//! Finding the project that a command is about, and the solution around it.
//!
//! What is meant may have to be searched for, and files have to be read to tell which
//! others to read. A search says what it wants to know next and is handed the answer,
//! until it ends with the project or with why there is none.

use vstd::prelude::*;

use crate::app;
use crate::app::{Inside, Located, Source};
use crate::builder::Backend;
use crate::config;
use crate::config::Config;
use crate::error;
use crate::error::{AppError, Failure};
use crate::host;
use crate::host::{Host, Paths};
use crate::list;
use crate::order;
use crate::path;
use crate::search;
use crate::search::{Discovery, Listed};
use crate::solution;
use crate::solution::{Project, Solution};
use crate::text;

verus! {

broadcast use {crate::list::lemma_texts_push, crate::list::lemma_pieces_push};

/// Something that a search wants to know of a path.
#[derive(Clone, Debug)]
pub enum Want {
    /// What the directory holds.
    Entries(String),
    /// Whether anything is there.
    Existence(String),
    /// The bytes of the file.
    Contents(String),
    /// Where it really leads.
    Place(String),
}

/// What a want stands for.
pub enum WantView {
    Entries(Seq<char>),
    Existence(Seq<char>),
    Contents(Seq<char>),
    Place(Seq<char>),
}

impl View for Want {
    type V = WantView;

    open spec fn view(&self) -> WantView {
        match self {
            Want::Entries(path) => WantView::Entries(path@),
            Want::Existence(path) => WantView::Existence(path@),
            Want::Contents(path) => WantView::Contents(path@),
            Want::Place(path) => WantView::Place(path@),
        }
    }
}

/// What an optional want stands for.
pub open spec fn optional_want(want: Option<Want>) -> Option<WantView> {
    match want {
        Some(held) => Some(held@),
        None => None,
    }
}

/// What a search is told.
#[derive(Debug)]
pub enum Answer {
    /// What a directory holds, which is nothing where it cannot be read.
    Entries(Vec<Listed>),
    Existence(bool),
    /// The bytes of a file, or why they cannot be read.
    Contents(Result<Vec<u8>, String>),
    /// Where a path really leads, if that can be told.
    Place(Option<String>),
}

/// What an answer stands for.
pub enum AnswerView {
    Entries(Seq<search::ListedView>),
    Existence(bool),
    Contents(Result<Vec<u8>, String>),
    Place(Option<Seq<char>>),
}

impl View for Answer {
    type V = AnswerView;

    open spec fn view(&self) -> AnswerView {
        match self {
            Answer::Entries(entries) => AnswerView::Entries(order::views(entries@)),
            Answer::Existence(there) => AnswerView::Existence(*there),
            Answer::Contents(contents) => AnswerView::Contents(*contents),
            Answer::Place(place) => AnswerView::Place(list::optional(*place)),
        }
    }
}

/// Whether an answer is one to what is wanted.
pub open spec fn answers(want: WantView, answer: AnswerView) -> bool {
    match want {
        WantView::Entries(_) => answer is Entries,
        WantView::Existence(_) => answer is Existence,
        WantView::Contents(_) => answer is Contents,
        WantView::Place(_) => answer is Place,
    }
}

/// A search for the solution that owns a project: in the directory of the project and
/// in the one above, the first that lists the project.
#[derive(Clone, Debug)]
pub struct Owner {
    pub host: Host,
    /// Where the project really lies.
    pub place: String,
    /// The directories that have yet to be seen.
    pub directories: Vec<String>,
    /// The solutions of a directory that have yet to be read.
    pub solutions: Vec<String>,
    /// The solution that was read last.
    pub current: String,
    /// The projects of that solution of which it is yet to be told where they lie.
    pub projects: Vec<String>,
}

/// What a search for an owner stands for.
pub struct OwnerView {
    pub host: Host,
    pub place: Seq<char>,
    pub directories: Seq<Seq<char>>,
    pub solutions: Seq<Seq<char>>,
    pub current: Seq<char>,
    pub projects: Seq<Seq<char>>,
}

impl View for Owner {
    type V = OwnerView;

    open spec fn view(&self) -> OwnerView {
        OwnerView {
            host: self.host,
            place: self.place@,
            directories: list::texts(self.directories@),
            solutions: list::texts(self.solutions@),
            current: self.current@,
            projects: list::texts(self.projects@),
        }
    }
}

/// A search for the owner of a project that has seen nothing yet.
pub open spec fn owner_from(host: Host, project: Seq<char>, place: Seq<char>) -> OwnerView {
    OwnerView {
        host: host,
        place: place,
        directories: search::solution_directories(host, project),
        solutions: Seq::empty(),
        current: Seq::empty(),
        projects: Seq::empty(),
    }
}

/// What a search for an owner wants to know next, if it is not at its end.
pub open spec fn owner_want(owner: OwnerView) -> Option<WantView> {
    if owner.projects.len() > 0 {
        Some(WantView::Place(owner.projects[0]))
    } else if owner.solutions.len() > 0 {
        Some(WantView::Contents(owner.solutions[0]))
    } else if owner.directories.len() > 0 {
        Some(WantView::Entries(owner.directories[0]))
    } else {
        None
    }
}

/// The project files that a solution lists.
pub open spec fn project_files(host: Host, solution: solution::SolutionView) -> Seq<Seq<char>> {
    solution.entries.map_values(
        |entry: solution::EntryView| solution::entry_path(host, solution.path, entry),
    )
}

/// The solutions that a directory holds, in order.
pub open spec fn solutions_among(host: Host, entries: Seq<search::ListedView>) -> Seq<Seq<char>> {
    path::sorted_paths(host, search::matching(host, "atsln"@, entries))
}

/// A search for an owner after an answer, or the owner if the answer shows it.
pub open spec fn owner_step(owner: OwnerView, answer: AnswerView) -> Result<Seq<char>, OwnerView> {
    if owner.projects.len() > 0 {
        if answer->Place_0 == Some(owner.place) {
            Ok(owner.current)
        } else {
            Err(OwnerView { projects: owner.projects.skip(1), ..owner })
        }
    } else if owner.solutions.len() > 0 {
        let file = owner.solutions[0];
        let rest = OwnerView { solutions: owner.solutions.skip(1), ..owner };
        match solution::solution_read(file, answer->Contents_0) {
            Ok(solution) => Err(
                OwnerView {
                    current: file,
                    projects: project_files(owner.host, solution),
                    ..rest
                },
            ),
            Err(_) => Err(rest),
        }
    } else if owner.directories.len() > 0 {
        Err(
            OwnerView {
                directories: owner.directories.skip(1),
                solutions: solutions_among(owner.host, answer->Entries_0),
                ..owner
            },
        )
    } else {
        Err(owner)
    }
}

/// Takes the first text out of a list that has one.
fn take_first(list: &mut Vec<String>) -> (r: String)
    requires
        old(list)@.len() > 0,
    ensures
        r@ == list::texts(old(list)@)[0],
        list::texts(final(list)@) == list::texts(old(list)@).skip(1),
{
    let ghost before = list@;
    let first = list.remove(0);
    assert(list::texts(list@) == list::texts(before).skip(1));
    first
}

/// Where a search for an owner stands after an answer.
#[derive(Clone, Debug)]
pub enum Ownership {
    Owned(String),
    Next(Owner),
}

impl View for Ownership {
    type V = Result<Seq<char>, OwnerView>;

    open spec fn view(&self) -> Result<Seq<char>, OwnerView> {
        match self {
            Ownership::Owned(file) => Ok(file@),
            Ownership::Next(owner) => Err(owner@),
        }
    }
}

impl Owner {
    /// A search for the solution that owns a project.
    pub fn new(host: Host, project: &str, place: String) -> (r: Self)
        ensures
            r@ == owner_from(host, project@, place@),
    {
        let solutions: Vec<String> = Vec::new();
        let projects: Vec<String> = Vec::new();
        assert(list::texts(solutions@) == Seq::<Seq<char>>::empty());
        assert(list::texts(projects@) == Seq::<Seq<char>>::empty());
        Owner {
            host: host,
            place: place,
            directories: search::directories_for(host, project),
            solutions: solutions,
            current: String::new(),
            projects: projects,
        }
    }

    /// What the search wants to know next, if it is not at its end.
    pub fn want(&self) -> (r: Option<Want>)
        ensures
            optional_want(r) == owner_want(self@),
    {
        assert(list::texts(self.projects@).len() == self.projects@.len());
        assert(list::texts(self.solutions@).len() == self.solutions@.len());
        assert(list::texts(self.directories@).len() == self.directories@.len());
        if self.projects.len() > 0 {
            Some(Want::Place(self.projects[0].as_str().to_owned()))
        } else if self.solutions.len() > 0 {
            Some(Want::Contents(self.solutions[0].as_str().to_owned()))
        } else if self.directories.len() > 0 {
            Some(Want::Entries(self.directories[0].as_str().to_owned()))
        } else {
            None
        }
    }

    /// Finds a solution that builds the project.
    ///
    /// Atmel Studio refuses to build a bare `.cproj`: without a solution it fails
    /// with `Value cannot be null. Parameter name: url`. Given a project file, the
    /// solution that owns it is looked for rather than passing the project through.
    pub fn solution_for(self, answer: Answer) -> (r: Ownership)
        requires
            owner_want(self@) matches Some(want) && answers(want, answer@),
        ensures
            r@ == owner_step(self@, answer@),
    {
        let mut next = self;
        assert(list::texts(next.projects@).len() == next.projects@.len());
        assert(list::texts(next.solutions@).len() == next.solutions@.len());
        assert(list::texts(next.directories@).len() == next.directories@.len());
        if next.projects.len() > 0 {
            let owned = match &answer {
                Answer::Place(Some(place)) => text::same_str(place.as_str(), next.place.as_str()),
                _ => false,
            };
            if owned {
                return Ownership::Owned(next.current);
            }
            let _ = take_first(&mut next.projects);
            return Ownership::Next(next);
        }
        if next.solutions.len() > 0 {
            let file = take_first(&mut next.solutions);
            if let Answer::Contents(contents) = answer {
                if let Ok(solution) = Solution::load(file.as_str(), contents) {
                    next.projects = list_projects(next.host, &solution);
                    next.current = file;
                }
            }
            return Ownership::Next(next);
        }
        let _ = take_first(&mut next.directories);
        if let Answer::Entries(entries) = &answer {
            next.solutions = search::solutions_in(next.host, entries);
        }
        Ownership::Next(next)
    }
}

/// The project files that a solution lists.
fn list_projects(host: Host, solution: &Solution) -> (r: Vec<String>)
    ensures
        list::texts(r@) == project_files(host, solution@),
{
    let ghost all = project_files(host, solution@);
    let mut out: Vec<String> = Vec::new();
    let mut i: usize = 0;
    assert(list::texts(out@) == all.take(0));
    while i < solution.entries.len()
        invariant
            i <= solution.entries@.len(),
            all == project_files(host, solution@),
            list::texts(out@) == all.take(i as int),
        decreases solution.entries@.len() - i,
    {
        assert(solution@.entries[i as int] == solution.entries@[i as int]@);
        let file = solution.project_path(host, &solution.entries[i]);
        assert(all[i as int] == file@);
        out.push(file);
        i += 1;
    }
    assert(all.take(i as int) == all);
    out
}

/// How far locating a project has got.
#[derive(Clone, Debug)]
pub enum Stage {
    /// A solution or project is being discovered, in which this project is meant.
    Searching(Discovery, Option<String>),
    /// A path is given, in which this project is meant, and has to lead somewhere.
    Given(String, Option<String>),
    /// A solution is to be read, in which this project is meant.
    Opening(String, Option<String>),
    /// The project inside a solution is to be read.
    Within(Solution, Inside),
    /// A project file is to be read.
    Bare(String),
    /// A project was read, and where it lies is to be told.
    Placing(Project),
    /// The solution that owns a project is being looked for.
    Owning(Project, Owner),
    /// The solution that owns a project is to be read.
    Owned(Project, String),
}

/// What a stage stands for.
pub enum StageView {
    Searching(search::DiscoveryView, Option<Seq<char>>),
    Given(Seq<char>, Option<Seq<char>>),
    Opening(Seq<char>, Option<Seq<char>>),
    Within(solution::SolutionView, app::InsideView),
    Bare(Seq<char>),
    Placing(solution::ProjectView),
    Owning(solution::ProjectView, OwnerView),
    Owned(solution::ProjectView, Seq<char>),
}

impl View for Stage {
    type V = StageView;

    open spec fn view(&self) -> StageView {
        match self {
            Stage::Searching(discovery, inner) => StageView::Searching(
                discovery@,
                list::optional(*inner),
            ),
            Stage::Given(file, inner) => StageView::Given(file@, list::optional(*inner)),
            Stage::Opening(file, inner) => StageView::Opening(file@, list::optional(*inner)),
            Stage::Within(solution, inside) => StageView::Within(solution@, inside@),
            Stage::Bare(file) => StageView::Bare(file@),
            Stage::Placing(project) => StageView::Placing(project@),
            Stage::Owning(project, owner) => StageView::Owning(project@, owner@),
            Stage::Owned(project, file) => StageView::Owned(project@, file@),
        }
    }
}

/// What a search for a project is for.
#[derive(Clone, Debug)]
pub struct Goal {
    pub host: Host,
    pub backend: Backend,
    /// The name that the user or the file used, if any.
    pub name: Option<String>,
}

/// What a goal stands for.
pub struct GoalView {
    pub host: Host,
    pub backend: Backend,
    pub name: Option<Seq<char>>,
}

impl View for Goal {
    type V = GoalView;

    open spec fn view(&self) -> GoalView {
        GoalView { host: self.host, backend: self.backend, name: list::optional(self.name) }
    }
}

/// A search for the project that a command is about.
#[derive(Clone, Debug)]
pub struct Locating {
    pub goal: Goal,
    pub stage: Stage,
}

/// What a search for a project stands for.
pub struct LocatingView {
    pub goal: GoalView,
    pub stage: StageView,
}

impl View for Locating {
    type V = LocatingView;

    open spec fn view(&self) -> LocatingView {
        LocatingView { goal: self.goal@, stage: self.stage@ }
    }
}

/// Where a search for a project stands after an answer.
#[derive(Clone, Debug)]
pub enum Step {
    Found(Located),
    Next(Locating),
}

/// What a step stands for.
pub enum StepView {
    Found(app::LocatedView),
    Next(LocatingView),
}

impl View for Step {
    type V = StepView;

    open spec fn view(&self) -> StepView {
        match self {
            Step::Found(located) => StepView::Found(located@),
            Step::Next(locating) => StepView::Next(locating@),
        }
    }
}

/// The working directory, if it is known.
pub open spec fn known(working: Result<Seq<char>, Seq<char>>) -> Option<Seq<char>> {
    match working {
        Ok(directory) => Some(directory),
        Err(_) => None,
    }
}

/// Why there is no working directory to start from.
pub open spec fn nowhere(reason: Seq<char>) -> Failure {
    Failure::Runtime("cannot read the working directory: "@ + reason)
}

/// A search for a project that has been told nothing yet. What has to be discovered is
/// discovered from the working directory, which otherwise only makes a path absolute.
pub open spec fn locating_from(
    config: config::ConfigView,
    paths: host::PathsView,
    working: Result<Seq<char>, Seq<char>>,
    wanted: Option<Seq<char>>,
    backend: Backend,
) -> Result<LocatingView, Failure> {
    let goal = GoalView {
        host: paths.host,
        backend: backend,
        name: app::wanted_name(config, wanted),
    };
    match app::source_of(config, paths, wanted) {
        Err(failure) => Err(failure),
        Ok(app::SourceView::Given(file, inner)) => Ok(
            LocatingView {
                goal: goal,
                stage: StageView::Given(
                    app::from_working(paths.host, known(working), file),
                    inner,
                ),
            },
        ),
        Ok(app::SourceView::Discovered(inner)) => match working {
            Err(reason) => Err(nowhere(reason)),
            Ok(directory) => Ok(
                LocatingView {
                    goal: goal,
                    stage: StageView::Searching(
                        search::discovery_from(paths.host, directory),
                        inner,
                    ),
                },
            ),
        },
    }
}

/// What a search for a project wants to know next.
pub open spec fn locating_want(locating: LocatingView) -> Option<WantView> {
    match locating.stage {
        StageView::Searching(discovery, _) => match search::wanted_directory(discovery) {
            Some(directory) => Some(WantView::Entries(directory)),
            None => None,
        },
        StageView::Given(file, _) => Some(WantView::Existence(file)),
        StageView::Opening(file, _) => Some(WantView::Contents(file)),
        StageView::Within(_, inside) => Some(WantView::Contents(inside.file)),
        StageView::Bare(file) => Some(WantView::Contents(file)),
        StageView::Placing(project) => Some(WantView::Place(project.path)),
        StageView::Owning(_, owner) => owner_want(owner),
        StageView::Owned(_, file) => Some(WantView::Contents(file)),
    }
}

/// A project that was found, unless the backend cannot build it.
pub open spec fn ended(
    goal: GoalView,
    solution: Option<solution::SolutionView>,
    project: solution::ProjectView,
    project_name: Option<Seq<char>>,
) -> Result<app::LocatedView, Failure> {
    app::buildable(
        app::LocatedView {
            solution: solution,
            project: project,
            project_name: project_name,
            name: goal.name,
        },
        goal.backend,
    )
}

/// The end of a search as a step.
pub open spec fn as_step(result: Result<app::LocatedView, Failure>) -> Result<StepView, Failure> {
    match result {
        Ok(located) => Ok(StepView::Found(located)),
        Err(failure) => Err(failure),
    }
}

/// A search for a project at another stage.
pub open spec fn at_stage(goal: GoalView, stage: StageView) -> Result<StepView, Failure> {
    Ok(StepView::Next(LocatingView { goal: goal, stage: stage }))
}

/// A search for the owner of a project that goes on if there is anything left to see.
pub open spec fn owning_step(
    goal: GoalView,
    project: solution::ProjectView,
    owner: OwnerView,
) -> Result<StepView, Failure> {
    if owner_want(owner) is Some {
        at_stage(goal, StageView::Owning(project, owner))
    } else {
        as_step(ended(goal, None, project, None))
    }
}

/// What comes of a search for a project when it is told what it wanted to know.
pub open spec fn located_step(
    locating: LocatingView,
    config: config::ConfigView,
    answer: AnswerView,
) -> Result<StepView, Failure> {
    let goal = locating.goal;
    let host = goal.host;
    match locating.stage {
        StageView::Searching(discovery, inner) => match search::discovered(
            discovery,
            answer->Entries_0,
        ) {
            Err(failure) => Err(app::discovery_failure(config, goal.name, failure)),
            Ok(search::ProgressView::Found(file)) => at_stage(
                goal,
                StageView::Given(file, inner),
            ),
            Ok(search::ProgressView::Next(next)) => at_stage(
                goal,
                StageView::Searching(next, inner),
            ),
        },
        StageView::Given(file, inner) => if !answer->Existence_0 {
            Err(Failure::Usage(file + " does not exist"@))
        } else if app::names_solution(host, file) {
            at_stage(goal, StageView::Opening(file, inner))
        } else {
            at_stage(goal, StageView::Bare(file))
        },
        StageView::Opening(file, inner) => match solution::solution_read(file, answer->Contents_0) {
            Err(failure) => Err(failure),
            Ok(solution) => match app::inside_of(host, solution, inner) {
                Err(failure) => Err(failure),
                Ok(inside) => at_stage(goal, StageView::Within(solution, inside)),
            },
        },
        StageView::Within(solution, inside) => match solution::project_read(
            host,
            inside.file,
            answer->Contents_0,
        ) {
            Err(failure) => Err(failure),
            Ok(project) => as_step(ended(goal, Some(solution), project, inside.name)),
        },
        StageView::Bare(file) => match solution::project_read(host, file, answer->Contents_0) {
            Err(failure) => Err(failure),
            Ok(project) => at_stage(goal, StageView::Placing(project)),
        },
        StageView::Placing(project) => match answer->Place_0 {
            None => as_step(ended(goal, None, project, None)),
            Some(place) => owning_step(goal, project, owner_from(host, project.path, place)),
        },
        StageView::Owning(project, owner) => match owner_step(owner, answer) {
            Ok(file) => at_stage(goal, StageView::Owned(project, file)),
            Err(next) => owning_step(goal, project, next),
        },
        StageView::Owned(project, file) => match solution::solution_read(file, answer->Contents_0) {
            Err(failure) => Err(failure),
            Ok(solution) => as_step(
                ended(
                    goal,
                    Some(solution),
                    project,
                    app::name_to_pass(solution, project.name),
                ),
            ),
        },
    }
}

/// The bytes of a file that an answer gives.
fn contents_in(answer: Answer) -> (r: Result<Vec<u8>, String>)
    requires
        answer@ is Contents,
    ensures
        r == answer@->Contents_0,
{
    match answer {
        Answer::Contents(contents) => contents,
        _ => Err(String::new()),
    }
}

impl Goal {
    /// The search at another stage.
    fn at(self, stage: Stage) -> (r: Result<Step, AppError>)
        ensures
            error::viewed(r) == at_stage(self@, stage@),
    {
        Ok(Step::Next(Locating { goal: self, stage: stage }))
    }

    /// The end of the search.
    fn end(self, solution: Option<Solution>, project: Project, project_name: Option<String>) -> (r:
        Result<Step, AppError>)
        ensures
            error::viewed(r) == as_step(
                ended(
                    self@,
                    app::optional_solution(solution),
                    project@,
                    list::optional(project_name),
                ),
            ),
    {
        match Located::find(solution, project, project_name, self.name, self.backend) {
            Ok(located) => Ok(Step::Found(located)),
            Err(error) => Err(error),
        }
    }

    /// The search for the owner of a project, or the end of the search.
    fn own(self, project: Project, owner: Owner) -> (r: Result<Step, AppError>)
        ensures
            error::viewed(r) == owning_step(self@, project@, owner@),
    {
        if owner.want().is_some() {
            self.at(Stage::Owning(project, owner))
        } else {
            self.end(None, project, None)
        }
    }
}

impl Locating {
    /// A search for the project that is meant.
    pub fn new(
        config: &Config,
        paths: &Paths,
        working: &Result<String, String>,
        wanted: Option<&str>,
        backend: Backend,
    ) -> (r: Result<Self, AppError>)
        ensures
            error::viewed(r) == locating_from(
                config@,
                paths@,
                list::viewed_text(*working),
                list::optional_str(wanted),
                backend,
            ),
    {
        let stage = match app::source_for(config, paths, wanted) {
            Err(error) => {
                return Err(error);
            },
            Ok(Source::Given(file, inner)) => {
                let from = match working {
                    Ok(directory) => Some(directory.as_str()),
                    Err(_) => None,
                };
                Stage::Given(app::take_from_working(paths.host, from, file.as_str()), inner)
            },
            Ok(Source::Discovered(inner)) => match working {
                Ok(directory) => Stage::Searching(
                    Discovery::new(paths.host, directory.as_str()),
                    inner,
                ),
                Err(reason) => {
                    return Err(
                        AppError::Runtime(
                            text::cat2("cannot read the working directory: ", reason.as_str()),
                        ),
                    );
                },
            },
        };
        Ok(
            Locating {
                goal: Goal {
                    host: paths.host,
                    backend: backend,
                    name: app::name_for(config, wanted),
                },
                stage: stage,
            },
        )
    }

    /// What the search wants to know next.
    pub fn want(&self) -> (r: Option<Want>)
        ensures
            optional_want(r) == locating_want(self@),
    {
        match &self.stage {
            Stage::Searching(discovery, _) => match discovery.directory() {
                Some(directory) => Some(Want::Entries(directory)),
                None => None,
            },
            Stage::Given(file, _) => Some(Want::Existence(file.as_str().to_owned())),
            Stage::Opening(file, _) => Some(Want::Contents(file.as_str().to_owned())),
            Stage::Within(_, inside) => Some(Want::Contents(inside.file.as_str().to_owned())),
            Stage::Bare(file) => Some(Want::Contents(file.as_str().to_owned())),
            Stage::Placing(project) => Some(Want::Place(project.path.as_str().to_owned())),
            Stage::Owning(_, owner) => owner.want(),
            Stage::Owned(_, file) => Some(Want::Contents(file.as_str().to_owned())),
        }
    }

    /// Goes on with what the search wanted to know.
    pub fn step(self, config: &Config, answer: Answer) -> (r: Result<Step, AppError>)
        requires
            locating_want(self@) matches Some(want) && answers(want, answer@),
        ensures
            error::viewed(r) == located_step(self@, config@, answer@),
    {
        let goal = self.goal;
        let host = goal.host;
        match self.stage {
            Stage::Searching(discovery, inner) => {
                let entries = match answer {
                    Answer::Entries(entries) => entries,
                    _ => Vec::new(),
                };
                match discovery.discover(&entries) {
                    Err(error) => Err(
                        app::explain_discovery(config, list::borrowed(&goal.name), error),
                    ),
                    Ok(search::Progress::Found(file)) => goal.at(Stage::Given(file, inner)),
                    Ok(search::Progress::Next(next)) => goal.at(Stage::Searching(next, inner)),
                }
            },
            Stage::Given(file, inner) => {
                let there = match answer {
                    Answer::Existence(there) => there,
                    _ => false,
                };
                if !there {
                    Err(app::no_such_file(file.as_str()))
                } else if app::is_solution(host, file.as_str()) {
                    goal.at(Stage::Opening(file, inner))
                } else {
                    goal.at(Stage::Bare(file))
                }
            },
            Stage::Opening(file, inner) => {
                match Solution::load(file.as_str(), contents_in(answer)) {
                    Err(error) => Err(error),
                    Ok(solution) => match app::open(host, &solution, list::borrowed(&inner)) {
                        Err(error) => Err(error),
                        Ok(inside) => goal.at(Stage::Within(solution, inside)),
                    },
                }
            },
            Stage::Within(solution, inside) => {
                match Project::load(host, inside.file.as_str(), contents_in(answer)) {
                    Err(error) => Err(error),
                    Ok(project) => goal.end(Some(solution), project, inside.name),
                }
            },
            Stage::Bare(file) => match Project::load(host, file.as_str(), contents_in(answer)) {
                Err(error) => Err(error),
                Ok(project) => goal.at(Stage::Placing(project)),
            },
            Stage::Placing(project) => {
                match answer {
                    Answer::Place(Some(place)) => {
                        let owner = Owner::new(host, project.path.as_str(), place);
                        goal.own(project, owner)
                    },
                    _ => goal.end(None, project, None),
                }
            },
            Stage::Owning(project, owner) => match owner.solution_for(answer) {
                Ownership::Owned(file) => goal.at(Stage::Owned(project, file)),
                Ownership::Next(next) => goal.own(project, next),
            },
            Stage::Owned(project, file) => {
                match Solution::load(file.as_str(), contents_in(answer)) {
                    Err(error) => Err(error),
                    Ok(solution) => {
                        let name = app::name_for_studio(&solution, project.name.as_str());
                        goal.end(Some(solution), project, name)
                    },
                }
            },
        }
    }
}

/// What there is to be found out of paths.
pub struct World {
    pub entries: search::Listing,
    pub existence: spec_fn(Seq<char>) -> bool,
    pub contents: spec_fn(Seq<char>) -> Result<Vec<u8>, String>,
    pub place: spec_fn(Seq<char>) -> Option<Seq<char>>,
}

/// The true answer to what is wanted.
pub open spec fn truth(world: World, want: WantView) -> AnswerView {
    match want {
        WantView::Entries(path) => AnswerView::Entries((world.entries)(path)),
        WantView::Existence(path) => AnswerView::Existence((world.existence)(path)),
        WantView::Contents(path) => AnswerView::Contents((world.contents)(path)),
        WantView::Place(path) => AnswerView::Place((world.place)(path)),
    }
}

/// Whether one of some files really lies at a place.
pub open spec fn any_at(world: World, files: Seq<Seq<char>>, place: Seq<char>) -> bool {
    exists|i: int|
        0 <= i < files.len() && (world.place)(#[trigger] files[i]) == Some(place)
}

/// Whether a solution can be read and lists the project at a place.
pub open spec fn lists(world: World, host: Host, file: Seq<char>, place: Seq<char>) -> bool {
    match solution::solution_read(file, (world.contents)(file)) {
        Ok(solution) => any_at(world, project_files(host, solution), place),
        Err(_) => false,
    }
}

/// The first of some solutions that lists the project at a place.
pub open spec fn first_listing(
    world: World,
    host: Host,
    solutions: Seq<Seq<char>>,
    place: Seq<char>,
) -> Option<Seq<char>>
    decreases solutions.len(),
{
    if solutions.len() == 0 {
        None
    } else if lists(world, host, solutions[0], place) {
        Some(solutions[0])
    } else {
        first_listing(world, host, solutions.skip(1), place)
    }
}

/// The first solution in some directories that lists the project at a place.
pub open spec fn owner_in(
    world: World,
    host: Host,
    directories: Seq<Seq<char>>,
    place: Seq<char>,
) -> Option<Seq<char>>
    decreases directories.len(),
{
    if directories.len() == 0 {
        None
    } else {
        let solutions = solutions_among(host, (world.entries)(directories[0]));
        match first_listing(world, host, solutions, place) {
            Some(file) => Some(file),
            None => owner_in(world, host, directories.skip(1), place),
        }
    }
}

/// The owner that a search for one will come to.
pub open spec fn owner_ahead(world: World, owner: OwnerView) -> Option<Seq<char>> {
    if any_at(world, owner.projects, owner.place) {
        Some(owner.current)
    } else {
        match first_listing(world, owner.host, owner.solutions, owner.place) {
            Some(file) => Some(file),
            None => owner_in(world, owner.host, owner.directories, owner.place),
        }
    }
}

proof fn lemma_any_at(world: World, files: Seq<Seq<char>>, place: Seq<char>)
    requires
        files.len() > 0,
    ensures
        any_at(world, files, place) == ((world.place)(files[0]) == Some(place) || any_at(
            world,
            files.skip(1),
            place,
        )),
{
    let rest = files.skip(1);
    if any_at(world, files, place) {
        let i = choose|i: int|
            0 <= i < files.len() && (world.place)(#[trigger] files[i]) == Some(place);
        if i > 0 {
            assert(rest[i - 1] == files[i]);
        }
    }
    if any_at(world, rest, place) {
        let i = choose|i: int|
            0 <= i < rest.len() && (world.place)(#[trigger] rest[i]) == Some(place);
        assert(files[i + 1] == rest[i]);
    }
}

/// Each step of a search for an owner keeps to the solution that is the owner.
pub proof fn lemma_owner_stays_right(world: World, owner: OwnerView)
    requires
        owner_want(owner) is Some,
    ensures
        match owner_step(owner, truth(world, owner_want(owner)->0)) {
            Ok(file) => owner_ahead(world, owner) == Some(file),
            Err(next) => owner_ahead(world, next) == owner_ahead(world, owner),
        },
{
    if owner.projects.len() > 0 {
        lemma_any_at(world, owner.projects, owner.place);
    }
}

/// A project that was read from its file, and what is around it.
pub open spec fn around(world: World, goal: GoalView, project: solution::ProjectView) -> Result<
    app::LocatedView,
    Failure,
> {
    match (world.place)(project.path) {
        None => ended(goal, None, project, None),
        Some(place) => owned_by(
            world,
            goal,
            project,
            owner_in(
                world,
                goal.host,
                search::solution_directories(goal.host, project.path),
                place,
            ),
        ),
    }
}

/// A project with the solution that owns it, if one does.
pub open spec fn owned_by(
    world: World,
    goal: GoalView,
    project: solution::ProjectView,
    owner: Option<Seq<char>>,
) -> Result<app::LocatedView, Failure> {
    match owner {
        None => ended(goal, None, project, None),
        Some(file) => match solution::solution_read(file, (world.contents)(file)) {
            Err(failure) => Err(failure),
            Ok(solution) => ended(
                goal,
                Some(solution),
                project,
                app::name_to_pass(solution, project.name),
            ),
        },
    }
}

/// The project inside a solution, read from the file that the solution names.
pub open spec fn within(
    world: World,
    goal: GoalView,
    solution: solution::SolutionView,
    inside: app::InsideView,
) -> Result<app::LocatedView, Failure> {
    match solution::project_read(goal.host, inside.file, (world.contents)(inside.file)) {
        Err(failure) => Err(failure),
        Ok(project) => ended(goal, Some(solution), project, inside.name),
    }
}

/// The project that is meant inside the solution at a path.
pub open spec fn in_solution(
    world: World,
    goal: GoalView,
    file: Seq<char>,
    inner: Option<Seq<char>>,
) -> Result<app::LocatedView, Failure> {
    match solution::solution_read(file, (world.contents)(file)) {
        Err(failure) => Err(failure),
        Ok(solution) => match app::inside_of(goal.host, solution, inner) {
            Err(failure) => Err(failure),
            Ok(inside) => within(world, goal, solution, inside),
        },
    }
}

/// The project at a path, and what is around it.
pub open spec fn at_project(world: World, goal: GoalView, file: Seq<char>) -> Result<
    app::LocatedView,
    Failure,
> {
    match solution::project_read(goal.host, file, (world.contents)(file)) {
        Err(failure) => Err(failure),
        Ok(project) => around(world, goal, project),
    }
}

/// The project that is meant at a path.
pub open spec fn at_path(
    world: World,
    goal: GoalView,
    file: Seq<char>,
    inner: Option<Seq<char>>,
) -> Result<app::LocatedView, Failure> {
    if !(world.existence)(file) {
        Err(Failure::Usage(file + " does not exist"@))
    } else if app::names_solution(goal.host, file) {
        in_solution(world, goal, file, inner)
    } else {
        at_project(world, goal, file)
    }
}

/// The project that is meant at a path that was discovered, or why none was.
pub open spec fn at_discovered(
    world: World,
    goal: GoalView,
    config: config::ConfigView,
    found: Result<Seq<char>, Failure>,
    inner: Option<Seq<char>>,
) -> Result<app::LocatedView, Failure> {
    match found {
        Err(failure) => Err(app::discovery_failure(config, goal.name, failure)),
        Ok(file) => at_path(world, goal, file, inner),
    }
}

/// The project that a command is about: at the path that the file gives for the name,
/// or else at what is discovered from the working directory.
pub open spec fn meant(
    world: World,
    config: config::ConfigView,
    paths: host::PathsView,
    working: Result<Seq<char>, Seq<char>>,
    wanted: Option<Seq<char>>,
    backend: Backend,
) -> Result<app::LocatedView, Failure> {
    let goal = GoalView {
        host: paths.host,
        backend: backend,
        name: app::wanted_name(config, wanted),
    };
    match app::source_of(config, paths, wanted) {
        Err(failure) => Err(failure),
        Ok(app::SourceView::Given(file, inner)) => at_path(
            world,
            goal,
            app::from_working(paths.host, known(working), file),
            inner,
        ),
        Ok(app::SourceView::Discovered(inner)) => match working {
            Err(reason) => Err(nowhere(reason)),
            Ok(directory) => at_discovered(
                world,
                goal,
                config,
                search::meant(world.entries, paths.host, directory),
                inner,
            ),
        },
    }
}

/// What a search for a project that has got this far will come to.
pub open spec fn ahead(world: World, locating: LocatingView, config: config::ConfigView) -> Result<
    app::LocatedView,
    Failure,
> {
    let goal = locating.goal;
    match locating.stage {
        StageView::Searching(discovery, inner) => at_discovered(
            world,
            goal,
            config,
            search::outcome(world.entries, discovery),
            inner,
        ),
        StageView::Given(file, inner) => at_path(world, goal, file, inner),
        StageView::Opening(file, inner) => in_solution(world, goal, file, inner),
        StageView::Within(solution, inside) => within(world, goal, solution, inside),
        StageView::Bare(file) => at_project(world, goal, file),
        StageView::Placing(project) => around(world, goal, project),
        StageView::Owning(project, owner) => owned_by(
            world,
            goal,
            project,
            owner_ahead(world, owner),
        ),
        StageView::Owned(project, file) => owned_by(world, goal, project, Some(file)),
    }
}

/// Whether a search for a project is one that is going on.
pub open spec fn going_on(locating: LocatingView) -> bool {
    match locating.stage {
        StageView::Searching(discovery, _) => {
            &&& discovery.host == locating.goal.host
            &&& discovery.search.host == discovery.host
            &&& discovery.search.pending.len() > 0
        },
        StageView::Owning(_, owner) => {
            &&& owner.host == locating.goal.host
            &&& owner_want(owner) is Some
        },
        _ => true,
    }
}

/// A search for a project sets out for what is meant.
pub proof fn lemma_locating_starts_right(
    world: World,
    config: config::ConfigView,
    paths: host::PathsView,
    working: Result<Seq<char>, Seq<char>>,
    wanted: Option<Seq<char>>,
    backend: Backend,
)
    ensures
        match locating_from(config, paths, working, wanted, backend) {
            Err(failure) => meant(world, config, paths, working, wanted, backend) == Err::<
                app::LocatedView,
                _,
            >(failure),
            Ok(locating) => {
                &&& going_on(locating)
                &&& ahead(world, locating, config) == meant(
                    world,
                    config,
                    paths,
                    working,
                    wanted,
                    backend,
                )
            },
        },
{
    if let Ok(directory) = working {
        search::lemma_discovery_starts_right(world.entries, paths.host, directory);
    }
}

/// Each step of a search for a project that is told the truth keeps to what is meant:
/// it ends with it, or goes on with something else to be told and the same ahead.
pub proof fn lemma_locating_stays_right(
    world: World,
    locating: LocatingView,
    config: config::ConfigView,
)
    requires
        going_on(locating),
    ensures
        locating_want(locating) is Some,
        match located_step(locating, config, truth(world, locating_want(locating)->0)) {
            Err(failure) => ahead(world, locating, config) == Err::<app::LocatedView, _>(failure),
            Ok(StepView::Found(located)) => ahead(world, locating, config) == Ok::<_, Failure>(
                located,
            ),
            Ok(StepView::Next(next)) => {
                &&& going_on(next)
                &&& ahead(world, next, config) == ahead(world, locating, config)
            },
        },
{
    match locating.stage {
        StageView::Searching(discovery, _) => {
            search::lemma_discovery_stays_right(world.entries, discovery);
        },
        StageView::Owning(_, owner) => {
            lemma_owner_stays_right(world, owner);
        },
        _ => {},
    }
}

/// A project inside a solution is read from the file that the solution names for it,
/// and from no other.
pub proof fn lemma_project_is_the_one_named(
    world: World,
    goal: GoalView,
    file: Seq<char>,
    inner: Option<Seq<char>>,
)
    requires
        in_solution(world, goal, file, inner) is Ok,
    ensures
        ({
            let located = in_solution(world, goal, file, inner)->Ok_0;
            let solution = solution::solution_read(file, (world.contents)(file))->Ok_0;
            let entry = solution::chosen_entry(solution, inner)->Ok_0;
            &&& located.solution == Some(solution)
            &&& located.project.path == solution::entry_path(goal.host, file, entry)
            &&& solution::project_read(
                goal.host,
                located.project.path,
                (world.contents)(located.project.path),
            ) == Ok::<_, Failure>(located.project)
        }),
{
}

/// How many questions a solution costs a search for an owner: its bytes, and where each
/// project that it lists lies.
pub open spec fn solution_cost(world: World, host: Host, file: Seq<char>) -> nat {
    match solution::solution_read(file, (world.contents)(file)) {
        Ok(solution) => 1 + project_files(host, solution).len(),
        Err(_) => 1,
    }
}

/// How many questions some solutions cost.
pub open spec fn solutions_cost(world: World, host: Host, solutions: Seq<Seq<char>>) -> nat
    decreases solutions.len(),
{
    if solutions.len() == 0 {
        0
    } else {
        solution_cost(world, host, solutions[0]) + solutions_cost(world, host, solutions.skip(1))
    }
}

/// How many questions some directories cost.
pub open spec fn directories_cost(world: World, host: Host, directories: Seq<Seq<char>>) -> nat
    decreases directories.len(),
{
    if directories.len() == 0 {
        0
    } else {
        1 + solutions_cost(
            world,
            host,
            solutions_among(host, (world.entries)(directories[0])),
        ) + directories_cost(world, host, directories.skip(1))
    }
}

/// How many questions a search for an owner asks at most before it ends.
pub open spec fn owner_left(world: World, owner: OwnerView) -> nat {
    owner.projects.len() + solutions_cost(world, owner.host, owner.solutions) + directories_cost(
        world,
        owner.host,
        owner.directories,
    )
}

/// Each answer leaves a search for an owner with one question less, so every one ends.
pub proof fn lemma_owner_ends(world: World, owner: OwnerView)
    requires
        owner_want(owner) is Some,
    ensures
        owner_left(world, owner) > 0,
        owner_step(owner, truth(world, owner_want(owner)->0)) matches Err(next) ==> owner_left(
            world,
            next,
        ) + 1 == owner_left(world, owner),
{
}

/// How many questions remain once a project has been read that nothing is around yet.
pub open spec fn around_left(world: World, goal: GoalView, project: solution::ProjectView) -> nat {
    match (world.place)(project.path) {
        None => 1,
        Some(place) => 2 + owner_left(world, owner_from(goal.host, project.path, place)),
    }
}

/// How many questions remain once a project file is to be read.
pub open spec fn bare_left(world: World, goal: GoalView, file: Seq<char>) -> nat {
    match solution::project_read(goal.host, file, (world.contents)(file)) {
        Ok(project) => 1 + around_left(world, goal, project),
        Err(_) => 1,
    }
}

/// How many questions remain once a path is given.
pub open spec fn given_left(world: World, goal: GoalView, file: Seq<char>) -> nat {
    if app::names_solution(goal.host, file) {
        3
    } else {
        1 + bare_left(world, goal, file)
    }
}

/// How many questions a search for a project asks at most before it ends.
pub open spec fn steps_left(world: World, locating: LocatingView) -> nat {
    let goal = locating.goal;
    match locating.stage {
        StageView::Searching(discovery, _) => search::steps_left(world.entries, discovery)
            + match search::outcome(world.entries, discovery) {
            Ok(file) => given_left(world, goal, file),
            Err(_) => 0,
        },
        StageView::Given(file, _) => given_left(world, goal, file),
        StageView::Opening(_, _) => 2,
        StageView::Within(_, _) => 1,
        StageView::Bare(file) => bare_left(world, goal, file),
        StageView::Placing(project) => around_left(world, goal, project),
        StageView::Owning(_, owner) => 1 + owner_left(world, owner),
        StageView::Owned(_, _) => 1,
    }
}

/// Each step of a search for a project that does not end it leaves less to be asked, so
/// every search ends.
pub proof fn lemma_locating_ends(world: World, locating: LocatingView, config: config::ConfigView)
    requires
        going_on(locating),
    ensures
        located_step(locating, config, truth(world, locating_want(locating)->0)) matches Ok(
            StepView::Next(next),
        ) ==> steps_left(world, next) < steps_left(world, locating),
{
    match locating.stage {
        StageView::Searching(discovery, _) => {
            search::lemma_discovery_stays_right(world.entries, discovery);
            search::lemma_discovery_ends(world.entries, discovery);
        },
        StageView::Owning(_, owner) => {
            lemma_owner_ends(world, owner);
        },
        _ => {},
    }
}

} // verus!
