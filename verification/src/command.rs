//! The order in which the program does things, and what it says on which stream.
//!
//! The program takes one step after another. It is told which step comes next, takes
//! it, and says how that went. Whatever is printed goes to standard output, or aside to
//! standard error where standard output is kept for a path.

use vstd::prelude::*;

use crate::app;
use crate::app::{BuildPlan, Ending, Target};
use crate::builder::Action;
use crate::error;
use crate::error::{AppError, Failure};
use crate::host;
use crate::host::Paths;
use crate::list;
use crate::order;
use crate::report;
use crate::report::{Report, Style};
use crate::text;

verus! {

broadcast use {crate::list::lemma_texts_push, crate::list::lemma_pieces_push};

/// What the program does next.
#[derive(Clone, Copy, PartialEq, Eq, Structural, Debug)]
pub enum Step {
    /// Print the user's configuration directory.
    PrintDirectory,
    /// Find out what the host is.
    Detect,
    /// Read the configuration file.
    Configure,
    /// Perform the command.
    Perform,
    Done,
}

impl View for Step {
    type V = Step;

    open spec fn view(&self) -> Step {
        *self
    }
}

/// What the program does first: whoever asks for the configuration directory gets that
/// and nothing else, and otherwise a command is required.
pub open spec fn started(config_dir: bool, command: bool) -> Result<Step, Failure> {
    if config_dir {
        Ok(Step::PrintDirectory)
    } else if !command {
        Err(Failure::Usage("a command is required. Run atp --help for help."@))
    } else {
        Ok(Step::Detect)
    }
}

/// What the program does after a step.
pub open spec fn proceeded(step: Step, went: Result<(), Failure>) -> Result<Step, Failure> {
    match went {
        Err(failure) => Err(failure),
        Ok(_) => Ok(
            match step {
                Step::PrintDirectory => Step::Done,
                Step::Detect => Step::Configure,
                Step::Configure => Step::Perform,
                Step::Perform => Step::Done,
                Step::Done => Step::Done,
            },
        ),
    }
}

/// Settles what the program does first.
pub fn start(config_dir: bool, command: bool) -> (r: Result<Step, AppError>)
    ensures
        error::viewed(r) == started(config_dir, command),
{
    if config_dir {
        Ok(Step::PrintDirectory)
    } else if !command {
        Err(AppError::Usage("a command is required. Run atp --help for help.".to_owned()))
    } else {
        Ok(Step::Detect)
    }
}

/// Settles what the program does after a step.
pub fn proceed(step: Step, went: Result<(), AppError>) -> (r: Result<Step, AppError>)
    ensures
        error::viewed(r) == proceeded(step, error::viewed(went)),
{
    match went {
        Err(error) => Err(error),
        Ok(_) => Ok(
            match step {
                Step::PrintDirectory => Step::Done,
                Step::Detect => Step::Configure,
                Step::Configure => Step::Perform,
                Step::Perform => Step::Done,
                Step::Done => Step::Done,
            },
        ),
    }
}

/// A command that is missing is refused before the host is detected or a file is read,
/// and the configuration directory is printed without either. A command is performed
/// only once the host is known and the file has been read, and no step follows one that
/// failed.
pub proof fn lemma_order_of_steps(
    config_dir: bool,
    command: bool,
    step: Step,
    went: Result<(), Failure>,
)
    ensures
        started(config_dir, command) is Err <==> !config_dir && !command,
        config_dir ==> started(config_dir, command) == Ok::<Step, Failure>(Step::PrintDirectory),
        started(config_dir, command) != Ok::<Step, Failure>(Step::Configure),
        started(config_dir, command) != Ok::<Step, Failure>(Step::Perform),
        proceeded(step, went) == Ok::<Step, Failure>(Step::Configure) ==> step == Step::Detect,
        proceeded(step, went) == Ok::<Step, Failure>(Step::Perform) ==> step == Step::Configure,
        step == Step::PrintDirectory && went is Ok ==> proceeded(step, went) == Ok::<
            Step,
            Failure,
        >(Step::Done),
        proceeded(step, went) is Ok <==> went is Ok,
{
}

/// Where something is printed.
#[derive(Clone, Copy, PartialEq, Eq, Structural, Debug)]
pub enum Stream {
    /// Standard output.
    Out,
    /// Standard error.
    Aside,
}

/// Something that is printed.
#[derive(Clone, Debug)]
pub struct Spoken {
    pub stream: Stream,
    pub text: String,
}

/// What something that is printed stands for.
pub struct SpokenView {
    pub stream: Stream,
    pub text: Seq<char>,
}

impl View for Spoken {
    type V = SpokenView;

    open spec fn view(&self) -> SpokenView {
        SpokenView { stream: self.stream, text: self.text@ }
    }
}

/// What arrives on a stream.
pub open spec fn heard(spoken: Seq<SpokenView>, stream: Stream) -> Seq<char>
    decreases spoken.len(),
{
    if spoken.len() == 0 {
        Seq::empty()
    } else if spoken.last().stream == stream {
        heard(spoken.drop_last(), stream) + spoken.last().text
    } else {
        heard(spoken.drop_last(), stream)
    }
}

/// A step of the build command.
#[derive(Clone, Debug)]
pub enum BuildStep {
    /// Print the command that would be run.
    Show(Action, Stream),
    /// Run a build, and tell of it.
    Run(Action, Stream),
    /// Look up the artifact with an extension.
    LookUp(String),
    Done,
}

/// What a step of the build command stands for.
pub enum BuildStepView {
    Show(Action, Stream),
    Run(Action, Stream),
    LookUp(Seq<char>),
    Done,
}

impl View for BuildStep {
    type V = BuildStepView;

    open spec fn view(&self) -> BuildStepView {
        match self {
            BuildStep::Show(action, stream) => BuildStepView::Show(*action, *stream),
            BuildStep::Run(action, stream) => BuildStepView::Run(*action, *stream),
            BuildStep::LookUp(extension) => BuildStepView::LookUp(extension@),
            BuildStep::Done => BuildStepView::Done,
        }
    }
}

/// Where a build tells of itself: a lookup keeps standard output for the path.
pub open spec fn stream_of(plan: app::PlanView) -> Stream {
    if plan.extension is Some {
        Stream::Aside
    } else {
        Stream::Out
    }
}

/// The lookup of a plan, if it has one.
pub open spec fn lookup_step(plan: app::PlanView) -> BuildStepView {
    match plan.extension {
        Some(extension) => BuildStepView::LookUp(extension),
        None => BuildStepView::Done,
    }
}

/// What the build command does first. A dry run prints the command instead of running
/// it.
pub open spec fn first_step(plan: app::PlanView, dry_run: bool) -> BuildStepView {
    match plan.action {
        Some(action) => if dry_run {
            BuildStepView::Show(action, stream_of(plan))
        } else {
            BuildStepView::Run(action, stream_of(plan))
        },
        None => lookup_step(plan),
    }
}

/// What the build command does after a step. Only a build that succeeded is followed by
/// a lookup.
pub open spec fn step_after(
    plan: app::PlanView,
    step: BuildStepView,
    went: Result<(), Failure>,
) -> Result<BuildStepView, Failure> {
    match went {
        Err(failure) => Err(failure),
        Ok(_) => match step {
            BuildStepView::Run(_, _) => Ok(lookup_step(plan)),
            _ => Ok(BuildStepView::Done),
        },
    }
}

/// The lookup of a plan, if it has one.
fn look_up_next(plan: &BuildPlan) -> (r: BuildStep)
    ensures
        r@ == lookup_step(plan@),
{
    match &plan.extension {
        Some(extension) => BuildStep::LookUp(extension.as_str().to_owned()),
        None => BuildStep::Done,
    }
}

/// Settles what the build command does first.
pub fn begin(plan: &BuildPlan, dry_run: bool) -> (r: BuildStep)
    ensures
        r@ == first_step(plan@, dry_run),
{
    let stream = if plan.extension.is_some() {
        Stream::Aside
    } else {
        Stream::Out
    };
    match plan.action {
        Some(action) => if dry_run {
            BuildStep::Show(action, stream)
        } else {
            BuildStep::Run(action, stream)
        },
        None => look_up_next(plan),
    }
}

/// Settles what the build command does after a step.
pub fn advance(plan: &BuildPlan, step: &BuildStep, went: Result<(), AppError>) -> (r: Result<
    BuildStep,
    AppError,
>)
    ensures
        error::viewed(r) == step_after(plan@, step@, error::viewed(went)),
{
    match went {
        Err(error) => Err(error),
        Ok(_) => match step {
            BuildStep::Run(_, _) => Ok(look_up_next(plan)),
            _ => Ok(BuildStep::Done),
        },
    }
}

/// With a lookup every build and every command that is shown tells of itself aside; a
/// dry run never runs anything and ends once the command is shown; and what failed is
/// followed by nothing, so that a failed build is never followed by a path.
pub proof fn lemma_steps_of_a_build(
    plan: app::PlanView,
    dry_run: bool,
    step: BuildStepView,
    went: Result<(), Failure>,
)
    ensures
        match first_step(plan, dry_run) {
            BuildStepView::Show(_, stream) => dry_run && (stream == Stream::Aside
                <==> plan.extension is Some),
            BuildStepView::Run(_, stream) => !dry_run && (stream == Stream::Aside
                <==> plan.extension is Some),
            BuildStepView::LookUp(extension) => plan.action is None && plan.extension == Some(
                extension,
            ),
            BuildStepView::Done => plan.action is None && plan.extension is None,
        },
        step is Show && went is Ok ==> step_after(plan, step, went) == Ok::<
            BuildStepView,
            Failure,
        >(BuildStepView::Done),
        !(step_after(plan, step, went) matches Ok(BuildStepView::Run(_, _))),
        !(step_after(plan, step, went) matches Ok(BuildStepView::Show(_, _))),
        step_after(plan, step, went) is Ok <==> went is Ok,
        step_after(plan, step, went) matches Ok(BuildStepView::LookUp(extension)) ==> step is Run
            && plan.extension == Some(extension),
{
}

/// Every build ends, after two steps at most.
pub proof fn lemma_build_ends(plan: app::PlanView, dry_run: bool)
    ensures
        ({
            let first = first_step(plan, dry_run);
            let second = step_after(plan, first, Ok(()))->Ok_0;
            let third = step_after(plan, second, Ok(()))->Ok_0;
            third is Done
        }),
{
}

/// Lines one under the other.
pub open spec fn line_text(lines: Seq<Seq<char>>) -> Seq<char>
    decreases lines.len(),
{
    if lines.len() == 0 {
        Seq::empty()
    } else {
        line_text(lines.drop_last()) + lines.last() + "\n"@
    }
}

/// Lines one under the other.
pub fn as_lines(lines: &Vec<String>) -> (r: String)
    ensures
        r@ == line_text(list::texts(lines@)),
{
    let ghost all = list::texts(lines@);
    let mut out = String::new();
    let mut i: usize = 0;
    while i < lines.len()
        invariant
            i <= lines@.len(),
            all == list::texts(lines@),
            out@ == line_text(all.take(i as int)),
        decreases lines@.len() - i,
    {
        assert(all.take(i as int + 1).drop_last() == all.take(i as int));
        assert(all[i as int] == lines@[i as int]@);
        out.append(lines[i].as_str());
        out.append("\n");
        i += 1;
    }
    assert(all.take(i as int) == all);
    out
}

/// The command that a dry run prints.
pub fn show(stream: Stream, argv: &Vec<String>) -> (r: Spoken)
    ensures
        r@ == (SpokenView { stream: stream, text: app::typed(list::texts(argv@)) + "\n"@ }),
{
    let line = app::quote(argv);
    Spoken { stream: stream, text: text::cat2(line.as_str(), "\n") }
}

/// What is printed before a build, which is nothing where only failures are to be
/// printed.
pub open spec fn announcement(
    style: Style,
    action: Action,
    target: app::TargetView,
    quiet: bool,
) -> Seq<char> {
    if quiet {
        Seq::empty()
    } else {
        app::announced(style, action, target) + "\n"@
    }
}

/// Announces a build.
pub fn announce(stream: Stream, style: &Style, action: Action, target: &Target, quiet: bool) -> (r:
    Spoken)
    ensures
        r@ == (SpokenView {
            stream: stream,
            text: announcement(*style, action, target@, quiet),
        }),
{
    if quiet {
        Spoken { stream: stream, text: String::new() }
    } else {
        let line = app::announce(style, action, target);
        Spoken { stream: stream, text: text::cat2(line.as_str(), "\n") }
    }
}

/// What is printed after a build: the whole log as it is where everything is asked for,
/// what the report shows, and how the build ended.
pub open spec fn account(
    ending: app::EndingView,
    report: report::ReportView,
    log: Seq<char>,
    paths: host::PathsView,
    style: Style,
    base: Seq<char>,
    verbose: bool,
    quiet: bool,
) -> Seq<char> {
    let shown = line_text(report::report_lines(report, paths, style, base, verbose)) + line_text(
        app::ending_lines(ending, report, style, paths.host, base, quiet),
    );
    if verbose {
        log + shown
    } else {
        shown
    }
}

/// What is printed after a build is all of the log and more where everything is asked
/// for.
pub proof fn lemma_verbose_shows_the_log(
    ending: app::EndingView,
    report: report::ReportView,
    log: Seq<char>,
    paths: host::PathsView,
    style: Style,
    base: Seq<char>,
    quiet: bool,
)
    ensures
        log.is_prefix_of(account(ending, report, log, paths, style, base, true, quiet)),
{
    let told = account(ending, report, log, paths, style, base, true, quiet);
    assert(told.subrange(0, log.len() as int) == log);
}

/// Tells of a build, and whether the command succeeded.
pub fn tell(
    stream: Stream,
    ending: &Ending,
    report: &Report,
    log: &str,
    paths: &Paths,
    style: &Style,
    working_directory: &str,
    verbose: bool,
    quiet: bool,
) -> (r: (Spoken, Result<(), AppError>))
    requires
        report::total(report@.diagnostics) <= usize::MAX,
    ensures
        r.0@ == (SpokenView {
            stream: stream,
            text: account(
                ending@,
                report@,
                log@,
                paths@,
                *style,
                working_directory@,
                verbose,
                quiet,
            ),
        }),
        error::viewed(r.1) == if report@.succeeded {
            Ok(())
        } else {
            Err(Failure::Exit(1))
        },
{
    let first = as_lines(&report::render(report, paths, style, working_directory, verbose));
    let (lines, result) = app::conclude(
        ending,
        report,
        style,
        paths.host,
        working_directory,
        quiet,
    );
    let last = as_lines(&lines);
    let shown = text::cat2(first.as_str(), last.as_str());
    let told = if verbose {
        text::cat2(log, shown.as_str())
    } else {
        shown
    };
    (Spoken { stream: stream, text: told }, result)
}

/// What is printed of an artifact that was found: that it is stale aside, if it is, and
/// its path.
pub open spec fn found_spoken(file: Seq<char>, note: Option<Seq<char>>) -> Seq<SpokenView> {
    let path = SpokenView { stream: Stream::Out, text: file + "\n"@ };
    match note {
        Some(held) => seq![SpokenView { stream: Stream::Aside, text: held + "\n"@ }, path],
        None => seq![path],
    }
}

/// Tells of an artifact that was found.
pub fn found(file: &str, note: Option<&str>) -> (r: Vec<Spoken>)
    ensures
        order::views(r@) == found_spoken(file@, list::optional_str(note)),
{
    let mut out: Vec<Spoken> = Vec::new();
    let path = Spoken { stream: Stream::Out, text: text::cat2(file, "\n") };
    let ghost last = path@;
    match note {
        Some(held) => {
            let aside = Spoken { stream: Stream::Aside, text: text::cat2(held, "\n") };
            let ghost first = aside@;
            out.push(aside);
            out.push(path);
            assert(order::views(out@) == seq![first, last]);
        },
        None => {
            out.push(path);
            assert(order::views(out@) == seq![last]);
        },
    }
    out
}

proof fn lemma_aside_not_heard(spoken: Seq<SpokenView>)
    requires
        forall|i: int|
            0 <= i < spoken.len() ==> (#[trigger] spoken[i]).stream == Stream::Aside,
    ensures
        heard(spoken, Stream::Out) == Seq::<char>::empty(),
    decreases spoken.len(),
{
    if spoken.len() > 0 {
        let rest = spoken.drop_last();
        assert forall|i: int| 0 <= i < rest.len() implies (#[trigger] rest[i]).stream
            == Stream::Aside by {
            assert(rest[i] == spoken[i]);
        }
        assert(spoken[spoken.len() - 1].stream == Stream::Aside);
        lemma_aside_not_heard(rest);
    }
}

proof fn lemma_heard_in_turn(first: Seq<SpokenView>, second: Seq<SpokenView>, stream: Stream)
    ensures
        heard(first + second, stream) == heard(first, stream) + heard(second, stream),
    decreases second.len(),
{
    let all = first + second;
    if second.len() == 0 {
        assert(all == first);
        assert(heard(first, stream) + Seq::<char>::empty() == heard(first, stream));
    } else {
        let rest = second.drop_last();
        assert(all.drop_last() == first + rest);
        assert(all.last() == second.last());
        lemma_heard_in_turn(first, rest, stream);
        assert(heard(first, stream) + (heard(rest, stream) + second.last().text) == heard(
            first,
            stream,
        ) + heard(rest, stream) + second.last().text);
    }
}

/// With a lookup standard output holds only the path of the artifact: whatever a build or
/// a dry run says, on the stream that its step gives it, nothing of it arrives there,
/// and then the path arrives, alone on its line.
pub proof fn lemma_out_is_only_the_path(
    plan: app::PlanView,
    dry_run: bool,
    said: Seq<SpokenView>,
    file: Seq<char>,
    note: Option<Seq<char>>,
)
    requires
        plan.extension is Some,
        match first_step(plan, dry_run) {
            BuildStepView::Show(_, stream) => forall|i: int|
                0 <= i < said.len() ==> (#[trigger] said[i]).stream == stream,
            BuildStepView::Run(_, stream) => forall|i: int|
                0 <= i < said.len() ==> (#[trigger] said[i]).stream == stream,
            _ => said.len() == 0,
        },
    ensures
        heard(said, Stream::Out) == Seq::<char>::empty(),
        heard(said + found_spoken(file, note), Stream::Out) == file + "\n"@,
{
    lemma_aside_not_heard(said);
    let then = found_spoken(file, note);
    lemma_heard_in_turn(said, then, Stream::Out);
    let path = then.last();
    let before = then.drop_last();
    assert(path == (SpokenView { stream: Stream::Out, text: file + "\n"@ }));
    assert forall|i: int| 0 <= i < before.len() implies (#[trigger] before[i]).stream
        == Stream::Aside by {
        assert(before[i] == then[i]);
    }
    lemma_aside_not_heard(before);
    assert(Seq::<char>::empty() + (Seq::<char>::empty() + path.text) == path.text);
}

} // verus!
