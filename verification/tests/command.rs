//! The order of steps, and what is said on which stream.

use atp::app::{plan_build, BuildPlan, Ending, Target};
use atp::builder::Action;
use atp::command::{
    advance, announce, as_lines, begin, found, proceed, show, start, tell, BuildStep, Spoken, Step,
    Stream,
};
use atp::error::AppError;
use atp::host::{Host, Mounts, Paths};
use atp::report::{parse, Style};
use atp::solution::Project;

fn plan(rebuild: bool, output: bool, extension: Option<&str>) -> BuildPlan {
    plan_build(rebuild, false, output, extension, &Vec::new()).unwrap()
}

fn target() -> Target {
    Target {
        solution: None,
        project: Project::parse("", "/w/app/app.cproj", "app"),
        project_name: None,
        configuration: "Debug".into(),
    }
}

fn ending() -> Ending {
    Ending {
        action: Action::Build,
        label: "app [Debug]".into(),
        seconds: "1.0".into(),
        log: "/w/log".into(),
        exit_code: None,
        program_percent: "0.0".into(),
        data_percent: "0.0".into(),
        artifact: "/w/app.elf".into(),
        size: None,
    }
}

fn paths() -> Paths {
    Paths { host: Host::Wsl, mounts: Mounts::automount() }
}

fn heard(spoken: &[Spoken], stream: Stream) -> String {
    spoken
        .iter()
        .filter(|each| each.stream == stream)
        .map(|each| each.text.as_str())
        .collect()
}

#[test]
fn asks_for_a_command_when_given_none() {
    let error = start(false, false).unwrap_err();
    assert_eq!(error.exit_code(), 2);
    assert!(error.message().contains("a command is required"));
}

#[test]
fn prints_the_user_configuration_directory() {
    // Asking for it needs no command, no host and no file.
    for command in [false, true] {
        let step = start(true, command).unwrap();
        assert_eq!(step, Step::PrintDirectory);
        assert_eq!(proceed(step, Ok(())).unwrap(), Step::Done);
    }
}

#[test]
fn a_command_is_performed_once_the_file_has_been_read() {
    let mut step = start(false, true).unwrap();
    let mut taken = vec![step];
    while step != Step::Done {
        step = proceed(step, Ok(())).unwrap();
        taken.push(step);
    }
    assert_eq!(taken, vec![Step::Detect, Step::Configure, Step::Perform, Step::Done]);
    let reason = AppError::Runtime("x".into());
    assert_eq!(proceed(Step::Configure, Err(reason.clone())).unwrap_err(), reason);
}

#[test]
fn a_dry_run_only_shows_the_command() {
    let plan = plan(false, false, None);
    let step = begin(&plan, true);
    assert!(matches!(step, BuildStep::Show(Action::Build, Stream::Out)));
    assert!(matches!(advance(&plan, &step, Ok(())).unwrap(), BuildStep::Done));
    let argv = vec!["C:\\a b.exe".to_string(), "/Build".to_string()];
    let spoken = show(Stream::Out, &argv);
    assert_eq!((spoken.stream, spoken.text.as_str()), (Stream::Out, "\"C:\\a b.exe\" /Build\n"));
}

#[test]
fn a_build_without_a_lookup_tells_of_itself_on_standard_output() {
    let plan = plan(true, false, None);
    let step = begin(&plan, false);
    assert!(matches!(step, BuildStep::Run(Action::Rebuild, Stream::Out)));
    assert!(matches!(advance(&plan, &step, Ok(())).unwrap(), BuildStep::Done));
}

#[test]
fn lookup_does_not_need_a_studio_installation() {
    // Nothing is run, so nothing is looked for.
    for dry_run in [false, true] {
        let plan = plan(false, true, None);
        let step = begin(&plan, dry_run);
        assert!(matches!(&step, BuildStep::LookUp(extension) if extension == "elf"));
        assert!(matches!(advance(&plan, &step, Ok(())).unwrap(), BuildStep::Done));
    }
}

#[test]
fn rebuild_lookup_dry_run_reserves_stdout_for_the_artifact() {
    for plan in [plan(true, true, None), plan(true, false, Some("bin"))] {
        let step = begin(&plan, true);
        let BuildStep::Show(action, stream) = &step else {
            panic!("{step:?}");
        };
        assert_eq!(*action, Action::Rebuild);
        let argv = vec!["AtmelStudio.exe".to_string(), "/Rebuild".to_string()];
        let spoken = [show(*stream, &argv)];
        assert_eq!(heard(&spoken, Stream::Out), "");
        assert_eq!(heard(&spoken, Stream::Aside), "AtmelStudio.exe /Rebuild\n");
        assert!(matches!(advance(&plan, &step, Ok(())).unwrap(), BuildStep::Done));
    }
}

#[test]
fn failed_rebuild_never_prints_an_existing_artifact() {
    let plan = plan(true, true, None);
    let step = begin(&plan, false);
    let error = advance(&plan, &step, Err(AppError::Exit(1))).unwrap_err();
    assert_eq!(error.exit_code(), 1);
}

#[test]
fn with_a_lookup_standard_output_holds_only_the_path() {
    let plan = plan(true, true, None);
    let step = begin(&plan, false);
    let BuildStep::Run(action, stream) = &step else {
        panic!("{step:?}");
    };
    let style = Style::new(false);
    let log = "a.c(1,1): warning: w\nBuild succeeded.\n";
    let report = parse(log, None);
    let mut spoken = vec![announce(*stream, &style, *action, &target(), false)];
    let (told, result) =
        tell(*stream, &ending(), &report, log, &paths(), &style, "/w", true, false);
    spoken.push(told);
    assert!(result.is_ok());
    let next = advance(&plan, &step, result).unwrap();
    assert!(matches!(next, BuildStep::LookUp(_)));
    spoken.extend(found("/w/app/Debug/app.elf", Some("note: stale")));
    assert_eq!(heard(&spoken, Stream::Out), "/w/app/Debug/app.elf\n");
    assert!(heard(&spoken, Stream::Aside).ends_with("note: stale\n"));
}

#[test]
fn tells_of_a_build() {
    let style = Style::new(false);
    let log = "a.c(1,1): warning: w\nBuild succeeded.\n\n";
    let report = parse(log, None);
    let words = "   warning a.c:1:1: w\n  Finished app [Debug] in 1.0s \u{2014} 0 errors, 1 warning\n";
    let said = |verbose, quiet| {
        tell(Stream::Out, &ending(), &report, log, &paths(), &style, "/w", verbose, quiet).0.text
    };
    assert_eq!(said(false, false), words);
    // The log is printed as it is.
    assert_eq!(said(true, false), format!("{log}{words}"));
    assert_eq!(said(false, true), "   warning a.c:1:1: w\n");
    let failed = parse("Build FAILED.\n", None);
    let (spoken, result) =
        tell(Stream::Aside, &ending(), &failed, "", &paths(), &style, "/w", false, true);
    assert_eq!(result.unwrap_err(), AppError::Exit(1));
    assert_eq!(spoken.stream, Stream::Aside);
    assert!(spoken.text.starts_with("    Failed app [Debug]"));
}

#[test]
fn announces_a_build_unless_told_not_to() {
    let style = Style::new(false);
    let text = |quiet| announce(Stream::Out, &style, Action::Build, &target(), quiet).text;
    assert_eq!(text(false), "  Building app [Debug]\n");
    assert_eq!(text(true), "");
    assert_eq!(as_lines(&vec!["a".into(), "".into()]), "a\n\n");
    assert_eq!(found("x", None).len(), 1);
}
