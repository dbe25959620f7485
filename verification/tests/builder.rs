//! What is run for a build, and what is made of its log.

use atp::builder::{
    command_line, current_file, executable, launch, log_path, msbuild, msbuild_candidates,
    msbuild_log, native_program, outcome, truncate, working_directory, Action, Backend,
    Installation, Request, Sight, Step, Watch,
};
use atp::error::AppError;
use atp::host::{Host, Mounts, Paths};
use atp::path::Place;
use atp::solution::Project;

fn wsl() -> Paths {
    Paths { host: Host::Wsl, mounts: Mounts::automount() }
}

fn request(backend: Backend) -> Request {
    Request {
        solution: "/mnt/c/work/app.atsln".into(),
        project: Project::parse("", "/mnt/c/work/app/app.cproj", "app"),
        project_name: None,
        configuration: "Debug".into(),
        action: Action::Build,
        backend,
        extra: vec!["/verbosity:diag".into()],
    }
}

fn studio() -> Installation {
    Installation { root: "/mnt/c/Studio".into() }
}

fn place(path: &str, present: bool) -> Place {
    Place { path: path.into(), present }
}

#[test]
fn maps_actions_onto_both_backends() {
    assert_eq!(Action::Build.studio_switch(), "/Build");
    assert_eq!(Action::Rebuild.studio_switch(), "/Rebuild");
    assert_eq!(Action::Clean.msbuild_target(), "Clean");
    assert_eq!(Action::Rebuild.verb(), "Rebuilding");
}

#[test]
fn shortens_a_long_progress_line_from_the_left() {
    let long = "a".repeat(200);
    let shown = truncate(&long);
    assert_eq!(shown.chars().count(), 70);
    assert!(shown.starts_with("..."));
    assert_eq!(truncate("short"), "short");
}

#[test]
fn a_progress_line_ends_as_the_text_does() {
    let long: String = ('a'..='z').cycle().take(71).collect();
    assert_eq!(truncate(&long), format!("...{}", &long[4..]));
    assert_eq!(truncate(&long[1..]), &long[1..]);
}

#[test]
fn names_every_action() {
    assert_eq!(Action::Clean.studio_switch(), "/Clean");
    assert_eq!(Action::Build.msbuild_target(), "Build");
    assert_eq!(Action::Rebuild.msbuild_target(), "ReBuild");
    assert_eq!(Action::Build.verb(), "Building");
    assert_eq!(Action::Clean.verb(), "Cleaning");
}

#[test]
fn builds_the_studio_command_line() {
    let mut wanted = request(Backend::Studio);
    assert_eq!(
        command_line(&wanted, &wsl(), &studio(), &Vec::new()).unwrap(),
        vec![
            "C:\\Studio\\AtmelStudio.exe",
            "C:\\work\\app.atsln",
            "/Build",
            "Debug",
            "/out",
            "C:\\work\\app\\Debug\\atp-build.log",
            "/verbosity:diag",
        ]
    );
    wanted.project_name = Some("app".into());
    wanted.action = Action::Rebuild;
    assert_eq!(
        command_line(&wanted, &wsl(), &studio(), &Vec::new()).unwrap()[2..8],
        ["/Rebuild", "Debug", "/project", "app", "/out", "C:\\work\\app\\Debug\\atp-build.log"]
    );
}

#[test]
fn builds_the_msbuild_command_line() {
    let places = vec![place("/mnt/c/a/MSBuild.exe", false), place("/mnt/c/b/MSBuild.exe", true)];
    assert_eq!(
        command_line(&request(Backend::MsBuild), &wsl(), &studio(), &places).unwrap(),
        vec![
            "C:\\b\\MSBuild.exe",
            "C:\\work\\app\\app.cproj",
            "/p:Configuration=Debug",
            "/t:Build",
            "/nologo",
            "/v:normal",
            "/verbosity:diag",
        ]
    );
    assert_eq!(
        command_line(&request(Backend::MsBuild), &wsl(), &studio(), &Vec::new()).unwrap_err(),
        AppError::Runtime(
            "cannot find the .NET Framework MSBuild that Atmel's targets need.".into()
        )
    );
    assert_eq!(msbuild(&places).unwrap(), "/mnt/c/b/MSBuild.exe");
    assert_eq!(
        msbuild_candidates(&wsl()).unwrap()[1],
        "/mnt/c/Windows/Microsoft.NET/Framework/v4.0.30319/MSBuild.exe"
    );
}

#[test]
fn refuses_to_build_what_windows_cannot_open() {
    let mut wanted = request(Backend::Studio);
    wanted.solution = "/home/dev/app.atsln".into();
    let error = command_line(&wanted, &wsl(), &studio(), &Vec::new()).unwrap_err();
    assert!(error.message().starts_with("/home/dev/app.atsln is inside the WSL file system"));
}

#[test]
fn says_what_to_start() {
    let plan = launch(&request(Backend::Studio), &wsl(), &studio(), &Vec::new()).unwrap();
    assert_eq!(plan.shown, "C:\\Studio\\AtmelStudio.exe");
    assert_eq!(plan.program, "/mnt/c/Studio/AtmelStudio.exe");
    assert_eq!(plan.arguments.len(), 6);
    assert_eq!(plan.directory, "/mnt/c/work");
    assert_eq!(plan.studio, None);
    let places = vec![place("/mnt/c/b/MSBuild.exe", true)];
    let plan = launch(&request(Backend::MsBuild), &wsl(), &studio(), &places).unwrap();
    assert_eq!(plan.studio.as_deref(), Some("/mnt/c/Studio"));
    assert_eq!(working_directory(Host::Wsl, &request(Backend::Studio)), "/mnt/c/work");
    assert_eq!(native_program(&wsl(), "\\\\x\\y"), "\\\\x\\y");
    assert_eq!(
        log_path(Host::Wsl, &request(Backend::Studio)),
        "/mnt/c/work/app/Debug/atp-build.log"
    );
}

#[test]
fn prefers_the_studio_that_the_user_points_at() {
    let found = Installation::candidates(&wsl(), Some("D:\\mine"), Some("/mnt/e/env")).unwrap();
    assert_eq!(found[0], "/mnt/d/mine");
    assert_eq!(found[1], "/mnt/e/env");
    assert_eq!(found[2], "/mnt/c/Program Files (x86)/Atmel/Studio/7.0");
    assert_eq!(found.len(), 6);
    assert_eq!(Installation::candidates(&wsl(), None, Some("")).unwrap().len(), 4);
    let installation =
        Installation::locate(&vec![place("/a", false), place("/b", true), place("/c", true)])
            .unwrap();
    assert_eq!(installation.root(), "/b");
    assert_eq!(installation.studio_executable(Host::Wsl), "/b/AtmelStudio.exe");
    assert_eq!(executable(Host::Windows, "C:\\S"), "C:\\S\\AtmelStudio.exe");
}

#[test]
fn says_where_studio_was_looked_for() {
    assert_eq!(
        Installation::locate(&vec![place("/a", false), place("/b", false)]).unwrap_err(),
        AppError::Runtime(
            "cannot find Atmel Studio. Tried:\n  /a\n  /b\n\
             Set its directory with --studio, ATP_STUDIO_ROOT, or [studio] root in atp.toml."
                .into()
        )
    );
    let none = Paths { host: Host::Wsl, mounts: Mounts { mounts: Vec::new() } };
    assert_eq!(
        Installation::candidates(&none, None, None).unwrap_err().message(),
        "drive C: is not mounted in this WSL distribution"
    );
}

#[test]
fn reads_the_outcome_from_the_log() {
    let wanted = request(Backend::Studio);
    let report = outcome(
        &wanted,
        &wsl(),
        "C:\\work\\app\\Debug\\x.c(1,1): warning: w\nBuild succeeded.\n",
        Some(1),
    )
    .unwrap();
    assert!(report.succeeded);
    // The file lies in the output directory, so it is not the user's.
    assert_eq!(report.warnings(), 0);
    assert_eq!(
        outcome(&wanted, &wsl(), "", Some(-3)).unwrap_err(),
        AppError::Runtime(
            "the build produced no log at /mnt/c/work/app/Debug/atp-build.log.\nExit code was -3."
                .into()
        )
    );
    assert!(outcome(&wanted, &wsl(), "", None).unwrap_err().message().contains("unknown"));
}

#[test]
fn an_msbuild_log_is_its_output_and_then_its_complaints() {
    assert_eq!(
        msbuild_log(&b"out\n".to_vec(), &b"bad \xff".to_vec()),
        "out\nbad \u{fffd}"
    );
}

#[test]
fn finds_the_file_that_is_being_compiled() {
    let log = "Build started.\n\t\tBuilding file: ../a.c\n\tBuilding file:  ../b.c \nx\n";
    assert_eq!(current_file(log).as_deref(), Some("../b.c"));
    assert_eq!(current_file("x\n"), None);
}

#[test]
fn shows_progress_only_when_it_changes() {
    let mut watch = Watch::new(true);
    let sight = Sight::Running(Some("Building file: a.c\n".into()));
    match watch.watch(&sight).unwrap() {
        Step::Show(shown) => assert_eq!(shown, "\r\u{1b}[2K Compiling a.c"),
        other => panic!("{other:?}"),
    }
    assert!(matches!(watch.watch(&sight).unwrap(), Step::Wait));
    assert!(matches!(watch.watch(&Sight::Running(None)).unwrap(), Step::Wait));
    match watch.watch(&Sight::Ended(Some(0))).unwrap() {
        Step::Done(shown, code) => assert_eq!((shown.as_str(), code), ("\r\u{1b}[2K", Some(0))),
        other => panic!("{other:?}"),
    }
    assert_eq!(
        watch.watch(&Sight::Lost("why".into())).unwrap_err(),
        AppError::Runtime("cannot wait for Atmel Studio: why".into())
    );
}

#[test]
fn shows_no_progress_when_told_not_to() {
    let mut watch = Watch::new(false);
    let sight = Sight::Running(Some("Building file: a.c\n".into()));
    assert!(matches!(watch.watch(&sight).unwrap(), Step::Wait));
    match watch.watch(&Sight::Ended(None)).unwrap() {
        Step::Done(shown, code) => assert_eq!((shown.as_str(), code), ("", None)),
        other => panic!("{other:?}"),
    }
}
