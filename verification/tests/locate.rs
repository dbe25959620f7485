//! Finding the project that a command is about.

use atp::app::Located;
use atp::builder::Backend;
use atp::config::{Config, ProjectConfig};
use atp::error::AppError;
use atp::host::{Host, Mounts, Paths};
use atp::locate::{Answer, Locating, Owner, Ownership, Step, Want};
use atp::search::Listed;

const SOLUTION: &str = "Project(\"{X}\") = \"app\", \"app\\app.cproj\", \"{Y}\"\nEndProject\n";

const TWO: &str = "Project(\"{X}\") = \"app\", \"app\\app.cproj\", \"{Y}\"\nEndProject\n\
    Project(\"{X}\") = \"boot\", \"boot\\boot.cproj\", \"{Z}\"\nEndProject\n";

fn paths() -> Paths {
    Paths { host: Host::Wsl, mounts: Mounts::automount() }
}

/// Answers from a list of files and what they hold.
fn answer(files: &[(&str, &str)], want: &Want) -> Answer {
    match want {
        Want::Entries(directory) => {
            let front = format!("{}/", directory.trim_end_matches('/'));
            let mut entries: Vec<Listed> = Vec::new();
            for (file, _) in files {
                if let Some(rest) = file.strip_prefix(&front) {
                    let (name, below) = rest.split_once('/').unwrap_or((rest, ""));
                    entries.push(Listed {
                        path: format!("{front}{name}"),
                        directory: !below.is_empty(),
                    });
                }
            }
            Answer::Entries(entries)
        }
        Want::Existence(path) => Answer::Existence(files.iter().any(|(file, _)| file == path)),
        Want::Contents(path) => Answer::Contents(
            files
                .iter()
                .find(|(file, _)| file == path)
                .map(|(_, held)| held.as_bytes().to_vec())
                .ok_or("not there".to_string()),
        ),
        Want::Place(path) => {
            let there = files.iter().any(|(file, _)| file == path);
            Answer::Place(if there { Some(format!("/real{path}")) } else { None })
        }
    }
}

fn locate(
    files: &[(&str, &str)],
    config: &Config,
    wanted: Option<&str>,
    backend: Backend,
) -> Result<Located, AppError> {
    let mut locating = Locating::new(config, &paths(), &Ok("/w".into()), wanted, backend)?;
    loop {
        let want = locating.want().unwrap();
        match locating.step(config, answer(files, &want))? {
            Step::Found(located) => return Ok(located),
            Step::Next(next) => locating = next,
        }
    }
}

fn given(file: &str) -> Config {
    let mut config = Config::empty();
    config.projects.insert(
        "firmware".into(),
        ProjectConfig {
            description: None,
            solution: Some(file.into()),
            project: None,
            configuration: None,
        },
    );
    config
}

#[test]
fn reads_the_project_that_the_solution_names() {
    let files = [("/w/s.atsln", SOLUTION), ("/w/app/app.cproj", ""), ("/w/app/b.cproj", "")];
    let located = locate(&files, &Config::empty(), None, Backend::Studio).unwrap();
    assert_eq!(located.project.path, "/w/app/app.cproj");
    assert_eq!(located.solution.unwrap().path, "/w/s.atsln");
    assert_eq!(located.project_name, None);
}

#[test]
fn a_name_picks_the_project_inside() {
    let files = [("/w/s.atsln", TWO), ("/w/app/app.cproj", ""), ("/w/boot/boot.cproj", "")];
    let located = locate(&files, &Config::empty(), Some("BOOT"), Backend::Studio).unwrap();
    assert_eq!(located.project.path, "/w/boot/boot.cproj");
    assert_eq!(located.project_name.as_deref(), Some("boot"));
    assert_eq!(located.name.as_deref(), Some("BOOT"));
    let error = locate(&files, &Config::empty(), None, Backend::Studio).unwrap_err();
    assert!(error.message().contains("holds several projects"));
}

#[test]
fn finds_the_solution_that_owns_a_project() {
    let files = [
        ("/w/a.atsln", "Project(\"{X}\") = \"o\", \"o.cproj\", \"{Y}\"\n"),
        ("/w/b.atsln", SOLUTION),
        ("/w/c.atsln", SOLUTION),
        ("/w/app/app.cproj", ""),
    ];
    let config = given("/w/app/app.cproj");
    let located = locate(&files, &config, Some("firmware"), Backend::Studio).unwrap();
    assert_eq!(located.solution.unwrap().path, "/w/b.atsln");
    assert_eq!(located.project.path, "/w/app/app.cproj");
}

#[test]
fn a_project_without_a_solution_needs_msbuild() {
    let files = [("/w/app/app.cproj", "")];
    let error = locate(&files, &Config::empty(), None, Backend::Studio).unwrap_err();
    assert!(error.message().starts_with("/w/app/app.cproj has no solution beside it"));
    let located = locate(&files, &Config::empty(), None, Backend::MsBuild).unwrap();
    assert!(located.solution.is_none());
}

#[test]
fn says_why_nothing_was_located() {
    let config = given("/x/s.atsln");
    assert_eq!(
        locate(&[], &config, Some("firmware"), Backend::Studio).unwrap_err(),
        AppError::Usage("/x/s.atsln does not exist".into())
    );
    let error = locate(&[], &config, Some("other"), Backend::Studio).unwrap_err();
    assert!(error.message().starts_with("other is not in atp.toml, which names: firmware\nno .atsln"));
    let files = [("/w/s.atsln", SOLUTION)];
    assert_eq!(
        locate(&files, &Config::empty(), None, Backend::Studio).unwrap_err(),
        AppError::Runtime("cannot read /w/app/app.cproj: not there".into())
    );
}

#[test]
fn the_working_directory_is_needed_only_to_discover() {
    let gone: Result<String, String> = Err("it is gone".into());
    assert_eq!(
        Locating::new(&Config::empty(), &paths(), &gone, None, Backend::Studio).unwrap_err(),
        AppError::Runtime("cannot read the working directory: it is gone".into())
    );
    let wanted = Some("firmware");
    let locating =
        Locating::new(&given("/w/s.atsln"), &paths(), &gone, wanted, Backend::Studio).unwrap();
    assert!(matches!(locating.want(), Some(Want::Existence(path)) if path == "/w/s.atsln"));
    let here: Result<String, String> = Ok("/w".into());
    let locating =
        Locating::new(&given("s.atsln"), &paths(), &here, wanted, Backend::Studio).unwrap();
    assert!(matches!(locating.want(), Some(Want::Existence(path)) if path == "/w/s.atsln"));
}

#[test]
fn the_owner_is_looked_for_step_by_step() {
    let owner = Owner::new(Host::Wsl, "/w/app/app.cproj", "/place".into());
    assert!(matches!(owner.want(), Some(Want::Entries(path)) if path == "/w/app"));
    let entries = vec![Listed { path: "/w/app/s.atsln".into(), directory: false }];
    let owner = match owner.solution_for(Answer::Entries(entries)) {
        Ownership::Next(next) => next,
        other => panic!("{other:?}"),
    };
    let owner = match owner.solution_for(Answer::Contents(Ok(TWO.as_bytes().to_vec()))) {
        Ownership::Next(next) => next,
        other => panic!("{other:?}"),
    };
    assert!(matches!(owner.want(), Some(Want::Place(path)) if path == "/w/app/app/app.cproj"));
    let owner = match owner.solution_for(Answer::Place(Some("/elsewhere".into()))) {
        Ownership::Next(next) => next,
        other => panic!("{other:?}"),
    };
    match owner.solution_for(Answer::Place(Some("/place".into()))) {
        Ownership::Owned(file) => assert_eq!(file, "/w/app/s.atsln"),
        other => panic!("{other:?}"),
    }
    assert!(Owner::new(Host::Wsl, "/app.cproj", "/place".into()).want().is_none());
}
