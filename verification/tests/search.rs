//! Finding solutions and projects, and telling whether artifacts are stale.

use atp::app::Target;
use atp::error::AppError;
use atp::host::Host;
use atp::search::{
    directories_for, has_extension, is_skipped, search_downwards, single_match, solutions_in,
    Discovery, Listed, Progress,
};
use atp::solution::Project;
use atp::stale::{warn_if_stale, Seen, Walk};

const TREE: [(&str, &str); 9] = [
    ("/w", "app d"),
    ("/w", "readme f"),
    ("/w/app", "src d"),
    ("/w/app", "app.cproj f"),
    ("/w/app", "bin d"),
    ("/w/app/bin", "hidden.atsln f"),
    ("/w/app/src", "main.c f"),
    ("/", "w d"),
    ("/w/app", "deep d"),
];

fn listing(tree: &[(&str, &str)], directory: &str) -> Vec<Listed> {
    tree.iter()
        .filter(|(place, _)| *place == directory)
        .map(|(place, entry)| {
            let (name, kind) = entry.split_once(' ').unwrap();
            Listed {
                path: format!("{}/{name}", place.trim_end_matches('/')),
                directory: kind == "d",
            }
        })
        .collect()
}

fn discover(tree: &[(&str, &str)], start: &str) -> Result<String, AppError> {
    let mut discovery = Discovery::new(Host::Wsl, start);
    loop {
        let directory = discovery.directory().unwrap();
        match discovery.discover(&listing(tree, &directory))? {
            Progress::Found(file) => return Ok(file),
            Progress::Next(next) => discovery = next,
        }
    }
}

#[test]
fn finds_the_solution_above() {
    let mut tree = TREE.to_vec();
    tree.push(("/w", "app.ATSLN f"));
    assert_eq!(discover(&tree, "/w/app/src").unwrap(), "/w/app.ATSLN");
    assert_eq!(discover(&tree, "/w").unwrap(), "/w/app.ATSLN");
    // One directory above the checkout the search goes down.
    assert_eq!(discover(&tree, "/").unwrap(), "/w/app.ATSLN");
}

#[test]
fn falls_back_to_a_project_below() {
    assert_eq!(discover(&TREE, "/w").unwrap(), "/w/app/app.cproj");
}

#[test]
fn refuses_to_choose_between_two_solutions() {
    let mut tree = TREE.to_vec();
    tree.push(("/w", "b.atsln f"));
    tree.push(("/w", "a.atsln f"));
    assert_eq!(
        discover(&tree, "/w/app").unwrap_err(),
        AppError::Usage(
            "/w holds several .atsln files, so name the one to use:\n  /w/a.atsln\n  /w/b.atsln"
                .into()
        )
    );
    assert_eq!(
        discover(&tree, "/").unwrap_err(),
        AppError::Usage(
            "several .atsln files sit below /, so name the one to use:\n  /w/a.atsln\n  /w/b.atsln"
                .into()
        )
    );
}

#[test]
fn says_so_when_there_is_no_project_at_all() {
    let error = discover(&[], "/empty").unwrap_err();
    assert_eq!(error.exit_code(), 2);
    assert_eq!(
        error.message(),
        "no .atsln or .cproj found in or below /empty.\n\
         Run atp from a project directory, or name a solution in atp.toml."
    );
}

#[test]
fn looks_only_so_far_below() {
    let tree = [
        ("/s", "1 d"),
        ("/s/1", "2 d"),
        ("/s/1/2", "3 d"),
        ("/s/1/2/3", "4 d"),
        ("/s/1/2/3/4", "a.atsln f"),
        ("/s/1/2/3/4", "5 d"),
        ("/s/1/2/3/4/5", "b.atsln f"),
    ];
    assert_eq!(discover(&tree, "/s").unwrap(), "/s/1/2/3/4/a.atsln");
    assert!(discover(&tree[5..], "/s").is_err());
}

#[test]
fn directories_of_tools_are_not_entered() {
    for name in [".git", ".vs", "node_modules", "target", "obj", "bin"] {
        assert!(is_skipped(Host::Wsl, &format!("/w/{name}")));
    }
    assert!(!is_skipped(Host::Wsl, "/w/src"));
    assert!(!is_skipped(Host::Wsl, "/"));
}

#[test]
fn matches_are_single_or_refused() {
    let entries = listing(&[("/w", "a.cproj f"), ("/w", "b.txt f")], "/w");
    assert_eq!(
        single_match(Host::Wsl, "/w", "cproj", &entries).unwrap(),
        Some("/w/a.cproj".into())
    );
    assert_eq!(single_match(Host::Wsl, "/w", "atsln", &entries).unwrap(), None);
    assert_eq!(search_downwards(Host::Wsl, "/w", "atsln", Vec::new()).unwrap(), None);
    assert_eq!(
        search_downwards(Host::Wsl, "/w", "atsln", vec!["/x".into()]).unwrap(),
        Some("/x".into())
    );
    assert!(has_extension(Host::Wsl, "a.AtSln", "atsln"));
    assert!(!has_extension(Host::Wsl, "atsln", "atsln"));
}

#[test]
fn solutions_are_looked_for_beside_a_project_and_above() {
    assert_eq!(directories_for(Host::Wsl, "/w/app/app.cproj"), vec!["/w/app", "/w"]);
    assert!(directories_for(Host::Wsl, "/app.cproj").is_empty());
    let entries = listing(&[("/w", "b.atsln f"), ("/w", "a.atsln f"), ("/w", "c.txt f")], "/w");
    assert_eq!(solutions_in(Host::Wsl, &entries), vec!["/w/a.atsln", "/w/b.atsln"]);
}

fn target() -> Target {
    let mut project = Project::parse("", "/w/app/app.cproj", "app");
    project.configurations.push("Debug".into());
    Target {
        solution: None,
        project,
        project_name: None,
        configuration: "Debug".into(),
    }
}

fn newest(tree: &[(&str, Seen)]) -> Option<i128> {
    let mut walk = Walk::newest_source(Host::Wsl, &target());
    while let Some(directory) = walk.directory() {
        let entries: Vec<Seen> = tree
            .iter()
            .filter(|(place, _)| *place == directory)
            .map(|(_, seen)| seen.clone())
            .collect();
        walk.walk(&entries);
    }
    walk.newest
}

#[test]
fn finds_the_last_change_outside_the_build_output() {
    let file = |path: &str, time: i128| Seen {
        path: path.into(),
        directory: false,
        modified: Some(time),
    };
    let directory = |path: &str| Seen { path: path.into(), directory: true, modified: Some(99) };
    let tree = vec![
        ("/w/app", directory("/w/app/Debug")),
        ("/w/app", directory("/w/app/src")),
        ("/w/app", directory("/w/app/.git")),
        ("/w/app", file("/w/app/a.c", 5)),
        ("/w/app/src", file("/w/app/src/b.c", 7)),
        ("/w/app/src", Seen { path: "/w/app/src/c.c".into(), directory: false, modified: None }),
        ("/w/app/Debug", file("/w/app/Debug/app.elf", 50)),
        ("/w/app/.git", file("/w/app/.git/x", 60)),
    ];
    assert_eq!(newest(&tree), Some(7));
    assert_eq!(newest(&[]), None);
}

#[test]
fn warns_when_the_artifacts_are_older_than_the_sources() {
    assert_eq!(
        warn_if_stale(&target(), &vec![Some(9), None, Some(4)], Some(5)).as_deref(),
        Some("note: app [Debug] is older than the sources. Run atp build.")
    );
    assert_eq!(warn_if_stale(&target(), &vec![Some(5)], Some(5)), None);
    assert_eq!(warn_if_stale(&target(), &vec![None], Some(5)), None);
    assert_eq!(warn_if_stale(&target(), &vec![Some(1)], None), None);
}
