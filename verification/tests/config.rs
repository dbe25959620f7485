//! The configuration file.

use atp::config::{discover, user_directory, Config, ProjectConfig};
use atp::error::AppError;
use atp::host::Host;
use atp::path::Place;

fn entry(solution: &str) -> ProjectConfig {
    ProjectConfig {
        description: None,
        solution: Some(solution.into()),
        project: None,
        configuration: None,
    }
}

fn sample() -> Config {
    let mut config = Config::empty();
    config.projects.insert(
        "udc4k".into(),
        ProjectConfig {
            description: Some("main firmware".into()),
            solution: Some("C:\\work\\app\\app.atsln".into()),
            project: None,
            configuration: Some("Debug".into()),
        },
    );
    config
}

#[test]
fn lists_the_configured_names() {
    // The names are what an unknown-project error offers the user.
    let config = sample();
    assert_eq!(config.names(), vec!["udc4k"]);
}

#[test]
fn resolves_relative_paths_against_the_file() {
    let mut config = Config::empty();
    config.directory = Some("/work".into());
    assert_eq!(
        config.resolve(Host::Wsl, "app/app.atsln"),
        "/work/app/app.atsln"
    );
    assert_eq!(config.resolve(Host::Wsl, "/other/app.atsln"), "/other/app.atsln");
    assert_eq!(
        config.resolve(Host::Windows, "C:\\other\\app.atsln"),
        "C:\\other\\app.atsln"
    );
}

#[test]
fn paths_without_a_file_stay_as_they_are() {
    assert_eq!(Config::empty().resolve(Host::Wsl, "app.atsln"), "app.atsln");
    let mut config = Config::empty();
    config.read_from(Host::Wsl, "settings/atp.toml");
    assert_eq!(config.resolve(Host::Wsl, "../app.atsln"), "settings/../app.atsln");
}

#[test]
fn names_are_kept_in_order_and_once() {
    let mut config = Config::empty();
    for name in ["b", "a", "c", "\u{e9}", "B", "b"] {
        config.projects.insert(name.into(), entry(name));
    }
    config.projects.insert("a".into(), entry("other"));
    assert_eq!(config.names(), vec!["B", "a", "b", "c", "\u{e9}"]);
    let held = config.projects.get("a").unwrap();
    assert_eq!(held.solution.as_deref(), Some("other"));
    assert_eq!(config.projects.get("b").unwrap().solution.as_deref(), Some("b"));
    assert!(config.projects.get("d").is_none());
    assert!(!config.projects.is_empty());
    assert!(Config::empty().projects.is_empty());
    assert_eq!(config.projects.list().len(), 5);
}

#[test]
fn a_named_file_must_exist_and_a_found_one_need_not() {
    let place = |path: &str, present: bool| Place { path: path.into(), present };
    assert_eq!(
        Config::file(Some(&place("nowhere.toml", false)), &Vec::new()).unwrap_err(),
        AppError::Usage("nowhere.toml does not exist".into())
    );
    assert_eq!(
        Config::file(Some(&place("a.toml", true)), &vec![place("b.toml", true)]).unwrap(),
        Some("a.toml".into())
    );
    assert_eq!(
        Config::file(None, &vec![place("a.toml", false), place("b.toml", true)]).unwrap(),
        Some("b.toml".into())
    );
    assert_eq!(Config::file(None, &Vec::new()).unwrap(), None);
}

#[test]
fn looks_for_the_file_in_order() {
    assert_eq!(
        discover(
            Host::Wsl,
            Some("/here"),
            Some("/bin/atp"),
            Some("/x"),
            Some("/a"),
            Some("/home/me")
        ),
        vec![
            "/here/atp.toml",
            "/bin/atp.toml",
            "/x/atp/atp.toml",
            "/home/me/.config/atp/atp.toml",
        ]
    );
    assert_eq!(
        discover(Host::Windows, None, None, Some("C:\\x"), Some("C:\\a"), Some("C:\\h")),
        vec!["C:\\x\\atp\\atp.toml", "C:\\a\\atp\\atp.toml"]
    );
    assert_eq!(
        discover(Host::Windows, None, None, Some(""), None, Some("C:\\h")),
        vec!["C:\\h\\.config\\atp\\atp.toml"]
    );
    assert!(discover(Host::Wsl, None, None, None, Some("/a"), None).is_empty());
}

#[test]
fn finds_the_user_directory() {
    let user = |host, xdg, appdata, home| user_directory(host, xdg, appdata, home);
    assert_eq!(
        user(Host::Wsl, Some("/x"), Some("/a"), Some("/h")).as_deref(),
        Some("/x/atp")
    );
    assert_eq!(
        user(Host::Wsl, Some(""), Some("/a"), Some("/h")).as_deref(),
        Some("/h/.config/atp")
    );
    assert_eq!(
        user(Host::Windows, None, Some("C:\\a"), Some("C:\\h")).as_deref(),
        Some("C:\\a\\atp")
    );
    assert_eq!(
        user(Host::Windows, None, Some(""), Some("C:\\h")).as_deref(),
        Some("C:\\h\\.config\\atp")
    );
    assert_eq!(user(Host::Wsl, None, Some("/a"), Some("")), None);
}
