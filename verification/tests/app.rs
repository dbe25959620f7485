//! What each command decides and prints.

use atp::app::{
    action_for, announce, artifact_file, backend_for, choose_configuration, command_configs,
    command_output, command_projects, config_directory, configurations,
    configured_configuration, conclude, explain_discovery, is_solution, lists_projects, lookup,
    missing, no_such_file, open, plan_build, plural, quote, source_for, studio_root, style_for,
    take_from_working, Ending, Located, Source, Target,
};
use atp::builder::{Action, Backend};
use atp::config::{Config, ProjectConfig};
use atp::error::AppError;
use atp::host::{Host, Mounts, Paths};
use atp::report::{parse, Style};
use atp::solution::{Project, Solution, SolutionEntry};

const SOLUTION: &str = "Project(\"{X}\") = \"app\", \"app\\app.cproj\", \"{Y}\"\n\
    EndProject\n\
    GlobalSection(SolutionConfigurationPlatforms) = preSolution\n\
    Debug|ARM = Debug|ARM\n\
    Release_to_application_partition|ARM = Release_to_application_partition|ARM\n\
    Release|ARM = Release|ARM\n\
    EndGlobalSection\n";

const PROJECT: &str = "<PropertyGroup><avrdevice>ATSAM4E8C</avrdevice></PropertyGroup>";

fn paths() -> Paths {
    Paths { host: Host::Wsl, mounts: Mounts::automount() }
}

fn solution() -> Solution {
    Solution::load("/w/app.atsln", Ok(SOLUTION.as_bytes().to_vec())).unwrap()
}

fn located() -> Located {
    let inside = open(Host::Wsl, &solution(), None).unwrap();
    let project = Project::load(Host::Wsl, &inside.file, Ok(PROJECT.as_bytes().to_vec())).unwrap();
    Located::find(Some(solution()), project, inside.name, None, Backend::Studio).unwrap()
}

fn target(configuration: &str) -> Target {
    Target::resolve(&Config::empty(), located(), Some(configuration)).unwrap()
}

fn firmware() -> Config {
    let mut config = Config::empty();
    config.defaults.project = Some("firmware".into());
    config.projects.insert(
        "firmware".into(),
        ProjectConfig {
            description: Some("the one under test".into()),
            solution: Some("../app.atsln".into()),
            project: Some("app".into()),
            configuration: Some("Release".into()),
        },
    );
    config.directory = Some("settings".into());
    config
}

#[test]
fn counts_read_naturally() {
    assert_eq!(plural(0, "error"), "0 errors");
    assert_eq!(plural(1, "error"), "1 error");
    assert_eq!(plural(2, "warning"), "2 warnings");
}

#[test]
fn quotes_only_the_arguments_that_need_it() {
    let argv = vec![
        "C:\\Program Files\\AtmelStudio.exe".to_string(),
        "/Build".to_string(),
        "Debug".to_string(),
    ];
    assert_eq!(
        quote(&argv),
        "\"C:\\Program Files\\AtmelStudio.exe\" /Build Debug"
    );
}

#[test]
fn lists_the_configurations_in_the_solution_order() {
    let lines = command_configs(&Config::empty(), &located()).unwrap();
    let lines: Vec<&str> = lines.iter().map(|line| line.trim()).collect();
    assert_eq!(
        lines,
        vec![
            "app (ATSAM4E8C)",
            "Debug",
            "Release_to_application_partition",
            "Release",
        ]
    );
}

#[test]
fn prints_the_output_directory_before_it_exists() {
    assert_eq!(
        command_output(Host::Wsl, Some("/elsewhere"), &target("release")),
        "/w/app/Release"
    );
}

#[test]
fn resolves_relative_output_and_explicit_config_paths_before_output_exists() {
    let file = match source_for(&firmware(), &paths(), Some("firmware")).unwrap() {
        Source::Given(file, inner) => {
            assert_eq!(inner.as_deref(), Some("app"));
            file
        }
        other => panic!("{other:?}"),
    };
    let file = take_from_working(Host::Wsl, Some("/x"), &file);
    assert_eq!(file, "/x/settings/../app.atsln");
    assert_eq!(take_from_working(Host::Wsl, None, "a"), "a");
    let solution = Solution::load(&file, Ok(SOLUTION.as_bytes().to_vec())).unwrap();
    let inside = open(Host::Wsl, &solution, Some("app")).unwrap();
    let xml = "<PropertyGroup><OutputDirectory>artifacts\\$(Configuration)</OutputDirectory>\
               </PropertyGroup>";
    let project = Project::load(Host::Wsl, &inside.file, Ok(xml.as_bytes().to_vec())).unwrap();
    let located =
        Located::find(Some(solution), project, None, Some("firmware".into()), Backend::Studio)
            .unwrap();
    let target = Target::resolve(&firmware(), located, None).unwrap();
    assert_eq!(
        command_output(Host::Wsl, Some("/x"), &target),
        "/x/settings/../app/artifacts/Release"
    );
}

#[test]
fn refuses_to_guess_between_several_configurations() {
    assert_eq!(
        choose_configuration(None, &Config::empty(), &located()).unwrap_err(),
        AppError::Usage(
            "app offers several configurations, so choose one with --configuration:\n  \
             Debug\n  Release_to_application_partition\n  Release\n\
             Set a default with [defaults] configuration in atp.toml."
                .into()
        )
    );
}

#[test]
fn takes_the_only_configuration_without_being_asked() {
    let mut located = located();
    located.solution.as_mut().unwrap().configurations.truncate(1);
    assert_eq!(choose_configuration(None, &Config::empty(), &located).unwrap(), "Debug");
}

#[test]
fn names_the_configurations_when_one_is_misspelled() {
    assert_eq!(
        choose_configuration(Some("Debugg"), &Config::empty(), &located()).unwrap_err(),
        AppError::Usage(
            "app has no configuration named Debugg.\n\
             It offers: Debug, Release_to_application_partition, Release"
                .into()
        )
    );
}

#[test]
fn matches_a_configuration_whatever_its_case() {
    assert_eq!(
        choose_configuration(Some("debug"), &Config::empty(), &located()).unwrap(),
        "Debug"
    );
}

#[test]
fn the_later_choice_of_a_configuration_wins() {
    let mut located = located();
    located.name = Some("firmware".into());
    let mut config = firmware();
    config.defaults.configuration = Some("Debug".into());
    assert_eq!(choose_configuration(None, &config, &located).unwrap(), "Release");
    assert_eq!(choose_configuration(Some("DEBUG"), &config, &located).unwrap(), "Debug");
    located.name = None;
    assert_eq!(choose_configuration(None, &config, &located).unwrap(), "Debug");
    assert_eq!(configured_configuration(&config, Some("firmware")).as_deref(), Some("Release"));
    assert_eq!(configured_configuration(&config, Some("other")), None);
    assert_eq!(configured_configuration(&config, None), None);
}

#[test]
fn a_default_configuration_removes_the_need_for_the_option() {
    let mut config = Config::empty();
    config.defaults.configuration = Some("debug".into());
    assert_eq!(Target::resolve(&config, located(), None).unwrap().label(), "app [Debug]");
    assert_eq!(command_configs(&config, &located()).unwrap()[1], "    Debug (default)");
}

#[test]
fn configurations_come_from_the_project_where_the_solution_has_none() {
    let mut project = Project::parse("", "p.cproj", "p");
    assert!(configurations(&None, &project).is_empty());
    project.configurations.push("Debug".into());
    assert_eq!(configurations(&Some(Solution::parse("")), &project), vec!["Debug"]);
    let mut located = located();
    located.solution.as_mut().unwrap().configurations.clear();
    assert_eq!(
        command_configs(&Config::empty(), &located).unwrap_err(),
        AppError::Runtime("app declares no configurations".into())
    );
}

#[test]
fn flags_decide_what_build_does() {
    let none: Vec<String> = Vec::new();
    let some = vec!["/verbosity:diag".to_string()];
    let plan = plan_build(false, false, false, None, &some).unwrap();
    assert_eq!((plan.action, plan.extension), (Some(Action::Build), None));
    let plan = plan_build(true, false, false, None, &none).unwrap();
    assert_eq!(plan.action, Some(Action::Rebuild));
    let plan = plan_build(false, true, false, None, &none).unwrap();
    assert_eq!(plan.action, Some(Action::Clean));
    let plan = plan_build(false, false, true, None, &none).unwrap();
    assert_eq!((plan.action, plan.extension.as_deref()), (None, Some("elf")));
    let plan = plan_build(false, false, false, Some("bin"), &none).unwrap();
    assert_eq!((plan.action, plan.extension.as_deref()), (None, Some("bin")));
    let plan = plan_build(true, false, true, None, &some).unwrap();
    assert_eq!(
        (plan.action, plan.extension.as_deref()),
        (Some(Action::Rebuild), Some("elf"))
    );
    assert_eq!(action_for(true, true), Action::Clean);
}

#[test]
fn artifact_lookup_rejects_backend_arguments_without_rebuild() {
    let error =
        plan_build(false, false, true, None, &vec!["/verbosity:diag".to_string()]).unwrap_err();
    assert_eq!(error.exit_code(), 2);
    assert!(error.message().contains("backend arguments require -f"));
}

#[test]
fn clean_conflicts_with_artifact_lookup() {
    for (output, extension) in [(true, None), (false, Some("elf"))] {
        let error = plan_build(false, true, output, extension, &Vec::new()).unwrap_err();
        assert_eq!(error.exit_code(), 2);
    }
}

#[test]
fn chooses_a_backend() {
    let mut config = Config::empty();
    assert_eq!(backend_for(None, &config), Backend::Studio);
    config.defaults.backend = Some("MSBuild".into());
    assert_eq!(backend_for(None, &config), Backend::MsBuild);
    assert_eq!(backend_for(Some(Backend::Studio), &config), Backend::Studio);
    config.defaults.backend = Some("other".into());
    assert_eq!(backend_for(None, &config), Backend::Studio);
}

#[test]
fn studio_cannot_build_a_bare_project() {
    let project = Project::parse("", "/w/p.cproj", "p");
    let error =
        Located::find(None, project.clone(), None, None, Backend::Studio).unwrap_err();
    assert_eq!(
        error,
        AppError::Usage(
            "/w/p.cproj has no solution beside it, and Atmel Studio cannot build a project on its own.\n\
             Create a solution for it, or build with --backend msbuild."
                .into()
        )
    );
    assert!(Located::find(None, project, None, None, Backend::MsBuild).is_ok());
}

#[test]
fn finds_where_a_name_points() {
    let mut config = firmware();
    assert!(matches!(
        source_for(&config, &paths(), Some("app")).unwrap(),
        Source::Discovered(Some(name)) if name == "app"
    ));
    // The default of the file counts where no name is given.
    assert!(matches!(
        source_for(&config, &paths(), None).unwrap(),
        Source::Given(_, _)
    ));
    config.defaults.project = None;
    assert!(matches!(
        source_for(&config, &paths(), None).unwrap(),
        Source::Discovered(None)
    ));
    config.projects.insert(
        "bare".into(),
        ProjectConfig { description: None, solution: None, project: None, configuration: None },
    );
    assert_eq!(
        source_for(&config, &paths(), Some("bare")).unwrap_err(),
        AppError::Usage("[projects.bare] in atp.toml has no solution path".into())
    );
}

#[test]
fn says_what_the_file_names_when_nothing_is_found() {
    let reason = AppError::Usage("nothing".into());
    assert_eq!(
        explain_discovery(&firmware(), Some("x"), reason.clone()),
        AppError::Usage("x is not in atp.toml, which names: firmware\nnothing".into())
    );
    assert_eq!(explain_discovery(&firmware(), None, reason.clone()), reason);
    assert_eq!(explain_discovery(&Config::empty(), Some("x"), reason.clone()), reason);
    assert_eq!(no_such_file("a"), AppError::Usage("a does not exist".into()));
}

#[test]
fn tells_studio_the_project_only_when_there_is_a_choice() {
    let mut solution = solution();
    assert!(is_solution(Host::Wsl, "/w/app.ATSLN"));
    assert!(!is_solution(Host::Wsl, "/w/app.cproj"));
    let inside = open(Host::Wsl, &solution, Some("APP")).unwrap();
    assert_eq!((inside.file.as_str(), inside.name), ("/w/app/app.cproj", None));
    solution.entries.push(SolutionEntry { name: "b".into(), relative_path: "b.cproj".into() });
    let inside = open(Host::Wsl, &solution, Some("B")).unwrap();
    assert_eq!((inside.file.as_str(), inside.name.as_deref()), ("/w/b.cproj", Some("b")));
    assert!(open(Host::Wsl, &solution, None).is_err());
}

#[test]
fn a_build_asks_for_the_solution_or_else_the_project() {
    let request = target("Debug").request(Action::Build, Backend::Studio, vec!["x".into()]);
    assert_eq!(request.solution, "/w/app.atsln");
    assert_eq!(request.extra, vec!["x"]);
    let mut bare = target("Debug");
    bare.solution = None;
    let request = bare.request(Action::Clean, Backend::MsBuild, Vec::new());
    assert_eq!(request.solution, "/w/app/app.cproj");
    assert_eq!(request.configuration, "Debug");
}

fn ending(exit_code: Option<i32>, action: Action) -> Ending {
    Ending {
        action,
        label: "app [Debug]".into(),
        seconds: "25.1".into(),
        log: "/w/app/Debug/atp-build.log".into(),
        exit_code,
        program_percent: "25.9".into(),
        data_percent: "48.1".into(),
        artifact: "/w/app/Debug/app.elf".into(),
        size: Some(2_300_000),
    }
}

#[test]
fn ends_a_build_that_succeeded() {
    let log = "a.c(1,1): warning: w\nProgram Memory Usage : 135656 bytes 25.9 % Full\n\
               Data Memory Usage : 63048 bytes 48.1 % Full\nBuild succeeded.\n";
    let report = parse(log, None);
    let plain = Style::new(false);
    let (lines, result) =
        conclude(&ending(Some(0), Action::Build), &report, &plain, Host::Wsl, "/w", false);
    assert!(result.is_ok());
    assert_eq!(
        lines,
        vec![
            "  Finished app [Debug] in 25.1s \u{2014} 0 errors, 1 warning",
            "    Memory Program 135,656 B (25.9% full) \u{b7} Data 63,048 B (48.1% full)",
            "    Output app/Debug/app.elf (2.2 MB)",
        ]
    );
    let (lines, result) =
        conclude(&ending(Some(-1), Action::Build), &report, &plain, Host::Wsl, "/w", false);
    assert!(result.is_ok());
    assert_eq!(lines.len(), 4);
    assert_eq!(lines[3], "      note Atmel Studio exited -1; the log is what decided this");
    let (lines, _) =
        conclude(&ending(None, Action::Clean), &report, &plain, Host::Wsl, "/w", false);
    assert_eq!(lines, vec!["   Cleaned app [Debug] in 25.1s \u{2014} 0 errors, 1 warning"]);
    let (lines, result) =
        conclude(&ending(None, Action::Build), &report, &plain, Host::Wsl, "/w", true);
    assert!(lines.is_empty() && result.is_ok());
}

#[test]
fn ends_a_build_that_failed() {
    let report = parse("a.c(1,1): error: e\nBuild FAILED.\n", None);
    let (lines, result) = conclude(
        &ending(Some(0), Action::Build),
        &report,
        &Style::new(false),
        Host::Wsl,
        "/w",
        true,
    );
    assert_eq!(result.unwrap_err(), AppError::Exit(1));
    assert_eq!(
        lines,
        vec![
            "    Failed app [Debug] in 25.1s \u{2014} 1 error, 0 warnings",
            "       Log app/Debug/atp-build.log",
            "      note Atmel Studio exited 0; the log is what decided this",
        ]
    );
    let (lines, _) = conclude(
        &ending(Some(1), Action::Build),
        &report,
        &Style::new(false),
        Host::Wsl,
        "/w",
        false,
    );
    assert_eq!(lines.len(), 2);
    assert_eq!(
        announce(&Style::new(false), Action::Build, &target("Debug")),
        "  Building app [Debug]"
    );
}

#[test]
fn prints_the_artifact_path_for_the_wanted_extension() {
    assert_eq!(
        lookup(Host::Wsl, Some("/x"), &target("Debug"), "bin", true, &Vec::new()).unwrap(),
        "/w/app/Debug/app.bin"
    );
    assert_eq!(
        artifact_file(Host::Wsl, None, &target("Debug"), ".elf"),
        "/w/app/Debug/app.elf"
    );
}

#[test]
fn says_what_was_built_when_the_wanted_file_is_missing() {
    let files = vec!["/w/app/Debug/app.bin".to_string(), "/w/app/Debug/app.elf".to_string()];
    let error = lookup(Host::Wsl, Some("/x"), &target("Debug"), "srec", false, &files).unwrap_err();
    assert_eq!(
        error,
        AppError::Usage(
            "app [Debug] produced no .srec file.\nIt produced: elf, bin\n/w/app/Debug/app.srec"
                .into()
        )
    );
}

#[test]
fn says_when_nothing_has_been_built_yet() {
    let error = lookup(Host::Wsl, Some("/x"), &target("Debug"), "elf", false, &Vec::new()).unwrap_err();
    assert_eq!(
        error,
        AppError::Runtime("app [Debug] has not been built yet. Run atp build first.".into())
    );
    assert_eq!(missing(Host::Wsl, &target("Debug"), "elf", "x", &Vec::new()).exit_code(), 1);
}

#[test]
fn lists_the_projects_that_can_be_built() {
    assert_eq!(
        command_projects(&firmware(), &paths(), Some(&solution())),
        vec![
            "firmware (default)",
            "    the one under test",
            "    settings/../app.atsln",
            "",
            "in /w/app.atsln:",
            "    app",
        ]
    );
    assert_eq!(
        command_projects(&Config::empty(), &paths(), Some(&solution())),
        vec!["in /w/app.atsln:", "    app"]
    );
    assert_eq!(
        command_projects(&Config::empty(), &paths(), None),
        vec!["no projects configured, and no solution found here"]
    );
    let mut config = firmware();
    config.defaults.project = None;
    config.projects.insert(
        "firmware".into(),
        ProjectConfig {
            description: None,
            solution: Some("\\\\server\\x.atsln".into()),
            project: None,
            configuration: None,
        },
    );
    // What cannot be translated is shown as it is written.
    assert_eq!(
        command_projects(&config, &paths(), None),
        vec!["firmware", "    \\\\server\\x.atsln"]
    );
    assert!(lists_projects(Host::Wsl, "a.atsln"));
    assert!(!lists_projects(Host::Wsl, "a.ATSLN"));
}

#[test]
fn small_decisions_are_as_documented() {
    assert!(style_for(false, false, true).color);
    assert!(!style_for(true, false, true).color);
    assert!(!style_for(false, true, true).color);
    assert!(!style_for(false, false, false).color);
    assert_eq!(config_directory(Some("/c".into())).unwrap(), "/c");
    assert_eq!(
        config_directory(None).unwrap_err(),
        AppError::Runtime("cannot tell where your configuration directory is".into())
    );
    let mut config = Config::empty();
    config.studio.root = Some("file".into());
    let named = |choice, config: &Config| studio_root(choice, config, &paths()).unwrap();
    assert_eq!(named(Some("line"), &config).as_deref(), Some("line"));
    assert_eq!(named(None, &config).as_deref(), Some("file"));
    // A relative directory in the file starts from where the file is.
    config.directory = Some("/w".into());
    assert_eq!(named(None, &config).as_deref(), Some("/w/file"));
    assert_eq!(named(Some("line"), &config).as_deref(), Some("line"));
    config.studio.root = Some("C:\\Studio".into());
    assert_eq!(named(None, &config).as_deref(), Some("/mnt/c/Studio"));
    config.studio.root = Some("\\\\server\\x".into());
    assert!(studio_root(None, &config, &paths()).is_err());
    assert_eq!(named(None, &Config::empty()), None);
}
