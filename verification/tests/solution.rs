//! Solution and project files.

use atp::error::AppError;
use atp::host::Host;
use atp::solution::{
    attribute, configuration_of, normalize_separators, parse_project_line, property_groups,
    tag_value, Project, Solution, SolutionEntry,
};

const SOLUTION: &str = "\nMicrosoft Visual Studio Solution File, Format Version 12.00\n\
    # Atmel Studio Solution File, Format Version 11.00\n\
    Project(\"{54F91283-7BC4-4236-8FF9-10F437C3AD48}\") = \"app\", \
    \"app\\app.cproj\", \"{DCE6C7E3-EE26-4D79-826B-08594B9AD897}\"\n\
    EndProject\n\
    Global\n\
    \tGlobalSection(SolutionConfigurationPlatforms) = preSolution\n\
    \t\tDebug|ARM = Debug|ARM\n\
    \t\tRelease_to_application_partition|ARM = Release_to_application_partition|ARM\n\
    \t\tRelease|ARM = Release|ARM\n\
    \tEndGlobalSection\n\
    \tGlobalSection(ProjectConfigurationPlatforms) = postSolution\n\
    \t\t{DCE6C7E3-EE26-4D79-826B-08594B9AD897}.Debug|ARM.ActiveCfg = Debug|ARM\n\
    \tEndGlobalSection\n\
    EndGlobal\n";

const PROJECT: &str = "\u{feff}<?xml version=\"1.0\" encoding=\"utf-8\"?>\n\
    <Project DefaultTargets=\"Build\" xmlns=\"http://schemas.microsoft.com/developer/msbuild/2003\">\n\
    <PropertyGroup>\n\
    <ToolchainName>com.Atmel.ARMGCC.C</ToolchainName>\n\
    <avrdevice>ATSAM4E8C</avrdevice>\n\
    <OutputType>Executable</OutputType>\n\
    <OutputFileName>$(MSBuildProjectName)</OutputFileName>\n\
    <OutputFileExtension>.elf</OutputFileExtension>\n\
    <OutputDirectory>$(MSBuildProjectDirectory)\\$(Configuration)</OutputDirectory>\n\
    <UncachedRange />\n\
    </PropertyGroup>\n\
    <PropertyGroup Condition=\" '$(Configuration)' == 'Release' \">\n\
    <ToolchainSettings><ArmGcc>\n\
    <armgcc.common.outputfiles.hex>True</armgcc.common.outputfiles.hex>\n\
    </ArmGcc></ToolchainSettings>\n\
    </PropertyGroup>\n\
    <PropertyGroup Condition=\" '$(Configuration)' == 'Debug' \">\n\
    <ToolchainSettings><ArmGcc /></ToolchainSettings>\n\
    </PropertyGroup>\n\
    </Project>\n";

fn project() -> Project {
    Project::parse(PROJECT, "/work/app/app.cproj", "app")
}

#[test]
fn reads_projects_and_configurations_from_a_solution() {
    let solution = Solution::parse(SOLUTION);
    assert_eq!(
        solution.entries,
        vec![SolutionEntry {
            name: "app".into(),
            relative_path: "app\\app.cproj".into(),
        }]
    );
    assert_eq!(
        solution.configurations,
        vec!["Debug", "Release_to_application_partition", "Release"]
    );
}

#[test]
fn ignores_the_project_configuration_section() {
    // Those lines also contain '=' and would otherwise add bogus names.
    let solution = Solution::parse(SOLUTION);
    assert!(!solution
        .configurations
        .iter()
        .any(|name| name.contains('{')));
}

#[test]
fn picks_the_only_project_without_being_asked() {
    let solution = Solution::parse(SOLUTION);
    assert_eq!(solution.entry(None).unwrap().name, "app");
    assert_eq!(solution.entry(Some("APP")).unwrap().name, "app");
}

#[test]
fn explains_an_unknown_project_name() {
    let solution = Solution::parse(SOLUTION);
    let error = solution.entry(Some("other")).unwrap_err();
    assert!(error.message().contains("no project named other"));
}

#[test]
fn reads_the_properties_atp_needs() {
    let project = project();
    assert_eq!(project.device.as_deref(), Some("ATSAM4E8C"));
    assert_eq!(project.default_extension(), "elf");
    assert_eq!(project.configurations, vec!["Release", "Debug"]);
}

#[test]
fn expands_msbuild_properties_in_the_output_path() {
    let project = project();
    let expected = "/work/app/Debug/app.elf";
    assert_eq!(project.artifact(Host::Wsl, "Debug", "elf"), expected);
    assert_eq!(project.artifact(Host::Wsl, "Debug", ".elf"), expected);
    assert_eq!(project.output_stem(Host::Wsl, "Debug"), "app");
}

#[test]
fn keeps_configuration_names_with_underscores_intact() {
    let project = project();
    let directory = project.output_directory(Host::Wsl, "Release_to_application_partition");
    assert!(directory.ends_with("/Release_to_application_partition"));
}

#[test]
fn reads_a_condition_attribute() {
    assert_eq!(
        configuration_of(" '$(Configuration)' == 'Debug' ").as_deref(),
        Some("Debug")
    );
    assert_eq!(configuration_of(" '$(Platform)' == 'ARM' "), None);
}

#[test]
fn treats_a_self_closing_tag_as_absent() {
    assert_eq!(tag_value("<a><UncachedRange /></a>", "UncachedRange"), None);
}

#[test]
fn loads_files_or_says_why_not() {
    let solution = Solution::load("/work/app.atsln", Ok(SOLUTION.as_bytes().to_vec())).unwrap();
    assert_eq!(solution.path, "/work/app.atsln");
    assert_eq!(solution.directory(Host::Wsl), "/work");
    assert_eq!(
        solution.project_path(Host::Wsl, &solution.entries[0]),
        "/work/app/app.cproj"
    );
    assert_eq!(solution.names(), vec!["app"]);
    assert_eq!(
        Solution::load("x.atsln", Err("gone".into())).unwrap_err(),
        AppError::Runtime("cannot read x.atsln: gone".into())
    );
    let project = Project::load(Host::Wsl, "/w/p.cproj", Ok(PROJECT.as_bytes().to_vec())).unwrap();
    assert_eq!((project.name.as_str(), project.path.as_str()), ("p", "/w/p.cproj"));
    assert_eq!(project.directory(Host::Wsl), "/w");
    assert_eq!(
        Project::load(Host::Wsl, "/", Ok(Vec::new())).unwrap_err(),
        AppError::Runtime("/ has no file name".into())
    );
    assert_eq!(
        Project::load(Host::Wsl, "/", Err("gone".into())).unwrap_err(),
        AppError::Runtime("cannot read /: gone".into())
    );
}

#[test]
fn explains_every_choice_between_projects() {
    let mut solution = Solution::parse(SOLUTION);
    solution.path = "s.atsln".into();
    assert_eq!(
        solution.entry(Some("x")).unwrap_err(),
        AppError::Usage("s.atsln has no project named x.\nIt holds: app".into())
    );
    solution.entries.push(SolutionEntry { name: "boot".into(), relative_path: "b".into() });
    assert_eq!(solution.entry(None).unwrap_err().exit_code(), 2);
    assert!(solution.entry(None).unwrap_err().message().contains("app, boot"));
    solution.entries.clear();
    assert_eq!(
        solution.entry(None).unwrap_err(),
        AppError::Runtime("s.atsln lists no projects".into())
    );
}

#[test]
fn offers_each_configuration_once() {
    let solution = Solution::parse(
        "GlobalSection(SolutionConfigurationPlatforms) = preSolution\n\
         Debug|ARM = Debug|ARM\nDebug|AVR = Debug|AVR\nRelease|ARM = Release|ARM\n\
         EndGlobalSection\n",
    );
    assert_eq!(solution.configurations, vec!["Debug", "Release"]);
    let project = Project::parse(
        "<PropertyGroup Condition=\"'$(Configuration)'=='A'\">x</PropertyGroup>\
         <PropertyGroup Condition=\"'$(Configuration)'=='A'\">y</PropertyGroup>",
        "p.cproj",
        "p",
    );
    assert_eq!(project.configurations, vec!["A"]);
}

#[test]
fn a_project_without_properties_has_the_usual_ones() {
    let project = Project::parse("", "/w/p.cproj", "p");
    assert_eq!(project.device, None);
    assert_eq!(project.default_extension(), "elf");
    assert_eq!(project.artifact(Host::Wsl, "Debug", "bin"), "/w/Debug/p.bin");
    let windows = Project::parse("", "C:\\w\\p.cproj", "p");
    assert_eq!(windows.artifact(Host::Windows, "Debug", "bin"), "C:\\w\\Debug\\p.bin");
}

#[test]
fn a_relative_output_directory_starts_from_the_project() {
    let xml = "<PropertyGroup><OutputDirectory>artifacts\\$(Configuration)</OutputDirectory>\
               <OutputFileName>$(AssemblyName)-fw</OutputFileName>\
               <OutputFileExtension>..hex</OutputFileExtension></PropertyGroup>";
    let project = Project::parse(xml, "/w/p.cproj", "p");
    assert_eq!(project.output_directory(Host::Wsl, "Debug"), "/w/artifacts/Debug");
    assert_eq!(project.output_stem(Host::Wsl, "Debug"), "p-fw");
    assert_eq!(project.default_extension(), "hex");
    assert_eq!(
        project.expand(Host::Wsl, "$(MSBuildProjectDirectory)/$(MSBuildProjectName)", "x"),
        "/w/p"
    );
}

#[test]
fn artifacts_come_in_the_order_people_want_them() {
    let files: Vec<String> = [
        "/o/app.map", "/o/app.BIN", "/o/other.elf", "/o/app.txt", "/o/app.elf", "/o/app", "/o/app.bin",
    ]
    .iter()
    .map(|file| file.to_string())
    .collect();
    assert_eq!(
        project().artifacts(Host::Wsl, "Debug", &files),
        vec!["/o/app.elf", "/o/app.BIN", "/o/app.bin", "/o/app.map"]
    );
    assert!(project().artifacts(Host::Wsl, "Debug", &Vec::new()).is_empty());
}

#[test]
fn splits_a_project_file_into_groups() {
    let groups = property_groups(
        "<PropertyGroup>a</PropertyGroup><PropertyGroup></PropertyGroup>\
         <PropertyGroup Condition=\"c\">b</PropertyGroup><PropertyGroup>open",
    );
    let found: Vec<(Option<&str>, &str)> = groups
        .iter()
        .map(|group| (group.condition.as_deref(), group.body.as_str()))
        .collect();
    assert_eq!(found, vec![(None, "a"), (Some("c"), "b")]);
    assert_eq!(attribute("<a Condition=\"x y\"", "Condition").as_deref(), Some("x y"));
    assert_eq!(attribute("<a Condition=\"x", "Condition"), None);
    assert_eq!(tag_value("<a> x </a>", "a").as_deref(), Some("x"));
    assert_eq!(tag_value("<a>  </a>", "a"), None);
}

#[test]
fn reads_a_project_line_or_leaves_it() {
    let entry = parse_project_line("Project(\"{X}\") = \"a\", \"a\\a.cproj\", \"{Y}\"").unwrap();
    assert_eq!((entry.name.as_str(), entry.relative_path.as_str()), ("a", "a\\a.cproj"));
    assert!(parse_project_line("Project(\"{X}\")").is_none());
    assert!(parse_project_line("Project(\"{X}\") = \"docs\", \"docs\", \"{Y}\"").is_none());
}

#[test]
fn separators_follow_the_host() {
    assert_eq!(normalize_separators(Host::Wsl, "a\\b/c"), "a/b/c");
    assert_eq!(normalize_separators(Host::Windows, "a\\b/c"), "a\\b\\c");
}
