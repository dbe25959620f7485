//! Build logs and what is shown of them.

use atp::host::{Host, Mounts, Paths};
use atp::report::{
    file_size, is_generated, is_note, label, merge, parse, parse_counts, parse_diagnostic,
    parse_memory, push_unique, relative_to, render, render_diagnostic, split_positioned,
    split_severity, split_unpositioned, thousands, Diagnostic, Severity, Style,
};

const FAILED: &str = "------ Build started: Project: app, Configuration: Debug ARM ------\n\
    Build started.\n\
    \t\tBuilding file: ../src/main.c\n\
    C:\\work\\app\\src\\main.c(295,6): warning: unused variable 'unused' [-Wunused-variable]\n\
    \t\t  int unused = 0;\n\
    \t\t      ^~~~~~\n\
    C:\\work\\app\\src\\main.c(301,9): error: implicit declaration of function 'missing' [-Werror=implicit-function-declaration]\n\
    \t\t  return missing();\n\
    \t\tcc1.exe: some warnings being treated as errors\n\
    \t\tmake: *** [src/main.o] Error 1\n\
    C:\\work\\app\\Debug\\Makefile(1946,1): error: recipe for target 'src/main.o' failed\n\
    Build FAILED.\n\
    ========== Build: 0 succeeded or up-to-date, 1 failed, 0 skipped ==========\n";

const SUCCEEDED: &str = "------ Build started: Project: app, Configuration: Debug ARM ------\n\
    C:\\work\\app\\Debug\\app.elf(0,0): warning: Command Line Exceeds Limit app.elf\n\
    \t\t\tProgram Memory Usage \t:\t135656 bytes   25.9 % Full\n\
    \t\t\tData Memory Usage \t\t:\t63048 bytes   48.1 % Full\n\
    Build succeeded.\n\
    ========== Build: 1 succeeded or up-to-date, 0 failed, 0 skipped ==========\n";

fn wsl() -> Paths {
    Paths { host: Host::Wsl, mounts: Mounts::automount() }
}

#[test]
fn reads_diagnostics_out_of_a_failed_build() {
    let report = parse(FAILED, Some("C:\\work\\app\\Debug"));
    assert!(!report.succeeded);
    assert_eq!(report.errors(), 1);
    assert_eq!(report.warnings(), 1);

    let error = report
        .diagnostics
        .iter()
        .find(|diagnostic| diagnostic.severity == Severity::Error && !diagnostic.from_build_system)
        .unwrap();
    assert_eq!(error.file.as_deref(), Some("C:\\work\\app\\src\\main.c"));
    assert_eq!((error.line, error.column), (301, 9));
    assert!(error.message.starts_with("implicit declaration"));
}

#[test]
fn treats_makefile_messages_as_build_system_noise() {
    let report = parse(FAILED, Some("C:\\work\\app\\Debug"));
    let makefile = report
        .diagnostics
        .iter()
        .find(|diagnostic| {
            diagnostic
                .file
                .as_deref()
                .is_some_and(|file| file.ends_with("Makefile"))
        })
        .unwrap();
    assert!(makefile.from_build_system);
    // It must not inflate the error count the user is shown.
    assert_eq!(report.errors(), 1);
}

#[test]
fn keeps_the_toolchain_notes() {
    let report = parse(FAILED, None);
    assert!(report.notes.iter().any(|note| note.starts_with("cc1.exe:")));
    assert!(report.notes.iter().any(|note| note.contains("Error 1")));
}

#[test]
fn ignores_indented_source_excerpts() {
    // "  int unused = 0;" must not be mistaken for a message.
    let report = parse(FAILED, None);
    assert!(!report
        .diagnostics
        .iter()
        .any(|diagnostic| diagnostic.message.contains("int unused")));
}

#[test]
fn reads_memory_usage_and_success() {
    let report = parse(SUCCEEDED, Some("C:\\work\\app\\Debug"));
    assert!(report.succeeded);
    let program = report.program.clone().unwrap();
    assert_eq!(program.bytes, 135_656);
    assert!((program.percent.parse::<f64>().unwrap() - 25.9).abs() < 0.01);
    assert_eq!(report.data.clone().unwrap().bytes, 63_048);
    // The linker's own warning is not the user's problem.
    assert_eq!(report.warnings(), 0);
}

#[test]
fn does_not_call_a_build_successful_when_no_project_built() {
    // Atmel Studio exits zero when a project fails to load, so the counts
    // in the summary line are what decide.
    let log = "C:\\work\\app\\app.cproj : error  : Value cannot be null.\n\
        ========== Build: 0 succeeded or up-to-date, 0 failed, 0 skipped ==========\n";
    let report = parse(log, None);
    assert!(!report.succeeded);
    assert_eq!(report.errors(), 1);
    assert_eq!(report.diagnostics[0].message, "Value cannot be null.");
}

#[test]
fn keeps_msbuild_error_codes() {
    let log = "C:\\a\\b.targets(31,5): error MSB6003: The task could not be run.\n";
    let report = parse(log, None);
    assert_eq!(
        report.diagnostics[0].message,
        "MSB6003: The task could not be run."
    );
}

#[test]
fn folds_repeated_messages_together() {
    let line = "C:\\work\\app\\src\\util.h(4,1): warning: unused parameter 'x' [-Wunused]\n";
    let report = parse(&line.repeat(3), None);
    assert_eq!(report.diagnostics.len(), 1);
    assert_eq!(report.diagnostics[0].count, 3);
    assert_eq!(report.warnings(), 3);
}

#[test]
fn formats_numbers_for_reading() {
    assert_eq!(thousands(0), "0");
    assert_eq!(thousands(999), "999");
    assert_eq!(thousands(135_656), "135,656");
    assert_eq!(file_size(512), "512 B");
    assert_eq!(file_size(2048), "2.0 KB");
}

#[test]
fn reads_the_summary_and_the_verdict() {
    let report = parse(SUCCEEDED, None);
    assert_eq!(
        report.summary.as_deref(),
        Some("Build: 1 succeeded or up-to-date, 0 failed, 0 skipped")
    );
    // A bare MSBuild run writes no tally.
    assert!(parse("Build succeeded.\n", None).succeeded);
    assert!(!parse("Build succeeded.\nBuild FAILED.\n", None).succeeded);
    assert!(!parse("", None).succeeded);
    assert!(!parse("Build succeeded.\n========== Build: 1 succeeded, 1 failed ==========\n", None)
        .succeeded);
    // An error is a failure even where it is about a generated file.
    assert!(!parse("a.mk(1,1): error: x\nBuild succeeded.\n", None).succeeded);
}

#[test]
fn reads_the_counts_of_a_tally() {
    assert_eq!(parse_counts(" 1 succeeded or up-to-date, 2 failed, 0 skipped ====="), (1, 2));
    assert_eq!(parse_counts("failed, x succeeded"), (0, 0));
    assert_eq!(parse_counts("3 failed, 4 failed"), (0, 4));
}

#[test]
fn reads_memory_figures() {
    let memory = parse_memory("Data Memory Usage : 12 bytes 3.5 % Full", "Data Memory Usage").unwrap();
    assert_eq!((memory.bytes, memory.percent.as_str()), (12, "3.5"));
    assert!(parse_memory("Data Memory Usage : 12 words 3.5 %", "Data Memory Usage").is_none());
    assert!(parse_memory("Data Memory Usage : x bytes 3.5 %", "Data Memory Usage").is_none());
    assert!(parse_memory("Data Memory Usage : 12 bytes", "Data Memory Usage").is_none());
    assert!(parse_memory("nothing", "Data Memory Usage").is_none());
}

#[test]
fn tells_notes_from_other_lines() {
    assert!(is_note("cc1.exe: x"));
    assert!(is_note("cc1plus.exe: x"));
    assert!(is_note("collect2.exe: x"));
    assert!(is_note("make: *** Error 2"));
    assert!(!is_note("make: nothing"));
    let mut notes: Vec<String> = Vec::new();
    push_unique(&mut notes, "a".into());
    push_unique(&mut notes, "b".into());
    push_unique(&mut notes, "a".into());
    assert_eq!(notes, vec!["a", "b"]);
}

#[test]
fn splits_lines_with_and_without_a_position() {
    let place = split_positioned("C:\\a (x)(2, 3): warning: w").unwrap();
    assert_eq!(
        (place.file.as_str(), place.line, place.column, place.rest.as_str()),
        ("C:\\a (x)", 2, 3, "warning: w")
    );
    assert!(split_positioned("(2,3): x").is_none());
    assert!(split_positioned("a(2): x").is_none());
    assert!(split_positioned("a(2,y): x").is_none());
    let place = split_unpositioned("C:\\a.cproj : error  : gone").unwrap();
    assert_eq!(
        (place.file.as_str(), place.line, place.rest.as_str()),
        ("C:\\a.cproj", 0, "error  : gone")
    );
    assert!(split_unpositioned(" : error : x").is_none());
    assert!(split_unpositioned("x").is_none());
}

#[test]
fn reads_the_severity_of_a_message() {
    assert_eq!(split_severity("warning: w"), Some((Severity::Warning, "w".into())));
    assert_eq!(split_severity("error  : e"), Some((Severity::Error, "e".into())));
    assert_eq!(split_severity("error C1: e"), Some((Severity::Error, "C1: e".into())));
    assert_eq!(split_severity("note: n"), None);
    assert_eq!(split_severity("error"), None);
    assert!(parse_diagnostic("main.c: In function 'helper':", None).is_none());
}

#[test]
fn recognises_generated_files() {
    assert!(is_generated("C:\\x\\MAKEFILE", None));
    assert!(is_generated("rules.MK", None));
    assert!(is_generated("c:\\App\\debug\\x.c", Some("C:\\app\\Debug")));
    assert!(!is_generated("C:\\app\\src\\x.c", Some("C:\\app\\Debug")));
    assert!(!is_generated("C:\\app\\src\\x.c", None));
}

#[test]
fn a_log_read_twice_over_counts_everything_twice() {
    for log in [FAILED, SUCCEEDED] {
        let once = parse(log, None);
        let twice = parse(&log.repeat(2), None);
        assert_eq!(twice.diagnostics.len(), once.diagnostics.len());
        for (first, second) in once.diagnostics.iter().zip(&twice.diagnostics) {
            assert_eq!(second.count, 2 * first.count);
            assert_eq!((&second.file, &second.message), (&first.file, &first.message));
        }
        assert_eq!(twice.notes, once.notes);
        assert_eq!(twice.summary, once.summary);
        assert_eq!(twice.succeeded, once.succeeded);
        assert_eq!((twice.program, twice.data), (once.program, once.data));
    }
}

fn warning(line: u32) -> Diagnostic {
    Diagnostic {
        severity: Severity::Warning,
        file: Some("C:\\work\\a.c".into()),
        line,
        column: 1,
        message: "w".into(),
        from_build_system: false,
        count: 1,
    }
}

#[test]
fn merging_counts_what_repeats_and_adds_the_rest() {
    let mut held = vec![warning(1)];
    merge(&mut held, warning(2));
    merge(&mut held, warning(1));
    assert_eq!(held.len(), 2);
    assert_eq!((held[0].count, held[1].count), (2, 1));
}

#[test]
fn shows_only_so_many_warnings_and_counts_the_rest() {
    let mut report = parse("", None);
    for line in 1..=30 {
        report.diagnostics.push(warning(line));
    }
    report.diagnostics[29].count = 3;
    report.notes.push("n".into());
    let lines = render(&report, &wsl(), &Style::new(false), "/mnt/c/work", false);
    assert_eq!(lines.len(), 27);
    assert_eq!(lines[0], "   warning a.c:1:1: w");
    assert_eq!(lines[25], "       ... 7 more warnings, run with --verbose to see them");
    assert_eq!(lines[26], "      note n");
    let lines = render(&report, &wsl(), &Style::new(false), "/mnt/c/work", true);
    assert_eq!(lines.len(), 31);
    assert_eq!(lines[29], "   warning a.c:30:1: w (3x)");
}

#[test]
fn build_system_messages_are_shown_only_when_asked_for() {
    let report = parse(FAILED, Some("C:\\work\\app\\Debug"));
    let quiet = render(&report, &wsl(), &Style::new(false), "/mnt/c/work/app", false);
    assert_eq!(
        quiet,
        vec![
            "   warning src/main.c:295:6: unused variable 'unused' [-Wunused-variable]",
            "     error src/main.c:301:9: implicit declaration of function 'missing' [-Werror=implicit-function-declaration]",
            "      note cc1.exe: some warnings being treated as errors",
            "      note make: *** [src/main.o] Error 1",
        ]
    );
    let verbose = render(&report, &wsl(), &Style::new(false), "/mnt/c/work/app", true);
    assert_eq!(verbose.len(), 5);
    assert!(verbose[2].contains("Debug/Makefile:1946:1: recipe"));
}

#[test]
fn shows_a_diagnostic_with_and_without_a_place() {
    let style = Style::new(true);
    let mut diagnostic = warning(0);
    diagnostic.severity = Severity::Error;
    assert_eq!(
        render_diagnostic(&diagnostic, &wsl(), &style, "/"),
        "\u{1b}[1;31m     error\u{1b}[0m mnt/c/work/a.c: w"
    );
    diagnostic.file = None;
    assert_eq!(
        render_diagnostic(&diagnostic, &wsl(), &Style::new(false), "/"),
        "     error w"
    );
}

#[test]
fn paints_only_in_colour() {
    assert_eq!(Style::new(false).green("x"), "x");
    assert_eq!(Style::new(true).green("x"), "\u{1b}[1;32mx\u{1b}[0m");
    assert_eq!(Style::new(true).yellow("x"), "\u{1b}[1;33mx\u{1b}[0m");
    assert_eq!(Style::new(true).cyan("x"), "\u{1b}[1;36mx\u{1b}[0m");
    assert_eq!(Style::new(true).dim("x"), "\u{1b}[2mx\u{1b}[0m");
    assert_eq!(Style::new(true).red("x"), "\u{1b}[1;31mx\u{1b}[0m");
}

#[test]
fn labels_line_up() {
    for shown in ["", "Building", "Rebuilding", "a longer label", "caf\u{e9}"] {
        assert_eq!(label(shown), format!("{shown:>10}"));
    }
}

#[test]
fn shortens_paths_below_the_working_directory() {
    assert_eq!(relative_to(Host::Wsl, "/a/b/c", "/a"), "b/c");
    assert_eq!(relative_to(Host::Wsl, "/a", "/a"), "/a");
    assert_eq!(relative_to(Host::Wsl, "/ab", "/a"), "/ab");
}

#[test]
fn separators_leave_the_digits_alone() {
    for value in [0, 7, 12, 123, 1_234, 12_345, 1_000_000, u64::MAX] {
        assert_eq!(thousands(value).replace(',', ""), value.to_string());
    }
    assert_eq!(thousands(1_234_567), "1,234,567");
}

#[test]
fn sizes_are_rounded_as_floating_point_is() {
    let mut sizes: Vec<u64> = Vec::new();
    for shift in 10..64 {
        for offset in 0..70u64 {
            sizes.push((1u64 << shift).wrapping_add(offset * 13));
            sizes.push((1u64 << shift).wrapping_sub(offset * 7));
        }
    }
    for step in 0..2000u64 {
        sizes.push(1024 + step * 3);
        sizes.push((1 << 20) + step * 1311);
        sizes.push(u64::MAX - step * 1_234_567);
    }
    for bytes in sizes {
        let expected = if bytes >= 1 << 20 {
            format!("{:.1} MB", bytes as f64 / 1048576.0)
        } else if bytes >= 1 << 10 {
            format!("{:.1} KB", bytes as f64 / 1024.0)
        } else {
            format!("{bytes} B")
        };
        assert_eq!(file_size(bytes), expected, "{bytes}");
    }
}
