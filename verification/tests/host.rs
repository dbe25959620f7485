//! Path translation between Windows and WSL.

use atp::error::AppError;
use atp::host::{
    enabled_in_binfmt_status, interop_handlers, interop_registered, looks_like_linux_path,
    looks_like_windows_path, running_under_wsl, unescape, Host, Mount, Mounts, Paths,
};

const PROC_MOUNTS: &str = "rootfs / wslfs rw,noatime 0 0\n\
    none /dev devtmpfs rw,nosuid 0 0\n\
    C:\\134 /mnt/c drvfs rw,noatime,uid=1000 0 0\n\
    D:\\134 /mnt/data\\040disk drvfs rw,noatime 0 0\n\
    snapfuse /snap/core squashfs ro 0 0\n";

fn mounts() -> Mounts {
    Mounts::parse(PROC_MOUNTS)
}

fn wsl() -> Paths {
    Paths { host: Host::Wsl, mounts: mounts() }
}

fn windows() -> Paths {
    Paths::detect(true, false, None).unwrap()
}

#[test]
fn reads_drive_mappings_from_proc_mounts() {
    assert_eq!(
        mounts().mounts,
        vec![
            Mount {
                point: "/mnt/data disk".into(),
                drive: 'd',
            },
            Mount {
                point: "/mnt/c".into(),
                drive: 'c',
            },
        ]
    );
}

#[test]
fn ignores_mounts_that_are_not_windows_drives() {
    assert!(Mounts::parse("rootfs / wslfs rw 0 0\n").mounts.is_empty());
}

#[test]
fn rewrites_linux_paths_as_windows_paths() {
    let mounts = mounts();
    assert_eq!(
        mounts.to_windows("/mnt/c/Users/dev/app.atsln").unwrap(),
        "C:\\Users\\dev\\app.atsln"
    );
    assert_eq!(mounts.to_windows("/mnt/c").unwrap(), "C:\\");
    assert_eq!(mounts.to_windows("/mnt/data disk/app").unwrap(), "D:\\app");
}

#[test]
fn refuses_paths_outside_a_windows_drive() {
    let error = mounts().to_windows("/home/dev/app.atsln").unwrap_err();
    assert!(error.message().contains("WSL file system"));
    assert_eq!(error.exit_code(), 1);
}

#[test]
fn does_not_confuse_a_mount_point_with_a_longer_name() {
    // /mnt/cache must not be mistaken for the /mnt/c mount.
    assert!(mounts().to_windows("/mnt/cache/app").is_err());
}

#[test]
fn rewrites_windows_paths_as_linux_paths() {
    let mounts = mounts();
    assert_eq!(
        mounts.to_linux("C:\\Users\\dev\\app.elf").unwrap(),
        "/mnt/c/Users/dev/app.elf"
    );
    assert_eq!(mounts.to_linux("c:/Users/dev").unwrap(), "/mnt/c/Users/dev");
}

#[test]
fn reports_unmounted_drives_and_network_paths() {
    let mounts = mounts();
    let error = mounts.to_linux("Z:\\share\\app").unwrap_err();
    assert!(error.message().contains("not mounted"));
    let error = mounts
        .to_linux("\\\\wsl.localhost\\arch\\home")
        .unwrap_err();
    assert!(error.message().contains("network path"));
}

#[test]
fn reads_a_binfmt_status_without_confusing_disabled_for_enabled() {
    assert!(enabled_in_binfmt_status(
        "enabled\ninterpreter /init\nflags: PF\n"
    ));
    assert!(!enabled_in_binfmt_status("disabled\ninterpreter /init\n"));
    assert!(!enabled_in_binfmt_status(""));
}

#[test]
fn recognises_path_flavours() {
    assert!(looks_like_windows_path("C:\\app"));
    assert!(looks_like_windows_path("c:/app"));
    assert!(looks_like_windows_path("\\\\server\\share"));
    assert!(!looks_like_windows_path("/mnt/c/app"));
    assert!(looks_like_linux_path("/mnt/c/app"));
    assert!(!looks_like_linux_path("app\\main.c"));
}

#[test]
fn says_exactly_why_a_path_cannot_be_translated() {
    let mounts = mounts();
    assert_eq!(
        mounts.to_windows("/home/dev/app").unwrap_err(),
        AppError::Runtime(
            "/home/dev/app is inside the WSL file system, which Atmel Studio cannot open.\n\
             Move the project onto a Windows drive, such as /mnt/c, and try again."
                .into()
        )
    );
    assert_eq!(
        mounts.to_linux("z:\\app").unwrap_err(),
        AppError::Runtime("drive Z: is not mounted in this WSL distribution".into())
    );
    assert_eq!(
        mounts.to_linux("\\\\server/share").unwrap_err(),
        AppError::Runtime(
            "\\\\server/share is a network path (\\\\server), which atp cannot translate.".into()
        )
    );
    assert_eq!(
        mounts.to_linux("C:app").unwrap_err(),
        AppError::Runtime("C:app is not an absolute path".into())
    );
}

#[test]
fn the_most_specific_mount_wins() {
    let mounts = Mounts::parse(
        "C:\\134 /mnt/c drvfs rw 0 0\nE:\\134 /mnt/c/card drvfs rw 0 0\nF: /mnt/f 9p rw 0 0\n",
    );
    assert_eq!(mounts.to_windows("/mnt/c/card/app").unwrap(), "E:\\app");
    assert_eq!(mounts.to_windows("/mnt/c/cards/app").unwrap(), "C:\\cards\\app");
    assert_eq!(mounts.to_windows("/mnt/f/app").unwrap(), "F:\\app");
}

#[test]
fn mount_points_of_one_length_stay_in_the_order_of_the_table() {
    let mounts = Mounts::parse(
        "D: /mnt/d drvfs rw 0 0\nC: /mnt/c/ drvfs rw 0 0\nE: /mnt/\\303\\251 virtiofs rw 0 0\n",
    );
    let points: Vec<&str> = mounts.mounts.iter().map(|mount| mount.point.as_str()).collect();
    // The escapes stand for two characters of two bytes each.
    assert_eq!(points, vec!["/mnt/\u{c3}\u{a9}", "/mnt/d", "/mnt/c"]);
}

#[test]
fn paths_come_back_from_windows_as_they_went() {
    let mounts = mounts();
    for path in ["/mnt/c/work/app", "/mnt/c/a b/c.d", "/mnt/data disk/x", "/mnt/c/"] {
        let there = mounts.to_windows(path).unwrap();
        assert_eq!(mounts.to_linux(&there).unwrap(), path);
    }
    for path in ["C:\\work\\app.atsln", "D:\\x", "C:\\"] {
        let there = mounts.to_linux(path).unwrap();
        assert_eq!(mounts.to_windows(&there).unwrap(), path);
    }
    // The mount point itself gains a slash.
    assert_eq!(mounts.to_linux(&mounts.to_windows("/mnt/c").unwrap()).unwrap(), "/mnt/c/");
}

#[test]
fn the_usual_layout_has_every_drive() {
    let mounts = Mounts::automount();
    assert_eq!(mounts.mounts.len(), 26);
    assert_eq!(mounts.to_windows("/mnt/a/x/y").unwrap(), "A:\\x\\y");
    assert_eq!(mounts.to_linux("Z:/x\\y\\").unwrap(), "/mnt/z/x/y");
}

#[test]
fn falls_back_to_the_usual_layout() {
    assert_eq!(Mounts::current(None), Mounts::automount());
    assert_eq!(Mounts::current(Some("none /dev devtmpfs rw 0 0\n")), Mounts::automount());
    assert_eq!(Mounts::current(Some(PROC_MOUNTS)), mounts());
}

#[test]
fn expands_octal_escapes_and_leaves_other_backslashes() {
    assert_eq!(unescape("data\\040disk"), "data disk");
    assert_eq!(unescape("C:\\134"), "C:\\");
    assert_eq!(unescape("a\\9zz"), "a\\9zz");
    assert_eq!(unescape("a\\04"), "a\\04");
    assert_eq!(unescape("a\\777"), "a\\777");
    assert_eq!(unescape("\\\\040"), "\\ ");
    assert_eq!(unescape("plain"), "plain");
}

#[test]
fn native_paths_are_kept_and_others_translated() {
    assert_eq!(wsl().to_native("/mnt/c/app").unwrap(), "/mnt/c/app");
    assert_eq!(wsl().to_native("app/main.c").unwrap(), "app/main.c");
    assert_eq!(wsl().to_native("C:\\app").unwrap(), "/mnt/c/app");
    assert!(wsl().to_native("Q:\\app").is_err());
    assert_eq!(windows().to_native("C:\\app").unwrap(), "C:\\app");
    assert_eq!(windows().to_native("/mnt/d/app").unwrap(), "D:\\app");
    // A Linux path that is on no drive stays as it is.
    assert_eq!(windows().to_native("/home/app").unwrap(), "/home/app");
}

#[test]
fn spells_paths_for_programs_and_for_people() {
    assert_eq!(wsl().to_windows("/mnt/c/app").unwrap(), "C:\\app");
    assert!(wsl().to_windows("/home/app").is_err());
    assert_eq!(windows().to_windows("C:\\app").unwrap(), "C:\\app");
    assert_eq!(wsl().from_windows("C:\\app\\main.c"), "/mnt/c/app/main.c");
    assert_eq!(wsl().from_windows("main.c"), "main.c");
    assert_eq!(windows().from_windows("C:\\app"), "C:\\app");
}

#[test]
fn detects_the_host() {
    assert_eq!(windows().host, Host::Windows);
    assert_eq!(
        Paths::detect(false, true, Some(PROC_MOUNTS)).unwrap().mounts,
        mounts()
    );
    assert_eq!(
        Paths::detect(false, false, None).unwrap_err().message(),
        "atp drives Atmel Studio, so it needs Windows or WSL."
    );
    assert!(running_under_wsl(true, false, None));
    assert!(running_under_wsl(false, true, None));
    assert!(running_under_wsl(false, false, Some("5.15.90.1-Microsoft-standard-WSL2\n")));
    assert!(!running_under_wsl(false, false, Some("6.1.0-generic\n")));
    assert!(!running_under_wsl(false, false, None));
}

#[test]
fn windows_programs_need_interop() {
    assert_eq!(interop_handlers().len(), 2);
    assert!(interop_registered(&vec![None, Some("enabled\n".into())]));
    assert!(!interop_registered(&vec![None, Some("disabled\n".into())]));
    assert!(windows().require_windows_programs(false).is_ok());
    assert!(wsl().require_windows_programs(true).is_ok());
    let error = wsl().require_windows_programs(false).unwrap_err();
    assert_eq!(error.exit_code(), 1);
    assert!(error.message().contains("sudo systemctl restart systemd-binfmt"));
}
