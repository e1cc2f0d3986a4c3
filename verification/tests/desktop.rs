use clap_complete::generate;
use hydra::autostart::{
    apply, linux_entry, linux_entry_path, linux_masked_entry, macos_entry, macos_entry_path,
    windows_command, EntryAction,
};
use hydra::completions::{
    create_failure, destination, detect_shell, write_failure, Destination, Dirs, Shell,
};

const DEFAULT_BIN: &str = "hydra";

fn user_dirs() -> Dirs<'static> {
    Dirs {
        home: Some("/home/u"),
        data_home: None,
        config_home: None,
    }
}

fn dest(shell: Shell, system: bool, bin: &str) -> Destination {
    destination(&shell, system, bin, &user_dirs())
}

fn script(shell: clap_complete::Shell, bin: &str) -> String {
    let mut cmd = clap::Command::new("hydra").arg(clap::Arg::new("url"));
    let mut buf = Vec::new();
    generate(shell, &mut cmd, bin, &mut buf);
    String::from_utf8(buf).unwrap()
}

#[test]
fn an_alias_gets_its_own_script_and_its_own_destination() {
    for (shell, generator) in [
        (Shell::Bash, clap_complete::Shell::Bash),
        (Shell::Zsh, clap_complete::Shell::Zsh),
        (Shell::Fish, clap_complete::Shell::Fish),
    ] {
        assert!(
            script(generator, "hya").contains("hya"),
            "{shell:?} script for hya does not mention it"
        );
        assert_ne!(
            dest(shell.clone(), false, "hya").path,
            dest(shell.clone(), false, DEFAULT_BIN).path,
            "{shell:?}: hya must not share hydra's completion path"
        );
    }
}

#[test]
fn two_commands_never_share_a_path() {
    let joined = |shell: &Shell, system: bool, bin: &str| -> std::path::PathBuf {
        destination(shell, system, bin, &user_dirs()).path.iter().collect()
    };
    let shells = [
        Shell::Bash,
        Shell::Zsh,
        Shell::Fish,
        Shell::Elvish,
        Shell::PowerShell,
        Shell::Other("x/y".to_string()),
    ];
    for shell in &shells {
        for system in [true, false] {
            assert_ne!(joined(shell, system, "hya"), joined(shell, system, DEFAULT_BIN));
            assert_ne!(joined(shell, system, "."), joined(shell, system, DEFAULT_BIN));
        }
    }
    // To bash an empty name and the directory itself are one.
    assert_eq!(joined(&Shell::Bash, true, ""), joined(&Shell::Bash, true, "."));
    assert_ne!(joined(&Shell::Zsh, true, ""), joined(&Shell::Zsh, true, "."));
}

#[test]
fn fish_needs_no_remaining_step_but_others_do() {
    assert!(dest(Shell::Fish, false, DEFAULT_BIN).remaining_step.is_none());
    assert!(dest(Shell::Bash, false, DEFAULT_BIN).remaining_step.is_some());
    assert!(dest(Shell::Zsh, false, DEFAULT_BIN).remaining_step.is_some());
    assert!(dest(Shell::Elvish, false, DEFAULT_BIN).remaining_step.is_some());
    assert!(dest(Shell::PowerShell, false, DEFAULT_BIN).remaining_step.is_some());
}

#[test]
fn system_and_user_destinations_differ() {
    for shell in [Shell::Bash, Shell::Zsh, Shell::Fish] {
        let user = dest(shell.clone(), false, DEFAULT_BIN);
        let system = dest(shell.clone(), true, DEFAULT_BIN);
        assert_ne!(
            user.path, system.path,
            "{shell:?}: --system must pick a different path than the user default"
        );
    }
}

#[test]
fn only_the_shared_directory_itself_joins_the_two_destinations() {
    let joined = |shell: Shell, system: bool, dirs: &Dirs| {
        destination(&shell, system, DEFAULT_BIN, dirs).path.join("/")
    };
    let named = |dir: &'static str| Dirs {
        home: Some("/"),
        data_home: Some(dir),
        config_home: Some(dir),
    };
    let shared = named("/usr/share");
    assert_eq!(joined(Shell::Bash, true, &shared), joined(Shell::Bash, false, &shared));
    for dirs in [named("/usr/local/share"), named("usr/share"), named("/")] {
        for shell in [Shell::Bash, Shell::Zsh, Shell::Fish] {
            assert_ne!(joined(shell.clone(), true, &dirs), joined(shell, false, &dirs));
        }
    }
    for shell in [Shell::Zsh, Shell::Fish] {
        assert_ne!(joined(shell.clone(), true, &shared), joined(shell, false, &shared));
    }
}

#[test]
fn detect_shell_reads_the_basename_of_dollar_shell() {
    assert!(matches!(detect_shell(Some("/usr/bin/zsh")), Some(Shell::Zsh)));
    assert!(matches!(detect_shell(Some("/bin/fish")), Some(Shell::Fish)));
    assert!(
        detect_shell(Some("/bin/tcsh")).is_none(),
        "an unsupported shell must not guess wrong"
    );
    assert!(detect_shell(None).is_none());
    assert!(matches!(detect_shell(Some("bash")), Some(Shell::Bash)));
    assert!(matches!(detect_shell(Some("/x/elvish")), Some(Shell::Elvish)));
    assert!(matches!(detect_shell(Some("/x/pwsh")), Some(Shell::PowerShell)));
    assert!(matches!(detect_shell(Some("powershell")), Some(Shell::PowerShell)));
}

#[test]
fn every_destination_is_the_one_its_shell_reads() {
    let d = dest(Shell::Bash, false, "hya");
    assert_eq!(
        d.path,
        vec!["/home/u", ".local/share", "bash-completion/completions/hya"]
    );
    assert_eq!(
        dest(Shell::Bash, true, "hya").path,
        vec!["/usr/share/bash-completion/completions/hya"]
    );
    assert_eq!(dest(Shell::Zsh, false, "hya").path, vec!["/home/u", ".zfunc/_hya"]);
    assert_eq!(
        dest(Shell::Fish, false, "hya").path,
        vec!["/home/u", ".config", "fish/completions", "hya.fish"]
    );
    let dirs = Dirs {
        home: None,
        data_home: Some("/data"),
        config_home: Some("/conf"),
    };
    assert_eq!(
        destination(&Shell::Elvish, false, "hya", &dirs).path,
        vec!["/conf", "elvish/lib", "hya-completion.elv"]
    );
    assert_eq!(
        destination(&Shell::Bash, false, "hya", &dirs).path,
        vec!["/data", "bash-completion/completions/hya"]
    );
    assert_eq!(destination(&Shell::Zsh, false, "hya", &dirs).path[0], ".");
    assert_eq!(
        dest(Shell::PowerShell, true, "hya").path,
        vec!["/usr/local/share/powershell/Modules", "hya-completion.ps1"]
    );
    assert_eq!(
        dest(Shell::Other("nu".to_string()), false, "hya").path,
        vec!["hya-completion.nu"]
    );
    assert_eq!(
        dest(Shell::Elvish, false, "hya").remaining_step.as_deref(),
        Some("add `use hya-completion` to rc.elv (run `edit:rc-path` in elvish to find it)")
    );
    assert_eq!(create_failure("/p", "e"), "could not create /p: e");
    assert_eq!(write_failure("/p", "e"), "could not write /p: e");
}

#[test]
fn login_items_are_written_for_each_platform() {
    assert_eq!(
        linux_entry("/opt/hydra", true),
        "[Desktop Entry]\nType=Application\nName=Hydra Download Manager\nExec=\"/opt/hydra\" --minimized\nX-GNOME-Autostart-enabled=true\n"
    );
    assert_eq!(
        linux_entry("/opt/hydra", false),
        "[Desktop Entry]\nType=Application\nName=Hydra Download Manager\nExec=\"/opt/hydra\" \nX-GNOME-Autostart-enabled=true\n"
    );
    let plist = macos_entry("/Applications/H", true);
    assert_eq!(
        plist,
        "<?xml version=\"1.0\" encoding=\"UTF-8\"?>\n<!DOCTYPE plist PUBLIC \"-//Apple//DTD PLIST 1.0//EN\" \"http://www.apple.com/DTDs/PropertyList-1.0.dtd\">\n<plist version=\"1.0\">\n<dict>\n    <key>Label</key>\n    <string>io.github.ja7ad.hydra</string>\n    <key>ProgramArguments</key>\n    <array>\n        <string>/Applications/H</string>\n        <string>--minimized</string>\n    </array>\n    <key>RunAtLoad</key>\n    <true/>\n</dict>\n</plist>\n"
    );
    assert!(!macos_entry("/x", false).contains("--minimized"));
    assert_eq!(windows_command("C:\\h.exe", true), "\"C:\\h.exe\" --minimized");
    assert_eq!(windows_command("C:\\h.exe", false), "\"C:\\h.exe\"");
    assert_eq!(macos_entry_path(), "Library/LaunchAgents/io.github.ja7ad.hydra.plist");
    assert_eq!(linux_entry_path(), ".config/autostart/hydra.desktop");
}

#[test]
fn a_switched_off_login_item_is_masked_or_removed() {
    match apply(false, false, true, None) {
        EntryAction::Write(t) => assert_eq!(t, linux_masked_entry()),
        _ => panic!(),
    }
    assert!(matches!(apply(true, false, true, Some("/x")), EntryAction::Remove));
    assert!(matches!(apply(true, true, true, None), EntryAction::Leave));
    match apply(false, true, false, Some("/x")) {
        EntryAction::Write(t) => assert_eq!(t, linux_entry("/x", false)),
        _ => panic!(),
    }
    match apply(true, true, false, Some("/x")) {
        EntryAction::Write(t) => assert_eq!(t, macos_entry("/x", false)),
        _ => panic!(),
    }
}
