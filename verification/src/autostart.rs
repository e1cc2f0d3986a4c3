//! The login item that starts the program with the desktop session.

use vstd::prelude::*;

verus! {

/// The option that starts the program in the tray.
pub open spec fn tray_option() -> Seq<char> {
    "--minimized"@
}

/// The launch agent that macOS reads.
pub open spec fn launch_agent(exe: Seq<char>, minimized: bool) -> Seq<char> {
    "<?xml version=\"1.0\" encoding=\"UTF-8\"?>\n"@
        + "<!DOCTYPE plist PUBLIC \"-//Apple//DTD PLIST 1.0//EN\" \"http://www.apple.com/DTDs/PropertyList-1.0.dtd\">\n"@
        + "<plist version=\"1.0\">\n<dict>\n    <key>Label</key>\n"@
        + "    <string>io.github.ja7ad.hydra</string>\n    <key>ProgramArguments</key>\n"@
        + "    <array>\n        <string>"@ + exe + "</string>\n"@ + (if minimized {
        "        <string>"@ + tray_option() + "</string>\n"@
    } else {
        Seq::empty()
    }) + "    </array>\n    <key>RunAtLoad</key>\n    <true/>\n</dict>\n</plist>\n"@
}

/// Writes the launch agent that macOS reads.
pub fn macos_entry(exe: &str, minimized: bool) -> (r: String)
    ensures
        r@ == launch_agent(exe@, minimized),
{
    let mut out = String::from_str("<?xml version=\"1.0\" encoding=\"UTF-8\"?>\n");
    out.append(
        "<!DOCTYPE plist PUBLIC \"-//Apple//DTD PLIST 1.0//EN\" \"http://www.apple.com/DTDs/PropertyList-1.0.dtd\">\n",
    );
    out.append("<plist version=\"1.0\">\n<dict>\n    <key>Label</key>\n");
    out.append("    <string>io.github.ja7ad.hydra</string>\n    <key>ProgramArguments</key>\n");
    out.append("    <array>\n        <string>");
    out.append(exe);
    out.append("</string>\n");
    let ghost before = out@;
    if minimized {
        out.append("        <string>");
        out.append("--minimized");
        out.append("</string>\n");
        proof {
            assert(out@ =~= before + ("        <string>"@ + tray_option() + "</string>\n"@));
        }
    } else {
        proof {
            assert(out@ =~= before + Seq::<char>::empty());
        }
    }
    out.append("    </array>\n    <key>RunAtLoad</key>\n    <true/>\n</dict>\n</plist>\n");
    out
}

/// Where macOS looks for the launch agent, below the home directory.
pub fn macos_entry_path() -> (r: &'static str)
    ensures
        r@ == "Library/LaunchAgents/io.github.ja7ad.hydra.plist"@,
{
    "Library/LaunchAgents/io.github.ja7ad.hydra.plist"
}

/// The desktop entry that other Unix systems read.
pub open spec fn desktop_entry(exe: Seq<char>, minimized: bool) -> Seq<char> {
    "[Desktop Entry]\nType=Application\nName=Hydra Download Manager\nExec=\""@ + exe + "\" "@ + (
    if minimized {
        tray_option()
    } else {
        Seq::empty()
    }) + "\nX-GNOME-Autostart-enabled=true\n"@
}

/// Writes the desktop entry that other Unix systems read.
pub fn linux_entry(exe: &str, minimized: bool) -> (r: String)
    ensures
        r@ == desktop_entry(exe@, minimized),
{
    let mut out = String::from_str(
        "[Desktop Entry]\nType=Application\nName=Hydra Download Manager\nExec=\"",
    );
    out.append(exe);
    out.append("\" ");
    let ghost before = out@;
    if minimized {
        out.append("--minimized");
    } else {
        proof {
            assert(out@ =~= before + Seq::<char>::empty());
        }
    }
    out.append("\nX-GNOME-Autostart-enabled=true\n");
    out
}

/// The entry that masks a system-wide one of the same name.
pub fn linux_masked_entry() -> (r: &'static str)
    ensures
        r@
            == "[Desktop Entry]\nType=Application\nName=Hydra Download Manager\nHidden=true\n"@,
{
    "[Desktop Entry]\nType=Application\nName=Hydra Download Manager\nHidden=true\n"
}

/// Where the desktop looks for the entry, below the home directory.
pub fn linux_entry_path() -> (r: &'static str)
    ensures
        r@ == ".config/autostart/hydra.desktop"@,
{
    ".config/autostart/hydra.desktop"
}

/// The command that Windows runs at logon.
pub open spec fn run_command(exe: Seq<char>, minimized: bool) -> Seq<char> {
    "\""@ + exe + (if minimized {
        "\" --minimized"@
    } else {
        "\""@
    })
}

/// Writes the command that Windows runs at logon.
pub fn windows_command(exe: &str, minimized: bool) -> (r: String)
    ensures
        r@ == run_command(exe@, minimized),
{
    let mut out = String::from_str("\"");
    out.append(exe);
    if minimized {
        out.append("\" --minimized");
    } else {
        out.append("\"");
    }
    out
}

/// What is done with the login item on a Unix system.
pub enum EntryAction {
    /// Write this text to the entry's path.
    Write(String),
    /// Remove the entry, where there is one.
    Remove,
    /// The program's own path is unknown: leave everything as it is.
    Leave,
}

/// Decides what to do with the login item on a Unix system. Where packages
/// ship a system-wide entry, the user's own one is masked rather than removed,
/// or the other would apply again.
pub fn apply(macos: bool, enabled: bool, minimized: bool, exe: Option<&str>) -> (r: EntryAction)
    ensures
        match r {
            EntryAction::Write(t) => if enabled {
                exe matches Some(e) && t@ == (if macos {
                    launch_agent(e@, minimized)
                } else {
                    desktop_entry(e@, minimized)
                })
            } else {
                !macos && t@
                    == "[Desktop Entry]\nType=Application\nName=Hydra Download Manager\nHidden=true\n"@
            },
            EntryAction::Remove => !enabled && macos,
            EntryAction::Leave => enabled && exe is None,
        },
{
    if !enabled {
        if macos {
            return EntryAction::Remove;
        }
        return EntryAction::Write(String::from_str(linux_masked_entry()));
    }
    match exe {
        None => EntryAction::Leave,
        Some(e) => if macos {
            EntryAction::Write(macos_entry(e, minimized))
        } else {
            EntryAction::Write(linux_entry(e, minimized))
        },
    }
}

/// A login item runs the program at its own path, and starts it in the tray
/// where that was asked for.
pub proof fn law_a_login_item_runs_the_program(exe: Seq<char>)
    ensures
        tray_option() == "--minimized"@,
        run_command(exe, true) == "\""@ + exe + "\" --minimized"@,
        run_command(exe, false) == "\""@ + exe + "\""@,
        desktop_entry(exe, true)
            == "[Desktop Entry]\nType=Application\nName=Hydra Download Manager\nExec=\""@ + exe
            + "\" "@ + "--minimized"@ + "\nX-GNOME-Autostart-enabled=true\n"@,
        desktop_entry(exe, false)
            == "[Desktop Entry]\nType=Application\nName=Hydra Download Manager\nExec=\""@ + exe
            + "\" "@ + "\nX-GNOME-Autostart-enabled=true\n"@,
{
    assert(desktop_entry(exe, false)
        =~= "[Desktop Entry]\nType=Application\nName=Hydra Download Manager\nExec=\""@ + exe
        + "\" "@ + "\nX-GNOME-Autostart-enabled=true\n"@);
}

/// The launch agent holds the program's path between the opening of its
/// arguments and their end, and the tray option behind it where that was asked
/// for.
pub proof fn law_a_launch_agent_holds_the_program(exe: Seq<char>) -> (r: (Seq<char>, Seq<char>))
    ensures
        launch_agent(exe, true) == r.0 + exe + "</string>\n"@ + ("        <string>"@
            + "--minimized"@ + "</string>\n"@) + r.1,
        launch_agent(exe, false) == r.0 + exe + "</string>\n"@ + r.1,
        r.1 == "    </array>\n    <key>RunAtLoad</key>\n    <true/>\n</dict>\n</plist>\n"@,
        r.0.len() >= "    <array>\n        <string>"@.len(),
        r.0.skip(r.0.len() - "    <array>\n        <string>"@.len())
            == "    <array>\n        <string>"@,
{
    let open = "    <array>\n        <string>"@;
    let before = "<?xml version=\"1.0\" encoding=\"UTF-8\"?>\n"@
        + "<!DOCTYPE plist PUBLIC \"-//Apple//DTD PLIST 1.0//EN\" \"http://www.apple.com/DTDs/PropertyList-1.0.dtd\">\n"@
        + "<plist version=\"1.0\">\n<dict>\n    <key>Label</key>\n"@
        + "    <string>io.github.ja7ad.hydra</string>\n    <key>ProgramArguments</key>\n"@;
    let front = before + open;
    let end = "    </array>\n    <key>RunAtLoad</key>\n    <true/>\n</dict>\n</plist>\n"@;
    assert(launch_agent(exe, false) =~= front + exe + "</string>\n"@ + end);
    assert(front.skip(front.len() - open.len()) =~= open);
    (front, end)
}

} // verus!
