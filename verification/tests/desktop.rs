use browser_handler::browsers::{browser_commands, browser_paths, dedupe_by_name, found_browser_list, sorted_unique};
use browser_handler::mimeapps::{
    default_browser_desktop_id, default_handler_status, desktop_exec_value, extract_stderr, format_xdg_mime_io_error,
    is_flatpak_browser_id, mime_association_error, parse_flatpak_browser_list,
    purge_desktop_entry_from_mimeapps, render_desktop_entry, resolve_exec_line,
    set_mime_default_entries, xdg_settings_report, CommandRun, ExecTarget, IoFailure, IoKind,
};

#[test]
fn desktop_entry_uses_unquoted_exec_path() {
    let desktop_entry = render_desktop_entry("/tmp/rust browser handler");

    assert!(desktop_entry.contains("Exec=/tmp/rust browser handler %u"));
    assert!(!desktop_entry.contains("Exec=\"/tmp/rust browser handler\" %u"));
    assert!(!desktop_entry.contains("@EXECUTABLE@"));
}

#[test]
fn parse_flatpak_browser_list_outputs_known_browsers() {
    let output = "org.mozilla.firefox\norg.chromium.Chromium\ncom.spotify.Client\ncom.github.brave.Brave\n";
    let parsed = parse_flatpak_browser_list(output);

    assert_eq!(
        parsed,
        vec![
            "flatpak:org.mozilla.firefox".to_string(),
            "flatpak:org.chromium.Chromium".to_string(),
            "flatpak:com.github.brave.Brave".to_string(),
        ]
    );
}

#[test]
fn purge_mimeapps_removes_desktop_id_entries() {
    let input = "[Default Applications]\nx-scheme-handler/http=rust-browser-handler.desktop;firefox.desktop;\nx-scheme-handler/https=rust-browser-handler.desktop;\ntext/html=firefox.desktop;\n";
    let output = purge_desktop_entry_from_mimeapps(input, "rust-browser-handler.desktop");

    assert!(output.contains("x-scheme-handler/http=firefox.desktop;"));
    assert!(!output.contains("x-scheme-handler/https="));
    assert!(output.contains("text/html=firefox.desktop;"));
    assert!(!output.contains("rust-browser-handler.desktop"));
}

#[test]
fn purge_mimeapps_keeps_non_default_sections_with_empty_assignment() {
    let input = "[Added Associations]\nx-scheme-handler/http=rust-browser-handler.desktop;\n";
    let output = purge_desktop_entry_from_mimeapps(input, "rust-browser-handler.desktop");

    assert!(output.contains("[Added Associations]"));
    assert!(output.contains("x-scheme-handler/http="));
}

#[test]
fn set_mime_defaults_creates_section_when_no_file() {
    let output = set_mime_default_entries("", "rust-browser-handler.desktop");
    assert!(output.contains("[Default Applications]"));
    assert!(output.contains("x-scheme-handler/http=rust-browser-handler.desktop"));
    assert!(output.contains("x-scheme-handler/https=rust-browser-handler.desktop"));
}

#[test]
fn set_mime_defaults_updates_existing_entries() {
    let input = "[Default Applications]\nx-scheme-handler/http=firefox.desktop\nx-scheme-handler/https=firefox.desktop\ntext/html=firefox.desktop\n";
    let output = set_mime_default_entries(input, "rust-browser-handler.desktop");
    assert!(output.contains("x-scheme-handler/http=rust-browser-handler.desktop"));
    assert!(output.contains("x-scheme-handler/https=rust-browser-handler.desktop"));
    assert!(output.contains("text/html=firefox.desktop"));
    assert!(!output.contains("firefox.desktop\nx-scheme-handler/http"));
    assert!(!output.contains("firefox.desktop\nx-scheme-handler/https"));
}

#[test]
fn set_mime_defaults_preserves_other_sections() {
    let input = "[Default Applications]\nx-scheme-handler/http=firefox.desktop\n\n[Added Associations]\ntext/html=firefox.desktop;chromium.desktop;\n";
    let output = set_mime_default_entries(input, "rust-browser-handler.desktop");
    assert!(output.contains("[Added Associations]"));
    assert!(output.contains("text/html=firefox.desktop;chromium.desktop;"));
    assert!(output.contains("x-scheme-handler/http=rust-browser-handler.desktop"));
}

#[test]
fn set_mime_defaults_adds_section_when_none_exists() {
    let input = "[Added Associations]\ntext/html=firefox.desktop;\n";
    let output = set_mime_default_entries(input, "rust-browser-handler.desktop");
    // [Default Applications] section appears, with entries
    let default_idx = output.find("[Default Applications]").unwrap();
    assert!(output[default_idx..].contains("x-scheme-handler/http=rust-browser-handler.desktop"));
    assert!(output[default_idx..].contains("x-scheme-handler/https=rust-browser-handler.desktop"));
    // Original section preserved
    assert!(output.contains("[Added Associations]"));
    assert!(output.contains("text/html=firefox.desktop;"));
}

#[test]
fn set_mime_defaults_adds_missing_entries_to_existing_section() {
    let input = "[Default Applications]\ntext/html=firefox.desktop\n\n[Added Associations]\nx-scheme-handler/http=firefox.desktop;\n";
    let output = set_mime_default_entries(input, "rust-browser-handler.desktop");
    // Both entries should be present in [Default Applications]
    assert!(output.contains("x-scheme-handler/http=rust-browser-handler.desktop"));
    assert!(output.contains("x-scheme-handler/https=rust-browser-handler.desktop"));
    // [Added Associations] untouched
    assert!(output.contains("[Added Associations]"));
    assert!(output.contains("x-scheme-handler/http=firefox.desktop;"));
}

#[test]
fn set_mime_defaults_handles_trailing_newline() {
    let input = "[Default Applications]\nx-scheme-handler/http=firefox.desktop\n";
    let output = set_mime_default_entries(input, "rust-browser-handler.desktop");
    assert!(output.ends_with('\n'));
}

#[test]
fn set_mime_defaults_handles_defaultapplications_variant() {
    let input = "[DefaultApplications]\nx-scheme-handler/http=firefox.desktop\n";
    let output = set_mime_default_entries(input, "rust-browser-handler.desktop");
    assert!(output.contains("[DefaultApplications]"));
    assert!(output.contains("x-scheme-handler/http=rust-browser-handler.desktop"));
}

#[test]
fn set_mime_defaults_idempotent() {
    let input = "[Default Applications]\nx-scheme-handler/http=rust-browser-handler.desktop\nx-scheme-handler/https=rust-browser-handler.desktop\n";
    let output = set_mime_default_entries(input, "rust-browser-handler.desktop");
    assert_eq!(output, input);
}

#[test]
fn set_mime_defaults_exact_outputs() {
    let id = "rust-browser-handler.desktop";
    assert_eq!(
        set_mime_default_entries("", id),
        "[Default Applications]\nx-scheme-handler/http=rust-browser-handler.desktop\nx-scheme-handler/https=rust-browser-handler.desktop"
    );
    assert_eq!(
        set_mime_default_entries("[A]\nk=v\n", id),
        "[A]\nk=v\n\n[Default Applications]\nx-scheme-handler/http=rust-browser-handler.desktop\nx-scheme-handler/https=rust-browser-handler.desktop\n"
    );
    assert_eq!(
        set_mime_default_entries("[Default Applications]\n x-scheme-handler/https = old\n[B]\n", id),
        "[Default Applications]\nx-scheme-handler/https=rust-browser-handler.desktop\nx-scheme-handler/http=rust-browser-handler.desktop\n[B]\n"
    );
}

#[test]
fn set_mime_defaults_twice_is_stable() {
    let id = "rust-browser-handler.desktop";
    for input in ["", "[A]\nx=1\n", "[Default Applications]\ntext/html=a\n[B]\nc=d", "x\r\ny\n"] {
        let once = set_mime_default_entries(input, id);
        assert_eq!(set_mime_default_entries(&once, id), once);
    }
}

#[test]
fn purge_exact_outputs() {
    let id = "h.desktop";
    assert_eq!(
        purge_desktop_entry_from_mimeapps("[Default Applications]\na=h.desktop;;b;\nc=h.desktop\n[X]\nd=h.desktop\nplain\n", id),
        "[Default Applications]\na=b;\n[X]\nd=\nplain\n"
    );
    assert_eq!(purge_desktop_entry_from_mimeapps("", id), "");
    assert_eq!(purge_desktop_entry_from_mimeapps("k=v", id), "k=v;");
}

#[test]
fn flatpak_browser_ids() {
    assert!(is_flatpak_browser_id("org.mozilla.firefox"));
    assert!(is_flatpak_browser_id("io.example.SomeEdgeBuild"));
    assert!(is_flatpak_browser_id("com.vivaldi.Vivaldi"));
    assert!(!is_flatpak_browser_id("com.spotify.Client"));
    assert_eq!(parse_flatpak_browser_list("  \n  org.chromium.Chromium  \r\n"), vec!["flatpak:org.chromium.Chromium".to_string()]);
}

#[test]
fn exec_lines_resolve_to_flatpak_or_command() {
    match resolve_exec_line("/usr/bin/flatpak run --branch=stable --arch=x86_64 --command=firefox --file-forwarding org.mozilla.firefox @@u %u @@") {
        Some(ExecTarget::Flatpak(id)) => assert_eq!(id, "flatpak:org.mozilla.firefox"),
        other => panic!("unexpected {:?}", other),
    }
    match resolve_exec_line("flatpak run org.mozilla.firefox @@u %U") {
        Some(ExecTarget::Flatpak(id)) => assert_eq!(id, "flatpak:org.mozilla.firefox"),
        other => panic!("unexpected {:?}", other),
    }
    assert!(resolve_exec_line("flatpak run -v").is_none());
    assert!(resolve_exec_line("flatpak run").is_none());
    assert!(resolve_exec_line("flatpak info x").is_none());
    match resolve_exec_line("%u firefox --new-window %u") {
        Some(ExecTarget::Command(c)) => assert_eq!(c, "firefox"),
        other => panic!("unexpected {:?}", other),
    }
    assert!(resolve_exec_line("  %u  ").is_none());
}

fn failure(kind: IoKind) -> IoFailure {
    IoFailure { kind, kind_text: "Interrupted".to_string(), message: "boom".to_string() }
}

#[test]
fn xdg_mime_error_messages() {
    assert_eq!(
        format_xdg_mime_io_error("P", &failure(IoKind::NotFound)),
        "P: command not found (is `xdg-mime` installed and on PATH?)"
    );
    assert_eq!(
        format_xdg_mime_io_error("P", &failure(IoKind::PermissionDenied)),
        "P: permission denied when executing `xdg-mime`"
    );
    assert_eq!(format_xdg_mime_io_error("P", &failure(IoKind::Other)), "P: I/O error (Interrupted): boom");
}

fn ran(success: bool, stderr: &str) -> CommandRun {
    CommandRun::Ran { success, status: "exit status: 1".to_string(), stderr: stderr.to_string() }
}

#[test]
fn mime_association_errors() {
    assert_eq!(mime_association_error(&ran(true, ""), &ran(true, "x")), None);
    assert_eq!(
        mime_association_error(&ran(false, " oops \n"), &ran(true, "  ")).unwrap(),
        "Failed to set MIME associations (http status: exit status: 1, https status: exit status: 1), http stderr: oops. Ensure xdg-mime is available."
    );
    assert_eq!(
        mime_association_error(&CommandRun::Failed(failure(IoKind::NotFound)), &ran(true, "")).unwrap(),
        "Failed to run xdg-mime for HTTP association: command not found (is `xdg-mime` installed and on PATH?)"
    );
    assert_eq!(
        mime_association_error(&ran(false, ""), &CommandRun::Failed(failure(IoKind::PermissionDenied))).unwrap(),
        "Failed to run xdg-mime for HTTPS association: permission denied when executing `xdg-mime`"
    );
    assert_eq!(
        mime_association_error(&CommandRun::Failed(failure(IoKind::NotFound)), &CommandRun::Failed(failure(IoKind::Other))).unwrap(),
        "Failed to run xdg-mime for HTTP association: command not found (is `xdg-mime` installed and on PATH?); Failed to run xdg-mime for HTTPS association: I/O error (Interrupted): boom"
    );
}

#[test]
fn xdg_settings_reports() {
    let r = xdg_settings_report(&ran(true, ""), Some(" other.desktop\n"));
    assert!(r.warnings.is_empty());
    assert_eq!(r.notes[0], "Successfully registered as default browser using XDG standards.");
    let r = xdg_settings_report(&ran(false, "bad"), None);
    assert_eq!(r.warnings, vec!["warning: xdg-settings set default-web-browser failed (status: exit status: 1, stderr: bad). The MIME associations were still applied.".to_string()]);
    assert_eq!(r.notes.len(), 2);
    let r = xdg_settings_report(&ran(false, ""), Some("rust-browser-handler.desktop\n"));
    assert_eq!(r.warnings.len(), 1);
    assert!(r.warnings[0].starts_with("warning: xdg-settings set default-web-browser exited with exit status: 1 but"));
    let r = xdg_settings_report(&CommandRun::Failed(failure(IoKind::NotFound)), None);
    assert_eq!(r.warnings, vec!["warning: xdg-settings is unavailable or could not be executed (boom). The MIME associations were still applied.".to_string()]);
    assert_eq!(r.notes[1], "Note: xdg-settings was skipped, so the MIME association is the authoritative setting here.");
}

#[test]
fn default_handler_decisions() {
    let me = "rust-browser-handler.desktop";
    assert_eq!(default_handler_status(Some(me), Some(me)), Some(true));
    assert_eq!(default_handler_status(Some("firefox.desktop"), Some(me)), Some(false));
    assert_eq!(default_handler_status(None, Some("firefox.desktop")), Some(false));
    assert_eq!(default_handler_status(Some(me), None), None);
    assert_eq!(default_browser_desktop_id(Some("firefox.desktop"), Some("x.desktop")), Some("firefox.desktop".to_string()));
    assert_eq!(default_browser_desktop_id(Some(""), Some("x.desktop")), Some("x.desktop".to_string()));
    assert_eq!(default_browser_desktop_id(Some(me), Some("x.desktop")), None);
    assert_eq!(default_browser_desktop_id(None, None), None);
    assert_eq!(extract_stderr("  \n"), None);
    assert_eq!(extract_stderr(" e \n"), Some("e".to_string()));
}

#[test]
fn browsers_sorted_and_told_apart() {
    let found = vec![
        "/usr/bin/google-chrome-stable".to_string(),
        "flatpak:org.mozilla.firefox".to_string(),
        "/usr/bin/firefox".to_string(),
        "/opt/google/chrome/chrome".to_string(),
        "/usr/bin/firefox".to_string(),
    ];
    let sorted = sorted_unique(&found);
    assert_eq!(
        sorted,
        vec![
            "/opt/google/chrome/chrome".to_string(),
            "/usr/bin/firefox".to_string(),
            "/usr/bin/google-chrome-stable".to_string(),
            "flatpak:org.mozilla.firefox".to_string(),
        ]
    );
    assert_eq!(
        dedupe_by_name(&sorted),
        vec![
            "/opt/google/chrome/chrome".to_string(),
            "/usr/bin/firefox".to_string(),
            "flatpak:org.mozilla.firefox".to_string(),
        ]
    );
}

#[test]
fn desktop_entry_exec_values() {
    let entry = "[Desktop Entry]\nName=Firefox\nExec=  /usr/lib/firefox/firefox %u \nExec=/other\n";
    assert_eq!(desktop_exec_value(entry), Some("/usr/lib/firefox/firefox %u".to_string()));
    assert_eq!(desktop_exec_value("Exec=Exec=flatpak run org.mozilla.firefox"), Some("flatpak run org.mozilla.firefox".to_string()));
    assert_eq!(desktop_exec_value("[Desktop Entry]\n Exec=/indented\nName=X\n"), None);
    assert_eq!(desktop_exec_value(""), None);
}

#[test]
fn probe_lists() {
    let commands = browser_commands();
    assert_eq!(commands.len(), 16);
    assert_eq!(commands[0], "google-chrome");
    assert_eq!(commands[15], "microsoft-edge-beta");
    let paths = browser_paths();
    assert_eq!(paths.len(), 20);
    assert_eq!(paths[0], "/usr/bin/google-chrome");
    assert_eq!(paths[19], "/opt/microsoft/msedge/msedge");
}

#[test]
fn stray_header_text_still_gets_a_section() {
    let id = "rust-browser-handler.desktop";
    let contents = "[Default Applications]x]\n";
    let out = set_mime_default_entries(contents, id);
    assert_eq!(out, "[Default Applications]x]\n\n[Default Applications]\nx-scheme-handler/http=rust-browser-handler.desktop\nx-scheme-handler/https=rust-browser-handler.desktop\n");
    for contents in ["[Default Applications]x]\n", "a=b", "[Added Associations]\ntext/html=x;\n"] {
        let out = set_mime_default_entries(contents, id);
        let b = format!("[Default Applications]\nx-scheme-handler/http={id}\nx-scheme-handler/https={id}");
        assert!(out.starts_with(contents));
        assert!(out.ends_with(&(b + if contents.ends_with('\n') { "\n" } else { "" })));
    }
}

#[test]
fn found_browsers_sorted_and_distinct() {
    let found: Vec<String> = ["/usr/bin/firefox", "flatpak:org.mozilla.firefox", "/opt/google/chrome/chrome", "/usr/bin/google-chrome", "/usr/bin/firefox", "/usr/bin/chromium"]
        .iter().map(|s| s.to_string()).collect();
    assert_eq!(
        found_browser_list(&found),
        vec![
            "/opt/google/chrome/chrome".to_string(),
            "/usr/bin/chromium".to_string(),
            "/usr/bin/firefox".to_string(),
            "flatpak:org.mozilla.firefox".to_string(),
        ]
    );
}
