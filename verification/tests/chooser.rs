use browser_handler::platform::{PlatformHandler, UnsupportedHandler};
use browser_handler::chooser::{
    browser_display_names, browser_selected_outcome, truncate_display_name, GuiChooserOutcome,
    MAX_DISPLAY_NAME_LEN,
};

#[test]
fn disambiguates_duplicate_names_with_path() {
    let browsers = vec![
        "/usr/bin/chromium".to_string(),
        "/opt/chromium-beta/chromium".to_string(),
    ];
    let names = browser_display_names(&browsers);
    assert_eq!(names[0], "Chromium (/usr/bin/chromium)");
    assert_eq!(names[1], "Chromium (/opt/chromium-beta/chromium)");
}

#[test]
fn leaves_unique_names_untouched() {
    let browsers = vec![
        "/usr/bin/firefox".to_string(),
        "/usr/bin/chrome".to_string(),
    ];
    let names = browser_display_names(&browsers);
    assert_eq!(names[0], "Mozilla Firefox");
    assert_eq!(names[1], "Google Chrome");
}

#[test]
fn marks_flatpak_browsers() {
    let browsers = vec!["flatpak:org.mozilla.firefox".to_string()];
    let names = browser_display_names(&browsers);
    assert_eq!(names[0], "Mozilla Firefox (Flatpak)");
}

#[test]
fn truncate_leaves_short_names_untouched() {
    assert_eq!(truncate_display_name("Google Chrome"), "Google Chrome");
}

#[test]
fn truncate_keeps_tail_of_long_names() {
    let long_path = format!("chromium ({})", "a".repeat(80));
    let truncated = truncate_display_name(&long_path);
    assert_eq!(truncated.chars().count(), MAX_DISPLAY_NAME_LEN);
    assert!(truncated.starts_with('…'));
    assert!(long_path.ends_with(&truncated[3..]));
}

#[test]
fn truncate_boundary_lengths() {
    let sixty = "b".repeat(60);
    assert_eq!(truncate_display_name(&sixty), sixty);
    let sixty_one = format!("x{}", "é".repeat(60));
    let t = truncate_display_name(&sixty_one);
    assert_eq!(t, format!("…{}", "é".repeat(59)));
}

#[test]
fn flatpak_and_native_of_same_name_are_told_apart() {
    let browsers = vec!["/usr/bin/firefox".to_string(), "flatpak:org.mozilla.firefox".to_string()];
    let names = browser_display_names(&browsers);
    assert_eq!(names[0], "Mozilla Firefox (/usr/bin/firefox)");
    assert_eq!(names[1], "Mozilla Firefox (Flatpak) (flatpak:org.mozilla.firefox)");
    assert_eq!(browser_display_names(&[]).len(), 0);
}

#[test]
fn selecting_a_browser_button() {
    let browsers = vec!["/usr/bin/firefox".to_string(), "/usr/bin/chrome".to_string()];
    match browser_selected_outcome(&browsers, 1, true) {
        Some(GuiChooserOutcome::Selected { browser_path, save_rule }) => {
            assert_eq!(browser_path, "/usr/bin/chrome");
            assert!(save_rule);
        }
        other => panic!("unexpected outcome {:?}", other),
    }
    assert!(browser_selected_outcome(&browsers, 2, false).is_none());
    assert!(browser_selected_outcome(&browsers, -1, false).is_none());
}

#[test]
fn unsupported_platform_refuses_everything() {
    let h = UnsupportedHandler;
    assert!(h.find_browsers().is_empty());
    assert_eq!(h.set_as_default_handler(), Err("Unsupported platform".to_string()));
    assert_eq!(h.unregister_handler(), Err("Unsupported platform".to_string()));
    assert!(!h.is_default_handler());
    assert_eq!(h.default_browser_path(), None);
}
