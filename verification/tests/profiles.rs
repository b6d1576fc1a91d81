use browser_handler::names::{executable_basename, get_browser_name_from_path};
use browser_handler::profiles::{
    classify_family, decode_browser_spec, detect_profiles, encode_browser_spec,
    expand_with_profiles, parse_local_state, parse_profiles_ini, profile_display_name,
    profile_launch_args, profile_store, spec_display_name, BaseDir, BrowserFamily,
    BrowserProfile, TargetOs,
};

fn profile(id: &str, name: &str) -> BrowserProfile {
    BrowserProfile { id: id.to_string(), display_name: name.to_string() }
}

#[test]
fn classifies_known_chromium_and_gecko_executables() {
    assert_eq!(classify_family("chrome"), Some(BrowserFamily::Chromium));
    assert_eq!(
        classify_family("microsoft-edge-stable"),
        Some(BrowserFamily::Chromium)
    );
    assert_eq!(classify_family("firefox"), Some(BrowserFamily::Gecko));
    assert_eq!(classify_family("librewolf"), Some(BrowserFamily::Gecko));
    assert_eq!(classify_family("some-unknown-browser"), None);
}

#[test]
fn executable_basename_strips_exe_and_lowercases() {
    assert_eq!(
        executable_basename("C:/Program Files/Google/Chrome/Application/chrome.exe"),
        Some("chrome".to_string())
    );
    assert_eq!(
        executable_basename("/usr/bin/Firefox"),
        Some("firefox".to_string())
    );
    assert_eq!(executable_basename("flatpak:org.mozilla.firefox"), None);
}

#[test]
fn encode_decode_round_trip() {
    let spec = encode_browser_spec("/usr/bin/chrome", "Profile 1");
    assert_eq!(
        decode_browser_spec(&spec),
        ("/usr/bin/chrome", Some("Profile 1"))
    );
    assert_eq!(
        decode_browser_spec("/usr/bin/chrome"),
        ("/usr/bin/chrome", None)
    );
}

#[test]
fn parse_local_state_orders_default_first_and_reads_names() {
    let content = r#"{
            "profile": {
                "info_cache": {
                    "Profile 1": { "name": "Work" },
                    "Default": { "name": "Person 1" }
                }
            }
        }"#;
    let profiles = parse_local_state(content);
    assert_eq!(profiles.len(), 2);
    assert_eq!(profiles[0].id, "Default");
    assert_eq!(profiles[0].display_name, "Person 1");
    assert_eq!(profiles[1].id, "Profile 1");
    assert_eq!(profiles[1].display_name, "Work");
}

#[test]
fn parse_local_state_handles_missing_or_malformed_data() {
    assert!(parse_local_state("not json").is_empty());
    assert!(parse_local_state(r#"{"profile": {}}"#).is_empty());
}

#[test]
fn parse_profiles_ini_reads_names_and_orders_default_first() {
    let content = "\
[Profile1]
Name=Work
IsRelative=1
Path=Profiles/work.default

[Profile0]
Name=default
IsRelative=1
Path=Profiles/xxxx.default
Default=1

[General]
StartWithLastProfile=1
";
    let profiles = parse_profiles_ini(content);
    assert_eq!(profiles.len(), 2);
    assert_eq!(profiles[0].id, "default");
    assert_eq!(profiles[1].id, "Work");
}

#[test]
fn profile_launch_args_match_documented_family_switches() {
    assert_eq!(
        profile_launch_args("/usr/bin/chrome", "Profile 1"),
        vec!["--profile-directory=Profile 1".to_string()]
    );
    assert_eq!(
        profile_launch_args("/usr/bin/firefox", "work"),
        vec![
            "-P".to_string(),
            "work".to_string(),
            "-no-remote".to_string()
        ]
    );
    assert!(profile_launch_args("/usr/bin/unknown-browser", "x").is_empty());
}

#[test]
fn spec_display_name_falls_back_to_base_name_without_profile() {
    assert_eq!(spec_display_name("/usr/bin/firefox", &[]), "Mozilla Firefox");
}

#[test]
fn spec_display_name_appends_profile_name() {
    let profiles = vec![profile("Default", "Person 1"), profile("Profile 1", "Work")];
    let spec = encode_browser_spec("/usr/bin/google-chrome", "Profile 1");
    assert_eq!(spec_display_name(&spec, &profiles), "Google Chrome — Work");
    let unknown = encode_browser_spec("/usr/bin/google-chrome", "Profile 9");
    assert_eq!(spec_display_name(&unknown, &profiles), "Google Chrome — Profile 9");
}

#[test]
fn profile_display_name_falls_back_to_id() {
    let profiles = vec![profile("a", "Alpha"), profile("a", "Second")];
    assert_eq!(profile_display_name(&profiles, "a"), "Alpha");
    assert_eq!(profile_display_name(&profiles, "b"), "b");
}

#[test]
fn decode_splits_at_first_separator() {
    let spec = "/usr/bin/chrome\u{1f}Profile\u{1f}2";
    assert_eq!(
        decode_browser_spec(spec),
        ("/usr/bin/chrome", Some("Profile\u{1f}2"))
    );
    assert_eq!(encode_browser_spec("a", ""), "a\u{1f}");
    assert_eq!(decode_browser_spec("a\u{1f}"), ("a", Some("")));
}

#[test]
fn round_trip_over_several_specs() {
    for (path, id) in [("/usr/bin/firefox", "work"), ("flatpak:org.chromium.Chromium", "Default"), ("", "x y")] {
        let spec = encode_browser_spec(path, id);
        assert_eq!(decode_browser_spec(&spec), (path, Some(id)));
        assert_eq!(encode_browser_spec(decode_browser_spec(&spec).0, id), spec);
    }
}

#[test]
fn expand_keeps_single_profile_browsers_plain() {
    let browsers = vec!["/usr/bin/firefox".to_string(), "/usr/bin/chrome".to_string(), "/usr/bin/opera".to_string()];
    let profiles = vec![
        vec![profile("default", "default")],
        vec![profile("Default", "Person 1"), profile("Profile 1", "Work")],
        vec![],
    ];
    let expanded = expand_with_profiles(&browsers, &profiles);
    assert_eq!(
        expanded,
        vec![
            "/usr/bin/firefox".to_string(),
            "/usr/bin/chrome\u{1f}Default".to_string(),
            "/usr/bin/chrome\u{1f}Profile 1".to_string(),
            "/usr/bin/opera".to_string(),
        ]
    );
    for entry in &expanded[1..3] {
        assert_eq!(decode_browser_spec(entry).0, "/usr/bin/chrome");
    }
}

#[test]
fn detect_profiles_reads_the_family_store() {
    let ini = "[Profile0]\nName=main\n[Profile1]\nName=alt\nDefault=1\n";
    let gecko = detect_profiles("/usr/bin/firefox", Some(ini));
    assert_eq!(gecko.len(), 2);
    assert_eq!(gecko[0].id, "alt");
    assert_eq!(gecko[1].display_name, "main");
    let state = r#"{"profile":{"info_cache":{"Profile 2":{"name":"beta"},"Profile 1":{"name":"Alpha"},"Default":{"name":""}}}}"#;
    let chromium = detect_profiles("/usr/bin/chromium", Some(state));
    let ids: Vec<&str> = chromium.iter().map(|p| p.id.as_str()).collect();
    assert_eq!(ids, vec!["Default", "Profile 1", "Profile 2"]);
    assert_eq!(chromium[0].display_name, "Default");
    assert!(detect_profiles("flatpak:org.mozilla.firefox", Some(ini)).is_empty());
    assert!(detect_profiles("/usr/bin/unknown", Some(ini)).is_empty());
    assert!(detect_profiles("/usr/bin/firefox", None).is_empty());
}

#[test]
fn profiles_ini_without_default_keeps_file_order() {
    let ini = "name outside=ignored\n[Profile0]\n  Name = first \n[General]\nName=not a profile\n[Profile1]\nPath=x\n[Profile2]\nName=second\nDefault=0\n";
    let ids: Vec<String> = parse_profiles_ini(ini).into_iter().map(|p| p.id).collect();
    assert_eq!(ids, vec!["first".to_string(), "second".to_string()]);
}

#[test]
fn local_state_name_must_be_a_nonempty_string() {
    let state = r#"{"profile":{"info_cache":{"b":{"name":5},"a":{}}}}"#;
    let ps = parse_local_state(state);
    assert_eq!(ps.len(), 2);
    assert_eq!(ps[0].id, "a");
    assert_eq!(ps[0].display_name, "a");
    assert_eq!(ps[1].display_name, "b");
    assert!(parse_local_state(r#"{"profile":{"info_cache":[1]}}"#).is_empty());
    assert!(parse_local_state("[]").is_empty());
}

#[test]
fn profile_store_locations() {
    let s = profile_store("/usr/bin/brave-browser", TargetOs::Linux).unwrap();
    assert_eq!(s.base, BaseDir::Config);
    assert_eq!(s.subdir, "BraveSoftware/Brave-Browser");
    assert_eq!(s.file, "Local State");
    let s = profile_store("C:/Apps/msedge.exe", TargetOs::Windows).unwrap();
    assert_eq!(s.base, BaseDir::LocalData);
    assert_eq!(s.subdir, "Microsoft/Edge/User Data");
    let s = profile_store("/usr/bin/firefox-esr", TargetOs::Linux).unwrap();
    assert_eq!(s.base, BaseDir::Home);
    assert_eq!(s.subdir, ".mozilla/firefox");
    assert_eq!(s.file, "profiles.ini");
    let s = profile_store("/usr/bin/waterfox", TargetOs::Windows).unwrap();
    assert_eq!(s.base, BaseDir::Config);
    assert_eq!(s.subdir, "Waterfox");
    assert!(profile_store("/usr/bin/firefox", TargetOs::Other).is_none());
    assert!(profile_store("/usr/bin/unknown", TargetOs::Linux).is_none());
}

#[test]
fn browser_names_of_paths() {
    assert_eq!(get_browser_name_from_path("/usr/bin/chromium-browser"), "Chromium");
    assert_eq!(get_browser_name_from_path("C:/x/MSEDGE.EXE"), "Microsoft Edge");
    assert_eq!(get_browser_name_from_path("flatpak:com.example.App"), "com.example.App");
    assert_eq!(get_browser_name_from_path("/opt/tools/mybrowser"), "mybrowser");
}

#[test]
fn local_state_orders_names_ignoring_case() {
    let state = r#"{"profile":{"info_cache":{"Profile 1":{"name":"apple"},"Profile 2":{"name":"Banana"},"Profile 3":{"name":"Éclair"},"Profile 4":{"name":"éa"}}}}"#;
    let names: Vec<String> = parse_local_state(state).into_iter().map(|p| p.display_name).collect();
    assert_eq!(names, vec!["apple".to_string(), "Banana".to_string(), "éa".to_string(), "Éclair".to_string()]);
}

#[test]
fn profiles_compare_and_clone() {
    let p = profile("Default", "Person 1");
    assert_eq!(p.clone(), profile("Default", "Person 1"));
    assert_ne!(p, profile("Default", "Person 2"));
}
