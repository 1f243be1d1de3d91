use zlaunch::assets::{AssetOrigin, CombinedAssets, PhosphorIcon};
use zlaunch::config::{ConfigModule, LauncherMode};

#[test]
fn test_config_module_all() {
    let all = ConfigModule::all();
    assert_eq!(all.len(), 9);
    assert!(all.contains(&ConfigModule::Applications));
    assert!(all.contains(&ConfigModule::Calculator));
    assert!(all.contains(&ConfigModule::Ai));
}

#[test]
fn test_launcher_mode_parse_combined() {
    assert_eq!(
        LauncherMode::parse_str("combined"),
        Some(LauncherMode::Combined)
    );
    assert_eq!(
        LauncherMode::parse_str("COMBINED"),
        Some(LauncherMode::Combined)
    );
}

#[test]
fn test_launcher_mode_parse_applications() {
    assert_eq!(
        LauncherMode::parse_str("applications"),
        Some(LauncherMode::Applications)
    );
    assert_eq!(
        LauncherMode::parse_str("apps"),
        Some(LauncherMode::Applications)
    );
    assert_eq!(
        LauncherMode::parse_str("app"),
        Some(LauncherMode::Applications)
    );
}

#[test]
fn test_launcher_mode_parse_emojis() {
    assert_eq!(
        LauncherMode::parse_str("emojis"),
        Some(LauncherMode::Emojis)
    );
    assert_eq!(LauncherMode::parse_str("emoji"), Some(LauncherMode::Emojis));
}

#[test]
fn test_launcher_mode_parse_calculator() {
    assert_eq!(
        LauncherMode::parse_str("calculator"),
        Some(LauncherMode::Calculator)
    );
    assert_eq!(
        LauncherMode::parse_str("calc"),
        Some(LauncherMode::Calculator)
    );
}

#[test]
fn test_launcher_mode_parse_invalid() {
    assert_eq!(LauncherMode::parse_str("invalid"), None);
    assert_eq!(LauncherMode::parse_str(""), None);
}

#[test]
fn test_launcher_mode_display_name() {
    assert_eq!(LauncherMode::Combined.display_name(), "Combined");
    assert_eq!(LauncherMode::Applications.display_name(), "Applications");
    assert_eq!(LauncherMode::Ai.display_name(), "AI");
}

#[test]
fn test_launcher_mode_from_module() {
    assert_eq!(
        LauncherMode::from_module(&ConfigModule::Applications),
        LauncherMode::Applications
    );
    assert_eq!(
        LauncherMode::from_module(&ConfigModule::Ai),
        LauncherMode::Ai
    );
}

#[test]
fn test_launcher_mode_to_module() {
    assert_eq!(LauncherMode::Combined.to_module(), None);
    assert_eq!(
        LauncherMode::Applications.to_module(),
        Some(ConfigModule::Applications)
    );
}

#[test]
fn config_module_all_order() {
    let all = ConfigModule::all();
    assert_eq!(all[0], ConfigModule::Calculator);
    assert_eq!(all[8], ConfigModule::Search);
}

#[test]
fn parse_mixed_case_aliases() {
    assert_eq!(LauncherMode::parse_str("Window"), Some(LauncherMode::Windows));
    assert_eq!(LauncherMode::parse_str("THEME"), Some(LauncherMode::Themes));
    assert_eq!(LauncherMode::parse_str("Action"), Some(LauncherMode::Actions));
    assert_eq!(LauncherMode::parse_str("Ai"), Some(LauncherMode::Ai));
}

#[test]
fn parse_lowered_is_case_sensitive() {
    assert_eq!(LauncherMode::parse_lowered("calc"), Some(LauncherMode::Calculator));
    assert_eq!(LauncherMode::parse_lowered("CALC"), None);
}

#[test]
fn every_module_round_trips_through_mode() {
    for m in ConfigModule::all() {
        assert_eq!(LauncherMode::from_module(&m).to_module(), Some(m));
    }
}

#[test]
fn icon_paths_and_names() {
    assert_eq!(PhosphorIcon::Power.path(), "icons/power.svg");
    assert_eq!(PhosphorIcon::SignOut.path(), "icons/sign-out.svg");
    assert_eq!(PhosphorIcon::from_name("sign-out"), Some(PhosphorIcon::SignOut));
    assert_eq!(PhosphorIcon::from_name("terminal"), Some(PhosphorIcon::Terminal));
    assert_eq!(PhosphorIcon::from_name("Power"), None);
    assert_eq!(PhosphorIcon::from_name(""), None);
}

#[test]
fn asset_origin_and_listing() {
    assert_eq!(CombinedAssets::origin("", true), AssetOrigin::Nowhere);
    assert_eq!(CombinedAssets::origin("icons/moon.svg", true), AssetOrigin::Bundled);
    assert_eq!(CombinedAssets::origin("icons/x.svg", false), AssetOrigin::Components);
    let names = vec!["icons/moon.svg".to_string(), "other/a.svg".to_string(), "icons/lock.svg".to_string()];
    assert_eq!(
        CombinedAssets::listed(&names, "icons/"),
        vec!["icons/moon.svg".to_string(), "icons/lock.svg".to_string()]
    );
    assert_eq!(CombinedAssets::listed(&names, "").len(), 3);
}
