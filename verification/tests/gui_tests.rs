use vrc_get::gui::environment::{environment_step, environment_version_after, EnvironmentStep, PackageLoad};
use vrc_get::gui::UpdateRepositoryMode;
use vrc_get::gui::templates::{saved_template_id, template_file_candidates, template_file_stem};
use vrc_get::gui::{
    finish_setup_page, finished_setup_pages, navigation_allowed, project_type_label, records_resize,
    restores_window_size, saved_window_state, start_page, BridgeClosed, LogLevel, ProjectRow, ProjectType,
    SetupPages, UnityHubAccessMethod, WindowSize,
};

#[test]
fn setup_page_flags() {
    assert_eq!(SetupPages::Backups.as_flag(), 8);
    assert!(SetupPages::UnityHub.is_finished(0b10));
    assert!(!SetupPages::UnityHub.is_finished(0b01));
    assert_eq!(SetupPages::pages(true).len(), 4);
    assert_eq!(SetupPages::pages(false).len(), 5);
    assert_eq!(SetupPages::SystemSetting.path(), "/setup/system-setting/");
    let flags = finish_setup_page(0, SetupPages::ProjectPath);
    assert_eq!(flags, 4);
    let flags = finish_setup_page(flags, SetupPages::Appearance);
    assert_eq!(finished_setup_pages(flags, false), vec![SetupPages::Appearance, SetupPages::ProjectPath]);
    assert_eq!(finished_setup_pages(0x1f, true).len(), 4);
}

#[test]
fn plain_front_end_values() {
    assert_eq!(LogLevel::Warn.to_str(), "WARN");
    assert_eq!(LogLevel::Trace.as_number(), 5);
    assert_eq!(WindowSize::default(), WindowSize { width: 1300, height: 800 });
    assert_eq!(UnityHubAccessMethod::default(), UnityHubAccessMethod::ReadConfig);
    assert_eq!(BridgeClosed.message(), "tokio bridge is closed");
}

#[test]
fn project_rows() {
    assert_eq!(project_type_label(ProjectType::LegacySdk2), "Legacy SDK2");
    assert_eq!(project_type_label(ProjectType::VpmStarter), "VPM Starter");
    let row = ProjectRow::from_user_project(
        "/home/me/Projects/Avatar".to_string(),
        Some("Avatar".to_string()),
        ProjectType::Avatars,
        None,
        true,
        None,
    );
    assert_eq!(row.name, "Avatar");
    assert_eq!(row.project_type, "Avatars");
    assert_eq!(row.unity, "unknown");
    assert_eq!(row.last_modified_ms, 0);
    let row = ProjectRow::from_user_project("/".to_string(), None, ProjectType::Unknown, Some("2022.3.22f1".to_string()), false, Some(5));
    assert_eq!(row.name, "/");
    assert_eq!(row.unity, "2022.3.22f1");
    assert_eq!(row.last_modified_ms, 5);
}

#[test]
fn template_file_names_drop_forbidden_characters() {
    assert_eq!(template_file_stem("My <Project>: v1.0..."), "My Project v1.0");
    assert_eq!(template_file_stem("  a/b\\c|d?e*f\"g  "), "abcdefg");
    assert_eq!(template_file_stem("..."), "");
    assert_eq!(template_file_stem("name. ."), "name. ");
    assert_eq!(template_file_stem(&"x".repeat(150)), "x".repeat(100));
    assert_eq!(template_file_stem(&"あ".repeat(120)), "あ".repeat(100));
    assert_eq!(template_file_stem(&format!("{}{}", " ".repeat(99), "ab")), "a");
}

#[test]
fn template_file_candidates_are_numbered() {
    let c = template_file_candidates("tmpl");
    assert_eq!(c.len(), 11);
    assert_eq!(c[0], "tmpl");
    assert_eq!(c[1], "tmpl_1");
    assert_eq!(c[10], "tmpl_10");
}

#[test]
fn user_template_ids_are_not_saved() {
    assert_eq!(saved_template_id(&Some("com.anatawa12.vrc-get.user.0123".to_string())), None);
    assert_eq!(saved_template_id(&Some("com.example.template".to_string())), Some("com.example.template".to_string()));
    assert_eq!(saved_template_id(&None), None);
}

#[test]
fn environment_is_reloaded_when_stale() {
    let second: u128 = 1_000_000_000;
    assert_eq!(
        environment_step(false, None, None, UpdateRepositoryMode::IfOutdatedOrNecessaryForLocal),
        EnvironmentStep { create: true, reload_settings: false, load: PackageLoad::Local }
    );
    assert_eq!(environment_step(false, None, None, UpdateRepositoryMode::NoUpdate).load, PackageLoad::Keep);
    let step = environment_step(true, Some(second / 2), Some(60 * second), UpdateRepositoryMode::IfOutdatedOrNecessary);
    assert_eq!(step, EnvironmentStep { create: false, reload_settings: false, load: PackageLoad::Keep });
    let step = environment_step(true, Some(2 * second), Some(301 * second), UpdateRepositoryMode::IfOutdatedOrNecessary);
    assert_eq!(step, EnvironmentStep { create: false, reload_settings: true, load: PackageLoad::Remote });
    assert_eq!(environment_step(true, Some(second), Some(300 * second), UpdateRepositoryMode::IfOutdatedOrNecessary).load, PackageLoad::Keep);
    assert!(environment_step(true, Some(second), None, UpdateRepositoryMode::NoUpdate).reload_settings);
    assert_eq!(environment_step(true, None, Some(0), UpdateRepositoryMode::Force).load, PackageLoad::Remote);
    assert_eq!(environment_version_after(u32::MAX, &step), 0);
    let keep = environment_step(true, None, None, UpdateRepositoryMode::NoUpdate);
    assert_eq!(environment_version_after(7, &keep), 7);
}

#[test]
fn the_main_window_opens_on_the_first_unfinished_setup_page() {
    assert_eq!(start_page(0, false), "/setup/appearance/");
    assert_eq!(start_page(0b0111, false), "/setup/backups/");
    assert_eq!(start_page(0b1111, false), "/setup/system-setting/");
    assert_eq!(start_page(0b1111, true), "/projects/");
    assert_eq!(start_page(0b11111, false), "/projects/");
    assert_eq!(start_page(0b11101, false), "/setup/unity-hub/");
}

#[test]
fn the_main_window_stays_on_the_app_pages() {
    assert!(navigation_allowed("http", Some("tauri.localhost"), true, false));
    assert!(navigation_allowed("https", Some("vrc-get.localhost"), true, false));
    assert!(!navigation_allowed("https", Some("tauri.localhost"), true, false));
    assert!(!navigation_allowed("tauri", Some("localhost"), true, false));
    assert!(navigation_allowed("tauri", Some("localhost"), false, false));
    assert!(navigation_allowed("vrc-get", None, false, false));
    assert!(!navigation_allowed("https", Some("example.com"), false, false));
    assert!(navigation_allowed("http", Some("localhost"), false, true));
    assert!(!navigation_allowed("http", Some("localhost"), false, false));
}

#[test]
fn window_sizes_are_kept_unless_too_small() {
    assert!(restores_window_size(WindowSize { width: 1300, height: 800 }));
    assert!(!restores_window_size(WindowSize { width: 100, height: 800 }));
    assert!(records_resize(WindowSize { width: 100, height: 100 }));
    assert!(!records_resize(WindowSize { width: 99, height: 800 }));
    let saved = WindowSize { width: 1300, height: 800 };
    let size = WindowSize { width: 640, height: 480 };
    assert_eq!(saved_window_state(saved, true, size), (true, saved));
    assert_eq!(saved_window_state(saved, false, size), (false, size));
}

#[test]
fn ascii_lowercase_leaves_other_characters() {
    assert_eq!(vrc_get::text::str_to_ascii_lowercase("AbC-Z\u{c4}z"), "abc-z\u{c4}z");
    assert_eq!(vrc_get::text::str_to_ascii_lowercase(""), "");
}
