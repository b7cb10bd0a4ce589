use std::path::PathBuf;

use vrc_get::gui::backup::{backup_compression, backup_file_name, BackupCompression};
use vrc_get::gui::config::{language_for_locales, GuiConfig};
use vrc_get::gui::logging::{is_log_file_name, logs_to_remove, MAX_LOGS};
use vrc_get::gui::os::{
    append_cmd_escaped, appdir_env_fix, appdir_is_usable, linux_os_info, lsb_release_description,
    os_release_description, windows_start_command_line, EnvFix,
};
use vrc_get::gui::packages::{user_repo_ids, user_repo_urls};
use vrc_get::gui::project::{
    project_dir_check, project_folder_name, root_insertion, LeadingComponent, TauriProjectDirCheckResult,
};
use vrc_get::gui::LogLevel;
use vrc_get::vpm::setting::UserRepoSetting;

fn wide(s: &str) -> Vec<u16> {
    s.encode_utf16().collect()
}

#[test]
fn log_file_names() {
    assert!(is_log_file_name("vrc-get-2024-05-01_12-30-45.123456.log"));
    assert!(!is_log_file_name("vrc-get-2024-05-01_12-30-45.123456.txt"));
    assert!(!is_log_file_name("vrc-get-2024-05-01 12-30-45.123456.log"));
    assert!(!is_log_file_name("vrc-get-2024-05-01_12-30-45.12345a.log"));
    assert!(!is_log_file_name("vrc-get-2024-05-01_12-30-45.1234567.log"));
    assert!(!is_log_file_name("alcom-2024-05-01_12-30-45.123456.log"));
    assert!(!is_log_file_name("vrc-get-2024-05-01_12-30-45.12345é.log"));
}

#[test]
fn old_logs_are_removed_newest_kept() {
    let mut names = Vec::new();
    for i in 0..(MAX_LOGS + 2) {
        names.push(format!("vrc-get-2024-05-{:02}_00-00-00.000000.log", i + 1));
    }
    names.push("notes.txt".to_string());
    // the two oldest by name go; the other entry is no log file
    assert_eq!(logs_to_remove(&names), vec![0, 1]);
    assert_eq!(logs_to_remove(&names[2..]), Vec::<usize>::new());
    // listing order does not matter
    names.reverse();
    assert_eq!(logs_to_remove(&names), vec![31, 32]);
}

#[test]
fn cmd_escaping() {
    let mut out = Vec::new();
    append_cmd_escaped(&mut out, &wide("a b"));
    assert_eq!(out, wide("\"a b\""));

    let mut out = Vec::new();
    append_cmd_escaped(&mut out, &wide("100%"));
    assert_eq!(out, wide("\"100%%cd:~,%\""));

    let mut out = Vec::new();
    append_cmd_escaped(&mut out, &wide("say \\\"hi\"\nbye"));
    assert_eq!(out, wide("\"say \\\\\"\"hi\"\"bye\""));
}

#[test]
fn cmd_start_line() {
    let line = windows_start_command_line(&wide("Unity"), &wide("C:\\Unity.exe"), &[wide("-projectPath"), wide("C:\\my project")]);
    assert_eq!(
        String::from_utf16(&line).unwrap(),
        "/E:ON /V:OFF /d /c start /b \"Unity\" \"C:\\Unity.exe\" \"-projectPath\" \"C:\\my project\""
    );
}

#[test]
fn os_release_names() {
    let file = "NAME=\"Ubuntu\"\nVERSION=\"22.04.4 LTS (Jammy Jellyfish)\"\nPRETTY_NAME=\"Ubuntu 22.04.4 LTS\"\n";
    assert_eq!(os_release_description(file).as_deref(), Some("Ubuntu 22.04.4 LTS"));
    let file = "NAME=Arch\r\nVERSION=\"rolling\"\r\n";
    assert_eq!(os_release_description(file).as_deref(), Some("Arch rolling"));
    assert_eq!(os_release_description("NAME=\"Gentoo\"").as_deref(), Some("Gentoo"));
    assert_eq!(os_release_description("ID=void\n"), None);
    // the last line of a key wins
    assert_eq!(os_release_description("PRETTY_NAME=a\nPRETTY_NAME=b\n").as_deref(), Some("b"));
}

#[test]
fn lsb_descriptions() {
    let out = "No LSB modules are available.\nDescription:\tDebian GNU/Linux 12 (bookworm)\n";
    assert_eq!(lsb_release_description(out).as_deref(), Some("Debian GNU/Linux 12 (bookworm)"));
    assert_eq!(lsb_release_description("Description: x\n"), None);
}

#[test]
fn linux_info() {
    assert_eq!(
        linux_os_info(Some("6.8.0"), Some("Description:\tFedora 40\n"), Some("PRETTY_NAME=x")),
        "Linux 6.8.0, Fedora 40"
    );
    assert_eq!(linux_os_info(Some("6.8.0"), None, Some("PRETTY_NAME=\"Arch Linux\"")), "Linux 6.8.0, Arch Linux");
    assert_eq!(linux_os_info(None, None, None), "Linux (unknown kernel), Unknown Distribution");
}

#[test]
fn appdir_variables() {
    let appdir = b"/tmp/.mount_alcom";
    assert!(appdir_is_usable(appdir));
    assert!(!appdir_is_usable(b""));
    assert!(!appdir_is_usable(b"/tmp/a:b"));
    assert!(matches!(appdir_env_fix(appdir, b"/usr/lib"), EnvFix::Keep));
    match appdir_env_fix(appdir, b"/tmp/.mount_alcom/usr/lib:/tmp/.mount_alcom/lib:/usr/lib:/lib") {
        EnvFix::SetTo(v) => assert_eq!(v, b"/usr/lib:/lib".to_vec()),
        _ => panic!("expected a new value"),
    }
    assert!(matches!(appdir_env_fix(appdir, b"/tmp/.mount_alcom/usr/lib"), EnvFix::Remove));
    assert!(matches!(appdir_env_fix(appdir, b"/tmp/.mount_alcom/usr/lib:"), EnvFix::Remove));
}

#[test]
fn project_names() {
    assert_eq!(project_folder_name("  My Project "), Some("My Project"));
    assert_eq!(project_folder_name("   "), None);
    assert_eq!(project_folder_name("con"), None);
    assert_eq!(project_folder_name("Lpt7"), None);
    assert_eq!(project_folder_name("COM10"), Some("COM10"));
    assert_eq!(project_folder_name("a/b"), None);
    assert_eq!(project_folder_name("what?"), None);
    assert_eq!(project_folder_name(&"x".repeat(256)), None);
    assert_eq!(project_dir_check("My Project", true, true), TauriProjectDirCheckResult::AlreadyExists);
    assert_eq!(project_dir_check("100%", false, true), TauriProjectDirCheckResult::MayCompatibilityProblem);
    assert_eq!(project_dir_check("100%", false, false), TauriProjectDirCheckResult::Usable);
    assert_eq!(project_dir_check("プロジェクト", false, true), TauriProjectDirCheckResult::WideChar);
    assert_eq!(project_dir_check("My Project", false, true), TauriProjectDirCheckResult::Usable);
}

#[test]
fn languages_from_locales() {
    let l = |v: &[&str]| language_for_locales(&v.iter().map(|s| s.to_string()).collect::<Vec<_>>());
    assert_eq!(l(&["fr-FR", "ja-JP", "en-US"]), "ja");
    assert_eq!(l(&["zh-CN"]), "zh_hans");
    assert_eq!(l(&["de-AT"]), "de");
    assert_eq!(l(&["fr-FR"]), "en");
    assert_eq!(l(&[]), "en");
}

#[test]
fn gui_config_defaults() {
    let mut config = GuiConfig::default();
    assert!(["en", "de", "ja", "zh_hans"].contains(&config.language.as_str()));
    assert_eq!(config.theme, "system");
    assert_eq!(config.backup_format, "default");
    assert_eq!(config.project_sorting, "lastModified");
    assert_eq!(config.release_channel, "stable");
    assert_eq!(config.logs_level, vec![LogLevel::Debug, LogLevel::Error, LogLevel::Warn, LogLevel::Info]);
    assert!(config.gui_animation);
    assert_eq!(config.window_size.width, 1300);

    config.language = "zh_cn".to_string();
    config.backup_format = String::new();
    config.project_sorting = "name".to_string();
    config.fix_defaults();
    assert_eq!(config.language, "zh_hans");
    assert_eq!(config.backup_format, "default");
    assert_eq!(config.project_sorting, "name");

    config.hide_repository("a".to_string());
    config.hide_repository("b".to_string());
    config.hide_repository("a".to_string());
    assert_eq!(config.hidden_repositories(), vec!["a".to_string(), "b".to_string()]);
    config.show_repository("a");
    assert_eq!(config.hidden_repositories(), vec!["b".to_string()]);
}

fn repo(name: Option<&str>, url: Option<&str>, id: Option<&str>) -> UserRepoSetting {
    UserRepoSetting {
        local_path: PathBuf::from("repo.json"),
        name: name.map(str::to_string),
        url: url.map(str::to_string),
        id: id.map(str::to_string),
    }
}

#[test]
fn repository_names() {
    let repos = vec![
        repo(Some("Mine"), Some("https://example.com/vpm.json"), Some("com.example")),
        repo(None, Some("https://example.org/vpm.json"), None),
        repo(None, Some("https://example.net/vpm.json"), Some("net.example")),
    ];
    let urls = user_repo_urls(&repos, false, true);
    assert_eq!(
        urls,
        vec![
            ("https://example.com/vpm.json".to_string(), "Mine".to_string()),
            ("https://example.org/vpm.json".to_string(), "https://example.org/vpm.json".to_string()),
            ("https://example.net/vpm.json".to_string(), "net.example".to_string()),
            ("https://packages.vrchat.com/curated?download".to_string(), "com.vrchat.repos.official".to_string()),
        ]
    );
    let ids = user_repo_ids(&repos, true, false);
    assert_eq!(
        ids,
        vec![
            ("com.example".to_string(), "Mine".to_string()),
            ("net.example".to_string(), "net.example".to_string()),
            ("com.vrchat.repos.official".to_string(), "com.vrchat.repos.official".to_string()),
        ]
    );
    // a later repository with the same address gives its name
    let repos = vec![repo(Some("A"), Some("u"), None), repo(Some("B"), Some("u"), None)];
    assert_eq!(user_repo_urls(&repos, true, true), vec![("u".to_string(), "B".to_string())]);
}

#[test]
fn backup_formats_and_names() {
    assert_eq!(backup_compression("default"), BackupCompression::Stored);
    assert_eq!(backup_compression("ZIP-STORE"), BackupCompression::Stored);
    assert_eq!(backup_compression("zip-fast"), BackupCompression::Deflate(1));
    assert_eq!(backup_compression("Zip-Best"), BackupCompression::Deflate(9));
    assert_eq!(backup_compression("tar"), BackupCompression::Deflate(1));
    assert_eq!(backup_file_name("MyAvatar", 2024, 3, 7, 9, 5, 0), "MyAvatar-2024-03-07T09-05-00.zip");
    assert_eq!(backup_file_name("a.b", 12345, 12, 31, 23, 59, 59), "a.b-12345-12-31T23-59-59.zip");
    assert_eq!(backup_file_name("x", 7, 1, 1, 0, 0, 0), "x-0007-01-01T00-00-00.zip");
}

#[test]
fn base_folder_roots() {
    let disk = Some(LeadingComponent::DiskPrefix);
    let root = Some(LeadingComponent::RootDir);
    let other = Some(LeadingComponent::Other);
    assert_eq!(root_insertion(false, disk, root), None);
    assert_eq!(root_insertion(false, disk, other), Some(1));
    assert_eq!(root_insertion(false, disk, None), Some(1));
    assert_eq!(root_insertion(false, Some(LeadingComponent::OtherPrefix), other), None);
    assert_eq!(root_insertion(false, root, other), None);
    assert_eq!(root_insertion(false, other, other), Some(0));
    assert_eq!(root_insertion(false, None, None), None);
    assert_eq!(root_insertion(true, other, other), None);
}

#[test]
fn as_many_logs_removed_as_exceed_the_limit() {
    let mut names = Vec::new();
    for i in 0..(MAX_LOGS + 10) {
        names.push(format!("vrc-get-2024-06-01_00-00-{:02}.000000.log", i % 20));
        names.push(format!("other-{i}.log"));
    }
    assert_eq!(logs_to_remove(&names).len(), 10);
}
