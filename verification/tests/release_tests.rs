use vrc_get::release::{download_url, is_beta, release_notes, updater_platform_files};

#[test]
fn beta_versions() {
    assert!(is_beta("1.1.0-beta.2"));
    assert!(!is_beta("1.1.0"));
}

#[test]
fn notes_point_at_the_change_log() {
    assert_eq!(
        release_notes("1.0.1", "2025-02-05"),
        "Please read changelog at https://github.com/vrc-get/vrc-get/blob/master/CHANGELOG-gui.md#101---2025-02-05"
    );
    assert_eq!(
        release_notes("1.1.0-rc.1", "2025-02-05"),
        "Please read changelog at https://github.com/vrc-get/vrc-get/blob/master/CHANGELOG-gui.md#unreleased"
    );
}

#[test]
fn published_files() {
    let files = updater_platform_files("1.0.1");
    assert_eq!(files.len(), 4);
    assert_eq!(files[0], ("darwin-x86_64".to_string(), "ALCOM-1.0.1-universal.app.tar.gz".to_string()));
    assert_eq!(files[1].1, files[0].1);
    assert_eq!(files[2], ("linux-x86_64".to_string(), "alcom-1.0.1-x86_64.AppImage.tar.gz".to_string()));
    assert_eq!(files[3], ("windows-x86_64".to_string(), "ALCOM-1.0.1-x86_64-setup.nsis.zip".to_string()));
    assert_eq!(
        download_url("1.0.1", &files[3].1),
        "https://github.com/vrc-get/vrc-get/releases/download/gui-v1.0.1/ALCOM-1.0.1-x86_64-setup.nsis.zip"
    );
}
