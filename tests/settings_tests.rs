use flat_tree::error::{EditorIoError, ErrorType};
use flat_tree::settings::{get_settings_path, load_settings, save_settings, EditorSettings, FileTreeSettings, SettingsSource};

#[test]
fn default_settings_hide_hidden_elements() {
    assert!(!EditorSettings::default().show_hidden_elements);
}

#[test]
fn settings_path_is_in_project_root() {
    assert_eq!(get_settings_path(&"/home/me/project".to_string()), "/home/me/project/settings.json");
}

#[test]
fn load_settings_uses_defaults_without_file() {
    match load_settings(&"/p".to_string(), Ok(false)).unwrap() {
        SettingsSource::Defaults(d) => assert!(!d.show_hidden_elements),
        SettingsSource::File(_) => panic!("expected defaults"),
    }
}

#[test]
fn load_settings_reads_existing_file() {
    match load_settings(&"/p".to_string(), Ok(true)).unwrap() {
        SettingsSource::File(path) => assert_eq!(path, "/p/settings.json"),
        SettingsSource::Defaults(_) => panic!("expected a file"),
    }
}

#[test]
fn load_settings_passes_probe_error_on() {
    let err = load_settings(&"/p".to_string(), Err(EditorIoError::new("denied", ErrorType::PermissionDenied))).unwrap_err();
    assert_eq!(err.error_type, ErrorType::PermissionDenied);
    assert_eq!(err.message, "denied");
}

#[test]
fn save_settings_targets_settings_file() {
    let s = EditorSettings { show_hidden_elements: true };
    let w = save_settings(&s, &"/p".to_string());
    assert_eq!(w.path, "/p/settings.json");
    assert_eq!(w.settings, s);
}

#[test]
fn file_tree_settings_follow_editor_settings() {
    let f = FileTreeSettings::from(EditorSettings { show_hidden_elements: true });
    assert!(f.show_hidden_elements);
}

#[test]
fn error_new_keeps_message_and_kind() {
    let e = EditorIoError::new("boom", ErrorType::Other);
    assert_eq!(e.message, "boom");
    assert_eq!(e.kind(), ErrorType::Other);
}
