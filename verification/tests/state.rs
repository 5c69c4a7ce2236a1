use exile_ggpk::export_window::{ExportSettings, ExportWindow, TextureFormat};
use exile_ggpk::ggpk::GgpkReader;
use exile_ggpk::record::RecordTag;
use exile_ggpk::settings::AppSettings;
use exile_ggpk::settings_window::SettingsWindow;
use exile_ggpk::update::UpdateState;
use exile_ggpk::viewer::DatViewer;

#[test]
fn export_window_open_for_resets_confirmation() {
    let mut w = ExportWindow::new();
    assert!(!w.open);
    assert_eq!(w.settings, ExportSettings::default());
    assert_eq!(w.settings.texture_format, TextureFormat::OriginalDds);
    w.confirmed = true;
    w.open_for("weapon.dds", false);
    assert!(w.open);
    assert!(!w.confirmed);
    assert_eq!(w.target_name, "weapon.dds");
    assert!(!w.is_folder);
    assert!(!w.settings.recursive);
    w.open_for("Art", true);
    assert!(w.is_folder);
    assert!(w.settings.recursive);
}

#[test]
fn settings_window_tracks_fetch_state() {
    let mut w = SettingsWindow::new();
    assert!(!w.open);
    w.open();
    assert!(w.open);
    w.is_fetching = true;
    w.fetch_finished("Updated!".to_string());
    assert!(!w.is_fetching);
    assert_eq!(w.fetch_status_msg.as_deref(), Some("Updated!"));
}

#[test]
fn update_state_poll_folds_outcomes() {
    let mut s = UpdateState { pending: true, latest_version: None, release_url: None, error_msg: None };
    s.poll(None);
    assert!(s.pending);
    s.poll(Some(Ok(Some(("v2.0".to_string(), "https://example.invalid".to_string())))));
    assert!(!s.pending);
    assert_eq!(s.latest_version.as_deref(), Some("v2.0"));

    let mut s = UpdateState { pending: true, latest_version: None, release_url: None, error_msg: None };
    s.poll(Some(Err("offline".to_string())));
    assert!(!s.pending);
    assert_eq!(s.error_msg.as_deref(), Some("offline"));
}

#[test]
fn dat_viewer_loads_bytes_and_reports_filename() {
    let mut v = DatViewer {
        schema: None,
        schema_date: "Unknown".to_string(),
        reader: None,
        request_update_schema: false,
        error_msg: None,
    };
    assert!(v.loaded_filename().is_none());

    let mut buf = Vec::new();
    buf.extend_from_slice(&0u32.to_le_bytes());
    buf.extend_from_slice(&[0xBB; 4]);
    v.load_from_bytes(buf, "empty.dat");
    assert_eq!(v.loaded_filename(), Some("empty.dat"));
    assert!(v.error_msg.is_none());

    // a buffer without a row count cannot load
    v.load_from_bytes(vec![1, 2], "tiny.dat");
    assert!(v.loaded_filename().is_none());
    assert!(v.error_msg.is_some());
}

#[test]
fn default_settings_are_empty() {
    let s = AppSettings::default();
    assert!(s.ggpk_path.is_none());
    assert!(s.recent_files.is_empty());
}

#[test]
fn dat_viewer_loads_a_file_record_from_an_archive() {
    // a root record, a root directory with one entry, and a file record
    // named "empty.dat" whose body is a DAT buffer with zero rows
    let mut body = Vec::new();
    body.extend_from_slice(&0u32.to_le_bytes());
    body.extend_from_slice(&[0xBB; 4]);

    let name: Vec<char> = "empty.dat".chars().collect();
    let file_len = 8 + 4 + 32 + 4 * name.len() + 4 + body.len();
    let dir_len = 8 + 8 + 32 + 4 + 12;

    let mut buf = Vec::new();
    buf.extend_from_slice(&28u32.to_le_bytes());
    buf.extend_from_slice(&RecordTag::TAG_GGPK.to_le_bytes());
    buf.extend_from_slice(&4u32.to_le_bytes()); // version
    buf.extend_from_slice(&28u64.to_le_bytes()); // root offset
    buf.extend_from_slice(&0u64.to_le_bytes());

    let file_off = 28 + dir_len as u64;
    buf.extend_from_slice(&(dir_len as u32).to_le_bytes());
    buf.extend_from_slice(&RecordTag::TAG_PDIR.to_le_bytes());
    buf.extend_from_slice(&1u32.to_le_bytes()); // stored name length: empty name
    buf.extend_from_slice(&1u32.to_le_bytes()); // one entry
    buf.extend_from_slice(&[0u8; 32]);
    buf.extend_from_slice(&0u32.to_le_bytes()); // name terminator
    buf.extend_from_slice(&7u32.to_le_bytes()); // entry name hash
    buf.extend_from_slice(&file_off.to_le_bytes());

    buf.extend_from_slice(&(file_len as u32).to_le_bytes());
    buf.extend_from_slice(&RecordTag::TAG_FILE.to_le_bytes());
    buf.extend_from_slice(&((name.len() + 1) as u32).to_le_bytes());
    buf.extend_from_slice(&[0u8; 32]);
    for c in &name {
        buf.extend_from_slice(&(*c as u32).to_le_bytes());
    }
    buf.extend_from_slice(&0u32.to_le_bytes());
    buf.extend_from_slice(&body);

    let reader = GgpkReader::open(buf).expect("open");
    let mut v = DatViewer {
        schema: None,
        schema_date: "Unknown".to_string(),
        reader: None,
        request_update_schema: false,
        error_msg: None,
    };
    v.load(&reader, file_off);
    assert_eq!(v.loaded_filename(), Some("empty.dat"));
    assert!(v.error_msg.is_none());

    // an offset with no record there leaves an error and no reader
    v.load(&reader, 9999);
    assert!(v.loaded_filename().is_none());
    assert!(v.error_msg.is_some());
}
