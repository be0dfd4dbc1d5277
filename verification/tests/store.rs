//! App settings and the Recents list.

use bundlermd::project::ProjectSettings;
use bundlermd::store::{abbreviate_home, AppSettings, GlobalStore, MenuRendering, Theme, MAX_RECENTS};

fn store() -> GlobalStore {
    GlobalStore::with_data("/cfg/settings.json".to_string(), AppSettings::default(), Vec::new())
}

#[test]
fn app_settings_defaults() {
    let s = AppSettings::default();
    assert!(s.theme == Theme::System);
    assert!(s.menu_rendering == MenuRendering::Native);
    assert_eq!(s.max_file_bytes, 200_000_000);
    assert_eq!(s.max_total_bytes, 250_000_000);
    assert_eq!(s.default_project_settings, ProjectSettings::default());
    let l = s.limits();
    assert_eq!((l.max_file_bytes, l.max_total_bytes), (200_000_000, 250_000_000));
}

#[test]
fn touch_recent_moves_to_front() {
    let mut s = store();
    s.touch_recent("/a.bmd");
    s.touch_recent("/b.bmd");
    s.touch_recent("/a.bmd");
    assert_eq!(s.recents(), vec!["/a.bmd".to_string(), "/b.bmd".to_string()]);
}

#[test]
fn touch_recent_caps_the_list() {
    let mut s = store();
    for i in 0..20 {
        s.touch_recent(&format!("/p{i}.bmd"));
    }
    let r = s.recents();
    assert_eq!(r.len(), MAX_RECENTS);
    assert_eq!(r[0], "/p19.bmd");
    assert_eq!(r[MAX_RECENTS - 1], "/p8.bmd");
}

#[test]
fn touching_twice_is_touching_once() {
    let mut s = store();
    s.touch_recent("/a.bmd");
    s.touch_recent("/b.bmd");
    let once = s.recents();
    s.touch_recent("/b.bmd");
    assert_eq!(s.recents(), once);
}

#[test]
fn clear_recents_and_settings_round_trip() {
    let mut s = store();
    s.touch_recent("/a.bmd");
    s.clear_recents();
    assert!(s.recents().is_empty());
    let mut settings = AppSettings::default();
    settings.theme = Theme::Dark;
    s.set_settings(settings.clone());
    assert!(s.settings().theme == Theme::Dark);
    assert_eq!(s.file_path(), "/cfg/settings.json");
}

#[test]
fn recents_show_the_home_directory_as_tilde() {
    assert_eq!(abbreviate_home("/home/ann/p/foo.bmd", Some("/home/ann")), "~/p/foo.bmd");
    assert_eq!(abbreviate_home("/srv/foo.bmd", Some("/home/ann")), "/srv/foo.bmd");
    assert_eq!(abbreviate_home("/home/ann/foo.bmd", None), "/home/ann/foo.bmd");
    assert_eq!(abbreviate_home("/home", Some("/home/ann")), "/home");
    assert_eq!(abbreviate_home("/home/ann", Some("/home/ann")), "~");
}
