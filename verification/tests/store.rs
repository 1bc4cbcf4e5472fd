use sith::store::{
    file_in_tool_dir, project_status, remember_recent, save_suggestion, saved_project_name, settings_path, RecentEntry,
    Settings, Theme, ThemeEditor,
};

fn entry(path: &str, label: &str) -> RecentEntry {
    RecentEntry { path: path.to_string(), is_project: false, label: label.to_string() }
}

#[test]
fn the_latest_file_goes_to_the_front_once() {
    let mut recent = vec![entry("/a/ONE.EXE", "ONE"), entry("/a/TWO.DLL", "TWO")];
    let docs = vec![
        ("/a/ONE.EXE".to_string(), "ONE".to_string()),
        ("/a/TWO.DLL".to_string(), "TWO".to_string()),
    ];
    remember_recent(&mut recent, "/a/TWO.DLL".to_string(), false, "", &docs);
    let paths: Vec<&str> = recent.iter().map(|r| r.path.as_str()).collect();
    assert_eq!(paths, vec!["/a/TWO.DLL", "/a/ONE.EXE"]);
    // A binary is labelled with its own module name.
    assert_eq!(recent[0].label, "TWO");
}

#[test]
fn a_project_is_labelled_with_its_name() {
    let mut recent = Vec::new();
    remember_recent(&mut recent, "/p/game.sith".to_string(), true, "Game", &Vec::new());
    assert_eq!(recent.len(), 1);
    assert!(recent[0].is_project);
    assert_eq!(recent[0].label, "Game");
}

#[test]
fn the_list_keeps_twelve() {
    let mut recent: Vec<RecentEntry> = (0..12).map(|i| entry(&format!("/f{i}"), "")).collect();
    remember_recent(&mut recent, "/new".to_string(), false, "", &Vec::new());
    assert_eq!(recent.len(), 12);
    assert_eq!(recent[0].path, "/new");
    assert_eq!(recent[11].path, "/f10");
}

#[test]
fn a_recent_entry_is_shown_by_its_file_name() {
    let e = entry("/games/title/GAME.EXE", "");
    assert_eq!(e.file_name(), "GAME.EXE");
    assert_eq!(entry("/games/chips/", "").file_name(), "chips");
    assert_eq!(entry("/", "").file_name(), "/");
    assert_eq!(entry("./games/CHIPS.EXE", "").file_name(), "CHIPS.EXE");
    assert!(!entry("/nonexistent/dir/NOPE.EXE", "").exists_on_disk());
}

#[test]
fn settings_sit_beside_the_recent_list() {
    let p = settings_path(Some("/home/u/.config/sith/recent.json")).unwrap();
    assert_eq!(p, "/home/u/.config/sith/settings.json");
    assert_eq!(settings_path(None), None);
    assert_eq!(Settings::default().theme, "Catppuccin Mocha");
}

#[test]
fn editing_a_built_in_theme_starts_a_copy() {
    let t = Theme { name: "Nord".to_string(), builtin: true, dark: true, colors: vec![1, 2, 3] };
    let ed = ThemeEditor::open(t, "Nord".to_string());
    assert_eq!(ed.working.name, "Nord copy");
    assert!(!ed.working.builtin);
    assert_eq!(ed.base.name, "Nord");
    assert!(ed.base.builtin);
    assert_eq!(ed.working.colors, vec![1, 2, 3]);
    let mine = Theme { name: "Mine".to_string(), builtin: false, dark: false, colors: vec![] };
    assert_eq!(ThemeEditor::open(mine, "Nord".to_string()).working.name, "Mine");
}

#[test]
fn a_project_status_counts_what_it_found() {
    assert_eq!(project_status("chips", 12, 3, 3), "chips \u{2014} 12 annotations across 3 binaries");
    assert_eq!(project_status("chips", 0, 3, 1), "chips \u{2014} 0 annotations across 3 binaries, 2 missing");
    assert_eq!(project_status("empty", 5, 0, 0), "empty lists no binaries");
}

#[test]
fn an_unnamed_project_is_offered_a_name() {
    assert_eq!(save_suggestion(""), "project.sith");
    assert_eq!(save_suggestion("chips"), "chips.sith");
    assert_eq!(saved_project_name("", Some("game")), "game");
    assert_eq!(saved_project_name("", None), "untitled");
    assert_eq!(saved_project_name("chips", Some("game")), "chips");
}

#[test]
fn remembering_a_listed_path_again_keeps_it_once() {
    let mut recent = vec![entry("/a", ""), entry("/b", ""), entry("/c", "")];
    remember_recent(&mut recent, "/c".to_string(), false, "", &Vec::new());
    remember_recent(&mut recent, "/c".to_string(), false, "", &Vec::new());
    let paths: Vec<&str> = recent.iter().map(|r| r.path.as_str()).collect();
    assert_eq!(paths, vec!["/c", "/a", "/b"]);
}

#[test]
fn tool_files_live_in_their_own_directory() {
    assert_eq!(
        file_in_tool_dir(Some("/home/u/.config".to_string()), "themes").as_deref(),
        Some("/home/u/.config/sith/themes")
    );
    assert_eq!(file_in_tool_dir(Some("/home/u/.config/".to_string()), "keys.json").as_deref(), Some("/home/u/.config/sith/keys.json"));
    assert_eq!(file_in_tool_dir(None, "themes"), None);
}
