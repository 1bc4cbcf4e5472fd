use sith::wizard::{project_file, renamed_project_file, suggested_name, ModuleSummary, Step, Wizard};

fn m(path: &str, module: &str, lib: bool, size: u64, imports: &[&str]) -> ModuleSummary {
    ModuleSummary {
        path: path.to_string(),
        module: module.to_string(),
        description: String::new(),
        is_library: lib,
        file_size: size,
        imports: imports.iter().map(|s| s.to_string()).collect(),
    }
}

fn sample() -> Wizard {
    let mut w = Wizard::default();
    w.take_scan(
        vec![
            m("/g/GAME.EXE", "game", false, 1000, &["KERNEL", "GFX", "USER", "gfx"]),
            m("/g/GFX.DLL", "GFX", true, 300, &["KERNEL"]),
            m("/g/OLD/GFX.DLL", "gfx", true, 200, &["GDI"]),
            m("/g/SETUP.EXE", "SETUP", false, 50, &["GFX"]),
        ],
        "/g",
        true,
    );
    w
}

#[test]
fn the_steps_go_in_order() {
    assert_eq!(Step::all().len(), 3);
    assert_eq!(Step::Modules.index(), 1);
    assert_eq!(Step::Source.next(), Step::Modules);
    assert_eq!(Step::Details.next(), Step::Details);
    assert_eq!(Step::Details.back(), Step::Modules);
    assert_eq!(Step::Source.back(), Step::Source);
}

#[test]
fn a_scan_picks_everything_and_says_how_much() {
    let w = sample();
    assert_eq!(w.selected_count(), 4);
    assert_eq!(w.message.as_deref(), Some("4 NE binaries found"));
    let mut empty = Wizard::default();
    empty.take_scan(Vec::new(), "/x", true);
    assert_eq!(empty.message.as_deref(), Some("no NE binaries under /x"));
    assert!(!empty.can_advance());
}

#[test]
fn advancing_needs_a_choice() {
    let mut w = sample();
    assert!(w.can_advance());
    w.step = Step::Modules;
    w.select_all(false);
    assert!(!w.can_advance());
    w.toggle(1);
    assert!(w.can_advance());
    assert_eq!(w.selected(), vec![1]);
    w.toggle(99);
    w.step = Step::Details;
    w.name = "  ".to_string();
    w.save_to = Some("/g/x.sith".to_string());
    assert!(!w.can_advance());
    w.name = "Game".to_string();
    assert!(w.can_advance());
}

#[test]
fn the_digest_cross_references_the_scan() {
    let mut w = sample();
    w.toggle(3);
    let d = w.digest();
    let mut all = sample();
    all.select_all(true);
    assert_eq!(all.digest().used_by, vec![("GFX".to_string(), 2)]);
    assert_eq!(d.apps, 2);
    assert_eq!(d.libs, 2);
    assert_eq!(d.total_bytes, 1550);
    assert_eq!(d.selected_bytes, 1500);
    // GAME lists GFX twice, in two cases, and counts once; SETUP is not picked.
    assert_eq!(d.used_by, vec![("GFX".to_string(), 1)]);
    assert_eq!(d.duplicates, vec!["GFX".to_string()]);
    assert_eq!(d.external, vec!["GDI".to_string(), "KERNEL".to_string(), "USER".to_string()]);
}

#[test]
fn applications_are_listed_first() {
    let w = sample();
    assert_eq!(w.module_order(), vec![0, 3, 1, 2]);
}

#[test]
fn the_filter_matches_name_or_path() {
    let mut w = sample();
    w.filter = "Old".to_string();
    assert!(!w.shown(0));
    assert!(w.shown(2));
    w.filter = "SET".to_string();
    assert!(w.shown(3));
    w.filter = String::new();
    assert!(w.shown(1));
}

#[test]
fn a_project_is_named_after_its_folder() {
    assert_eq!(suggested_name("", Some("TITLE")), "TITLE");
    assert_eq!(suggested_name("Mine", Some("TITLE")), "Mine");
    assert_eq!(suggested_name("", None), "project");
    assert_eq!(project_file("Game"), "Game.sith");
    assert_eq!(renamed_project_file("  Game 2 "), "Game 2.sith");
}

#[test]
fn ticking_twice_and_stepping_back_undo() {
    let mut w = sample();
    let before = w.picked.clone();
    w.toggle(2);
    assert_ne!(w.picked, before);
    w.toggle(2);
    assert_eq!(w.picked, before);
    for s in [Step::Source, Step::Modules] {
        assert_eq!(s.next().back(), s);
    }
    for s in [Step::Modules, Step::Details] {
        assert_eq!(s.back().next(), s);
    }
}

#[test]
fn a_scan_names_the_project_and_proposes_its_file() {
    let w = sample();
    assert_eq!(w.name, "g");
    assert_eq!(w.save_to.as_deref(), Some("/g/g.sith"));
    let mut one = Wizard::default();
    one.take_scan(vec![m("/games/chips/CHIPS.EXE", "CHIPS", false, 10, &[])], "/games/chips/CHIPS.EXE", false);
    assert_eq!(one.name, "CHIPS");
    assert_eq!(one.save_to.as_deref(), Some("/games/chips/CHIPS.sith"));
    let mut named = Wizard::default();
    named.name = "Chip's Challenge".to_string();
    named.take_scan(Vec::new(), "/games/chips", true);
    assert_eq!(named.name, "Chip's Challenge");
    assert_eq!(named.save_to.as_deref(), Some("/games/chips/Chip's Challenge.sith"));
    let mut rel = Wizard::default();
    rel.take_scan(Vec::new(), "./games", true);
    assert_eq!(rel.name, "games");
    assert_eq!(rel.save_to.as_deref(), Some("./games/games.sith"));
    let mut bare = Wizard::default();
    bare.take_scan(Vec::new(), "/", true);
    assert_eq!(bare.name, "project");
    assert_eq!(bare.save_to.as_deref(), Some("/project.sith"));
}

#[test]
fn renaming_moves_the_proposed_file() {
    let mut w = sample();
    w.rename("  Quest ".to_string());
    assert_eq!(w.name, "  Quest ");
    assert_eq!(w.save_to.as_deref(), Some("/g/Quest.sith"));
    let mut fresh = Wizard::default();
    fresh.rename("x".to_string());
    assert_eq!(fresh.name, "x");
    assert_eq!(fresh.save_to, None);
}

#[test]
fn the_wizard_steps_forward_and_back() {
    let mut w = sample();
    w.filter = "gfx".to_string();
    w.forward();
    assert_eq!(w.step, Step::Modules);
    w.forward();
    assert_eq!(w.step, Step::Details);
    w.forward();
    assert_eq!(w.step, Step::Details);
    w.backward();
    assert_eq!(w.step, Step::Modules);
    w.backward();
    w.backward();
    assert_eq!(w.step, Step::Source);
    assert_eq!(w.filter, "gfx");
    assert_eq!(w.selected_count(), 4);
}
