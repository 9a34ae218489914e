use clippy_lib::replay::games::{
    canonicalize_or_collapse, collapse_dots, is_exe_name, lines_of, manual_entries, normalize, steam_library_roots,
    normalize_resolved, strip_unc_prefix, track_recent_add, untrack_recent_add, GameAllowlist,
};

#[test]
fn new_allowlist_is_empty() {
    let g = GameAllowlist::new();
    assert_eq!(g.len(), 0);
    assert!(g.entries().is_empty());
}

#[test]
fn add_then_contains_matches_exact_path() {
    let mut g = GameAllowlist::new();
    let p = r"C:\Games\test\game.exe";
    g.add(p);
    assert!(g.contains(p));
    assert_eq!(g.len(), 1);
}

#[test]
fn contains_is_case_insensitive() {
    let mut g = GameAllowlist::new();
    g.add(r"C:\Games\Foo\GAME.exe");
    assert!(g.contains(r"c:\games\foo\game.exe"));
    assert!(g.contains(r"C:\GAMES\FOO\GAME.EXE"));
}

#[test]
fn contains_normalizes_forward_slashes_to_back() {
    let mut g = GameAllowlist::new();
    g.add("C:/Games/foo/bar.exe");
    assert!(g.contains(r"C:\Games\foo\bar.exe"));
}

#[test]
fn duplicate_add_does_not_inflate_len() {
    let mut g = GameAllowlist::new();
    g.add(r"C:\Games\a.exe");
    g.add(r"c:\GAMES\A.EXE");
    assert_eq!(g.len(), 1);
}

#[test]
fn remove_reports_whether_entry_existed() {
    let mut g = GameAllowlist::new();
    g.add(r"C:\Games\a.exe");
    assert!(g.remove(r"C:\Games\a.exe"));
    assert!(!g.remove(r"C:\Games\a.exe"));
    assert_eq!(g.len(), 0);
}

#[test]
fn extend_inserts_each_path_deduplicated() {
    let mut g = GameAllowlist::new();
    g.extend(vec![
        r"C:\a\one.exe".to_string(),
        r"C:\A\ONE.EXE".to_string(),
        r"C:\b\two.exe".to_string(),
    ]);
    assert_eq!(g.len(), 2);
}

#[test]
fn entries_are_sorted() {
    let mut g = GameAllowlist::new();
    g.add(r"C:\b\two.exe");
    g.add(r"C:\a\one.exe");
    let e = g.entries();
    assert_eq!(e.len(), 2);
    assert!(e[0] < e[1]);
}

#[test]
fn normalize_is_idempotent() {
    let p = r"C:\Games\Test\Game.EXE";
    assert_eq!(normalize(p), normalize(&normalize(p)));
}

#[test]
fn normalize_collapses_dotdot_segments_for_nonexistent_paths() {
    let a = normalize(r"C:\Games\foo\..\bar.exe");
    let b = normalize(r"C:\Games\bar.exe");
    assert_eq!(a, b);
}

#[test]
fn normalize_collapses_curdir_segments() {
    let a = normalize(r"C:\Games\.\bar.exe");
    let b = normalize(r"C:\Games\bar.exe");
    assert_eq!(a, b);
}

#[test]
fn allowlist_contains_after_traversal_normalization() {
    let mut g = GameAllowlist::new();
    g.add(r"C:\Games\foo\..\bar.exe");
    assert!(g.contains(r"C:\Games\bar.exe"));
    assert_eq!(g.len(), 1);
}

// ---- further cases of the key and the allowlist ----

#[test]
fn normalize_gives_the_exact_key() {
    assert_eq!(normalize("C:/Games/Foo/../Bar/./Game.EXE"), r"c:\games\bar\game.exe");
}

#[test]
fn collapse_keeps_parent_dirs_that_cannot_pop() {
    assert_eq!(collapse_dots(r"..\a\..\..\b"), r"..\..\b");
    assert_eq!(collapse_dots(r"C:\..\x"), r"C:\..\x");
    assert_eq!(collapse_dots(r"C:\a\b\"), r"C:\a\b");
    assert_eq!(collapse_dots("C:"), "C:");
    assert_eq!(collapse_dots(""), "");
    assert_eq!(collapse_dots(r"a\\b"), r"a\b");
}

#[test]
fn strip_unc_prefix_only_removes_the_verbatim_prefix() {
    assert_eq!(strip_unc_prefix(r"\\?\C:\Games\x.exe"), r"C:\Games\x.exe");
    assert_eq!(strip_unc_prefix(r"C:\Games\x.exe"), r"C:\Games\x.exe");
    assert_eq!(strip_unc_prefix(r"\\server\share"), r"\\server\share");
}

#[test]
fn canonical_form_wins_when_present() {
    assert_eq!(canonicalize_or_collapse(r"C:\a\..\b.exe", Some(r"\\?\D:\real\b.exe")), r"D:\real\b.exe");
    assert_eq!(canonicalize_or_collapse(r"C:\a\..\b.exe", None), r"C:\b.exe");
}

#[test]
fn entries_hold_keys_in_order_and_law_of_add_then_contains() {
    let mut g = GameAllowlist::new();
    g.add(r"C:\z.exe");
    g.add(r"C:\m.exe");
    g.add(r"C:\a.exe");
    assert_eq!(g.entries(), vec![r"c:\a.exe", r"c:\m.exe", r"c:\z.exe"]);
    assert!(g.contains(r"c:\M.EXE"));
    assert!(!g.contains(r"c:\n.exe"));
    assert!(!g.is_empty());
}

fn strings(v: &[&str]) -> Vec<String> {
    v.iter().map(|s| s.to_string()).collect()
}

#[test]
fn recents_put_newest_first_without_duplicates() {
    let r = track_recent_add(&strings(&["C:\\a.exe", "C:\\B.exe"]), "c:\\b.EXE");
    assert_eq!(r, strings(&["c:\\b.EXE", "C:\\a.exe"]));
    let full = strings(&["1", "2", "3", "4", "5"]);
    assert_eq!(track_recent_add(&full, "6"), strings(&["6", "1", "2", "3", "4"]));
    assert_eq!(track_recent_add(&Vec::new(), "x"), strings(&["x"]));
}

#[test]
fn recents_removal_reports_change() {
    let (r, changed) = untrack_recent_add(&strings(&["A", "b", "a"]), "a");
    assert_eq!(r, strings(&["b"]));
    assert!(changed);
    let (r, changed) = untrack_recent_add(&strings(&["b"]), "z");
    assert_eq!(r, strings(&["b"]));
    assert!(!changed);
}

#[test]
fn manual_entries_skip_scanned_launcher_paths() {
    let entries = strings(&["c:\\games\\steam\\x.exe", "d:\\mine\\y.exe"]);
    let scanned = strings(&["C:/Games/Steam/X.exe"]);
    assert_eq!(manual_entries(&entries, &scanned), strings(&["d:\\mine\\y.exe"]));
    assert_eq!(manual_entries(&entries, &Vec::new()), entries);
}

#[test]
fn steam_roots_from_library_folders() {
    let vdf = "\"libraryfolders\"\r\n{\r\n\t\"0\"\r\n\t{\r\n\t\t\"path\"\t\t\"C:\\\\Program Files (x86)\\\\Steam\"\r\n\t}\r\n\t\"1\"\r\n\t{\r\n\t\t\"path\"\t\t\"D:\\\\SteamLibrary\"\r\n\t}\r\n}\r\n";
    let roots = steam_library_roots("C:\\Program Files (x86)\\Steam", vdf);
    assert_eq!(roots, strings(&["C:\\Program Files (x86)\\Steam", "D:\\SteamLibrary"]));
    assert_eq!(steam_library_roots("S", ""), strings(&["S"]));
    assert_eq!(steam_library_roots("S", "\"path\" \"unterminated"), strings(&["S"]));
}

#[test]
fn exe_names_by_extension() {
    assert!(is_exe_name("game.exe"));
    assert!(is_exe_name("GAME.EXE"));
    assert!(!is_exe_name(".exe"));
    assert!(is_exe_name("a.exe"));
    assert!(!is_exe_name("game.exe.bak"));
    assert!(!is_exe_name("gameexe"));
}

#[test]
fn collapsing_absolute_paths_twice_changes_nothing() {
    for p in [
        "C:\\Games\\foo\\..\\bar.exe",
        "C:/a/./b/../../c/d.exe",
        "\\..\\..\\x\\y",
        "D:..\\up\\.\\file",
        "C:\\",
        "/",
    ] {
        let once = collapse_dots(p);
        assert_eq!(collapse_dots(&once), once, "{p}");
    }
}

#[test]
fn lines_split_like_str_lines() {
    for text in ["a\nb\r\nc", "a\n", "", "\n\n", "x\r\n\r\ny\r"] {
        let expected: Vec<String> = text.lines().map(|l| l.to_string()).collect();
        assert_eq!(lines_of(text), expected, "{text:?}");
    }
}

#[test]
fn allowlist_count_follows_adds_and_removes() {
    let mut g = GameAllowlist::new();
    g.add(r"C:\Games\A\a.exe");
    g.add(r"C:\Games\B\b.exe");
    assert_eq!(g.len(), 2);
    g.add(r"c:/games/a/A.EXE");
    assert_eq!(g.len(), 2);
    assert!(g.remove(r"C:\Games\B\b.exe"));
    assert_eq!(g.len(), 1);
    assert!(!g.remove(r"C:\Games\B\b.exe"));
    assert_eq!(g.len(), 1);
    assert_eq!(g.entries().len(), 1);
}

#[test]
fn resolved_key_prefers_the_canonical_form() {
    assert_eq!(
        normalize_resolved(r"C:\Link\Game.exe", Some(r"\\?\D:\Real\Game.EXE")),
        r"d:\real\game.exe"
    );
    assert_eq!(normalize_resolved(r"C:\Games\..\Other\Game.EXE", None), normalize(r"C:\Other\Game.exe"));
    let mut g = GameAllowlist::new();
    g.add_resolved(r"C:\Link\Game.exe", Some(r"\\?\D:\Real\Game.exe"));
    assert!(g.contains(r"D:\Real\Game.exe"));
    assert!(g.contains_resolved(r"E:\Other\Path.exe", Some(r"D:\real\game.exe")));
    assert!(!g.contains(r"C:\Link\Game.exe"));
    assert!(g.remove_resolved(r"C:\Link\Game.exe", Some(r"\\?\D:\Real\Game.exe")));
    assert_eq!(g.len(), 0);
}
