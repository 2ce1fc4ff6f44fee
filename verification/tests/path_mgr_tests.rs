use path_mgr::app_state::{PathApp, PathDiagnostic, PathInfo};
use path_mgr::display::{matches_search, move_path, str_contains, truncate_path, truncate_path_fails};
use path_mgr::expand::{env_var_references, expand_env_vars, expansion_panics, is_name_byte, is_same_path, EnvVars};
use path_mgr::farm::{
    collect_source_dirs, contains_str, has_executable_extension, is_executable_mode, is_stale_link,
    lex_less, scan_winget_packages, should_link_source, spawn_registry_watcher, sync_needed,
    unique_entries,
};
use path_mgr::formats::{
    backup_content, drop_empty_strs, format_registry_path, join_strs, lines_of, parse_backup,
    parse_profile_path, parse_registry_path, profile_value_of, split_str, update_profile_path,
};
use path_mgr::i18n::{
    decimal_text, get_lang, replace_all_braces, set_lang, startup_status, t, t_args, I18n, LocaleError,
};
use path_mgr::logic::{
    add_path, add_path_fails, any_same_path, dedupe_paths, dedupe_paths_fails, merge_paths,
    merge_paths_fails, remove_path, set_path, PathError, PathMatcher, PathScope, WindowsPaths,
};
use path_mgr::winget::{is_exe_extension, WingetScan};

fn strings(v: &[&str]) -> Vec<String> {
    v.iter().map(|s| s.to_string()).collect()
}

fn env(pairs: &[(&str, &str)]) -> EnvVars {
    let mut e = EnvVars::new();
    for (k, v) in pairs {
        e.insert(k.to_string(), v.to_string());
    }
    e
}

// ---------- expansion ----------

#[test]
fn expand_dollar_name() {
    let e = env(&[("HOME", "/home/u")]);
    assert_eq!(expand_env_vars("$HOME/bin", &e), "/home/u/bin");
}

#[test]
fn expand_braced_name() {
    let e = env(&[("HOME", "/home/u")]);
    assert_eq!(expand_env_vars("${HOME}/x", &e), "/home/u/x");
    assert_eq!(expand_env_vars("a${HOME}b", &e), "a/home/ub");
}

#[test]
fn expand_unset_names_stay_as_written() {
    let e = env(&[]);
    assert_eq!(expand_env_vars("$NOPE/x", &e), "$NOPE/x");
    assert_eq!(expand_env_vars("${NOPE}/x", &e), "${NOPE}/x");
}

#[test]
fn expand_unclosed_brace_stops_the_scan() {
    let e = env(&[("HOME", "/h"), ("A", "1")]);
    assert_eq!(expand_env_vars("$A/${HOME/$A/", &e), "1/${HOME/$A/");
}

#[test]
fn expand_lone_dollar_before_separator() {
    let e = env(&[("X", "1")]);
    assert_eq!(expand_env_vars("$/x$X/", &e), "$/x1/");
}

#[test]
fn expand_value_is_not_rescanned() {
    let e = env(&[("A", "$B"), ("B", "oops")]);
    assert_eq!(expand_env_vars("$A/", &e), "$B/");
}

#[test]
fn expand_first_record_wins() {
    let mut e = env(&[("A", "first")]);
    e.insert("A".to_string(), "second".to_string());
    assert_eq!(expand_env_vars("${A}", &e), "first");
}

#[test]
fn expand_underscore_and_digits_in_names() {
    let e = env(&[("MY_DIR2", "/d")]);
    assert_eq!(expand_env_vars("$MY_DIR2/bin", &e), "/d/bin");
}

#[test]
fn expand_plain_path_is_unchanged() {
    let e = env(&[("HOME", "/h")]);
    assert_eq!(expand_env_vars("/usr/local/bin", &e), "/usr/local/bin");
    assert_eq!(expand_env_vars("", &e), "");
}

#[test]
fn expansion_failures() {
    assert!(expansion_panics("$HOME"));
    assert!(expansion_panics("/a/$"));
    assert!(expansion_panics("$A_b1"));
    assert!(expansion_panics("x$é/y"));
    assert!(!expansion_panics("$HOME/bin"));
    assert!(!expansion_panics("${HOME}"));
    assert!(!expansion_panics("${HOME"));
    assert!(!expansion_panics("/plain"));
    assert!(!expansion_panics("$ê/y"));
}

#[test]
fn expand_latin1_alphanumeric_bytes_extend_names() {
    let e = env(&[("ê", "E")]);
    assert_eq!(expand_env_vars("$ê/y", &e), "E/y");
}

#[test]
fn references_in_scan_order() {
    assert_eq!(env_var_references("$A/${B}/$C_1x/$/x"), strings(&["A", "B", "C_1x"]));
    assert_eq!(env_var_references("/usr/bin"), Vec::<String>::new());
    assert_eq!(env_var_references("${}/x"), strings(&[""]));
}

#[test]
fn name_bytes_agree_with_std() {
    for b in 0u8..=255 {
        assert_eq!(is_name_byte(b), (b as char).is_alphanumeric() || b == b'_', "byte {}", b);
    }
}

#[test]
fn same_path_by_expansion() {
    let e = env(&[("HOME", "/home/u")]);
    assert!(is_same_path("$HOME/bin", "/home/u/bin", &e));
    assert!(is_same_path("${HOME}/bin", "$HOME/bin", &e));
    assert!(!is_same_path("$HOME/bin", "/home/u/sbin", &e));
}

#[test]
fn expand_unset_env_is_identity_law_example() {
    let e = EnvVars::new();
    for p in ["$A/${B}/c", "x$/y", "${open"] {
        assert_eq!(expand_env_vars(p, &e), p);
    }
}

// ---------- list operations ----------

#[test]
fn add_path_appends_new_entry() {
    let e = env(&[]);
    let mut paths = strings(&["/a", "/b"]);
    assert!(add_path(&mut paths, "/c".to_string(), &e));
    assert_eq!(paths, strings(&["/a", "/b", "/c"]));
}

#[test]
fn add_path_refuses_same_directory() {
    let e = env(&[("HOME", "/home/u")]);
    let mut paths = strings(&["/home/u/bin", "/b"]);
    assert!(!add_path(&mut paths, "$HOME/bin".to_string(), &e));
    assert_eq!(paths, strings(&["/home/u/bin", "/b"]));
}

#[test]
fn add_path_twice_adds_once() {
    let e = env(&[]);
    let mut paths = strings(&["/a"]);
    assert!(add_path(&mut paths, "/n".to_string(), &e));
    assert!(!add_path(&mut paths, "/n".to_string(), &e));
    assert_eq!(paths, strings(&["/a", "/n"]));
}

#[test]
fn add_path_failure_detection() {
    let e = env(&[]);
    assert!(add_path_fails(&strings(&["$X"]), "/a", &e));
    assert!(add_path_fails(&strings(&["/a"]), "$X", &e));
    assert!(!add_path_fails(&strings(&[]), "$X", &e));
    assert!(!add_path_fails(&strings(&["/a", "$X"]), "/a", &e));
    let mut empty: Vec<String> = Vec::new();
    assert!(add_path(&mut empty, "$X".to_string(), &e));
}

#[test]
fn remove_path_by_position() {
    let mut paths = strings(&["/a", "/b", "/c"]);
    assert_eq!(remove_path(&mut paths, 2), Ok(()));
    assert_eq!(paths, strings(&["/a", "/c"]));
}

#[test]
fn remove_path_invalid_positions() {
    let mut paths = strings(&["/a"]);
    assert_eq!(remove_path(&mut paths, 0), Err(PathError::InvalidIndex));
    assert_eq!(remove_path(&mut paths, 2), Err(PathError::InvalidIndex));
    assert_eq!(paths, strings(&["/a"]));
}

#[test]
fn set_path_returns_replaced_entry() {
    let mut paths = strings(&["/a", "/b"]);
    assert_eq!(set_path(&mut paths, 2, "/x".to_string()), Ok("/b".to_string()));
    assert_eq!(paths, strings(&["/a", "/x"]));
    assert_eq!(set_path(&mut paths, 3, "/y".to_string()), Err(PathError::InvalidIndex));
    assert_eq!(set_path(&mut paths, 0, "/y".to_string()), Err(PathError::InvalidIndex));
}

#[test]
fn set_path_undo() {
    let mut paths = strings(&["/a", "/b"]);
    let old = set_path(&mut paths, 1, "/z".to_string()).unwrap();
    set_path(&mut paths, 1, old).unwrap();
    assert_eq!(paths, strings(&["/a", "/b"]));
}

#[test]
fn remove_undoes_add() {
    let e = env(&[]);
    let mut paths = strings(&["/a", "/b"]);
    assert!(add_path(&mut paths, "/c".to_string(), &e));
    remove_path(&mut paths, 3).unwrap();
    assert_eq!(paths, strings(&["/a", "/b"]));
}

#[test]
fn dedupe_removes_internal_duplicates() {
    let e = env(&[("X", "/b")]);
    let mut paths = strings(&["/a", "/b", "/a", "$X/", "$X"]);
    // "$X" at the end would fail: keep it out
    paths.pop();
    let count = dedupe_paths(PathScope::System, &mut paths, &strings(&["/a"]), &e);
    assert_eq!(count, 1);
    assert_eq!(paths, strings(&["/a", "/b", "$X/"]));
}

#[test]
fn dedupe_user_scope_checks_system_list() {
    let e = env(&[]);
    let mut paths = strings(&["/a", "/b", "/c", "/b"]);
    let count = dedupe_paths(PathScope::User, &mut paths, &strings(&["/c"]), &e);
    assert_eq!(count, 2);
    assert_eq!(paths, strings(&["/a", "/b"]));
}

#[test]
fn dedupe_is_idempotent() {
    let e = env(&[("H", "/h")]);
    let mut paths = strings(&["/h/x", "${H}/x", "/y", "/y"]);
    let first = dedupe_paths(PathScope::User, &mut paths, &strings(&["/z"]), &e);
    assert_eq!(first, 2);
    let again = dedupe_paths(PathScope::User, &mut paths, &strings(&["/z"]), &e);
    assert_eq!(again, 0);
    assert_eq!(paths, strings(&["/h/x", "/y"]));
}

#[test]
fn dedupe_failure_detection() {
    let e = env(&[]);
    assert!(dedupe_paths_fails(PathScope::System, &strings(&["/a", "$X"]), &strings(&[]), &e));
    assert!(!dedupe_paths_fails(PathScope::System, &strings(&["$X"]), &strings(&[]), &e));
    assert!(dedupe_paths_fails(PathScope::User, &strings(&["$X"]), &strings(&["/s"]), &e));
    assert!(!dedupe_paths_fails(PathScope::System, &strings(&["$X"]), &strings(&["/s"]), &e));
}

#[test]
fn merge_appends_missing_entries() {
    let e = env(&[]);
    let mut paths = strings(&["/a"]);
    let count = merge_paths(&mut paths, &strings(&["/b", "/a", "/b", "/c"]), &e);
    assert_eq!(count, 2);
    assert_eq!(paths, strings(&["/a", "/b", "/c"]));
}

#[test]
fn merge_twice_adds_nothing() {
    let e = env(&[]);
    let mut paths = strings(&["/a"]);
    let imported = strings(&["/b", "/c"]);
    assert_eq!(merge_paths(&mut paths, &imported, &e), 2);
    assert_eq!(merge_paths(&mut paths, &imported, &e), 0);
    assert_eq!(paths, strings(&["/a", "/b", "/c"]));
}

#[test]
fn merge_failure_detection() {
    let e = env(&[]);
    assert!(!merge_paths_fails(&strings(&[]), &strings(&["$X"]), &e));
    assert!(merge_paths_fails(&strings(&[]), &strings(&["$X", "$X"]), &e));
    assert!(merge_paths_fails(&strings(&["/a"]), &strings(&["$X"]), &e));
}

#[test]
fn scan_reports_failure_and_hits() {
    let e = env(&[]);
    assert_eq!(any_same_path(&strings(&["/a", "/b"]), "/b", &e), Some(true));
    assert_eq!(any_same_path(&strings(&["/a", "/b"]), "/c", &e), Some(false));
    assert_eq!(any_same_path(&strings(&["/a", "$Z"]), "/c", &e), None);
    assert_eq!(any_same_path(&strings(&["/a", "$Z"]), "/a", &e), Some(true));
}

#[test]
fn windows_comparison_ignores_case_of_expansion() {
    let w = WindowsPaths {
        expansions: vec![("%SystemRoot%\\bin".to_string(), "C:\\Windows\\bin".to_string())],
    };
    assert!(w.same("%SystemRoot%\\bin", "c:\\windows\\BIN"));
    assert!(!w.same("%SystemRoot%\\bin", "c:\\windows\\sbin"));
    assert!(!w.check_fails("%X%"));
    let mut paths = strings(&["C:\\Tools"]);
    assert!(!add_path(&mut paths, "c:\\tools".to_string(), &w));
    assert_eq!(w.expansion("other"), "other");
}

// ---------- formats ----------

#[test]
fn split_like_std() {
    for s in ["", "a", "a;b", ";a;;b;", ";;"] {
        let expected: Vec<String> = s.split(';').map(|x| x.to_string()).collect();
        assert_eq!(split_str(s, b';'), expected);
    }
}

#[test]
fn lines_like_std() {
    for s in ["", "a", "a\n", "a\r\nb", "\n\n", "a\r", "a\r\r\nb\n", "\r\n"] {
        let expected: Vec<String> = s.lines().map(|x| x.to_string()).collect();
        assert_eq!(lines_of(s), expected, "input {:?}", s);
    }
}

#[test]
fn join_like_std() {
    for v in [vec![], vec!["a"], vec!["a", "", "b"]] {
        let owned = strings(&v);
        assert_eq!(join_strs(&owned, "::"), v.join("::"));
    }
}

#[test]
fn drop_empty_keeps_order() {
    assert_eq!(drop_empty_strs(strings(&["", "a", "", "b", ""])), strings(&["a", "b"]));
}

#[test]
fn registry_value_parse_and_format() {
    assert_eq!(parse_registry_path("C:\\a;;C:\\b;"), strings(&["C:\\a", "C:\\b"]));
    assert_eq!(format_registry_path(&strings(&["C:\\a", "C:\\b"])), "C:\\a;C:\\b");
    assert_eq!(parse_registry_path(""), Vec::<String>::new());
}

#[test]
fn registry_roundtrip() {
    let paths = strings(&["C:\\x", "%USERPROFILE%\\bin", "D:\\"]);
    assert_eq!(parse_registry_path(&format_registry_path(&paths)), paths);
}

#[test]
fn backup_parse_and_roundtrip() {
    assert_eq!(parse_backup("a\r\n\nb\n"), strings(&["a", "b"]));
    let paths = strings(&["/a", "/b c", "/d\r"]);
    assert_eq!(backup_content(&paths), "/a\n/b c\n/d\r");
    assert_eq!(parse_backup(&backup_content(&paths)), paths);
}

#[test]
fn profile_parse_first_path_line() {
    let content = "export X=1\nPATH=\"/usr/bin:/bin\"\nPATH=\"/other\"\n";
    assert_eq!(parse_profile_path(content), strings(&["/usr/bin", "/bin"]));
    assert_eq!(parse_profile_path("PATH=PATH=/a::/b"), strings(&["/a", "/b"]));
    assert_eq!(parse_profile_path("X=1\n"), Vec::<String>::new());
    assert_eq!(parse_profile_path(" PATH=/a"), Vec::<String>::new());
    assert_eq!(profile_value_of("PATH=\"\"x\"\""), "x");
}

#[test]
fn profile_update_replaces_or_appends() {
    let paths = strings(&["/a", "/b"]);
    assert_eq!(
        update_profile_path("X=1\r\nPATH=\"/old\"\nY=2", &paths),
        "X=1\nPATH=\"/a:/b\"\nY=2\n"
    );
    assert_eq!(update_profile_path("", &paths), "PATH=\"/a:/b\"\n");
    assert_eq!(update_profile_path("X=1\n", &strings(&[])), "X=1\nPATH=\"\"\n");
}

#[test]
fn profile_roundtrip() {
    let paths = strings(&["/usr/local/bin", "$HOME/bin", "/opt/x y"]);
    for content in ["", "X=1\nPATH=\"/old\"\n\n", "a\r\r\nPATH=\nb"] {
        assert_eq!(parse_profile_path(&update_profile_path(content, &paths)), paths);
    }
    assert_eq!(parse_profile_path(&update_profile_path("Z=1", &strings(&[]))), Vec::<String>::new());
}

#[test]
fn roundtrips_drop_empty_entries() {
    let paths = strings(&["C:\\a", "", "C:\\b", ""]);
    assert_eq!(format_registry_path(&paths), "C:\\a;;C:\\b;");
    assert_eq!(parse_registry_path(&format_registry_path(&paths)), strings(&["C:\\a", "C:\\b"]));
    let lines = strings(&["", "/a", "", "/b\r"]);
    assert_eq!(parse_backup(&backup_content(&lines)), strings(&["/a", "/b\r"]));
    let dirs = strings(&["", "/usr/bin", "", "/bin", ""]);
    assert_eq!(parse_profile_path(&update_profile_path("X=1\n", &dirs)), strings(&["/usr/bin", "/bin"]));
    assert_eq!(parse_profile_path(&update_profile_path("", &strings(&[""]))), Vec::<String>::new());
}

// ---------- symlink farm ----------

#[test]
fn source_dirs_sorted_and_unique() {
    let parents = strings(&["/b", "/a", "/b", "/bin", "/a/z"]);
    assert_eq!(collect_source_dirs(&parents, Some("/bin")), strings(&["/a", "/a/z", "/b"]));
    assert_eq!(collect_source_dirs(&parents, None), strings(&["/a", "/a/z", "/b", "/bin"]));
}

#[test]
fn source_dirs_ignore_listing_order() {
    let a = collect_source_dirs(&strings(&["/z", "/a", "/m", "/a"]), Some("/bin"));
    let b = collect_source_dirs(&strings(&["/m", "/a", "/z"]), Some("/bin"));
    assert_eq!(a, b);
    assert_eq!(a, strings(&["/a", "/m", "/z"]));
}

#[test]
fn farm_read_back_after_write() {
    // the farm was written for these directories (one repeated); each
    // symlink's target lies in one of them
    let written = strings(&["/opt/z/bin", "/usr/games", "/opt/a", "/usr/games"]);
    let parents = strings(&["/usr/games", "/opt/a", "/opt/z/bin", "/opt/a", "/usr/games"]);
    let mut expected = written.clone();
    expected.sort();
    expected.dedup();
    assert_eq!(collect_source_dirs(&parents, Some("/home/u/.local/bin")), expected);
    assert_eq!(expected, strings(&["/opt/a", "/opt/z/bin", "/usr/games"]));
}

#[test]
fn farm_in_sync_after_write() {
    let executables = strings(&["/opt/a/tool", "/usr/games/fortune", "/opt/a/run"]);
    let targets = strings(&["/usr/games/fortune", "/opt/a/run", "/opt/a/tool", "/gone/old"]);
    assert!(!sync_needed(&targets, &executables));
    assert!(sync_needed(&targets[..2].to_vec(), &executables));
}

#[test]
fn lex_order_matches_string_order() {
    let words = ["", "a", "ab", "b", "B", "é", "e", "a/b", "a-b"];
    for x in words {
        for y in words {
            assert_eq!(lex_less(x, y), x < y, "{:?} < {:?}", x, y);
        }
    }
}

#[test]
fn executable_modes() {
    assert!(is_executable_mode(0o755));
    assert!(is_executable_mode(0o100));
    assert!(is_executable_mode(0o001));
    assert!(!is_executable_mode(0o644));
}

#[test]
fn stale_links_and_unique_entries() {
    let desired = strings(&["/a", "/b"]);
    assert!(!is_stale_link("/a", &desired));
    assert!(is_stale_link("/c", &desired));
    assert!(contains_str(&desired, "/b"));
    assert_eq!(unique_entries(&strings(&["/b", "/a", "/b"])), strings(&["/b", "/a"]));
}

#[test]
fn link_source_compares_path_components() {
    assert!(!should_link_source("/home/u/.local/bin/", "/home/u/.local/bin"));
    assert!(!should_link_source("/x//y", "/x/y"));
    assert!(should_link_source("/x/y", "/x/z"));
}

#[test]
fn sync_needed_when_an_executable_is_unlinked() {
    let targets = strings(&["/src/a", "/src/b"]);
    assert!(!sync_needed(&targets, &strings(&["/src/a", "/src//b"])));
    assert!(sync_needed(&targets, &strings(&["/src/a", "/src/c"])));
    assert!(!sync_needed(&targets, &strings(&[])));
}

#[test]
fn windows_executable_extensions() {
    for ext in ["exe", "EXE", "Com", "bat", "CMD", "ps1", "PS1", "vbs", "msc", "js"] {
        assert!(has_executable_extension(ext), "{}", ext);
    }
    for ext in ["txt", "ex", "exee", "", "dll"] {
        assert!(!has_executable_extension(ext), "{}", ext);
    }
}

#[test]
fn unix_has_no_winget_packages() {
    assert!(scan_winget_packages().is_empty());
    spawn_registry_watcher(|| panic!("never called"));
}

#[test]
fn winget_scan_reports_exe_dirs_and_descends_otherwise() {
    assert!(is_exe_extension("EXE"));
    assert!(is_exe_extension("eXe"));
    assert!(!is_exe_extension("exes"));
    let mut scan: WingetScan<u32> = WingetScan::new(0);
    assert_eq!(scan.next_dir(), Some(0));
    scan.visit(Some("root".to_string()), &strings(&["txt"]), vec![1, 2]);
    assert_eq!(scan.next_dir(), Some(2));
    scan.visit(Some("two".to_string()), &strings(&["dll", "Exe"]), vec![3]);
    assert_eq!(scan.next_dir(), Some(1));
    scan.visit(None, &strings(&["exe"]), vec![]);
    assert_eq!(scan.next_dir(), None);
    assert_eq!(scan.found, strings(&["two"]));
}

// ---------- translation ----------

const EN: &str = "ready = \"Ready\"\ncli_deleted_at = \"Deleted entry {}\"\ntwice = \"{} and {}\"\n";
const VI: &str = "ready = \"Sẵn sàng\"\n";

#[test]
fn translation_lookup_and_fallback() {
    let i = I18n::load(EN, VI).unwrap();
    assert_eq!(get_lang(&i), "en");
    assert_eq!(t(&i, "ready"), "Ready");
    assert_eq!(t(&i, "missing_key"), "missing_key");
}

#[test]
fn translation_switches_language() {
    let mut i = I18n::load(EN, VI).unwrap();
    set_lang(&mut i, "vi");
    assert_eq!(get_lang(&i), "vi");
    assert_eq!(t(&i, "ready"), "Sẵn sàng");
    assert_eq!(t(&i, "cli_deleted_at"), "cli_deleted_at");
    set_lang(&mut i, "en");
    assert_eq!(t(&i, "ready"), "Ready");
}

#[test]
fn translation_with_argument() {
    let i = I18n::load(EN, VI).unwrap();
    assert_eq!(t_args(&i, "cli_deleted_at", "3"), "Deleted entry 3");
    assert_eq!(t_args(&i, "twice", "x"), "x and x");
    assert_eq!(t_args(&i, "ready", "x"), "Ready");
    assert_eq!(replace_all_braces("{}{}}{", "ab"), "abab}{");
    assert_eq!(replace_all_braces("{{}}", "-"), "{-}");
}

#[test]
fn translation_table_errors() {
    assert_eq!(I18n::load("not toml", VI).err(), Some(LocaleError::InvalidEnglish));
    assert_eq!(I18n::load(EN, "x = 1").err(), Some(LocaleError::InvalidVietnamese));
    assert!(I18n::load("", "").is_ok());
}

#[test]
fn translation_new_starts_in_english() {
    let i = I18n::new(vec![("k".to_string(), "v".to_string())], vec![]);
    assert_eq!(get_lang(&i), "en");
    assert_eq!(t(&i, "k"), "v");
}

#[test]
fn decimal_notation() {
    assert_eq!(decimal_text(0), "0");
    assert_eq!(decimal_text(7), "7");
    assert_eq!(decimal_text(10), "10");
    assert_eq!(decimal_text(305), "305");
    assert_eq!(decimal_text(usize::MAX), usize::MAX.to_string());
}

fn startup_tables() -> I18n {
    I18n::new(
        vec![
            ("auto_added_winget".to_string(), "Added {} WinGet directories".to_string()),
            ("ready".to_string(), "Ready".to_string()),
        ],
        vec![],
    )
}

#[test]
fn startup_status_after_winget_merge() {
    let i = startup_tables();
    assert_eq!(startup_status(&i, Some(3)), "Added 3 WinGet directories");
    assert_eq!(startup_status(&i, Some(12)), "Added 12 WinGet directories");
    assert_eq!(startup_status(&i, Some(0)), "Ready");
    assert_eq!(startup_status(&i, None), "Ready");
}

#[test]
fn window_opens_with_startup_status() {
    let i = startup_tables();
    let app = PathApp::new(&i, Some(2));
    assert_eq!(app.status_msg, "Added 2 WinGet directories");
    assert!(app.user_paths.is_empty() && app.system_paths.is_empty());
    assert!(app.editing_index.is_none() && !app.needs_sync);
    assert_eq!(PathApp::new(&i, Some(0)).status_msg, "Ready");
}

// ---------- display ----------

#[test]
fn truncate_short_path_is_kept() {
    assert_eq!(truncate_path("/usr/bin", 20, '/'), "/usr/bin");
}

#[test]
fn truncate_keeps_first_and_last_components() {
    let p = "/home/user/projects/very/long/path/bin";
    assert_eq!(truncate_path(p, 20, '/'), "/....../bin");
    assert_eq!(truncate_path(p, 10, '/'), "/...../bin");
    assert_eq!(truncate_path(p, 8, '/'), "/bin");
    assert_eq!(truncate_path("abc/defghijklmnop/xyz", 12, '/'), "abc/..../xyz");
}

#[test]
fn truncate_without_separator_cuts() {
    assert_eq!(truncate_path("abcdefghij", 5, '/'), "ab...");
    assert!(truncate_path_fails("ééé", 4, '/'));
    assert!(truncate_path_fails("abcdef", 2, '/'));
    assert!(!truncate_path_fails("abcdef", 5, '/'));
    assert!(!truncate_path_fails("a/bcdef", 2, '/'));
}

#[test]
fn search_filter() {
    assert!(matches_search("/Usr/Bin", "bin"));
    assert!(matches_search("/anything", ""));
    assert!(!matches_search("/usr/bin", "xyz"));
    assert!(str_contains("abc", ""));
    assert!(!str_contains("ab", "abc"));
}

#[test]
fn move_entry() {
    let mut paths = strings(&["a", "b", "c", "d"]);
    move_path(&mut paths, 0, 2);
    assert_eq!(paths, strings(&["b", "c", "a", "d"]));
    move_path(&mut paths, 3, 0);
    assert_eq!(paths, strings(&["d", "b", "c", "a"]));
}

#[test]
fn move_back_restores() {
    let original = strings(&["a", "b", "c", "d"]);
    let mut paths = original.clone();
    move_path(&mut paths, 1, 3);
    move_path(&mut paths, 3, 1);
    assert_eq!(paths, original);
}

#[test]
fn unique_entries_first_occurrence_order() {
    assert_eq!(unique_entries(&strings(&["c", "a", "c", "b", "a"])), strings(&["c", "a", "b"]));
}

// ---------- window state ----------

#[test]
fn diagnostics() {
    assert_eq!(PathApp::run_diagnostic(false, false, false), PathDiagnostic { exists: false, has_executables: true });
    assert_eq!(PathApp::run_diagnostic(true, false, false), PathDiagnostic { exists: true, has_executables: true });
    assert_eq!(PathApp::run_diagnostic(true, true, false), PathDiagnostic { exists: true, has_executables: false });
    assert_eq!(PathApp::run_diagnostic(true, true, true), PathDiagnostic { exists: true, has_executables: true });
}

#[test]
fn window_state_refresh() {
    let i = I18n::new(vec![("ready".to_string(), "Ready".to_string())], vec![]);
    let mut app = PathApp::new(&i, None);
    assert_eq!(app.status_msg, "Ready");
    assert!(app.user_paths.is_empty());
    let d = PathDiagnostic { exists: true, has_executables: true };
    app.refresh_all(
        vec![PathInfo { path: "/a".to_string(), diagnostic: d }, PathInfo { path: "/b".to_string(), diagnostic: d }],
        vec![],
        true,
    );
    assert!(app.needs_sync);
    assert_eq!(app.user_path_list(), strings(&["/a", "/b"]));
}
