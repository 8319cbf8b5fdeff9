use sector_updater::patch::{
    clear_sessions_text, is_profile_file_name, is_session_file_name, patch_profile_text,
};

#[test]
fn profile_sector_line_is_rewritten() {
    let out = patch_profile_text("Settings\tsector\told.sct\n", "new.sct");
    assert_eq!(out, "Settings\tsector\t\\new.sct\n");
}

#[test]
fn profile_other_lines_are_kept() {
    let text = "Settings\tlast\tother\nSettings\tsector\told.sct\nWindow\tmax\t1\n";
    let out = patch_profile_text(text, "new.sct");
    assert_eq!(out, "Settings\tlast\tother\nSettings\tsector\t\\new.sct\nWindow\tmax\t1\n");
}

#[test]
fn profile_without_matching_line_is_unchanged() {
    let text = "Settings\tlast\tother\nWindow\tmax\t1\n";
    assert_eq!(patch_profile_text(text, "new.sct"), text);
}

#[test]
fn profile_patch_twice_equals_once() {
    let text = "a\nSettings\tsector\told.sct\nb\n";
    let once = patch_profile_text(text, "new.sct");
    let twice = patch_profile_text(&once, "new.sct");
    assert_eq!(twice, once);
}

#[test]
fn profile_line_without_newline_is_kept() {
    // Only newline-terminated lines are candidates; a trailing fragment
    // without its terminator is kept as it is.
    let text = "Settings\tsector\told.sct";
    assert_eq!(patch_profile_text(text, "new.sct"), text);
}

#[test]
fn session_binding_pair_is_cleared() {
    let out = clear_sessions_text("SECTORFILE:foo.sct\nSECTORTITLE:Foo\n");
    assert_eq!(out, "SECTORFILE:\nSECTORTITLE:\n");
}

#[test]
fn session_pair_inside_other_lines_is_cleared() {
    let text = "WINDOW:1\nSECTORFILE:foo.sct\nSECTORTITLE:Foo\nZOOM:9\n";
    let out = clear_sessions_text(text);
    assert_eq!(out, "WINDOW:1\nSECTORFILE:\nSECTORTITLE:\nZOOM:9\n");
}

#[test]
fn session_without_pair_is_unchanged() {
    let text = "WINDOW:1\nZOOM:9\n";
    assert_eq!(clear_sessions_text(text), text);
}

#[test]
fn session_file_line_without_title_is_kept() {
    let text = "SECTORFILE:foo.sct\nZOOM:9\n";
    assert_eq!(clear_sessions_text(text), text);
}

#[test]
fn session_clearing_twice_equals_once() {
    let text = "SECTORFILE:foo.sct\nSECTORTITLE:Foo\nSECTORFILE:bar.sct\nSECTORTITLE:Bar\n";
    let once = clear_sessions_text(text);
    let twice = clear_sessions_text(&once);
    assert_eq!(once, "SECTORFILE:\nSECTORTITLE:\nSECTORFILE:\nSECTORTITLE:\n");
    assert_eq!(twice, once);
}

#[test]
fn profile_file_names_need_prefix_and_extension() {
    assert!(is_profile_file_name("EDGG_main.prf", "EDGG"));
    assert!(!is_profile_file_name("LOVV_main.prf", "EDGG"));
    assert!(!is_profile_file_name("EDGG_main.prf.bak", "EDGG"));
}

#[test]
fn session_file_names_need_extension() {
    assert!(is_session_file_name("layout.asr"));
    assert!(!is_session_file_name("layout.asr.old"));
    assert!(!is_session_file_name("layout.txt"));
}
