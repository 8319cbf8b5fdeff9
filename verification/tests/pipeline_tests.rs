use std::io::Write;

use sector_updater::archive::{plan_extraction, read_archive_entries, sector_file_name};
use sector_updater::fstree::{apply_actions, get_file, install_navdata, merge_into, FsNode, FsTree};
use sector_updater::links::resolve_sector_link;
use sector_updater::patch::{clear_sessions_text, is_profile_file_name, patch_profile_text};
use sector_updater::pipeline::{first_stage, next_stage, Stage};

fn strings(v: &[&str]) -> Vec<String> {
    v.iter().map(|s| s.to_string()).collect()
}

#[test]
fn stages_run_in_the_fixed_order() {
    let mut s = first_stage();
    let mut seen = vec![s];
    while s != Stage::Done {
        s = next_stage(s, true).unwrap();
        seen.push(s);
    }
    assert_eq!(
        seen,
        vec![
            Stage::ResolveLink,
            Stage::Download,
            Stage::Extract,
            Stage::InstallAll,
            Stage::InstallNavData,
            Stage::PatchProfiles,
            Stage::ClearSessions,
            Stage::Done,
        ]
    );
}

#[test]
fn a_failed_stage_ends_the_region_run() {
    assert_eq!(next_stage(Stage::Extract, false), None);
    assert_eq!(next_stage(Stage::ResolveLink, false), None);
}

#[test]
fn full_pipeline_over_fixture_inputs() {
    // A fixture index page whose newest matching listing entry comes last.
    let html = "<table>\
        <tr><td><a href=\"http://host/pkg_20230101.zip\">old</a></td></tr>\
        <tr><td><a href=\"http://host/pkg_20240101.zip\">new</a></td></tr>\
        </table>";
    let link = resolve_sector_link(html, "pkg").unwrap();
    assert_eq!(link, "http://host/pkg_20240101.zip");

    // A fixture archive: one top-level sector file and a nested navdata
    // folder (the fetch itself is outside the library).
    let cursor = std::io::Cursor::new(Vec::new());
    let mut writer = zip::ZipWriter::new(cursor);
    let options =
        zip::write::FileOptions::default().compression_method(zip::CompressionMethod::Stored);
    writer.start_file("Region_2024.sct", options).unwrap();
    writer.write_all(b"sector geometry").unwrap();
    writer.add_directory("navdata/", options).unwrap();
    writer.start_file("navdata/wpt.txt", options).unwrap();
    writer.write_all(b"waypoints").unwrap();
    let bytes = writer.finish().unwrap().into_inner();

    // Extract into a fresh scratch tree.
    let entries = read_archive_entries(&bytes).unwrap();
    let plan = plan_extraction(&entries);
    let mut scratch = FsTree::new();
    apply_actions(&mut scratch, &plan);

    // An installation with a profile file, a session file and nothing else.
    let mut install = FsTree::new();
    install.put_file(
        strings(&["EDGG_main.prf"]),
        b"Settings\tsector\told.sct\n".to_vec(),
    );
    install.put_file(
        strings(&["sessions", "layout.asr"]),
        b"SECTORFILE:old.sct\nSECTORTITLE:Old\n".to_vec(),
    );

    // Installer: generic merge, then the navdata pass.
    merge_into(&mut install, &scratch);
    install_navdata(&mut install, &scratch, &strings(&["navdata"]));

    // The package must hold exactly one top-level sector file.
    let mut top_level: Vec<String> = Vec::new();
    for e in &scratch.entries {
        if e.path.len() == 1 {
            if let FsNode::File { .. } = e.node {
                top_level.push(e.path[0].clone());
            }
        }
    }
    let sector = sector_file_name(&top_level).unwrap();
    assert_eq!(sector, "Region_2024.sct");

    // ProfilePatcher over every matching profile at the top level.
    let prf_path = strings(&["EDGG_main.prf"]);
    assert!(is_profile_file_name("EDGG_main.prf", "EDGG"));
    let prf_text =
        String::from_utf8(get_file(&install, &prf_path).unwrap().clone()).unwrap();
    let patched = patch_profile_text(&prf_text, &sector);
    install.put_file(prf_path.clone(), patched.into_bytes());

    // SessionPatcher over the configured sub-path.
    let asr_path = strings(&["sessions", "layout.asr"]);
    let asr_text =
        String::from_utf8(get_file(&install, &asr_path).unwrap().clone()).unwrap();
    let cleared = clear_sessions_text(&asr_text);
    install.put_file(asr_path.clone(), cleared.into_bytes());

    // The archive's files are at the installation root.
    assert_eq!(
        get_file(&install, &strings(&["Region_2024.sct"])),
        Some(&b"sector geometry".to_vec())
    );
    assert_eq!(
        get_file(&install, &strings(&["navdata", "wpt.txt"])),
        Some(&b"waypoints".to_vec())
    );
    // The navdata subtree is also under the fixed NavData folder.
    assert_eq!(
        get_file(&install, &strings(&["NavData", "wpt.txt"])),
        Some(&b"waypoints".to_vec())
    );
    // The profile points at the new sector file, the session binding is gone.
    assert_eq!(
        get_file(&install, &prf_path),
        Some(&b"Settings\tsector\t\\Region_2024.sct\n".to_vec())
    );
    assert_eq!(
        get_file(&install, &asr_path),
        Some(&b"SECTORFILE:\nSECTORTITLE:\n".to_vec())
    );
}
