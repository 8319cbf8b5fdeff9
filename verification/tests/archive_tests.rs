use std::io::Write;

use sector_updater::archive::{
    plan_extraction, read_archive_entries, sector_file_name, ExtractAction,
};
use sector_updater::errors::UpdateError;
use sector_updater::paths::sanitize_entry_name;

fn strings(v: &[&str]) -> Vec<String> {
    v.iter().map(|s| s.to_string()).collect()
}

fn fixture_zip(entries: &[(&str, Option<&[u8]>)]) -> Vec<u8> {
    let cursor = std::io::Cursor::new(Vec::new());
    let mut writer = zip::ZipWriter::new(cursor);
    let options =
        zip::write::FileOptions::default().compression_method(zip::CompressionMethod::Stored);
    for (name, data) in entries {
        match data {
            None => writer.add_directory(*name, options).unwrap(),
            Some(bytes) => {
                writer.start_file(*name, options).unwrap();
                writer.write_all(bytes).unwrap();
            },
        }
    }
    writer.finish().unwrap().into_inner()
}

#[test]
fn sanitize_splits_and_drops_idle_components() {
    assert_eq!(sanitize_entry_name("a/b.txt"), Some(strings(&["a", "b.txt"])));
    assert_eq!(sanitize_entry_name("a//b"), Some(strings(&["a", "b"])));
    assert_eq!(sanitize_entry_name("a/./b"), Some(strings(&["a", "b"])));
    assert_eq!(sanitize_entry_name("dir/"), Some(strings(&["dir"])));
    assert_eq!(sanitize_entry_name("back\\slash.txt"), Some(strings(&["back", "slash.txt"])));
}

#[test]
fn sanitize_rejects_escaping_names() {
    assert_eq!(sanitize_entry_name("../evil"), None);
    assert_eq!(sanitize_entry_name("a/../evil"), None);
    assert_eq!(sanitize_entry_name("..\\evil"), None);
    assert_eq!(sanitize_entry_name("/abs.txt"), None);
    assert_eq!(sanitize_entry_name("\\abs.txt"), None);
    assert_eq!(sanitize_entry_name("C:\\evil.txt"), None);
    assert_eq!(sanitize_entry_name(""), None);
    assert_eq!(sanitize_entry_name("./"), None);
}

#[test]
fn archive_entries_come_back_in_order() {
    let bytes = fixture_zip(&[
        ("dir/", None),
        ("dir/nested.txt", Some(b"nested contents")),
        ("top.sct", Some(b"sector data")),
    ]);
    let entries = read_archive_entries(&bytes).unwrap();
    assert_eq!(entries.len(), 3);
    assert_eq!(entries[0].name, "dir/");
    assert_eq!(entries[0].data, b"");
    assert_eq!(entries[1].name, "dir/nested.txt");
    assert_eq!(entries[1].data, b"nested contents");
    assert_eq!(entries[2].name, "top.sct");
    assert_eq!(entries[2].data, b"sector data");
}

#[test]
fn unreadable_bytes_are_an_extract_error() {
    let bytes: Vec<u8> = b"this is not a zip archive".to_vec();
    assert!(matches!(read_archive_entries(&bytes), Err(UpdateError::ExtractError)));
}

// A well-formed container whose one entry carries an AES extra field while
// its encryption flag is clear. The central directory decodes, so the
// container opens; reading the entry must end in an error, never a panic.
fn aes_marked_zip() -> Vec<u8> {
    let mut local: Vec<u8> = Vec::new();
    local.extend_from_slice(&[0x50, 0x4b, 0x03, 0x04]); // local header signature
    local.extend_from_slice(&20u16.to_le_bytes()); // version needed
    local.extend_from_slice(&0u16.to_le_bytes()); // flags: not encrypted
    local.extend_from_slice(&0u16.to_le_bytes()); // method: stored
    local.extend_from_slice(&0u16.to_le_bytes()); // mod time
    local.extend_from_slice(&0u16.to_le_bytes()); // mod date
    local.extend_from_slice(&0u32.to_le_bytes()); // crc
    local.extend_from_slice(&0u32.to_le_bytes()); // compressed size
    local.extend_from_slice(&0u32.to_le_bytes()); // uncompressed size
    local.extend_from_slice(&1u16.to_le_bytes()); // name length
    local.extend_from_slice(&0u16.to_le_bytes()); // extra length
    local.extend_from_slice(b"a");

    let mut extra: Vec<u8> = Vec::new();
    extra.extend_from_slice(&0x9901u16.to_le_bytes()); // AES extra field
    extra.extend_from_slice(&7u16.to_le_bytes()); // field length
    extra.extend_from_slice(&2u16.to_le_bytes()); // vendor version AE-2
    extra.extend_from_slice(&0x4541u16.to_le_bytes()); // vendor id "AE"
    extra.push(1); // AES-128
    extra.extend_from_slice(&0u16.to_le_bytes()); // real method: stored

    let mut central: Vec<u8> = Vec::new();
    central.extend_from_slice(&[0x50, 0x4b, 0x01, 0x02]); // central signature
    central.extend_from_slice(&20u16.to_le_bytes()); // version made by
    central.extend_from_slice(&20u16.to_le_bytes()); // version needed
    central.extend_from_slice(&0u16.to_le_bytes()); // flags: not encrypted
    central.extend_from_slice(&0u16.to_le_bytes()); // method: stored
    central.extend_from_slice(&0u16.to_le_bytes()); // mod time
    central.extend_from_slice(&0u16.to_le_bytes()); // mod date
    central.extend_from_slice(&0u32.to_le_bytes()); // crc
    central.extend_from_slice(&0u32.to_le_bytes()); // compressed size
    central.extend_from_slice(&0u32.to_le_bytes()); // uncompressed size
    central.extend_from_slice(&1u16.to_le_bytes()); // name length
    central.extend_from_slice(&(extra.len() as u16).to_le_bytes()); // extra length
    central.extend_from_slice(&0u16.to_le_bytes()); // comment length
    central.extend_from_slice(&0u16.to_le_bytes()); // disk number start
    central.extend_from_slice(&0u16.to_le_bytes()); // internal attributes
    central.extend_from_slice(&0u32.to_le_bytes()); // external attributes
    central.extend_from_slice(&0u32.to_le_bytes()); // local header offset
    central.extend_from_slice(b"a");
    central.extend_from_slice(&extra);

    let mut bytes = local;
    let cd_offset = bytes.len() as u32;
    let cd_size = central.len() as u32;
    bytes.extend_from_slice(&central);
    bytes.extend_from_slice(&[0x50, 0x4b, 0x05, 0x06]); // end of central directory
    bytes.extend_from_slice(&0u16.to_le_bytes()); // disk number
    bytes.extend_from_slice(&0u16.to_le_bytes()); // central directory disk
    bytes.extend_from_slice(&1u16.to_le_bytes()); // entries on this disk
    bytes.extend_from_slice(&1u16.to_le_bytes()); // entries in total
    bytes.extend_from_slice(&cd_size.to_le_bytes());
    bytes.extend_from_slice(&cd_offset.to_le_bytes());
    bytes.extend_from_slice(&0u16.to_le_bytes()); // comment length
    bytes
}

#[test]
fn aes_marked_entry_is_an_extract_error_not_a_panic() {
    let bytes = aes_marked_zip();
    assert!(matches!(read_archive_entries(&bytes), Err(UpdateError::ExtractError)));
}

#[test]
fn plan_keeps_good_entries_and_drops_traversal() {
    let bytes = fixture_zip(&[
        ("dir/", None),
        ("dir/nested.txt", Some(b"nested contents")),
        ("../evil.txt", Some(b"escape attempt")),
    ]);
    let entries = read_archive_entries(&bytes).unwrap();
    let plan = plan_extraction(&entries);
    assert_eq!(plan.len(), 2);
    match &plan[0] {
        ExtractAction::MakeDir { path } => assert_eq!(*path, strings(&["dir"])),
        _ => panic!("expected a directory action"),
    }
    match &plan[1] {
        ExtractAction::WriteFile { path, data } => {
            assert_eq!(*path, strings(&["dir", "nested.txt"]));
            assert_eq!(data, b"nested contents");
        },
        _ => panic!("expected a file action"),
    }
}

#[test]
fn exactly_one_sector_file_is_required() {
    assert_eq!(sector_file_name(&strings(&["a.sct", "readme.txt"])), Ok("a.sct".to_string()));
    assert_eq!(
        sector_file_name(&strings(&["readme.txt"])),
        Err(UpdateError::ConfigError)
    );
    assert_eq!(
        sector_file_name(&strings(&["a.sct", "b.sct"])),
        Err(UpdateError::ConfigError)
    );
    assert_eq!(sector_file_name(&strings(&["a.sct.bak"])), Err(UpdateError::ConfigError));
}
