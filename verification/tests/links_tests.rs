use sector_updater::errors::UpdateError;
use sector_updater::headers::request_headers;
use sector_updater::links::{index_url, is_correct_link, resolve_sector_link, select_last_match};

fn strings(v: &[&str]) -> Vec<String> {
    v.iter().map(|s| s.to_string()).collect()
}

#[test]
fn correct_link_needs_filter_and_suffix() {
    assert!(is_correct_link("http://host/pkg_v1.zip", "pkg", "zip"));
    assert!(!is_correct_link("http://host/other_v1.zip", "pkg", "zip"));
    assert!(!is_correct_link("http://host/pkg_v1.zip.txt", "pkg", "zip"));
}

#[test]
fn correct_link_suffix_is_literal_not_extension() {
    // The suffix test is a plain string-ending test, so a name ending in
    // `.gzip` or `notzip` also passes it.
    assert!(is_correct_link("http://host/pkg_v1.gzip", "pkg", "zip"));
    assert!(is_correct_link("http://host/pkg_notzip", "pkg", "zip"));
}

#[test]
fn select_takes_last_match_in_order() {
    let links = strings(&[
        "http://host/pkg_v1.zip",
        "http://host/other.zip",
        "http://host/pkg_v2.zip",
        "http://host/pkg_v3.zip.txt",
    ]);
    let r = select_last_match(&links, "pkg", "zip").unwrap();
    assert_eq!(r, "http://host/pkg_v2.zip");
}

#[test]
fn select_with_no_match_is_not_found() {
    let links = strings(&["http://host/other.zip", "http://host/pkg.tar"]);
    assert_eq!(select_last_match(&links, "pkg", "zip"), Err(UpdateError::NotFound));
    let empty: Vec<String> = Vec::new();
    assert_eq!(select_last_match(&empty, "pkg", "zip"), Err(UpdateError::NotFound));
}

#[test]
fn resolve_takes_last_matching_cell_anchor() {
    let html = "<html><body><table>\
        <tr><td><a href=\"http://host/pkg_20230101.zip\">old</a></td></tr>\
        <tr><td><a href=\"http://host/other_20230601.zip\">other</a></td></tr>\
        <tr><td><a href=\"http://host/pkg_20240101.zip\">new</a></td></tr>\
        </table>\
        <a href=\"http://host/pkg_99999999.zip\">outside any cell</a>\
        </body></html>";
    let r = resolve_sector_link(html, "pkg").unwrap();
    assert_eq!(r, "http://host/pkg_20240101.zip");
}

#[test]
fn resolve_excludes_filter_match_without_suffix() {
    let html = "<table><tr><td><a href=\"http://host/pkg_v1.zip\">a</a></td></tr>\
        <tr><td><a href=\"http://host/pkg_v2.zip.sha1\">b</a></td></tr></table>";
    let r = resolve_sector_link(html, "pkg").unwrap();
    assert_eq!(r, "http://host/pkg_v1.zip");
}

#[test]
fn resolve_with_no_matching_link_is_not_found() {
    let html = "<table><tr><td><a href=\"http://host/other.zip\">a</a></td></tr></table>";
    assert_eq!(resolve_sector_link(html, "pkg"), Err(UpdateError::NotFound));
}

#[test]
fn index_url_appends_region_code() {
    assert_eq!(index_url("ABCD"), "http://files.aero-nav.com/ABCD");
}

#[test]
fn request_headers_hold_the_fixed_identity() {
    let h = request_headers();
    assert_eq!(h.len(), 13);
    assert_eq!(h[0].0, "Accept");
    assert_eq!(h[3], ("Connection".to_string(), "keep-alive".to_string()));
    assert_eq!(h[5], ("Host".to_string(), "files.aero-nav.com".to_string()));
    assert_eq!(h[6], ("Referer".to_string(), "http://files.aero-nav.com/".to_string()));
    assert_eq!(h[11], ("Upgrade-Insecure-Requests".to_string(), "1".to_string()));
    assert_eq!(
        h[12],
        (
            "User-Agent".to_string(),
            "Mozilla/5.0 (Windows NT 10.0; Win64; x64; rv:108.0) Gecko/20100101 Firefox/108.0"
                .to_string()
        )
    );
}
