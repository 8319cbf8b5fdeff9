use sector_updater::errors::UpdateError;

#[test]
fn each_error_kind_has_its_description() {
    assert_eq!(UpdateError::NetworkError.describe(), "network request failed");
    assert_eq!(UpdateError::NotFound.describe(), "no matching download link");
    assert_eq!(UpdateError::ExtractError.describe(), "archive could not be extracted");
    assert_eq!(UpdateError::IOError.describe(), "filesystem operation failed");
    assert_eq!(UpdateError::ConfigError.describe(), "bad configuration or package shape");
}

#[test]
fn error_kinds_compare_by_variant() {
    assert_eq!(UpdateError::NotFound, UpdateError::NotFound);
    assert_ne!(UpdateError::NotFound, UpdateError::NetworkError);
}
