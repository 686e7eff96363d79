use yata_reader::BUILD_ID;

#[test]
fn the_build_id_names_the_version_and_commit() {
    assert!(BUILD_ID.starts_with("yata-reader 0.1.0+"));
}
