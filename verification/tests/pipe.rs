use yata_reader::{PipeName, PIPE_PREFIX};

#[test]
fn only_the_daemons_pipe_names_are_accepted() {
    // Written out rather than built from PIPE_PREFIX, so a wrong prefix fails here.
    let good = r"\\.\pipe\yata-reader-0123456789abcdef0123456789abcdef";
    assert_eq!(
        PipeName::parse(good).map(|p| p.as_str().to_owned()),
        Some(good.to_owned())
    );
    assert_eq!(PipeName::parse(&good.to_uppercase()), None);
    assert_eq!(PipeName::parse(r"\\.\pipe\other"), None);
    assert_eq!(PipeName::parse(&format!("{good}0")), None);
    assert_eq!(
        PipeName::parse(&format!(r"\\server\pipe\yata-reader-{}", "0".repeat(32))),
        None
    );
}

#[test]
fn a_pipe_name_is_the_prefix_and_thirty_two_hex_digits() {
    assert!(PipeName::parse(&format!("{PIPE_PREFIX}{}", "f".repeat(32))).is_some());
    assert!(PipeName::parse(&format!("{PIPE_PREFIX}{}", "g".repeat(32))).is_none());
    assert!(PipeName::parse(&format!("{PIPE_PREFIX}{}", "0".repeat(31))).is_none());
    assert!(PipeName::parse(PIPE_PREFIX).is_none());
}
