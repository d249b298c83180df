use testkit::logging::{verbosity_for, Verbosity};

#[test]
fn levels_are_named_without_regard_to_case() {
    assert_eq!(verbosity_for(b"off"), Verbosity::Off);
    assert_eq!(verbosity_for(b"ERROR"), Verbosity::Error);
    assert_eq!(verbosity_for(b"Warn"), Verbosity::Warn);
    assert_eq!(verbosity_for(b"info"), Verbosity::Info);
    assert_eq!(verbosity_for(b"debug"), Verbosity::Debug);
    assert_eq!(verbosity_for(b"tRaCe"), Verbosity::Trace);
}

#[test]
fn an_unknown_name_means_info() {
    assert_eq!(verbosity_for(b""), Verbosity::Info);
    assert_eq!(verbosity_for(b"verbose"), Verbosity::Info);
    assert_eq!(verbosity_for(b" debug"), Verbosity::Info);
    assert_eq!(verbosity_for(b"warning"), Verbosity::Info);
    assert_eq!(verbosity_for(&[0xff, 0xfe]), Verbosity::Info);
}
