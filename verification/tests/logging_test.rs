use cljvindent::logging::{log_level_of, log_output_type_of, LogLevel, LogOutputType};

#[test]
fn output_type_options() {
    assert_eq!(log_output_type_of(b"json"), LogOutputType::Json);
    assert_eq!(log_output_type_of(b"compact"), LogOutputType::Compact);
    assert_eq!(log_output_type_of(b"JSON"), LogOutputType::Compact);
    assert_eq!(log_output_type_of(b""), LogOutputType::Compact);
}

#[test]
fn level_options() {
    assert_eq!(log_level_of(b"debug"), LogLevel::Debug);
    assert_eq!(log_level_of(b"info"), LogLevel::Info);
    assert_eq!(log_level_of(b"trace"), LogLevel::Info);
}
