//! Errors and the exit codes they carry.

use taska::error::{CodedError, DynError, ExitCode};

#[test]
fn coded_errors_carry_their_exit_code_through_a_downcast() {
    assert_eq!(ExitCode::Error.as_u8(), 1);
    assert_eq!(ExitCode::Schema.as_u8(), 2);
    assert_eq!(ExitCode::Precondition.as_u8(), 3);

    let schema: DynError = CodedError::schema("bad fields");
    assert_eq!(schema.coded().unwrap().code(), ExitCode::Schema);
    let precondition: DynError = CodedError::precondition("guard failed");
    assert_eq!(precondition.coded().unwrap().code(), ExitCode::Precondition);
    // A plain error carries no code of its own, so it exits with 1.
    let plain: DynError = DynError::Message("just a message".to_string());
    assert!(plain.coded().is_none());
    assert_eq!(plain.exit_code(), ExitCode::Error);
    assert_eq!(schema.exit_code(), ExitCode::Schema);
    assert_eq!(schema.text(), "bad fields");
    assert_eq!(plain.text(), "just a message");
}
