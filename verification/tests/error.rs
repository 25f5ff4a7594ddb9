use hunkpick::error::AppError;

#[test]
fn exit_codes_map() {
    assert_eq!(AppError::Usage("x".into()).exit_code(), 2);
    assert_eq!(AppError::Verify("x".into()).exit_code(), 70);
    assert_eq!(AppError::Internal("x".into()).exit_code(), 70);
    assert_eq!(AppError::Io("x".into()).exit_code(), 74);
}

/// Every kind shows the text it carries and nothing else.
#[test]
fn message_is_the_text_carried() {
    assert_eq!(AppError::Usage("bad selector".into()).message(), "bad selector");
    assert_eq!(AppError::Verify("v".into()).message(), "v");
    assert_eq!(AppError::Io("disk full".into()).message(), "disk full");
    assert_eq!(AppError::Internal("i".into()).message(), "i");
}
