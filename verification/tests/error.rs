use simple_nats::error::{
    NError, ERROR_CONNECTION_CLOSED, ERROR_INVALID_SUBJECT, ERROR_MESSAGE_SIZE_TOO_LARGE,
    ERROR_NON_LITERAL_SUBJECT, ERROR_PARSE, ERROR_SUBSCRIBTION_NOT_FOUND,
};

#[test]
fn error_test() {
    println!("{}", NError::new(ERROR_PARSE).to_string());
}

#[test]
fn errors_as_text() {
    assert_eq!(NError::new(ERROR_PARSE).to_string(), "NError[1,parse error]");
    assert_eq!(NError::new(ERROR_PARSE).error_description(), "parse error");
    for code in [
        ERROR_MESSAGE_SIZE_TOO_LARGE,
        ERROR_INVALID_SUBJECT,
        ERROR_SUBSCRIBTION_NOT_FOUND,
        ERROR_CONNECTION_CLOSED,
        ERROR_NON_LITERAL_SUBJECT,
    ] {
        assert_eq!(NError::new(code).error_description(), "unkown error");
        assert_eq!(NError::new(code).to_string(), format!("NError[{},unkown error]", code));
    }
    assert_eq!(NError::new(0).to_string(), "NError[0,unkown error]");
    assert_eq!(NError::new(-17).to_string(), "NError[-17,unkown error]");
    assert_eq!(NError::new(i32::MAX).to_string(), "NError[2147483647,unkown error]");
    assert_eq!(NError::new(i32::MIN).to_string(), "NError[-2147483648,unkown error]");
    assert_eq!(NError::new(3).err_code, 3);
}
