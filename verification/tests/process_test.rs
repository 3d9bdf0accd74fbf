use req::parser::{Token, TokenType};
use req::requests::prepare_request;

#[test]
fn unsupported_method() {
    let tokens = vec![
        Token {
            token_type: TokenType::Method,
            value: "OPTIONS".to_string(),
        },
        Token {
            token_type: TokenType::URL,
            value: "http://example.com".to_string(),
        },
    ];

    let result = prepare_request(&tokens);

    assert!(result.is_err());
    assert!(result
        .err()
        .unwrap()
        .message()
        .contains("unsupported method"));
}

#[test]
fn empty_tokens() {
    let tokens = vec![];
    let result = prepare_request(&tokens);

    assert!(result.is_err());
    assert!(result
        .err()
        .unwrap()
        .message()
        .contains("unsupported method"));
}
