use ansi_csi::{final_byte, intermediary, parameter, text_with_csi, Token, Value, CSI};

fn text(s: &str) -> Token {
    Token::Text(String::from(s))
}

#[test]
fn it_parses_parameter() {
    assert!(parameter('0'));
    assert!(parameter('?'));
    assert!(parameter(';'));

    assert!(!parameter('@'));
    assert!(!parameter('a'));
}

#[test]
fn it_parses_intermediary() {
    assert!(intermediary('!'));
    assert!(intermediary('/'));
    assert!(intermediary('+'));

    assert!(!intermediary('@'));
    assert!(!intermediary('5'));
}

#[test]
fn it_parses_final_byte() {
    assert!(final_byte('@'));
    assert!(final_byte('~'));
    assert!(final_byte('m'));

    assert!(!final_byte('>'));
    assert!(!final_byte(' '));
}

#[test]
fn it_parses_complete_csi_token() {
    assert_eq!(text_with_csi("\x1b[2A"), vec![Token::CSI(vec!['2'], vec![], 'A')]);
}

#[test]
fn it_parses_text_without_csi_tokens() {
    assert_eq!(text_with_csi("Hello world"), vec![text("Hello world")]);
}

#[test]
fn it_parses_csi_inside_text() {
    assert_eq!(
        text_with_csi("Hello \x1b[32mworld\x1b[0m"),
        vec![
            text("Hello "),
            Token::CSI(vec!['3', '2'], vec![], 'm'),
            text("world"),
            Token::CSI(vec!['0'], vec![], 'm'),
        ]
    );
}

#[test]
fn it_ignores_partial_csi() {
    assert_eq!(
        text_with_csi("\"\x1b[%0\" is not a valid CSI"),
        vec![text("\""), text("\x1b"), text("[%0\" is not a valid CSI")]
    );
}

#[test]
fn it_works_on_edge_cases() {
    assert_eq!(text_with_csi(""), vec![]);
    assert_eq!(
        text_with_csi("\x1b\x1b!"),
        vec![text("\x1b"), text("\x1b"), text("!")]
    );

    assert_eq!(
        text_with_csi("\x1b[32m\x1b\x1b[0m"),
        vec![
            Token::CSI(vec!['3', '2'], vec![], 'm'),
            text("\x1b"),
            Token::CSI(vec!['0'], vec![], 'm'),
        ]
    );
}

#[test]
fn csi_parts_are_kept_apart() {
    assert_eq!(
        text_with_csi("\x1b[1;2 !H"),
        vec![Token::CSI(vec!['1', ';', '2'], vec![' ', '!'], 'H')]
    );
}

#[test]
fn values_from_tokens() {
    assert_eq!(
        Value::from(Token::CSI(vec!['3', '2'], vec![' '], 'm')),
        Value::CSI(CSI::Unknown(String::from("32 m")))
    );
    assert_eq!(Value::from(text("abc")), Value::Text(String::from("abc")));
    assert_eq!(
        CSI::from(Token::CSI(vec![], vec![], '~')),
        CSI::Unknown(String::from("~"))
    );
}
