use ansi_csi::{parse_string, render, Value, CSI};

fn assert_parsing(input: &str, expected: Vec<Value>) {
    let parsed = parse_string(input).expect("Could not parse input");
    assert_eq!(parsed, expected);

    let two_pass = render(&parsed);
    assert_eq!(&two_pass, input);
    assert_eq!(
        parse_string(&two_pass).expect("Could not parse stringified result (second pass)"),
        expected
    );
}

fn text(s: &str) -> Value {
    Value::Text(String::from(s))
}

fn unknown(s: &str) -> Value {
    Value::CSI(CSI::Unknown(String::from(s)))
}

#[test]
fn it_parses_unknown_csi_tokens() {
    assert_parsing(
        "This is an unknown CSI token: \x1b[?!~",
        vec![
            Value::Text(String::from("This is an unknown CSI token: ")),
            Value::CSI(CSI::Unknown(String::from("?!~"))),
        ],
    );
}

#[test]
fn empty_input_gives_no_values() {
    assert_parsing("", vec![]);
}

#[test]
fn colours_inside_text() {
    assert_parsing(
        "Hello \x1b[32mworld\x1b[0m",
        vec![text("Hello "), unknown("32m"), text("world"), unknown("0m")],
    );
}

#[test]
fn partial_csi_falls_back_to_text() {
    assert_parsing(
        "\"\x1b[%0\" is not a valid CSI",
        vec![text("\""), text("\x1b"), text("[%0\" is not a valid CSI")],
    );
}

#[test]
fn lone_escapes_are_text_of_their_own() {
    assert_parsing("\x1b\x1b!", vec![text("\x1b"), text("\x1b"), text("!")]);
    assert_parsing(
        "\x1b[32m\x1b\x1b[0m",
        vec![unknown("32m"), text("\x1b"), unknown("0m")],
    );
}

#[test]
fn lone_escape_between_text() {
    assert_parsing("ab\x1bcd", vec![text("ab"), text("\x1b"), text("cd")]);
}

#[test]
fn escape_at_end_of_input() {
    assert_parsing("ab\x1b", vec![text("ab"), text("\x1b")]);
    assert_parsing("ab\x1b[", vec![text("ab"), text("\x1b"), text("[")]);
    assert_parsing("\x1b[12;", vec![text("\x1b"), text("[12;")]);
}

#[test]
fn introducer_then_character_of_no_class() {
    assert_parsing("\x1b[\x7fx", vec![text("\x1b"), text("[\x7fx")]);
    assert_parsing("\x1b[\x1b[m", vec![text("\x1b"), text("["), unknown("m")]);
}

#[test]
fn csi_with_all_three_parts() {
    assert_parsing(
        "a\x1b[1;2 !Hb",
        vec![text("a"), unknown("1;2 !H"), text("b")],
    );
}

#[test]
fn parameters_after_intermediaries_end_the_attempt() {
    assert_parsing("\x1b[ 1m", vec![text("\x1b"), text("[ 1m")]);
}

#[test]
fn non_ascii_text_is_kept() {
    assert_parsing(
        "héllo \x1b[1m wörld ✓",
        vec![text("héllo "), unknown("1m"), text(" wörld ✓")],
    );
}

#[test]
fn csi_renders_with_introducer() {
    assert_eq!(CSI::Unknown(String::from("2A")).to_string(), "\x1b[2A");
    assert_eq!(unknown("0m").to_string(), "\x1b[0m");
    assert_eq!(text("plain").to_string(), "plain");
}

#[test]
fn render_joins_values() {
    let values = vec![text("x"), unknown("32m"), text("y")];
    assert_eq!(render(&values), "x\x1b[32my");
    assert_eq!(render(&vec![]), "");
}
