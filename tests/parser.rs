use species::parser::{Argument, Command, CommandHead, SeqKind, Token};
use species::ParseError;

#[test]
fn whitespaces() {
    let (input, _) = Token::ws("").expect("ws should skip empty");
    assert_eq!(input, "");

    let (input, _) = Token::ws("  \n & &&").expect("ws should skip &");
    assert_eq!(input, "");

    let (input, _) = Token::ws(r"  & \quad \qquad").expect("ws should skip quad");
    assert_eq!(input, "");
}

#[test]
fn simple_command() {
    let (input, cmd) =
        Command::parser(r"\externtype").expect("command parser should parse a command");
    assert_eq!(input, "");
    assert_eq!(cmd.head.name, "externtype");

    let (input, cmd) = Command::parser(r"\production{external types}")
        .expect("command parser should parse a command with arguments");
    assert_eq!(input, "");
    assert_eq!(cmd.head.name, "production");
}

#[test]
fn upnote() {
    let (input, cmd) =
        Command::parser(r"\instr^\ast").expect("command parser should parse upnote");
    assert_eq!(cmd.head.name, "instr");
    assert_eq!(cmd.upnote, Some(SeqKind::ManyPossibleEmpty));
    assert_eq!(input, "");
}

#[test]
fn ws_skipping_twice_consumes_nothing_more() {
    let text = r" \, \: \; \! ~ & \\ \quad x \quad";
    let (rest, _) = Token::ws(text).unwrap();
    assert_eq!(rest, r"x \quad");
    let (again, _) = Token::ws(rest).unwrap();
    assert_eq!(again, rest);
}

#[test]
fn ws_stops_at_other_text() {
    let (rest, _) = Token::ws(r"\foo").unwrap();
    assert_eq!(rest, r"\foo");
    let (rest, _) = Token::ws("\t\r\n|").unwrap();
    assert_eq!(rest, "|");
}

#[test]
fn equal_token() {
    let (rest, _) = Token::equal(r"::=& \u32").unwrap();
    assert_eq!(rest, r"\u32");
    assert_eq!(Token::equal(r":= \u32"), Err(ParseError::Mismatch(0)));
}

#[test]
fn command_head_with_params() {
    let (rest, head) = CommandHead::parser(r"\foo[a,b2]{x}").unwrap();
    assert_eq!(head.name, "foo");
    assert_eq!(head.params, vec!["a".to_string(), "b2".to_string()]);
    assert_eq!(rest, "{x}");
}

#[test]
fn command_head_unclosed_params_are_left() {
    let (rest, head) = CommandHead::parser(r"\foo[a,]").unwrap();
    assert_eq!(head.name, "foo");
    assert!(head.params.is_empty());
    assert_eq!(rest, "[a,]");
}

#[test]
fn command_errors() {
    assert_eq!(Command::parser("foo").unwrap_err(), ParseError::Mismatch(0));
    assert_eq!(Command::parser(r"\{").unwrap_err(), ParseError::Mismatch(1));
    assert_eq!(Command::parser("").unwrap_err(), ParseError::Mismatch(0));
}

#[test]
fn command_with_nested_arguments() {
    let (rest, cmd) = Command::parser(r"\production{\K{table}}{plain text}^+ & rest").unwrap();
    assert_eq!(rest, "rest");
    assert_eq!(cmd.head.name, "production");
    assert_eq!(cmd.args.len(), 2);
    match &cmd.args[0] {
        Argument::Cmd(inner) => {
            assert_eq!(inner.head.name, "K");
            assert_eq!(inner.args[0].name(), "table");
        }
        Argument::Str(_) => panic!("expected a nested command"),
    }
    assert_eq!(cmd.args[0].name(), "K");
    assert_eq!(cmd.args[1].name(), "plain text");
    assert_eq!(cmd.upnote, Some(SeqKind::ManyNonEmpty));
}

#[test]
fn seq_kinds() {
    let (_, c) = Command::parser(r"\a^?").unwrap();
    assert_eq!(c.upnote, Some(SeqKind::OptSeq));
    let (_, c) = Command::parser(r"\a^n").unwrap();
    assert_eq!(c.upnote, Some(SeqKind::ManyN));
    let (_, c) = Command::parser(r"\a^+").unwrap();
    assert_eq!(c.upnote, Some(SeqKind::ManyNonEmpty));
    let (_, c) = Command::parser(r"\a^\ast").unwrap();
    assert_eq!(c.upnote, Some(SeqKind::ManyPossibleEmpty));
    let (rest, c) = Command::parser(r"\a^x").unwrap();
    assert_eq!(c.upnote, None);
    assert_eq!(rest, "^x");
}

#[test]
fn braced_literal_argument() {
    let (rest, a) = Argument::parser("{{a.b/c-d#e}}").unwrap();
    assert_eq!(rest, "");
    assert_eq!(a.name(), "a.b/c-d#e");
    let (rest, a) = Argument::parser("{}x").unwrap();
    assert_eq!(rest, "x");
    assert_eq!(a.name(), "");
    assert_eq!(Argument::parser("{a}b}").unwrap().0, "b}");
    assert_eq!(Argument::parser("{a!}").unwrap_err(), ParseError::Mismatch(2));
    assert_eq!(Argument::parser("a").unwrap_err(), ParseError::Mismatch(0));
}

#[test]
fn braced_runs_inside_a_literal_are_joined() {
    let (rest, a) = Argument::parser("{a {b} c}").unwrap();
    assert_eq!(rest, "");
    assert_eq!(a.name(), "a b c");
    let (rest, a) = Argument::parser("{{x}y{{z}}}!").unwrap();
    assert_eq!(rest, "!");
    assert_eq!(a.name(), "xyz");
    assert_eq!(Argument::parser("{a {b c}").unwrap_err(), ParseError::Mismatch(8));
}

#[test]
fn command_argument_needs_closing_brace() {
    let (rest, cmd) = Command::parser(r"\f{\g x}").unwrap();
    assert_eq!(cmd.head.name, "f");
    assert!(cmd.args.is_empty());
    assert_eq!(rest, r"{\g x}");
}

#[test]
fn classification_of_commands() {
    let (_, c) = Command::parser(r"\I32").unwrap();
    assert_eq!(c.is_terminal(), Some("I32".to_string()));
    assert_eq!(c.is_nonterminal(), None);
    let (_, c) = Command::parser(r"\u32").unwrap();
    assert_eq!(c.is_terminal(), None);
    assert_eq!(c.is_nonterminal(), Some("u32".to_string()));
    let (_, c) = Command::parser(r"\K{module}").unwrap();
    assert_eq!(c.is_terminal(), Some("module".to_string()));
    let (_, c) = Command::parser(r"\X{Name}").unwrap();
    assert_eq!(c.is_nonterminal(), Some("Name".to_string()));
    let (_, c) = Command::parser(r"\mixedCase").unwrap();
    assert_eq!(c.is_terminal(), None);
    assert_eq!(c.is_nonterminal(), None);
    let (_, c) = Command::parser(r"\123").unwrap();
    assert_eq!(c.is_terminal(), Some("123".to_string()));
    assert_eq!(c.is_nonterminal(), Some("123".to_string()));
}
