use jlek::TokenSpec;
use jlek::lexer::{Lexer, Span, Terminal, TerminalClass};
use jlek::lexer_spec::LexerSpec;

fn scanner(specs: &[(&str, &str)], source: &str) -> Lexer {
    let token_specs: Vec<TokenSpec> = specs
        .iter()
        .map(|(n, p)| TokenSpec::new(n.to_string(), p.to_string()))
        .collect();
    let spec = LexerSpec::new(&token_specs).unwrap();
    Lexer::from_source_str(&spec, source)
}

#[test]
fn longest_match_wins() {
    let mut lexer = scanner(&[("Ident", "\\w\\w*"), ("Keyword", "if")], "iffy");
    let t = lexer.next_token().unwrap();
    assert_eq!(t, Terminal::new(TerminalClass::Token(0), Span::new(0, 4)));
    assert_eq!(lexer.get_lexeme(&t), "iffy");
    assert_eq!(lexer.next_token().unwrap().class(), TerminalClass::End);
}

#[test]
fn earlier_specification_wins_a_tie() {
    let mut lexer = scanner(&[("A", "a"), ("B", "a")], "a");
    let t = lexer.next_token().unwrap();
    assert_eq!(t.class(), TerminalClass::Token(0));
    assert_eq!(t.span(), Span::new(0, 1));
}

#[test]
fn keyword_declared_first_wins_on_equal_length() {
    let mut lexer = scanner(&[("Keyword", "if"), ("Ident", "\\w\\w*")], "if iffy");
    assert_eq!(
        lexer.next_token().unwrap(),
        Terminal::new(TerminalClass::Token(0), Span::new(0, 2))
    );
    assert_eq!(
        lexer.next_token().unwrap(),
        Terminal::new(TerminalClass::Token(1), Span::new(3, 7))
    );
}

#[test]
fn whitespace_is_skipped_between_tokens() {
    let mut lexer = scanner(&[("Number", "\\d\\d*")], "  12 \t\n 345 ");
    let a = lexer.next_token().unwrap();
    assert_eq!(a.span(), Span::new(2, 4));
    let b = lexer.next_token().unwrap();
    assert_eq!(b.span(), Span::new(8, 11));
    assert_eq!(lexer.get_lexeme(&b), "345");
    let end = lexer.next_token().unwrap();
    assert_eq!(end, Terminal::new(TerminalClass::End, Span::new(12, 12)));
}

#[test]
fn end_of_input_repeats() {
    let mut lexer = scanner(&[("Number", "\\d\\d*")], "7");
    assert_eq!(lexer.next_token().unwrap().span(), Span::new(0, 1));
    let end = Terminal::new(TerminalClass::End, Span::new(1, 1));
    assert_eq!(lexer.peek_token().unwrap(), end);
    assert_eq!(lexer.next_token().unwrap(), end);
    assert_eq!(lexer.next_token().unwrap(), end);
    assert_eq!(lexer.peek_token().unwrap(), end);
}

#[test]
fn empty_input_is_end() {
    let mut lexer = scanner(&[("Number", "\\d\\d*")], "");
    assert_eq!(
        lexer.next_token().unwrap(),
        Terminal::new(TerminalClass::End, Span::new(0, 0))
    );
}

#[test]
fn peek_does_not_advance() {
    let mut lexer = scanner(&[("Number", "\\d\\d*")], "12 3");
    let t = lexer.peek_token().unwrap();
    assert_eq!(lexer.peek_token().unwrap(), t);
    assert_eq!(lexer.next_token().unwrap(), t);
    assert_eq!(lexer.next_token().unwrap().span(), Span::new(3, 4));
}

#[test]
fn backtracks_to_last_accepting_depth() {
    let mut lexer = scanner(&[("Ab", "ab"), ("Abcd", "abcd")], "abcx");
    assert_eq!(
        lexer.next_token().unwrap(),
        Terminal::new(TerminalClass::Token(0), Span::new(0, 2))
    );
    assert!(lexer.next_token().is_err());
}

#[test]
fn unexpected_character_is_reported() {
    let mut lexer = scanner(&[("Number", "\\d\\d*")], "12\n 3x4");
    assert_eq!(lexer.next_token().unwrap().span(), Span::new(0, 2));
    assert_eq!(lexer.next_token().unwrap().span(), Span::new(4, 5));
    let err = lexer.next_token().err().unwrap();
    assert_eq!(
        err,
        "Line   2| 3x4\n           ^\nerror: unexpected character found: x"
    );
    assert!(lexer.next_token().is_err());
}

#[test]
fn show_span_marks_the_span() {
    let mut lexer = scanner(&[("Ident", "\\w\\w*")], "abc\nde fgh\n");
    lexer.next_token().unwrap();
    lexer.next_token().unwrap();
    let t = lexer.next_token().unwrap();
    assert_eq!(t.span(), Span::new(7, 10));
    assert_eq!(lexer.show_span(&t.span()), "Line   2|de fgh\n            ^--");
}

#[test]
fn show_span_pads_line_number() {
    let source = "a\n".repeat(11) + "bb";
    let mut lexer = scanner(&[("Ident", "\\w\\w*")], &source);
    let mut last = lexer.next_token().unwrap();
    for _ in 0..11 {
        last = lexer.next_token().unwrap();
    }
    assert_eq!(last.span(), Span::new(22, 24));
    assert_eq!(lexer.show_span(&last.span()), "Line  12|bb\n         ^-");
}

#[test]
fn span_and_terminal_accessors() {
    let span = Span::new(3, 5);
    assert_eq!(span.start_pos(), 3);
    assert_eq!(span.end_pos(), 5);
    let t = Terminal::new(TerminalClass::Token(2), span);
    assert_eq!(t.class(), TerminalClass::Token(2));
    assert_eq!(t.span(), span);
}

#[test]
fn compiled_table_is_closed() {
    let token_specs = vec![
        TokenSpec::new("Ident".to_string(), "\\w\\w*".to_string()),
        TokenSpec::new("Number".to_string(), "\\d\\d*".to_string()),
    ];
    let mut spec = LexerSpec::new(&token_specs).unwrap();
    assert!(spec.is_closed());
    spec.initial_states.push(spec.states.len());
    assert!(!spec.is_closed());
}

#[test]
fn nul_pattern_is_scanned() {
    let mut lexer = scanner(&[("Nul", "\0"), ("Ident", "\\w\\w*")], "ab\0");
    assert_eq!(
        lexer.next_token().unwrap(),
        Terminal::new(TerminalClass::Token(1), Span::new(0, 2))
    );
    assert_eq!(
        lexer.next_token().unwrap(),
        Terminal::new(TerminalClass::Token(0), Span::new(2, 3))
    );
    assert_eq!(lexer.next_token().unwrap().class(), TerminalClass::End);
}

#[test]
fn show_span_past_the_end() {
    let lexer = scanner(&[("Ident", "\\w\\w*")], "ab");
    assert_eq!(lexer.show_span(&Span::new(1, 5)), "Line   1|ab\n          ^---");
}
