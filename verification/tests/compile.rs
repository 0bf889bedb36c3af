use brainstorm::parser::{ParserError, Program, Token};

fn tokens_of(src: &str) -> Vec<Token> {
    Program::parse(src, false).unwrap().tokens
}

#[test]
fn empty_source_compiles_to_single_eof() {
    let p = Program::parse("", false).unwrap();
    assert_eq!(p.tokens, vec![Token::Eof]);
    assert_eq!(p.units.len(), 1);
    assert_eq!(p.units[0].description, "No Unit Information");
    assert_eq!(p.units[0].start, 0);
    assert_eq!(p.units[0].end, 1);
}

#[test]
fn increment_folding_cancels_to_nothing() {
    assert_eq!(tokens_of("++--"), vec![Token::Eof]);
}

#[test]
fn increment_folding_wraps_modulo_256() {
    assert_eq!(tokens_of("---"), vec![Token::Increment(253), Token::Eof]);
    assert_eq!(tokens_of("+++"), vec![Token::Increment(3), Token::Eof]);
}

#[test]
fn increment_folding_survives_unrecognized_characters_and_newlines() {
    assert_eq!(tokens_of("+a+"), vec![Token::Increment(2), Token::Eof]);
    assert_eq!(tokens_of("+\n+"), vec![Token::Increment(2), Token::Eof]);
}

#[test]
fn move_folding_cancels_to_nothing() {
    assert_eq!(tokens_of("><"), vec![Token::Eof]);
    assert_eq!(tokens_of("><><"), vec![Token::Eof]);
}

#[test]
fn move_folding_sums_offsets() {
    assert_eq!(tokens_of(">>><<"), vec![Token::Move(1), Token::Eof]);
    assert_eq!(tokens_of("<<"), vec![Token::Move(-2), Token::Eof]);
}

#[test]
fn output_interrupts_folding() {
    assert_eq!(
        tokens_of("+.+"),
        vec![Token::Increment(1), Token::Output, Token::Increment(1), Token::Eof]
    );
}

#[test]
fn bracket_pairing_nested() {
    // [[]] resolves to mutually linked jump pairs: each JumpZero targets
    // one past its partner JumpNotZero, which targets one past it.
    assert_eq!(
        tokens_of("[[]]"),
        vec![
            Token::JumpZero(4),
            Token::JumpZero(3),
            Token::JumpNotZero(2),
            Token::JumpNotZero(1),
            Token::Eof,
        ]
    );
}

#[test]
fn bracket_pairing_sequential() {
    assert_eq!(
        tokens_of("[][]"),
        vec![
            Token::JumpZero(2),
            Token::JumpNotZero(1),
            Token::JumpZero(4),
            Token::JumpNotZero(3),
            Token::Eof,
        ]
    );
}

#[test]
fn unmatched_open_bracket_is_rejected() {
    assert_eq!(Program::parse("[", false).unwrap_err(), ParserError::MissingClose);
}

#[test]
fn unmatched_close_bracket_is_rejected() {
    assert_eq!(Program::parse("]", false).unwrap_err(), ParserError::MissingOpen);
}

#[test]
fn close_before_open_is_rejected() {
    assert_eq!(Program::parse("][", false).unwrap_err(), ParserError::MissingOpen);
}

#[test]
fn units_partition_with_two_declared_units() {
    let p = Program::parse(";alpha\n++\n;beta\n--\n", false).unwrap();
    assert_eq!(p.tokens.len(), 3);
    assert_eq!(p.units.len(), 2);
    assert_eq!(p.units[0].description, "alpha");
    assert_eq!((p.units[0].start, p.units[0].end), (0, 1));
    assert_eq!(p.units[1].description, "beta");
    assert_eq!((p.units[1].start, p.units[1].end), (1, 3));
}

#[test]
fn unit_declared_after_code_synthesizes_leading_unit() {
    let p = Program::parse("+\n;late\n+", false).unwrap();
    assert_eq!(p.units.len(), 2);
    assert_eq!(p.units[0].description, "No Unit Name");
    assert_eq!((p.units[0].start, p.units[0].end), (0, 1));
    assert_eq!(p.units[1].description, "late");
    assert_eq!((p.units[1].start, p.units[1].end), (1, 3));
}

#[test]
fn empty_unit_is_legal() {
    let p = Program::parse(";a\n;b\n+", false).unwrap();
    assert_eq!(p.units.len(), 2);
    assert_eq!((p.units[0].start, p.units[0].end), (0, 0));
    assert_eq!((p.units[1].start, p.units[1].end), (0, 2));
}

#[test]
fn unit_label_is_trimmed() {
    let p = Program::parse(";  spaced label \n+", false).unwrap();
    assert_eq!(p.units[0].description, "spaced label");
}

#[test]
fn unit_line_contributes_no_instructions() {
    let p = Program::parse(";label with + and > inside\n.", false).unwrap();
    assert_eq!(p.tokens, vec![Token::Output, Token::Eof]);
}

#[test]
fn snapshot_marker_ignored_unless_enabled() {
    // a disabled `#` does not even interrupt run-length folding
    assert_eq!(tokens_of("+#+"), vec![Token::Increment(2), Token::Eof]);
    assert_eq!(
        Program::parse("+#+", true).unwrap().tokens,
        vec![
            Token::Increment(1),
            Token::PrintState,
            Token::Increment(1),
            Token::Eof,
        ]
    );
}

#[test]
fn input_token_interrupts_folding() {
    assert_eq!(
        tokens_of("+,+"),
        vec![Token::Increment(1), Token::Input, Token::Increment(1), Token::Eof]
    );
}
