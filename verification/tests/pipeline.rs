use bfjvm::lex::lex_program;
use bfjvm::lex::Token;
use bfjvm::parse::compile_foldable;
use bfjvm::parse::parse_program;
use bfjvm::parse::Inst;
use bfjvm::parse::ParseError;

fn lexed(source: &str) -> Vec<Token> {
    lex_program(source.to_string()).unwrap()
}

fn parsed(source: &str) -> Result<Vec<Inst>, ParseError> {
    parse_program(lexed(source))
}

fn inst(typ: Token, argument: usize) -> Inst {
    Inst { typ, argument }
}

#[test]
fn lex_keeps_operators_in_order() {
    assert_eq!(
        lexed("+-><.,[]"),
        vec![
            Token::Plus,
            Token::Minus,
            Token::Right,
            Token::Left,
            Token::PutChar,
            Token::ReadChar,
            Token::JumpIfZero,
            Token::JumpIfNonZero,
        ]
    );
}

#[test]
fn lex_drops_everything_else() {
    assert_eq!(
        lexed("step 2 [comment] + then . stop"),
        vec![Token::JumpIfZero, Token::JumpIfNonZero, Token::Plus, Token::PutChar]
    );
}

#[test]
fn lex_non_operator_text_is_empty() {
    assert_eq!(lexed("hello world!\n\t 123 ()"), vec![]);
    assert_eq!(parsed("hello world!\n\t 123 ()"), Ok(vec![]));
}

#[test]
fn lex_empty_source_is_empty() {
    assert_eq!(lexed(""), vec![]);
    assert_eq!(parsed(""), Ok(vec![]));
}

#[test]
fn parse_folds_runs() {
    assert_eq!(
        parsed("++>+"),
        Ok(vec![inst(Token::Plus, 2), inst(Token::Right, 1), inst(Token::Plus, 1)])
    );
}

#[test]
fn parse_folds_only_identical_neighbours() {
    assert_eq!(
        parsed("++--++"),
        Ok(vec![inst(Token::Plus, 2), inst(Token::Minus, 2), inst(Token::Plus, 2)])
    );
}

#[test]
fn parse_cross_references_loop_pair() {
    assert_eq!(
        parsed("[-]"),
        Ok(vec![
            inst(Token::JumpIfZero, 2),
            inst(Token::Minus, 1),
            inst(Token::JumpIfNonZero, 0),
        ])
    );
}

#[test]
fn parse_rejects_bare_close() {
    assert_eq!(parsed("]"), Err(ParseError::UnmatchedClose));
}

#[test]
fn parse_rejects_close_beyond_opens() {
    assert_eq!(parsed("[]]"), Err(ParseError::UnmatchedClose));
}

#[test]
fn parse_nested_and_sibling_loops() {
    assert_eq!(
        parsed("[[[]][]]"),
        Ok(vec![
            inst(Token::JumpIfZero, 7),
            inst(Token::JumpIfZero, 4),
            inst(Token::JumpIfZero, 3),
            inst(Token::JumpIfNonZero, 2),
            inst(Token::JumpIfNonZero, 1),
            inst(Token::JumpIfZero, 6),
            inst(Token::JumpIfNonZero, 5),
            inst(Token::JumpIfNonZero, 0),
        ])
    );
}

#[test]
fn parse_run_lengths_unfold_to_lexed_tokens() {
    let source = "++>>>++[--].";
    let tokens = lexed(source);
    let instructions = parsed(source).unwrap();
    let mut unfolded = Vec::new();
    for inst in &instructions {
        if inst.typ == Token::JumpIfZero || inst.typ == Token::JumpIfNonZero {
            unfolded.push(inst.typ);
        } else {
            for _ in 0..inst.argument {
                unfolded.push(inst.typ);
            }
        }
    }
    assert_eq!(unfolded, tokens);
}

#[test]
fn parse_open_and_close_counts_match() {
    let instructions = parsed("[[][]]+[-]").unwrap();
    let opens = instructions.iter().filter(|i| i.typ == Token::JumpIfZero).count();
    let closes = instructions.iter().filter(|i| i.typ == Token::JumpIfNonZero).count();
    assert_eq!(opens, 3 + 1);
    assert_eq!(opens, closes);
    for (idx, inst) in instructions.iter().enumerate() {
        if inst.typ == Token::JumpIfZero {
            let partner = instructions[inst.argument];
            assert_eq!(partner.typ, Token::JumpIfNonZero);
            assert_eq!(partner.argument, idx);
        }
    }
}

#[test]
fn compile_foldable_counts_run_and_advances() {
    let program = vec![Token::Plus, Token::Plus, Token::Minus];
    let mut pos = 0;
    let folded = compile_foldable(Token::Plus, &mut pos, &program);
    assert_eq!(folded, inst(Token::Plus, 2));
    assert_eq!(pos, 1);
    let mut pos2 = 2;
    let folded2 = compile_foldable(Token::Minus, &mut pos2, &program);
    assert_eq!(folded2, inst(Token::Minus, 1));
    assert_eq!(pos2, 2);
}
