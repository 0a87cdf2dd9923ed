//! Lexical filtering: every character of the source text either lexes to one
//! of the eight operator tokens or is dropped silently, in order, with no
//! error and no position tracking.

use vstd::prelude::*;

verus! {

/// The eight operation kinds of the source language, one per recognized
/// character: `+ - > < . , [ ]`.
#[derive(PartialEq, Eq, Structural, Copy, Clone, Debug)]
pub enum Token {
    Plus,
    Minus,
    Right,
    Left,
    PutChar,
    ReadChar,
    JumpIfZero,
    JumpIfNonZero,
}

/// The token a source character lexes to, if any; every other character is
/// skipped as commentary.
pub open spec fn token_of_char(c: char) -> Option<Token> {
    if c == '+' {
        Some(Token::Plus)
    } else if c == '-' {
        Some(Token::Minus)
    } else if c == '>' {
        Some(Token::Right)
    } else if c == '<' {
        Some(Token::Left)
    } else if c == '.' {
        Some(Token::PutChar)
    } else if c == ',' {
        Some(Token::ReadChar)
    } else if c == '[' {
        Some(Token::JumpIfZero)
    } else if c == ']' {
        Some(Token::JumpIfNonZero)
    } else {
        None
    }
}

/// The token sequence of a source text: the tokens of its operator
/// characters, in source order.
pub open spec fn lexed(s: Seq<char>) -> Seq<Token>
    decreases s.len(),
{
    if s.len() == 0 {
        Seq::empty()
    } else {
        lexed(s.drop_last()) + match token_of_char(s.last()) {
            Some(t) => seq![t],
            None => Seq::<Token>::empty(),
        }
    }
}

/// Filters the source text down to its operator tokens, in order.
/// Lexing is total: any text is accepted, so the result is always `Ok`.
pub fn lex_program(program: String) -> (r: Result<Vec<Token>, crate::parse::ParseError>)
    ensures
        r matches Ok(tokens) && tokens@ == lexed(program@),
{
    let mut tokens: Vec<Token> = Vec::new();
    let n = program.as_str().unicode_len();
    let mut i: usize = 0;
    while i < n
        invariant
            n == program@.len(),
            i <= n,
            tokens@ == lexed(program@.subrange(0, i as int)),
        decreases n - i,
    {
        let c = program.as_str().get_char(i);
        proof {
            assert(program@.subrange(0, i + 1).drop_last() =~= program@.subrange(0, i as int));
            assert(program@.subrange(0, i + 1).last() == program@[i as int]);
        }
        match c {
            '+' => tokens.push(Token::Plus),
            '-' => tokens.push(Token::Minus),
            '>' => tokens.push(Token::Right),
            '<' => tokens.push(Token::Left),
            '.' => tokens.push(Token::PutChar),
            ',' => tokens.push(Token::ReadChar),
            '[' => tokens.push(Token::JumpIfZero),
            ']' => tokens.push(Token::JumpIfNonZero),
            _ => (),
        }
        assert(tokens@ =~= lexed(program@.subrange(0, i + 1)));
        i += 1;
    }
    proof {
        assert(program@.subrange(0, n as int) =~= program@);
    }
    Ok(tokens)
}

/// A source text of non-operator characters only lexes to no tokens at all.
pub proof fn lemma_lex_non_operator(s: Seq<char>)
    requires
        forall|i: int| 0 <= i < s.len() ==> token_of_char(s[i]) is None,
    ensures
        lexed(s).len() == 0,
    decreases s.len(),
{
    if s.len() > 0 {
        assert(forall|i: int| 0 <= i < s.drop_last().len() ==> token_of_char(s.drop_last()[i]) is None);
        lemma_lex_non_operator(s.drop_last());
    }
}

} // verus!
