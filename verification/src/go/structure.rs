//! Structural integrity scan of Go source: every literal and comment closes,
//! and brackets nest properly outside them.
use crate::go::lex::{
    lemma_comment_close, lemma_string_close, noise_token, try_skip_noise_token, Unclosed,
    CLOSE_BRACE, CLOSE_BRACKET, CLOSE_PAREN, OPEN_BRACE, OPEN_BRACKET, OPEN_PAREN,
};
use vstd::prelude::*;

verus! {

/// Why a source file fails the structural scan.
#[derive(Debug, Clone, Copy, PartialEq, Eq, Structural)]
pub enum StructureProblem {
    UnclosedString,
    UnclosedComment,
    UnbalancedBraces,
}

/// The message reported for a structural problem.
pub open spec fn problem_text(p: StructureProblem) -> Seq<char> {
    match p {
        StructureProblem::UnclosedString => "unclosed string"@,
        StructureProblem::UnclosedComment => "unclosed comment"@,
        StructureProblem::UnbalancedBraces => "unbalanced braces"@,
    }
}

/// `(`, `[` or `{`.
pub open spec fn is_opener(c: u8) -> bool {
    c == OPEN_PAREN || c == OPEN_BRACKET || c == OPEN_BRACE
}

/// `)`, `]` or `}`.
pub open spec fn is_closer(c: u8) -> bool {
    c == CLOSE_PAREN || c == CLOSE_BRACKET || c == CLOSE_BRACE
}

/// `close` is the partner of `open`.
pub open spec fn closes(open: u8, close: u8) -> bool {
    (open == OPEN_PAREN && close == CLOSE_PAREN) || (open == OPEN_BRACKET && close == CLOSE_BRACKET)
        || (open == OPEN_BRACE && close == CLOSE_BRACE)
}

/// Outcome of scanning `b` from `i` with the brackets in `stack` still open.
pub open spec fn structure_from(b: Seq<u8>, i: int, stack: Seq<u8>) -> Result<(), StructureProblem>
    decreases b.len() - i,
{
    if 0 <= i < b.len() {
        proof {
            lemma_comment_close(b, i);
            lemma_string_close(b, i);
        }
        match noise_token(b, i) {
            Some(Ok(e)) => structure_from(b, e, stack),
            Some(Err(Unclosed::String)) => Err(StructureProblem::UnclosedString),
            Some(Err(Unclosed::Comment)) => Err(StructureProblem::UnclosedComment),
            None => {
                let c = b[i];
                if is_opener(c) {
                    structure_from(b, i + 1, stack.push(c))
                } else if is_closer(c) {
                    if stack.len() > 0 && closes(stack.last(), c) {
                        structure_from(b, i + 1, stack.drop_last())
                    } else {
                        Err(StructureProblem::UnbalancedBraces)
                    }
                } else {
                    structure_from(b, i + 1, stack)
                }
            },
        }
    } else if stack.len() == 0 {
        Ok(())
    } else {
        Err(StructureProblem::UnbalancedBraces)
    }
}

/// Outcome of the structural scan of a whole source file.
pub open spec fn structure_check(b: Seq<u8>) -> Result<(), StructureProblem> {
    structure_from(b, 0, Seq::empty())
}

fn problem_message(p: StructureProblem) -> (m: &'static str)
    ensures
        m@ == problem_text(p),
{
    match p {
        StructureProblem::UnclosedString => "unclosed string",
        StructureProblem::UnclosedComment => "unclosed comment",
        StructureProblem::UnbalancedBraces => "unbalanced braces",
    }
}

fn is_open_byte(c: u8) -> (r: bool)
    ensures
        r == is_opener(c),
{
    c == OPEN_PAREN || c == OPEN_BRACKET || c == OPEN_BRACE
}

fn is_close_byte(c: u8) -> (r: bool)
    ensures
        r == is_closer(c),
{
    c == CLOSE_PAREN || c == CLOSE_BRACKET || c == CLOSE_BRACE
}

fn pairs_with(open: u8, close: u8) -> (r: bool)
    ensures
        r == closes(open, close),
{
    (open == OPEN_PAREN && close == CLOSE_PAREN) || (open == OPEN_BRACKET && close == CLOSE_BRACKET)
        || (open == OPEN_BRACE && close == CLOSE_BRACE)
}

fn scan_structure(bytes: &[u8]) -> (r: Result<(), StructureProblem>)
    ensures
        r == structure_check(bytes@),
{
    let mut stack: Vec<u8> = Vec::new();
    let mut i: usize = 0;
    while i < bytes.len()
        invariant
            i <= bytes.len(),
            structure_from(bytes@, i as int, stack@) == structure_check(bytes@),
        decreases bytes.len() - i,
    {
        proof {
            lemma_comment_close(bytes@, i as int);
            lemma_string_close(bytes@, i as int);
        }
        match try_skip_noise_token(bytes, i) {
            Some(Ok(next)) => {
                i = next;
                continue;
            },
            Some(Err(Unclosed::String)) => {
                return Err(StructureProblem::UnclosedString);
            },
            Some(Err(Unclosed::Comment)) => {
                return Err(StructureProblem::UnclosedComment);
            },
            None => {},
        }
        let c = bytes[i];
        if is_open_byte(c) {
            stack.push(c);
        } else if is_close_byte(c) {
            let n = stack.len();
            if n > 0 && pairs_with(stack[n - 1], c) {
                stack.pop();
            } else {
                return Err(StructureProblem::UnbalancedBraces);
            }
        }
        i = i + 1;
    }
    if stack.len() == 0 {
        Ok(())
    } else {
        Err(StructureProblem::UnbalancedBraces)
    }
}

/// Checks that every string literal and block comment closes and that
/// `()`, `[]` and `{}` nest properly outside them.
pub fn validate_structure(bytes: &[u8]) -> (r: Result<(), &'static str>)
    ensures
        r is Ok <==> structure_check(bytes@) is Ok,
        r matches Err(m) ==> (structure_check(bytes@) matches Err(p) && m@ == problem_text(p)),
{
    match scan_structure(bytes) {
        Ok(()) => Ok(()),
        Err(p) => Err(problem_message(p)),
    }
}

} // verus!
