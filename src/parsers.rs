use vstd::prelude::*;
use crate::scope::InstructionEnum;

verus! {

/// The tokens a line's grammar looks at.
#[derive(Clone, Copy, Debug, PartialEq, Eq, Structural)]
pub enum TokenTable {
    Tab,
    Comment,
    NumberLiteral(i64),
    /// The "repeat N times" keyword that follows the count.
    KeywordNDefaTekrarla,
}

/// The repeat header: a number literal followed by the repeat keyword, nothing else.
pub open spec fn repeat_header(tokens: Seq<TokenTable>) -> Option<i64> {
    if tokens.len() == 2 && tokens[1] == TokenTable::KeywordNDefaTekrarla {
        match tokens[0] {
            TokenTable::NumberLiteral(n) => Some(n),
            _ => None,
        }
    } else {
        None
    }
}

/// Recognises a repeat header; its body scope is filled in when the tree is built.
pub fn parser(tokens: &Vec<TokenTable>) -> (r: Option<InstructionEnum>)
    ensures
        match repeat_header(tokens@) {
            Some(n) => r == Some(InstructionEnum::Repeat { repeat_count: n, scope_pointer: 0 }),
            None => r is None,
        },
{
    if tokens.len() != 2 || tokens[1] != TokenTable::KeywordNDefaTekrarla {
        return None;
    }
    match tokens[0] {
        TokenTable::NumberLiteral(n) => Some(InstructionEnum::Repeat { repeat_count: n, scope_pointer: 0 }),
        _ => None,
    }
}

/// Leading indentation tokens of a line.
pub fn count_tabs(tokens: &Vec<TokenTable>) -> (r: usize)
    ensures
        r <= tokens@.len(),
        forall|k: int| 0 <= k < r ==> tokens@[k] == TokenTable::Tab,
        r < tokens@.len() ==> tokens@[r as int] != TokenTable::Tab,
{
    let mut i: usize = 0;
    while i < tokens.len() && tokens[i] == TokenTable::Tab
        invariant
            i <= tokens@.len(),
            forall|k: int| 0 <= k < i ==> tokens@[k] == TokenTable::Tab,
        decreases tokens@.len() - i,
    {
        i = i + 1;
    }
    i
}

} // verus!
