use vstd::prelude::*;
use crate::rules::Token;

verus! {

/// What parsing a syntax module returns.
pub type SyntaxResult = Result<(), ()>;

/// A cursor over tokens, with the path they came from, that parsing moves
/// forward and rolls back.
pub struct SyntaxMetadata {
    pub expr: Vec<Token>,
    pub index: usize,
    pub path: Option<String>,
}

impl SyntaxMetadata {
    pub fn new(expr: Vec<Token>, path: Option<String>) -> (r: SyntaxMetadata)
        ensures
            r.expr == expr,
            r.index == 0,
            r.path == path,
    {
        SyntaxMetadata { expr, index: 0, path }
    }
}

/// A node of the syntax tree that can parse itself from tokens.
pub trait SyntaxModule<M>: Sized {
    fn new() -> Self;

    fn parse(&mut self, meta: &mut M) -> SyntaxResult;
}

/// Matches the token under the cursor against `text`: on a match the cursor
/// moves past it and its text is returned; otherwise nothing changes.
pub fn token(meta: &mut SyntaxMetadata, text: &str) -> (r: Result<String, ()>)
    ensures
        ({
            let m = *old(meta);
            if m.index < m.expr@.len() && m.expr@[m.index as int].word@ == text@ {
                &&& r is Ok
                &&& r->Ok_0@ == text@
                &&& final(meta).index == m.index + 1
                &&& final(meta).expr == m.expr
                &&& final(meta).path == m.path
            } else {
                r is Err && *final(meta) == m
            }
        }),
{
    if meta.index < meta.expr.len() {
        let wanted = String::from_str(text);
        if meta.expr[meta.index].word == wanted {
            let word = meta.expr[meta.index].word.clone();
            meta.index = meta.index + 1;
            return Ok(word);
        }
    }
    Err(())
}

/// Parses `module` at the cursor; on failure the cursor goes back to where it was.
pub fn syntax<M: SyntaxModule<SyntaxMetadata>>(meta: &mut SyntaxMetadata, module: &mut M) -> (r: SyntaxResult)
    ensures
        r is Err ==> final(meta).index == old(meta).index,
{
    let index = meta.index;
    match module.parse(meta) {
        Ok(()) => Ok(()),
        Err(()) => {
            meta.index = index;
            Err(())
        },
    }
}

} // verus!
