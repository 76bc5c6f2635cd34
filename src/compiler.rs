use vstd::prelude::*;
use crate::rules::{Rules, SeparatorMode, ScopingMode, Token};
use crate::lexer::{Lexer, LexerError, LexConfig, lex, error_matches};

verus! {

/// Ties lexing rules, the two lexing policies and a unit of source code together.
pub struct Compiler {
    pub name: String,
    pub rules: Rules,
    pub code: String,
    pub path: Option<String>,
    pub separator_mode: SeparatorMode,
    pub scoping_mode: ScopingMode,
}

impl Compiler {
    pub open spec fn config(&self) -> LexConfig {
        LexConfig { rules: self.rules@, separator: self.separator_mode, scoping: self.scoping_mode }
    }

    /// A compiler with no code loaded, the placeholder path `[code]`, automatic
    /// separators and block scoping.
    pub fn new(name: &str, rules: Rules) -> (r: Compiler)
        ensures
            r.name@ == name@,
            r.rules == rules,
            r.code@ == Seq::<char>::empty(),
            r.path is Some && r.path->0@ == "[code]"@,
            r.separator_mode == SeparatorMode::Automatic,
            r.scoping_mode == ScopingMode::Block,
    {
        proof {
            reveal_strlit("[code]");
        }
        Compiler {
            name: String::from_str(name),
            rules,
            code: String::new(),
            path: Some(String::from_str("[code]")),
            separator_mode: SeparatorMode::Automatic,
            scoping_mode: ScopingMode::Block,
        }
    }

    /// Loads source code.
    pub fn load(&mut self, code: &str)
        ensures
            final(self).code@ == code@,
            final(self).name == old(self).name,
            final(self).rules == old(self).rules,
            final(self).path == old(self).path,
            final(self).separator_mode == old(self).separator_mode,
            final(self).scoping_mode == old(self).scoping_mode,
    {
        self.code = String::from_str(code);
    }

    /// Sets the path that the code came from.
    pub fn set_path(&mut self, file_path: String)
        ensures
            final(self).path == Some(file_path),
            final(self).name == old(self).name,
            final(self).rules == old(self).rules,
            final(self).code == old(self).code,
            final(self).separator_mode == old(self).separator_mode,
            final(self).scoping_mode == old(self).scoping_mode,
    {
        self.path = Some(file_path);
    }

    /// Tokenizes the loaded code.
    pub fn compile(&self) -> (r: Result<Vec<Token>, LexerError>)
        requires
            self.code@.len() < usize::MAX,
        ensures
            match lex(self.config(), self.code@) {
                Ok(toks) => r is Ok && r->Ok_0@.map_values(|t: Token| t@) == toks,
                Err(e) => r is Err && error_matches(self.rules@, self.code@, r->Err_0, e),
            },
    {
        let mut lexer = Lexer::new(self);
        match lexer.run() {
            Ok(()) => Ok(lexer.into_lexem()),
            Err(e) => Err(e),
        }
    }
}

} // verus!
