use vstd::prelude::*;
use crate::compiler::Compiler;
use crate::compound::{CompoundHandler, CompoundReaction, compound_step, progress_after};
use crate::reader::{Reader, pos_of, lemma_pos_bounded};
use crate::region::{RegionHandler, RegionReaction, region_step, stack_wf};
use crate::rules::{Rules, RulesView, SeparatorMode, ScopingMode, Token, TokenView};
use crate::text::{chars_of, push_char};

verus! {

/// Lexing rules together with the two lexing policies.
pub struct LexConfig {
    pub rules: RulesView,
    pub separator: SeparatorMode,
    pub scoping: ScopingMode,
}

/// The lexer's state between two characters.
pub struct ScanState {
    /// Open regions, innermost last: a region index and the offset where it opened.
    pub stack: Seq<(usize, usize)>,
    /// The previous character was an escape symbol that is not itself escaped.
    pub escaped: bool,
    /// The word is an indent token that may still grow.
    pub indenting: bool,
    /// Characters of the compound symbol candidate.
    pub progress: Seq<char>,
    /// Characters retained but not yet emitted, and the offset of the first one.
    pub word: Seq<char>,
    pub word_start: nat,
    /// Tokens emitted so far.
    pub tokens: Seq<TokenView>,
}

#[derive(Debug)]
pub enum LexerErrorType {
    /// An unescaped newline inside a single-line region.
    Singleline,
    /// A region left open at the end of the input.
    Unclosed,
}

/// A lexing failure: its kind, the region concerned and the offset it refers
/// to (the newline, or where the region opened).
pub struct LexFailure {
    pub kind: LexerErrorType,
    pub region: usize,
    pub at: nat,
}

pub open spec fn is_blank(c: char) -> bool {
    c == ' ' || c == '\t'
}

pub open spec fn initial_state() -> ScanState {
    ScanState {
        stack: Seq::empty(),
        escaped: false,
        indenting: false,
        progress: Seq::empty(),
        word: Seq::empty(),
        word_start: 0,
        tokens: Seq::empty(),
    }
}

/// The character after offset `i`, if any.
pub open spec fn next_char(code: Seq<char>, i: int) -> Option<char> {
    if i + 1 < code.len() {
        Some(code[i + 1])
    } else {
        None
    }
}

/// Whether the innermost context lexes its interior as code (the top level does).
pub open spec fn in_tokenized(rules: RulesView, stack: Seq<(usize, usize)>) -> bool {
    stack.len() == 0 || rules.regions[stack.last().0 as int].tokenize
}

/// Emits the word, if any, as a token. An indent token stands at the start of
/// the line it indents; any other token at its first character.
pub open spec fn flush(code: Seq<char>, st: ScanState) -> ScanState {
    if st.word.len() == 0 {
        ScanState { indenting: false, ..st }
    } else {
        let p = if st.indenting {
            pos_of(code, st.word_start + 1int)
        } else {
            pos_of(code, st.word_start as int)
        };
        ScanState {
            tokens: st.tokens.push(TokenView { text: st.word, row: p.0, col: p.1, start: st.word_start }),
            word: Seq::empty(),
            indenting: false,
            ..st
        }
    }
}

/// Retains character `c` read at offset `i` in the word.
pub open spec fn push_letter(st: ScanState, c: char, i: int) -> ScanState {
    ScanState {
        word: st.word.push(c),
        word_start: if st.word.len() == 0 {
            i as nat
        } else {
            st.word_start
        },
        ..st
    }
}

/// Emits the word, then `c` as a token of its own.
pub open spec fn emit(code: Seq<char>, st: ScanState, c: char, i: int) -> ScanState {
    flush(code, push_letter(flush(code, st), c, i))
}

/// Handling of a character in lexed context once no region or compound symbol
/// claimed it: indentation, separators, whitespace, symbols, words. `escaped`
/// tells whether the character follows an unescaped escape symbol; an escaped
/// newline is kept in the word like any other character.
pub open spec fn code_step(cfg: LexConfig, code: Seq<char>, st: ScanState, c: char, i: int, escaped: bool) -> ScanState {
    let newline = c == '\n' && !escaped;
    if cfg.scoping == ScopingMode::Indent && (newline || (st.indenting && is_blank(c))) {
        let s1 = if newline {
            ScanState { indenting: true, ..push_letter(flush(code, st), c, i) }
        } else {
            push_letter(st, c, i)
        };
        match next_char(code, i) {
            Some(n) => if !is_blank(n) {
                flush(code, s1)
            } else {
                s1
            },
            None => s1,
        }
    } else if cfg.separator == SeparatorMode::Manual && newline {
        flush(code, st)
    } else if is_blank(c) {
        flush(code, st)
    } else if cfg.rules.symbols.contains(c) || newline {
        emit(code, st, c, i)
    } else {
        push_letter(st, c, i)
    }
}

/// One character: region transitions first, then compound symbols, then the
/// rest. A character right after an unescaped escape symbol is escaped: it
/// neither opens nor closes a region, and an escaped newline is no separator.
/// An unescaped newline that is no delimiter fails inside a single-line region.
/// A newline that opens or closes a literal region is a token of its own and
/// stays out of the region's token.
pub open spec fn step(cfg: LexConfig, code: Seq<char>, st: ScanState, i: int) -> Result<ScanState, LexFailure> {
    let c = code[i];
    let rs = region_step(cfg.rules, st.stack, st.escaped, code, i);
    let s0 = ScanState { stack: rs.1, escaped: !st.escaped && c == cfg.rules.escape, ..st };
    let s1 = ScanState { progress: Seq::empty(), ..s0 };
    match rs.0 {
        RegionReaction::Begin(tokenize) => Ok(
            if tokenize || c == '\n' {
                emit(code, s1, c, i)
            } else {
                push_letter(flush(code, s1), c, i)
            },
        ),
        RegionReaction::End(tokenize) => Ok(
            if tokenize || c == '\n' {
                emit(code, s1, c, i)
            } else {
                flush(code, push_letter(s1, c, i))
            },
        ),
        RegionReaction::Pass => if rs.1.len() > 0 && c == '\n' && cfg.rules.regions[rs.1.last().0 as int].singleline
            && !st.escaped {
            Err(LexFailure { kind: LexerErrorType::Singleline, region: rs.1.last().0, at: i as nat })
        } else {
            let tokd = in_tokenized(cfg.rules, rs.1);
            let cr = compound_step(cfg.rules, st.progress, c, next_char(code, i), tokd);
            let s2 = ScanState { progress: progress_after(st.progress, c, cr), ..s0 };
            match cr {
                CompoundReaction::Begin => Ok(push_letter(flush(code, s2), c, i)),
                CompoundReaction::Keep => Ok(push_letter(s2, c, i)),
                CompoundReaction::End => Ok(flush(code, push_letter(s2, c, i))),
                CompoundReaction::Pass => if !tokd {
                    Ok(push_letter(s2, c, i))
                } else {
                    Ok(code_step(cfg, code, s2, c, i, st.escaped))
                },
            }
        },
    }
}

/// The state after the first `n` characters, or the failure met on the way.
pub open spec fn scan(cfg: LexConfig, code: Seq<char>, n: nat) -> Result<ScanState, LexFailure>
    decreases n,
{
    if n == 0 {
        Ok(initial_state())
    } else {
        match scan(cfg, code, (n - 1) as nat) {
            Ok(st) => step(cfg, code, st, n - 1),
            Err(e) => Err(e),
        }
    }
}

/// The tokens of `code`, or the first failure: a single-line violation met while
/// scanning, else the outermost region left open at the end.
pub open spec fn lex(cfg: LexConfig, code: Seq<char>) -> Result<Seq<TokenView>, LexFailure> {
    match scan(cfg, code, code.len()) {
        Err(e) => Err(e),
        Ok(st) => {
            let f = flush(code, st);
            if f.stack.len() > 0 {
                Err(LexFailure { kind: LexerErrorType::Unclosed, region: f.stack[0].0, at: f.stack[0].1 as nat })
            } else {
                Ok(f.tokens)
            }
        },
    }
}

/// A lexing error as returned: its kind, the region concerned (index and name)
/// and the (row, column) it refers to.
#[derive(Debug)]
pub struct LexerError {
    pub kind: LexerErrorType,
    pub region: usize,
    pub name: String,
    pub pos: (usize, usize),
}

pub open spec fn error_matches(rules: RulesView, code: Seq<char>, e: LexerError, f: LexFailure) -> bool {
    &&& e.kind == f.kind
    &&& e.region == f.region
    &&& e.name@ == rules.regions[f.region as int].name
    &&& (e.pos.0 as nat, e.pos.1 as nat) == pos_of(code, f.at as int)
}

/// Scanning stops at the first failure: once a prefix fails, every longer one
/// fails the same way.
pub proof fn lemma_scan_failure_sticks(cfg: LexConfig, code: Seq<char>, k: nat, m: nat)
    requires
        k <= m,
        scan(cfg, code, k) is Err,
    ensures
        scan(cfg, code, m) == scan(cfg, code, k),
    decreases m - k,
{
    if k < m {
        lemma_scan_failure_sticks(cfg, code, k, (m - 1) as nat);
    }
}

fn contains(v: &Vec<char>, c: char) -> (r: bool)
    ensures
        r == v@.contains(c),
{
    let mut k: usize = 0;
    while k < v.len()
        invariant
            k <= v@.len(),
            forall|j: int| 0 <= j < k ==> v@[j] != c,
        decreases v@.len() - k,
    {
        if v[k] == c {
            return true;
        }
        k = k + 1;
    }
    false
}

/// Turns source code into tokens under a compiler's rules and policies.
pub struct Lexer<'a> {
    rules: &'a Rules,
    compound: CompoundHandler<'a>,
    region: RegionHandler<'a>,
    reader: Reader,
    /// The tokens produced so far.
    pub lexem: Vec<Token>,
    separator_mode: SeparatorMode,
    scoping_mode: ScopingMode,
    is_escaped: bool,
    is_indenting: bool,
    word: String,
    /// Position and offset of the word's first character.
    position: (usize, usize),
    token_start_index: usize,
}

impl<'a> Lexer<'a> {
    pub closed spec fn config(&self) -> LexConfig {
        LexConfig { rules: self.rules@, separator: self.separator_mode, scoping: self.scoping_mode }
    }

    pub closed spec fn code(&self) -> Seq<char> {
        self.reader.text()
    }

    pub closed spec fn consumed(&self) -> nat {
        self.reader.consumed()
    }

    pub closed spec fn tokens(&self) -> Seq<TokenView> {
        self.lexem@.map_values(|t: Token| t@)
    }

    pub closed spec fn state(&self) -> ScanState {
        ScanState {
            stack: self.region.stack(),
            escaped: self.is_escaped,
            indenting: self.is_indenting,
            progress: self.compound.progress(),
            word: self.word@,
            word_start: self.token_start_index as nat,
            tokens: self.tokens(),
        }
    }

    pub closed spec fn wf(&self) -> bool {
        &&& self.reader.wf()
        &&& self.region.rules() == self.rules@
        &&& self.compound.rules() == self.rules@
        &&& stack_wf(self.rules@, self.region.stack(), self.consumed() as int)
        &&& self.word@.len() > 0 ==> self.token_start_index < self.consumed() && (
        self.position.0 as nat,
        self.position.1 as nat,
        ) == pos_of(self.code(), self.token_start_index as int)
        &&& self.is_indenting ==> self.word@.len() > 0 && self.code()[self.token_start_index as int]
            == '\n'
    }

    /// Nothing has been read yet.
    pub closed spec fn fresh(&self) -> bool {
        self.wf() && self.consumed() == 0 && self.state() == initial_state()
    }

    closed spec fn same_parts(&self, o: &Self) -> bool {
        &&& self.reader == o.reader
        &&& self.region == o.region
        &&& self.compound == o.compound
        &&& self.rules == o.rules
        &&& self.separator_mode == o.separator_mode
        &&& self.scoping_mode == o.scoping_mode
        &&& self.is_escaped == o.is_escaped
    }

    /// A lexer over the compiler's code, rules and policies.
    pub fn new(cc: &'a Compiler) -> (r: Lexer<'a>)
        requires
            cc.code@.len() < usize::MAX,
        ensures
            r.fresh(),
            r.wf(),
            r.tokens() == Seq::<TokenView>::empty(),
            r.config() == cc.config(),
            r.code() == cc.code@,
    {
        let code = chars_of(cc.code.as_str());
        let r = Lexer {
            rules: &cc.rules,
            compound: CompoundHandler::new(&cc.rules),
            region: RegionHandler::new(&cc.rules),
            reader: Reader::new(code),
            lexem: Vec::new(),
            separator_mode: cc.separator_mode,
            scoping_mode: cc.scoping_mode,
            is_escaped: false,
            is_indenting: false,
            word: String::new(),
            position: (0, 0),
            token_start_index: 0,
        };
        assert(r.tokens() =~= Seq::<TokenView>::empty());
        assert(r.state() == initial_state());
        r
    }

    /// Emits the indent word as a token standing at the start of the line it indents.
    fn add_indent(&mut self)
        requires
            old(self).wf(),
            old(self).is_indenting,
        ensures
            final(self).wf(),
            final(self).same_parts(old(self)),
            final(self).state() == flush(old(self).code(), old(self).state()),
    {
        proof {
            lemma_pos_bounded(self.code(), self.token_start_index as int);
            self.reader.lemma_bounds();
        }
        let word = self.word.clone();
        self.word = String::new();
        let ghost before = self.lexem@;
        self.lexem.push(Token { word, pos: (self.position.0 + 1, 1), start: self.token_start_index });
        assert(self.lexem@.map_values(|t: Token| t@) =~= before.map_values(|t: Token| t@).push(
            self.lexem@.last()@,
        ));
        self.is_indenting = false;
    }

    /// Emits the word, if any, as a token.
    fn add_word(&mut self)
        requires
            old(self).wf(),
        ensures
            final(self).wf(),
            final(self).same_parts(old(self)),
            final(self).state() == flush(old(self).code(), old(self).state()),
    {
        if self.is_indenting {
            self.add_indent();
        } else if !self.word.as_str().is_empty() {
            let word = self.word.clone();
            self.word = String::new();
            let ghost before = self.lexem@;
            self.lexem.push(Token { word, pos: self.position, start: self.token_start_index });
            assert(self.lexem@.map_values(|t: Token| t@) =~= before.map_values(|t: Token| t@).push(
                self.lexem@.last()@,
            ));
        }
    }

    /// Retains the character last read in the word.
    fn word_push(&mut self, letter: char)
        requires
            old(self).wf(),
            old(self).consumed() > 0,
        ensures
            final(self).wf(),
            final(self).same_parts(old(self)),
            final(self).state() == push_letter(old(self).state(), letter, old(self).consumed() - 1),
    {
        if self.word.as_str().is_empty() {
            self.token_start_index = self.reader.get_index();
            self.position = self.reader.get_position();
        }
        push_char(&mut self.word, letter);
    }

    /// Emits the word, then the character last read as a token of its own.
    fn pattern_add_symbol(&mut self, letter: char)
        requires
            old(self).wf(),
            old(self).consumed() > 0,
        ensures
            final(self).wf(),
            final(self).same_parts(old(self)),
            final(self).state() == emit(old(self).code(), old(self).state(), letter, old(self).consumed() - 1),
    {
        self.add_word();
        self.word_push(letter);
        self.add_word();
    }

    /// Emits the word and starts a new one with the character last read.
    fn pattern_begin(&mut self, letter: char)
        requires
            old(self).wf(),
            old(self).consumed() > 0,
        ensures
            final(self).wf(),
            final(self).same_parts(old(self)),
            final(self).state() == push_letter(
                flush(old(self).code(), old(self).state()),
                letter,
                old(self).consumed() - 1,
            ),
    {
        self.add_word();
        self.word_push(letter);
    }

    /// Ends the word with the character last read and emits it.
    fn pattern_end(&mut self, letter: char)
        requires
            old(self).wf(),
            old(self).consumed() > 0,
        ensures
            final(self).wf(),
            final(self).same_parts(old(self)),
            final(self).state() == flush(
                old(self).code(),
                push_letter(old(self).state(), letter, old(self).consumed() - 1),
            ),
    {
        self.word_push(letter);
        self.add_word();
    }

    /// Whether the innermost context lexes its interior as code and `reaction`
    /// neither opened nor closed a region.
    pub fn is_tokenized_region(&self, reaction: &RegionReaction) -> (r: bool)
        requires
            self.wf(),
        ensures
            r == (in_tokenized(self.config().rules, self.state().stack) && *reaction
                == RegionReaction::Pass),
    {
        self.region.is_tokenized() && *reaction == RegionReaction::Pass
    }

    fn code_step(&mut self, letter: char, escaped: bool)
        requires
            old(self).wf(),
            old(self).consumed() > 0,
            letter == old(self).code()[old(self).consumed() - 1],
        ensures
            final(self).wf(),
            final(self).same_parts(old(self)),
            final(self).state() == code_step(
                old(self).config(),
                old(self).code(),
                old(self).state(),
                letter,
                old(self).consumed() - 1,
                escaped,
            ),
    {
        let blank = letter == ' ' || letter == '\t';
        let newline = letter == '\n' && !escaped;
        if self.scoping_mode == ScopingMode::Indent && (newline || (self.is_indenting && blank)) {
            if newline {
                self.pattern_begin(letter);
                self.is_indenting = true;
            } else {
                self.word_push(letter);
            }
            match self.reader.peek() {
                Some(n) => {
                    if !(n == ' ' || n == '\t') {
                        self.add_word();
                    }
                },
                None => {},
            }
        } else if self.separator_mode == SeparatorMode::Manual && newline {
            self.add_word();
        } else if blank {
            self.add_word();
        } else if contains(&self.rules.symbols, letter) || newline {
            self.pattern_add_symbol(letter);
        } else {
            self.word_push(letter);
        }
    }

    /// Handles the character last read.
    fn step(&mut self, letter: char) -> (r: Result<(), LexerError>)
        requires
            old(self).wf(),
            old(self).consumed() > 0,
            letter == old(self).code()[old(self).consumed() - 1],
            stack_wf(old(self).config().rules, old(self).state().stack, old(self).consumed() - 1),
        ensures
            final(self).wf(),
            final(self).config() == old(self).config(),
            final(self).code() == old(self).code(),
            final(self).consumed() == old(self).consumed(),
            match step(old(self).config(), old(self).code(), old(self).state(), old(self).consumed() - 1) {
                Ok(s) => r is Ok && final(self).state() == s,
                Err(f) => r is Err && error_matches(old(self).config().rules, old(self).code(), r->Err_0, f),
            },
    {
        let was_escaped = self.is_escaped;
        let reaction = self.region.handle_region(&self.reader, was_escaped);
        self.is_escaped = !was_escaped && letter == self.rules.escape_symbol;
        match reaction {
            RegionReaction::Begin(tokenize) => {
                self.compound.reset();
                if tokenize || letter == '\n' {
                    self.pattern_add_symbol(letter);
                } else {
                    self.pattern_begin(letter);
                }
                Ok(())
            },
            RegionReaction::End(tokenize) => {
                self.compound.reset();
                if tokenize || letter == '\n' {
                    self.pattern_add_symbol(letter);
                } else {
                    self.pattern_end(letter);
                }
                Ok(())
            },
            RegionReaction::Pass => {
                match self.region.get_region() {
                    Some(top) => {
                        if letter == '\n' && self.rules.regions[top].singleline && !was_escaped {
                            return Err(
                                LexerError {
                                    kind: LexerErrorType::Singleline,
                                    region: top,
                                    name: self.rules.regions[top].name.clone(),
                                    pos: self.reader.get_position(),
                                },
                            );
                        }
                    },
                    None => {},
                }
                let tokenized = self.is_tokenized_region(&reaction);
                match self.compound.handle_compound(letter, &self.reader, tokenized) {
                    CompoundReaction::Begin => self.pattern_begin(letter),
                    CompoundReaction::Keep => self.word_push(letter),
                    CompoundReaction::End => self.pattern_end(letter),
                    CompoundReaction::Pass => {
                        if !tokenized {
                            self.word_push(letter);
                        } else {
                            self.code_step(letter, was_escaped);
                        }
                    },
                }
                Ok(())
            },
        }
    }

    /// The tokens produced, handed over.
    pub fn into_lexem(self) -> (r: Vec<Token>)
        ensures
            r@.map_values(|t: Token| t@) == self.tokens(),
    {
        self.lexem
    }

    /// Tokenizes the whole code; the tokens are left in `lexem`.
    pub fn run(&mut self) -> (r: Result<(), LexerError>)
        requires
            old(self).fresh(),
        ensures
            final(self).wf(),
            final(self).config() == old(self).config(),
            final(self).code() == old(self).code(),
            match lex(old(self).config(), old(self).code()) {
                Ok(toks) => r is Ok && final(self).tokens() == toks,
                Err(f) => r is Err && error_matches(old(self).config().rules, old(self).code(), r->Err_0, f),
            },
    {
        let ghost cfg = self.config();
        let ghost code = self.code();
        loop
            invariant
                cfg == old(self).config(),
                code == old(self).code(),
                self.wf(),
                self.config() == cfg,
                self.code() == code,
                self.consumed() <= code.len(),
                scan(cfg, code, self.consumed()) == Ok::<ScanState, LexFailure>(self.state()),
            ensures
                self.wf(),
                self.config() == cfg,
                self.code() == code,
                self.consumed() == code.len(),
                scan(cfg, code, self.consumed()) == Ok::<ScanState, LexFailure>(self.state()),
            decreases code.len() - self.consumed(),
        {
            let ghost st0 = self.state();
            let ghost m = self.consumed();
            match self.reader.next() {
                None => break,
                Some(letter) => {
                    let ghost n = self.consumed();
                    assert(self.state() == st0);
                    let res = self.step(letter);
                    match res {
                        Err(e) => {
                            proof {
                                assert(scan(cfg, code, n) == step(cfg, code, st0, m as int));
                                lemma_scan_failure_sticks(cfg, code, n, code.len());
                            }
                            return Err(e);
                        },
                        Ok(()) => {},
                    }
                },
            }
        }
        proof {
            self.reader.lemma_bounds();
        }
        self.add_word();
        match self.region.outermost() {
            Some(open) => {
                assert(self.rules@.regions[open.0 as int] == self.rules.regions@[open.0 as int]@);
                let pos = self.reader.position_of(open.1);
                Err(
                    LexerError {
                        kind: LexerErrorType::Unclosed,
                        region: open.0,
                        name: self.rules.regions[open.0].name.clone(),
                        pos,
                    },
                )
            },
            None => Ok(()),
        }
    }
}

} // verus!
