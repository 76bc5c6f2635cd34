use vstd::prelude::*;
use crate::text::chars_of;

verus! {

/// How bare newlines end statements.
#[derive(Clone, Copy, Debug, PartialEq, Eq, Structural)]
pub enum SeparatorMode {
    /// Newlines are whitespace; statements end with an explicit symbol.
    Manual,
    /// Newlines are emitted as tokens.
    Automatic,
}

/// How blocks are delimited.
#[derive(Clone, Copy, Debug, PartialEq, Eq, Structural)]
pub enum ScopingMode {
    /// By explicit symbols of the grammar.
    Block,
    /// By indentation: a newline and the spaces and tabs after it form one token.
    Indent,
}

/// A lexically delimited span of text (a string literal, a comment, an interpolation).
pub struct Region {
    pub name: String,
    pub begin: Vec<char>,
    pub end: Vec<char>,
    /// Delimiters become tokens of their own and the interior is lexed as code.
    pub tokenize: bool,
    /// An unescaped newline may not occur inside the region.
    pub singleline: bool,
    /// Indices (into the rules' region table) of the regions that may open inside this one.
    pub children: Vec<usize>,
}

pub struct RegionView {
    pub name: Seq<char>,
    pub begin: Seq<char>,
    pub end: Seq<char>,
    pub tokenize: bool,
    pub singleline: bool,
    pub children: Seq<usize>,
}

impl View for Region {
    type V = RegionView;

    open spec fn view(&self) -> RegionView {
        RegionView {
            name: self.name@,
            begin: self.begin@,
            end: self.end@,
            tokenize: self.tokenize,
            singleline: self.singleline,
            children: self.children@,
        }
    }
}

impl Region {
    /// A region that collapses into one literal token and may span lines.
    pub fn new(name: &str, begin: &str, end: &str) -> (r: Region)
        ensures
            r@ == (RegionView {
                name: name@,
                begin: begin@,
                end: end@,
                tokenize: false,
                singleline: false,
                children: Seq::empty(),
            }),
    {
        Region {
            name: String::from_str(name),
            begin: chars_of(begin),
            end: chars_of(end),
            tokenize: false,
            singleline: false,
            children: Vec::new(),
        }
    }

    pub fn with_tokenize(self, tokenize: bool) -> (r: Region)
        ensures
            r@ == (RegionView { tokenize, ..self@ }),
    {
        Region { tokenize, ..self }
    }

    pub fn with_singleline(self, singleline: bool) -> (r: Region)
        ensures
            r@ == (RegionView { singleline, ..self@ }),
    {
        Region { singleline, ..self }
    }

    pub fn with_children(self, children: Vec<usize>) -> (r: Region)
        ensures
            r@ == (RegionView { children: children@, ..self@ }),
    {
        Region { children, ..self }
    }
}

/// Lexing rules: single-character symbols, multi-character compound symbols,
/// a table of regions and the regions that may open at the top level.
pub struct Rules {
    pub symbols: Vec<char>,
    pub compounds: Vec<Vec<char>>,
    pub regions: Vec<Region>,
    /// Indices of the regions that may open outside any region.
    pub global: Vec<usize>,
    pub escape_symbol: char,
}

pub struct RulesView {
    pub symbols: Seq<char>,
    pub compounds: Seq<Seq<char>>,
    pub regions: Seq<RegionView>,
    pub global: Seq<usize>,
    pub escape: char,
}

impl View for Rules {
    type V = RulesView;

    open spec fn view(&self) -> RulesView {
        RulesView {
            symbols: self.symbols@,
            compounds: self.compounds@.map_values(|c: Vec<char>| c@),
            regions: self.regions@.map_values(|r: Region| r@),
            global: self.global@,
            escape: self.escape_symbol,
        }
    }
}

impl Rules {
    /// Rules with `\` as the escape symbol.
    pub fn new(symbols: Vec<char>, compounds: Vec<Vec<char>>, regions: Vec<Region>, global: Vec<usize>) -> (r: Rules)
        ensures
            r.symbols@ == symbols@,
            r.compounds@ == compounds@,
            r.regions@ == regions@,
            r.global@ == global@,
            r.escape_symbol == '\\',
    {
        Rules { symbols, compounds, regions, global, escape_symbol: '\\' }
    }
}

/// A token: its text, the (row, column) where it stands and the offset of its
/// first character in the source.
#[derive(Debug)]
pub struct Token {
    pub word: String,
    pub pos: (usize, usize),
    pub start: usize,
}

pub struct TokenView {
    pub text: Seq<char>,
    pub row: nat,
    pub col: nat,
    pub start: nat,
}

impl View for Token {
    type V = TokenView;

    open spec fn view(&self) -> TokenView {
        TokenView {
            text: self.word@,
            row: self.pos.0 as nat,
            col: self.pos.1 as nat,
            start: self.start as nat,
        }
    }
}

} // verus!
