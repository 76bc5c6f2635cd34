use heraclitus_compiler::compiler::Compiler;
use heraclitus_compiler::lexer::{Lexer, LexerErrorType};
use heraclitus_compiler::logger::{Log, LogType};
use heraclitus_compiler::reader::Reader;
use heraclitus_compiler::region::RegionReaction;
use heraclitus_compiler::rules::{Region, Rules, ScopingMode, SeparatorMode, Token};
use heraclitus_compiler::text::chars_of;

fn words(tokens: &[Token]) -> Vec<(String, usize, usize)> {
    tokens.iter().map(|t| (t.word.clone(), t.pos.0, t.pos.1)).collect()
}

fn compile(rules: Rules, code: &str) -> Result<Vec<Token>, heraclitus_compiler::lexer::LexerError> {
    let mut cc = Compiler::new("Test", rules);
    cc.load(code);
    cc.compile()
}

#[test]
fn compound_symbols_are_matched_greedily() {
    let rules = Rules::new(vec!['='], vec![vec!['=', '='], vec!['-', '>', '>']], vec![], vec![]);
    let toks = compile(rules, "a == b ->> c = d").unwrap();
    let expected: Vec<(String, usize, usize)> = vec![
        ("a".to_string(), 1, 1),
        ("==".to_string(), 1, 3),
        ("b".to_string(), 1, 6),
        ("->>".to_string(), 1, 8),
        ("c".to_string(), 1, 12),
        ("=".to_string(), 1, 14),
        ("d".to_string(), 1, 16),
    ];
    assert_eq!(words(&toks), expected);
}

#[test]
fn broken_compound_is_not_retried() {
    let rules = Rules::new(vec![], vec![vec!['-', '-', '>']], vec![], vec![]);
    let toks = compile(rules, "--x").unwrap();
    assert_eq!(words(&toks), vec![("--x".to_string(), 1, 1)]);
}

#[test]
fn singleline_region_rejects_newline() {
    let regions = vec![Region::new("String", "'", "'").with_singleline(true)];
    let rules = Rules::new(vec![], vec![], regions, vec![0]);
    let err = compile(rules, "a 'b\nc'").err().unwrap();
    assert!(matches!(err.kind, LexerErrorType::Singleline));
    assert_eq!(err.region, 0);
    assert_eq!(err.name, "String".to_string());
    assert_eq!(err.pos, (1, 5));
}

#[test]
fn singleline_region_accepts_escaped_newline() {
    let regions = vec![Region::new("String", "'", "'").with_singleline(true)];
    let rules = Rules::new(vec![], vec![], regions, vec![0]);
    let toks = compile(rules, "'a\\\nb'").unwrap();
    assert_eq!(words(&toks), vec![("'a\\\nb'".to_string(), 1, 1)]);
}

#[test]
fn unclosed_region_reports_where_it_opened() {
    let regions = vec![Region::new("String", "'", "'")];
    let rules = Rules::new(vec![], vec![], regions, vec![0]);
    let err = compile(rules, "x 'abc").err().unwrap();
    assert!(matches!(err.kind, LexerErrorType::Unclosed));
    assert_eq!(err.region, 0);
    assert_eq!(err.name, "String".to_string());
    assert_eq!(err.pos, (1, 3));
}

#[test]
fn outermost_unclosed_region_is_reported() {
    let regions = vec![
        Region::new("String", "'", "'").with_children(vec![1]),
        Region::new("Interp", "{", "}").with_tokenize(true).with_children(vec![0]),
    ];
    let rules = Rules::new(vec![], vec![], regions, vec![0]);
    let err = compile(rules, "ab\n 'x {y").err().unwrap();
    assert!(matches!(err.kind, LexerErrorType::Unclosed));
    assert_eq!(err.region, 0);
    assert_eq!(err.pos, (2, 2));
}

#[test]
fn even_escape_run_leaves_delimiter_active() {
    let regions = vec![Region::new("String", "\"", "\"")];
    let rules = Rules::new(vec![], vec![], regions, vec![0]);
    let toks = compile(rules, "\"a\\\\\" b").unwrap();
    assert_eq!(words(&toks), vec![("\"a\\\\\"".to_string(), 1, 1), ("b".to_string(), 1, 7)]);
}

#[test]
fn odd_escape_run_keeps_delimiter_escaped() {
    let regions = vec![Region::new("String", "\"", "\"")];
    let rules = Rules::new(vec![], vec![], regions, vec![0]);
    let toks = compile(rules, "\"a\\\\\\\" b\"").unwrap();
    assert_eq!(words(&toks), vec![("\"a\\\\\\\" b\"".to_string(), 1, 1)]);
}

#[test]
fn automatic_mode_emits_newlines() {
    let rules = Rules::new(vec![], vec![], vec![], vec![]);
    let toks = compile(rules, "a\nb").unwrap();
    assert_eq!(words(&toks), vec![("a".to_string(), 1, 1), ("\n".to_string(), 1, 2), ("b".to_string(), 2, 1)]);
}

#[test]
fn indent_at_end_of_input_is_flushed() {
    let rules = Rules::new(vec![], vec![], vec![], vec![]);
    let mut cc = Compiler::new("Test", rules);
    cc.scoping_mode = ScopingMode::Indent;
    cc.load("a\n  ");
    let toks = cc.compile().unwrap();
    assert_eq!(words(&toks), vec![("a".to_string(), 1, 1), ("\n  ".to_string(), 2, 1)]);
    assert_eq!(toks[1].start, 1);
}

#[test]
fn indent_mode_takes_every_code_newline() {
    let rules = Rules::new(vec![], vec![], vec![], vec![]);
    let mut cc = Compiler::new("Test", rules);
    cc.scoping_mode = ScopingMode::Indent;
    cc.separator_mode = SeparatorMode::Manual;
    cc.load("a\n\n\tb");
    let toks = cc.compile().unwrap();
    assert_eq!(
        words(&toks),
        vec![("a".to_string(), 1, 1), ("\n".to_string(), 2, 1), ("\n\t".to_string(), 3, 1), ("b".to_string(), 3, 2)]
    );
}

#[test]
fn comment_line_keeps_newline_token() {
    let regions = vec![
        Region::new("string literal", "'", "'"),
        Region::new("comment line", "//", "\n"),
    ];
    let rules = Rules::new(vec!['+', '/'], vec![], regions, vec![0, 1]);
    let toks = compile(rules, "// test\n12.24 +.123 + 12 + 321").unwrap();
    let expected: Vec<(String, usize, usize)> = vec![
        ("// test".to_string(), 1, 1),
        ("\n".to_string(), 1, 8),
        ("12.24".to_string(), 2, 1),
        ("+".to_string(), 2, 7),
        (".123".to_string(), 2, 8),
        ("+".to_string(), 2, 13),
        ("12".to_string(), 2, 15),
        ("+".to_string(), 2, 18),
        ("321".to_string(), 2, 20),
    ];
    assert_eq!(words(&toks), expected);
}

#[test]
fn first_declared_region_wins() {
    let regions = vec![Region::new("Angle", "<", ">"), Region::new("Mixed", "<", "]")];
    let rules = Rules::new(vec![], vec![], regions, vec![0, 1]);
    let toks = compile(rules, "<x>").unwrap();
    assert_eq!(words(&toks), vec![("<x>".to_string(), 1, 1)]);
    let regions = vec![Region::new("Angle", "<", ">"), Region::new("Mixed", "<", "]")];
    let rules = Rules::new(vec![], vec![], regions, vec![1, 0]);
    let err = compile(rules, "<x>").err().unwrap();
    assert!(matches!(err.kind, LexerErrorType::Unclosed));
    assert_eq!(err.region, 1);
}

#[test]
fn token_start_is_absolute_character_offset() {
    let rules = Rules::new(vec![], vec![], vec![], vec![]);
    let toks = compile(rules, "é 🎉 x").unwrap();
    let starts: Vec<usize> = toks.iter().map(|t| t.start).collect();
    assert_eq!(starts, vec![0, 2, 4]);
    assert_eq!(toks[2].pos, (1, 5));
}

#[test]
fn lexer_run_fills_lexem() {
    let rules = Rules::new(vec![';'], vec![], vec![], vec![]);
    let mut cc = Compiler::new("Test", rules);
    cc.load("x;");
    let mut lexer = Lexer::new(&cc);
    assert!(lexer.run().is_ok());
    assert_eq!(words(&lexer.lexem), vec![("x".to_string(), 1, 1), (";".to_string(), 1, 2)]);
}

#[test]
fn reader_reports_newline_on_its_own_line() {
    let mut r = Reader::new(chars_of("a\nb"));
    assert_eq!(r.next(), Some('a'));
    assert_eq!((r.get_position(), r.get_index()), ((1, 1), 0));
    assert_eq!(r.peek(), Some('\n'));
    assert_eq!(r.next(), Some('\n'));
    assert_eq!(r.get_position(), (1, 2));
    assert_eq!(r.next(), Some('b'));
    assert_eq!((r.get_position(), r.get_index()), ((2, 1), 2));
    assert_eq!(r.next(), None);
    assert_eq!(r.position_of(3), (2, 2));
}

#[test]
fn chars_of_keeps_every_character() {
    assert_eq!(chars_of("a🎉b"), vec!['a', '🎉', 'b']);
    assert_eq!(chars_of(""), Vec::<char>::new());
}

#[test]
fn compiler_settings() {
    let rules = Rules::new(vec![], vec![], vec![], vec![]);
    let mut cc = Compiler::new("Name", rules);
    assert_eq!(cc.name, "Name".to_string());
    assert_eq!(cc.path, Some("[code]".to_string()));
    assert_eq!(cc.code, String::new());
    cc.set_path("src/main.x".to_string());
    cc.load("code");
    assert_eq!(cc.path, Some("src/main.x".to_string()));
    assert_eq!(cc.code, "code".to_string());
    assert_eq!(cc.separator_mode, SeparatorMode::Automatic);
    assert_eq!(cc.scoping_mode, ScopingMode::Block);
}

#[test]
fn log_builders() {
    let log = Log::new_err("f.x".to_string(), (3, 4)).attach_message("bad").attach_comment("hint").attach_code("x".to_string());
    assert_eq!(log.kind, LogType::Error);
    assert_eq!((log.row, log.col), (3, 4));
    assert_eq!(log.message, Some("bad".to_string()));
    assert_eq!(log.comment, Some("hint".to_string()));
    assert_eq!(log.code, Some("x".to_string()));
    assert_eq!(log.color(), (255, 80, 80));
    assert_eq!(Log::new_warn("f".to_string(), (1, 1)).color(), (255, 180, 80));
    let info = Log::new_info("f".to_string(), (1, 2));
    assert_eq!(info.kind, LogType::Info);
    assert_eq!(info.color(), (80, 80, 255));
    let plain = Log::new("p".to_string(), 5, 6, LogType::Warning);
    assert_eq!((plain.row, plain.col, plain.kind), (5, 6, LogType::Warning));
    assert_eq!(plain.message, None);
}

fn rebuilds(code: &str, toks: &[Token]) -> bool {
    let chars: Vec<char> = code.chars().collect();
    let blank = |c: &char| *c == ' ' || *c == '\t' || *c == '\n';
    let mut at = 0;
    for t in toks {
        let w: Vec<char> = t.word.chars().collect();
        if w.is_empty() || t.start < at || t.start + w.len() > chars.len() {
            return false;
        }
        if !chars[at..t.start].iter().all(blank) || chars[t.start..t.start + w.len()] != w[..] {
            return false;
        }
        at = t.start + w.len();
    }
    chars[at..].iter().all(blank)
}

#[test]
fn tokens_rebuild_source() {
    let regions = vec![
        Region::new("String literal", "'", "'").with_children(vec![1]),
        Region::new("String interpolation", "{", "}").with_tokenize(true).with_children(vec![0]),
    ];
    let code = "let a = 'this {'is {adjective} long'} 🎉 text'\n\tb += (c)";
    let rules = Rules::new(vec!['(', ')', '+', '='], vec![vec!['+', '=']], regions, vec![0]);
    let toks = compile(rules, code).unwrap();
    assert!(rebuilds(code, &toks));
    let rules = Rules::new(vec![';'], vec![], vec![], vec![]);
    let mut cc = Compiler::new("Test", rules);
    cc.scoping_mode = ScopingMode::Indent;
    let code = "if x:\n  \t y;\n\nz  ";
    cc.load(code);
    let toks = cc.compile().unwrap();
    assert!(rebuilds(code, &toks));
    assert_eq!(toks.iter().filter(|t| t.word.starts_with('\n')).count(), 3);
}

#[test]
fn tokenized_context_at_top_level() {
    let rules = Rules::new(vec![], vec![], vec![], vec![]);
    let cc = Compiler::new("Test", rules);
    let lexer = Lexer::new(&cc);
    assert!(lexer.is_tokenized_region(&RegionReaction::Pass));
    assert!(!lexer.is_tokenized_region(&RegionReaction::Begin(true)));
    assert!(!lexer.is_tokenized_region(&RegionReaction::End(false)));
}

#[test]
fn escape_symbol_suppresses_region_begin_in_code() {
    let regions = vec![Region::new("String", "'", "'")];
    let rules = Rules::new(vec![], vec![], regions, vec![0]);
    let toks = compile(rules, "\\'a b").unwrap();
    assert_eq!(words(&toks), vec![("\\'a".to_string(), 1, 1), ("b".to_string(), 1, 5)]);
}

#[test]
fn escape_symbol_suppresses_interpolation_end() {
    let regions = vec![
        Region::new("String", "'", "'").with_children(vec![1]),
        Region::new("Interp", "{", "}").with_tokenize(true).with_children(vec![0]),
    ];
    let rules = Rules::new(vec![], vec![], regions, vec![0]);
    let toks = compile(rules, "'a{x\\}y}b'").unwrap();
    let expected: Vec<(String, usize, usize)> = vec![
        ("'a".to_string(), 1, 1),
        ("{".to_string(), 1, 3),
        ("x\\}y".to_string(), 1, 4),
        ("}".to_string(), 1, 8),
        ("b'".to_string(), 1, 9),
    ];
    assert_eq!(words(&toks), expected);
}

#[test]
fn escaped_newline_in_code_is_no_separator() {
    let rules = Rules::new(vec![], vec![], vec![], vec![]);
    let toks = compile(rules, "a\\\nb\nc").unwrap();
    let expected: Vec<(String, usize, usize)> = vec![
        ("a\\\nb".to_string(), 1, 1),
        ("\n".to_string(), 2, 2),
        ("c".to_string(), 3, 1),
    ];
    assert_eq!(words(&toks), expected);
}

#[test]
fn newline_ending_literal_region_is_its_own_token() {
    let regions = vec![Region::new("comment line", "#", "\n")];
    let rules = Rules::new(vec![], vec![], regions, vec![0]);
    let code = "x # note\ny";
    let toks = compile(rules, code).unwrap();
    let expected: Vec<(String, usize, usize)> = vec![
        ("x".to_string(), 1, 1),
        ("# note".to_string(), 1, 3),
        ("\n".to_string(), 1, 9),
        ("y".to_string(), 2, 1),
    ];
    assert_eq!(words(&toks), expected);
    assert!(rebuilds(code, &toks));
}
