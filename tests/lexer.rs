use heraclitus_compiler::compiler::Compiler;
use heraclitus_compiler::lexer::Lexer;
use heraclitus_compiler::rules::{Region, Rules, ScopingMode, SeparatorMode};

#[test]
fn test_lexer_base() {
    let symbols = vec!['(', ')'];
    let regions = vec![
        Region::new("String literal", "'", "'").with_children(vec![1]),
        Region::new("Array Literal", "[", "]"),
    ];
    let expected = vec![
        ("let".to_string(), 1, 1),
        ("a".to_string(), 1, 5),
        ("=".to_string(), 1, 7),
        ("(".to_string(), 1, 9),
        ("12".to_string(), 1, 10),
        ("+".to_string(), 1, 13),
        ("32".to_string(), 1, 15),
        (")".to_string(), 1, 17),
    ];
    let rules = Rules::new(symbols, vec![], regions, vec![0]);
    let mut cc: Compiler = Compiler::new("TestScript", rules);
    cc.load("let a = (12 + 32)");
    let mut lexer = Lexer::new(&cc);
    let mut result = vec![];
    let res = lexer.run();
    assert!(res.is_ok());
    for lex in lexer.lexem {
        result.push((lex.word, lex.pos.0, lex.pos.1));
    }
    assert_eq!(expected, result);
}

#[test]
fn test_lexer_string_interp() {
    let symbols = vec!['(', ')'];
    // The interpolation lets every top-level region open inside it again.
    let regions = vec![
        Region::new("String literal", "'", "'").with_children(vec![1]),
        Region::new("String interpolation", "{", "}").with_tokenize(true).with_children(vec![0]),
    ];
    let expected = vec![
        ("let".to_string(), 1, 1),
        ("a".to_string(), 1, 5),
        ("=".to_string(), 1, 7),
        ("'this ".to_string(), 1, 9),
        ("{".to_string(), 1, 15),
        ("'is ".to_string(), 1, 16),
        ("{".to_string(), 1, 20),
        ("adjective".to_string(), 1, 21),
        ("}".to_string(), 1, 30),
        (" long'".to_string(), 1, 31),
        ("}".to_string(), 1, 37),
        (" 🎉 text'".to_string(), 1, 38),
    ];
    let rules = Rules::new(symbols, vec![], regions, vec![0]);
    let mut cc: Compiler = Compiler::new("TestScript", rules);
    cc.load("let a = 'this {'is {adjective} long'} 🎉 text'");
    let mut lexer = Lexer::new(&cc);
    let mut result = vec![];
    let res = lexer.run();
    assert!(res.is_ok());
    for lex in lexer.lexem {
        result.push((lex.word, lex.pos.0, lex.pos.1));
    }
    assert_eq!(expected, result);
}

#[test]
fn test_lexer_indent_scoping_mode() {
    let symbols = vec![':'];
    let expected = vec![
        ("if".to_string(), (1, 1), 0),
        ("condition".to_string(), (1, 4), 3),
        (":".to_string(), (1, 13), 12),
        ("\n    ".to_string(), (2, 1), 13),
        ("if".to_string(), (2, 5), 18),
        ("subcondition".to_string(), (2, 8), 21),
        (":".to_string(), (2, 20), 33),
        ("\n        ".to_string(), (3, 1), 34),
        ("pass".to_string(), (3, 9), 43),
    ];
    let rules = Rules::new(symbols, vec![], vec![], vec![]);
    let mut cc: Compiler = Compiler::new("Testhon", rules);
    cc.scoping_mode = ScopingMode::Indent;
    cc.load(&vec!["if condition:", "    if subcondition:", "        pass"].join("\n"));
    let mut lexer = Lexer::new(&cc);
    let mut result = vec![];
    let res = lexer.run();
    assert!(res.is_ok());
    for lex in lexer.lexem {
        result.push((lex.word, (lex.pos.0, lex.pos.1), lex.start));
    }
    assert_eq!(expected, result);
}

#[test]
fn test_lexer_manual_separator_mode() {
    let symbols = vec![';', '+', '='];
    let expected = vec![
        ("let".to_string(), 1, 1),
        ("age".to_string(), 1, 5),
        ("=".to_string(), 1, 9),
        ("12".to_string(), 1, 11),
        ("+".to_string(), 2, 1),
        ("12".to_string(), 3, 1),
        (";".to_string(), 3, 3),
    ];
    let rules = Rules::new(symbols, vec![], vec![], vec![]);
    let mut cc: Compiler = Compiler::new("Testhon", rules);
    cc.separator_mode = SeparatorMode::Manual;
    cc.load(&vec!["let age = 12", "+", "12;"].join("\n"));
    let mut lexer = Lexer::new(&cc);
    let mut result = vec![];
    let res = lexer.run();
    assert!(res.is_ok());
    for lex in lexer.lexem {
        result.push((lex.word, lex.pos.0, lex.pos.1));
    }
    assert_eq!(expected, result);
}

#[test]
fn test_lexer_multiline_regions() {
    let symbols = vec![';', '+', '='];
    let regions = vec![Region::new("String", "'", "'")];
    let expected = vec![("'this\nis\na\nmultiline\nstring'".to_string(), 1, 1)];
    let rules = Rules::new(symbols, vec![], regions, vec![0]);
    let mut cc: Compiler = Compiler::new("Test", rules);
    cc.load(&vec!["'this", "is", "a", "multiline", "string'"].join("\n"));
    let mut lexer = Lexer::new(&cc);
    let mut result = vec![];
    let res = lexer.run();
    assert!(res.is_ok());
    for lex in lexer.lexem {
        result.push((lex.word, lex.pos.0, lex.pos.1));
    }
    assert_eq!(expected, result);
}

#[test]
fn test_lexer_escaped_regions() {
    let symbols = vec![';', '+', '='];
    let regions = vec![Region::new("String", "\"", "\"")];
    let expected = vec![("\"this is \\\"escaped\\\" string\"".to_string(), 1, 1)];
    let rules = Rules::new(symbols, vec![], regions, vec![0]);
    let mut cc: Compiler = Compiler::new("Test", rules);
    cc.load(&vec!["\"this is \\\"escaped\\\" string\""].join("\n"));
    let mut lexer = Lexer::new(&cc);
    let mut result = vec![];
    let res = lexer.run();
    assert!(res.is_ok());
    for lex in lexer.lexem {
        result.push((lex.word, lex.pos.0, lex.pos.1));
    }
    assert_eq!(expected, result);
}
