use heraclitus_compiler::pattern::{syntax, token, SyntaxMetadata, SyntaxModule, SyntaxResult};
use heraclitus_compiler::rules::Token;

struct Expression {}

impl SyntaxModule<SyntaxMetadata> for Expression {
    fn new() -> Self {
        Expression {}
    }
    fn parse(&mut self, meta: &mut SyntaxMetadata) -> SyntaxResult {
        token(meta, "let")?;
        Ok(())
    }
}

fn tok(word: &str) -> Token {
    Token { word: format!("{}", word), pos: (0, 0), start: 0 }
}

#[test]
fn test_token_match() {
    let mut exp = Expression {};
    let dataset1 = vec![tok("let")];
    let dataset2 = vec![tok("tell")];
    let path = Some(format!("path/to/file"));
    let result1 = exp.parse(&mut SyntaxMetadata::new(dataset1, path.clone()));
    let result2 = exp.parse(&mut SyntaxMetadata::new(dataset2, path.clone()));
    assert!(result1.is_ok());
    assert!(result2.is_err());
}

struct PatternModule {}

impl SyntaxModule<SyntaxMetadata> for PatternModule {
    fn new() -> Self {
        PatternModule {}
    }
    #[allow(unused_must_use)]
    fn parse(&mut self, meta: &mut SyntaxMetadata) -> SyntaxResult {
        // Any
        if let Ok(_) = token(meta, "apple") {
        } else if let Ok(_) = token(meta, "orange") {
        } else if let Ok(_) = token(meta, "banana") {
        } else {
            if let Err(details) = token(meta, "banana") {
                return Err(details);
            }
        }
        // Optional
        token(meta, "optional");
        // Syntax
        syntax(meta, &mut Expression::new())?;
        // Repeat
        loop {
            if let Err(_) = token(meta, "test") {
                break;
            }
            if let Err(_) = token(meta, ",") {
                break;
            }
        }
        // End token
        token(meta, "end");
        Ok(())
    }
}

#[test]
fn rest_match() {
    let mut exp = PatternModule {};
    // Everything should pass
    let dataset1 = vec![tok("orange"), tok("optional"), tok("let"), tok("this"), tok(","), tok("this"), tok("end")];
    // Token should fail
    let dataset2 = vec![tok("kiwi"), tok("optional"), tok("let"), tok("this"), tok(","), tok("this"), tok("end")];
    // Syntax should fail
    let dataset3 = vec![tok("orange"), tok("tell"), tok("this"), tok(","), tok("this"), tok("end")];
    // Token should fail because of repeat matching (this , this) ,
    let dataset4 = vec![tok("orange"), tok("tell"), tok("this"), tok(","), tok("this"), tok("this"), tok("end")];
    let path = Some(format!("path/to/file"));
    let result1 = exp.parse(&mut SyntaxMetadata::new(dataset1, path.clone()));
    let result2 = exp.parse(&mut SyntaxMetadata::new(dataset2, path.clone()));
    let result3 = exp.parse(&mut SyntaxMetadata::new(dataset3, path.clone()));
    let result4 = exp.parse(&mut SyntaxMetadata::new(dataset4, path.clone()));
    assert!(result1.is_ok());
    assert!(result2.is_err());
    assert!(result3.is_err());
    assert!(result4.is_err());
}

#[test]
fn token_advances_only_on_match() {
    let mut meta = SyntaxMetadata::new(vec![tok("let"), tok("x")], None);
    assert_eq!(token(&mut meta, "x"), Err(()));
    assert_eq!(meta.index, 0);
    assert_eq!(token(&mut meta, "let"), Ok("let".to_string()));
    assert_eq!(meta.index, 1);
    assert_eq!(token(&mut meta, "x"), Ok("x".to_string()));
    assert_eq!(token(&mut meta, "x"), Err(()));
    assert_eq!(meta.index, 2);
}

#[test]
fn syntax_rolls_back_on_failure() {
    let mut meta = SyntaxMetadata::new(vec![tok("tell")], None);
    assert!(syntax(&mut meta, &mut Expression::new()).is_err());
    assert_eq!(meta.index, 0);
    let mut meta = SyntaxMetadata::new(vec![tok("let")], None);
    assert!(syntax(&mut meta, &mut Expression::new()).is_ok());
    assert_eq!(meta.index, 1);
}
