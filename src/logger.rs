use vstd::prelude::*;

verus! {

#[derive(Clone, Copy, Debug, PartialEq, Eq, Structural)]
pub enum LogType {
    Error,
    Warning,
    Info,
}

/// A diagnostic about a place in a source file.
pub struct Log {
    pub kind: LogType,
    pub row: usize,
    pub col: usize,
    pub path: String,
    pub code: Option<String>,
    pub message: Option<String>,
    pub comment: Option<String>,
}

impl Log {
    pub fn new(path: String, row: usize, col: usize, kind: LogType) -> (r: Log)
        ensures
            r.kind == kind,
            r.path == path,
            r.row == row,
            r.col == col,
            r.code is None,
            r.message is None,
            r.comment is None,
    {
        Log { kind, path, row, col, code: None, message: None, comment: None }
    }

    /// An error at (row, column).
    pub fn new_err(path: String, pos: (usize, usize)) -> (r: Log)
        ensures
            r == Log::new_spec(path, pos, LogType::Error),
    {
        Log::new(path, pos.0, pos.1, LogType::Error)
    }

    /// A warning at (row, column).
    pub fn new_warn(path: String, pos: (usize, usize)) -> (r: Log)
        ensures
            r == Log::new_spec(path, pos, LogType::Warning),
    {
        Log::new(path, pos.0, pos.1, LogType::Warning)
    }

    /// An informational note at (row, column).
    pub fn new_info(path: String, pos: (usize, usize)) -> (r: Log)
        ensures
            r == Log::new_spec(path, pos, LogType::Info),
    {
        Log::new(path, pos.0, pos.1, LogType::Info)
    }

    pub open spec fn new_spec(path: String, pos: (usize, usize), kind: LogType) -> Log {
        Log { kind, path, row: pos.0, col: pos.1, code: None, message: None, comment: None }
    }

    pub fn attach_message(self, text: &str) -> (r: Log)
        ensures
            r == (Log { message: Some(r.message->0), ..self }),
            r.message->0@ == text@,
    {
        Log { message: Some(String::from_str(text)), ..self }
    }

    pub fn attach_comment(self, text: &str) -> (r: Log)
        ensures
            r == (Log { comment: Some(r.comment->0), ..self }),
            r.comment->0@ == text@,
    {
        Log { comment: Some(String::from_str(text)), ..self }
    }

    pub fn attach_code(self, code: String) -> (r: Log)
        ensures
            r == (Log { code: Some(code), ..self }),
    {
        Log { code: Some(code), ..self }
    }

    /// The colour (red, green, blue) that the log is rendered in.
    pub fn color(&self) -> (r: (u8, u8, u8))
        ensures
            r == match self.kind {
                LogType::Error => (255u8, 80u8, 80u8),
                LogType::Warning => (255u8, 180u8, 80u8),
                LogType::Info => (80u8, 80u8, 255u8),
            },
    {
        match self.kind {
            LogType::Error => (255, 80, 80),
            LogType::Warning => (255, 180, 80),
            LogType::Info => (80, 80, 255),
        }
    }
}

} // verus!
