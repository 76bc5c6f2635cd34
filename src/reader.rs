use vstd::prelude::*;

verus! {

/// The 1-based (row, column) of the character at offset `i` of `s`.
/// A newline belongs to the line it terminates; the character after it
/// starts the next row at column 1.
pub open spec fn pos_of(s: Seq<char>, i: int) -> (nat, nat)
    decreases i,
{
    if i <= 0 {
        (1, 1)
    } else {
        let p = pos_of(s, i - 1);
        if s[i - 1] == '\n' {
            (p.0 + 1, 1)
        } else {
            (p.0, p.1 + 1)
        }
    }
}

/// `pat` occurs in `s` starting at offset `i`.
pub open spec fn matches_at(s: Seq<char>, i: int, pat: Seq<char>) -> bool {
    0 <= i && i + pat.len() <= s.len() && s.subrange(i, i + pat.len()) == pat
}

/// Rows and columns never run ahead of the offset.
pub proof fn lemma_pos_bounded(s: Seq<char>, i: int)
    requires
        0 <= i,
    ensures
        1 <= pos_of(s, i).0 <= i + 1,
        1 <= pos_of(s, i).1 <= i + 1,
    decreases i,
{
    if i > 0 {
        lemma_pos_bounded(s, i - 1);
    }
}

/// A cursor over source text, one character at a time.
pub struct Reader {
    code: Vec<char>,
    /// Offset of the next character to hand out.
    next_index: usize,
    /// Position of the next character to hand out.
    row: usize,
    col: usize,
    /// Position of the character last handed out.
    last_row: usize,
    last_col: usize,
}

impl Reader {
    pub closed spec fn text(&self) -> Seq<char> {
        self.code@
    }

    /// Number of characters handed out so far.
    pub closed spec fn consumed(&self) -> nat {
        self.next_index as nat
    }

    pub closed spec fn wf(&self) -> bool {
        &&& self.next_index <= self.code@.len()
        &&& self.code@.len() < usize::MAX
        &&& (self.row as nat, self.col as nat) == pos_of(self.code@, self.next_index as int)
        &&& self.next_index > 0 ==> (self.last_row as nat, self.last_col as nat) == pos_of(
            self.code@,
            self.next_index - 1,
        )
    }

    pub proof fn lemma_bounds(&self)
        requires
            self.wf(),
        ensures
            self.consumed() <= self.text().len() < usize::MAX,
    {
    }

    pub fn new(code: Vec<char>) -> (r: Reader)
        requires
            code@.len() < usize::MAX,
        ensures
            r.wf(),
            r.text() == code@,
            r.consumed() == 0,
    {
        Reader { code, next_index: 0, row: 1, col: 1, last_row: 1, last_col: 1 }
    }

    /// Advances by one character and returns it, or `None` at the end.
    pub fn next(&mut self) -> (r: Option<char>)
        requires
            old(self).wf(),
        ensures
            final(self).wf(),
            final(self).text() == old(self).text(),
            old(self).consumed() < old(self).text().len() ==> r == Some(
                old(self).text()[old(self).consumed() as int],
            ) && final(self).consumed() == old(self).consumed() + 1,
            old(self).consumed() >= old(self).text().len() ==> r is None && *final(self)
                == *old(self),
    {
        if self.next_index >= self.code.len() {
            return None;
        }
        let c = self.code[self.next_index];
        proof {
            lemma_pos_bounded(self.code@, self.next_index as int);
        }
        self.last_row = self.row;
        self.last_col = self.col;
        if c == '\n' {
            self.row = self.row + 1;
            self.col = 1;
        } else {
            self.col = self.col + 1;
        }
        self.next_index = self.next_index + 1;
        Some(c)
    }

    /// The character after the one last returned, without advancing.
    pub fn peek(&self) -> (r: Option<char>)
        requires
            self.wf(),
        ensures
            self.consumed() < self.text().len() ==> r == Some(
                self.text()[self.consumed() as int],
            ),
            self.consumed() >= self.text().len() ==> r is None,
    {
        if self.next_index < self.code.len() {
            Some(self.code[self.next_index])
        } else {
            None
        }
    }

    /// Position of the character last returned by `next`.
    pub fn get_position(&self) -> (r: (usize, usize))
        requires
            self.wf(),
            self.consumed() > 0,
        ensures
            (r.0 as nat, r.1 as nat) == pos_of(self.text(), self.consumed() - 1),
    {
        (self.last_row, self.last_col)
    }

    /// Whether `pat` occurs in the text starting at the character last returned by `next`.
    pub fn matches(&self, pat: &Vec<char>) -> (r: bool)
        requires
            self.wf(),
            self.consumed() > 0,
        ensures
            r == matches_at(self.text(), self.consumed() - 1, pat@),
    {
        let i = self.next_index - 1;
        if pat.len() > self.code.len() - i {
            return false;
        }
        let mut k: usize = 0;
        while k < pat.len()
            invariant
                self.wf(),
                self.consumed() > 0,
                i == self.next_index - 1,
                i + pat@.len() <= self.code@.len(),
                k <= pat@.len(),
                forall|j: int| 0 <= j < k ==> self.code@[i + j] == pat@[j],
            decreases pat@.len() - k,
        {
            if self.code[i + k] != pat[k] {
                assert(self.code@.subrange(i as int, i + pat@.len())[k as int] != pat@[k as int]);
                return false;
            }
            k = k + 1;
        }
        assert(self.code@.subrange(i as int, i + pat@.len()) =~= pat@);
        true
    }

    /// Position of the character at offset `at`, counted from the start.
    pub fn position_of(&self, at: usize) -> (r: (usize, usize))
        requires
            self.wf(),
            at <= self.text().len(),
        ensures
            (r.0 as nat, r.1 as nat) == pos_of(self.text(), at as int),
    {
        let mut row: usize = 1;
        let mut col: usize = 1;
        let mut j: usize = 0;
        while j < at
            invariant
                j <= at <= self.code@.len() < usize::MAX,
                (row as nat, col as nat) == pos_of(self.code@, j as int),
            decreases at - j,
        {
            proof {
                lemma_pos_bounded(self.code@, j as int);
            }
            if self.code[j] == '\n' {
                row = row + 1;
                col = 1;
            } else {
                col = col + 1;
            }
            j = j + 1;
        }
        (row, col)
    }

    /// Offset of the character last returned by `next`.
    pub fn get_index(&self) -> (r: usize)
        requires
            self.wf(),
            self.consumed() > 0,
        ensures
            r == self.consumed() - 1,
    {
        self.next_index - 1
    }
}

} // verus!
