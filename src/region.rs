use vstd::prelude::*;
use crate::reader::{Reader, matches_at};
use crate::rules::{Rules, RulesView};

verus! {

/// What the region tracker decided at one character.
#[derive(Clone, Copy, Debug, PartialEq, Eq, Structural)]
pub enum RegionReaction {
    /// A region opened here; carries its `tokenize` flag.
    Begin(bool),
    /// The innermost region closed here; carries its `tokenize` flag.
    End(bool),
    Pass,
}

/// Regions that may open given the stack of open ones: the top-level set when
/// none is open, else the children of the innermost.
pub open spec fn candidates(rules: RulesView, stack: Seq<(usize, usize)>) -> Seq<usize> {
    if stack.len() == 0 {
        rules.global
    } else {
        rules.regions[stack.last().0 as int].children
    }
}

/// The first of `cands` (in declared order) that exists and whose begin pattern
/// matches at offset `i`.
pub open spec fn first_begin(rules: RulesView, cands: Seq<usize>, code: Seq<char>, i: int) -> Option<usize>
    decreases cands.len(),
{
    if cands.len() == 0 {
        None
    } else if cands[0] < rules.regions.len() && matches_at(code, i, rules.regions[cands[0] as int].begin) {
        Some(cands[0])
    } else {
        first_begin(rules, cands.drop_first(), code, i)
    }
}

/// The reaction at offset `i` and the stack after it. An escaped character
/// neither opens nor closes a region; closing the innermost region comes before
/// opening a new one. A stack entry is a region index and the offset where it opened.
pub open spec fn region_step(
    rules: RulesView,
    stack: Seq<(usize, usize)>,
    escaped: bool,
    code: Seq<char>,
    i: int,
) -> (RegionReaction, Seq<(usize, usize)>) {
    if escaped {
        (RegionReaction::Pass, stack)
    } else if stack.len() > 0 && matches_at(code, i, rules.regions[stack.last().0 as int].end) {
        (RegionReaction::End(rules.regions[stack.last().0 as int].tokenize), stack.drop_last())
    } else {
        match first_begin(rules, candidates(rules, stack), code, i) {
            Some(r) => (RegionReaction::Begin(rules.regions[r as int].tokenize), stack.push((r, i as usize))),
            None => (RegionReaction::Pass, stack),
        }
    }
}

/// A region found by `first_begin` is one of the candidates and exists in the table.
pub proof fn lemma_first_begin_exists(rules: RulesView, cands: Seq<usize>, code: Seq<char>, i: int)
    ensures
        first_begin(rules, cands, code, i) is Some ==> first_begin(rules, cands, code, i)->0
            < rules.regions.len(),
    decreases cands.len(),
{
    if cands.len() > 0 {
        lemma_first_begin_exists(rules, cands.drop_first(), code, i);
    }
}

/// Every open region exists in the table and opened before offset `n`.
pub open spec fn stack_wf(rules: RulesView, stack: Seq<(usize, usize)>, n: int) -> bool {
    forall|k: int| 0 <= k < stack.len() ==> (#[trigger] stack[k]).0 < rules.regions.len() && stack[k].1 < n
}

/// Tracks the stack of open regions.
pub struct RegionHandler<'a> {
    rules: &'a Rules,
    stack: Vec<(usize, usize)>,
}

impl<'a> RegionHandler<'a> {
    pub closed spec fn rules(&self) -> RulesView {
        self.rules@
    }

    pub closed spec fn stack(&self) -> Seq<(usize, usize)> {
        self.stack@
    }

    pub fn new(rules: &'a Rules) -> (r: RegionHandler<'a>)
        ensures
            r.rules() == rules@,
            r.stack() == Seq::<(usize, usize)>::empty(),
    {
        RegionHandler { rules, stack: Vec::new() }
    }

    /// The innermost open region, if any.
    pub fn get_region(&self) -> (r: Option<usize>)
        ensures
            self.stack().len() == 0 ==> r is None,
            self.stack().len() > 0 ==> r == Some(self.stack().last().0),
    {
        if self.stack.len() == 0 {
            None
        } else {
            Some(self.stack[self.stack.len() - 1].0)
        }
    }

    /// Whether the innermost context lexes its interior as code (the top level does).
    pub fn is_tokenized(&self) -> (r: bool)
        requires
            self.stack().len() > 0 ==> self.stack().last().0 < self.rules().regions.len(),
        ensures
            r == (self.stack().len() == 0 || self.rules().regions[self.stack().last().0 as int].tokenize),
    {
        if self.stack.len() == 0 {
            true
        } else {
            self.rules.regions[self.stack[self.stack.len() - 1].0].tokenize
        }
    }

    /// The outermost open region and the offset where it opened.
    pub fn outermost(&self) -> (r: Option<(usize, usize)>)
        ensures
            self.stack().len() == 0 ==> r is None,
            self.stack().len() > 0 ==> r == Some(self.stack()[0]),
    {
        if self.stack.len() == 0 {
            None
        } else {
            Some(self.stack[0])
        }
    }

    fn find_begin(&self, reader: &Reader) -> (r: Option<usize>)
        requires
            reader.wf(),
            reader.consumed() > 0,
            stack_wf(self.rules(), self.stack(), reader.consumed() as int),
        ensures
            r == first_begin(self.rules(), candidates(self.rules(), self.stack()), reader.text(), reader.consumed() - 1),
    {
        let cands: &Vec<usize> = if self.stack.len() == 0 {
            &self.rules.global
        } else {
            &self.rules.regions[self.stack[self.stack.len() - 1].0].children
        };
        assert(cands@ == candidates(self.rules(), self.stack()));
        let ghost i = reader.consumed() - 1;
        let mut k: usize = 0;
        assert(cands@.subrange(0, cands@.len() as int) =~= cands@);
        while k < cands.len()
            invariant
                reader.wf(),
                cands@ == candidates(self.rules(), self.stack()),
                k <= cands@.len(),
                first_begin(self.rules(), cands@, reader.text(), i) == first_begin(
                    self.rules(),
                    cands@.subrange(k as int, cands@.len() as int),
                    reader.text(),
                    i,
                ),
                i == reader.consumed() - 1,
                reader.consumed() > 0,
            decreases cands@.len() - k,
        {
            let r = cands[k];
            let ghost rest = cands@.subrange(k as int, cands@.len() as int);
            assert(rest[0] == r);
            assert(rest.drop_first() =~= cands@.subrange(k + 1, cands@.len() as int));
            if r < self.rules.regions.len() && reader.matches(&self.rules.regions[r].begin) {
                assert(self.rules().regions[r as int] == self.rules.regions@[r as int]@);
                return Some(r);
            }
            k = k + 1;
        }
        None
    }

    /// Decides whether the character last read opens a region, closes the
    /// innermost one, or neither, and updates the stack.
    pub fn handle_region(&mut self, reader: &Reader, is_escaped: bool) -> (r: RegionReaction)
        requires
            reader.wf(),
            reader.consumed() > 0,
            stack_wf(old(self).rules(), old(self).stack(), reader.consumed() - 1),
        ensures
            final(self).rules() == old(self).rules(),
            (r, final(self).stack()) == region_step(
                old(self).rules(),
                old(self).stack(),
                is_escaped,
                reader.text(),
                reader.consumed() - 1,
            ),
            stack_wf(final(self).rules(), final(self).stack(), reader.consumed() as int),
    {
        if is_escaped {
            return RegionReaction::Pass;
        }
        if self.stack.len() > 0 {
            let top = self.stack[self.stack.len() - 1].0;
            if reader.matches(&self.rules.regions[top].end) {
                let tokenize = self.rules.regions[top].tokenize;
                self.stack.pop();
                assert(self.stack@ =~= old(self).stack@.drop_last());
                return RegionReaction::End(tokenize);
            }
        }
        let found = self.find_begin(reader);
        proof {
            lemma_first_begin_exists(self.rules(), candidates(self.rules(), self.stack()), reader.text(), reader.consumed() - 1);
        }
        match found {
            Some(r) => {
                let at = reader.get_index();
                self.stack.push((r, at));
                RegionReaction::Begin(self.rules.regions[r].tokenize)
            },
            None => RegionReaction::Pass,
        }
    }
}

} // verus!
