use vstd::prelude::*;
use crate::reader::Reader;
use crate::rules::{Rules, RulesView};

verus! {

/// What the compound matcher decided at one character.
#[derive(Clone, Copy, Debug, PartialEq, Eq, Structural)]
pub enum CompoundReaction {
    /// A compound symbol may start here.
    Begin,
    /// The candidate goes on and is not complete yet.
    Keep,
    /// The candidate is complete with this character.
    End,
    /// No candidate is active or extendable.
    Pass,
}

/// `q` is a prefix of some compound symbol.
pub open spec fn is_compound_prefix(rules: RulesView, q: Seq<char>) -> bool {
    exists|k: int|
        0 <= k < rules.compounds.len() && q.len() <= rules.compounds[k].len()
            && #[trigger] rules.compounds[k].subrange(0, q.len() as int) == q
}

/// `q` is one of the compound symbols.
pub open spec fn is_compound(rules: RulesView, q: Seq<char>) -> bool {
    exists|k: int| 0 <= k < rules.compounds.len() && #[trigger] rules.compounds[k] == q
}

/// The reaction to character `c`, given the characters `progress` of the
/// candidate so far and the character `next` after `c`. A candidate starts only
/// where `c` and `next` begin some compound symbol; it goes on while the next
/// character still extends it; it ends when it is a compound symbol that cannot
/// be extended. Nothing is matched outside lexed context.
pub open spec fn compound_step(
    rules: RulesView,
    progress: Seq<char>,
    c: char,
    next: Option<char>,
    tokenized: bool,
) -> CompoundReaction {
    if !tokenized {
        CompoundReaction::Pass
    } else if progress.len() == 0 {
        if next is Some && is_compound_prefix(rules, seq![c, next->0]) {
            CompoundReaction::Begin
        } else {
            CompoundReaction::Pass
        }
    } else if next is Some && is_compound_prefix(rules, progress.push(c).push(next->0)) {
        CompoundReaction::Keep
    } else if is_compound(rules, progress.push(c)) {
        CompoundReaction::End
    } else {
        CompoundReaction::Pass
    }
}

/// The candidate after a reaction.
pub open spec fn progress_after(progress: Seq<char>, c: char, r: CompoundReaction) -> Seq<char> {
    match r {
        CompoundReaction::Begin => seq![c],
        CompoundReaction::Keep => progress.push(c),
        _ => Seq::empty(),
    }
}

fn starts_with(s: &Vec<char>, q: &Vec<char>) -> (r: bool)
    ensures
        r == (q@.len() <= s@.len() && s@.subrange(0, q@.len() as int) == q@),
{
    if q.len() > s.len() {
        return false;
    }
    let mut k: usize = 0;
    while k < q.len()
        invariant
            q@.len() <= s@.len(),
            k <= q@.len(),
            forall|j: int| 0 <= j < k ==> s@[j] == q@[j],
        decreases q@.len() - k,
    {
        if s[k] != q[k] {
            assert(s@.subrange(0, q@.len() as int)[k as int] != q@[k as int]);
            return false;
        }
        k = k + 1;
    }
    assert(s@.subrange(0, q@.len() as int) =~= q@);
    true
}

fn appended(p: &Vec<char>, c: char) -> (r: Vec<char>)
    ensures
        r@ == p@.push(c),
{
    let mut r: Vec<char> = Vec::new();
    let mut k: usize = 0;
    while k < p.len()
        invariant
            k <= p@.len(),
            r@ == p@.subrange(0, k as int),
        decreases p@.len() - k,
    {
        r.push(p[k]);
        k = k + 1;
        assert(r@ =~= p@.subrange(0, k as int));
    }
    assert(p@.subrange(0, p@.len() as int) =~= p@);
    r.push(c);
    r
}

/// Tracks the compound symbol being built, if any.
pub struct CompoundHandler<'a> {
    rules: &'a Rules,
    progress: Vec<char>,
}

impl<'a> CompoundHandler<'a> {
    pub closed spec fn rules(&self) -> RulesView {
        self.rules@
    }

    pub closed spec fn progress(&self) -> Seq<char> {
        self.progress@
    }

    pub fn new(rules: &'a Rules) -> (r: CompoundHandler<'a>)
        ensures
            r.rules() == rules@,
            r.progress() == Seq::<char>::empty(),
    {
        CompoundHandler { rules, progress: Vec::new() }
    }

    /// Drops the candidate, if any.
    pub fn reset(&mut self)
        ensures
            final(self).rules() == old(self).rules(),
            final(self).progress() == Seq::<char>::empty(),
    {
        self.progress = Vec::new();
    }

    fn any_prefix(&self, q: &Vec<char>) -> (r: bool)
        ensures
            r == is_compound_prefix(self.rules(), q@),
    {
        let mut k: usize = 0;
        while k < self.rules.compounds.len()
            invariant
                k <= self.rules().compounds.len(),
                self.rules().compounds.len() == self.rules.compounds@.len(),
                forall|j: int|
                    0 <= j < k ==> !(q@.len() <= self.rules().compounds[j].len()
                        && #[trigger] self.rules().compounds[j].subrange(0, q@.len() as int) == q@),
            decreases self.rules.compounds@.len() - k,
        {
            assert(self.rules().compounds[k as int] == self.rules.compounds@[k as int]@);
            if starts_with(&self.rules.compounds[k], q) {
                return true;
            }
            k = k + 1;
        }
        false
    }

    fn any_equal(&self, q: &Vec<char>) -> (r: bool)
        ensures
            r == is_compound(self.rules(), q@),
    {
        let mut k: usize = 0;
        while k < self.rules.compounds.len()
            invariant
                k <= self.rules().compounds.len(),
                self.rules().compounds.len() == self.rules.compounds@.len(),
                forall|j: int| 0 <= j < k ==> #[trigger] self.rules().compounds[j] != q@,
            decreases self.rules.compounds@.len() - k,
        {
            assert(self.rules().compounds[k as int] == self.rules.compounds@[k as int]@);
            if self.rules.compounds[k].len() == q.len() && starts_with(&self.rules.compounds[k], q) {
                assert(self.rules().compounds[k as int] =~= q@);
                return true;
            }
            proof {
                if self.rules().compounds[k as int] == q@ {
                    assert(self.rules().compounds[k as int].subrange(0, q@.len() as int) =~= q@);
                }
            }
            k = k + 1;
        }
        false
    }

    /// Reacts to the character last read, looking one character ahead.
    pub fn handle_compound(&mut self, letter: char, reader: &Reader, is_tokenized: bool) -> (r: CompoundReaction)
        requires
            reader.wf(),
        ensures
            final(self).rules() == old(self).rules(),
            r == compound_step(
                old(self).rules(),
                old(self).progress(),
                letter,
                if reader.consumed() < reader.text().len() {
                    Some(reader.text()[reader.consumed() as int])
                } else {
                    None
                },
                is_tokenized,
            ),
            final(self).progress() == progress_after(old(self).progress(), letter, r),
    {
        let next = reader.peek();
        let r = if !is_tokenized {
            CompoundReaction::Pass
        } else if self.progress.len() == 0 {
            match next {
                Some(n) => {
                    let mut q: Vec<char> = Vec::new();
                    q.push(letter);
                    q.push(n);
                    assert(q@ =~= seq![letter, n]);
                    if self.any_prefix(&q) {
                        CompoundReaction::Begin
                    } else {
                        CompoundReaction::Pass
                    }
                },
                None => CompoundReaction::Pass,
            }
        } else {
            let q = appended(&self.progress, letter);
            let extends = match next {
                Some(n) => {
                    let q2 = appended(&q, n);
                    self.any_prefix(&q2)
                },
                None => false,
            };
            if extends {
                CompoundReaction::Keep
            } else if self.any_equal(&q) {
                CompoundReaction::End
            } else {
                CompoundReaction::Pass
            }
        };
        match r {
            CompoundReaction::Begin => {
                let mut p: Vec<char> = Vec::new();
                p.push(letter);
                assert(p@ =~= seq![letter]);
                self.progress = p;
            },
            CompoundReaction::Keep => {
                self.progress.push(letter);
            },
            _ => {
                self.progress = Vec::new();
            },
        }
        r
    }
}

} // verus!
