use vstd::prelude::*;
use crate::lexer::{
    LexConfig, LexerErrorType, ScanState, scan, lex, step, in_tokenized, flush, push_letter, emit,
    code_step, initial_state, next_char, is_blank,
};
use crate::compound::{CompoundReaction, compound_step, progress_after};
use crate::rules::{RulesView, TokenView, ScopingMode, SeparatorMode};
use crate::reader::matches_at;
use crate::region::{RegionReaction, region_step, candidates, first_begin, lemma_first_begin_exists};

verus! {

/// A scan that reaches offset `m` went through every shorter prefix without failing.
pub proof fn lemma_scan_prefix_ok(cfg: LexConfig, code: Seq<char>, k: nat, m: nat)
    requires
        k <= m,
        scan(cfg, code, m) is Ok,
    ensures
        scan(cfg, code, k) is Ok,
    decreases m - k,
{
    if k < m {
        lemma_scan_prefix_ok(cfg, code, k, (m - 1) as nat);
    }
}

/// Once the whole input is read without a single-line violation, lexing fails
/// as unclosed exactly when some region is still open.
pub proof fn lemma_unclosed_iff_open(cfg: LexConfig, code: Seq<char>)
    requires
        scan(cfg, code, code.len()) is Ok,
    ensures
        (lex(cfg, code) is Err && lex(cfg, code)->Err_0.kind == LexerErrorType::Unclosed)
            <==> scan(cfg, code, code.len())->Ok_0.stack.len() > 0,
        lex(cfg, code) is Ok <==> scan(cfg, code, code.len())->Ok_0.stack.len() == 0,
{
}

/// When lexing succeeds, every unescaped newline read while a single-line
/// region is innermost is a delimiter: it closes that region or opens one
/// nested in it, so it is never part of the region's content.
pub proof fn lemma_singleline_newline_is_delimiter(cfg: LexConfig, code: Seq<char>, i: nat)
    requires
        i < code.len(),
        scan(cfg, code, code.len()) is Ok,
        code[i as int] == '\n',
    ensures
        ({
            let st = scan(cfg, code, i)->Ok_0;
            st.stack.len() > 0 && cfg.rules.regions[st.stack.last().0 as int].singleline && !st.escaped
                ==> region_step(cfg.rules, st.stack, st.escaped, code, i as int).0 != RegionReaction::Pass
        }),
{
    lemma_scan_prefix_ok(cfg, code, i + 1, code.len());
}

/// The escape flag is set only right after an escape symbol.
pub open spec fn escape_inv(cfg: LexConfig, code: Seq<char>, st: ScanState, i: nat) -> bool {
    st.escaped ==> i > 0 && code[i - 1] == cfg.rules.escape
}

pub proof fn lemma_escape_inv(cfg: LexConfig, code: Seq<char>, n: nat)
    requires
        n <= code.len(),
        scan(cfg, code, n) is Ok,
    ensures
        escape_inv(cfg, code, scan(cfg, code, n)->Ok_0, n),
    decreases n,
{
    if n > 0 {
        lemma_scan_prefix_ok(cfg, code, (n - 1) as nat, n);
    }
}

/// Escaping is a one-level toggle: after a run of `m` escape symbols that
/// starts the input or follows another character, the next character is
/// escaped exactly when `m` is odd. After an odd run it neither opens nor closes
/// a region; after an even run it acts as if no escape symbol came before it,
/// so a matching end pattern closes the innermost region.
pub proof fn lemma_escape_toggle(cfg: LexConfig, code: Seq<char>, j: nat, m: nat)
    requires
        j + m < code.len(),
        scan(cfg, code, j + m) is Ok,
        j == 0 || code[j - 1] != cfg.rules.escape,
        forall|k: int| j <= k < j + m ==> code[k] == cfg.rules.escape,
    ensures
        ({
            let st = scan(cfg, code, j + m)->Ok_0;
            let rs = region_step(cfg.rules, st.stack, st.escaped, code, (j + m) as int);
            &&& st.escaped == (m % 2 == 1)
            &&& m % 2 == 1 ==> rs.0 == RegionReaction::Pass && rs.1 == st.stack
            &&& m % 2 == 0 ==> rs == region_step(cfg.rules, st.stack, false, code, (j + m) as int)
            &&& m % 2 == 0 && st.stack.len() > 0 && matches_at(
                code,
                (j + m) as int,
                cfg.rules.regions[st.stack.last().0 as int].end,
            ) ==> rs.0 == RegionReaction::End(cfg.rules.regions[st.stack.last().0 as int].tokenize)
        }),
    decreases m,
{
    lemma_scan_prefix_ok(cfg, code, j, j + m);
    if m == 0 {
        lemma_escape_inv(cfg, code, j);
    } else {
        let k = (j + m - 1) as nat;
        lemma_scan_prefix_ok(cfg, code, k, j + m);
        lemma_escape_toggle(cfg, code, j, (m - 1) as nat);
        let st = scan(cfg, code, k)->Ok_0;
        assert(scan(cfg, code, j + m) == step(cfg, code, st, k as int));
    }
}

/// Characters that lexing may drop: spaces, tabs, and newlines under manual separators.
pub open spec fn discardable(cfg: LexConfig, c: char) -> bool {
    is_blank(c) || (c == '\n' && cfg.separator == SeparatorMode::Manual)
}

pub open spec fn all_discardable(cfg: LexConfig, code: Seq<char>, a: int, b: int) -> bool {
    forall|p: int| a <= p < b ==> discardable(cfg, #[trigger] code[p])
}

/// Offset just after token `t`.
pub open spec fn token_end(t: TokenView) -> nat {
    t.start + t.text.len()
}

/// Offset just after the `k`-th token's predecessor (0 for the first).
pub open spec fn prev_end(ts: Seq<TokenView>, k: int) -> nat {
    if k <= 0 {
        0
    } else {
        token_end(ts[k - 1])
    }
}

pub open spec fn end_of(ts: Seq<TokenView>) -> nat {
    prev_end(ts, ts.len() as int)
}

/// Each token is non-empty and is the source text at its offset; tokens come
/// in source order without overlap, and what lies between them may be dropped.
pub open spec fn tokens_tile(cfg: LexConfig, code: Seq<char>, ts: Seq<TokenView>) -> bool {
    forall|k: int|
        0 <= k < ts.len() ==> {
            let t = #[trigger] ts[k];
            &&& t.text.len() > 0
            &&& token_end(t) <= code.len()
            &&& code.subrange(t.start as int, token_end(t) as int) == t.text
            &&& prev_end(ts, k) <= t.start
            &&& all_discardable(cfg, code, prev_end(ts, k) as int, t.start as int)
        }
}

/// What the scan keeps after `n` characters: tokens tile what was read up to
/// the word, the word is the text read since its start, and every open region
/// exists.
pub open spec fn tiling_inv(cfg: LexConfig, code: Seq<char>, st: ScanState, n: nat) -> bool {
    &&& n <= code.len()
    &&& tokens_tile(cfg, code, st.tokens)
    &&& forall|k: int| 0 <= k < st.stack.len() ==> (#[trigger] st.stack[k]).0 < cfg.rules.regions.len()
    &&& if st.word.len() > 0 {
        &&& end_of(st.tokens) <= st.word_start
        &&& all_discardable(cfg, code, end_of(st.tokens) as int, st.word_start as int)
        &&& st.word_start + st.word.len() == n
        &&& code.subrange(st.word_start as int, n as int) == st.word
    } else {
        end_of(st.tokens) <= n && all_discardable(cfg, code, end_of(st.tokens) as int, n as int)
    }
}

proof fn lemma_flush_tiles(cfg: LexConfig, code: Seq<char>, st: ScanState, n: nat)
    requires
        tiling_inv(cfg, code, st, n),
    ensures
        tiling_inv(cfg, code, flush(code, st), n),
        flush(code, st).word.len() == 0,
        flush(code, st).stack == st.stack,
{
    if st.word.len() > 0 {
        let f = flush(code, st);
        let ts = f.tokens;
        assert(ts.last() == ts[st.tokens.len() as int]);
        assert forall|k: int| 0 <= k < ts.len() implies {
            let t = #[trigger] ts[k];
            &&& t.text.len() > 0
            &&& token_end(t) <= code.len()
            &&& code.subrange(t.start as int, token_end(t) as int) == t.text
            &&& prev_end(ts, k) <= t.start
            &&& all_discardable(cfg, code, prev_end(ts, k) as int, t.start as int)
        } by {
            if k < st.tokens.len() {
                assert(ts[k] == st.tokens[k]);
                assert(prev_end(ts, k) == prev_end(st.tokens, k));
            }
        }
    }
}

#[verifier::rlimit(30)]
proof fn lemma_push_tiles(cfg: LexConfig, code: Seq<char>, st: ScanState, i: nat)
    requires
        tiling_inv(cfg, code, st, i),
        i < code.len(),
    ensures
        tiling_inv(cfg, code, push_letter(st, code[i as int], i as int), i + 1),
{
    let p = push_letter(st, code[i as int], i as int);
    assert(code.subrange(p.word_start as int, (i + 1) as int) =~= p.word);
}

#[verifier::rlimit(30)]
proof fn lemma_discard_tiles(cfg: LexConfig, code: Seq<char>, st: ScanState, i: nat)
    requires
        tiling_inv(cfg, code, st, i),
        st.word.len() == 0,
        i < code.len(),
        discardable(cfg, code[i as int]),
    ensures
        tiling_inv(cfg, code, st, i + 1),
{
}

proof fn lemma_emit_tiles(cfg: LexConfig, code: Seq<char>, st: ScanState, i: nat)
    requires
        tiling_inv(cfg, code, st, i),
        i < code.len(),
    ensures
        tiling_inv(cfg, code, emit(code, st, code[i as int], i as int), i + 1),
        emit(code, st, code[i as int], i as int).stack == st.stack,
{
    lemma_flush_tiles(cfg, code, st, i);
    lemma_push_tiles(cfg, code, flush(code, st), i);
    lemma_flush_tiles(cfg, code, push_letter(flush(code, st), code[i as int], i as int), i + 1);
}

proof fn lemma_code_step_tiles(cfg: LexConfig, code: Seq<char>, st: ScanState, i: nat, escaped: bool)
    requires
        tiling_inv(cfg, code, st, i),
        i < code.len(),
    ensures
        tiling_inv(cfg, code, code_step(cfg, code, st, code[i as int], i as int, escaped), i + 1),
{
    let c = code[i as int];
    let newline = c == '\n' && !escaped;
    lemma_flush_tiles(cfg, code, st, i);
    if cfg.scoping == ScopingMode::Indent && (newline || (st.indenting && is_blank(c))) {
        let s1 = if newline {
            lemma_push_tiles(cfg, code, flush(code, st), i);
            ScanState { indenting: true, ..push_letter(flush(code, st), c, i as int) }
        } else {
            lemma_push_tiles(cfg, code, st, i);
            push_letter(st, c, i as int)
        };
        lemma_flush_tiles(cfg, code, s1, i + 1);
    } else if cfg.separator == SeparatorMode::Manual && newline {
        lemma_discard_tiles(cfg, code, flush(code, st), i);
    } else if is_blank(c) {
        lemma_discard_tiles(cfg, code, flush(code, st), i);
    } else if cfg.rules.symbols.contains(c) || newline {
        lemma_emit_tiles(cfg, code, st, i);
    } else {
        lemma_push_tiles(cfg, code, st, i);
    }
}

proof fn lemma_first_begin_matches(rules: RulesView, cands: Seq<usize>, code: Seq<char>, i: int)
    ensures
        first_begin(rules, cands, code, i) is Some ==> matches_at(
            code,
            i,
            rules.regions[first_begin(rules, cands, code, i)->0 as int].begin,
        ),
    decreases cands.len(),
{
    if cands.len() > 0 {
        lemma_first_begin_matches(rules, cands.drop_first(), code, i);
    }
}

#[verifier::rlimit(40)]
proof fn lemma_step_tiles(cfg: LexConfig, code: Seq<char>, st: ScanState, i: nat)
    requires
        tiling_inv(cfg, code, st, i),
        i < code.len(),
        step(cfg, code, st, i as int) is Ok,
    ensures
        tiling_inv(cfg, code, step(cfg, code, st, i as int)->Ok_0, i + 1),
{
    let c = code[i as int];
    let rs = region_step(cfg.rules, st.stack, st.escaped, code, i as int);
    let s0 = ScanState { stack: rs.1, escaped: !st.escaped && c == cfg.rules.escape, ..st };
    let s1 = ScanState { progress: Seq::empty(), ..s0 };
    lemma_first_begin_exists(cfg.rules, candidates(cfg.rules, st.stack), code, i as int);
    assert(tiling_inv(cfg, code, s0, i));
    assert(tiling_inv(cfg, code, s1, i));
    match rs.0 {
        RegionReaction::Begin(tokenize) => {
            if tokenize || c == '\n' {
                lemma_emit_tiles(cfg, code, s1, i);
            } else {
                lemma_flush_tiles(cfg, code, s1, i);
                lemma_push_tiles(cfg, code, flush(code, s1), i);
            }
        },
        RegionReaction::End(tokenize) => {
            if tokenize || c == '\n' {
                lemma_emit_tiles(cfg, code, s1, i);
            } else {
                lemma_push_tiles(cfg, code, s1, i);
                lemma_flush_tiles(cfg, code, push_letter(s1, c, i as int), i + 1);
            }
        },
        RegionReaction::Pass => {
            let tokd = in_tokenized(cfg.rules, rs.1);
            let cr = compound_step(cfg.rules, st.progress, c, next_char(code, i as int), tokd);
            let s2 = ScanState { progress: progress_after(st.progress, c, cr), ..s0 };
            assert(tiling_inv(cfg, code, s2, i));
            match cr {
                CompoundReaction::Begin => {
                    lemma_flush_tiles(cfg, code, s2, i);
                    lemma_push_tiles(cfg, code, flush(code, s2), i);
                },
                CompoundReaction::Keep => {
                    lemma_push_tiles(cfg, code, s2, i);
                },
                CompoundReaction::End => {
                    lemma_push_tiles(cfg, code, s2, i);
                    lemma_flush_tiles(cfg, code, push_letter(s2, c, i as int), i + 1);
                },
                CompoundReaction::Pass => {
                    if !tokd {
                        lemma_push_tiles(cfg, code, s2, i);
                    } else {
                        lemma_code_step_tiles(cfg, code, s2, i, st.escaped);
                    }
                },
            }
        },
    }
}

proof fn lemma_scan_tiles(cfg: LexConfig, code: Seq<char>, n: nat)
    requires
        n <= code.len(),
        scan(cfg, code, n) is Ok,
    ensures
        tiling_inv(cfg, code, scan(cfg, code, n)->Ok_0, n),
    decreases n,
{
    if n == 0 {
        assert(tiling_inv(cfg, code, initial_state(), 0));
    } else {
        lemma_scan_prefix_ok(cfg, code, (n - 1) as nat, n);
        lemma_scan_tiles(cfg, code, (n - 1) as nat);
        lemma_step_tiles(cfg, code, scan(cfg, code, (n - 1) as nat)->Ok_0, (n - 1) as nat);
    }
}

/// Nothing is invented or lost: the tokens, in order, are the source text at
/// their offsets, without overlap, and everything between and around them is
/// dropped whitespace. So the token texts, put back with the whitespace
/// between them, give the source. Only spaces, tabs and, under manual
/// separators, newlines are ever dropped.
pub proof fn lemma_tokens_rebuild_source(cfg: LexConfig, code: Seq<char>)
    requires
        lex(cfg, code) is Ok,
    ensures
        tokens_tile(cfg, code, lex(cfg, code)->Ok_0),
        all_discardable(cfg, code, end_of(lex(cfg, code)->Ok_0) as int, code.len() as int),
{
    lemma_scan_tiles(cfg, code, code.len());
    lemma_flush_tiles(cfg, code, scan(cfg, code, code.len())->Ok_0, code.len());
}

/// The newline at offset `i` opens an indent token: indentation scoping is on,
/// the newline is not escaped, no region or compound symbol claims it, and it
/// is read in lexed context.
pub open spec fn opens_indent(cfg: LexConfig, code: Seq<char>, i: int) -> bool {
    &&& 0 <= i < code.len()
    &&& code[i] == '\n'
    &&& cfg.scoping == ScopingMode::Indent
    &&& scan(cfg, code, i as nat) is Ok
    &&& {
        let st = scan(cfg, code, i as nat)->Ok_0;
        let rs = region_step(cfg.rules, st.stack, st.escaped, code, i);
        &&& !st.escaped
        &&& rs.0 == RegionReaction::Pass
        &&& in_tokenized(cfg.rules, rs.1)
        &&& compound_step(cfg.rules, st.progress, '\n', next_char(code, i), true) == CompoundReaction::Pass
    }
}

/// One newline followed only by spaces and tabs.
pub open spec fn indent_shape(t: Seq<char>) -> bool {
    &&& t.len() > 0
    &&& t[0] == '\n'
    &&& forall|j: int| 1 <= j < t.len() ==> is_blank(#[trigger] t[j])
}

pub open spec fn has_start(ts: Seq<TokenView>, i: int) -> bool {
    exists|k: int| 0 <= k < ts.len() && (#[trigger] ts[k]).start == i
}

pub open spec fn shaped(cfg: LexConfig, code: Seq<char>, ts: Seq<TokenView>) -> bool {
    forall|k: int|
        0 <= k < ts.len() && opens_indent(cfg, code, (#[trigger] ts[k]).start as int) ==> indent_shape(
            ts[k].text,
        )
}

pub open spec fn covers(st: ScanState, i: int) -> bool {
    has_start(st.tokens, i) || (st.word.len() > 0 && st.word_start == i)
}

/// No region delimiter or compound symbol starts with a space or a tab, so
/// nothing but a non-blank character ends a run of indentation.
pub open spec fn no_blank_openers(rules: RulesView) -> bool {
    &&& forall|r: int|
        0 <= r < rules.regions.len() ==> {
            let g = #[trigger] rules.regions[r];
            &&& g.begin.len() > 0 && !is_blank(g.begin[0])
            &&& g.end.len() > 0 && !is_blank(g.end[0])
        }
    &&& forall|k: int|
        0 <= k < rules.compounds.len() && (#[trigger] rules.compounds[k]).len() > 0 ==> !is_blank(
            rules.compounds[k][0],
        )
}

/// Offset `e` ends a run of blanks: the input ends there or a non-blank stands there.
pub open spec fn blanks_end_at(code: Seq<char>, e: int) -> bool {
    e == code.len() || (0 <= e < code.len() && !is_blank(code[e]))
}

pub open spec fn maximal(cfg: LexConfig, code: Seq<char>, ts: Seq<TokenView>) -> bool {
    forall|k: int|
        0 <= k < ts.len() && opens_indent(cfg, code, (#[trigger] ts[k]).start as int) ==> blanks_end_at(
            code,
            token_end(ts[k]) as int,
        )
}

/// What the scan keeps after `n` characters about indentation.
pub open spec fn indent_inv(cfg: LexConfig, code: Seq<char>, st: ScanState, n: nat) -> bool {
    &&& n <= code.len()
    &&& st.word.len() > 0 ==> st.word_start < n
    &&& st.indenting ==> {
        &&& indent_shape(st.word)
        &&& st.progress.len() == 0
        &&& in_tokenized(cfg.rules, st.stack)
        &&& cfg.scoping == ScopingMode::Indent
        &&& n < code.len() ==> is_blank(code[n as int])
    }
    &&& st.word.len() > 0 && opens_indent(cfg, code, st.word_start as int) ==> st.indenting
    &&& shaped(cfg, code, st.tokens)
    &&& no_blank_openers(cfg.rules) ==> maximal(cfg, code, st.tokens)
    &&& forall|i: int| 0 <= i < n && #[trigger] opens_indent(cfg, code, i) ==> covers(st, i)
}

/// Flushing keeps what is covered and shaped, provided an indent word has its shape.
proof fn lemma_flush_indent(cfg: LexConfig, code: Seq<char>, st: ScanState, n: nat)
    requires
        shaped(cfg, code, st.tokens),
        st.word.len() > 0 && opens_indent(cfg, code, st.word_start as int) ==> indent_shape(st.word),
    ensures
        shaped(cfg, code, flush(code, st).tokens),
        forall|i: int| covers(st, i) ==> #[trigger] covers(flush(code, st), i),
        flush(code, st).word.len() == 0,
        !flush(code, st).indenting,
        flush(code, st).stack == st.stack,
        flush(code, st).progress == st.progress,
        flush(code, st).escaped == st.escaped,
        maximal(cfg, code, st.tokens) && (st.word.len() > 0 && opens_indent(cfg, code, st.word_start as int)
            ==> blanks_end_at(code, (st.word_start + st.word.len()) as int)) ==> maximal(cfg, code, flush(code, st).tokens),
{
    let f = flush(code, st);
    if st.word.len() > 0 {
        assert(f.tokens.last() == f.tokens[st.tokens.len() as int]);
        if maximal(cfg, code, st.tokens) && (st.word.len() > 0 && opens_indent(cfg, code, st.word_start as int)
            ==> blanks_end_at(code, (st.word_start + st.word.len()) as int)) {
            assert forall|k: int|
                0 <= k < f.tokens.len() && opens_indent(cfg, code, (#[trigger] f.tokens[k]).start as int) implies blanks_end_at(
                code,
                token_end(f.tokens[k]) as int,
            ) by {
                if k < st.tokens.len() {
                    assert(f.tokens[k] == st.tokens[k]);
                }
            }
        }
        assert forall|k: int|
            0 <= k < f.tokens.len() && opens_indent(cfg, code, (#[trigger] f.tokens[k]).start as int) implies indent_shape(
            f.tokens[k].text,
        ) by {
            if k < st.tokens.len() {
                assert(f.tokens[k] == st.tokens[k]);
            }
        }
        assert forall|i: int| covers(st, i) implies #[trigger] covers(f, i) by {
            if has_start(st.tokens, i) {
                let k = choose|k: int| 0 <= k < st.tokens.len() && (#[trigger] st.tokens[k]).start == i;
                assert(f.tokens[k] == st.tokens[k]);
            } else {
                assert(f.tokens[st.tokens.len() as int].start == i);
            }
        }
    }
}

proof fn lemma_push_indent(st: ScanState, c: char, i: int)
    requires
        i >= 0,
    ensures
        forall|j: int| covers(st, j) ==> #[trigger] covers(push_letter(st, c, i), j),
        covers(push_letter(st, c, i), push_letter(st, c, i).word_start as int),
        push_letter(st, c, i).word.len() > 0,
        st.word.len() > 0 ==> push_letter(st, c, i).word_start == st.word_start,
        st.word.len() == 0 ==> push_letter(st, c, i).word_start == i,
        push_letter(st, c, i).tokens == st.tokens,
{
}

proof fn lemma_step_indent(cfg: LexConfig, code: Seq<char>, st: ScanState, i: nat)
    requires
        indent_inv(cfg, code, st, i),
        i < code.len(),
        scan(cfg, code, i) == Ok::<ScanState, crate::lexer::LexFailure>(st),
        step(cfg, code, st, i as int) is Ok,
    ensures
        indent_inv(cfg, code, step(cfg, code, st, i as int)->Ok_0, i + 1),
{
    let c = code[i as int];
    let ii = i as int;
    let rs = region_step(cfg.rules, st.stack, st.escaped, code, ii);
    let s0 = ScanState { stack: rs.1, escaped: !st.escaped && c == cfg.rules.escape, ..st };
    let s1 = ScanState { progress: Seq::empty(), ..s0 };
    let newline = c == '\n' && !st.escaped;
    lemma_scan_tiles(cfg, code, i);
    lemma_first_begin_exists(cfg.rules, candidates(cfg.rules, st.stack), code, ii);
    lemma_first_begin_matches(cfg.rules, candidates(cfg.rules, st.stack), code, ii);
    if no_blank_openers(cfg.rules) && st.indenting {
        match rs.0 {
            RegionReaction::Begin(_) => {
                let g = first_begin(cfg.rules, candidates(cfg.rules, st.stack), code, ii)->0;
                assert(cfg.rules.regions[g as int].begin.len() > 0);
                assert(code.subrange(ii, ii + cfg.rules.regions[g as int].begin.len())[0] == c);
            },
            RegionReaction::End(_) => {
                let top = st.stack.last().0;
                assert(st.stack[st.stack.len() - 1].0 < cfg.rules.regions.len());
                assert(cfg.rules.regions[top as int].end.len() > 0);
                assert(code.subrange(ii, ii + cfg.rules.regions[top as int].end.len())[0] == c);
            },
            RegionReaction::Pass => {
                let tokd = in_tokenized(cfg.rules, rs.1);
                if compound_step(cfg.rules, st.progress, c, next_char(code, ii), tokd) == CompoundReaction::Begin {
                    let q = seq![c, next_char(code, ii)->0];
                    let k = choose|k: int|
                        0 <= k < cfg.rules.compounds.len() && q.len() <= cfg.rules.compounds[k].len()
                            && #[trigger] cfg.rules.compounds[k].subrange(0, q.len() as int) == q;
                    assert(cfg.rules.compounds[k].subrange(0, 2)[0] == q[0]);
                }
            },
        }
    }
    lemma_flush_indent(cfg, code, st, i);
    lemma_flush_indent(cfg, code, s1, i);
    if st.indenting {
        assert(is_blank(c));
    }
    match rs.0 {
        RegionReaction::Begin(tokenize) => {
            assert(!opens_indent(cfg, code, ii));
            lemma_push_indent(flush(code, s1), c, ii);
            if tokenize || c == '\n' {
                lemma_flush_indent(cfg, code, push_letter(flush(code, s1), c, ii), i + 1);
            }
        },
        RegionReaction::End(tokenize) => {
            assert(!opens_indent(cfg, code, ii));
            if tokenize || c == '\n' {
                lemma_push_indent(flush(code, s1), c, ii);
                lemma_flush_indent(cfg, code, push_letter(flush(code, s1), c, ii), i + 1);
            } else {
                assert(!st.indenting);
                lemma_push_indent(s1, c, ii);
                lemma_flush_indent(cfg, code, push_letter(s1, c, ii), i + 1);
            }
        },
        RegionReaction::Pass => {
            let tokd = in_tokenized(cfg.rules, rs.1);
            let cr = compound_step(cfg.rules, st.progress, c, next_char(code, ii), tokd);
            let s2 = ScanState { progress: progress_after(st.progress, c, cr), ..s0 };
            lemma_flush_indent(cfg, code, s2, i);
            match cr {
                CompoundReaction::Begin => {
                    assert(!opens_indent(cfg, code, ii));
                    lemma_push_indent(flush(code, s2), c, ii);
                },
                CompoundReaction::Keep => {
                    assert(!opens_indent(cfg, code, ii));
                    assert(!st.indenting);
                    lemma_push_indent(s2, c, ii);
                },
                CompoundReaction::End => {
                    assert(!opens_indent(cfg, code, ii));
                    assert(!st.indenting);
                    lemma_push_indent(s2, c, ii);
                    lemma_flush_indent(cfg, code, push_letter(s2, c, ii), i + 1);
                },
                CompoundReaction::Pass => {
                    if !tokd {
                        assert(!opens_indent(cfg, code, ii));
                        assert(!st.indenting);
                        lemma_push_indent(s2, c, ii);
                    } else if cfg.scoping == ScopingMode::Indent && (newline || (s2.indenting && is_blank(c))) {
                        let s4 = if newline {
                            assert(opens_indent(cfg, code, ii));
                            lemma_push_indent(flush(code, s2), c, ii);
                            ScanState { indenting: true, ..push_letter(flush(code, s2), c, ii) }
                        } else {
                            assert(!opens_indent(cfg, code, ii));
                            lemma_push_indent(s2, c, ii);
                            let p = push_letter(s2, c, ii);
                            assert forall|j: int| 1 <= j < p.word.len() implies is_blank(#[trigger] p.word[j]) by {
                                if j < s2.word.len() {
                                    assert(p.word[j] == s2.word[j]);
                                }
                            }
                            assert(p.word[0] == s2.word[0]);
                            p
                        };
                        assert(indent_shape(s4.word));
                        assert forall|j: int| 0 <= j < i + 1 && #[trigger] opens_indent(cfg, code, j) implies covers(s4, j) by {
                            if j < i {
                                assert(covers(s2, j));
                                if newline {
                                    assert(covers(flush(code, s2), j));
                                    assert(covers(push_letter(flush(code, s2), c, ii), j));
                                } else {
                                    assert(covers(push_letter(s2, c, ii), j));
                                }
                            } else if newline {
                                assert(covers(push_letter(flush(code, s2), c, ii), j));
                            }
                        }
                        lemma_flush_indent(cfg, code, s4, i + 1);
                    } else {
                        assert(!opens_indent(cfg, code, ii));
                        assert(!st.indenting);
                        if cfg.separator == SeparatorMode::Manual && newline {
                        } else if is_blank(c) {
                        } else if cfg.rules.symbols.contains(c) || newline {
                            lemma_push_indent(flush(code, s2), c, ii);
                            lemma_flush_indent(cfg, code, push_letter(flush(code, s2), c, ii), i + 1);
                        } else {
                            lemma_push_indent(s2, c, ii);
                        }
                    }
                },
            }
        },
    }
}

proof fn lemma_scan_indent(cfg: LexConfig, code: Seq<char>, n: nat)
    requires
        n <= code.len(),
        scan(cfg, code, n) is Ok,
    ensures
        indent_inv(cfg, code, scan(cfg, code, n)->Ok_0, n),
    decreases n,
{
    if n > 0 {
        lemma_scan_prefix_ok(cfg, code, (n - 1) as nat, n);
        lemma_scan_indent(cfg, code, (n - 1) as nat);
        lemma_step_indent(cfg, code, scan(cfg, code, (n - 1) as nat)->Ok_0, (n - 1) as nat);
    }
}

/// Non-empty tokens, each starting at or after the end of the one before,
/// start at strictly increasing offsets.
pub proof fn lemma_starts_increase(ts: Seq<TokenView>, a: int, b: int)
    requires
        forall|k: int| 0 <= k < ts.len() ==> (#[trigger] ts[k]).text.len() > 0 && prev_end(ts, k) <= ts[k].start,
        0 <= a < b < ts.len(),
    ensures
        token_end(ts[a]) <= ts[b].start,
        ts[a].start < ts[b].start,
    decreases b - a,
{
    assert(ts[b].start >= prev_end(ts, b));
    if b > a + 1 {
        lemma_starts_increase(ts, a, b - 1);
        assert(ts[b - 1].text.len() > 0);
    }
    assert(ts[a].text.len() > 0);
}

/// In indentation scoping every newline that opens an indent starts exactly
/// one token, since tokens start at strictly increasing offsets, and a token
/// starting at such a newline is that newline followed only by spaces and
/// tabs. So there are as many indent tokens as newlines that open an indent.
/// When no region delimiter or compound symbol starts with a blank, an indent
/// token takes the whole run of blanks after its newline.
pub proof fn lemma_indent_tokens(cfg: LexConfig, code: Seq<char>)
    requires
        lex(cfg, code) is Ok,
    ensures
        ({
            let ts = lex(cfg, code)->Ok_0;
            &&& forall|k: int|
                0 <= k < ts.len() && opens_indent(cfg, code, (#[trigger] ts[k]).start as int)
                    ==> indent_shape(ts[k].text)
            &&& forall|i: int| #[trigger] opens_indent(cfg, code, i) ==> has_start(ts, i)
            &&& forall|a: int, b: int| 0 <= a < b < ts.len() ==> (#[trigger] ts[a]).start < (#[trigger] ts[b]).start
            &&& no_blank_openers(cfg.rules) ==> forall|k: int|
                0 <= k < ts.len() && opens_indent(cfg, code, (#[trigger] ts[k]).start as int)
                    ==> blanks_end_at(code, token_end(ts[k]) as int)
        }),
{
    let st = scan(cfg, code, code.len())->Ok_0;
    lemma_scan_tiles(cfg, code, code.len());
    lemma_scan_indent(cfg, code, code.len());
    lemma_flush_indent(cfg, code, st, code.len());
    let ts = lex(cfg, code)->Ok_0;
    assert forall|i: int| #[trigger] opens_indent(cfg, code, i) implies has_start(ts, i) by {
        assert(covers(st, i));
        assert(covers(flush(code, st), i));
    }
    lemma_tokens_rebuild_source(cfg, code);
    assert forall|k: int| 0 <= k < ts.len() implies (#[trigger] ts[k]).text.len() > 0 && prev_end(ts, k) <= ts[k].start by {
        assert(tokens_tile(cfg, code, ts));
    }
    assert forall|a: int, b: int| 0 <= a < b < ts.len() implies (#[trigger] ts[a]).start < (#[trigger] ts[b]).start by {
        lemma_starts_increase(ts, a, b);
    }
}

/// `b` keeps every token of `a` and may add more after them.
pub open spec fn extends(a: Seq<TokenView>, b: Seq<TokenView>) -> bool {
    a.len() <= b.len() && forall|k: int| 0 <= k < a.len() ==> #[trigger] b[k] == a[k]
}

proof fn lemma_extends_trans(a: Seq<TokenView>, b: Seq<TokenView>, c: Seq<TokenView>)
    requires
        extends(a, b),
        extends(b, c),
    ensures
        extends(a, c),
{
    assert forall|k: int| 0 <= k < a.len() implies #[trigger] c[k] == a[k] by {
        assert(c[k] == b[k]);
    }
}

proof fn lemma_flush_extends(code: Seq<char>, st: ScanState)
    ensures
        extends(st.tokens, flush(code, st).tokens),
{
}

proof fn lemma_step_extends(cfg: LexConfig, code: Seq<char>, st: ScanState, i: nat)
    requires
        i < code.len(),
        step(cfg, code, st, i as int) is Ok,
    ensures
        extends(st.tokens, step(cfg, code, st, i as int)->Ok_0.tokens),
{
    let c = code[i as int];
    let ii = i as int;
    let rs = region_step(cfg.rules, st.stack, st.escaped, code, ii);
    let s0 = ScanState { stack: rs.1, escaped: !st.escaped && c == cfg.rules.escape, ..st };
    let s1 = ScanState { progress: Seq::empty(), ..s0 };
    let f1 = flush(code, s1);
    lemma_flush_extends(code, s1);
    lemma_flush_extends(code, push_letter(f1, c, ii));
    lemma_extends_trans(st.tokens, f1.tokens, flush(code, push_letter(f1, c, ii)).tokens);
    lemma_flush_extends(code, push_letter(s1, c, ii));
    if rs.0 == RegionReaction::Pass {
        let tokd = in_tokenized(cfg.rules, rs.1);
        let cr = compound_step(cfg.rules, st.progress, c, next_char(code, ii), tokd);
        let s2 = ScanState { progress: progress_after(st.progress, c, cr), ..s0 };
        let f2 = flush(code, s2);
        lemma_flush_extends(code, s2);
        lemma_flush_extends(code, push_letter(s2, c, ii));
        lemma_flush_extends(code, push_letter(f2, c, ii));
        lemma_extends_trans(st.tokens, f2.tokens, flush(code, push_letter(f2, c, ii)).tokens);
        let newline = c == '\n' && !st.escaped;
        if tokd && cfg.scoping == ScopingMode::Indent && (newline || (s2.indenting && is_blank(c))) {
            let s4 = if newline {
                ScanState { indenting: true, ..push_letter(f2, c, ii) }
            } else {
                push_letter(s2, c, ii)
            };
            lemma_flush_extends(code, s4);
            lemma_extends_trans(st.tokens, s4.tokens, flush(code, s4).tokens);
        }
    }
}

proof fn lemma_scan_extends(cfg: LexConfig, code: Seq<char>, a: nat, b: nat)
    requires
        a <= b <= code.len(),
        scan(cfg, code, b) is Ok,
    ensures
        extends(scan(cfg, code, a)->Ok_0.tokens, scan(cfg, code, b)->Ok_0.tokens),
    decreases b - a,
{
    if a < b {
        lemma_scan_prefix_ok(cfg, code, (b - 1) as nat, b);
        lemma_scan_prefix_ok(cfg, code, a, (b - 1) as nat);
        lemma_scan_extends(cfg, code, a, (b - 1) as nat);
        lemma_step_extends(cfg, code, scan(cfg, code, (b - 1) as nat)->Ok_0, (b - 1) as nat);
        lemma_extends_trans(
            scan(cfg, code, a)->Ok_0.tokens,
            scan(cfg, code, (b - 1) as nat)->Ok_0.tokens,
            scan(cfg, code, b)->Ok_0.tokens,
        );
    }
}

/// When lexing succeeds, no token holds an unescaped newline read inside a
/// single-line region as content: such a newline is a delimiter, and the one
/// token that holds it is that newline alone.
pub proof fn lemma_singleline_tokens(cfg: LexConfig, code: Seq<char>, p: nat)
    requires
        lex(cfg, code) is Ok,
        p < code.len(),
        code[p as int] == '\n',
        ({
            let st = scan(cfg, code, p)->Ok_0;
            st.stack.len() > 0 && cfg.rules.regions[st.stack.last().0 as int].singleline && !st.escaped
        }),
    ensures
        ({
            let ts = lex(cfg, code)->Ok_0;
            &&& exists|k: int| 0 <= k < ts.len() && (#[trigger] ts[k]).start == p
            &&& forall|k: int|
                0 <= k < ts.len() && (#[trigger] ts[k]).start <= p < token_end(ts[k]) ==> ts[k].text
                    == seq!['\n']
        }),
{
    let ts = lex(cfg, code)->Ok_0;
    let st = scan(cfg, code, p)->Ok_0;
    lemma_scan_prefix_ok(cfg, code, p + 1, code.len());
    lemma_scan_prefix_ok(cfg, code, p, code.len());
    lemma_singleline_newline_is_delimiter(cfg, code, p);
    let r = scan(cfg, code, p + 1)->Ok_0;
    assert(r == step(cfg, code, st, p as int)->Ok_0);
    let k0 = (r.tokens.len() - 1) as int;
    assert(r.tokens[k0].start == p && r.tokens[k0].text == seq!['\n']);
    lemma_scan_extends(cfg, code, p + 1, code.len());
    let fin = scan(cfg, code, code.len())->Ok_0;
    lemma_flush_extends(code, fin);
    lemma_extends_trans(r.tokens, fin.tokens, ts);
    assert(ts[k0] == r.tokens[k0]);
    lemma_tokens_rebuild_source(cfg, code);
    assert forall|k: int| 0 <= k < ts.len() && (#[trigger] ts[k]).start <= p < token_end(ts[k]) implies ts[k].text
        == seq!['\n'] by {
        assert forall|q: int| 0 <= q < ts.len() implies (#[trigger] ts[q]).text.len() > 0 && prev_end(ts, q)
            <= ts[q].start by {
            assert(tokens_tile(cfg, code, ts));
        }
        if k < k0 {
            lemma_starts_increase(ts, k, k0);
        } else if k > k0 {
            lemma_starts_increase(ts, k0, k);
        }
    }
}

} // verus!
