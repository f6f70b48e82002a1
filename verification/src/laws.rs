//! General properties of the extractor, the propagator and the pipeline,
//! stated over the same spec functions as the functions' own contracts.
use vstd::prelude::*;
use crate::config::{Replace, Rule};
use crate::evaluate::{
    eval_block, eval_line, eval_rule_spec, eval_text_every, eval_text_fpl, eval_text_keep,
    fpl_line, pipeline,
};
use crate::indent::{indent_of, is_space, leading_ws, lemma_last_line_no_nl, reindented};
use crate::text::{
    contains_at, has_sub, lemma_empty_needle, lemma_nl_at_props, lemma_occ_at_none,
    lemma_range_translate, nl_at, occ_at,
};

verus! {

proof fn lemma_leading_ws_is_run(s: Seq<char>)
    ensures
        leading_ws(s).len() <= s.len(),
        leading_ws(s) == s.take(leading_ws(s).len() as int),
        forall|j: int| 0 <= j < leading_ws(s).len() ==> is_space(s[j]),
        leading_ws(s).len() < s.len() ==> !is_space(s[leading_ws(s).len() as int]),
    decreases s.len(),
{
    if s.len() > 0 && is_space(s.first()) {
        lemma_leading_ws_is_run(s.drop_first());
        let w = leading_ws(s);
        assert(w == seq![s.first()] + leading_ws(s.drop_first()));
        assert forall|j: int| 0 <= j < w.len() implies is_space(s[j]) by {
            if j > 0 {
                assert(is_space(s.drop_first()[j - 1]));
            }
        }
        assert(w =~= s.take(w.len() as int));
    } else {
        assert(leading_ws(s) =~= s.take(0));
    }
}

/// On a fragment with no line break, the extractor returns exactly the
/// fragment's maximal leading whitespace run: a whitespace-only prefix
/// (possibly empty, possibly the whole fragment) that is not followed by
/// another whitespace character.
pub proof fn lemma_extractor_no_line_break(f: Seq<char>)
    requires
        forall|j: int| 0 <= j < f.len() ==> f[j] != '\n',
    ensures
        indent_of(f) == leading_ws(f),
        leading_ws(f).len() <= f.len(),
        leading_ws(f) == f.take(leading_ws(f).len() as int),
        forall|j: int| 0 <= j < leading_ws(f).len() ==> is_space(f[j]),
        leading_ws(f).len() < f.len() ==> !is_space(f[leading_ws(f).len() as int]),
{
    lemma_last_line_no_nl(f);
    lemma_leading_ws_is_run(f);
}

/// The propagator leaves a single-line text unchanged, for any indentation:
/// a text whose only line break, if any, is its final character has no line
/// after its first, so there is nothing to indent.
pub proof fn lemma_propagator_single_line(t: Seq<char>, ind: Seq<char>)
    requires
        forall|j: int| 0 <= j < t.len() - 1 ==> t[j] != '\n',
    ensures
        reindented(t, ind) == t,
    decreases t.len(),
{
    if t.len() > 0 {
        assert(!(t.first() == '\n' && t.len() > 1));
        assert forall|j: int| 0 <= j < t.drop_first().len() - 1 implies t.drop_first()[j]
            != '\n' by {
            assert(t.drop_first()[j] == t[j + 1]);
        }
        lemma_propagator_single_line(t.drop_first(), ind);
        assert(reindented(t, ind) =~= t);
    }
}

/// A rule's needle no longer occurs in the content: the substring for a text
/// rule, the line-qualifying needle for a whole-line rule, the start marker
/// for a block rule. A regular-expression rule never rewrites anything.
pub open spec fn needle_absent(c: Seq<char>, rule: Rule) -> bool {
    match rule.replace {
        Replace::Text(t) => !has_sub(c, t@),
        Replace::Line(p) => !has_sub(c, p@),
        Replace::Regex(_) => true,
        Replace::LinesBetween(s, e) => !has_sub(c, s@),
    }
}

proof fn lemma_no_sub_in_range(c: Seq<char>, n: Seq<char>, from: int, to: int)
    requires
        0 <= from <= to <= c.len(),
        !has_sub(c, n),
    ensures
        !has_sub(c.subrange(from, to), n),
{
    assert forall|j: int| 0 <= j implies !contains_at(c.subrange(from, to), n, j) by {
        if contains_at(c.subrange(from, to), n, j) {
            lemma_range_translate(c, n, from, to, from + j);
            assert(contains_at(c, n, from + j));
            assert(has_sub(c, n));
        }
    }
    if has_sub(c.subrange(from, to), n) {
        let j = choose|j: int| contains_at(c.subrange(from, to), n, j);
        assert(j >= 0);
    }
}

proof fn lemma_no_occurrence(c: Seq<char>, n: Seq<char>)
    requires
        !has_sub(c, n),
    ensures
        occ_at(c, n) == c.len(),
        !contains_at(c, n, occ_at(c, n)),
        n.len() >= 1,
{
    if n.len() == 0 {
        lemma_empty_needle(c, n);
    }
    assert forall|j: int| 0 <= j implies !contains_at(c, n, j) by {
        if contains_at(c, n, j) {
            assert(has_sub(c, n));
        }
    }
    lemma_occ_at_none(c, n);
}

proof fn lemma_fpl_id(c: Seq<char>, n: Seq<char>, r: Seq<char>, keep: bool)
    requires
        !has_sub(c, n),
        c.len() == 0 || c.last() == '\n',
    ensures
        eval_text_fpl(c, n, r, keep) == c,
    decreases c.len(),
{
    if c.len() == 0 {
        assert(eval_text_fpl(c, n, r, keep) =~= c);
    } else {
        let k = nl_at(c);
        lemma_nl_at_props(c);
        assert(k < c.len());
        let line = c.take(k);
        lemma_no_sub_in_range(c, n, 0, k);
        assert(line =~= c.subrange(0, k));
        lemma_no_occurrence(line, n);
        assert(fpl_line(line, n, r, keep) == line);
        let rest = c.skip(k + 1);
        assert(rest =~= c.subrange(k + 1, c.len() as int));
        lemma_no_sub_in_range(c, n, k + 1, c.len() as int);
        if rest.len() > 0 {
            assert(rest.last() == c.last());
        }
        lemma_fpl_id(rest, n, r, keep);
        assert(line + seq!['\n'] + rest =~= c);
    }
}

proof fn lemma_line_id(
    c: Seq<char>,
    n: Seq<char>,
    r: Seq<char>,
    keep: bool,
    first_only: bool,
    active: bool,
)
    requires
        !has_sub(c, n),
    ensures
        eval_line(c, n, r, keep, first_only, active) == c,
    decreases c.len(),
{
    if c.len() == 0 {
        assert(eval_line(c, n, r, keep, first_only, active) =~= c);
    } else {
        let k = nl_at(c);
        lemma_nl_at_props(c);
        if 0 <= k < c.len() {
            let line = c.take(k);
            assert(line =~= c.subrange(0, k));
            lemma_no_sub_in_range(c, n, 0, k);
            let rest = c.skip(k + 1);
            assert(rest =~= c.subrange(k + 1, c.len() as int));
            lemma_no_sub_in_range(c, n, k + 1, c.len() as int);
            lemma_line_id(rest, n, r, keep, first_only, active);
            assert(line + seq!['\n'] + rest =~= c);
        }
    }
}

proof fn lemma_block_id(c: Seq<char>, s: Seq<char>, e: Seq<char>, r: Seq<char>)
    requires
        !has_sub(c, s),
        c.len() == 0 || c.last() == '\n',
    ensures
        eval_block(c, s, e, r) == c,
    decreases c.len(),
{
    if c.len() == 0 {
        assert(eval_block(c, s, e, r) =~= c);
    } else {
        let k = nl_at(c);
        lemma_nl_at_props(c);
        assert(k < c.len());
        let line = c.take(k);
        assert(line =~= c.subrange(0, k));
        lemma_no_sub_in_range(c, s, 0, k);
        let rest = c.skip(k + 1);
        assert(rest =~= c.subrange(k + 1, c.len() as int));
        lemma_no_sub_in_range(c, s, k + 1, c.len() as int);
        if rest.len() > 0 {
            assert(rest.last() == c.last());
        }
        lemma_block_id(rest, s, e, r);
        assert(line + seq!['\n'] + rest =~= c);
    }
}

/// One rule whose needle no longer occurs leaves the content unchanged,
/// whatever its replacement resolved to, provided the content is empty or
/// ends with a line break (the line-splitting rule kinds re-terminate every
/// line they emit, so a content lacking a final break would gain one).
pub proof fn lemma_rule_keeps_content(c: Seq<char>, rule: Rule, rep: Seq<char>)
    requires
        needle_absent(c, rule),
        c.len() == 0 || c.last() == '\n',
    ensures
        eval_rule_spec(c, rule, rep) == c,
{
    match rule.replace {
        Replace::Text(t) => {
            match rule.which {
                crate::config::Which::First => {
                    lemma_no_occurrence(c, t@);
                },
                crate::config::Which::FirstInLine => {
                    lemma_fpl_id(c, t@, rep, rule.keep_spaces);
                },
                crate::config::Which::Every => {
                    lemma_no_occurrence(c, t@);
                    if rule.keep_spaces {
                        assert(eval_text_keep(c, t@, rep) == c);
                    } else {
                        assert(eval_text_every(c, t@, rep) == c);
                    }
                },
            }
        },
        Replace::Line(p) => {
            lemma_line_id(c, p@, rep, rule.keep_spaces, rule.which is First, true);
        },
        Replace::Regex(_) => {},
        Replace::LinesBetween(s, e) => {
            lemma_block_id(c, s@, e@, rep);
        },
    }
}

/// Idempotence of a completed run: re-running a pipeline on an output in
/// which none of its rules' needles occurs any longer returns that output
/// unchanged, for any resolved replacements, provided the output is empty or
/// ends with a line break.
pub proof fn lemma_pipeline_idempotent(c: Seq<char>, rules: Seq<Rule>, reps: Seq<Seq<char>>)
    requires
        c.len() == 0 || c.last() == '\n',
        forall|i: int| 0 <= i < rules.len() ==> needle_absent(c, #[trigger] rules[i]),
    ensures
        pipeline(c, rules, reps) == c,
    decreases rules.len(),
{
    if rules.len() > 0 {
        assert(needle_absent(c, rules[0]));
        lemma_rule_keeps_content(c, rules.first(), reps.first());
        assert forall|i: int| 0 <= i < rules.drop_first().len() implies needle_absent(
            c,
            #[trigger] rules.drop_first()[i],
        ) by {
            assert(rules.drop_first()[i] == rules[i + 1]);
        }
        lemma_pipeline_idempotent(c, rules.drop_first(), reps.drop_first());
    }
}

} // verus!
