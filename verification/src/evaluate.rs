//! The rule evaluator: given a content buffer, one rule and its resolved
//! replacement, produce the rewritten content; and the pipeline that folds an
//! ordered rule list over the buffer.
use vstd::prelude::*;
use crate::config::{Config, Replace, Rule, Which, With};
use crate::indent::{indent_of, indent_range, reindent_chars, reindented};
use crate::text::{
    append_all, append_range, chars_to_string, contains_at, copy_range, find_at, find_nl, has_sub,
    lemma_contains_translate, lemma_nl_at_found, lemma_nl_at_none,
    lemma_occ_at_found, lemma_occ_at_none, nl_at, occ_at, range_has, str_to_chars,
};

verus! {

/// Raw-substring replacement of the earliest occurrence alone. With
/// `keep`, the replacement is first re-indented to the indentation of the
/// line the occurrence starts on, read from the text before it.
pub open spec fn eval_text_first(c: Seq<char>, n: Seq<char>, r: Seq<char>, keep: bool) -> Seq<
    char,
> {
    let p = occ_at(c, n);
    if contains_at(c, n, p) {
        let rr = if keep {
            reindented(r, indent_of(c.take(p)))
        } else {
            r
        };
        c.take(p) + rr + c.skip(p + n.len() as int)
    } else {
        c
    }
}

/// One line under `FirstInLine` replacement: at most its earliest occurrence
/// is substituted, re-indented to the line's own prefix if `keep`.
pub open spec fn fpl_line(line: Seq<char>, n: Seq<char>, r: Seq<char>, keep: bool) -> Seq<char> {
    let p = occ_at(line, n);
    if contains_at(line, n, p) {
        let rr = if keep {
            reindented(r, indent_of(line))
        } else {
            r
        };
        line.take(p) + rr + line.skip(p + n.len() as int)
    } else {
        line
    }
}

/// Raw-substring replacement, earliest occurrence within each line. Every
/// processed line is re-emitted with a trailing line break, so a document
/// lacking one gains one.
pub open spec fn eval_text_fpl(c: Seq<char>, n: Seq<char>, r: Seq<char>, keep: bool) -> Seq<char>
    decreases c.len(),
{
    if c.len() == 0 {
        Seq::<char>::empty()
    } else {
        let k = nl_at(c);
        if 0 <= k < c.len() {
            fpl_line(c.take(k), n, r, keep) + seq!['\n'] + eval_text_fpl(c.skip(k + 1), n, r, keep)
        } else {
            fpl_line(c, n, r, keep) + seq!['\n']
        }
    }
}

/// What follows the first inserted copy when an empty needle is replaced
/// everywhere: each character, then one more copy of the replacement.
pub open spec fn every_tail(c: Seq<char>, r: Seq<char>) -> Seq<char>
    decreases c.len(),
{
    if c.len() == 0 {
        Seq::<char>::empty()
    } else {
        seq![c.first()] + r + every_tail(c.drop_first(), r)
    }
}

/// Raw-substring replacement of every occurrence, scanning left to right over
/// a cursor that advances past each substituted occurrence.
pub open spec fn eval_text_every(c: Seq<char>, n: Seq<char>, r: Seq<char>) -> Seq<char>
    decreases c.len(),
{
    if n.len() == 0 {
        r + every_tail(c, r)
    } else {
        let p = occ_at(c, n);
        if contains_at(c, n, p) {
            c.take(p) + r + eval_text_every(c.skip(p + n.len() as int), n, r)
        } else {
            c
        }
    }
}

/// As `every_tail`, with each inserted copy re-indented to the one-character
/// segment before it.
pub open spec fn keep_tail(c: Seq<char>, r: Seq<char>) -> Seq<char>
    decreases c.len(),
{
    if c.len() == 0 {
        Seq::<char>::empty()
    } else {
        seq![c.first()] + reindented(r, indent_of(seq![c.first()])) + keep_tail(c.drop_first(), r)
    }
}

/// Raw-substring replacement of every occurrence with indentation kept: the
/// copy inserted at an occurrence is re-indented using the indentation
/// extracted from the segment between the previous occurrence (or the start)
/// and this one; segment text itself is never modified.
pub open spec fn eval_text_keep(c: Seq<char>, n: Seq<char>, r: Seq<char>) -> Seq<char>
    decreases c.len(),
{
    if n.len() == 0 {
        reindented(r, indent_of(Seq::<char>::empty())) + keep_tail(c, r)
    } else {
        let p = occ_at(c, n);
        if contains_at(c, n, p) {
            c.take(p) + reindented(r, indent_of(c.take(p))) + eval_text_keep(
                c.skip(p + n.len() as int),
                n,
                r,
            )
        } else {
            c
        }
    }
}

/// A qualifying line's entire text is replaced by the replacement; with
/// `keep` the replacement is re-indented to the line's own indentation,
/// which is put back in front of it.
pub open spec fn line_repl(line: Seq<char>, r: Seq<char>, keep: bool) -> Seq<char> {
    if keep {
        let ind = indent_of(line);
        ind + reindented(r, ind)
    } else {
        r
    }
}

/// Whole-line replacement: a line qualifies when it contains the needle and
/// substitution is still `active`; with `first_only` the first qualifying
/// line switches further substitution off. Line breaks are kept as they are.
pub open spec fn eval_line(
    c: Seq<char>,
    n: Seq<char>,
    r: Seq<char>,
    keep: bool,
    first_only: bool,
    active: bool,
) -> Seq<char>
    decreases c.len(),
{
    if c.len() == 0 {
        Seq::<char>::empty()
    } else {
        let k = nl_at(c);
        if 0 <= k < c.len() {
            let line = c.take(k);
            let q = active && has_sub(line, n);
            let line2 = if q {
                line_repl(line, r, keep)
            } else {
                line
            };
            let active2 = if q {
                !first_only
            } else {
                active
            };
            line2 + seq!['\n'] + eval_line(c.skip(k + 1), n, r, keep, first_only, active2)
        } else {
            if active && has_sub(c, n) {
                line_repl(c, r, keep)
            } else {
                c
            }
        }
    }
}

/// Sentinel-delimited block replacement, outside a block: lines are emitted
/// unchanged (each with a line break) until one contains the start marker;
/// that line opens a block indented as it is.
pub open spec fn eval_block(c: Seq<char>, s: Seq<char>, e: Seq<char>, r: Seq<char>) -> Seq<char>
    decreases c.len(),
{
    if c.len() == 0 {
        Seq::<char>::empty()
    } else {
        let k = nl_at(c);
        let line = if 0 <= k < c.len() {
            c.take(k)
        } else {
            c
        };
        let rest = if 0 <= k < c.len() {
            c.skip(k + 1)
        } else {
            Seq::<char>::empty()
        };
        if has_sub(line, s) {
            line + seq!['\n'] + block_tail(rest, s, e, r, indent_of(line))
        } else {
            line + seq!['\n'] + eval_block(rest, s, e, r)
        }
    }
}

/// Inside an open block: original lines are discarded until one contains the
/// end marker; the re-indented replacement is emitted just before that line.
/// If no such line comes, the rest of the document is consumed with nothing
/// emitted.
pub open spec fn block_tail(
    c: Seq<char>,
    s: Seq<char>,
    e: Seq<char>,
    r: Seq<char>,
    ind: Seq<char>,
) -> Seq<char>
    decreases c.len(),
{
    if c.len() == 0 {
        Seq::<char>::empty()
    } else {
        let k = nl_at(c);
        let line = if 0 <= k < c.len() {
            c.take(k)
        } else {
            c
        };
        let rest = if 0 <= k < c.len() {
            c.skip(k + 1)
        } else {
            Seq::<char>::empty()
        };
        if has_sub(line, e) {
            ind + reindented(r, ind) + seq!['\n'] + line + seq!['\n'] + eval_block(rest, s, e, r)
        } else {
            block_tail(rest, s, e, r, ind)
        }
    }
}

/// What one rule turns the content into, given its resolved replacement.
pub open spec fn eval_rule_spec(c: Seq<char>, rule: Rule, rep: Seq<char>) -> Seq<char> {
    match rule.replace {
        Replace::Text(t) => match rule.which {
            Which::First => eval_text_first(c, t@, rep, rule.keep_spaces),
            Which::FirstInLine => eval_text_fpl(c, t@, rep, rule.keep_spaces),
            Which::Every => if rule.keep_spaces {
                eval_text_keep(c, t@, rep)
            } else {
                eval_text_every(c, t@, rep)
            },
        },
        Replace::Line(p) => eval_line(c, p@, rep, rule.keep_spaces, rule.which is First, true),
        Replace::Regex(_) => c,
        Replace::LinesBetween(s, e) => eval_block(c, s@, e@, rep),
    }
}

/// The pipeline: rule `i`'s output is rule `i + 1`'s input.
pub open spec fn pipeline(c: Seq<char>, rules: Seq<Rule>, reps: Seq<Seq<char>>) -> Seq<char>
    decreases rules.len(),
{
    if rules.len() == 0 {
        c
    } else {
        pipeline(eval_rule_spec(c, rules.first(), reps.first()), rules.drop_first(),
            reps.drop_first())
    }
}

fn text_first(v: &Vec<char>, n: &Vec<char>, rep: &Vec<char>, keep: bool) -> (out: Vec<char>)
    ensures
        out@ == eval_text_first(v@, n@, rep@, keep),
{
    match find_at(v, n, 0) {
        None => {
            proof {
                lemma_occ_at_none(v@, n@);
            }
            copy_range(v, 0, v.len())
        },
        Some(k) => {
            proof {
                lemma_occ_at_found(v@, n@, k as int);
            }
            let vl = v.len();
            let mut out = copy_range(v, 0, k);
            proof {
                assert(v@.subrange(0, k as int) =~= v@.take(k as int));
            }
            if keep {
                let ind = indent_range(v, 0, k);
                proof {
                    assert(v@.subrange(0, k as int) =~= v@.take(k as int));
                }
                let rr = reindent_chars(rep, &ind);
                append_all(&mut out, &rr);
            } else {
                append_all(&mut out, rep);
            }
            append_range(&mut out, v, k + n.len(), vl);
            proof {
                assert(v@.subrange(k + n@.len() as int, v@.len() as int) =~= v@.skip(
                    k + n@.len() as int,
                ));
                assert(out@ =~= eval_text_first(v@, n@, rep@, keep));
            }
            out
        },
    }
}

fn text_every(v: &Vec<char>, n: &Vec<char>, rep: &Vec<char>) -> (out: Vec<char>)
    ensures
        out@ == eval_text_every(v@, n@, rep@),
{
    let vl = v.len();
    let mut out: Vec<char> = Vec::new();
    if n.len() == 0 {
        append_all(&mut out, rep);
        let mut i: usize = 0;
        proof {
            assert(v@.skip(0) =~= v@);
            assert(out@ + every_tail(v@, rep@) =~= eval_text_every(v@, n@, rep@));
        }
        while i < vl
            invariant
                i <= vl == v@.len(),
                eval_text_every(v@, n@, rep@) == out@ + every_tail(v@.skip(i as int), rep@),
            decreases vl - i,
        {
            let ghost pre = out@;
            let ghost rest = v@.skip(i as int);
            out.push(v[i]);
            append_all(&mut out, rep);
            proof {
                assert(rest.drop_first() =~= v@.skip(i + 1));
                assert(out@ =~= pre + seq![rest.first()] + rep@);
                assert(pre + (seq![rest.first()] + rep@ + every_tail(v@.skip(i + 1), rep@)) =~= (
                pre + seq![rest.first()] + rep@) + every_tail(v@.skip(i + 1), rep@));
            }
            i = i + 1;
        }
        proof {
            assert(every_tail(v@.skip(vl as int), rep@) =~= Seq::<char>::empty());
            assert(out@ =~= eval_text_every(v@, n@, rep@));
        }
        return out;
    }
    let mut pos: usize = 0;
    proof {
        assert(v@.skip(0) =~= v@);
        assert(out@ + eval_text_every(v@, n@, rep@) =~= eval_text_every(v@, n@, rep@));
    }
    loop
        invariant
            pos <= vl,
            vl == v@.len(),
            n@.len() >= 1,
            eval_text_every(v@, n@, rep@) == out@ + eval_text_every(
                v@.skip(pos as int),
                n@,
                rep@,
            ),
        decreases vl - pos,
    {
        let ghost cs = v@.skip(pos as int);
        let ghost pre = out@;
        match find_at(v, n, pos) {
            Some(k) => {
                proof {
                    lemma_contains_translate(v@, n@, pos as int, k - pos);
                    assert forall|j: int| 0 <= j < k - pos implies !contains_at(cs, n@, j) by {
                        lemma_contains_translate(v@, n@, pos as int, j);
                    }
                    lemma_occ_at_found(cs, n@, k - pos);
                }
                append_range(&mut out, v, pos, k);
                append_all(&mut out, rep);
                proof {
                    assert(cs.take(k - pos) =~= v@.subrange(pos as int, k as int));
                    assert(cs.skip(k - pos + n@.len() as int) =~= v@.skip(k + n@.len() as int));
                    assert(out@ =~= pre + cs.take(k - pos) + rep@);
                    assert(pre + (cs.take(k - pos) + rep@ + eval_text_every(
                        v@.skip(k + n@.len() as int),
                        n@,
                        rep@,
                    )) =~= out@ + eval_text_every(v@.skip(k + n@.len() as int), n@, rep@));
                }
                pos = k + n.len();
            },
            None => {
                proof {
                    assert forall|j: int| 0 <= j implies !contains_at(cs, n@, j) by {
                        lemma_contains_translate(v@, n@, pos as int, j);
                    }
                    lemma_occ_at_none(cs, n@);
                    assert(!contains_at(cs, n@, occ_at(cs, n@)));
                }
                append_range(&mut out, v, pos, vl);
                proof {
                    assert(v@.subrange(pos as int, vl as int) =~= cs);
                    assert(out@ =~= eval_text_every(v@, n@, rep@));
                }
                return out;
            },
        }
    }
}

fn text_every_keep(v: &Vec<char>, n: &Vec<char>, rep: &Vec<char>) -> (out: Vec<char>)
    ensures
        out@ == eval_text_keep(v@, n@, rep@),
{
    let vl = v.len();
    let mut out: Vec<char> = Vec::new();
    if n.len() == 0 {
        let empty_ind: Vec<char> = Vec::new();
        let rr0 = reindent_chars(rep, &empty_ind);
        append_all(&mut out, &rr0);
        let mut i: usize = 0;
        proof {
            assert(empty_ind@ =~= indent_of(Seq::<char>::empty()));
            assert(v@.skip(0) =~= v@);
            assert(out@ + keep_tail(v@, rep@) =~= eval_text_keep(v@, n@, rep@));
        }
        while i < vl
            invariant
                i <= vl == v@.len(),
                eval_text_keep(v@, n@, rep@) == out@ + keep_tail(v@.skip(i as int), rep@),
            decreases vl - i,
        {
            let ghost pre = out@;
            let ghost rest = v@.skip(i as int);
            out.push(v[i]);
            let ind = indent_range(v, i, i + 1);
            proof {
                assert(v@.subrange(i as int, i + 1) =~= seq![rest.first()]);
            }
            let rr = reindent_chars(rep, &ind);
            append_all(&mut out, &rr);
            proof {
                assert(rest.drop_first() =~= v@.skip(i + 1));
                assert(out@ =~= pre + seq![rest.first()] + rr@);
                assert(pre + (seq![rest.first()] + rr@ + keep_tail(v@.skip(i + 1), rep@)) =~= (pre
                    + seq![rest.first()] + rr@) + keep_tail(v@.skip(i + 1), rep@));
            }
            i = i + 1;
        }
        proof {
            assert(keep_tail(v@.skip(vl as int), rep@) =~= Seq::<char>::empty());
            assert(out@ =~= eval_text_keep(v@, n@, rep@));
        }
        return out;
    }
    let mut pos: usize = 0;
    proof {
        assert(v@.skip(0) =~= v@);
        assert(out@ + eval_text_keep(v@, n@, rep@) =~= eval_text_keep(v@, n@, rep@));
    }
    loop
        invariant
            pos <= vl,
            vl == v@.len(),
            n@.len() >= 1,
            eval_text_keep(v@, n@, rep@) == out@ + eval_text_keep(v@.skip(pos as int), n@, rep@),
        decreases vl - pos,
    {
        let ghost cs = v@.skip(pos as int);
        let ghost pre = out@;
        match find_at(v, n, pos) {
            Some(k) => {
                proof {
                    lemma_contains_translate(v@, n@, pos as int, k - pos);
                    assert forall|j: int| 0 <= j < k - pos implies !contains_at(cs, n@, j) by {
                        lemma_contains_translate(v@, n@, pos as int, j);
                    }
                    lemma_occ_at_found(cs, n@, k - pos);
                }
                append_range(&mut out, v, pos, k);
                let ind = indent_range(v, pos, k);
                proof {
                    assert(v@.subrange(pos as int, k as int) =~= cs.take(k - pos));
                }
                let rr = reindent_chars(rep, &ind);
                append_all(&mut out, &rr);
                proof {
                    assert(cs.skip(k - pos + n@.len() as int) =~= v@.skip(k + n@.len() as int));
                    assert(out@ =~= pre + cs.take(k - pos) + rr@);
                    assert(pre + (cs.take(k - pos) + rr@ + eval_text_keep(
                        v@.skip(k + n@.len() as int),
                        n@,
                        rep@,
                    )) =~= out@ + eval_text_keep(v@.skip(k + n@.len() as int), n@, rep@));
                }
                pos = k + n.len();
            },
            None => {
                proof {
                    assert forall|j: int| 0 <= j implies !contains_at(cs, n@, j) by {
                        lemma_contains_translate(v@, n@, pos as int, j);
                    }
                    lemma_occ_at_none(cs, n@);
                    assert(!contains_at(cs, n@, occ_at(cs, n@)));
                }
                append_range(&mut out, v, pos, vl);
                proof {
                    assert(v@.subrange(pos as int, vl as int) =~= cs);
                    assert(out@ =~= eval_text_keep(v@, n@, rep@));
                }
                return out;
            },
        }
    }
}

#[verifier::rlimit(80)]
fn text_first_in_line(v: &Vec<char>, n: &Vec<char>, rep: &Vec<char>, keep: bool) -> (out: Vec<
    char,
>)
    ensures
        out@ == eval_text_fpl(v@, n@, rep@, keep),
{
    let vl = v.len();
    let mut out: Vec<char> = Vec::new();
    let mut pos: usize = 0;
    proof {
        assert(v@.skip(0) =~= v@);
        assert(out@ + eval_text_fpl(v@, n@, rep@, keep) =~= eval_text_fpl(v@, n@, rep@, keep));
    }
    loop
        invariant
            pos <= vl,
            vl == v@.len(),
            eval_text_fpl(v@, n@, rep@, keep) == out@ + eval_text_fpl(
                v@.skip(pos as int),
                n@,
                rep@,
                keep,
            ),
        decreases vl + 1 - pos,
    {
        let ghost cs = v@.skip(pos as int);
        let ghost pre = out@;
        if pos == vl {
            proof {
                assert(cs =~= Seq::<char>::empty());
                assert(out@ =~= eval_text_fpl(v@, n@, rep@, keep));
            }
            return out;
        }
        let (lend, had_nl): (usize, bool) = match find_nl(v, pos) {
            Some(k) => (k, true),
            None => (vl, false),
        };
        proof {
            if had_nl {
                assert forall|j: int| 0 <= j < lend - pos implies cs[j] != '\n' by {
                    assert(cs[j] == v@[pos + j]);
                }
                lemma_nl_at_found(cs, lend - pos);
            } else {
                assert forall|j: int| 0 <= j < cs.len() implies cs[j] != '\n' by {
                    assert(cs[j] == v@[pos + j]);
                }
                lemma_nl_at_none(cs);
            }
        }
        let ghost line_spec_arg: Seq<char> = if had_nl {
            cs.take(lend - pos)
        } else {
            cs
        };
        let line = copy_range(v, pos, lend);
        proof {
            assert(line@ =~= line_spec_arg);
        }
        match find_at(&line, n, 0) {
            None => {
                proof {
                    lemma_occ_at_none(line@, n@);
                }
                append_range(&mut out, v, pos, lend);
            },
            Some(p) => {
                proof {
                    lemma_occ_at_found(line@, n@, p as int);
                }
                append_range(&mut out, v, pos, pos + p);
                proof {
                    assert(v@.subrange(pos as int, pos + p) =~= line@.take(p as int));
                }
                if keep {
                    let ind = indent_range(&line, 0, line.len());
                    proof {
                        assert(line@.subrange(0, line@.len() as int) =~= line@);
                    }
                    let rr = reindent_chars(rep, &ind);
                    append_all(&mut out, &rr);
                } else {
                    append_all(&mut out, rep);
                }
                append_range(&mut out, v, pos + p + n.len(), lend);
                proof {
                    assert(v@.subrange(pos + p + n@.len() as int, lend as int) =~= line@.skip(
                        p + n@.len() as int,
                    ));
                }
            },
        }
        out.push('\n');
        proof {
            assert(out@ =~= pre + fpl_line(line@, n@, rep@, keep) + seq!['\n']);
        }
        if had_nl {
            proof {
                assert(cs.skip(lend - pos + 1) =~= v@.skip(lend + 1));
                assert(pre + (fpl_line(line@, n@, rep@, keep) + seq!['\n'] + eval_text_fpl(
                    v@.skip(lend + 1),
                    n@,
                    rep@,
                    keep,
                )) =~= out@ + eval_text_fpl(v@.skip(lend + 1), n@, rep@, keep));
            }
            pos = lend + 1;
        } else {
            proof {
                assert(out@ =~= eval_text_fpl(v@, n@, rep@, keep));
            }
            return out;
        }
    }
}

#[verifier::rlimit(80)]
fn line_rule(v: &Vec<char>, n: &Vec<char>, rep: &Vec<char>, keep: bool, first_only: bool) -> (out:
    Vec<char>)
    ensures
        out@ == eval_line(v@, n@, rep@, keep, first_only, true),
{
    let vl = v.len();
    let mut out: Vec<char> = Vec::new();
    let mut pos: usize = 0;
    let mut active = true;
    proof {
        assert(v@.skip(0) =~= v@);
        assert(out@ + eval_line(v@, n@, rep@, keep, first_only, true) =~= eval_line(
            v@,
            n@,
            rep@,
            keep,
            first_only,
            true,
        ));
    }
    loop
        invariant
            pos <= vl,
            vl == v@.len(),
            eval_line(v@, n@, rep@, keep, first_only, true) == out@ + eval_line(
                v@.skip(pos as int),
                n@,
                rep@,
                keep,
                first_only,
                active,
            ),
        decreases vl + 1 - pos,
    {
        let ghost cs = v@.skip(pos as int);
        let ghost pre = out@;
        let ghost act0 = active;
        if pos == vl {
            proof {
                assert(cs =~= Seq::<char>::empty());
                assert(out@ =~= eval_line(v@, n@, rep@, keep, first_only, true));
            }
            return out;
        }
        let (lend, had_nl): (usize, bool) = match find_nl(v, pos) {
            Some(k) => (k, true),
            None => (vl, false),
        };
        proof {
            if had_nl {
                assert forall|j: int| 0 <= j < lend - pos implies cs[j] != '\n' by {
                    assert(cs[j] == v@[pos + j]);
                }
                lemma_nl_at_found(cs, lend - pos);
            } else {
                assert forall|j: int| 0 <= j < cs.len() implies cs[j] != '\n' by {
                    assert(cs[j] == v@[pos + j]);
                }
                lemma_nl_at_none(cs);
            }
        }
        let ghost line: Seq<char> = if had_nl {
            cs.take(lend - pos)
        } else {
            cs
        };
        proof {
            assert(line =~= v@.subrange(pos as int, lend as int));
        }
        let qualifies = active && range_has(v, n, pos, lend);
        if qualifies {
            if keep {
                let ind = indent_range(v, pos, lend);
                append_all(&mut out, &ind);
                let rr = reindent_chars(rep, &ind);
                append_all(&mut out, &rr);
            } else {
                append_all(&mut out, rep);
            }
            if first_only {
                active = false;
            }
            proof {
                assert(out@ =~= pre + line_repl(line, rep@, keep));
            }
        } else {
            append_range(&mut out, v, pos, lend);
        }
        if had_nl {
            out.push('\n');
            proof {
                assert(cs.skip(lend - pos + 1) =~= v@.skip(lend + 1));
                let line2 = if act0 && has_sub(line, n@) {
                    line_repl(line, rep@, keep)
                } else {
                    line
                };
                assert(out@ =~= pre + line2 + seq!['\n']);
                assert(pre + (line2 + seq!['\n'] + eval_line(
                    v@.skip(lend + 1),
                    n@,
                    rep@,
                    keep,
                    first_only,
                    active,
                )) =~= out@ + eval_line(v@.skip(lend + 1), n@, rep@, keep, first_only, active));
            }
            pos = lend + 1;
        } else {
            proof {
                assert(out@ =~= eval_line(v@, n@, rep@, keep, first_only, true));
            }
            return out;
        }
    }
}

#[verifier::rlimit(80)]
fn block_rule(v: &Vec<char>, s: &Vec<char>, e: &Vec<char>, rep: &Vec<char>) -> (out: Vec<char>)
    ensures
        out@ == eval_block(v@, s@, e@, rep@),
{
    let vl = v.len();
    let mut out: Vec<char> = Vec::new();
    let mut pos: usize = 0;
    let mut inblock = false;
    let mut ind: Vec<char> = Vec::new();
    proof {
        assert(v@.skip(0) =~= v@);
        assert(out@ + eval_block(v@, s@, e@, rep@) =~= eval_block(v@, s@, e@, rep@));
    }
    loop
        invariant
            pos <= vl,
            vl == v@.len(),
            eval_block(v@, s@, e@, rep@) == out@ + (if inblock {
                block_tail(v@.skip(pos as int), s@, e@, rep@, ind@)
            } else {
                eval_block(v@.skip(pos as int), s@, e@, rep@)
            }),
        decreases vl + 1 - pos,
    {
        let ghost cs = v@.skip(pos as int);
        let ghost pre = out@;
        if pos == vl {
            proof {
                assert(cs =~= Seq::<char>::empty());
                assert(out@ =~= eval_block(v@, s@, e@, rep@));
            }
            return out;
        }
        let (lend, had_nl): (usize, bool) = match find_nl(v, pos) {
            Some(k) => (k, true),
            None => (vl, false),
        };
        proof {
            if had_nl {
                assert forall|j: int| 0 <= j < lend - pos implies cs[j] != '\n' by {
                    assert(cs[j] == v@[pos + j]);
                }
                lemma_nl_at_found(cs, lend - pos);
            } else {
                assert forall|j: int| 0 <= j < cs.len() implies cs[j] != '\n' by {
                    assert(cs[j] == v@[pos + j]);
                }
                lemma_nl_at_none(cs);
            }
        }
        let ghost line: Seq<char> = if had_nl {
            cs.take(lend - pos)
        } else {
            cs
        };
        let ghost rest: Seq<char> = if had_nl {
            cs.skip(lend - pos + 1)
        } else {
            Seq::<char>::empty()
        };
        proof {
            assert(line =~= v@.subrange(pos as int, lend as int));
            if had_nl {
                assert(rest =~= v@.skip(lend + 1));
            }
        }
        let next_pos = if had_nl {
            lend + 1
        } else {
            vl
        };
        proof {
            assert(rest =~= v@.skip(next_pos as int));
        }
        if !inblock {
            append_range(&mut out, v, pos, lend);
            out.push('\n');
            if range_has(v, s, pos, lend) {
                ind = indent_range(v, pos, lend);
                inblock = true;
                proof {
                    assert(out@ =~= pre + line + seq!['\n']);
                    assert(pre + (line + seq!['\n'] + block_tail(rest, s@, e@, rep@, ind@)) =~=
                    out@ + block_tail(rest, s@, e@, rep@, ind@));
                }
            } else {
                proof {
                    assert(out@ =~= pre + line + seq!['\n']);
                    assert(pre + (line + seq!['\n'] + eval_block(rest, s@, e@, rep@)) =~= out@
                        + eval_block(rest, s@, e@, rep@));
                }
            }
        } else {
            if range_has(v, e, pos, lend) {
                append_all(&mut out, &ind);
                let rr = reindent_chars(rep, &ind);
                append_all(&mut out, &rr);
                out.push('\n');
                append_range(&mut out, v, pos, lend);
                out.push('\n');
                inblock = false;
                proof {
                    assert(out@ =~= pre + ind@ + rr@ + seq!['\n'] + line + seq!['\n']);
                    assert(pre + (ind@ + reindented(rep@, ind@) + seq!['\n'] + line + seq!['\n']
                        + eval_block(rest, s@, e@, rep@)) =~= out@ + eval_block(
                        rest,
                        s@,
                        e@,
                        rep@,
                    ));
                }
            }
        }
        pos = next_pos;
    }
}

/// Applies one rule to the content, substituting the already resolved
/// replacement text.
pub fn evaluate_rule(content: String, rule: &Rule, replacement: &str) -> (r: String)
    ensures
        r@ == eval_rule_spec(content@, *rule, replacement@),
{
    let v = str_to_chars(content.as_str());
    let rep = str_to_chars(replacement);
    let out: Vec<char> = match &rule.replace {
        Replace::Text(t) => {
            let n = str_to_chars(t.as_str());
            match rule.which {
                Which::First => text_first(&v, &n, &rep, rule.keep_spaces),
                Which::FirstInLine => text_first_in_line(&v, &n, &rep, rule.keep_spaces),
                Which::Every => if rule.keep_spaces {
                    text_every_keep(&v, &n, &rep)
                } else {
                    text_every(&v, &n, &rep)
                },
            }
        },
        Replace::Line(p) => {
            let n = str_to_chars(p.as_str());
            line_rule(&v, &n, &rep, rule.keep_spaces, matches!(rule.which, Which::First))
        },
        Replace::Regex(_) => {
            return content;
        },
        Replace::LinesBetween(s, e) => {
            let sn = str_to_chars(s.as_str());
            let en = str_to_chars(e.as_str());
            block_rule(&v, &sn, &en, &rep)
        },
    };
    chars_to_string(&out)
}

/// Resolves a rule's replacement source when it is a literal: a `String` or
/// `Pattern` source carries its text itself; a `File` or `Jinja` source needs
/// outside reading and is not resolved here.
pub fn resolve_literal(with: &With) -> (r: Option<String>)
    ensures
        match *with {
            With::String { string } => r matches Some(s) && s@ == string@,
            With::Pattern { pattern } => r matches Some(s) && s@ == pattern@,
            _ => r is None,
        },
{
    match with {
        With::String { string } => Some(string.clone()),
        With::Pattern { pattern } => Some(pattern.clone()),
        _ => None,
    }
}

/// Applies the whole rule list in order, threading the content through;
/// `replacements[i]` is rule `i`'s already resolved replacement text.
pub fn replace(content: String, config: &Config, replacements: &Vec<String>) -> (r: String)
    requires
        replacements@.len() == config.rules@.len(),
    ensures
        r@ == pipeline(content@, config.rules@, replacements.deep_view()),
{
    let ghost orig: Seq<char> = content@;
    let ghost reps: Seq<Seq<char>> = replacements.deep_view();
    let mut content = content;
    let mut i: usize = 0;
    proof {
        assert(config.rules@.skip(0) =~= config.rules@);
        assert(reps.skip(0) =~= reps);
    }
    while i < config.rules.len()
        invariant
            i <= config.rules@.len(),
            replacements@.len() == config.rules@.len(),
            reps == replacements.deep_view(),
            reps.len() == replacements@.len(),
            pipeline(content@, config.rules@.skip(i as int), reps.skip(i as int)) == pipeline(
                orig,
                config.rules@,
                reps,
            ),
        decreases config.rules@.len() - i,
    {
        let ghost rules_rest = config.rules@.skip(i as int);
        let ghost reps_rest = reps.skip(i as int);
        proof {
            assert(rules_rest.first() == config.rules@[i as int]);
            assert(reps_rest.first() == reps[i as int]);
            assert(reps[i as int] == replacements@[i as int]@);
            assert(rules_rest.drop_first() =~= config.rules@.skip(i + 1));
            assert(reps_rest.drop_first() =~= reps.skip(i + 1));
        }
        content = evaluate_rule(content, &config.rules[i], replacements[i].as_str());
        i = i + 1;
    }
    proof {
        assert(config.rules@.skip(config.rules@.len() as int) =~= Seq::<Rule>::empty());
        assert(reps.skip(reps.len() as int) =~= Seq::<Seq<char>>::empty());
    }
    content
}

} // verus!
