//! The indentation extractor and propagator: recover the whitespace prefix of
//! the line a position sits on, and re-indent a multi-line replacement.
use vstd::prelude::*;
use crate::text::{append_range, chars_to_string, copy_range, str_to_chars};

verus! {

/// A character counts as whitespace exactly when Rust's `char::is_whitespace`
/// says so: the Unicode `White_Space` code points.
pub open spec fn is_space(c: char) -> bool {
    c == ' ' || c == '\t' || c == '\n' || c == '\r' || c == '\u{b}' || c == '\u{c}'
        || c == '\u{85}' || c == '\u{a0}' || c == '\u{1680}' || c == '\u{2000}' || c == '\u{2001}'
        || c == '\u{2002}' || c == '\u{2003}' || c == '\u{2004}' || c == '\u{2005}'
        || c == '\u{2006}' || c == '\u{2007}' || c == '\u{2008}' || c == '\u{2009}'
        || c == '\u{200a}' || c == '\u{2028}' || c == '\u{2029}' || c == '\u{202f}'
        || c == '\u{205f}' || c == '\u{3000}'
}

fn is_space_char(c: char) -> (r: bool)
    ensures
        r == is_space(c),
{
    c == ' ' || c == '\t' || c == '\n' || c == '\r' || c == '\u{b}' || c == '\u{c}'
        || c == '\u{85}' || c == '\u{a0}' || c == '\u{1680}' || c == '\u{2000}' || c == '\u{2001}'
        || c == '\u{2002}' || c == '\u{2003}' || c == '\u{2004}' || c == '\u{2005}'
        || c == '\u{2006}' || c == '\u{2007}' || c == '\u{2008}' || c == '\u{2009}'
        || c == '\u{200a}' || c == '\u{2028}' || c == '\u{2029}' || c == '\u{202f}'
        || c == '\u{205f}' || c == '\u{3000}'
}

/// The suffix of `f` after its last line break, or all of `f` if it has none:
/// the text of the line that the end of `f` sits on.
pub open spec fn last_line(f: Seq<char>) -> Seq<char>
    decreases f.len(),
{
    if f.len() == 0 {
        f
    } else if f.last() == '\n' {
        Seq::<char>::empty()
    } else {
        last_line(f.drop_last()).push(f.last())
    }
}

/// The maximal run of whitespace characters at the start of `s`.
pub open spec fn leading_ws(s: Seq<char>) -> Seq<char>
    decreases s.len(),
{
    if s.len() > 0 && is_space(s.first()) {
        seq![s.first()] + leading_ws(s.drop_first())
    } else {
        Seq::<char>::empty()
    }
}

/// The indentation extractor: the whitespace prefix of the line that the end
/// of the fragment `f` sits on.
pub open spec fn indent_of(f: Seq<char>) -> Seq<char> {
    leading_ws(last_line(f))
}

/// The indentation propagator: `ind` is inserted after every line break of `t`
/// except one that ends `t`, so every line but the first is indented and a
/// trailing line terminator is kept as it is.
pub open spec fn reindented(t: Seq<char>, ind: Seq<char>) -> Seq<char>
    decreases t.len(),
{
    if t.len() == 0 {
        t
    } else if t.first() == '\n' && t.len() > 1 {
        seq!['\n'] + ind + reindented(t.drop_first(), ind)
    } else {
        seq![t.first()] + reindented(t.drop_first(), ind)
    }
}

pub proof fn lemma_last_line_after_nl(f: Seq<char>, q: int)
    requires
        0 <= q < f.len(),
        f[q] == '\n',
        forall|j: int| q < j < f.len() ==> f[j] != '\n',
    ensures
        last_line(f) == f.subrange(q + 1, f.len() as int),
    decreases f.len(),
{
    if q == f.len() - 1 {
        assert(last_line(f) =~= f.subrange(q + 1, f.len() as int));
    } else {
        lemma_last_line_after_nl(f.drop_last(), q);
        assert(last_line(f) =~= f.subrange(q + 1, f.len() as int));
    }
}

pub proof fn lemma_last_line_no_nl(f: Seq<char>)
    requires
        forall|j: int| 0 <= j < f.len() ==> f[j] != '\n',
    ensures
        last_line(f) == f,
    decreases f.len(),
{
    if f.len() > 0 {
        lemma_last_line_no_nl(f.drop_last());
        assert(last_line(f) =~= f);
    }
}

pub proof fn lemma_leading_ws_run(s: Seq<char>, k: int)
    requires
        0 <= k <= s.len(),
        forall|j: int| 0 <= j < k ==> is_space(s[j]),
        k < s.len() ==> !is_space(s[k]),
    ensures
        leading_ws(s) == s.take(k),
    decreases s.len(),
{
    if k == 0 {
        assert(leading_ws(s) =~= s.take(0));
    } else {
        lemma_leading_ws_run(s.drop_first(), k - 1);
        assert(leading_ws(s) =~= s.take(k));
    }
}

/// The extractor over `v[from..to]`, on the character-vector form.
pub(crate) fn indent_range(v: &Vec<char>, from: usize, to: usize) -> (r: Vec<char>)
    requires
        from <= to <= v@.len(),
    ensures
        r@ == indent_of(v@.subrange(from as int, to as int)),
{
    let ghost seg = v@.subrange(from as int, to as int);
    let mut start: usize = to;
    while start > from && v[start - 1] != '\n'
        invariant
            from <= start <= to <= v@.len(),
            forall|j: int| start <= j < to ==> v@[j] != '\n',
        decreases start,
    {
        start = start - 1;
    }
    proof {
        if start == from {
            assert(forall|j: int| 0 <= j < seg.len() ==> seg[j] != '\n');
            lemma_last_line_no_nl(seg);
            assert(last_line(seg) =~= v@.subrange(start as int, to as int));
        } else {
            assert(v@[start - 1] == '\n');
            assert(seg[start - 1 - from] == '\n');
            assert(forall|j: int| start - from <= j < seg.len() ==> seg[j] != '\n');
            lemma_last_line_after_nl(seg, start - 1 - from);
            assert(last_line(seg) =~= v@.subrange(start as int, to as int));
        }
    }
    let mut k: usize = start;
    loop
        invariant
            start <= k <= to <= v@.len(),
            forall|j: int| start <= j < k ==> is_space(v@[j]),
        ensures
            start <= k <= to,
            forall|j: int| start <= j < k ==> is_space(v@[j]),
            k == to || !is_space(v@[k as int]),
        decreases to - k,
    {
        if k >= to {
            break ;
        }
        if !is_space_char(v[k]) {
            break ;
        }
        k = k + 1;
    }
    proof {
        let line = last_line(seg);
        assert(line =~= v@.subrange(start as int, to as int));
        assert(forall|j: int| 0 <= j < k - start ==> is_space(line[j]));
        lemma_leading_ws_run(line, k - start);
        assert(line.take(k - start) =~= v@.subrange(start as int, k as int));
    }
    copy_range(v, start, k)
}

/// The propagator on the character-vector form.
pub(crate) fn reindent_chars(t: &Vec<char>, ind: &Vec<char>) -> (r: Vec<char>)
    ensures
        r@ == reindented(t@, ind@),
{
    let mut r: Vec<char> = Vec::new();
    let mut i: usize = 0;
    proof {
        assert(t@.skip(0) =~= t@);
        assert(r@ + reindented(t@, ind@) =~= reindented(t@, ind@));
    }
    while i < t.len()
        invariant
            i <= t@.len(),
            reindented(t@, ind@) == r@ + reindented(t@.skip(i as int), ind@),
        decreases t@.len() - i,
    {
        let ghost pre = r@;
        let ghost rest = t@.skip(i as int);
        let c = t[i];
        r.push(c);
        if c == '\n' && i + 1 < t.len() {
            append_range(&mut r, ind, 0, ind.len());
            proof {
                assert(rest.first() == '\n' && rest.len() > 1);
                assert(reindented(rest, ind@) == seq!['\n'] + ind@ + reindented(
                    rest.drop_first(),
                    ind@,
                ));
                assert(ind@.subrange(0, ind@.len() as int) =~= ind@);
                assert(rest.drop_first() =~= t@.skip(i + 1));
                assert(r@ =~= pre + seq!['\n'] + ind@);
                assert(pre + seq!['\n'] + ind@ + reindented(t@.skip(i + 1), ind@) =~= pre
                    + reindented(rest, ind@));
            }
        } else {
            proof {
                assert(rest.len() > 0);
                assert(!(rest.first() == '\n' && rest.len() > 1));
                assert(reindented(rest, ind@) == seq![rest.first()] + reindented(
                    rest.drop_first(),
                    ind@,
                ));
                assert(rest.drop_first() =~= t@.skip(i + 1));
                assert(r@ =~= pre + seq![rest.first()]);
                assert(pre + seq![rest.first()] + reindented(t@.skip(i + 1), ind@) =~= pre
                    + reindented(rest, ind@));
            }
        }
        i = i + 1;
    }
    proof {
        assert(t@.skip(t@.len() as int) =~= Seq::<char>::empty());
        assert(reindented(t@, ind@) =~= r@);
    }
    r
}

/// Returns the whitespace prefix of the line that the end of `text` sits on:
/// everything after the last line break (or all of `text`), cut at its first
/// non-whitespace character.
pub fn find_last_ident(text: &str) -> (r: String)
    ensures
        r@ == indent_of(text@),
{
    let v = str_to_chars(text);
    let ind = indent_range(&v, 0, v.len());
    proof {
        assert(v@.subrange(0, v@.len() as int) =~= text@);
    }
    chars_to_string(&ind)
}

/// Returns `text` with `ident` inserted after every line break except a final
/// one, so that every line but the first gains that indentation.
pub fn update_ident(text: &str, ident: &str) -> (r: String)
    ensures
        r@ == reindented(text@, ident@),
{
    let t = str_to_chars(text);
    let ind = str_to_chars(ident);
    let out = reindent_chars(&t, &ind);
    chars_to_string(&out)
}

/// In-place form of `update_ident`.
pub fn update_ident_inplace(text: &mut String, ident: &str)
    ensures
        final(text)@ == reindented(old(text)@, ident@),
{
    let r = update_ident(text.as_str(), ident);
    *text = r;
}

} // verus!
