//! Character-level model of text buffers, and the verified substring and
//! line-break searches that the rule evaluator is built on.
use vstd::prelude::*;

verus! {

/// The needle `n` occurs in `c` starting at position `k`.
pub open spec fn contains_at(c: Seq<char>, n: Seq<char>, k: int) -> bool {
    0 <= k && k + n.len() <= c.len() && c.subrange(k, k + n.len() as int) == n
}

/// The needle `n` occurs somewhere in `c`.
pub open spec fn has_sub(c: Seq<char>, n: Seq<char>) -> bool {
    exists|k: int| contains_at(c, n, k)
}

/// Position of the earliest occurrence of `n` in `c`; `c.len()` stands for
/// "none" when `n` is non-empty.
pub open spec fn occ_at(c: Seq<char>, n: Seq<char>) -> int
    decreases c.len(),
{
    if contains_at(c, n, 0) {
        0
    } else if c.len() == 0 {
        0
    } else {
        1 + occ_at(c.drop_first(), n)
    }
}

/// Position of the first line break in `c`, or `c.len()` if there is none.
pub open spec fn nl_at(c: Seq<char>) -> int
    decreases c.len(),
{
    if c.len() == 0 {
        0
    } else if c[0] == '\n' {
        0
    } else {
        1 + nl_at(c.drop_first())
    }
}

pub proof fn lemma_contains_translate(c: Seq<char>, n: Seq<char>, i: int, j: int)
    requires
        0 <= i <= c.len(),
        0 <= j,
    ensures
        contains_at(c.skip(i), n, j) <==> contains_at(c, n, i + j),
{
    if i + j + n.len() <= c.len() {
        assert(c.skip(i).subrange(j, j + n.len() as int) =~= c.subrange(
            i + j,
            i + j + n.len() as int,
        ));
    }
}

pub proof fn lemma_occ_at_found(c: Seq<char>, n: Seq<char>, k: int)
    requires
        contains_at(c, n, k),
        forall|j: int| 0 <= j < k ==> !contains_at(c, n, j),
    ensures
        occ_at(c, n) == k,
    decreases k,
{
    if k == 0 {
    } else {
        assert(!contains_at(c, n, 0));
        assert(c.len() > 0);
        lemma_contains_translate(c, n, 1, k - 1);
        assert(forall|j: int| 0 <= j < k - 1 ==> !contains_at(c.drop_first(), n, j)) by {
            assert forall|j: int| 0 <= j < k - 1 implies !contains_at(c.drop_first(), n, j) by {
                lemma_contains_translate(c, n, 1, j);
            }
        }
        lemma_occ_at_found(c.drop_first(), n, k - 1);
    }
}

pub proof fn lemma_occ_at_none(c: Seq<char>, n: Seq<char>)
    requires
        forall|j: int| 0 <= j ==> !contains_at(c, n, j),
    ensures
        occ_at(c, n) == c.len(),
    decreases c.len(),
{
    assert(!contains_at(c, n, 0));
    if c.len() > 0 {
        assert(forall|j: int| 0 <= j ==> !contains_at(c.drop_first(), n, j)) by {
            assert forall|j: int| 0 <= j implies !contains_at(c.drop_first(), n, j) by {
                lemma_contains_translate(c, n, 1, j);
            }
        }
        lemma_occ_at_none(c.drop_first(), n);
    }
}

/// An empty needle occurs at the very start of any text.
pub proof fn lemma_empty_needle(c: Seq<char>, n: Seq<char>)
    requires
        n.len() == 0,
    ensures
        contains_at(c, n, 0),
        has_sub(c, n),
        occ_at(c, n) == 0,
{
    assert(c.subrange(0, 0) =~= n);
    assert(contains_at(c, n, 0));
    assert(has_sub(c, n));
}

pub proof fn lemma_nl_at_found(c: Seq<char>, k: int)
    requires
        0 <= k < c.len(),
        c[k] == '\n',
        forall|j: int| 0 <= j < k ==> c[j] != '\n',
    ensures
        nl_at(c) == k,
    decreases k,
{
    if k > 0 {
        lemma_nl_at_found(c.drop_first(), k - 1);
    }
}

pub proof fn lemma_nl_at_none(c: Seq<char>)
    requires
        forall|j: int| 0 <= j < c.len() ==> c[j] != '\n',
    ensures
        nl_at(c) == c.len(),
    decreases c.len(),
{
    if c.len() > 0 {
        lemma_nl_at_none(c.drop_first());
    }
}

pub proof fn lemma_nl_at_props(c: Seq<char>)
    ensures
        0 <= nl_at(c) <= c.len(),
        forall|j: int| 0 <= j < nl_at(c) ==> c[j] != '\n',
        nl_at(c) < c.len() ==> c[nl_at(c)] == '\n',
    decreases c.len(),
{
    if c.len() > 0 && c[0] != '\n' {
        lemma_nl_at_props(c.drop_first());
        assert forall|j: int| 0 <= j < nl_at(c) implies c[j] != '\n' by {
            if j > 0 {
                assert(c.drop_first()[j - 1] != '\n');
            }
        }
    }
}

/// Relies on std's `FromIterator` impl for `String`: collecting an iterator of
/// characters yields the string made of exactly those characters, in order.
#[verifier::external_body]
pub(crate) fn chars_to_string(v: &Vec<char>) -> (r: String)
    ensures
        r@ == v@,
{
    v.iter().collect()
}

pub(crate) fn str_to_chars(s: &str) -> (r: Vec<char>)
    ensures
        r@ == s@,
{
    let n = s.unicode_len();
    let mut v: Vec<char> = Vec::new();
    let mut i: usize = 0;
    while i < n
        invariant
            n == s@.len(),
            i <= n,
            v@ == s@.take(i as int),
        decreases n - i,
    {
        let c = s.get_char(i);
        v.push(c);
        i = i + 1;
        proof {
            assert(v@ =~= s@.take(i as int));
        }
    }
    proof {
        assert(v@ =~= s@);
    }
    v
}

/// Appends `src[from..to]` to `dst`.
pub(crate) fn append_range(dst: &mut Vec<char>, src: &Vec<char>, from: usize, to: usize)
    requires
        from <= to <= src@.len(),
    ensures
        final(dst)@ == old(dst)@ + src@.subrange(from as int, to as int),
{
    let mut j: usize = from;
    proof {
        assert(dst@ =~= old(dst)@ + src@.subrange(from as int, from as int));
    }
    while j < to
        invariant
            from <= j <= to <= src@.len(),
            dst@ == old(dst)@ + src@.subrange(from as int, j as int),
        decreases to - j,
    {
        dst.push(src[j]);
        j = j + 1;
        proof {
            assert(dst@ =~= old(dst)@ + src@.subrange(from as int, j as int));
        }
    }
}

pub(crate) fn append_all(dst: &mut Vec<char>, src: &Vec<char>)
    ensures
        final(dst)@ == old(dst)@ + src@,
{
    append_range(dst, src, 0, src.len());
    proof {
        assert(old(dst)@ + src@.subrange(0, src@.len() as int) =~= old(dst)@ + src@);
    }
}

pub(crate) fn copy_range(src: &Vec<char>, from: usize, to: usize) -> (r: Vec<char>)
    requires
        from <= to <= src@.len(),
    ensures
        r@ == src@.subrange(from as int, to as int),
{
    let mut r: Vec<char> = Vec::new();
    append_range(&mut r, src, from, to);
    proof {
        assert(Seq::<char>::empty() + src@.subrange(from as int, to as int) =~= src@.subrange(
            from as int,
            to as int,
        ));
    }
    r
}

/// Does `n` occur in `v` at exactly position `k`?
fn match_at(v: &Vec<char>, n: &Vec<char>, k: usize) -> (r: bool)
    requires
        k + n@.len() <= v@.len(),
    ensures
        r == contains_at(v@, n@, k as int),
{
    let vlen = v.len();
    let mut t: usize = 0;
    while t < n.len()
        invariant
            t <= n@.len(),
            k + n@.len() <= v@.len(),
            vlen == v@.len(),
            forall|u: int| 0 <= u < t ==> v@[k + u] == n@[u],
        decreases n@.len() - t,
    {
        if v[k + t] != n[t] {
            proof {
                assert(!contains_at(v@, n@, k as int)) by {
                    if contains_at(v@, n@, k as int) {
                        assert(v@.subrange(k as int, k + n@.len() as int)[t as int] == n@[
                            t as int
                        ]);
                    }
                }
            }
            return false;
        }
        t = t + 1;
    }
    proof {
        assert(v@.subrange(k as int, k + n@.len() as int) =~= n@);
    }
    true
}

/// Earliest occurrence of `n` in `v` at or after position `from`.
pub(crate) fn find_at(v: &Vec<char>, n: &Vec<char>, from: usize) -> (r: Option<usize>)
    requires
        from <= v@.len(),
    ensures
        match r {
            Some(k) => from <= k && contains_at(v@, n@, k as int) && forall|j: int|
                from <= j < k ==> !contains_at(v@, n@, j),
            None => forall|j: int| from <= j ==> !contains_at(v@, n@, j),
        },
{
    if n.len() == 0 {
        proof {
            assert(v@.subrange(from as int, from as int) =~= n@);
        }
        return Some(from);
    }
    if n.len() > v.len() - from {
        proof {
            assert forall|j: int| from <= j implies !contains_at(v@, n@, j) by {}
        }
        return None;
    }
    let vlen = v.len();
    let last = vlen - n.len();
    let mut j: usize = from;
    while j <= last
        invariant
            from <= j <= last + 1,
            vlen == v@.len(),
            last == v@.len() - n@.len(),
            1 <= n@.len() <= v@.len(),
            forall|u: int| from <= u < j ==> !contains_at(v@, n@, u),
        decreases last + 1 - j,
    {
        if match_at(v, n, j) {
            return Some(j);
        }
        j = j + 1;
    }
    proof {
        assert forall|u: int| from <= u implies !contains_at(v@, n@, u) by {
            if u > last {
                assert(u + n@.len() > v@.len());
            }
        }
    }
    None
}

/// Earliest line break in `v` at or after position `from`.
pub(crate) fn find_nl(v: &Vec<char>, from: usize) -> (r: Option<usize>)
    requires
        from <= v@.len(),
    ensures
        match r {
            Some(k) => from <= k < v@.len() && v@[k as int] == '\n' && forall|j: int|
                from <= j < k ==> v@[j] != '\n',
            None => forall|j: int| from <= j < v@.len() ==> v@[j] != '\n',
        },
{
    let mut j: usize = from;
    while j < v.len()
        invariant
            from <= j <= v@.len(),
            forall|u: int| from <= u < j ==> v@[u] != '\n',
        decreases v@.len() - j,
    {
        if v[j] == '\n' {
            return Some(j);
        }
        j = j + 1;
    }
    None
}

/// Does `n` occur inside `v[from..to]`?
pub(crate) fn range_has(v: &Vec<char>, n: &Vec<char>, from: usize, to: usize) -> (r: bool)
    requires
        from <= to <= v@.len(),
    ensures
        r == has_sub(v@.subrange(from as int, to as int), n@),
{
    let ghost seg = v@.subrange(from as int, to as int);
    if n.len() == 0 {
        proof {
            lemma_empty_needle(seg, n@);
        }
        return true;
    }
    if n.len() > to - from {
        proof {
            assert(!has_sub(seg, n@));
        }
        return false;
    }
    let last = to - n.len();
    let mut j: usize = from;
    while j <= last
        invariant
            from <= j <= last + 1,
            last == to - n@.len(),
            1 <= n@.len() <= to - from,
            from <= to <= v@.len(),
            seg == v@.subrange(from as int, to as int),
            forall|u: int| from <= u < j ==> !contains_at(v@, n@, u),
        decreases last + 1 - j,
    {
        if match_at(v, n, j) {
            proof {
                lemma_range_translate(v@, n@, from as int, to as int, j as int);
                assert(has_sub(seg, n@));
            }
            return true;
        }
        j = j + 1;
    }
    proof {
        assert forall|u: int| 0 <= u implies !contains_at(seg, n@, u) by {
            if u + n@.len() <= seg.len() {
                lemma_range_translate(v@, n@, from as int, to as int, from + u);
            }
        }
        assert(!has_sub(seg, n@));
    }
    false
}

pub proof fn lemma_range_translate(c: Seq<char>, n: Seq<char>, from: int, to: int, j: int)
    requires
        0 <= from <= to <= c.len(),
        from <= j,
        j + n.len() <= to,
    ensures
        contains_at(c.subrange(from, to), n, j - from) <==> contains_at(c, n, j),
{
    assert(c.subrange(from, to).subrange(j - from, j - from + n.len() as int) =~= c.subrange(
        j,
        j + n.len() as int,
    ));
}

} // verus!
