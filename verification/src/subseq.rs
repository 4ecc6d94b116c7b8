use vstd::prelude::*;

verus! {

/// Two entries that a filter keeps keep their order: for `i < j`, both kept, the filtered
/// sequence holds `s[i]` before `s[j]`.
pub proof fn lemma_filter_keeps_pair<A>(s: Seq<A>, pred: spec_fn(A) -> bool, i: int, j: int)
    requires
        0 <= i < j < s.len(),
        pred(s[i]),
        pred(s[j]),
    ensures
        exists|a: int, b: int|
            0 <= a < b < s.filter(pred).len() && s.filter(pred)[a] == s[i] && s.filter(pred)[b]
                == s[j],
    decreases s.len(),
{
    reveal(Seq::filter);
    let rest = s.drop_last();
    let f = s.filter(pred);
    let g = rest.filter(pred);
    assert(f == if pred(s.last()) { g.push(s.last()) } else { g });
    if j < s.len() - 1 {
        assert(rest[i] == s[i] && rest[j] == s[j]);
        lemma_filter_keeps_pair(rest, pred, i, j);
        let (a, b) = choose|a: int, b: int|
            0 <= a < b < g.len() && g[a] == rest[i] && g[b] == rest[j];
        assert(f[a] == s[i] && f[b] == s[j]);
    } else {
        assert(rest[i] == s[i]);
        rest.lemma_filter_contains(pred, i);
        let a = choose|a: int| 0 <= a < g.len() && g[a] == rest[i];
        let b = g.len() as int;
        assert(f[a] == s[i] && f[b] == s[j]);
    }
}

/// Two entries of a filtered sequence come, in the same order, from the sequence it was
/// filtered from.
pub proof fn lemma_filter_origin<A>(s: Seq<A>, pred: spec_fn(A) -> bool, a: int, b: int)
    requires
        0 <= a < b < s.filter(pred).len(),
    ensures
        exists|i: int, j: int|
            0 <= i < j < s.len() && s[i] == s.filter(pred)[a] && s[j] == s.filter(pred)[b],
    decreases s.len(),
{
    reveal(Seq::filter);
    let rest = s.drop_last();
    let f = s.filter(pred);
    let g = rest.filter(pred);
    assert(f == if pred(s.last()) { g.push(s.last()) } else { g });
    if b < g.len() {
        lemma_filter_origin(rest, pred, a, b);
        let (i, j) = choose|i: int, j: int|
            0 <= i < j < rest.len() && rest[i] == g[a] && rest[j] == g[b];
        assert(s[i] == f[a] && s[j] == f[b]);
    } else {
        assert(g.contains(g[a]));
        rest.lemma_filter_contains_rev(pred, g[a]);
        let i = choose|i: int| 0 <= i < rest.len() && rest[i] == g[a];
        let j = s.len() - 1;
        assert(s[i] == f[a] && s[j] == f[b]);
    }
}

/// Filtering by a test that only lets through what a first filter already kept gives the
/// same as that test alone.
pub proof fn lemma_filter_filter<A>(s: Seq<A>, q: spec_fn(A) -> bool, r: spec_fn(A) -> bool)
    requires
        forall|x: A| #[trigger] r(x) ==> q(x),
    ensures
        s.filter(q).filter(r) == s.filter(r),
    decreases s.len(),
{
    if s.len() > 0 {
        let rest = s.drop_last();
        let last = s.last();
        lemma_filter_filter(rest, q, r);
        assert(s =~= rest.push(last));
        rest.lemma_filter_push(last, q);
        rest.lemma_filter_push(last, r);
        rest.filter(q).lemma_filter_push(last, r);
    } else {
        reveal(Seq::filter);
    }
}

/// Filtering twice keeps what passes both tests.
pub proof fn lemma_filter_compose<A>(s: Seq<A>, q: spec_fn(A) -> bool, r: spec_fn(A) -> bool)
    ensures
        s.filter(q).filter(r) == s.filter(|x: A| q(x) && r(x)),
    decreases s.len(),
{
    let both = |x: A| q(x) && r(x);
    if s.len() > 0 {
        let rest = s.drop_last();
        let last = s.last();
        lemma_filter_compose(rest, q, r);
        assert(s =~= rest.push(last));
        rest.lemma_filter_push(last, q);
        rest.lemma_filter_push(last, both);
        rest.filter(q).lemma_filter_push(last, r);
    } else {
        reveal(Seq::filter);
    }
}

/// A stricter test keeps no more.
pub proof fn lemma_filter_len_mono<A>(s: Seq<A>, q: spec_fn(A) -> bool, r: spec_fn(A) -> bool)
    requires
        forall|x: A| #[trigger] q(x) ==> r(x),
    ensures
        s.filter(q).len() <= s.filter(r).len(),
    decreases s.len(),
{
    if s.len() > 0 {
        let rest = s.drop_last();
        let last = s.last();
        lemma_filter_len_mono(rest, q, r);
        assert(s =~= rest.push(last));
        rest.lemma_filter_push(last, q);
        rest.lemma_filter_push(last, r);
    } else {
        reveal(Seq::filter);
    }
}

/// A test that everything passes keeps everything.
pub proof fn lemma_filter_all<A>(s: Seq<A>, q: spec_fn(A) -> bool)
    requires
        forall|x: A| #[trigger] q(x),
    ensures
        s.filter(q) == s,
    decreases s.len(),
{
    if s.len() > 0 {
        let rest = s.drop_last();
        let last = s.last();
        lemma_filter_all(rest, q);
        assert(s =~= rest.push(last));
        rest.lemma_filter_push(last, q);
    } else {
        reveal(Seq::filter);
    }
}

} // verus!
