use vstd::prelude::*;

verus! {

/// The pair of two object indices, smaller first.
pub open spec fn ordered_pair(a: usize, b: usize) -> (usize, usize) {
    if a < b { (a, b) } else { (b, a) }
}

/// Orders two object indices, smaller first.
pub fn order_pair(a: usize, b: usize) -> (r: (usize, usize))
    ensures
        r == ordered_pair(a, b),
{
    if a < b { (a, b) } else { (b, a) }
}

/// The pairs that entry `i` of `s` forms with each entry after it, in order.
pub open spec fn pair_row<P>(s: Seq<(usize, P)>, i: int) -> Seq<(usize, usize)> {
    Seq::new((s.len() - i - 1) as nat, |k: int| ordered_pair(s[i].0, s[i + 1 + k].0))
}

/// The rows of the first `n` entries of `s`, one after another.
pub open spec fn pair_rows<P>(s: Seq<(usize, P)>, n: nat) -> Seq<(usize, usize)>
    decreases n,
{
    if n == 0 {
        Seq::empty()
    } else {
        pair_rows(s, (n - 1) as nat) + pair_row(s, n - 1)
    }
}

/// Every pair of two entries of `s`, as ordered index pairs: for `i < j`, the pair of
/// `s[i]` and `s[j]`, grouped by `i` and then by `j`.
pub open spec fn pairs_within<P>(s: Seq<(usize, P)>) -> Seq<(usize, usize)> {
    pair_rows(s, s.len())
}

/// Appends to `pairs` the ordered index pair of every two entries of `objects`.
pub fn push_pairs_within<P>(objects: &Vec<(usize, P)>, pairs: &mut Vec<(usize, usize)>)
    ensures
        final(pairs)@ == old(pairs)@ + pairs_within(objects@),
{
    let n = objects.len();
    let ghost base = pairs@;
    let mut i: usize = 0;
    while i < n
        invariant
            n == objects@.len(),
            i <= n,
            pairs@ == base + pair_rows(objects@, i as nat),
        decreases n - i,
    {
        let mut j: usize = i + 1;
        let ghost start = pairs@;
        while j < n
            invariant
                n == objects@.len(),
                i < n,
                i + 1 <= j <= n,
                start == base + pair_rows(objects@, i as nat),
                pairs@ == start + pair_row(objects@, i as int).take(j - i - 1),
            decreases n - j,
        {
            let a = objects[i].0;
            let b = objects[j].0;
            pairs.push(order_pair(a, b));
            proof {
                let row = pair_row(objects@, i as int);
                assert(row.take(j - i) =~= row.take(j - i - 1).push(ordered_pair(a, b)));
            }
            j = j + 1;
        }
        proof {
            let row = pair_row(objects@, i as int);
            assert(row.take(j - i - 1) =~= row);
            assert(pair_rows(objects@, (i + 1) as nat) == pair_rows(objects@, i as nat) + row);
        }
        i = i + 1;
    }
}

/// `x` is the pair of two distinct entries of `s`, the earlier one `s[a]`, the later `s[b]`.
pub open spec fn is_pair_of<P>(s: Seq<(usize, P)>, x: (usize, usize)) -> bool {
    exists|a: int, b: int| 0 <= a < b < s.len() && x == ordered_pair(s[a].0, s[b].0)
}

/// The rows of the first `n` entries hold the pair of every two entries `s[a]`, `s[b]` with
/// `a < n` and `a < b`.
pub proof fn lemma_pair_rows_contains<P>(s: Seq<(usize, P)>, n: nat, a: int, b: int)
    requires
        n <= s.len(),
        0 <= a < n,
        a < b < s.len(),
    ensures
        pair_rows(s, n).contains(ordered_pair(s[a].0, s[b].0)),
    decreases n,
{
    let prev = pair_rows(s, (n - 1) as nat);
    let row = pair_row(s, n - 1);
    assert(pair_rows(s, n) == prev + row);
    if a == n - 1 {
        let k = b - a - 1;
        assert((prev + row)[prev.len() + k] == row[k]);
    } else {
        lemma_pair_rows_contains(s, (n - 1) as nat, a, b);
        let k = choose|k: int| 0 <= k < prev.len() && prev[k] == ordered_pair(s[a].0, s[b].0);
        assert((prev + row)[k] == prev[k]);
    }
}

/// Every pair in the rows of the first `n` entries is the pair of two entries `s[a]`,
/// `s[b]` with `a < b`.
pub proof fn lemma_pair_rows_origin<P>(s: Seq<(usize, P)>, n: nat, k: int)
    requires
        n <= s.len(),
        0 <= k < pair_rows(s, n).len(),
    ensures
        exists|a: int, b: int|
            0 <= a < b < s.len() && pair_rows(s, n)[k] == ordered_pair(s[a].0, s[b].0),
    decreases n,
{
    let prev = pair_rows(s, (n - 1) as nat);
    let row = pair_row(s, n - 1);
    assert(pair_rows(s, n) == prev + row);
    if k < prev.len() {
        lemma_pair_rows_origin(s, (n - 1) as nat, k);
        let (a, b) = choose|a: int, b: int|
            0 <= a < b < s.len() && prev[k] == ordered_pair(s[a].0, s[b].0);
        assert(pair_rows(s, n)[k] == prev[k]);
    } else {
        let a = n - 1;
        let b = a + 1 + (k - prev.len());
        assert(pair_rows(s, n)[k] == row[k - prev.len()]);
    }
}

/// The rows of the first `n` entries of `s` hold `n * len - n * (n + 1) / 2` pairs, counted
/// twice here to stay in whole numbers.
proof fn lemma_pair_rows_len<P>(s: Seq<(usize, P)>, n: nat)
    requires
        n <= s.len(),
    ensures
        2 * pair_rows(s, n).len() == 2 * n * s.len() - n * (n + 1),
    decreases n,
{
    if n > 0 {
        let k = (n - 1) as nat;
        lemma_pair_rows_len(s, k);
        let prev = pair_rows(s, k).len() as int;
        let row = pair_row(s, k as int).len() as int;
        let len = s.len() as int;
        let m = k as int;
        assert(row == len - m - 1);
        assert(pair_rows(s, n).len() == prev + row);
        assert(2 * prev == 2 * m * len - m * (m + 1));
        assert(2 * (prev + row) == 2 * (m + 1) * len - (m + 1) * (m + 2)) by (nonlinear_arith)
            requires
                2 * prev == 2 * m * len - m * (m + 1),
                row == len - m - 1,
        ;
        assert(2 * n * s.len() - n * (n + 1) == 2 * (m + 1) * len - (m + 1) * (m + 2))
            by (nonlinear_arith)
            requires
                n == m + 1,
                len == s.len(),
        ;
    } else {
        assert(2 * n * s.len() - n * (n + 1) == 0) by (nonlinear_arith)
            requires
                n == 0,
        ;
    }
}

/// Every two of `k` entries make one pair: `pairs_within` of `k` entries holds
/// `k * (k - 1) / 2` pairs.
pub proof fn lemma_pairs_within_len<P>(s: Seq<(usize, P)>)
    ensures
        2 * pairs_within(s).len() == s.len() * (s.len() - 1),
{
    lemma_pair_rows_len(s, s.len());
    let len = s.len() as int;
    assert(2 * len * len - len * (len + 1) == len * (len - 1)) by (nonlinear_arith);
}

/// `pairs_within(s)` holds the pair of every two entries of `s`, and nothing else.
pub proof fn lemma_pairs_within<P>(s: Seq<(usize, P)>)
    ensures
        forall|a: int, b: int|
            0 <= a < b < s.len() ==> pairs_within(s).contains(
                #[trigger] ordered_pair(s[a].0, s[b].0),
            ),
        forall|k: int| 0 <= k < pairs_within(s).len() ==> is_pair_of(s, #[trigger] pairs_within(s)[k]),
{
    assert forall|a: int, b: int| 0 <= a < b < s.len() implies pairs_within(s).contains(
        #[trigger] ordered_pair(s[a].0, s[b].0),
    ) by {
        lemma_pair_rows_contains(s, s.len(), a, b);
    }
    assert forall|k: int| 0 <= k < pairs_within(s).len() implies is_pair_of(s, #[trigger] pairs_within(s)[k]) by {
        lemma_pair_rows_origin(s, s.len(), k);
    }
}

} // verus!
