//! Score ranking: the argmax used for network decisions, and the
//! lowest-`n` selection that picks the candidates to reseed, with ties
//! broken toward lower indices.

use vstd::prelude::*;

verus! {

/// Index `a` ranks strictly before index `b`: a smaller score, or an equal
/// score at a smaller index.
pub open spec fn lex_lt(values: Seq<i64>, a: int, b: int) -> bool {
    values[a] < values[b] || (values[a] == values[b] && a < b)
}

/// `r` is the first index holding the largest value of `s`.
pub open spec fn is_first_max(s: Seq<i64>, r: int) -> bool {
    &&& 0 <= r < s.len()
    &&& forall|j: int| 0 <= j < s.len() ==> #[trigger] s[j] <= s[r]
    &&& forall|j: int| 0 <= j < r ==> #[trigger] s[j] < s[r]
}

/// The first index holding the largest value of `s`.
pub open spec fn first_max_index(s: Seq<i64>) -> int {
    choose|r: int| is_first_max(s, r)
}

/// A nonempty sequence has a first maximum, and `first_max_index` is it.
pub proof fn lemma_first_max_index(s: Seq<i64>)
    requires
        s.len() > 0,
    ensures
        is_first_max(s, first_max_index(s)),
    decreases s.len(),
{
    if s.len() == 1 {
        assert(is_first_max(s, 0));
    } else {
        let prefix = s.drop_last();
        lemma_first_max_index(prefix);
        let m = first_max_index(prefix);
        assert(forall|j: int| 0 <= j < prefix.len() ==> s[j] == #[trigger] prefix[j]);
        if s.last() > prefix[m] {
            assert forall|j: int| 0 <= j < s.len() - 1 implies #[trigger] s[j] < s[s.len() - 1] by {
                assert(prefix[j] <= prefix[m]);
            }
            assert(is_first_max(s, s.len() - 1));
        } else {
            assert forall|j: int| 0 <= j < s.len() implies #[trigger] s[j] <= s[m] by {
                if j < s.len() - 1 {
                    assert(prefix[j] <= prefix[m]);
                }
            }
            assert forall|j: int| 0 <= j < m implies #[trigger] s[j] < s[m] by {
                assert(prefix[j] < prefix[m]);
            }
            assert(is_first_max(s, m));
        }
    }
}

/// Two first maxima of the same sequence coincide.
pub proof fn lemma_first_max_unique(s: Seq<i64>, r1: int, r2: int)
    requires
        is_first_max(s, r1),
        is_first_max(s, r2),
    ensures
        r1 == r2,
{
    if r1 < r2 {
        assert(s[r1] < s[r2]);
        assert(s[r2] <= s[r1]);
    }
    if r2 < r1 {
        assert(s[r2] < s[r1]);
        assert(s[r1] <= s[r2]);
    }
}

/// Index of the largest value; the first such index when several are
/// equally large.
pub fn find_largest_index_unchecked(values: &Vec<i64>) -> (r: usize)
    requires
        values@.len() > 0,
    ensures
        r < values@.len(),
        is_first_max(values@, r as int),
        r as int == first_max_index(values@),
{
    let mut best: usize = 0;
    let mut j: usize = 1;
    while j < values.len()
        invariant
            0 <= best < j <= values@.len(),
            forall|k: int| 0 <= k < j ==> values@[k] <= values@[best as int],
            forall|k: int| 0 <= k < best ==> values@[k] < values@[best as int],
        decreases values@.len() - j,
    {
        if values[j] > values[best] {
            best = j;
        }
        j = j + 1;
    }
    proof {
        lemma_first_max_index(values@);
        lemma_first_max_unique(values@, best as int, first_max_index(values@));
    }
    best
}

/// How many entries of `s` are set.
pub open spec fn count_true(s: Seq<bool>) -> int
    decreases s.len(),
{
    if s.len() == 0 {
        0
    } else {
        count_true(s.drop_last()) + if s.last() {
            1int
        } else {
            0int
        }
    }
}

proof fn lemma_count_true_bounds(s: Seq<bool>)
    ensures
        0 <= count_true(s) <= s.len(),
    decreases s.len(),
{
    if s.len() > 0 {
        lemma_count_true_bounds(s.drop_last());
    }
}

proof fn lemma_count_true_low_has_false(s: Seq<bool>)
    requires
        count_true(s) < s.len(),
    ensures
        exists|j: int| 0 <= j < s.len() && !s[j],
    decreases s.len(),
{
    lemma_count_true_bounds(s);
    if s.last() {
        lemma_count_true_low_has_false(s.drop_last());
        let j = choose|j: int| 0 <= j < s.drop_last().len() && !s.drop_last()[j];
        assert(!s[j]);
    } else {
        assert(!s[s.len() - 1]);
    }
}

proof fn lemma_count_true_update(s: Seq<bool>, i: int)
    requires
        0 <= i < s.len(),
        !s[i],
    ensures
        count_true(s.update(i, true)) == count_true(s) + 1,
    decreases s.len(),
{
    let u = s.update(i, true);
    if i == s.len() - 1 {
        assert(u.drop_last() =~= s.drop_last());
    } else {
        assert(u.drop_last() =~= s.drop_last().update(i, true));
        lemma_count_true_update(s.drop_last(), i);
    }
}

/// Indices of the `n` lowest values, lowest first, score ties broken
/// toward the lower index.  When `n` exceeds the number of values, every
/// index is returned in rank order.
pub fn find_n_lowest_indices(values: &Vec<i64>, n: usize) -> (r: Vec<usize>)
    ensures
        r@.len() == if n <= values@.len() {
            n as int
        } else {
            values@.len() as int
        },
        forall|k: int| 0 <= k < r@.len() ==> (#[trigger] r@[k]) < values@.len(),
        forall|k1: int, k2: int| 0 <= k1 < k2 < r@.len() ==> lex_lt(
            values@,
            #[trigger] r@[k1] as int,
            #[trigger] r@[k2] as int,
        ),
        forall|k: int, j: usize| #![trigger r@[k], r@.contains(j)]
            0 <= k < r@.len() && j < values@.len() && !r@.contains(j) ==> lex_lt(
                values@,
                r@[k] as int,
                j as int,
            ),
{
    let len = values.len();
    let count = if n <= len {
        n
    } else {
        len
    };
    let mut chosen: Vec<bool> = Vec::new();
    let mut i: usize = 0;
    while i < len
        invariant
            0 <= i <= len,
            chosen@.len() == i,
            forall|j: int| 0 <= j < i ==> !(#[trigger] chosen@[j]),
            count_true(chosen@.subrange(0, i as int)) == 0,
        decreases len - i,
    {
        proof {
            assert(chosen@.subrange(0, i as int) =~= chosen@);
            assert(chosen@.push(false).subrange(0, i + 1 as int).drop_last()
                =~= chosen@);
        }
        chosen.push(false);
        i = i + 1;
    }
    proof {
        assert(chosen@.subrange(0, len as int) =~= chosen@);
    }
    let mut r: Vec<usize> = Vec::new();
    let mut c: usize = 0;
    while c < count
        invariant
            0 <= c <= count <= len == values@.len(),
            chosen@.len() == len,
            r@.len() == c,
            count_true(chosen@) == c,
            forall|j: usize| j < len ==> (#[trigger] chosen@[j as int] <==> r@.contains(j)),
            forall|k: int| 0 <= k < c ==> (#[trigger] r@[k]) < len,
            forall|k1: int, k2: int| 0 <= k1 < k2 < c ==> lex_lt(
                values@,
                #[trigger] r@[k1] as int,
                #[trigger] r@[k2] as int,
            ),
            forall|k: int, j: usize| #![trigger r@[k], chosen@[j as int]]
                0 <= k < c && j < len && !chosen@[j as int] ==> lex_lt(
                    values@,
                    r@[k] as int,
                    j as int,
                ),
        decreases count - c,
    {
        let mut best: usize = len;
        let mut j: usize = 0;
        while j < len
            invariant
                0 <= j <= len == values@.len(),
                chosen@.len() == len,
                best == len || (best < j && !chosen@[best as int]),
                best == len ==> forall|k: int| 0 <= k < j ==> chosen@[k],
                best < len ==> forall|k: usize|
                    k < j && !chosen@[k as int] && k != best ==> lex_lt(
                        values@,
                        best as int,
                        k as int,
                    ),
            decreases len - j,
        {
            if !chosen[j] {
                if best == len {
                    best = j;
                } else if values[j] < values[best] {
                    best = j;
                }
            }
            j = j + 1;
        }
        proof {
            if best == len {
                assert forall|k: int| 0 <= k < len implies chosen@[k] by {}
                lemma_count_true_low_has_false(chosen@);
                assert(false);
            }
            lemma_count_true_update(chosen@, best as int);
            assert(!r@.contains(best));
        }
        let ghost old_r = r@;
        let ghost old_chosen = chosen@;
        r.push(best);
        chosen.set(best, true);
        proof {
            assert forall|jq: usize| jq < len implies (#[trigger] chosen@[jq as int]
                <==> r@.contains(jq)) by {
                if jq == best {
                    assert(r@[c as int] == best);
                    assert(r@.contains(best));
                } else {
                    assert(chosen@[jq as int] == old_chosen[jq as int]);
                    if old_r.contains(jq) {
                        let w = choose|w: int| 0 <= w < old_r.len() && old_r[w] == jq;
                        assert(r@[w] == jq);
                        assert(r@.contains(jq));
                    }
                    if r@.contains(jq) {
                        let w = choose|w: int| 0 <= w < r@.len() && r@[w] == jq;
                        assert(w < old_r.len());
                        assert(old_r[w] == jq);
                        assert(old_r.contains(jq));
                    }
                }
            }
            assert forall|k1: int, k2: int| 0 <= k1 < k2 < c + 1 implies lex_lt(
                values@,
                #[trigger] r@[k1] as int,
                #[trigger] r@[k2] as int,
            ) by {
                if k2 == c {
                    assert(!old_chosen[r@[k1] as int] == false);
                    assert(lex_lt(values@, r@[k1] as int, best as int));
                }
            }
        }
        c = c + 1;
    }
    proof {
        assert forall|k: int, j: usize| #![trigger r@[k], r@.contains(j)]
            0 <= k < r@.len() && j < values@.len() && !r@.contains(j) implies lex_lt(
            values@,
            r@[k] as int,
            j as int,
        ) by {
            assert(!chosen@[j as int]);
        }
    }
    r
}

proof fn lemma_count_true_missing(s: Seq<bool>, j: int)
    requires
        0 <= j < s.len(),
        !s[j],
    ensures
        count_true(s) < s.len(),
    decreases s.len(),
{
    lemma_count_true_bounds(s.drop_last());
    if j < s.len() - 1 {
        lemma_count_true_missing(s.drop_last(), j);
    }
}

/// All entries of `w` differ.
pub open spec fn distinct_indices(w: Seq<usize>) -> bool {
    forall|k1: int, k2: int| 0 <= k1 < k2 < w.len() ==> #[trigger] w[k1] != #[trigger] w[k2]
}

/// Donor order: index `a` ranks before `b` as a donor when it has the
/// larger score, or the same score at a smaller index.
pub open spec fn donor_before(values: Seq<i64>, a: int, b: int) -> bool {
    values[a] > values[b] || (values[a] == values[b] && a < b)
}

/// The indices below `total` that are not in `worst`, ordered best
/// first: descending score, ties toward the lower index.  These are the
/// donors the reseeding step pairs with the ranked worst half.
pub fn rank_donors(values: &Vec<i64>, worst: &Vec<usize>) -> (r: Vec<usize>)
    requires
        forall|k: int| 0 <= k < worst@.len() ==> (#[trigger] worst@[k]) < values@.len(),
        distinct_indices(worst@),
        worst@.len() <= values@.len(),
    ensures
        r@.len() == values@.len() - worst@.len(),
        forall|k: int| 0 <= k < r@.len() ==> (#[trigger] r@[k]) < values@.len(),
        forall|k1: int, k2: int| 0 <= k1 < k2 < r@.len() ==> donor_before(
            values@,
            #[trigger] r@[k1] as int,
            #[trigger] r@[k2] as int,
        ),
        forall|j: usize| j < values@.len() ==> (#[trigger] r@.contains(j)
            <==> !worst@.contains(j)),
{
    let len = values.len();
    let mut chosen: Vec<bool> = Vec::new();
    let mut i: usize = 0;
    while i < len
        invariant
            0 <= i <= len,
            chosen@.len() == i,
            forall|j: int| 0 <= j < i ==> !(#[trigger] chosen@[j]),
            count_true(chosen@.subrange(0, i as int)) == 0,
        decreases len - i,
    {
        proof {
            assert(chosen@.subrange(0, i as int) =~= chosen@);
            assert(chosen@.push(false).subrange(0, i + 1 as int).drop_last()
                =~= chosen@);
        }
        chosen.push(false);
        i = i + 1;
    }
    proof {
        assert(chosen@.subrange(0, len as int) =~= chosen@);
    }
    // mark the worst half as already taken
    let mut w: usize = 0;
    while w < worst.len()
        invariant
            0 <= w <= worst@.len() <= len == values@.len(),
            chosen@.len() == len,
            forall|k: int| 0 <= k < worst@.len() ==> (#[trigger] worst@[k]) < len,
            distinct_indices(worst@),
            count_true(chosen@) == w,
            forall|j: usize| j < len ==> (#[trigger] chosen@[j as int]
                <==> worst@.subrange(0, w as int).contains(j)),
        decreases worst@.len() - w,
    {
        let idx = worst[w];
        proof {
            assert(!chosen@[idx as int]) by {
                if worst@.subrange(0, w as int).contains(idx) {
                    let q = choose|q: int|
                        0 <= q < w && worst@.subrange(0, w as int)[q] == idx;
                    assert(worst@[q] == worst@[w as int]);
                }
            }
            lemma_count_true_update(chosen@, idx as int);
        }
        let ghost old_chosen = chosen@;
        chosen.set(idx, true);
        proof {
            assert forall|j: usize| j < len implies (#[trigger] chosen@[j as int]
                <==> worst@.subrange(0, w + 1 as int).contains(j)) by {
                if j == idx {
                    assert(worst@.subrange(0, w + 1 as int)[w as int] == idx);
                } else {
                    if worst@.subrange(0, w as int).contains(j) {
                        let q = choose|q: int|
                            0 <= q < w && worst@.subrange(0, w as int)[q] == j;
                        assert(worst@.subrange(0, w + 1 as int)[q] == j);
                    }
                    if worst@.subrange(0, w + 1 as int).contains(j) {
                        let q = choose|q: int|
                            0 <= q < w + 1 && #[trigger] worst@.subrange(
                                0,
                                w + 1 as int,
                            )[q] == j;
                        assert(q < w);
                        assert(worst@.subrange(0, w as int)[q] == j);
                    }
                }
            }
        }
        w = w + 1;
    }
    proof {
        assert(worst@.subrange(0, worst@.len() as int) =~= worst@);
    }
    let count = len - worst.len();
    let mut r: Vec<usize> = Vec::new();
    let mut c: usize = 0;
    while c < count
        invariant
            0 <= c <= count,
            count == len - worst@.len(),
            len == values@.len(),
            chosen@.len() == len,
            r@.len() == c,
            count_true(chosen@) == worst@.len() + c,
            forall|j: usize| j < len ==> (#[trigger] chosen@[j as int]
                <==> worst@.contains(j) || r@.contains(j)),
            forall|k: int| 0 <= k < c ==> (#[trigger] r@[k]) < len,
            forall|k: int| 0 <= k < c ==> !worst@.contains(#[trigger] r@[k]),
            forall|k1: int, k2: int| 0 <= k1 < k2 < c ==> donor_before(
                values@,
                #[trigger] r@[k1] as int,
                #[trigger] r@[k2] as int,
            ),
            forall|k: int, j: usize| #![trigger r@[k], chosen@[j as int]]
                0 <= k < c && j < len && !chosen@[j as int] ==> donor_before(
                    values@,
                    r@[k] as int,
                    j as int,
                ),
        decreases count - c,
    {
        let mut best: usize = len;
        let mut j: usize = 0;
        while j < len
            invariant
                0 <= j <= len == values@.len(),
                chosen@.len() == len,
                best == len || (best < j && !chosen@[best as int]),
                best == len ==> forall|k: int| 0 <= k < j ==> chosen@[k],
                best < len ==> forall|k: usize|
                    k < j && !chosen@[k as int] && k != best ==> donor_before(
                        values@,
                        best as int,
                        k as int,
                    ),
            decreases len - j,
        {
            if !chosen[j] {
                if best == len {
                    best = j;
                } else if values[j] > values[best] {
                    best = j;
                }
            }
            j = j + 1;
        }
        proof {
            if best == len {
                assert forall|k: int| 0 <= k < len implies chosen@[k] by {}
                lemma_count_true_low_has_false(chosen@);
                assert(false);
            }
            lemma_count_true_update(chosen@, best as int);
            assert(!r@.contains(best));
            assert(!worst@.contains(best));
        }
        let ghost old_r = r@;
        let ghost old_chosen = chosen@;
        r.push(best);
        chosen.set(best, true);
        proof {
            assert forall|jq: usize| jq < len implies (#[trigger] chosen@[jq as int]
                <==> worst@.contains(jq) || r@.contains(jq)) by {
                if jq == best {
                    assert(r@[c as int] == best);
                    assert(r@.contains(best));
                } else {
                    assert(chosen@[jq as int] == old_chosen[jq as int]);
                    if old_r.contains(jq) {
                        let w2 = choose|w2: int| 0 <= w2 < old_r.len() && old_r[w2] == jq;
                        assert(r@[w2] == jq);
                        assert(r@.contains(jq));
                    }
                    if r@.contains(jq) {
                        let w2 = choose|w2: int| 0 <= w2 < r@.len() && r@[w2] == jq;
                        assert(w2 < old_r.len());
                        assert(old_r[w2] == jq);
                        assert(old_r.contains(jq));
                    }
                }
            }
            assert forall|k1: int, k2: int| 0 <= k1 < k2 < c + 1 implies donor_before(
                values@,
                #[trigger] r@[k1] as int,
                #[trigger] r@[k2] as int,
            ) by {
                if k2 == c {
                    assert(!old_chosen[r@[k1] as int] == false);
                    assert(donor_before(values@, r@[k1] as int, best as int));
                }
            }
        }
        c = c + 1;
    }
    proof {
        assert forall|j: usize| j < values@.len() implies (#[trigger] r@.contains(j)
            <==> !worst@.contains(j)) by {
            assert(chosen@[j as int] <==> worst@.contains(j) || r@.contains(j));
            if !chosen@[j as int] {
                assert(count_true(chosen@) == len);
                lemma_count_true_missing(chosen@, j as int);
                assert(false);
            }
            if r@.contains(j) && worst@.contains(j) {
                let k = choose|k: int| 0 <= k < r@.len() && r@[k] == j;
                assert(!worst@.contains(r@[k]));
            }
        }
    }
    r
}

} // verus!
