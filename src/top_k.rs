use vstd::prelude::*;
use crate::similarity::{SimilarityMatrix, MAX_TERMS};

verus! {

/// A squared magnitude as a denominator: an empty article scores 0 against
/// everything, which the denominator 1 gives together with its dot product 0.
pub open spec fn denominator(n: int) -> int {
    if n == 0 {
        1
    } else {
        n
    }
}

/// Candidate `a` (dot product `da` with the article, squared magnitude `na`)
/// ranks ahead of candidate `b`: its similarity `da / sqrt(na)` (the article's
/// own magnitude is common to both) is higher, or equal with the lower index.
pub open spec fn outranks(da: int, na: int, a: int, db: int, nb: int, b: int) -> bool {
    let ka = da * da * denominator(nb);
    let kb = db * db * denominator(na);
    ka > kb || (ka == kb && a < b)
}

/// Among the neighbours of article `x`, `a` comes before `b`.
pub open spec fn ranks_ahead(m: SimilarityMatrix, x: int, a: int, b: int) -> bool {
    outranks(m.dot_at(x, a), m.norms_sq@[a] as int, a, m.dot_at(x, b), m.norms_sq@[b] as int, b)
}

/// `r` is the list of the `k` most similar neighbours of `x`, most similar
/// first: `min(k, n - 1)` distinct articles other than `x`, in ranking order,
/// each ahead of every neighbour left out.
pub open spec fn is_top_k(m: SimilarityMatrix, x: int, k: int, r: Seq<usize>) -> bool {
    &&& r.len() == if k < m.size() - 1 { k } else { m.size() - 1 }
    &&& forall|p: int| 0 <= p < r.len() ==> #[trigger] r[p] < m.size() && r[p] != x
    &&& forall|p: int, q: int| 0 <= p < q < r.len() ==> r[p] != r[q] && ranks_ahead(
        m,
        x,
        r[p] as int,
        r[q] as int,
    )
    &&& forall|j: int, p: int|
        0 <= j < m.size() && j != x && !r.contains(j as usize) && 0 <= p < r.len()
            ==> #[trigger] ranks_ahead(m, x, r[p] as int, j)
}

proof fn lemma_fraction_order(a: int, al: int, b: int, be: int, c: int, ga: int)
    requires
        al > 0,
        be > 0,
        ga > 0,
        a * be >= b * al,
        b * ga >= c * be,
    ensures
        a * ga >= c * al,
        (a * be > b * al || b * ga > c * be) ==> a * ga > c * al,
{
    assert(be * (a * ga) >= be * (c * al)) by (nonlinear_arith)
        requires
            al > 0,
            be > 0,
            ga > 0,
            a * be >= b * al,
            b * ga >= c * be,
    ;
    assert(be * (a * ga) >= be * (c * al) ==> a * ga >= c * al) by (nonlinear_arith)
        requires
            be > 0,
    ;
    if a * be > b * al || b * ga > c * be {
        assert(be * (a * ga) > be * (c * al)) by (nonlinear_arith)
            requires
                al > 0,
                be > 0,
                ga > 0,
                a * be >= b * al,
                b * ga >= c * be,
                a * be > b * al || b * ga > c * be,
        ;
        assert(be * (a * ga) > be * (c * al) ==> a * ga > c * al) by (nonlinear_arith)
            requires
                be > 0,
        ;
    }
}

/// Ranking is transitive.
pub proof fn lemma_outranks_transitive(
    da: int,
    na: int,
    a: int,
    db: int,
    nb: int,
    b: int,
    dc: int,
    nc: int,
    c: int,
)
    requires
        na >= 0,
        nb >= 0,
        nc >= 0,
        outranks(da, na, a, db, nb, b),
        outranks(db, nb, b, dc, nc, c),
    ensures
        outranks(da, na, a, dc, nc, c),
{
    let sa = da * da;
    let sb = db * db;
    let sc = dc * dc;
    assert(da * da * denominator(nb) == sa * denominator(nb));
    lemma_fraction_order(sa, denominator(na), sb, denominator(nb), sc, denominator(nc));
}

/// The rank key `d * d * denominator(n)` of a bounded pair fits in `u128`.
proof fn lemma_key_fits(d: int, n: int)
    requires
        0 <= d <= MAX_TERMS * MAX_TERMS,
        0 <= n <= MAX_TERMS * MAX_TERMS,
    ensures
        0 <= d * d <= u128::MAX,
        0 <= d * d * denominator(n) <= u128::MAX,
{
    let m: int = 1099511627776;
    assert(MAX_TERMS * MAX_TERMS == m);
    assert(0 <= d * d <= m * m) by (nonlinear_arith)
        requires
            0 <= d <= m,
    ;
    assert(0 <= (d * d) * denominator(n) <= (m * m) * m) by (nonlinear_arith)
        requires
            0 <= d * d <= m * m,
            1 <= denominator(n) <= m,
    ;
    assert(1099511627776int * 1099511627776int * 1099511627776int <= u128::MAX);
}

fn ahead(m: &SimilarityMatrix, x: usize, a: usize, b: usize) -> (r: bool)
    requires
        m.wf(),
        x < m.size(),
        a < m.size(),
        b < m.size(),
        a != x,
        b != x,
    ensures
        r == ranks_ahead(*m, x as int, a as int, b as int),
{
    assert(m.dots@[x as int].len() == m.size());
    let da: u128 = match m.dots[x][a] {
        Some(d) => d,
        None => 0,
    };
    let db: u128 = match m.dots[x][b] {
        Some(d) => d,
        None => 0,
    };
    let na: u128 = if m.norms_sq[a] == 0 { 1 } else { m.norms_sq[a] };
    let nb: u128 = if m.norms_sq[b] == 0 { 1 } else { m.norms_sq[b] };
    proof {
        assert(m.dot_at(x as int, a as int) <= MAX_TERMS * MAX_TERMS);
        assert(m.dot_at(x as int, b as int) <= MAX_TERMS * MAX_TERMS);
        assert(m.norms_sq@[a as int] <= MAX_TERMS * MAX_TERMS);
        assert(m.norms_sq@[b as int] <= MAX_TERMS * MAX_TERMS);
        lemma_key_fits(da as int, m.norms_sq@[b as int] as int);
        lemma_key_fits(db as int, m.norms_sq@[a as int] as int);
    }
    let ka = da * da * nb;
    let kb = db * db * na;
    ka > kb || (ka == kb && a < b)
}

/// Number of indices below `j`, other than `x`, not yet taken.
pub open spec fn free_count(t: Seq<bool>, x: int, j: int) -> int
    decreases j,
{
    if j <= 0 {
        0
    } else {
        free_count(t, x, j - 1) + if j - 1 != x && !t[j - 1] {
            1int
        } else {
            0int
        }
    }
}

proof fn lemma_free_initial(t: Seq<bool>, x: int, j: int)
    requires
        0 <= j <= t.len(),
        forall|i: int| 0 <= i < t.len() ==> !#[trigger] t[i],
    ensures
        free_count(t, x, j) == j - if 0 <= x < j {
            1int
        } else {
            0int
        },
    decreases j,
{
    if j > 0 {
        lemma_free_initial(t, x, j - 1);
    }
}

proof fn lemma_free_take(t: Seq<bool>, x: int, j: int, b: int)
    requires
        0 <= j <= t.len(),
        0 <= b < t.len(),
        b != x,
        !t[b],
    ensures
        free_count(t.update(b, true), x, j) == free_count(t, x, j) - if b < j {
            1int
        } else {
            0int
        },
    decreases j,
{
    if j > 0 {
        lemma_free_take(t, x, j - 1, b);
    }
}

proof fn lemma_free_none(t: Seq<bool>, x: int, j: int)
    requires
        0 <= j <= t.len(),
        forall|i: int| 0 <= i < j ==> i == x || #[trigger] t[i],
    ensures
        free_count(t, x, j) == 0,
    decreases j,
{
    if j > 0 {
        lemma_free_none(t, x, j - 1);
    }
}

/// The `k` neighbours of article `x` with the highest similarity, most
/// similar first, ties broken by ascending index. A corpus with fewer than
/// `k + 1` articles gives all `n - 1` neighbours.
pub fn top_k(m: &SimilarityMatrix, x: usize, k: usize) -> (r: Vec<usize>)
    requires
        m.wf(),
        x < m.size(),
    ensures
        is_top_k(*m, x as int, k as int, r@),
{
    let n = m.norms_sq.len();
    let want: usize = if k < n - 1 { k } else { n - 1 };
    let mut taken: Vec<bool> = Vec::new();
    let mut i: usize = 0;
    while i < n
        invariant
            i <= n,
            taken.len() == i,
            forall|t: int| 0 <= t < i ==> !#[trigger] taken@[t],
        decreases n - i,
    {
        taken.push(false);
        i = i + 1;
    }
    proof {
        lemma_free_initial(taken@, x as int, n as int);
    }
    let mut r: Vec<usize> = Vec::new();
    while r.len() < want
        invariant
            m.wf(),
            n == m.size(),
            x < n,
            want <= n - 1,
            want == if k < n - 1 { k as int } else { n - 1 },
            r.len() <= want,
            taken.len() == n,
            !taken@[x as int],
            free_count(taken@, x as int, n as int) == n - 1 - r.len(),
            forall|j: int| 0 <= j < n ==> (#[trigger] taken@[j] <==> r@.contains(j as usize)),
            forall|p: int| 0 <= p < r.len() ==> #[trigger] r@[p] < n && r@[p] != x,
            forall|p: int, q: int|
                0 <= p < q < r.len() ==> #[trigger] r@[p] != #[trigger] r@[q] && ranks_ahead(
                    *m,
                    x as int,
                    r@[p] as int,
                    r@[q] as int,
                ),
            forall|j: int, p: int|
                0 <= j < n && j != x && !taken@[j] && 0 <= p < r.len() ==> #[trigger] ranks_ahead(
                    *m,
                    x as int,
                    r@[p] as int,
                    j,
                ),
        decreases want - r.len(),
    {
        let mut best: usize = n;
        let mut j: usize = 0;
        while j < n
            invariant
                m.wf(),
                n == m.size(),
                x < n,
                taken.len() == n,
                j <= n,
                best == n || (best < j && best != x && !taken@[best as int]),
                best == n ==> forall|i: int| 0 <= i < j ==> i == x || #[trigger] taken@[i],
                best < n ==> forall|i: int|
                    0 <= i < j && i != x && !taken@[i] && i != best ==> #[trigger] ranks_ahead(
                        *m,
                        x as int,
                        best as int,
                        i,
                    ),
            decreases n - j,
        {
            if j != x && !taken[j] {
                if best == n {
                    best = j;
                } else if ahead(m, x, j, best) {
                    proof {
                        assert forall|i: int|
                            0 <= i < j && i != x && !taken@[i] && i != j implies #[trigger] ranks_ahead(
                            *m,
                            x as int,
                            j as int,
                            i,
                        ) by {
                            if i != best {
                                assert(ranks_ahead(*m, x as int, best as int, i));
                                lemma_outranks_transitive(
                                    m.dot_at(x as int, j as int),
                                    m.norms_sq@[j as int] as int,
                                    j as int,
                                    m.dot_at(x as int, best as int),
                                    m.norms_sq@[best as int] as int,
                                    best as int,
                                    m.dot_at(x as int, i),
                                    m.norms_sq@[i] as int,
                                    i,
                                );
                            }
                        }
                    }
                    best = j;
                }
            }
            j = j + 1;
        }
        if best == n {
            proof {
                lemma_free_none(taken@, x as int, n as int);
            }
        }
        assert(best < n);
        proof {
            lemma_free_take(taken@, x as int, n as int, best as int);
        }
        let ghost old_r = r@;
        let ghost old_taken = taken@;
        taken.set(best, true);
        r.push(best);
        proof {
            assert forall|jj: int| 0 <= jj < n implies (#[trigger] taken@[jj] <==> r@.contains(
                jj as usize,
            )) by {
                if jj == best {
                    assert(r@[r@.len() - 1] == best);
                } else {
                    if old_r.contains(jj as usize) {
                        let p = choose|p: int| 0 <= p < old_r.len() && old_r[p] == jj as usize;
                        assert(r@[p] == jj as usize);
                    }
                    if r@.contains(jj as usize) {
                        let p = choose|p: int| 0 <= p < r@.len() && r@[p] == jj as usize;
                        assert(p < old_r.len());
                        assert(old_r[p] == jj as usize);
                    }
                }
            }
            assert forall|p: int, q: int| 0 <= p < q < r.len() implies r@[p] != r@[q]
                && ranks_ahead(*m, x as int, r@[p] as int, r@[q] as int) by {
                if q == r.len() - 1 {
                    assert(!old_taken[best as int]);
                    assert(ranks_ahead(*m, x as int, old_r[p] as int, best as int));
                    if old_r[p] == best {
                        assert(old_r.contains(best));
                    }
                } else {
                    assert(old_r[p] != old_r[q]);
                    assert(ranks_ahead(*m, x as int, old_r[p] as int, old_r[q] as int));
                }
            }
        }
    }
    assert forall|jj: int, p: int|
        0 <= jj < n && jj != x && !r@.contains(jj as usize) && 0 <= p < r.len()
            implies #[trigger] ranks_ahead(*m, x as int, r@[p] as int, jj) by {
        assert(!taken@[jj]);
    }
    r
}

/// The top-`k` neighbour list of every article, in article order.
pub fn select_top_k(m: &SimilarityMatrix, k: usize) -> (r: Vec<Vec<usize>>)
    requires
        m.wf(),
    ensures
        r.len() == m.size(),
        forall|x: int| 0 <= x < r.len() ==> is_top_k(*m, x, k as int, #[trigger] r@[x]@),
{
    let mut r: Vec<Vec<usize>> = Vec::new();
    let mut x: usize = 0;
    while x < m.norms_sq.len()
        invariant
            m.wf(),
            x <= m.size(),
            r.len() == x,
            forall|y: int| 0 <= y < x ==> is_top_k(*m, y, k as int, #[trigger] r@[y]@),
        decreases m.size() - x,
    {
        let row = top_k(m, x, k);
        r.push(row);
        x = x + 1;
    }
    r
}

} // verus!
