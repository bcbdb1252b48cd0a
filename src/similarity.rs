use vstd::prelude::*;

verus! {

/// Largest number of term occurrences that one article vector may hold.
/// It keeps every product used in scoring and ranking within `u128`.
pub const MAX_TERMS: u64 = 1048576;

/// Sum of the first `n` counts.
pub open spec fn total_upto(a: Seq<u64>, n: int) -> int
    decreases n,
{
    if n <= 0 || n > a.len() {
        0
    } else {
        total_upto(a, n - 1) + a[n - 1]
    }
}

/// Sum of the products of the first `n` pairs of counts.
pub open spec fn dot_upto(a: Seq<u64>, b: Seq<u64>, n: int) -> int
    decreases n,
{
    if n <= 0 || n > a.len() || n > b.len() {
        0
    } else {
        dot_upto(a, b, n - 1) + a[n - 1] * b[n - 1]
    }
}

/// Number of term occurrences in a dense count vector.
pub open spec fn total(a: Seq<u64>) -> int {
    total_upto(a, a.len() as int)
}

/// Dot product of two count vectors over the same vocabulary: only terms
/// present in both contribute.
pub open spec fn dot(a: Seq<u64>, b: Seq<u64>) -> int {
    dot_upto(a, b, a.len() as int)
}

/// Squared magnitude of a count vector.
pub open spec fn norm_sq(a: Seq<u64>) -> int {
    dot_upto(a, a, a.len() as int)
}

/// A term-frequency vector: `counts[t]` is how often the term with id `t`
/// occurs in the article (0 when it does not occur).
#[derive(Debug)]
pub struct TermVector {
    pub counts: Vec<u64>,
}

impl TermVector {
    pub open spec fn wf(&self) -> bool {
        total(self.counts@) <= MAX_TERMS
    }
}

/// The exact integer parts of a cosine similarity:
/// `score = dot / sqrt(norm_sq_1) / sqrt(norm_sq_2)`, and 0 where either
/// squared magnitude is 0.
#[derive(Clone, Copy, Debug, PartialEq, Eq)]
pub struct CosineParts {
    pub dot: u128,
    pub norm_sq_1: u128,
    pub norm_sq_2: u128,
}

pub proof fn lemma_total_monotone(a: Seq<u64>, i: int, j: int)
    requires
        0 <= i <= j <= a.len(),
    ensures
        0 <= total_upto(a, i) <= total_upto(a, j),
    decreases j - i,
{
    if i < j {
        lemma_total_monotone(a, i, j - 1);
    } else {
        lemma_total_nonneg(a, i);
    }
}

pub proof fn lemma_total_nonneg(a: Seq<u64>, n: int)
    ensures
        total_upto(a, n) >= 0,
    decreases n,
{
    if n > 0 && n <= a.len() {
        lemma_total_nonneg(a, n - 1);
    }
}

/// A dot product is at most the product of the two totals.
pub proof fn lemma_dot_bound(a: Seq<u64>, b: Seq<u64>, n: int)
    requires
        0 <= n <= a.len(),
        n <= b.len(),
    ensures
        0 <= dot_upto(a, b, n) <= total_upto(a, n) * total_upto(b, n),
    decreases n,
{
    if n > 0 {
        lemma_dot_bound(a, b, n - 1);
        lemma_total_nonneg(a, n - 1);
        lemma_total_nonneg(b, n - 1);
        let d = dot_upto(a, b, n - 1);
        let ta = total_upto(a, n - 1);
        let tb = total_upto(b, n - 1);
        let x = a[n - 1] as int;
        let y = b[n - 1] as int;
        assert(0 <= d + x * y <= (ta + x) * (tb + y)) by (nonlinear_arith)
            requires
                0 <= d <= ta * tb,
                ta >= 0,
                tb >= 0,
                x >= 0,
                y >= 0,
        ;
    }
}

pub proof fn lemma_dot_commutes(a: Seq<u64>, b: Seq<u64>, n: int)
    ensures
        dot_upto(a, b, n) == dot_upto(b, a, n),
    decreases n,
{
    if n > 0 && n <= a.len() && n <= b.len() {
        lemma_dot_commutes(a, b, n - 1);
        assert(a[n - 1] * b[n - 1] == b[n - 1] * a[n - 1]) by (nonlinear_arith);
    }
}

/// Products of two values bounded by `MAX_TERMS` stay below `MAX_TERMS²`.
pub proof fn lemma_product_bound(x: int, y: int)
    requires
        0 <= x <= MAX_TERMS,
        0 <= y <= MAX_TERMS,
    ensures
        0 <= x * y <= MAX_TERMS * MAX_TERMS,
{
    assert(0 <= x * y <= MAX_TERMS * MAX_TERMS) by (nonlinear_arith)
        requires
            0 <= x <= MAX_TERMS,
            0 <= y <= MAX_TERMS,
    ;
}

/// Bounds of a dot product between two well-formed vectors.
pub proof fn lemma_dot_fits(a: Seq<u64>, b: Seq<u64>)
    requires
        a.len() == b.len(),
        total(a) <= MAX_TERMS,
        total(b) <= MAX_TERMS,
    ensures
        0 <= dot(a, b) <= MAX_TERMS * MAX_TERMS,
{
    lemma_dot_bound(a, b, a.len() as int);
    lemma_total_nonneg(a, a.len() as int);
    lemma_total_nonneg(b, b.len() as int);
    lemma_product_bound(total(a), total(b));
}

fn dot_product(a: &Vec<u64>, b: &Vec<u64>) -> (r: u128)
    requires
        a.len() == b.len(),
        total(a@) <= MAX_TERMS,
        total(b@) <= MAX_TERMS,
    ensures
        r == dot(a@, b@),
{
    let mut acc: u128 = 0;
    let mut i: usize = 0;
    while i < a.len()
        invariant
            i <= a.len(),
            a.len() == b.len(),
            total(a@) <= MAX_TERMS,
            total(b@) <= MAX_TERMS,
            acc == dot_upto(a@, b@, i as int),
        decreases a.len() - i,
    {
        proof {
            lemma_dot_bound(a@, b@, i + 1);
            lemma_dot_bound(a@, b@, i as int);
            lemma_total_monotone(a@, i + 1, a.len() as int);
            lemma_total_monotone(b@, i + 1, b.len() as int);
            lemma_product_bound(total_upto(a@, i + 1), total_upto(b@, i + 1));
        }
        acc = acc + (a[i] as u128) * (b[i] as u128);
        i = i + 1;
    }
    acc
}

/// The cosine similarity of two articles, as its exact integer parts: the
/// dot product over the terms common to both, and each squared magnitude.
pub fn calculate_cosine_similarity(v1: &TermVector, v2: &TermVector) -> (r: CosineParts)
    requires
        v1.wf(),
        v2.wf(),
        v1.counts.len() == v2.counts.len(),
    ensures
        r.dot == dot(v1.counts@, v2.counts@),
        r.norm_sq_1 == norm_sq(v1.counts@),
        r.norm_sq_2 == norm_sq(v2.counts@),
        r.dot * r.dot <= r.norm_sq_1 * r.norm_sq_2,
{
    proof {
        lemma_score_in_range(v1.counts@, v2.counts@);
    }
    let d = dot_product(&v1.counts, &v2.counts);
    let n1 = dot_product(&v1.counts, &v1.counts);
    let n2 = dot_product(&v2.counts, &v2.counts);
    CosineParts { dot: d, norm_sq_1: n1, norm_sq_2: n2 }
}


proof fn lemma_sq_le(p: int, q: int)
    requires
        p >= 0,
        q >= 0,
        q * q <= p * p,
    ensures
        q <= p,
{
    if q > p {
        assert(p * p < q * q) by (nonlinear_arith)
            requires
                0 <= p < q,
        ;
    }
}

pub proof fn lemma_cauchy_schwarz_upto(a: Seq<u64>, b: Seq<u64>, n: int)
    requires
        0 <= n <= a.len(),
        n <= b.len(),
    ensures
        dot_upto(a, b, n) * dot_upto(a, b, n) <= dot_upto(a, a, n) * dot_upto(b, b, n),
    decreases n,
{
    if n > 0 {
        lemma_cauchy_schwarz_upto(a, b, n - 1);
        lemma_dot_bound(a, b, n - 1);
        lemma_dot_bound(a, a, n - 1);
        lemma_dot_bound(b, b, n - 1);
        let d = dot_upto(a, b, n - 1);
        let sa = dot_upto(a, a, n - 1);
        let sb = dot_upto(b, b, n - 1);
        let x = a[n - 1] as int;
        let y = b[n - 1] as int;
        let xx = x * x;
        let yy = y * y;
        let w = x * y;
        let u = sa * yy;
        let v = sb * xx;
        let p = u + v;
        let q = 2 * d * w;
        assert(xx >= 0 && yy >= 0 && w >= 0) by (nonlinear_arith)
            requires
                x >= 0,
                y >= 0,
                xx == x * x,
                yy == y * y,
                w == x * y,
        ;
        assert(u >= 0 && v >= 0) by (nonlinear_arith)
            requires
                sa >= 0,
                sb >= 0,
                xx >= 0,
                yy >= 0,
                u == sa * yy,
                v == sb * xx,
        ;
        assert(q >= 0) by (nonlinear_arith)
            requires
                d >= 0,
                w >= 0,
                q == 2 * d * w,
        ;
        assert(xx * yy == w * w) by (nonlinear_arith)
            requires
                xx == x * x,
                yy == y * y,
                w == x * y,
        ;
        assert(u * v == (sa * sb) * (xx * yy)) by (nonlinear_arith)
            requires
                u == sa * yy,
                v == sb * xx,
        ;
        assert(p * p == (u - v) * (u - v) + 4 * (u * v)) by (nonlinear_arith)
            requires
                p == u + v,
        ;
        assert(q * q == 4 * ((d * d) * (w * w))) by (nonlinear_arith)
            requires
                q == 2 * d * w,
        ;
        assert((u - v) * (u - v) >= 0) by (nonlinear_arith);
        let ww = w * w;
        assert((sa * sb) * ww >= (d * d) * ww) by (nonlinear_arith)
            requires
                sa * sb >= d * d,
                ww >= 0,
        ;
        assert(ww >= 0) by (nonlinear_arith)
            requires
                ww == w * w,
        ;
        assert(q * q <= p * p);
        lemma_sq_le(p, q);
        assert((d + w) * (d + w) == d * d + q + ww) by (nonlinear_arith)
            requires
                q == 2 * d * w,
                ww == w * w,
        ;
        assert((sa + xx) * (sb + yy) == sa * sb + u + v + xx * yy) by (nonlinear_arith)
            requires
                u == sa * yy,
                v == sb * xx,
        ;
        assert(dot_upto(a, b, n) == d + w);
        assert(dot_upto(a, a, n) == sa + xx);
        assert(dot_upto(b, b, n) == sb + yy);
    }
}

/// Range: a cosine similarity lies in [0, 1]. Its dot product is never
/// negative and its square is at most the product of the squared magnitudes.
pub proof fn lemma_score_in_range(a: Seq<u64>, b: Seq<u64>)
    requires
        a.len() == b.len(),
    ensures
        0 <= dot(a, b),
        dot(a, b) * dot(a, b) <= norm_sq(a) * norm_sq(b),
{
    lemma_dot_bound(a, b, a.len() as int);
    lemma_cauchy_schwarz_upto(a, b, a.len() as int);
}

/// Symmetry: the similarity of A to B is the similarity of B to A.
pub proof fn lemma_score_symmetric(a: Seq<u64>, b: Seq<u64>)
    requires
        a.len() == b.len(),
    ensures
        dot(a, b) == dot(b, a),
{
    lemma_dot_commutes(a, b, a.len() as int);
}

/// Identity: two non-empty articles with the same term-frequency vector have
/// similarity 1: the dot product is positive and its square equals the product
/// of the squared magnitudes.
pub proof fn lemma_identical_score_one(a: Seq<u64>, b: Seq<u64>)
    requires
        a == b,
        norm_sq(a) > 0,
    ensures
        dot(a, b) > 0,
        dot(a, b) * dot(a, b) == norm_sq(a) * norm_sq(b),
{
}

proof fn lemma_disjoint_upto(a: Seq<u64>, b: Seq<u64>, n: int)
    requires
        forall|t: int| 0 <= t < a.len() && t < b.len() ==> a[t] == 0 || b[t] == 0,
    ensures
        dot_upto(a, b, n) == 0,
    decreases n,
{
    if n > 0 && n <= a.len() && n <= b.len() {
        lemma_disjoint_upto(a, b, n - 1);
        assert(a[n - 1] == 0 || b[n - 1] == 0);
        assert(a[n - 1] * b[n - 1] == 0) by (nonlinear_arith)
            requires
                a[n - 1] == 0 || b[n - 1] == 0,
        ;
    }
}

/// Disjointness: two articles with no term in common have similarity 0.
pub proof fn lemma_disjoint_score_zero(a: Seq<u64>, b: Seq<u64>)
    requires
        a.len() == b.len(),
        forall|t: int| 0 <= t < a.len() ==> a[t] == 0 || b[t] == 0,
    ensures
        dot(a, b) == 0,
{
    lemma_disjoint_upto(a, b, a.len() as int);
}


/// Every vector of a corpus is well-formed and all share one vocabulary.
pub open spec fn corpus_wf(vs: Seq<TermVector>) -> bool {
    forall|i: int|
        0 <= i < vs.len() ==> #[trigger] vs[i].wf() && vs[i].counts.len() == vs[0].counts.len()
}

/// Pairwise similarity of a corpus of `n` articles: `dots[i][j]` holds the dot
/// product of articles `i` and `j` (`None` for `i == j`: self-pairs are never
/// scored), and `norms_sq[i]` the squared magnitude of article `i`.
#[derive(Debug)]
pub struct SimilarityMatrix {
    pub dots: Vec<Vec<Option<u128>>>,
    pub norms_sq: Vec<u128>,
}

impl SimilarityMatrix {
    pub open spec fn size(&self) -> int {
        self.norms_sq.len() as int
    }

    /// The dot product stored for the pair `(i, j)`, 0 where none is stored.
    pub open spec fn dot_at(&self, i: int, j: int) -> int {
        match self.dots@[i]@[j] {
            Some(d) => d as int,
            None => 0,
        }
    }

    /// Square shape, no self-entries, every other pair scored, values bounded.
    pub open spec fn wf(&self) -> bool {
        &&& self.dots.len() == self.norms_sq.len()
        &&& forall|i: int| 0 <= i < self.size() ==> #[trigger] self.dots@[i].len() == self.size()
        &&& forall|i: int, j: int|
            0 <= i < self.size() && 0 <= j < self.size() ==> (#[trigger] self.dots@[i]@[j] is None
                <==> i == j)
        &&& forall|i: int, j: int|
            0 <= i < self.size() && 0 <= j < self.size() ==> #[trigger] self.dot_at(i, j)
                <= MAX_TERMS * MAX_TERMS
        &&& forall|i: int|
            0 <= i < self.size() ==> #[trigger] self.norms_sq@[i] <= MAX_TERMS * MAX_TERMS
    }

    /// The matrix holds the exact similarity parts of the corpus `vs`.
    pub open spec fn describes(&self, vs: Seq<TermVector>) -> bool {
        &&& self.size() == vs.len()
        &&& forall|i: int|
            0 <= i < vs.len() ==> #[trigger] self.norms_sq@[i] == norm_sq(vs[i].counts@)
        &&& forall|i: int, j: int|
            0 <= i < vs.len() && 0 <= j < vs.len() && i != j ==> #[trigger] self.dot_at(i, j)
                == dot(vs[i].counts@, vs[j].counts@)
    }
}

/// Scores every unordered pair of distinct articles once, and writes the
/// result for both orders.
pub fn calculate_all_similarities(vs: &Vec<TermVector>) -> (r: SimilarityMatrix)
    requires
        corpus_wf(vs@),
    ensures
        r.wf(),
        r.describes(vs@),
        forall|i: int, j: int|
            0 <= i < vs.len() && 0 <= j < vs.len() ==> #[trigger] r.dots@[i]@[j]
                == r.dots@[j]@[i],
        forall|i: int, j: int|
            0 <= i < vs.len() && 0 <= j < vs.len() ==> #[trigger] r.dot_at(i, j) * r.dot_at(i, j)
                <= r.norms_sq@[i] * r.norms_sq@[j],
{
    let n = vs.len();
    let mut norms: Vec<u128> = Vec::new();
    let mut i: usize = 0;
    while i < n
        invariant
            i <= n,
            n == vs.len(),
            corpus_wf(vs@),
            norms.len() == i,
            forall|a: int|
                0 <= a < i ==> #[trigger] norms@[a] == norm_sq(vs@[a].counts@) && norms@[a]
                    <= MAX_TERMS * MAX_TERMS,
        decreases n - i,
    {
        assert(vs@[i as int].wf());
        proof {
            lemma_dot_fits(vs@[i as int].counts@, vs@[i as int].counts@);
        }
        let d = dot_product(&vs[i].counts, &vs[i].counts);
        norms.push(d);
        i = i + 1;
    }
    let mut dots: Vec<Vec<Option<u128>>> = Vec::new();
    i = 0;
    while i < n
        invariant
            i <= n,
            n == vs.len(),
            corpus_wf(vs@),
            dots.len() == i,
            forall|a: int| 0 <= a < i ==> #[trigger] dots@[a].len() == n,
            forall|a: int, b: int|
                0 <= a < i && 0 <= b < n ==> match #[trigger] dots@[a]@[b] {
                    None => a == b,
                    Some(d) => a != b && d == dot(vs@[a].counts@, vs@[b].counts@),
                },
        decreases n - i,
    {
        let mut row: Vec<Option<u128>> = Vec::new();
        let mut j: usize = 0;
        while j < n
            invariant
                i < n,
                j <= n,
                n == vs.len(),
                corpus_wf(vs@),
                dots.len() == i,
                forall|a: int| 0 <= a < i ==> #[trigger] dots@[a].len() == n,
                forall|a: int, b: int|
                    0 <= a < i && 0 <= b < n ==> match #[trigger] dots@[a]@[b] {
                        None => a == b,
                        Some(d) => a != b && d == dot(vs@[a].counts@, vs@[b].counts@),
                    },
                row.len() == j,
                forall|b: int|
                    0 <= b < j ==> match #[trigger] row@[b] {
                        None => i == b,
                        Some(d) => i != b && d == dot(vs@[i as int].counts@, vs@[b].counts@),
                    },
            decreases n - j,
        {
            assert(vs@[i as int].wf() && vs@[j as int].wf());
            if j == i {
                row.push(None);
            } else if j < i {
                assert(dots@[j as int].len() == n);
                let e = dots[j][i];
                proof {
                    lemma_dot_commutes(
                        vs@[j as int].counts@,
                        vs@[i as int].counts@,
                        vs@[j as int].counts@.len() as int,
                    );
                }
                row.push(e);
            } else {
                let d = dot_product(&vs[i].counts, &vs[j].counts);
                row.push(Some(d));
            }
            j = j + 1;
        }
        dots.push(row);
        i = i + 1;
    }
    let r = SimilarityMatrix { dots, norms_sq: norms };
    assert forall|a: int, b: int| 0 <= a < n && 0 <= b < n implies #[trigger] r.dot_at(a, b)
        <= MAX_TERMS * MAX_TERMS && r.dot_at(a, b) * r.dot_at(a, b) <= r.norms_sq@[a]
        * r.norms_sq@[b] by {
        assert(vs@[a].wf() && vs@[b].wf());
        lemma_dot_fits(vs@[a].counts@, vs@[b].counts@);
        lemma_score_in_range(vs@[a].counts@, vs@[b].counts@);
        assert(r.norms_sq@[a] >= 0 && r.norms_sq@[b] >= 0);
        if a == b {
            assert(r.dot_at(a, b) == 0);
            assert(r.norms_sq@[a] * r.norms_sq@[b] >= 0) by (nonlinear_arith)
                requires
                    r.norms_sq@[a] >= 0,
                    r.norms_sq@[b] >= 0,
            ;
        }
    }
    assert forall|a: int, b: int| 0 <= a < n && 0 <= b < n implies #[trigger] r.dots@[a]@[b]
        == r.dots@[b]@[a] by {
        assert(vs@[a].wf() && vs@[b].wf());
        lemma_dot_commutes(vs@[a].counts@, vs@[b].counts@, vs@[a].counts@.len() as int);
    }
    r
}

} // verus!
