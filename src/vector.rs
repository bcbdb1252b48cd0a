use vstd::prelude::*;
use vstd::hash_map::StringHashMap;
use crate::similarity::{total, total_upto, TermVector, MAX_TERMS};

verus! {

/// How often term `t` occurs among the first `n` ids of `s`.
pub open spec fn occurrences(s: Seq<usize>, t: int, n: int) -> int
    decreases n,
{
    if n <= 0 || n > s.len() {
        0
    } else {
        occurrences(s, t, n - 1) + if s[n - 1] == t {
            1int
        } else {
            0int
        }
    }
}

/// The vocabulary of a corpus: each distinct lemma gets the id of its
/// position in `terms`.
pub struct Vocabulary {
    pub terms: Vec<String>,
    pub index: StringHashMap<usize>,
}

impl Vocabulary {
    pub open spec fn ids(&self) -> Map<Seq<char>, usize> {
        self.index@
    }

    pub open spec fn len(&self) -> nat {
        self.terms@.len()
    }

    /// The id of `lemma`, when it has one.
    pub open spec fn id_of(&self, lemma: Seq<char>) -> Option<usize> {
        if self.ids().contains_key(lemma) {
            Some(self.ids()[lemma])
        } else {
            None
        }
    }

    pub open spec fn wf(&self) -> bool {
        &&& forall|i: int|
            0 <= i < self.terms.len() ==> #[trigger] self.ids().contains_key(self.terms@[i]@)
                && self.ids()[self.terms@[i]@] == i
        &&& forall|w: Seq<char>|
            #[trigger] self.ids().contains_key(w) ==> self.ids()[w] < self.terms.len()
                && self.terms@[self.ids()[w] as int]@ == w
    }

    pub fn new() -> (r: Vocabulary)
        ensures
            r.wf(),
            r.len() == 0,
    {
        Vocabulary { terms: Vec::new(), index: StringHashMap::new() }
    }

    /// The id of `lemma`, given a new one if it has none yet. Existing ids
    /// never change.
    pub fn intern(&mut self, lemma: &String) -> (id: usize)
        requires
            old(self).wf(),
            old(self).len() < usize::MAX,
        ensures
            final(self).wf(),
            id < final(self).len(),
            final(self).terms@[id as int]@ == lemma@,
            old(self).terms@ == final(self).terms@.subrange(0, old(self).len() as int),
            final(self).len() == old(self).len() + if old(self).id_of(lemma@) is Some {
                0int
            } else {
                1int
            },
    {
        match self.index.get(lemma.as_str()) {
            Some(i) => *i,
            None => {
                let id = self.terms.len();
                let ghost old_terms = self.terms@;
                self.terms.push(lemma.clone());
                self.index.insert(lemma.clone(), id);
                proof {
                    assert(self.terms@.subrange(0, old_terms.len() as int) =~= old_terms);
                    assert forall|i: int| 0 <= i < self.terms.len() implies #[trigger] self.ids().contains_key(
                        self.terms@[i]@,
                    ) && self.ids()[self.terms@[i]@] == i by {
                        if i < old_terms.len() {
                            assert(self.terms@[i] == old_terms[i]);
                        }
                    }
                }
                id
            },
        }
    }
}

proof fn lemma_occurrences_bound(s: Seq<usize>, t: int, n: int)
    ensures
        0 <= occurrences(s, t, n) <= if n < 0 {
            0
        } else {
            n
        },
    decreases n,
{
    if n > 0 && n <= s.len() {
        lemma_occurrences_bound(s, t, n - 1);
    }
}

proof fn lemma_total_update(a: Seq<u64>, k: int, v: u64, n: int)
    requires
        0 <= k < a.len(),
        0 <= n <= a.len(),
    ensures
        total_upto(a.update(k, v), n) == total_upto(a, n) + if k < n {
            v - a[k]
        } else {
            0
        },
    decreases n,
{
    if n > 0 {
        lemma_total_update(a, k, v, n - 1);
    }
}

proof fn lemma_total_zeros(a: Seq<u64>, n: int)
    requires
        0 <= n <= a.len(),
        forall|i: int| 0 <= i < a.len() ==> #[trigger] a[i] == 0,
    ensures
        total_upto(a, n) == 0,
    decreases n,
{
    if n > 0 {
        lemma_total_zeros(a, n - 1);
    }
}

/// The term-frequency vector of a sequence of term ids: `counts[t]` is how
/// often `t` occurs. `None` when the sequence is longer than `MAX_TERMS`.
pub fn count_words(ids: &Vec<usize>, vocab_size: usize) -> (r: Option<TermVector>)
    requires
        forall|i: int| 0 <= i < ids.len() ==> #[trigger] ids@[i] < vocab_size,
    ensures
        r is Some <==> ids.len() <= MAX_TERMS,
        r matches Some(v) ==> {
            &&& v.wf()
            &&& v.counts.len() == vocab_size
            &&& total(v.counts@) == ids.len()
            &&& forall|t: int|
                0 <= t < vocab_size ==> #[trigger] v.counts@[t] == occurrences(
                    ids@,
                    t,
                    ids.len() as int,
                )
        },
{
    if ids.len() > MAX_TERMS as usize {
        return None;
    }
    let mut counts: Vec<u64> = Vec::new();
    let mut t: usize = 0;
    while t < vocab_size
        invariant
            t <= vocab_size,
            counts.len() == t,
            forall|i: int| 0 <= i < t ==> #[trigger] counts@[i] == 0,
        decreases vocab_size - t,
    {
        counts.push(0);
        t = t + 1;
    }
    proof {
        lemma_total_zeros(counts@, vocab_size as int);
    }
    let mut i: usize = 0;
    while i < ids.len()
        invariant
            i <= ids.len(),
            ids.len() <= MAX_TERMS,
            counts.len() == vocab_size,
            forall|j: int| 0 <= j < ids.len() ==> #[trigger] ids@[j] < vocab_size,
            total(counts@) == i,
            forall|u: int|
                0 <= u < vocab_size ==> #[trigger] counts@[u] == occurrences(ids@, u, i as int),
        decreases ids.len() - i,
    {
        let w = ids[i];
        proof {
            lemma_occurrences_bound(ids@, w as int, i as int);
        }
        let c = counts[w];
        proof {
            lemma_total_update(counts@, w as int, (c + 1) as u64, vocab_size as int);
        }
        counts.set(w, c + 1);
        i = i + 1;
    }
    Some(TermVector { counts })
}

} // verus!
