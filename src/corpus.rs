use vstd::prelude::*;
use crate::article::{
    body_of, clean_up, front_matter_body, get_permalink, permalink_of, stripped, ArticleError,
};
use crate::lemma::{lemmas_of, lemmatize, missing_of, words, Dictionary, Lemmatized, StopwordSet};
use crate::similarity::{corpus_wf, TermVector, MAX_TERMS};
use crate::text::{chars_of, lower_of, lowercase, string_of};
use crate::vector::{count_words, occurrences, Vocabulary};

verus! {

/// One analysed article: its permalink, the lemmas of its body in order,
/// and the words of its body that had no dictionary entry.
#[derive(Debug)]
pub struct Article {
    pub permalink: String,
    pub lemmas: Vec<String>,
    pub missing: Vec<String>,
}

/// The lemmas of an article's raw text, once lower-cased, split from its
/// front matter and stripped of markup.
pub open spec fn article_lemmas(
    dict: Map<Seq<char>, String>,
    stop: Set<Seq<char>>,
    body: Seq<char>,
) -> Seq<Seq<char>> {
    lemmas_of(dict, stop, words(stripped(body)))
}

/// Cleans, lemmatizes and checks one raw article. The text is lower-cased
/// first; a missing permalink, a missing body or too many counted words
/// leaves the article out with the matching error.
pub fn analyze_article(raw: &str, dict: &Dictionary, stop: &StopwordSet) -> (r: Result<
    Article,
    ArticleError,
>)
    ensures
        (r == Err::<Article, ArticleError>(ArticleError::MissingPermalink)) <==> permalink_of(
            lower_of(raw@),
        ) is None,
        (r == Err::<Article, ArticleError>(ArticleError::MalformedFrontMatter)) <==> (permalink_of(
            lower_of(raw@),
        ) is Some && body_of(lower_of(raw@)) is None),
        r == Err::<Article, ArticleError>(ArticleError::TooManyTerms) <==> permalink_of(
            lower_of(raw@),
        ) is Some && body_of(lower_of(raw@)) is Some && article_lemmas(
            dict.map@,
            stop.set@,
            body_of(lower_of(raw@))->0,
        ).len() > MAX_TERMS,
        r matches Ok(a) ==> {
            &&& permalink_of(lower_of(raw@)) == Some(a.permalink@)
            &&& body_of(lower_of(raw@)) is Some
            &&& a.lemmas.deep_view() == article_lemmas(
                dict.map@,
                stop.set@,
                body_of(lower_of(raw@))->0,
            )
            &&& a.lemmas.len() <= MAX_TERMS
            &&& a.missing.deep_view() == missing_of(
                dict.map@,
                stop.set@,
                words(stripped(body_of(lower_of(raw@))->0)),
            )
        },
        (permalink_of(lower_of(raw@)) is Some && body_of(lower_of(raw@)) is Some
            && article_lemmas(dict.map@, stop.set@, body_of(lower_of(raw@))->0).len() <= MAX_TERMS)
            ==> r is Ok,
{
    let lower = lowercase(raw);
    let text = chars_of(lower.as_str());
    let permalink = match get_permalink(&text) {
        Some(p) => p,
        None => {
            return Err(ArticleError::MissingPermalink);
        },
    };
    let body = match front_matter_body(&text) {
        Some(b) => b,
        None => {
            return Err(ArticleError::MalformedFrontMatter);
        },
    };
    let body_text = string_of(&body);
    let cleaned = clean_up(body_text.as_str());
    let cleaned_chars = chars_of(cleaned.as_str());
    let Lemmatized { lemmas, missing } = lemmatize(&cleaned_chars, dict, stop);
    assert(lemmas.deep_view().len() == lemmas.len());
    if lemmas.len() > MAX_TERMS as usize {
        return Err(ArticleError::TooManyTerms);
    }
    Ok(Article { permalink: string_of(&permalink), lemmas, missing })
}

/// How often `w` occurs among the first `n` lemmas of `ws`.
pub open spec fn lemma_count(ws: Seq<Seq<char>>, w: Seq<char>, n: int) -> int
    decreases n,
{
    if n <= 0 || n > ws.len() {
        0
    } else {
        lemma_count(ws, w, n - 1) + if ws[n - 1] == w {
            1int
        } else {
            0int
        }
    }
}

proof fn lemma_ids_count(
    voc: Vocabulary,
    ids: Seq<usize>,
    ws: Seq<Seq<char>>,
    t: int,
    n: int,
)
    requires
        voc.wf(),
        0 <= t < voc.len(),
        0 <= n <= ids.len(),
        ids.len() == ws.len(),
        forall|p: int|
            0 <= p < ids.len() ==> #[trigger] ids[p] < voc.len() && voc.terms@[ids[p] as int]@
                == ws[p],
    ensures
        occurrences(ids, t, n) == lemma_count(ws, voc.terms@[t]@, n),
    decreases n,
{
    if n > 0 {
        lemma_ids_count(voc, ids, ws, t, n - 1);
        let p = n - 1;
        assert(ids[p] < voc.len());
        if ws[p] == voc.terms@[t]@ {
            assert(voc.ids().contains_key(voc.terms@[t]@));
            assert(voc.ids().contains_key(voc.terms@[ids[p] as int]@));
            assert(voc.ids()[voc.terms@[t]@] == t);
            assert(voc.ids()[voc.terms@[ids[p] as int]@] == ids[p]);
        }
    }
}

/// The term-frequency vectors of a corpus over one shared vocabulary:
/// `vectors[i].counts[t]` is how often the lemma `vocab.terms[t]` occurs in
/// article `i`.
pub fn vectorize_corpus(articles: &Vec<Article>) -> (r: (Vocabulary, Vec<TermVector>))
    requires
        forall|i: int| 0 <= i < articles.len() ==> #[trigger] articles@[i].lemmas.len() <= MAX_TERMS,
        articles.len() * MAX_TERMS < usize::MAX,
    ensures
        r.0.wf(),
        r.1.len() == articles.len(),
        corpus_wf(r.1@),
        forall|i: int| 0 <= i < r.1.len() ==> #[trigger] r.1@[i].counts.len() == r.0.len(),
        forall|i: int, t: int|
            0 <= i < r.1.len() && 0 <= t < r.0.len() ==> #[trigger] r.1@[i].counts@[t]
                == lemma_count(
                articles@[i].lemmas.deep_view(),
                r.0.terms@[t]@,
                articles@[i].lemmas.len() as int,
            ),
        forall|i: int, p: int|
            0 <= i < articles.len() && 0 <= p < articles@[i].lemmas.len() ==> #[trigger] r.0.id_of(
                articles@[i].lemmas@[p]@,
            ) is Some,
        forall|i: int, w: Seq<char>|
            0 <= i < articles.len() && r.0.id_of(w) is Some ==> r.0.id_of(w)->0
                < r.0.len() && r.1@[i].counts@[r.0.id_of(w)->0 as int] == #[trigger] lemma_count(
                articles@[i].lemmas.deep_view(),
                w,
                articles@[i].lemmas.len() as int,
            ),
{
    let mut voc = Vocabulary::new();
    let mut all_ids: Vec<Vec<usize>> = Vec::new();
    let mut d: usize = 0;
    while d < articles.len()
        invariant
            d <= articles.len(),
            forall|i: int| 0 <= i < articles.len() ==> #[trigger] articles@[i].lemmas.len() <= MAX_TERMS,
            articles.len() * MAX_TERMS < usize::MAX,
            voc.wf(),
            voc.len() <= d * MAX_TERMS,
            all_ids.len() == d,
            forall|i: int|
                0 <= i < d ==> #[trigger] all_ids@[i].len() == articles@[i].lemmas.len(),
            forall|i: int, p: int|
                0 <= i < d && 0 <= p < all_ids@[i].len() ==> #[trigger] all_ids@[i]@[p]
                    < voc.len() && voc.terms@[all_ids@[i]@[p] as int]@ == articles@[i].lemmas@[p]@,
        decreases articles.len() - d,
    {
        let lemmas = &articles[d].lemmas;
        let mut ids: Vec<usize> = Vec::new();
        let mut p: usize = 0;
        assert(d * MAX_TERMS + MAX_TERMS <= articles.len() * MAX_TERMS) by (nonlinear_arith)
            requires
                d < articles.len(),
        ;
        while p < lemmas.len()
            invariant
                d < articles.len(),
                lemmas == &articles@[d as int].lemmas,
                lemmas.len() <= MAX_TERMS,
                d * MAX_TERMS + MAX_TERMS <= articles.len() * MAX_TERMS,
                articles.len() * MAX_TERMS < usize::MAX,
                p <= lemmas.len(),
                voc.wf(),
                voc.len() <= d * MAX_TERMS + p,
                all_ids.len() == d,
                forall|i: int|
                    0 <= i < d ==> #[trigger] all_ids@[i].len() == articles@[i].lemmas.len(),
                forall|i: int, q: int|
                    0 <= i < d && 0 <= q < all_ids@[i].len() ==> #[trigger] all_ids@[i]@[q]
                        < voc.len() && voc.terms@[all_ids@[i]@[q] as int]@
                        == articles@[i].lemmas@[q]@,
                ids.len() == p,
                forall|q: int|
                    0 <= q < p ==> #[trigger] ids@[q] < voc.len() && voc.terms@[ids@[q] as int]@
                        == lemmas@[q]@,
            decreases lemmas.len() - p,
        {
            let ghost old_terms = voc.terms@;
            let id = voc.intern(&lemmas[p]);
            proof {
                assert forall|i: int, q: int|
                    0 <= i < d && 0 <= q < all_ids@[i].len() implies #[trigger] all_ids@[i]@[q]
                        < voc.len() && voc.terms@[all_ids@[i]@[q] as int]@
                        == articles@[i].lemmas@[q]@ by {
                    assert(old_terms[all_ids@[i]@[q] as int] == voc.terms@[all_ids@[i]@[q] as int]);
                }
                assert forall|q: int| 0 <= q < p implies #[trigger] ids@[q] < voc.len()
                    && voc.terms@[ids@[q] as int]@ == lemmas@[q]@ by {
                    assert(old_terms[ids@[q] as int] == voc.terms@[ids@[q] as int]);
                }
            }
            ids.push(id);
            p = p + 1;
        }
        all_ids.push(ids);
        d = d + 1;
    }
    let mut vectors: Vec<TermVector> = Vec::new();
    let vsize = voc.terms.len();
    let mut i: usize = 0;
    while i < all_ids.len()
        invariant
            i <= all_ids.len(),
            all_ids.len() == articles.len(),
            vsize == voc.len(),
            voc.wf(),
            forall|i: int| 0 <= i < articles.len() ==> #[trigger] articles@[i].lemmas.len() <= MAX_TERMS,
            forall|k: int|
                0 <= k < articles.len() ==> #[trigger] all_ids@[k].len() == articles@[k].lemmas.len(),
            forall|k: int, p: int|
                0 <= k < articles.len() && 0 <= p < all_ids@[k].len() ==> #[trigger] all_ids@[k]@[p]
                    < voc.len() && voc.terms@[all_ids@[k]@[p] as int]@
                    == articles@[k].lemmas@[p]@,
            vectors.len() == i,
            forall|k: int| 0 <= k < i ==> #[trigger] vectors@[k].wf() && vectors@[k].counts.len() == vsize,
            forall|k: int, t: int|
                0 <= k < i && 0 <= t < vsize ==> #[trigger] vectors@[k].counts@[t] == lemma_count(
                    articles@[k].lemmas.deep_view(),
                    voc.terms@[t]@,
                    articles@[k].lemmas.len() as int,
                ),
        decreases all_ids.len() - i,
    {
        assert(all_ids@[i as int].len() <= MAX_TERMS);
        let v = match count_words(&all_ids[i], vsize) {
            Some(v) => v,
            None => {
                assert(false);
                TermVector { counts: Vec::new() }
            },
        };
        proof {
            let ws = articles@[i as int].lemmas.deep_view();
            assert forall|p: int| 0 <= p < all_ids@[i as int].len() implies #[trigger] all_ids@[i as int][p]
                < voc.len() && voc.terms@[all_ids@[i as int][p] as int]@ == ws[p] by {
                assert(all_ids@[i as int]@[p] == all_ids@[i as int][p]);
            }
            assert forall|t: int| 0 <= t < vsize implies #[trigger] v.counts@[t] == lemma_count(
                ws,
                voc.terms@[t]@,
                articles@[i as int].lemmas.len() as int,
            ) by {
                lemma_ids_count(voc, all_ids@[i as int]@, ws, t, all_ids@[i as int].len() as int);
            }
        }
        vectors.push(v);
        i = i + 1;
    }
    proof {
        assert forall|k: int| 0 <= k < vectors.len() implies #[trigger] vectors@[k].wf()
            && vectors@[k].counts.len() == vectors@[0].counts.len() by {
            assert(vectors@[k].wf() && vectors@[k].counts.len() == vsize);
            assert(vectors@[0].wf() && vectors@[0].counts.len() == vsize);
        }
        assert forall|k: int| 0 <= k < vectors.len() implies #[trigger] vectors@[k].counts.len()
            == voc.len() by {
            assert(vectors@[k].wf() && vectors@[k].counts.len() == vsize);
        }
        assert forall|k: int, p: int|
            0 <= k < articles.len() && 0 <= p < articles@[k].lemmas.len() implies #[trigger] voc.id_of(
            articles@[k].lemmas@[p]@,
        ) is Some by {
            assert(all_ids@[k]@[p] < voc.len());
            assert(voc.ids().contains_key(voc.terms@[all_ids@[k]@[p] as int]@));
        }
        assert forall|k: int, w: Seq<char>|
            0 <= k < articles.len() && voc.id_of(w) is Some implies voc.id_of(w)->0
            < voc.len() && vectors@[k].counts@[voc.id_of(w)->0 as int] == #[trigger] lemma_count(
            articles@[k].lemmas.deep_view(),
            w,
            articles@[k].lemmas.len() as int,
        ) by {
            assert(voc.ids().contains_key(w));
            let t = voc.ids()[w] as int;
            assert(voc.terms@[t]@ == w);
            assert(vectors@[k].counts@[t] == lemma_count(
                articles@[k].lemmas.deep_view(),
                voc.terms@[t]@,
                articles@[k].lemmas.len() as int,
            ));
        }
    }
    (voc, vectors)
}

} // verus!
