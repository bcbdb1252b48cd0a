use related_posts::article::{clean_up, front_matter_body, get_permalink, trim_chars, ArticleError};
use related_posts::corpus::{analyze_article, vectorize_corpus, Article};
use related_posts::lemma::{lemmatize, parse_dictionary_line, Dictionary, StopwordSet};
use related_posts::similarity::{
    calculate_all_similarities, calculate_cosine_similarity, CosineParts, SimilarityMatrix,
    TermVector,
};
use related_posts::text::white;
use related_posts::top_k::{select_top_k, top_k};
use related_posts::vector::{count_words, Vocabulary};

fn chars(s: &str) -> Vec<char> {
    s.chars().collect()
}

fn lines(ls: &[&str]) -> Vec<String> {
    ls.iter().map(|s| s.to_string()).collect()
}

fn empty_dict() -> Dictionary {
    Dictionary::from_lines(&Vec::new())
}

fn empty_stop() -> StopwordSet {
    StopwordSet::from_lines(&Vec::new())
}

fn doc(permalink: &str, body: &str) -> String {
    format!("---\ntitle: x\npermalink: {}\n---\n{}\n", permalink, body)
}

fn score(p: &CosineParts) -> f64 {
    if p.norm_sq_1 == 0 || p.norm_sq_2 == 0 {
        return 0.0;
    }
    let s = p.dot as f64 / (p.norm_sq_1 as f64).sqrt() / (p.norm_sq_2 as f64).sqrt();
    s.clamp(0.0, 1.0)
}

fn pipeline(bodies: &[&str]) -> (Vec<Article>, Vec<TermVector>, SimilarityMatrix) {
    let dict = empty_dict();
    let stop = empty_stop();
    let articles: Vec<Article> = bodies
        .iter()
        .enumerate()
        .map(|(i, b)| analyze_article(&doc(&format!("/p{}", i), b), &dict, &stop).unwrap())
        .collect();
    let (_voc, vectors) = vectorize_corpus(&articles);
    let m = calculate_all_similarities(&vectors);
    (articles, vectors, m)
}

fn pair_score(m: &SimilarityMatrix, i: usize, j: usize) -> f64 {
    score(&CosineParts {
        dot: m.dots[i][j].unwrap(),
        norm_sq_1: m.norms_sq[i],
        norm_sq_2: m.norms_sq[j],
    })
}

#[test]
fn identical_bodies_score_one_and_are_each_others_neighbour() {
    let (_, _, m) = pipeline(&["alpha beta gamma beta", "alpha beta gamma beta"]);
    assert!((pair_score(&m, 0, 1) - 1.0).abs() < 1e-12);
    let r = select_top_k(&m, 1);
    assert_eq!(r, vec![vec![1], vec![0]]);
}

#[test]
fn disjoint_vocabularies_score_zero() {
    let (_, _, m) = pipeline(&["alpha beta", "gamma delta"]);
    assert_eq!(m.dots[0][1], Some(0));
    assert_eq!(pair_score(&m, 0, 1), 0.0);
}

#[test]
fn cat_dog_bird_example() {
    let (articles, vectors, m) = pipeline(&["cat cat dog", "dog dog bird"]);
    assert_eq!(articles[0].lemmas, lines(&["cat", "cat", "dog"]));
    // vocabulary order: cat, dog, bird
    assert_eq!(vectors[0].counts, vec![2, 1, 0]);
    assert_eq!(vectors[1].counts, vec![0, 2, 1]);
    assert_eq!(m.dots[0][1], Some(2));
    assert_eq!(m.norms_sq, vec![5, 5]);
    assert!((pair_score(&m, 0, 1) - 0.4).abs() < 1e-12);
}

#[test]
fn three_articles_with_k_three_give_two_neighbours() {
    let (_, _, m) = pipeline(&["aa bb", "bb cc", "cc dd"]);
    let r = select_top_k(&m, 3);
    assert_eq!(r.len(), 3);
    for row in &r {
        assert_eq!(row.len(), 2);
    }
}

#[test]
fn article_without_permalink_is_skipped() {
    let dict = empty_dict();
    let stop = empty_stop();
    let raws = vec![
        doc("/a", "one two three"),
        "---\ntitle: none\n---\nbody words here\n".to_string(),
        doc("/c", "two three four"),
    ];
    let results: Vec<Result<Article, ArticleError>> =
        raws.iter().map(|r| analyze_article(r, &dict, &stop)).collect();
    assert_eq!(results[1].as_ref().err(), Some(&ArticleError::MissingPermalink));
    let articles: Vec<Article> = results.into_iter().filter_map(|r| r.ok()).collect();
    assert_eq!(articles.len(), 2);
    let (_voc, vectors) = vectorize_corpus(&articles);
    let m = calculate_all_similarities(&vectors);
    let r = select_top_k(&m, 3);
    assert_eq!(r, vec![vec![1], vec![0]]);
}

#[test]
fn fenced_code_is_excluded() {
    let body = "intro text\n```python\ndef foo(bar):\n    return bar\n```\nclosing words";
    let a = analyze_article(&doc("/x", body), &empty_dict(), &empty_stop()).unwrap();
    assert_eq!(a.lemmas, lines(&["intro", "text", "closing", "words"]));
}

#[test]
fn malformed_front_matter_is_reported() {
    let r = analyze_article("permalink: /x\nno separators here", &empty_dict(), &empty_stop());
    assert_eq!(r.err(), Some(ArticleError::MalformedFrontMatter));
}

#[test]
fn too_many_terms_is_reported() {
    let body = "ab ".repeat(1_048_577);
    let r = analyze_article(&doc("/big", &body), &empty_dict(), &empty_stop());
    assert_eq!(r.err(), Some(ArticleError::TooManyTerms));
}

#[test]
fn permalink_is_lower_cased_and_trimmed() {
    let a = analyze_article("---\nPermaLink:   /Hello/World  \n---\nBody", &empty_dict(), &empty_stop())
        .unwrap();
    assert_eq!(a.permalink, "/hello/world");
    assert_eq!(a.lemmas, lines(&["body"]));
}

#[test]
fn get_permalink_takes_rest_of_line() {
    assert_eq!(get_permalink(&chars("x\npermalink: /a/b \nmore")), Some(chars("/a/b")));
    assert_eq!(get_permalink(&chars("nothing here")), None);
}

#[test]
fn body_is_segment_after_second_separator() {
    assert_eq!(front_matter_body(&chars("---\na\n---\nbody\n---\ntail")), Some(chars("\nbody\n")));
    assert_eq!(front_matter_body(&chars("---\na\n---\nbody")), Some(chars("\nbody")));
    assert_eq!(front_matter_body(&chars("---\na\n")), None);
}

#[test]
fn clean_up_strips_markup() {
    let out = clean_up("see [the docs](http://x.y/z) and <b>bold</b>, `code` here!");
    let ws: Vec<&str> = out.split_whitespace().collect();
    assert_eq!(ws, vec!["see", "the", "docs", "and", "bold", "here"]);
}

#[test]
fn cleaning_is_idempotent() {
    let texts = [
        "see [the docs](http://x.y/z) and <b>bold</b>, `code` here!",
        "intro\n```rust\nfn main() {}\n```\nend: done.",
        "plain words only",
    ];
    for t in texts.iter() {
        let once = clean_up(t);
        let twice = clean_up(&once);
        assert_eq!(once, twice);
    }
}

#[test]
fn lemmatize_filters_and_maps() {
    let dict = Dictionary::from_lines(&lines(&["kot;koty;x", "pies;psa"]));
    let stop = StopwordSet::from_lines(&lines(&["  I  ", "the"]));
    let r = lemmatize(&chars("koty a \\escaped the psa koty unknown i"), &dict, &stop);
    assert_eq!(r.lemmas, lines(&["kot", "pies", "kot", "unknown"]));
    assert_eq!(r.missing, lines(&["unknown"]));
}

#[test]
fn same_form_same_lemma() {
    let dict = Dictionary::from_lines(&lines(&["kot;koty"]));
    let r = lemmatize(&chars("koty x koty koty"), &dict, &empty_stop());
    assert_eq!(r.lemmas, lines(&["kot", "kot", "kot"]));
    let again = lemmatize(&chars("koty x koty koty"), &dict, &empty_stop());
    assert_eq!(again.lemmas, r.lemmas);
}

#[test]
fn dictionary_later_line_wins() {
    let dict = Dictionary::from_lines(&lines(&["first;form", "second;form", "onlyonefield"]));
    let r = lemmatize(&chars("form onlyonefield"), &dict, &empty_stop());
    assert_eq!(r.lemmas, lines(&["second", "onlyonefield"]));
}

#[test]
fn parse_dictionary_line_fields() {
    assert_eq!(
        parse_dictionary_line("lemma;form;tag"),
        Some(("form".to_string(), "lemma".to_string()))
    );
    assert_eq!(parse_dictionary_line("lemma;form"), Some(("form".to_string(), "lemma".to_string())));
    assert_eq!(parse_dictionary_line("lemma"), None);
}

#[test]
fn stopwords_are_trimmed_and_lower_cased() {
    let stop = StopwordSet::from_lines(&lines(&["  ORAZ \t"]));
    let r = lemmatize(&chars("oraz kot"), &empty_dict(), &stop);
    assert_eq!(r.lemmas, lines(&["kot"]));
}

#[test]
fn whitespace_classes() {
    assert!(white(' '));
    assert!(white('\n'));
    assert!(white('\u{3000}'));
    assert!(!white('a'));
    assert_eq!(trim_chars(&chars(" \t x y \n")), chars("x y"));
}

#[test]
fn similarity_is_symmetric_and_in_range() {
    let (_, _, m) = pipeline(&["aa bb bb cc", "bb cc cc dd", "aa aa ee", "zz"]);
    for i in 0..4 {
        assert_eq!(m.dots[i][i], None);
        for j in 0..4 {
            assert_eq!(m.dots[i][j], m.dots[j][i]);
            if i != j {
                let s = pair_score(&m, i, j);
                assert!((0.0..=1.0).contains(&s));
            }
        }
    }
}

#[test]
fn neighbour_lists_exclude_self_and_have_min_length() {
    let (_, _, m) = pipeline(&["aa bb", "bb cc", "cc dd", "dd ee", "ee aa"]);
    for k in 0..7 {
        let r = select_top_k(&m, k);
        for (x, row) in r.iter().enumerate() {
            assert_eq!(row.len(), k.min(4));
            assert!(!row.contains(&x));
        }
    }
}

#[test]
fn top_k_orders_by_score_then_index() {
    let (_, _, m) = pipeline(&["aa bb cc", "aa", "aa bb", "zz", "aa bb cc"]);
    // article 4 equals article 0; 2 shares two words; 1 one; 3 none.
    assert_eq!(top_k(&m, 0, 4), vec![4, 2, 1, 3]);
    // ties at score 0 are broken by ascending index
    assert_eq!(top_k(&m, 3, 4), vec![0, 1, 2, 4]);
}

#[test]
fn empty_article_scores_zero() {
    let v1 = TermVector { counts: vec![0, 0] };
    let v2 = TermVector { counts: vec![1, 2] };
    let p = calculate_cosine_similarity(&v1, &v2);
    assert_eq!(p, CosineParts { dot: 0, norm_sq_1: 0, norm_sq_2: 5 });
    assert_eq!(score(&p), 0.0);
}

#[test]
fn cosine_parts_exact() {
    let v1 = TermVector { counts: vec![3, 0, 1] };
    let v2 = TermVector { counts: vec![1, 2, 4] };
    let p = calculate_cosine_similarity(&v1, &v2);
    assert_eq!(p, CosineParts { dot: 7, norm_sq_1: 10, norm_sq_2: 21 });
}

#[test]
fn count_words_counts_ids() {
    let v = count_words(&vec![2, 0, 2, 2], 4).unwrap();
    assert_eq!(v.counts, vec![1, 0, 3, 0]);
    assert!(count_words(&vec![0; 1_048_577], 1).is_none());
}

#[test]
fn vocabulary_interns_once() {
    let mut voc = Vocabulary::new();
    assert_eq!(voc.intern(&"a".to_string()), 0);
    assert_eq!(voc.intern(&"b".to_string()), 1);
    assert_eq!(voc.intern(&"a".to_string()), 0);
    assert_eq!(voc.terms, lines(&["a", "b"]));
}

fn counts_of(text: &str, dict: &Dictionary, stop: &StopwordSet) -> Vec<(String, u64)> {
    let raw = doc("/t", text);
    let a = analyze_article(&raw, dict, stop).unwrap();
    let (voc, vectors) = vectorize_corpus(&vec![a]);
    let mut out: Vec<(String, u64)> = voc
        .terms
        .iter()
        .zip(vectors[0].counts.iter())
        .filter(|(_, &c)| c > 0)
        .map(|(t, &c)| (t.clone(), c))
        .collect();
    out.sort();
    out
}

#[test]
fn stopwords_are_not_counted() {
    let stop = StopwordSet::from_lines(&lines(&["the", "and"]));
    let r = counts_of("the cat and the dog", &empty_dict(), &stop);
    assert_eq!(r, vec![("cat".to_string(), 1), ("dog".to_string(), 1)]);
}

#[test]
fn short_and_escaped_tokens_are_not_counted() {
    let r = counts_of("a b cd \\ef gh", &empty_dict(), &empty_stop());
    assert_eq!(r, vec![("cd".to_string(), 1), ("gh".to_string(), 1)]);
}

#[test]
fn dictionary_forms_are_counted_as_lemmas() {
    let dict = Dictionary::from_lines(&lines(&["cat;cats", "kitten;kittens"]));
    let r = counts_of("cats cat kittens", &dict, &empty_stop());
    assert_eq!(r, vec![("cat".to_string(), 2), ("kitten".to_string(), 1)]);
}

#[test]
fn one_letter_non_ascii_word_is_counted() {
    let r = lemmatize(&chars("ą a ż zz"), &empty_dict(), &empty_stop());
    assert_eq!(r.lemmas, lines(&["ą", "ż", "zz"]));
    assert_eq!(r.missing, lines(&["ą", "ż", "zz"]));
}

#[test]
fn missing_dictionary_words_are_reported() {
    let dict = Dictionary::from_lines(&lines(&["kot;koty"]));
    let a = analyze_article(&doc("/m", "koty nieznane koty"), &dict, &empty_stop()).unwrap();
    assert_eq!(a.lemmas, lines(&["kot", "nieznane", "kot"]));
    assert_eq!(a.missing, lines(&["nieznane"]));
}
