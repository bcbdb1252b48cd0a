use vstd::prelude::*;
use vstd::hash_map::StringHashMap;
use vstd::hash_set::StringHashSet;
use crate::article::{trim_chars, trimmed};
use crate::text::{chars_of, find, find_from, is_white, lower_of, lowercase, string_of, white};

verus! {

/// The words of a text, read up to `n`: the words completed so far, and the
/// word in progress.
pub open spec fn split_state(s: Seq<char>, n: int) -> (Seq<Seq<char>>, Seq<char>)
    decreases n,
{
    if n <= 0 || n > s.len() {
        (seq![], seq![])
    } else {
        let (done, cur) = split_state(s, n - 1);
        if is_white(s[n - 1]) {
            if cur.len() > 0 {
                (done.push(cur), seq![])
            } else {
                (done, seq![])
            }
        } else {
            (done, cur.push(s[n - 1]))
        }
    }
}

/// The maximal runs of non-whitespace characters of `s`, in order.
pub open spec fn words(s: Seq<char>) -> Seq<Seq<char>> {
    let (done, cur) = split_state(s, s.len() as int);
    if cur.len() > 0 {
        done.push(cur)
    } else {
        done
    }
}

/// The canonical form of a surface word: its dictionary entry, or the word
/// itself where the dictionary has none.
pub open spec fn lemma_of(dict: Map<Seq<char>, String>, w: Seq<char>) -> Seq<char> {
    if dict.contains_key(w) {
        dict[w]@
    } else {
        w
    }
}

/// The UTF-8 encoding of `w` is longer than one byte: it has two characters
/// or more, or one outside ASCII.
pub open spec fn over_one_byte(w: Seq<char>) -> bool {
    w.len() > 1 || (w.len() == 1 && w[0] >= '\u{80}')
}

/// A word counts unless its UTF-8 form is at most one byte long, it starts
/// with a backslash, or it is a stopword.
pub open spec fn keeps(stop: Set<Seq<char>>, w: Seq<char>) -> bool {
    over_one_byte(w) && w[0] != '\\' && !stop.contains(w)
}

/// The words that count but have no dictionary entry, in order.
pub open spec fn missing_of(
    dict: Map<Seq<char>, String>,
    stop: Set<Seq<char>>,
    ws: Seq<Seq<char>>,
) -> Seq<Seq<char>>
    decreases ws.len(),
{
    if ws.len() == 0 {
        seq![]
    } else {
        let prev = missing_of(dict, stop, ws.drop_last());
        if keeps(stop, ws.last()) && !dict.contains_key(ws.last()) {
            prev.push(ws.last())
        } else {
            prev
        }
    }
}

/// The lemmas of the words that count, in order, with repeats.
pub open spec fn lemmas_of(
    dict: Map<Seq<char>, String>,
    stop: Set<Seq<char>>,
    ws: Seq<Seq<char>>,
) -> Seq<Seq<char>>
    decreases ws.len(),
{
    if ws.len() == 0 {
        seq![]
    } else {
        let prev = lemmas_of(dict, stop, ws.drop_last());
        if keeps(stop, ws.last()) {
            prev.push(lemma_of(dict, ws.last()))
        } else {
            prev
        }
    }
}

/// Surface form to lemma.
pub struct Dictionary {
    pub map: StringHashMap<String>,
}

/// Words left out of counting.
pub struct StopwordSet {
    pub set: StringHashSet,
}

/// Lemma determinism: a run of one surface form that counts gives one and
/// the same lemma for each occurrence.
pub proof fn lemma_same_form_same_lemma(
    dict: Map<Seq<char>, String>,
    stop: Set<Seq<char>>,
    ws: Seq<Seq<char>>,
    w: Seq<char>,
)
    requires
        keeps(stop, w),
        forall|i: int| 0 <= i < ws.len() ==> #[trigger] ws[i] == w,
    ensures
        lemmas_of(dict, stop, ws) == Seq::new(ws.len(), |i: int| lemma_of(dict, w)),
    decreases ws.len(),
{
    if ws.len() > 0 {
        let prev = ws.drop_last();
        assert forall|i: int| 0 <= i < prev.len() implies #[trigger] prev[i] == w by {
            assert(prev[i] == ws[i]);
        }
        lemma_same_form_same_lemma(dict, stop, prev, w);
        assert(ws.last() == ws[ws.len() - 1]);
        assert(lemmas_of(dict, stop, ws) =~= Seq::new(ws.len(), |i: int| lemma_of(dict, w)));
    }
}

/// The lemmas of a text, and the words that had no dictionary entry.
pub struct Lemmatized {
    pub lemmas: Vec<String>,
    pub missing: Vec<String>,
}

fn push_word(
    out: &mut Vec<String>,
    missing: &mut Vec<String>,
    w: &Vec<char>,
    dict: &Dictionary,
    stop: &StopwordSet,
)
    ensures
        final(out).deep_view() == if keeps(stop.set@, w@) {
            old(out).deep_view().push(lemma_of(dict.map@, w@))
        } else {
            old(out).deep_view()
        },
        final(missing).deep_view() == if keeps(stop.set@, w@) && !dict.map@.contains_key(w@) {
            old(missing).deep_view().push(w@)
        } else {
            old(missing).deep_view()
        },
{
    if !(w.len() > 1 || (w.len() == 1 && w[0] >= '\u{80}')) || w[0] == '\\' {
        return;
    }
    let s = string_of(w);
    if stop.set.contains(s.as_str()) {
        return;
    }
    let ghost before = out.deep_view();
    let ghost before_missing = missing.deep_view();
    match dict.map.get(s.as_str()) {
        Some(l) => out.push(l.clone()),
        None => {
            missing.push(s.clone());
            out.push(s);
            assert(missing.deep_view() =~= before_missing.push(w@));
        },
    }
    assert(out.deep_view() =~= before.push(lemma_of(dict.map@, w@)));
}

/// Splits a cleaned text on whitespace and maps each word that counts to
/// its lemma; a word without a dictionary entry stands for itself and is
/// reported in `missing`.
pub fn lemmatize(text: &Vec<char>, dict: &Dictionary, stop: &StopwordSet) -> (r: Lemmatized)
    ensures
        r.lemmas.deep_view() == lemmas_of(dict.map@, stop.set@, words(text@)),
        r.missing.deep_view() == missing_of(dict.map@, stop.set@, words(text@)),
{
    let mut out: Vec<String> = Vec::new();
    let mut missing: Vec<String> = Vec::new();
    assert(missing.deep_view() =~= seq![]);
    let mut cur: Vec<char> = Vec::new();
    let mut i: usize = 0;
    assert(out.deep_view() =~= seq![]);
    while i < text.len()
        invariant
            i <= text.len(),
            out.deep_view() == lemmas_of(dict.map@, stop.set@, split_state(text@, i as int).0),
            missing.deep_view() == missing_of(dict.map@, stop.set@, split_state(text@, i as int).0),
            cur@ == split_state(text@, i as int).1,
        decreases text.len() - i,
    {
        let c = text[i];
        let ghost done = split_state(text@, i as int).0;
        if white(c) {
            if cur.len() > 0 {
                push_word(&mut out, &mut missing, &cur, dict, stop);
                assert(done.push(cur@).drop_last() =~= done);
                cur = Vec::new();
            } else {
                cur = Vec::new();
            }
            assert(cur@ =~= seq![]);
        } else {
            cur.push(c);
        }
        i = i + 1;
    }
    if cur.len() > 0 {
        let ghost done = split_state(text@, i as int).0;
        push_word(&mut out, &mut missing, &cur, dict, stop);
        assert(done.push(cur@).drop_last() =~= done);
    }
    Lemmatized { lemmas: out, missing }
}


/// The entry of one dictionary line `lemma;form;...`: the surface form (second
/// field) and its lemma (first field); `None` for a line with one field only.
pub open spec fn entry_of(line: Seq<char>) -> Option<(Seq<char>, Seq<char>)> {
    let i1 = find_from(line, seq![';'], 0);
    if i1 < 0 {
        None
    } else {
        let i2 = find_from(line, seq![';'], i1 + 1);
        Some(
            (line.subrange(i1 + 1, if i2 < 0 { line.len() as int } else { i2 }), line.subrange(0, i1)),
        )
    }
}

/// The dictionary that a sequence of lines describes; a later line wins over
/// an earlier one for the same surface form.
pub open spec fn dictionary_of(lines: Seq<Seq<char>>) -> Map<Seq<char>, Seq<char>>
    decreases lines.len(),
{
    if lines.len() == 0 {
        Map::empty()
    } else {
        let prev = dictionary_of(lines.drop_last());
        match entry_of(lines.last()) {
            Some((form, lemma)) => prev.insert(form, lemma),
            None => prev,
        }
    }
}

/// The stopword set that a sequence of lines describes: each line trimmed
/// and lower-cased.
pub open spec fn stopwords_of(lines: Seq<Seq<char>>) -> Set<Seq<char>>
    decreases lines.len(),
{
    if lines.len() == 0 {
        Set::empty()
    } else {
        stopwords_of(lines.drop_last()).insert(
            lower_of(trimmed(lines.last(), 0, lines.last().len() as int)),
        )
    }
}

fn substring(s: &Vec<char>, a: usize, b: usize) -> (r: String)
    requires
        a <= b <= s.len(),
    ensures
        r@ == s@.subrange(a as int, b as int),
{
    let mut v: Vec<char> = Vec::new();
    let mut i = a;
    while i < b
        invariant
            a <= i <= b,
            b <= s.len(),
            v@ == s@.subrange(a as int, i as int),
        decreases b - i,
    {
        v.push(s[i]);
        i = i + 1;
        assert(v@ =~= s@.subrange(a as int, i as int));
    }
    string_of(&v)
}

/// Parses one dictionary line into (surface form, lemma).
pub fn parse_dictionary_line(line: &str) -> (r: Option<(String, String)>)
    ensures
        r is None <==> entry_of(line@) is None,
        r matches Some((form, lemma)) ==> entry_of(line@) == Some((form@, lemma@)),
{
    let s = chars_of(line);
    let semi: Vec<char> = vec![';'];
    assert(semi@ =~= seq![';']);
    let i1 = match find(&s, &semi, 0) {
        Some(i) => i,
        None => {
            return None;
        },
    };
    let end = match find(&s, &semi, i1 + 1) {
        Some(i) => i,
        None => s.len(),
    };
    let form = substring(&s, i1 + 1, end);
    let lemma = substring(&s, 0, i1);
    Some((form, lemma))
}

impl Dictionary {
    /// The dictionary of `lines`, later lines winning.
    pub fn from_lines(lines: &Vec<String>) -> (r: Dictionary)
        ensures
            forall|w: Seq<char>| #[trigger]
                r.map@.contains_key(w) <==> dictionary_of(lines.deep_view()).contains_key(w),
            forall|w: Seq<char>| #[trigger]
                r.map@.contains_key(w) ==> r.map@[w]@ == dictionary_of(lines.deep_view())[w],
    {
        let mut map: StringHashMap<String> = StringHashMap::new();
        let mut i: usize = 0;
        while i < lines.len()
            invariant
                i <= lines.len(),
                forall|w: Seq<char>| #[trigger]
                    map@.contains_key(w) <==> dictionary_of(
                        lines.deep_view().subrange(0, i as int),
                    ).contains_key(w),
                forall|w: Seq<char>| #[trigger]
                    map@.contains_key(w) ==> map@[w]@ == dictionary_of(
                        lines.deep_view().subrange(0, i as int),
                    )[w],
            decreases lines.len() - i,
        {
            let ghost prefix = lines.deep_view().subrange(0, i + 1);
            assert(prefix.drop_last() =~= lines.deep_view().subrange(0, i as int));
            assert(prefix.last() == lines@[i as int]@);
            match parse_dictionary_line(lines[i].as_str()) {
                Some((form, lemma)) => {
                    map.insert(form, lemma);
                },
                None => {},
            }
            i = i + 1;
        }
        assert(lines.deep_view().subrange(0, lines.len() as int) =~= lines.deep_view());
        Dictionary { map }
    }
}

impl StopwordSet {
    /// The stopwords of `lines`, each trimmed and lower-cased.
    pub fn from_lines(lines: &Vec<String>) -> (r: StopwordSet)
        ensures
            r.set@ == stopwords_of(lines.deep_view()),
    {
        let mut set = StringHashSet::new();
        let mut i: usize = 0;
        while i < lines.len()
            invariant
                i <= lines.len(),
                set@ == stopwords_of(lines.deep_view().subrange(0, i as int)),
            decreases lines.len() - i,
        {
            let ghost prefix = lines.deep_view().subrange(0, i + 1);
            assert(prefix.drop_last() =~= lines.deep_view().subrange(0, i as int));
            assert(prefix.last() == lines@[i as int]@);
            let s = chars_of(lines[i].as_str());
            let t = trim_chars(&s);
            let ts = string_of(&t);
            let w = lowercase(ts.as_str());
            set.insert(w);
            i = i + 1;
        }
        assert(lines.deep_view().subrange(0, lines.len() as int) =~= lines.deep_view());
        StopwordSet { set }
    }
}

} // verus!
