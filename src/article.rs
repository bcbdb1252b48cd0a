use vstd::prelude::*;
use crate::text::{find, find_from, is_white, regex_replaced, replace_all, white};

verus! {

/// Why an article is left out of the corpus.
#[derive(Clone, Copy, Debug, PartialEq, Eq, Structural)]
pub enum ArticleError {
    /// No `permalink:` key.
    MissingPermalink,
    /// Fewer than two front-matter separators.
    MalformedFrontMatter,
    /// More counted words than a term vector may hold.
    TooManyTerms,
}

pub open spec fn permalink_key() -> Seq<char> {
    seq!['p', 'e', 'r', 'm', 'a', 'l', 'i', 'n', 'k', ':']
}

pub open spec fn separator() -> Seq<char> {
    seq!['-', '-', '-']
}

/// First index at or after `i` that is not whitespace, or `end`.
pub open spec fn skip_white(s: Seq<char>, i: int, end: int) -> int
    decreases end - i,
{
    if i < end && 0 <= i < s.len() && is_white(s[i]) {
        skip_white(s, i + 1, end)
    } else {
        i
    }
}

/// Last index (exclusive) down from `j` that ends a non-whitespace run, not below `lo`.
pub open spec fn back_white(s: Seq<char>, lo: int, j: int) -> int
    decreases j - lo,
{
    if j > lo && 0 < j <= s.len() && is_white(s[j - 1]) {
        back_white(s, lo, j - 1)
    } else {
        j
    }
}

/// `s[start..end]` without leading and trailing whitespace.
pub open spec fn trimmed(s: Seq<char>, start: int, end: int) -> Seq<char> {
    let a = skip_white(s, start, end);
    s.subrange(a, back_white(s, a, end))
}

/// The rest of the line after the first `permalink:` key, trimmed.
pub open spec fn permalink_of(s: Seq<char>) -> Option<Seq<char>> {
    let k = find_from(s, permalink_key(), 0);
    if k < 0 {
        None
    } else {
        let start = k + permalink_key().len();
        let nl = find_from(s, seq!['\n'], start);
        Some(trimmed(s, start, if nl < 0 { s.len() as int } else { nl }))
    }
}

/// The segment after the second separator, up to the third one or the end.
pub open spec fn body_of(s: Seq<char>) -> Option<Seq<char>> {
    let i1 = find_from(s, separator(), 0);
    let i2 = find_from(s, separator(), i1 + 3);
    if i1 < 0 || i2 < 0 {
        None
    } else {
        let i3 = find_from(s, separator(), i2 + 3);
        Some(s.subrange(i2 + 3, if i3 < 0 { s.len() as int } else { i3 }))
    }
}

fn trim(s: &Vec<char>, start: usize, end: usize) -> (r: Vec<char>)
    requires
        start <= end <= s.len(),
    ensures
        r@ == trimmed(s@, start as int, end as int),
{
    let mut a = start;
    while a < end && white(s[a])
        invariant
            start <= a <= end,
            end <= s.len(),
            skip_white(s@, start as int, end as int) == skip_white(s@, a as int, end as int),
        decreases end - a,
    {
        a = a + 1;
    }
    let mut b = end;
    while b > a && white(s[b - 1])
        invariant
            a <= b <= end,
            end <= s.len(),
            back_white(s@, a as int, end as int) == back_white(s@, a as int, b as int),
        decreases b - a,
    {
        b = b - 1;
    }
    let mut r: Vec<char> = Vec::new();
    let mut i = a;
    while i < b
        invariant
            a <= i <= b,
            b <= s.len(),
            r@ == s@.subrange(a as int, i as int),
        decreases b - i,
    {
        r.push(s[i]);
        i = i + 1;
        assert(r@ =~= s@.subrange(a as int, i as int));
    }
    r
}

/// `s` without leading and trailing whitespace.
pub fn trim_chars(s: &Vec<char>) -> (r: Vec<char>)
    ensures
        r@ == trimmed(s@, 0, s.len() as int),
{
    trim(s, 0, s.len())
}

fn slice(s: &Vec<char>, a: usize, b: usize) -> (r: Vec<char>)
    requires
        a <= b <= s.len(),
    ensures
        r@ == s@.subrange(a as int, b as int),
{
    let mut r: Vec<char> = Vec::new();
    let mut i = a;
    while i < b
        invariant
            a <= i <= b,
            b <= s.len(),
            r@ == s@.subrange(a as int, i as int),
        decreases b - i,
    {
        r.push(s[i]);
        i = i + 1;
        assert(r@ =~= s@.subrange(a as int, i as int));
    }
    r
}

/// The permalink of an article: the rest of the line after the first
/// `permalink:` key, trimmed.
pub fn get_permalink(text: &Vec<char>) -> (r: Option<Vec<char>>)
    ensures
        r matches Some(p) ==> permalink_of(text@) == Some(p@),
        r is None ==> permalink_of(text@) is None,
{
    let key: Vec<char> = vec!['p', 'e', 'r', 'm', 'a', 'l', 'i', 'n', 'k', ':'];
    assert(key@ =~= permalink_key());
    assert(permalink_key().len() == 10);
    match find(text, &key, 0) {
        None => None,
        Some(k) => {
            let start = k + 10;
            let nl: Vec<char> = vec!['\n'];
            assert(nl@ =~= seq!['\n']);
            let end = match find(text, &nl, start) {
                Some(e) => {
                    e
                },
                None => text.len(),
            };
            Some(trim(text, start, end))
        },
    }
}

/// The body of an article: the segment after the second `---` separator,
/// up to the third one or the end of the text.
pub fn front_matter_body(text: &Vec<char>) -> (r: Option<Vec<char>>)
    ensures
        r matches Some(b) ==> body_of(text@) == Some(b@),
        r is None ==> body_of(text@) is None,
{
    let sep: Vec<char> = vec!['-', '-', '-'];
    assert(sep@ =~= separator());
    assert(separator().len() == 3);
    let i1 = match find(text, &sep, 0) {
        Some(i) => i,
        None => {
            return None;
        },
    };
    let i2 = match find(text, &sep, i1 + 3) {
        Some(i) => i,
        None => {
            return None;
        },
    };
    let end = match find(text, &sep, i2 + 3) {
        Some(i) => {
            i
        },
        None => text.len(),
    };
    Some(slice(text, i2 + 3, end))
}

/// The five stripping passes, in order: fenced code blocks, inline code,
/// links (kept as their text), HTML tags, punctuation.
pub open spec fn stripped(s: Seq<char>) -> Seq<char> {
    let s1 = regex_replaced("(?s)```.*?```"@, s, " "@);
    let s2 = regex_replaced("`[^`]*?`"@, s1, " "@);
    let s3 = regex_replaced(r"\[(.*?)\]\(.*?\)"@, s2, "$1"@);
    let s4 = regex_replaced("<[^>]*?>"@, s3, " "@);
    regex_replaced("[-–—_,;:!?.'”„()\\[\\]{}/#@$%^&*<>|`=>]"@, s4, " "@)
}

/// Strips markup from an article body with the five passes of `stripped`.
pub fn clean_up(body: &str) -> (r: String)
    ensures
        r@ == stripped(body@),
{
    let s1 = replace_all("(?s)```.*?```", body, " ");
    let s2 = replace_all("`[^`]*?`", s1.as_str(), " ");
    let s3 = replace_all(r"\[(.*?)\]\(.*?\)", s2.as_str(), "$1");
    let s4 = replace_all("<[^>]*?>", s3.as_str(), " ");
    replace_all("[-–—_,;:!?.'”„()\\[\\]{}/#@$%^&*<>|`=>]", s4.as_str(), " ")
}

} // verus!
