//! The analyzer: turns a query into the tokens that are looked up.
use vstd::prelude::*;
use vstd::string::*;
use crate::text::{lower_of, lowercase, push_char, same_chars};

verus! {

/// The characters that separate the fragments of a query.
pub open spec fn is_delimiter(c: char) -> bool {
    c == ',' || c == '\u{3001}' || c == '\u{3000}' || c == ' '
}

/// The ASCII punctuation that is removed from every token.
pub open spec fn is_punctuation(c: char) -> bool {
    c == '!' || c == '"' || c == '#' || c == '$' || c == '%' || c == '&' || c == '('
        || c == ')' || c == '*' || c == '+' || c == ',' || c == '-' || c == '.' || c == '/'
        || c == ':' || c == ';' || c == '<' || c == '=' || c == '>' || c == '?' || c == '@'
        || c == '[' || c == '\\' || c == ']' || c == '^' || c == '_' || c == '`' || c == '{'
        || c == '|' || c == '}' || c == '~'
}

/// The words that never become tokens.
pub open spec fn stop_words() -> Seq<Seq<char>> {
    seq![
        "a"@, "and"@, "are"@, "as"@, "at"@, "be"@, "but"@, "by"@, "for"@,
        "if"@, "in"@, "into"@, "is"@, "it"@, "no"@, "not"@, "of"@, "on"@,
        "or"@, "s"@, "such"@, "t"@, "that"@, "the"@, "their"@, "then"@,
        "there"@, "these"@, "they"@, "this"@, "to"@, "was"@, "will"@,
        "with"@, "www"@,
    ]
}

pub open spec fn is_stop_word(t: Seq<char>) -> bool {
    stop_words().contains(t)
}

/// The fragments of `s` between delimiters, empty ones included: a string with
/// `k` delimiters has `k + 1` fragments.
pub open spec fn fragments(s: Seq<char>) -> Seq<Seq<char>>
    decreases s.len(),
{
    if s.len() == 0 {
        seq![Seq::empty()]
    } else {
        let f = fragments(s.drop_last());
        if is_delimiter(s.last()) {
            f.push(Seq::empty())
        } else {
            f.update(f.len() - 1, f.last().push(s.last()))
        }
    }
}

/// `t` without its punctuation.
pub open spec fn strip_punctuation(t: Seq<char>) -> Seq<char> {
    t.filter(|c: char| !is_punctuation(c))
}

pub open spec fn lowered(tokens: Seq<Seq<char>>) -> Seq<Seq<char>> {
    tokens.map_values(|t: Seq<char>| lower_of(t))
}

pub open spec fn stripped(tokens: Seq<Seq<char>>) -> Seq<Seq<char>> {
    tokens.map_values(|t: Seq<char>| strip_punctuation(t))
}

pub open spec fn without_stop_words(tokens: Seq<Seq<char>>) -> Seq<Seq<char>> {
    tokens.filter(|t: Seq<char>| !is_stop_word(t))
}

pub open spec fn without_empty(tokens: Seq<Seq<char>>) -> Seq<Seq<char>> {
    tokens.filter(|t: Seq<char>| t.len() > 0)
}

/// The tokens of a query: its fragments, lowercased, without punctuation, with
/// stop words and empty fragments left out, in the order of the query.
pub open spec fn analyzed(s: Seq<char>) -> Seq<Seq<char>> {
    without_empty(without_stop_words(stripped(lowered(fragments(s)))))
}

pub fn is_delimiter_char(c: char) -> (r: bool)
    ensures
        r == is_delimiter(c),
{
    c == ',' || c == '\u{3001}' || c == '\u{3000}' || c == ' '
}

pub fn is_punctuation_char(c: char) -> (r: bool)
    ensures
        r == is_punctuation(c),
{
    c == '!' || c == '"' || c == '#' || c == '$' || c == '%' || c == '&' || c == '('
        || c == ')' || c == '*' || c == '+' || c == ',' || c == '-' || c == '.' || c == '/'
        || c == ':' || c == ';' || c == '<' || c == '=' || c == '>' || c == '?' || c == '@'
        || c == '[' || c == '\\' || c == ']' || c == '^' || c == '_' || c == '`' || c == '{'
        || c == '|' || c == '}' || c == '~'
}

fn stop_word_list() -> (r: Vec<&'static str>)
    ensures
        r@.map_values(|w: &str| w@) == stop_words(),
{
    let r = vec![
        "a", "and", "are", "as", "at", "be", "but", "by", "for",
        "if", "in", "into", "is", "it", "no", "not", "of", "on",
        "or", "s", "such", "t", "that", "the", "their", "then",
        "there", "these", "they", "this", "to", "was", "will",
        "with", "www",
    ];
    assert(r@.map_values(|w: &str| w@) =~= stop_words());
    r
}

/// Whether `t` is one of the stop words.
pub fn is_stop_word_token(t: &str) -> (r: bool)
    ensures
        r == is_stop_word(t@),
{
    let words = stop_word_list();
    let mut i: usize = 0;
    while i < words.len()
        invariant
            i <= words.len(),
            words@.map_values(|w: &str| w@) == stop_words(),
            forall|j: int| 0 <= j < i ==> stop_words()[j] != t@,
        decreases words.len() - i,
    {
        if same_chars(t, words[i]) {
            assert(stop_words()[i as int] == t@);
            return true;
        }
        i = i + 1;
    }
    proof {
        if stop_words().contains(t@) {
            let j = choose|j: int| 0 <= j < stop_words().len() && stop_words()[j] == t@;
            assert(stop_words()[j] != t@);
        }
    }
    false
}

/// Splits `s` at every delimiter.
pub fn split_fragments(s: &str) -> (r: Vec<String>)
    ensures
        r.deep_view() == fragments(s@),
{
    let mut done: Vec<String> = Vec::new();
    let mut current = String::new();
    for c in it: s.chars()
        invariant
            it.seq() == s@,
            fragments(s@.take(it.index() as int)) == done.deep_view().push(current@),
    {
        let ghost prefix = s@.take(it.index() as int);
        proof {
            assert(s@.take(it.index() + 1).drop_last() =~= prefix);
        }
        if is_delimiter_char(c) {
            let ghost before = done.deep_view();
            done.push(current);
            current = String::new();
            proof {
                assert(done.deep_view() =~= before.push(fragments(prefix).last()));
            }
        } else {
            push_char(&mut current, c);
            proof {
                assert(fragments(s@.take(it.index() + 1)) =~= done.deep_view().push(current@));
            }
        }
    }
    let ghost before = done.deep_view();
    done.push(current);
    proof {
        assert(s@.take(s@.len() as int) =~= s@);
        assert(done.deep_view() =~= before.push(current@));
    }
    done
}

/// Lowercases every token.
pub fn lowercase_filter(tokens: Vec<String>) -> (r: Vec<String>)
    ensures
        r.deep_view() == lowered(tokens.deep_view()),
{
    let mut result: Vec<String> = Vec::new();
    let mut i: usize = 0;
    while i < tokens.len()
        invariant
            i <= tokens.len(),
            result.deep_view() == lowered(tokens.deep_view().take(i as int)),
        decreases tokens.len() - i,
    {
        let ghost before = result.deep_view();
        result.push(lowercase(tokens[i].as_str()));
        proof {
            assert(result.deep_view() =~= before.push(lower_of(tokens.deep_view()[i as int])));
            assert(lowered(tokens.deep_view().take(i + 1)) =~= before.push(
                lower_of(tokens.deep_view()[i as int]),
            ));
        }
        i = i + 1;
    }
    proof {
        assert(tokens.deep_view().take(i as int) =~= tokens.deep_view());
    }
    result
}

/// `t` without its punctuation.
pub fn strip_punctuation_token(t: &str) -> (r: String)
    ensures
        r@ == strip_punctuation(t@),
{
    let mut r = String::new();
    for c in it: t.chars()
        invariant
            it.seq() == t@,
            r@ == strip_punctuation(t@.take(it.index() as int)),
    {
        proof {
            let next = t@.take(it.index() + 1);
            assert(next.drop_last() =~= t@.take(it.index() as int));
            reveal(Seq::filter);
        }
        if !is_punctuation_char(c) {
            push_char(&mut r, c);
        }
    }
    proof {
        assert(t@.take(t@.len() as int) =~= t@);
    }
    r
}

/// Removes the punctuation from every token.
pub fn punctuation_filter(tokens: Vec<String>) -> (r: Vec<String>)
    ensures
        r.deep_view() == stripped(tokens.deep_view()),
{
    let mut result: Vec<String> = Vec::new();
    let mut i: usize = 0;
    while i < tokens.len()
        invariant
            i <= tokens.len(),
            result.deep_view() == stripped(tokens.deep_view().take(i as int)),
        decreases tokens.len() - i,
    {
        let ghost before = result.deep_view();
        result.push(strip_punctuation_token(tokens[i].as_str()));
        proof {
            let t = strip_punctuation(tokens.deep_view()[i as int]);
            assert(result.deep_view() =~= before.push(t));
            assert(stripped(tokens.deep_view().take(i + 1)) =~= before.push(t));
        }
        i = i + 1;
    }
    proof {
        assert(tokens.deep_view().take(i as int) =~= tokens.deep_view());
    }
    result
}

/// Leaves out the tokens that are stop words.
pub fn stop_word_filter(tokens: Vec<String>) -> (r: Vec<String>)
    ensures
        r.deep_view() == without_stop_words(tokens.deep_view()),
{
    let mut result: Vec<String> = Vec::new();
    let mut i: usize = 0;
    while i < tokens.len()
        invariant
            i <= tokens.len(),
            result.deep_view() == without_stop_words(tokens.deep_view().take(i as int)),
        decreases tokens.len() - i,
    {
        let ghost before = result.deep_view();
        proof {
            reveal(Seq::filter);
            assert(tokens.deep_view().take(i + 1).drop_last() =~= tokens.deep_view().take(
                i as int,
            ));
        }
        if !is_stop_word_token(tokens[i].as_str()) {
            result.push(tokens[i].clone());
            proof {
                assert(result.deep_view() =~= before.push(tokens.deep_view()[i as int]));
            }
        }
        i = i + 1;
    }
    proof {
        assert(tokens.deep_view().take(i as int) =~= tokens.deep_view());
    }
    result
}

fn empty_filter(tokens: Vec<String>) -> (r: Vec<String>)
    ensures
        r.deep_view() == without_empty(tokens.deep_view()),
{
    let mut result: Vec<String> = Vec::new();
    let mut i: usize = 0;
    while i < tokens.len()
        invariant
            i <= tokens.len(),
            result.deep_view() == without_empty(tokens.deep_view().take(i as int)),
        decreases tokens.len() - i,
    {
        let ghost before = result.deep_view();
        proof {
            reveal(Seq::filter);
            assert(tokens.deep_view().take(i + 1).drop_last() =~= tokens.deep_view().take(
                i as int,
            ));
        }
        if tokens[i].as_str().unicode_len() > 0 {
            result.push(tokens[i].clone());
            proof {
                assert(result.deep_view() =~= before.push(tokens.deep_view()[i as int]));
            }
        }
        i = i + 1;
    }
    proof {
        assert(tokens.deep_view().take(i as int) =~= tokens.deep_view());
    }
    result
}

/// The tokens of a query, in query order.
pub fn analyze(s: &str) -> (r: Vec<String>)
    ensures
        r.deep_view() == analyzed(s@),
{
    let tokens = split_fragments(s);
    let tokens = lowercase_filter(tokens);
    let tokens = punctuation_filter(tokens);
    let tokens = stop_word_filter(tokens);
    empty_filter(tokens)
}

proof fn lemma_fragments_nonempty(s: Seq<char>)
    ensures
        fragments(s).len() >= 1,
    decreases s.len(),
{
    if s.len() > 0 {
        lemma_fragments_nonempty(s.drop_last());
    }
}

proof fn lemma_fragments_concat(a: Seq<char>, b: Seq<char>)
    ensures
        fragments(a + seq![' '] + b) == fragments(a) + fragments(b),
    decreases b.len(),
{
    let ab = a + seq![' '] + b;
    lemma_fragments_nonempty(a);
    lemma_fragments_nonempty(b);
    if b.len() == 0 {
        assert(ab.drop_last() =~= a);
        assert(fragments(ab) =~= fragments(a) + fragments(b));
    } else {
        let b0 = b.drop_last();
        lemma_fragments_concat(a, b0);
        lemma_fragments_nonempty(b0);
        assert(ab.drop_last() =~= a + seq![' '] + b0);
        assert(ab.last() == b.last());
        assert(fragments(ab) =~= fragments(a) + fragments(b));
    }
}

/// Analyzing two texts joined by a space gives the tokens of the first followed by
/// the tokens of the second.
pub proof fn lemma_analyze_concat(a: Seq<char>, b: Seq<char>)
    ensures
        analyzed(a + seq![' '] + b) == analyzed(a) + analyzed(b),
{
    let fa = fragments(a);
    let fb = fragments(b);
    lemma_fragments_concat(a, b);
    assert(lowered(fa + fb) =~= lowered(fa) + lowered(fb));
    assert(stripped(lowered(fa) + lowered(fb)) =~= stripped(lowered(fa)) + stripped(
        lowered(fb),
    ));
    let sa = stripped(lowered(fa));
    let sb = stripped(lowered(fb));
    Seq::filter_distributes_over_add(sa, sb, |t: Seq<char>| !is_stop_word(t));
    Seq::filter_distributes_over_add(
        without_stop_words(sa),
        without_stop_words(sb),
        |t: Seq<char>| t.len() > 0,
    );
}

} // verus!
