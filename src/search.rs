//! The query engine: matching, score inputs, ranking, pagination, and the step
//! function that drives a search over a store that fills lazily.
use vstd::prelude::*;
use crate::error::IndexError;
use crate::filters::{analyze, analyzed};
use crate::index::{Category, Index};
use crate::router::{calculate_shard_id, route};
use crate::text::same_chars;

verus! {

/// `s` with every repeated element after its first occurrence left out.
pub open spec fn dedup(s: Seq<Seq<char>>) -> Seq<Seq<char>>
    decreases s.len(),
{
    if s.len() == 0 {
        s
    } else {
        let d = dedup(s.drop_last());
        if d.contains(s.last()) {
            d
        } else {
            d.push(s.last())
        }
    }
}

/// The matching state after the first `n` tokens: the current candidate set (in a
/// fixed order, without repeats) and whether matching has stopped early.
/// A token with no loaded posting list is skipped. An empty set takes the next
/// posting list whole; a set of one stops matching; a larger set is intersected.
pub open spec fn match_state(idx: &Index, tokens: Seq<Seq<char>>, n: int) -> (Seq<Seq<char>>, bool)
    decreases n,
{
    if n <= 0 {
        (Seq::empty(), false)
    } else {
        let (s, stopped) = match_state(idx, tokens, n - 1);
        if stopped {
            (s, true)
        } else {
            match idx.postings(tokens[n - 1]) {
                None => (s, false),
                Some(p) => if s.len() == 0 {
                    (dedup(p), false)
                } else if s.len() == 1 {
                    (s, true)
                } else {
                    (s.filter(|d: Seq<char>| p.contains(d)), false)
                },
            }
        }
    }
}

/// The documents that match `tokens`.
pub open spec fn candidates(idx: &Index, tokens: Seq<Seq<char>>) -> Seq<Seq<char>> {
    match_state(idx, tokens, tokens.len() as int).0
}

/// Whether `d` is one of the ids in `v`.
pub fn contains_id(v: &Vec<String>, d: &str) -> (r: bool)
    ensures
        r == v.deep_view().contains(d@),
{
    let mut i: usize = 0;
    while i < v.len()
        invariant
            i <= v.len(),
            forall|j: int| 0 <= j < i ==> v.deep_view()[j] != d@,
        decreases v.len() - i,
    {
        assert(v.deep_view()[i as int] == v[i as int]@);
        if same_chars(v[i].as_str(), d) {
            return true;
        }
        i = i + 1;
    }
    false
}

fn dedup_ids(p: &Vec<String>) -> (r: Vec<String>)
    ensures
        r.deep_view() == dedup(p.deep_view()),
{
    let mut out: Vec<String> = Vec::new();
    let mut i: usize = 0;
    while i < p.len()
        invariant
            i <= p.len(),
            out.deep_view() == dedup(p.deep_view().take(i as int)),
        decreases p.len() - i,
    {
        let ghost pv = p.deep_view();
        proof {
            assert(pv.take(i + 1).drop_last() =~= pv.take(i as int));
            assert(pv.take(i + 1).last() == p[i as int]@);
        }
        if !contains_id(&out, p[i].as_str()) {
            let ghost before = out.deep_view();
            out.push(p[i].clone());
            assert(out.deep_view() =~= before.push(p[i as int]@));
        }
        i = i + 1;
    }
    assert(p.deep_view().take(i as int) =~= p.deep_view());
    out
}

fn retain_in(s: Vec<String>, p: &Vec<String>) -> (r: Vec<String>)
    ensures
        r.deep_view() == s.deep_view().filter(|d: Seq<char>| p.deep_view().contains(d)),
{
    let mut out: Vec<String> = Vec::new();
    let mut i: usize = 0;
    let ghost sv = s.deep_view();
    let ghost f = |d: Seq<char>| p.deep_view().contains(d);
    while i < s.len()
        invariant
            i <= s.len(),
            sv == s.deep_view(),
            f == (|d: Seq<char>| p.deep_view().contains(d)),
            out.deep_view() == sv.take(i as int).filter(f),
        decreases s.len() - i,
    {
        proof {
            reveal(Seq::filter);
            assert(sv.take(i + 1).drop_last() =~= sv.take(i as int));
            assert(sv.take(i + 1).last() == s[i as int]@);
        }
        if contains_id(p, s[i].as_str()) {
            let ghost before = out.deep_view();
            out.push(s[i].clone());
            assert(out.deep_view() =~= before.push(s[i as int]@));
        }
        i = i + 1;
    }
    assert(sv.take(i as int) =~= sv);
    out
}

/// The documents that match `tokens`: the intersection of the posting lists of the
/// tokens that have one, as `candidates` states it.
pub fn find_documents(index: &Index, tokens: &Vec<String>) -> (r: Vec<String>)
    ensures
        r.deep_view() == candidates(index, tokens.deep_view()),
{
    let ghost tv = tokens.deep_view();
    let mut set: Vec<String> = Vec::new();
    let mut i: usize = 0;
    while i < tokens.len()
        invariant
            i <= tokens.len(),
            tv == tokens.deep_view(),
            match_state(index, tv, i as int) == (set.deep_view(), false),
        decreases tokens.len() - i,
    {
        assert(tv[i as int] == tokens[i as int]@);
        match index.fetch_term_stat(tokens[i].as_str()) {
            None => {},
            Some(stat) => {
                let ids = stat.get_document_ids();
                if set.len() == 0 {
                    set = dedup_ids(ids);
                } else if set.len() == 1 {
                    proof {
                        lemma_match_stopped(index, tv, i as int + 1);
                    }
                    return set;
                } else {
                    set = retain_in(set, ids);
                }
            },
        }
        i = i + 1;
    }
    set
}

proof fn lemma_match_stopped(idx: &Index, tokens: Seq<Seq<char>>, n: int)
    requires
        0 <= n <= tokens.len(),
        match_state(idx, tokens, n).1,
    ensures
        match_state(idx, tokens, tokens.len() as int) == match_state(idx, tokens, n),
    decreases tokens.len() - n,
{
    if n < tokens.len() {
        lemma_match_stopped(idx, tokens, n + 1);
    }
}

/// The tokens that take part in scoring: those with a loaded posting list.
pub open spec fn scored_tokens(idx: &Index, tokens: Seq<Seq<char>>) -> Seq<Seq<char>> {
    tokens.filter(|t: Seq<char>| idx.postings(t) is Some)
}

/// The number of entries in the posting list of `t`.
pub open spec fn document_frequency_of(idx: &Index, t: Seq<char>) -> nat {
    match idx.postings(t) {
        Some(p) => p.len(),
        None => 0,
    }
}

/// The count of `t` in document `d`, zero where none is loaded.
pub open spec fn tf(idx: &Index, d: Seq<char>, t: Seq<char>) -> u64 {
    match idx.term_count(d, t) {
        Some(c) => c,
        None => 0,
    }
}

/// What the relevance score of each candidate is computed from. The score of
/// candidate `c` is the sum over the scored tokens `j` of
/// `term_counts[c][j] * log10(document_count / document_frequencies[j])`.
pub struct ScoreInput {
    pub document_count: usize,
    pub document_frequencies: Vec<usize>,
    pub term_counts: Vec<Vec<u64>>,
}

/// `input` holds exactly the score inputs of `cands` for `tokens` in `idx`.
pub open spec fn is_score_input(
    input: &ScoreInput,
    idx: &Index,
    tokens: Seq<Seq<char>>,
    cands: Seq<Seq<char>>,
) -> bool {
    let scored = scored_tokens(idx, tokens);
    &&& input.document_count == idx.document_stat_count()
    &&& input.document_frequencies@.len() == scored.len()
    &&& forall|j: int|
        0 <= j < scored.len() ==> #[trigger] input.document_frequencies@[j]
            == document_frequency_of(idx, scored[j])
    &&& input.term_counts@.len() == cands.len()
    &&& forall|c: int|
        0 <= c < cands.len() ==> #[trigger] input.term_counts@[c]@.len() == scored.len()
    &&& forall|c: int, j: int|
        0 <= c < cands.len() && 0 <= j < scored.len() ==> #[trigger] input.term_counts@[c]@[j]
            == tf(idx, cands[c], scored[j])
}

/// The number of documents in the posting list of `t`.
pub fn document_frequency(index: &Index, t: &str) -> (r: usize)
    ensures
        r == document_frequency_of(index, t@),
{
    match index.fetch_term_stat(t) {
        Some(stat) => stat.get_document_ids().len(),
        None => 0,
    }
}

fn scored_tokens_of(index: &Index, tokens: &Vec<String>) -> (r: Vec<String>)
    ensures
        r.deep_view() == scored_tokens(index, tokens.deep_view()),
{
    let ghost tv = tokens.deep_view();
    let ghost f = |t: Seq<char>| index.postings(t) is Some;
    let mut out: Vec<String> = Vec::new();
    let mut i: usize = 0;
    while i < tokens.len()
        invariant
            i <= tokens.len(),
            tv == tokens.deep_view(),
            f == (|t: Seq<char>| index.postings(t) is Some),
            out.deep_view() == tv.take(i as int).filter(f),
        decreases tokens.len() - i,
    {
        proof {
            reveal(Seq::filter);
            assert(tv.take(i + 1).drop_last() =~= tv.take(i as int));
            assert(tv.take(i + 1).last() == tokens[i as int]@);
        }
        if index.fetch_term_stat(tokens[i].as_str()).is_some() {
            let ghost before = out.deep_view();
            out.push(tokens[i].clone());
            assert(out.deep_view() =~= before.push(tokens[i as int]@));
        }
        i = i + 1;
    }
    assert(tv.take(i as int) =~= tv);
    out
}

/// The score inputs of the candidates `cands` for `tokens`.
pub fn score_inputs(index: &Index, tokens: &Vec<String>, cands: &Vec<String>) -> (r: ScoreInput)
    ensures
        is_score_input(&r, index, tokens.deep_view(), cands.deep_view()),
{
    let scored = scored_tokens_of(index, tokens);
    let ghost sv = scored.deep_view();
    let mut dfs: Vec<usize> = Vec::new();
    let mut j: usize = 0;
    while j < scored.len()
        invariant
            j <= scored.len(),
            sv == scored.deep_view(),
            dfs@.len() == j,
            forall|k: int| 0 <= k < j ==> #[trigger] dfs@[k] == document_frequency_of(index, sv[k]),
        decreases scored.len() - j,
    {
        assert(sv[j as int] == scored[j as int]@);
        dfs.push(document_frequency(index, scored[j].as_str()));
        j = j + 1;
    }
    let ghost cv = cands.deep_view();
    let mut counts: Vec<Vec<u64>> = Vec::new();
    let mut c: usize = 0;
    while c < cands.len()
        invariant
            c <= cands.len(),
            sv == scored.deep_view(),
            cv == cands.deep_view(),
            counts@.len() == c,
            forall|x: int| 0 <= x < c ==> #[trigger] counts@[x]@.len() == sv.len(),
            forall|x: int, k: int|
                0 <= x < c && 0 <= k < sv.len() ==> #[trigger] counts@[x]@[k] == tf(
                    index,
                    cv[x],
                    sv[k],
                ),
        decreases cands.len() - c,
    {
        let mut row: Vec<u64> = Vec::new();
        let mut k: usize = 0;
        assert(cv[c as int] == cands[c as int]@);
        while k < scored.len()
            invariant
                k <= scored.len(),
                c < cands.len(),
                sv == scored.deep_view(),
                cv == cands.deep_view(),
                row@.len() == k,
                forall|y: int| 0 <= y < k ==> #[trigger] row@[y] == tf(index, cv[c as int], sv[y]),
            decreases scored.len() - k,
        {
            assert(sv[k as int] == scored[k as int]@);
            row.push(index.term_frequency(cands[c].as_str(), scored[k].as_str()));
            k = k + 1;
        }
        counts.push(row);
        c = c + 1;
    }
    ScoreInput { document_count: index.count_document_stats(), document_frequencies: dfs, term_counts: counts }
}

/// The sort key of a score given by the bits of its IEEE 754 double: keys compare as
/// unsigned integers in the total order of the doubles.
pub open spec fn order_key(bits: u64) -> u64 {
    if bits >= 0x8000_0000_0000_0000 {
        !bits
    } else {
        bits | 0x8000_0000_0000_0000
    }
}

pub fn score_order_key(bits: u64) -> (r: u64)
    ensures
        r == order_key(bits),
{
    if bits >= 0x8000_0000_0000_0000 {
        !bits
    } else {
        bits | 0x8000_0000_0000_0000
    }
}

/// Candidate `a` is listed before candidate `b`: a higher key first, and on equal
/// keys the candidate that matched first.
pub open spec fn ranks_before(keys: Seq<u64>, a: int, b: int) -> bool {
    keys[a] > keys[b] || (keys[a] == keys[b] && a < b)
}

/// Where a candidate with key `key` goes in `order`: before the first entry with a
/// lower key.
pub open spec fn insert_position(order: Seq<usize>, keys: Seq<u64>, key: u64) -> int
    decreases order.len(),
{
    if order.len() == 0 {
        0
    } else if keys[order[0] as int] < key {
        0
    } else {
        1 + insert_position(order.drop_first(), keys, key)
    }
}

/// The candidates `0 .. n` in ranked order.
pub open spec fn ranking_of(keys: Seq<u64>, n: int) -> Seq<usize>
    decreases n,
{
    if n <= 0 {
        Seq::empty()
    } else {
        let o = ranking_of(keys, n - 1);
        o.insert(insert_position(o, keys, keys[n - 1]), (n - 1) as usize)
    }
}

/// `order` lists candidates below `n`, each before all those it ranks before.
pub open spec fn is_sorted_ranking(keys: Seq<u64>, order: Seq<usize>, n: int) -> bool {
    &&& order.len() == n
    &&& forall|p: int| 0 <= p < order.len() ==> #[trigger] order[p] < n
    &&& forall|p: int, q: int|
        0 <= p < q < order.len() ==> ranks_before(keys, order[p] as int, order[q] as int)
}

proof fn lemma_insert_position(order: Seq<usize>, keys: Seq<u64>, key: u64)
    requires
        forall|p: int| 0 <= p < order.len() ==> #[trigger] order[p] < keys.len(),
        forall|p: int, q: int|
            0 <= p < q < order.len() ==> keys[order[p] as int] >= keys[order[q] as int],
    ensures
        0 <= insert_position(order, keys, key) <= order.len(),
        forall|p: int|
            0 <= p < insert_position(order, keys, key) ==> keys[#[trigger] order[p] as int] >= key,
        forall|p: int|
            insert_position(order, keys, key) <= p < order.len() ==> keys[#[trigger] order[p] as int]
                < key,
    decreases order.len(),
{
    if order.len() > 0 && keys[order[0] as int] >= key {
        let rest = order.drop_first();
        lemma_insert_position(rest, keys, key);
        assert forall|p: int|
            0 <= p < insert_position(order, keys, key) implies keys[#[trigger] order[p] as int]
            >= key by {
            if p > 0 {
                assert(order[p] == rest[p - 1]);
            }
        }
        assert forall|p: int|
            insert_position(order, keys, key) <= p < order.len() implies keys[#[trigger] order[p] as int]
            < key by {
            assert(order[p] == rest[p - 1]);
        }
    }
}

proof fn lemma_sorted_keys(keys: Seq<u64>, order: Seq<usize>, n: int)
    requires
        is_sorted_ranking(keys, order, n),
        n <= keys.len(),
    ensures
        forall|p: int| 0 <= p < order.len() ==> #[trigger] order[p] < keys.len(),
        forall|p: int, q: int|
            0 <= p < q < order.len() ==> keys[order[p] as int] >= keys[order[q] as int],
{
    assert forall|p: int, q: int|
        0 <= p < q < order.len() implies keys[order[p] as int] >= keys[order[q] as int] by {
        assert(ranks_before(keys, order[p] as int, order[q] as int));
    }
}

proof fn lemma_ranking_sorted(keys: Seq<u64>, n: int)
    requires
        0 <= n <= keys.len(),
        keys.len() <= usize::MAX,
    ensures
        is_sorted_ranking(keys, ranking_of(keys, n), n),
    decreases n,
{
    if n > 0 {
        lemma_ranking_sorted(keys, n - 1);
        let o = ranking_of(keys, n - 1);
        let key = keys[n - 1];
        lemma_sorted_keys(keys, o, n - 1);
        lemma_insert_position(o, keys, key);
        let pos = insert_position(o, keys, key);
        let r = o.insert(pos, (n - 1) as usize);
        assert forall|p: int, q: int| 0 <= p < q < r.len() implies ranks_before(
            keys,
            r[p] as int,
            r[q] as int,
        ) by {
            if q < pos {
                assert(r[p] == o[p] && r[q] == o[q]);
            } else if q == pos {
                assert(r[p] == o[p]);
                assert(o[p] < n - 1);
                assert(keys[o[p] as int] >= key);
                assert(r[q] == (n - 1) as usize);
            } else if p == pos {
                assert(r[q] == o[q - 1]);
                assert(keys[o[q - 1] as int] < key);
                assert(r[p] == (n - 1) as usize);
            } else if p < pos {
                assert(r[p] == o[p] && r[q] == o[q - 1]);
            } else {
                assert(r[p] == o[p - 1] && r[q] == o[q - 1]);
            }
        }
    }
}

/// The candidates, given by their positions, in ranked order: by key, highest first,
/// and in matching order among equal keys.
pub fn rank(keys: &Vec<u64>) -> (r: Vec<usize>)
    ensures
        r@ == ranking_of(keys@, keys@.len() as int),
        is_sorted_ranking(keys@, r@, keys@.len() as int),
{
    let mut order: Vec<usize> = Vec::new();
    let mut i: usize = 0;
    while i < keys.len()
        invariant
            i <= keys.len(),
            order@ == ranking_of(keys@, i as int),
        decreases keys.len() - i,
    {
        proof {
            lemma_ranking_sorted(keys@, i as int);
            lemma_sorted_keys(keys@, order@, i as int);
            lemma_insert_position(order@, keys@, keys@[i as int]);
        }
        let mut pos: usize = 0;
        while pos < order.len() && keys[order[pos]] >= keys[i]
            invariant
                pos <= order.len(),
                i < keys.len(),
                order@ == ranking_of(keys@, i as int),
                is_sorted_ranking(keys@, order@, i as int),
                forall|p: int| 0 <= p < pos ==> keys@[#[trigger] order@[p] as int] >= keys@[i as int],
                pos <= insert_position(order@, keys@, keys@[i as int]),
            decreases order.len() - pos,
        {
            proof {
                lemma_sorted_keys(keys@, order@, i as int);
                lemma_insert_position(order@, keys@, keys@[i as int]);
            }
            pos = pos + 1;
        }
        proof {
            lemma_sorted_keys(keys@, order@, i as int);
            lemma_insert_position(order@, keys@, keys@[i as int]);
        }
        order.insert(pos, i);
        i = i + 1;
    }
    proof {
        lemma_ranking_sorted(keys@, keys@.len() as int);
    }
    order
}

/// How many hits a search returns and from which rank, and whether the store keeps
/// what the search loads.
#[derive(Debug, Clone, Copy)]
pub struct SearchOptions {
    pub size: usize,
    pub from: usize,
    pub use_cache: bool,
}

impl SearchOptions {
    pub fn new(size: usize, from: usize, use_cache: bool) -> (r: SearchOptions)
        ensures
            r.size == size,
            r.from == from,
            r.use_cache == use_cache,
    {
        SearchOptions { size, from, use_cache }
    }
}

impl Default for SearchOptions {
    /// Ten hits from the first, with the store kept.
    fn default() -> (r: SearchOptions)
        ensures
            r.size == 10,
            r.from == 0,
            r.use_cache,
    {
        SearchOptions { size: 10, from: 0, use_cache: true }
    }
}

/// A search in progress: the tokens of its query, its options, and, once the host
/// has scored the candidates, their sort keys.
pub struct Search {
    tokens: Vec<String>,
    options: SearchOptions,
    keys: Option<Vec<u64>>,
}

impl Search {
    pub closed spec fn spec_tokens(&self) -> Seq<Seq<char>> {
        self.tokens.deep_view()
    }

    pub closed spec fn spec_options(&self) -> SearchOptions {
        self.options
    }

    pub closed spec fn spec_keys(&self) -> Option<Seq<u64>> {
        match self.keys {
            Some(k) => Some(k@),
            None => None,
        }
    }

    /// A search for `query`, with no scores yet.
    pub fn new(query: &str, options: SearchOptions) -> (r: Search)
        ensures
            r.spec_tokens() == analyzed(query@),
            r.spec_options() == options,
            r.spec_keys() is None,
    {
        Search { tokens: analyze(query), options, keys: None }
    }

    /// Records the scores of the candidates, given as the bits of their doubles, in
    /// candidate order.
    pub fn set_scores(&mut self, score_bits: &Vec<u64>)
        ensures
            final(self).spec_tokens() == old(self).spec_tokens(),
            final(self).spec_options() == old(self).spec_options(),
            final(self).spec_keys() == Some(score_bits@.map_values(|b: u64| order_key(b))),
    {
        let mut keys: Vec<u64> = Vec::new();
        let mut i: usize = 0;
        while i < score_bits.len()
            invariant
                i <= score_bits.len(),
                keys@ == score_bits@.take(i as int).map_values(|b: u64| order_key(b)),
            decreases score_bits.len() - i,
        {
            keys.push(score_order_key(score_bits[i]));
            assert(score_bits@.take(i + 1).map_values(|b: u64| order_key(b)) =~= score_bits@.take(
                i as int,
            ).map_values(|b: u64| order_key(b)).push(order_key(score_bits@[i as int])));
            i = i + 1;
        }
        assert(score_bits@.take(i as int) =~= score_bits@);
        self.keys = Some(keys);
    }

    pub fn get_tokens(&self) -> (r: &Vec<String>)
        ensures
            r.deep_view() == self.spec_tokens(),
    {
        &self.tokens
    }

    pub fn get_options(&self) -> (r: SearchOptions)
        ensures
            r == self.spec_options(),
    {
        self.options
    }
}

/// One returned document: its id, its position among the candidates (where the host
/// finds its score), and its source.
pub struct Hit {
    pub id: String,
    pub candidate: usize,
    pub source: serde_json::Value,
}

/// The candidate count and the hits of one page.
pub struct SearchResult {
    pub count: usize,
    pub hits: Vec<Hit>,
}

impl SearchResult {
    pub fn len(&self) -> (r: usize)
        ensures
            r == self.count,
    {
        self.count
    }
}

/// What a search asks of its host next.
pub enum Step {
    /// Ingest this shard of this category, then advance again.
    Fetch(Category, u32),
    /// Score the candidates from these inputs, record the scores, then advance again.
    Score(ScoreInput),
    /// The search is complete.
    Done(SearchResult),
}

/// The step that a search takes, in the abstract.
pub enum Next {
    Fetch(Category, u32),
    Score,
    Done,
}

/// The shard of `category` for the first id whose shard is not loaded.
pub open spec fn first_unloaded(idx: &Index, category: Category, ids: Seq<Seq<char>>) -> Option<u32>
    decreases ids.len(),
{
    if ids.len() == 0 {
        None
    } else {
        let k = route(ids[0], idx.spec_shard_count());
        if !idx.is_loaded(category, k) {
            Some(k)
        } else {
            first_unloaded(idx, category, ids.drop_first())
        }
    }
}

/// The candidates with no loaded document-stat entry.
pub open spec fn lacking_stats(idx: &Index, cands: Seq<Seq<char>>) -> Seq<Seq<char>> {
    cands.filter(|d: Seq<char>| !idx.has_document_stat(d))
}

/// The entries of `order` from rank `from`, at most `size` of them.
pub open spec fn page_of(order: Seq<usize>, from: int, size: int) -> Seq<usize> {
    let n = order.len() as int;
    let lo = if from < n {
        from
    } else {
        n
    };
    let hi = if from + size < n {
        from + size
    } else {
        n
    };
    order.subrange(lo, hi)
}

/// The page of candidate positions that a search with these keys returns.
pub open spec fn result_page(cands: Seq<Seq<char>>, keys: Seq<u64>, options: SearchOptions) -> Seq<usize> {
    page_of(ranking_of(keys, keys.len() as int), options.from as int, options.size as int)
}

pub open spec fn ids_at(cands: Seq<Seq<char>>, page: Seq<usize>) -> Seq<Seq<char>> {
    page.map_values(|i: usize| cands[i as int])
}

/// The hits of a page, as ids and candidate positions: those whose document is loaded.
pub open spec fn page_hits(idx: &Index, cands: Seq<Seq<char>>, page: Seq<usize>) -> Seq<
    (Seq<char>, usize),
> {
    page.filter(|i: usize| idx.document(cands[i as int]) is Some).map_values(
        |i: usize| (cands[i as int], i),
    )
}

/// The step that search `s` takes on store `idx` with at least one shard.
pub open spec fn next_step(idx: &Index, s: &Search) -> Next {
    let tokens = s.spec_tokens();
    match first_unloaded(idx, Category::TermStats, tokens) {
        Some(k) => Next::Fetch(Category::TermStats, k),
        None => {
            let cands = candidates(idx, tokens);
            match first_unloaded(idx, Category::DocumentStats, lacking_stats(idx, cands)) {
                Some(k) => Next::Fetch(Category::DocumentStats, k),
                None => match s.spec_keys() {
                    Some(keys) if keys.len() == cands.len() => {
                        let page = result_page(cands, keys, s.spec_options());
                        match first_unloaded(idx, Category::Documents, ids_at(cands, page)) {
                            Some(k) => Next::Fetch(Category::Documents, k),
                            None => Next::Done,
                        }
                    },
                    _ => Next::Score,
                },
            }
        },
    }
}

/// `hits` are the hits of `page` on `idx`, with the loaded sources.
pub open spec fn hits_match(hits: Seq<Hit>, idx: &Index, cands: Seq<Seq<char>>, page: Seq<usize>) -> bool {
    let h = page_hits(idx, cands, page);
    &&& hits.len() == h.len()
    &&& forall|i: int|
        0 <= i < hits.len() ==> {
            &&& (#[trigger] hits[i]).id@ == h[i].0
            &&& hits[i].candidate == h[i].1
            &&& idx.document(hits[i].id@) == Some(hits[i].source)
        }
}

fn first_unloaded_shard(index: &Index, category: Category, ids: &Vec<String>) -> (r: Option<u32>)
    requires
        index.spec_shard_count() >= 1,
    ensures
        r == first_unloaded(index, category, ids.deep_view()),
{
    let ghost iv = ids.deep_view();
    let n = index.get_shard_count();
    let mut i: usize = 0;
    assert(iv.subrange(0, iv.len() as int) =~= iv);
    while i < ids.len()
        invariant
            i <= ids.len(),
            iv == ids.deep_view(),
            n == index.spec_shard_count(),
            n >= 1,
            first_unloaded(index, category, iv) == first_unloaded(
                index,
                category,
                iv.subrange(i as int, iv.len() as int),
            ),
        decreases ids.len() - i,
    {
        let ghost rest = iv.subrange(i as int, iv.len() as int);
        assert(rest.drop_first() =~= iv.subrange(i + 1, iv.len() as int));
        assert(rest[0] == ids[i as int]@);
        let k = calculate_shard_id(ids[i].as_str(), n);
        if !index.is_shard_loaded(category, k) {
            return Some(k);
        }
        i = i + 1;
    }
    None
}

fn lacking_stats_of(index: &Index, cands: &Vec<String>) -> (r: Vec<String>)
    ensures
        r.deep_view() == lacking_stats(index, cands.deep_view()),
{
    let ghost cv = cands.deep_view();
    let ghost f = |d: Seq<char>| !index.has_document_stat(d);
    let mut out: Vec<String> = Vec::new();
    let mut i: usize = 0;
    while i < cands.len()
        invariant
            i <= cands.len(),
            cv == cands.deep_view(),
            f == (|d: Seq<char>| !index.has_document_stat(d)),
            out.deep_view() == cv.take(i as int).filter(f),
        decreases cands.len() - i,
    {
        proof {
            reveal(Seq::filter);
            assert(cv.take(i + 1).drop_last() =~= cv.take(i as int));
            assert(cv.take(i + 1).last() == cands[i as int]@);
        }
        if !index.has_document_stat_for(cands[i].as_str()) {
            let ghost before = out.deep_view();
            out.push(cands[i].clone());
            assert(out.deep_view() =~= before.push(cands[i as int]@));
        }
        i = i + 1;
    }
    assert(cv.take(i as int) =~= cv);
    out
}

fn page_slice(order: &Vec<usize>, from: usize, size: usize) -> (r: Vec<usize>)
    ensures
        r@ == page_of(order@, from as int, size as int),
{
    let n = order.len();
    let lo = if from < n {
        from
    } else {
        n
    };
    let hi = if size < n - lo {
        lo + size
    } else {
        n
    };
    let mut out: Vec<usize> = Vec::new();
    let mut i: usize = lo;
    while i < hi
        invariant
            lo <= i <= hi <= n,
            n == order@.len(),
            out@ == order@.subrange(lo as int, i as int),
        decreases hi - i,
    {
        out.push(order[i]);
        assert(out@ =~= order@.subrange(lo as int, i + 1));
        i = i + 1;
    }
    assert(out@ =~= page_of(order@, from as int, size as int));
    out
}

fn ids_at_page(cands: &Vec<String>, page: &Vec<usize>) -> (r: Vec<String>)
    requires
        forall|i: int| 0 <= i < page@.len() ==> #[trigger] page@[i] < cands@.len(),
    ensures
        r.deep_view() == ids_at(cands.deep_view(), page@),
{
    let mut out: Vec<String> = Vec::new();
    let mut i: usize = 0;
    while i < page.len()
        invariant
            i <= page.len(),
            forall|j: int| 0 <= j < page@.len() ==> #[trigger] page@[j] < cands@.len(),
            out.deep_view() == ids_at(cands.deep_view(), page@.take(i as int)),
        decreases page.len() - i,
    {
        let ghost before = out.deep_view();
        out.push(cands[page[i]].clone());
        assert(out.deep_view() =~= before.push(cands.deep_view()[page@[i as int] as int]));
        assert(ids_at(cands.deep_view(), page@.take(i + 1)) =~= before.push(
            cands.deep_view()[page@[i as int] as int],
        ));
        i = i + 1;
    }
    assert(page@.take(i as int) =~= page@);
    out
}

impl Index {
    /// Takes the next step of `search` on this store: the shard to ingest first, the
    /// scoring of the candidates, or the complete result. Term-stat shards come
    /// first, in token order; then the document-stat shards of the candidates
    /// without an entry; then, once scored, the document shards of the page.
    /// A hit whose document its shard does not hold is left out and not counted.
    pub fn advance(&self, search: &Search) -> (r: Result<Step, IndexError>)
        requires
            self.wf(),
        ensures
            self.spec_shard_count() == 0 ==> r == Err::<Step, IndexError>(IndexError::EmptyIndex),
            self.spec_shard_count() != 0 ==> r is Ok,
            r is Ok ==> match r->Ok_0 {
                Step::Fetch(c, k) => next_step(self, search) == Next::Fetch(c, k),
                Step::Score(input) => next_step(self, search) == Next::Score && is_score_input(
                    &input,
                    self,
                    search.spec_tokens(),
                    candidates(self, search.spec_tokens()),
                ),
                Step::Done(result) => {
                    let cands = candidates(self, search.spec_tokens());
                    let page = result_page(cands, search.spec_keys()->0, search.spec_options());
                    &&& next_step(self, search) == Next::Done
                    &&& hits_match(result.hits@, self, cands, page)
                    &&& result.count == cands.len() - (page.len() - result.hits@.len())
                },
            },
    {
        if self.get_shard_count() == 0 {
            return Err(IndexError::EmptyIndex);
        }
        let tokens = search.get_tokens();
        if let Some(k) = first_unloaded_shard(self, Category::TermStats, tokens) {
            return Ok(Step::Fetch(Category::TermStats, k));
        }
        let cands = find_documents(self, tokens);
        let lacking = lacking_stats_of(self, &cands);
        if let Some(k) = first_unloaded_shard(self, Category::DocumentStats, &lacking) {
            return Ok(Step::Fetch(Category::DocumentStats, k));
        }
        let keys = match &search.keys {
            Some(keys) => {
                if keys.len() != cands.len() {
                    return Ok(Step::Score(score_inputs(self, tokens, &cands)));
                }
                keys
            },
            None => {
                return Ok(Step::Score(score_inputs(self, tokens, &cands)));
            },
        };
        let order = rank(keys);
        let options = search.get_options();
        let page = page_slice(&order, options.from, options.size);
        proof {
            assert forall|i: int| 0 <= i < page@.len() implies #[trigger] page@[i] < cands@.len() by {
                let n = order@.len() as int;
                let lo = if options.from < n { options.from as int } else { n };
                assert(page@[i] == order@[lo + i]);
            }
        }
        let ids = ids_at_page(&cands, &page);
        if let Some(k) = first_unloaded_shard(self, Category::Documents, &ids) {
            return Ok(Step::Fetch(Category::Documents, k));
        }
        let ghost cv = cands.deep_view();
        let ghost f = |i: usize| self.document(cv[i as int]) is Some;
        let mut hits: Vec<Hit> = Vec::new();
        let mut i: usize = 0;
        while i < page.len()
            invariant
                i <= page.len(),
                cv == cands.deep_view(),
                f == (|i: usize| self.document(cv[i as int]) is Some),
                forall|j: int| 0 <= j < page@.len() ==> #[trigger] page@[j] < cands@.len(),
                hits_match(hits@, self, cv, page@.take(i as int)),
                hits@.len() <= i,
            decreases page.len() - i,
        {
            let c = page[i];
            let ghost prev = page@.take(i as int);
            let ghost next = page@.take(i + 1);
            proof {
                reveal(Seq::filter);
                assert(next.drop_last() =~= prev);
                assert(next.last() == c);
                assert(cv[c as int] == cands[c as int]@);
            }
            match self.fetch_document(cands[c].as_str()) {
                Some(source) => {
                    let ghost before = hits@;
                    hits.push(Hit { id: cands[c].clone(), candidate: c, source: source.clone() });
                    proof {
                        assert(next.filter(f) == prev.filter(f).push(c));
                        assert(page_hits(self, cv, next) =~= page_hits(self, cv, prev).push(
                            (cv[c as int], c),
                        ));
                        assert(hits@[hits@.len() - 1].id@ == cv[c as int]);
                    }
                },
                None => {
                    proof {
                        assert(next.filter(f) == prev.filter(f));
                        assert(page_hits(self, cv, next) =~= page_hits(self, cv, prev));
                    }
                },
            }
            i = i + 1;
        }
        proof {
            assert(page@.take(i as int) =~= page@);
        }
        let count = cands.len() - (page.len() - hits.len());
        Ok(Step::Done(SearchResult { count, hits }))
    }
}

pub proof fn lemma_ranking_length(keys: Seq<u64>)
    requires
        keys.len() <= usize::MAX,
    ensures
        ranking_of(keys, keys.len() as int).len() == keys.len(),
{
    lemma_ranking_sorted(keys, keys.len() as int);
}

} // verus!
