//! Properties of searches that relate several steps or several calls.
use vstd::prelude::*;
use crate::filters::{analyzed, fragments, is_stop_word, lowered, stripped, without_stop_words};
use crate::index::{Category, Index};
use crate::router::route;
use vstd::seq_lib::{
    lemma_multiset_commutative, to_multiset_build, to_multiset_contains, to_multiset_len,
    to_multiset_remove,
};
use crate::search::{
    candidates, document_frequency_of, scored_tokens, tf, first_unloaded, lemma_ranking_length, match_state, next_step, page_hits, page_of,
    ranking_of, result_page, Next, Search, SearchOptions,
};

verus! {

proof fn lemma_first_unloaded(idx: &Index, c: Category, ids: Seq<Seq<char>>)
    ensures
        match first_unloaded(idx, c, ids) {
            Some(k) => !idx.is_loaded(c, k) && exists|i: int|
                0 <= i < ids.len() && route(#[trigger] ids[i], idx.spec_shard_count()) == k,
            None => true,
        },
    decreases ids.len(),
{
    if ids.len() > 0 {
        lemma_first_unloaded(idx, c, ids.drop_first());
        let k = route(ids[0], idx.spec_shard_count());
        if idx.is_loaded(c, k) {
            if let Some(j) = first_unloaded(idx, c, ids.drop_first()) {
                let i = choose|i: int|
                    0 <= i < ids.drop_first().len() && route(
                        #[trigger] ids.drop_first()[i],
                        idx.spec_shard_count(),
                    ) == j;
                assert(ids[i + 1] == ids.drop_first()[i]);
            }
        } else {
            assert(route(ids[0], idx.spec_shard_count()) == k);
        }
    }
}

/// A shard that has been ingested is never asked for again: every shard a search
/// asks for is one not yet loaded (and ingesting a loaded shard changes nothing, as
/// `Index::ingest` states), so each shard is fetched at most once per store.
pub proof fn lemma_loaded_shard_not_fetched(idx: &Index, s: &Search, c: Category, k: u32)
    requires
        idx.is_loaded(c, k),
    ensures
        next_step(idx, s) != Next::Fetch(c, k),
{
    let tokens = s.spec_tokens();
    lemma_first_unloaded(idx, Category::TermStats, tokens);
    let cands = candidates(idx, tokens);
    lemma_first_unloaded(
        idx,
        Category::DocumentStats,
        cands.filter(|d: Seq<char>| !idx.has_document_stat(d)),
    );
    if let Some(keys) = s.spec_keys() {
        let page = result_page(cands, keys, s.spec_options());
        lemma_first_unloaded(idx, Category::Documents, page.map_values(|i: usize| cands[i as int]));
    }
}

/// Every shard a search asks for is the one that the router names for what it is
/// loaded for: a token (term stats), a candidate without a document-stat entry
/// (document stats), or a document of the page (documents).
pub proof fn lemma_fetch_is_routed(idx: &Index, s: &Search, c: Category, k: u32)
    requires
        next_step(idx, s) == Next::Fetch(c, k),
    ensures
        ({
            let n = idx.spec_shard_count();
            let tokens = s.spec_tokens();
            let cands = candidates(idx, tokens);
            &&& c == Category::TermStats ==> exists|i: int|
                0 <= i < tokens.len() && route(#[trigger] tokens[i], n) == k
            &&& c == Category::DocumentStats ==> exists|i: int|
                0 <= i < cands.len() && !idx.has_document_stat(cands[i]) && route(
                    #[trigger] cands[i],
                    n,
                ) == k
            &&& c == Category::Documents ==> exists|i: int|
                0 <= i < result_page(cands, s.spec_keys()->0, s.spec_options()).len() && route(
                    cands[#[trigger] result_page(cands, s.spec_keys()->0, s.spec_options())[i] as int],
                    n,
                ) == k
        }),
{
    let n = idx.spec_shard_count();
    let tokens = s.spec_tokens();
    lemma_first_unloaded(idx, Category::TermStats, tokens);
    let cands = candidates(idx, tokens);
    let p = |d: Seq<char>| !idx.has_document_stat(d);
    let lacking = cands.filter(p);
    lemma_first_unloaded(idx, Category::DocumentStats, lacking);
    if let Some(k0) = first_unloaded(idx, Category::TermStats, tokens) {
        let i = choose|i: int| 0 <= i < tokens.len() && route(#[trigger] tokens[i], n) == k0;
        assert(route(tokens[i], n) == k);
    } else if let Some(k1) = first_unloaded(idx, Category::DocumentStats, lacking) {
        let i = choose|i: int| 0 <= i < lacking.len() && route(#[trigger] lacking[i], n) == k1;
        cands.lemma_filter_pred(p, i);
        assert(lacking.contains(lacking[i]));
        cands.lemma_filter_contains_rev(p, lacking[i]);
        let j = choose|j: int| 0 <= j < cands.len() && cands[j] == lacking[i];
        assert(route(cands[j], n) == k);
    } else {
        let keys = s.spec_keys()->0;
        let page = result_page(cands, keys, s.spec_options());
        let ids = page.map_values(|i: usize| cands[i as int]);
        lemma_first_unloaded(idx, Category::Documents, ids);
        let i = choose|i: int| 0 <= i < ids.len() && route(#[trigger] ids[i], n) == k;
        assert(route(cands[page[i] as int], n) == k);
    }
}

/// Searching again for the same query with the same options, once a search has
/// completed on a store, fetches nothing: it asks only for scores, and with the same
/// scores it completes with the same page of the same candidates.
pub proof fn lemma_search_repeatable(idx: &Index, first: &Search, again: &Search)
    requires
        next_step(idx, first) == Next::Done,
        again.spec_tokens() == first.spec_tokens(),
        again.spec_options() == first.spec_options(),
        again.spec_keys() is None || again.spec_keys() == first.spec_keys(),
    ensures
        again.spec_keys() is None ==> next_step(idx, again) == Next::Score,
        again.spec_keys() == first.spec_keys() ==> next_step(idx, again) == Next::Done,
        candidates(idx, again.spec_tokens()) == candidates(idx, first.spec_tokens()),
{
}

/// Asking for more hits from the first rank returns the hits of the smaller request
/// first: the page and the hits for size `fewer` are prefixes of those for `more >= fewer`;
/// where every document of the larger page is loaded, so is every one of the smaller,
/// and both results count all candidates.
pub proof fn lemma_larger_page_extends(
    idx: &Index,
    cands: Seq<Seq<char>>,
    keys: Seq<u64>,
    fewer: usize,
    more: usize,
)
    requires
        fewer <= more,
    ensures
        ({
            let small = result_page(cands, keys, SearchOptions { size: fewer, from: 0, use_cache: true });
            let large = result_page(cands, keys, SearchOptions { size: more, from: 0, use_cache: true });
            &&& small == large.take(small.len() as int)
            &&& page_hits(idx, cands, small) == page_hits(idx, cands, large).take(
                page_hits(idx, cands, small).len() as int,
            )
            &&& page_hits(idx, cands, large).len() == large.len() ==> page_hits(
                idx,
                cands,
                small,
            ).len() == small.len()
        }),
{
    let order = ranking_of(keys, keys.len() as int);
    let small = page_of(order, 0, fewer as int);
    let large = page_of(order, 0, more as int);
    let rest = large.subrange(small.len() as int, large.len() as int);
    assert(small =~= large.take(small.len() as int));
    assert(large =~= small + rest);
    let f = |i: usize| idx.document(cands[i as int]) is Some;
    let g = |i: usize| (cands[i as int], i);
    Seq::filter_distributes_over_add(small, rest, f);
    let small_hits = small.filter(f).map_values(g);
    let large_hits = large.filter(f).map_values(g);
    assert(large_hits =~= small_hits + rest.filter(f).map_values(g));
    assert(small_hits =~= large_hits.take(small_hits.len() as int));
    small.lemma_filter_len(f);
    rest.lemma_filter_len(f);
}

/// A page of size zero, or one that starts past the last candidate, holds no hits.
pub proof fn lemma_empty_page(idx: &Index, cands: Seq<Seq<char>>, keys: Seq<u64>, options: SearchOptions)
    requires
        keys.len() == cands.len(),
        keys.len() <= usize::MAX,
        options.size == 0 || options.from >= cands.len(),
    ensures
        result_page(cands, keys, options).len() == 0,
        page_hits(idx, cands, result_page(cands, keys, options)).len() == 0,
{
    lemma_ranking_length(keys);
    let page = result_page(cands, keys, options);
    assert(page.len() == 0);
    reveal(Seq::filter);
    assert(page.filter(|i: usize| idx.document(cands[i as int]) is Some) =~= page);
}

/// A query whose fragments are all stop words or empty yields no tokens, and a
/// search with no tokens has no candidates.
pub proof fn lemma_stop_words_only(idx: &Index, q: Seq<char>)
    requires
        forall|i: int|
            0 <= i < fragments(q).len() ==> {
                let t = #[trigger] stripped(lowered(fragments(q)))[i];
                is_stop_word(t) || t.len() == 0
            },
    ensures
        analyzed(q).len() == 0,
        candidates(idx, analyzed(q)).len() == 0,
{
    let s = stripped(lowered(fragments(q)));
    let w = without_stop_words(s);
    assert forall|i: int| 0 <= i < w.len() implies (#[trigger] w[i]).len() == 0 by {
        let p = |t: Seq<char>| !is_stop_word(t);
        s.lemma_filter_pred(p, i);
        assert(w.contains(w[i]));
        s.lemma_filter_contains_rev(p, w[i]);
        let j = choose|j: int| 0 <= j < s.len() && s[j] == w[i];
        assert(is_stop_word(s[j]) || s[j].len() == 0);
    }
    reveal(Seq::filter);
    lemma_filter_none(w);
}

proof fn lemma_filter_none(w: Seq<Seq<char>>)
    requires
        forall|i: int| 0 <= i < w.len() ==> (#[trigger] w[i]).len() == 0,
    ensures
        w.filter(|t: Seq<char>| t.len() > 0).len() == 0,
    decreases w.len(),
{
    reveal(Seq::filter);
    if w.len() > 0 {
        lemma_filter_none(w.drop_last());
    }
}

proof fn lemma_match_prefix(idx: &Index, a: Seq<Seq<char>>, b: Seq<Seq<char>>, n: int)
    requires
        0 <= n <= a.len(),
        n <= b.len(),
        a.take(n) == b.take(n),
    ensures
        match_state(idx, a, n) == match_state(idx, b, n),
    decreases n,
{
    if n > 0 {
        assert(a.take(n - 1) =~= a.take(n).take(n - 1));
        assert(b.take(n - 1) =~= b.take(n).take(n - 1));
        lemma_match_prefix(idx, a, b, n - 1);
        assert(a[n - 1] == a.take(n)[n - 1]);
        assert(b[n - 1] == b.take(n)[n - 1]);
    }
}

proof fn lemma_match_present(idx: &Index, tokens: Seq<Seq<char>>, n: int)
    requires
        0 <= n <= tokens.len(),
    ensures
        ({
            let f = tokens.take(n).filter(|t: Seq<char>| idx.postings(t) is Some);
            match_state(idx, tokens, n) == match_state(idx, f, f.len() as int)
        }),
    decreases n,
{
    let p = |t: Seq<char>| idx.postings(t) is Some;
    if n > 0 {
        lemma_match_present(idx, tokens, n - 1);
        let prev = tokens.take(n - 1).filter(p);
        let cur = tokens.take(n).filter(p);
        assert(tokens.take(n).drop_last() =~= tokens.take(n - 1));
        reveal(Seq::filter);
        let t = tokens[n - 1];
        if p(t) {
            assert(cur == prev.push(t));
            assert(cur.take(prev.len() as int) =~= prev.take(prev.len() as int));
            lemma_match_prefix(idx, cur, prev, prev.len() as int);
            assert(cur[cur.len() - 1] == t);
        } else {
            assert(cur == prev);
        }
    }
}

/// Tokens with no posting list take no part in matching: the candidates of a token
/// list are those of its tokens that have one.
pub proof fn lemma_absent_tokens_skipped(idx: &Index, tokens: Seq<Seq<char>>)
    ensures
        candidates(idx, tokens) == candidates(
            idx,
            tokens.filter(|t: Seq<char>| idx.postings(t) is Some),
        ),
{
    lemma_match_present(idx, tokens, tokens.len() as int);
    assert(tokens.take(tokens.len() as int) =~= tokens);
}

/// The terms of document `d`'s score for `tokens`: for each scored token, in order,
/// the count of the token in `d` and the length of its posting list.
pub open spec fn score_terms(idx: &Index, d: Seq<char>, tokens: Seq<Seq<char>>) -> Seq<(u64, nat)> {
    scored_tokens(idx, tokens).map_values(|t: Seq<char>| (tf(idx, d, t), document_frequency_of(idx, t)))
}

proof fn lemma_score_terms_concat(idx: &Index, d: Seq<char>, a: Seq<Seq<char>>, b: Seq<Seq<char>>)
    ensures
        score_terms(idx, d, a + b) == score_terms(idx, d, a) + score_terms(idx, d, b),
{
    let p = |t: Seq<char>| idx.postings(t) is Some;
    Seq::filter_distributes_over_add(a, b, p);
    assert(score_terms(idx, d, a + b) =~= score_terms(idx, d, a) + score_terms(idx, d, b));
}

/// The score of a document does not depend on the order of the query's tokens: a
/// permutation of the tokens permutes the terms summed for each document.
pub proof fn lemma_score_terms_permutation(
    idx: &Index,
    d: Seq<char>,
    tokens: Seq<Seq<char>>,
    permuted: Seq<Seq<char>>,
)
    requires
        tokens.to_multiset() == permuted.to_multiset(),
    ensures
        score_terms(idx, d, tokens).to_multiset() == score_terms(idx, d, permuted).to_multiset(),
    decreases tokens.len(),
{
    broadcast use vstd::multiset::group_multiset_axioms;

    to_multiset_len(tokens);
    to_multiset_len(permuted);
    if tokens.len() == 0 {
        assert(permuted.len() == 0);
        assert(tokens =~= permuted);
    } else {
        let x = tokens.last();
        let rest = tokens.drop_last();
        assert(rest.push(x) =~= tokens);
        to_multiset_build(rest, x);
        to_multiset_contains(permuted, x);
        assert(permuted.to_multiset().count(x) > 0);
        let i = choose|i: int| 0 <= i < permuted.len() && permuted[i] == x;
        let others = permuted.remove(i);
        to_multiset_remove(permuted, i);
        assert(others.to_multiset() =~= rest.to_multiset());
        lemma_score_terms_permutation(idx, d, rest, others);
        let before = permuted.take(i);
        let after = permuted.skip(i + 1);
        assert(permuted =~= before + seq![x] + after);
        assert(others =~= before + after);
        assert(tokens =~= rest + seq![x]);
        lemma_score_terms_concat(idx, d, before + seq![x], after);
        lemma_score_terms_concat(idx, d, before, seq![x]);
        lemma_score_terms_concat(idx, d, before, after);
        lemma_score_terms_concat(idx, d, rest, seq![x]);
        let tb = score_terms(idx, d, before);
        let tx = score_terms(idx, d, seq![x]);
        let ta = score_terms(idx, d, after);
        let tr = score_terms(idx, d, rest);
        lemma_multiset_commutative(tb + tx, ta);
        lemma_multiset_commutative(tb, tx);
        lemma_multiset_commutative(tb, ta);
        lemma_multiset_commutative(tr, tx);
        assert(score_terms(idx, d, permuted).to_multiset() =~= tb.to_multiset().add(
            tx.to_multiset(),
        ).add(ta.to_multiset()));
        assert(score_terms(idx, d, tokens).to_multiset() =~= tr.to_multiset().add(tx.to_multiset()));
    }
}

} // verus!
