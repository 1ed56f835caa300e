//! The index store: the shard count, the three maps that grow as shards are
//! ingested, and the set of ingested shards of each category.
use vstd::prelude::*;
use crate::assoc::{find_key, keys_unique, lemma_lookup_push, lemma_lookup_update, lookup};
use crate::error::IndexError;
use crate::router::{calculate_shard_id, route};
use crate::records::{
    counts_view, csv_rows, decode_document_stats, decode_documents, decode_term_stats,
    document_fields, documents_decodable, dotted_leaves, is_string_tree, parse_shard_count, payload_rows, postings_of, postings_view,
    rows_have_fields, shard_count_of, stat_rows_of, stat_rows_view,
};

verus! {

/// The three payload categories of a shard.
#[derive(Debug, Clone, Copy, PartialEq, Eq, Hash, Structural)]
pub enum Category {
    Documents,
    DocumentStats,
    TermStats,
}

impl Category {
    /// The file extension of the category's artifact.
    pub fn extension(&self) -> (r: &'static str)
        ensures
            r@ == match self {
                Category::Documents => "dcs"@,
                Category::DocumentStats => "dst"@,
                Category::TermStats => "tst"@,
            },
    {
        match self {
            Category::Documents => "dcs",
            Category::DocumentStats => "dst",
            Category::TermStats => "tst",
        }
    }
}

/// The term counts of one document.
pub struct DocumentStat {
    term_frequency: Vec<(String, u64)>,
}

/// The posting list of one token.
pub struct TermStat {
    document_ids: Vec<String>,
}

impl DocumentStat {
    /// The entries, one per token.
    pub closed spec fn entries(&self) -> Seq<(String, u64)> {
        self.term_frequency@
    }

    pub fn new() -> (r: DocumentStat)
        ensures
            r.entries().len() == 0,
    {
        DocumentStat { term_frequency: Vec::new() }
    }

    /// The entries, for editing in place.
    pub fn get_term_frequency_mut(&mut self) -> (r: &mut Vec<(String, u64)>)
        ensures
            r@ == old(self).entries(),
            final(self).entries() == (*final(r))@,
    {
        &mut self.term_frequency
    }
}

impl TermStat {
    /// The document ids of the posting list, in order.
    pub closed spec fn ids(&self) -> Seq<Seq<char>> {
        self.document_ids.deep_view()
    }

    pub fn new() -> (r: TermStat)
        ensures
            r.ids().len() == 0,
    {
        TermStat { document_ids: Vec::new() }
    }

    pub fn get_document_ids(&self) -> (r: &Vec<String>)
        ensures
            r.deep_view() == self.ids(),
    {
        &self.document_ids
    }

    /// The posting list, for editing in place.
    pub fn get_document_ids_mut(&mut self) -> (r: &mut Vec<String>)
        ensures
            r.deep_view() == old(self).ids(),
            final(self).ids() == final(r).deep_view(),
    {
        &mut self.document_ids
    }
}

pub struct Index {
    name: String,
    shard_count: u32,
    documents: Vec<(String, serde_json::Value)>,
    document_stats: Vec<(String, DocumentStat)>,
    term_stats: Vec<(String, TermStat)>,
    loaded_documents_shards: Vec<u32>,
    loaded_document_stats_shards: Vec<u32>,
    loaded_term_stats_shards: Vec<u32>,
}

/// The posting list of `t` after the term-stat records `recs` were merged into a store
/// where it was `before`: lists of the same token are appended in order.
pub open spec fn postings_after(
    before: Option<Seq<Seq<char>>>,
    recs: Seq<(Seq<char>, Seq<Seq<char>>)>,
    t: Seq<char>,
) -> Option<Seq<Seq<char>>>
    decreases recs.len(),
{
    if recs.len() == 0 {
        before
    } else {
        let p = postings_after(before, recs.drop_last(), t);
        if recs.last().0 == t {
            match p {
                Some(x) => Some(x + recs.last().1),
                None => Some(recs.last().1),
            }
        } else {
            p
        }
    }
}

/// The last count of `t` in a list of term counts.
pub open spec fn last_count(counts: Seq<(Seq<char>, u64)>, t: Seq<char>) -> Option<u64>
    decreases counts.len(),
{
    if counts.len() == 0 {
        None
    } else if counts.last().0 == t {
        Some(counts.last().1)
    } else {
        last_count(counts.drop_last(), t)
    }
}

/// The count of `t` in document `d` after the document-stat records `recs` were merged
/// into a store where it was `before`: the last count given wins.
pub open spec fn count_after(
    before: Option<u64>,
    recs: Seq<(Seq<char>, Seq<(Seq<char>, u64)>)>,
    d: Seq<char>,
    t: Seq<char>,
) -> Option<u64>
    decreases recs.len(),
{
    if recs.len() == 0 {
        before
    } else {
        let p = count_after(before, recs.drop_last(), d, t);
        if recs.last().0 == d {
            match last_count(recs.last().1, t) {
                Some(c) => Some(c),
                None => p,
            }
        } else {
            p
        }
    }
}

/// Some record of `recs` is about document `d`.
pub open spec fn has_record_for(recs: Seq<(Seq<char>, Seq<(Seq<char>, u64)>)>, d: Seq<char>) -> bool {
    exists|i: int| 0 <= i < recs.len() && #[trigger] recs[i].0 == d
}

/// Some document row (every row after the header) has the id `d`.
pub open spec fn has_document_row(rows: Seq<Seq<Seq<char>>>, d: Seq<char>) -> bool {
    exists|i: int| 1 <= i < rows.len() && #[trigger] rows[i][0] == d
}

/// Row `i` is the last document row (after the header) with id `d`.
pub open spec fn is_last_row_for(rows: Seq<Seq<Seq<char>>>, d: Seq<char>, i: int) -> bool {
    &&& 1 <= i < rows.len()
    &&& rows[i][0] == d
    &&& forall|j: int| i < j < rows.len() ==> #[trigger] rows[j][0] != d
}

/// `doc` holds the fields that row `i` gives under the header row.
pub open spec fn is_row_document(doc: serde_json::Value, rows: Seq<Seq<Seq<char>>>, i: int) -> bool {
    is_string_tree(doc) && document_fields(rows[0], rows[i]) == Some(dotted_leaves(doc))
}

/// One of the first `n` entries of `docs` has id `d`.
pub open spec fn has_id(docs: Seq<(String, serde_json::Value)>, n: int, d: Seq<char>) -> bool {
    exists|i: int| 0 <= i < n && #[trigger] docs[i].0@ == d
}

/// Entry `i` is the last of the first `n` entries of `docs` with id `d`.
pub open spec fn is_latest(docs: Seq<(String, serde_json::Value)>, n: int, d: Seq<char>, i: int) -> bool {
    &&& 0 <= i < n
    &&& docs[i].0@ == d
    &&& forall|j: int| i < j < n ==> #[trigger] docs[j].0@ != d
}

impl Index {
    /// The maps hold each key once.
    pub closed spec fn wf(&self) -> bool {
        &&& keys_unique(self.documents@)
        &&& keys_unique(self.document_stats@)
        &&& keys_unique(self.term_stats@)
        &&& forall|i: int|
            0 <= i < self.document_stats@.len() ==> keys_unique(
                #[trigger] self.document_stats@[i].1.term_frequency@,
            )
    }

    pub closed spec fn spec_name(&self) -> Seq<char> {
        self.name@
    }

    pub closed spec fn spec_shard_count(&self) -> u32 {
        self.shard_count
    }

    /// The document with id `d`, if it is loaded.
    pub closed spec fn document(&self, d: Seq<char>) -> Option<serde_json::Value> {
        lookup(self.documents@, d)
    }

    /// A document-stat entry for `d` is loaded.
    pub closed spec fn has_document_stat(&self, d: Seq<char>) -> bool {
        lookup(self.document_stats@, d) is Some
    }

    /// The count of token `t` in document `d`, if its entry is loaded and names `t`.
    pub closed spec fn term_count(&self, d: Seq<char>, t: Seq<char>) -> Option<u64> {
        match lookup(self.document_stats@, d) {
            Some(s) => lookup(s.term_frequency@, t),
            None => None,
        }
    }

    /// How many documents have a loaded document-stat entry.
    pub closed spec fn document_stat_count(&self) -> nat {
        self.document_stats@.len()
    }

    /// The posting list of `t`, if it is loaded.
    pub closed spec fn postings(&self, t: Seq<char>) -> Option<Seq<Seq<char>>> {
        match lookup(self.term_stats@, t) {
            Some(s) => Some(s.document_ids.deep_view()),
            None => None,
        }
    }

    /// Shard `k` of `category` has been ingested.
    pub closed spec fn is_loaded(&self, category: Category, k: u32) -> bool {
        match category {
            Category::Documents => self.loaded_documents_shards@.contains(k),
            Category::DocumentStats => self.loaded_document_stats_shards@.contains(k),
            Category::TermStats => self.loaded_term_stats_shards@.contains(k),
        }
    }

    /// A store with nothing loaded.
    pub closed spec fn is_empty_store(&self) -> bool {
        &&& self.documents@.len() == 0
        &&& self.document_stats@.len() == 0
        &&& self.term_stats@.len() == 0
        &&& self.loaded_documents_shards@.len() == 0
        &&& self.loaded_document_stats_shards@.len() == 0
        &&& self.loaded_term_stats_shards@.len() == 0
    }

    /// A store with no name, no shards and nothing loaded.
    pub fn new() -> (r: Index)
        ensures
            r.wf(),
            r.is_empty_store(),
            r.spec_shard_count() == 0,
            r.spec_name().len() == 0,
    {
        Index {
            name: String::new(),
            shard_count: 0,
            documents: Vec::new(),
            document_stats: Vec::new(),
            term_stats: Vec::new(),
            loaded_documents_shards: Vec::new(),
            loaded_document_stats_shards: Vec::new(),
            loaded_term_stats_shards: Vec::new(),
        }
    }

    /// Opens the index `name` whose shard-count artifact reads `shard_count_text`.
    pub fn load(name: &str, shard_count_text: &str) -> (r: Result<Index, IndexError>)
        ensures
            match shard_count_of(shard_count_text@) {
                Some(n) => r is Ok && r->Ok_0.wf() && r->Ok_0.is_empty_store()
                    && r->Ok_0.spec_shard_count() == n && r->Ok_0.spec_name() == name@,
                None => r == Err::<Index, IndexError>(IndexError::IndexNotFound),
            },
    {
        match parse_shard_count(shard_count_text) {
            Some(n) => {
                let mut index = Index::new();
                index.name = name.to_string();
                index.shard_count = n;
                Ok(index)
            },
            None => Err(IndexError::IndexNotFound),
        }
    }

    pub fn get_shard_count(&self) -> (r: u32)
        ensures
            r == self.spec_shard_count(),
    {
        self.shard_count
    }

    pub fn get_name(&self) -> (r: &str)
        ensures
            r@ == self.spec_name(),
    {
        self.name.as_str()
    }

    /// A store of the same index with nothing loaded, for a search that keeps nothing.
    pub fn detached(&self) -> (r: Index)
        ensures
            r.wf(),
            r.is_empty_store(),
            r.spec_shard_count() == self.spec_shard_count(),
            r.spec_name() == self.spec_name(),
    {
        let mut index = Index::new();
        index.name = self.name.clone();
        index.shard_count = self.shard_count;
        index
    }
}

proof fn lemma_push_contains(s: Seq<u32>, k: u32)
    ensures
        forall|j: u32| #[trigger] s.push(k).contains(j) == (s.contains(j) || j == k),
{
    assert forall|j: u32| #[trigger] s.push(k).contains(j) == (s.contains(j) || j == k) by {
        if s.contains(j) {
            let i = choose|i: int| 0 <= i < s.len() && s[i] == j;
            assert(s.push(k)[i] == j);
        }
        if j == k {
            assert(s.push(k)[s.len() as int] == j);
        }
        if s.push(k).contains(j) && j != k {
            let i = choose|i: int| 0 <= i < s.len() + 1 && s.push(k)[i] == j;
            assert(s[i] == j);
        }
    }
}

fn contains_shard(v: &Vec<u32>, k: u32) -> (r: bool)
    ensures
        r == v@.contains(k),
{
    let mut i: usize = 0;
    while i < v.len()
        invariant
            i <= v.len(),
            forall|j: int| 0 <= j < i ==> v@[j] != k,
        decreases v.len() - i,
    {
        if v[i] == k {
            return true;
        }
        i = i + 1;
    }
    false
}

impl Index {
    /// Whether shard `k` of `category` has been ingested.
    pub fn is_shard_loaded(&self, category: Category, k: u32) -> (r: bool)
        ensures
            r == self.is_loaded(category, k),
    {
        match category {
            Category::Documents => contains_shard(&self.loaded_documents_shards, k),
            Category::DocumentStats => contains_shard(&self.loaded_document_stats_shards, k),
            Category::TermStats => contains_shard(&self.loaded_term_stats_shards, k),
        }
    }

    fn merge_postings(&mut self, token: String, ids: Vec<String>)
        requires
            old(self).wf(),
        ensures
            final(self).wf(),
            final(self).documents == old(self).documents,
            final(self).document_stats == old(self).document_stats,
            final(self).name == old(self).name,
            final(self).shard_count == old(self).shard_count,
            final(self).loaded_documents_shards == old(self).loaded_documents_shards,
            final(self).loaded_document_stats_shards == old(self).loaded_document_stats_shards,
            final(self).loaded_term_stats_shards == old(self).loaded_term_stats_shards,
            forall|t: Seq<char>|
                #[trigger] final(self).postings(t) == if t == token@ {
                    match old(self).postings(t) {
                        Some(x) => Some(x + ids.deep_view()),
                        None => Some(ids.deep_view()),
                    }
                } else {
                    old(self).postings(t)
                },
    {
        match find_key(&self.term_stats, token.as_str()) {
            Some(i) => {
                let ghost e = self.term_stats@;
                let (key, mut stat) = self.term_stats.remove(i);
                let mut j: usize = 0;
                let ghost start = stat.document_ids.deep_view();
                while j < ids.len()
                    invariant
                        j <= ids.len(),
                        stat.document_ids.deep_view() == start + ids.deep_view().take(j as int),
                    decreases ids.len() - j,
                {
                    let ghost before = stat.document_ids.deep_view();
                    stat.document_ids.push(ids[j].clone());
                    assert(stat.document_ids.deep_view() =~= before.push(ids.deep_view()[j as int]));
                    assert(start + ids.deep_view().take(j + 1) =~= (start + ids.deep_view().take(
                        j as int,
                    )).push(ids.deep_view()[j as int]));
                    j = j + 1;
                }
                assert(ids.deep_view().take(j as int) =~= ids.deep_view());
                self.term_stats.insert(i, (key, stat));
                proof {
                    assert(self.term_stats@ =~= e.update(i as int, (key, stat)));
                    assert forall|t: Seq<char>|
                        #[trigger] self.postings(t) == if t == token@ {
                            match old(self).postings(t) {
                                Some(x) => Some(x + ids.deep_view()),
                                None => Some(ids.deep_view()),
                            }
                        } else {
                            old(self).postings(t)
                        } by {
                        lemma_lookup_update(e, i as int, key, stat, t);
                    }
                    lemma_lookup_update(e, i as int, key, stat, token@);
                }
            },
            None => {
                let ghost e = self.term_stats@;
                let stat = TermStat { document_ids: ids };
                self.term_stats.push((token, stat));
                proof {
                    lemma_lookup_push(e, token, stat);
                    assert(self.term_stats@.drop_last() =~= e);
                }
            },
        }
    }
}

fn set_count(tf: &mut Vec<(String, u64)>, t: String, c: u64)
    requires
        keys_unique(old(tf)@),
    ensures
        keys_unique(final(tf)@),
        forall|k: Seq<char>|
            #[trigger] lookup(final(tf)@, k) == if k == t@ {
                Some(c)
            } else {
                lookup(old(tf)@, k)
            },
{
    let ghost e = tf@;
    match find_key(tf, t.as_str()) {
        Some(i) => {
            let _ = tf.remove(i);
            tf.insert(i, (t, c));
            proof {
                assert(tf@ =~= e.update(i as int, (t, c)));
                assert forall|k: Seq<char>|
                    #[trigger] lookup(tf@, k) == if k == t@ {
                        Some(c)
                    } else {
                        lookup(e, k)
                    } by {
                    lemma_lookup_update(e, i as int, t, c, k);
                }
                lemma_lookup_update(e, i as int, t, c, t@);
            }
        },
        None => {
            tf.push((t, c));
            proof {
                lemma_lookup_push(e, t, c);
                assert(tf@.drop_last() =~= e);
            }
        },
    }
}

impl Index {
    fn merge_stat_row(&mut self, id: String, counts: Vec<(String, u64)>)
        requires
            old(self).wf(),
        ensures
            final(self).wf(),
            final(self).documents == old(self).documents,
            final(self).term_stats == old(self).term_stats,
            final(self).name == old(self).name,
            final(self).shard_count == old(self).shard_count,
            final(self).loaded_documents_shards == old(self).loaded_documents_shards,
            final(self).loaded_document_stats_shards == old(self).loaded_document_stats_shards,
            final(self).loaded_term_stats_shards == old(self).loaded_term_stats_shards,
            forall|d: Seq<char>|
                #[trigger] final(self).has_document_stat(d) == (old(self).has_document_stat(d)
                    || d == id@),
            forall|d: Seq<char>, t: Seq<char>|
                #[trigger] final(self).term_count(d, t) == if d == id@ {
                    match last_count(counts_view(counts@), t) {
                        Some(c) => Some(c),
                        None => old(self).term_count(d, t),
                    }
                } else {
                    old(self).term_count(d, t)
                },
    {
        let ghost e = self.document_stats@;
        let found = find_key(&self.document_stats, id.as_str());
        let mut stat = match found {
            Some(i) => {
                let (_, s) = self.document_stats.remove(i);
                s
            },
            None => DocumentStat::new(),
        };
        let ghost start = stat.term_frequency@;
        proof {
            if let Some(i) = found {
                assert(e[i as int].1 == stat);
                assert(keys_unique(e[i as int].1.term_frequency@));
            }
        }
        let mut j: usize = 0;
        while j < counts.len()
            invariant
                j <= counts.len(),
                keys_unique(stat.term_frequency@),
                forall|k: Seq<char>|
                    #[trigger] lookup(stat.term_frequency@, k) == match last_count(
                        counts_view(counts@.take(j as int)),
                        k,
                    ) {
                        Some(c) => Some(c),
                        None => lookup(start, k),
                    },
            decreases counts.len() - j,
        {
            let ghost cv = counts_view(counts@.take(j as int));
            let t = counts[j].0.clone();
            let c = counts[j].1;
            set_count(&mut stat.term_frequency, t, c);
            proof {
                let nv = counts_view(counts@.take(j + 1));
                assert(nv.drop_last() =~= cv);
                assert(nv.last() == (counts@[j as int].0@, c));
            }
            j = j + 1;
        }
        assert(counts@.take(j as int) =~= counts@);
        match found {
            Some(i) => {
                self.document_stats.insert(i, (id, stat));
                proof {
                    assert(self.document_stats@ =~= e.update(i as int, (id, stat)));
                    assert forall|d: Seq<char>|
                        lookup(self.document_stats@, d) == if d == id@ {
                            Some(stat)
                        } else {
                            lookup(e, d)
                        } by {
                        lemma_lookup_update(e, i as int, id, stat, d);
                    }
                    lemma_lookup_update(e, i as int, id, stat, id@);
                    assert forall|k: int| 0 <= k < self.document_stats@.len() implies keys_unique(
                        #[trigger] self.document_stats@[k].1.term_frequency@,
                    ) by {
                        if k != i {
                            assert(self.document_stats@[k] == e[k]);
                        }
                    }
                }
            },
            None => {
                self.document_stats.push((id, stat));
                proof {
                    lemma_lookup_push(e, id, stat);
                    assert(self.document_stats@.drop_last() =~= e);
                    assert forall|k: int| 0 <= k < self.document_stats@.len() implies keys_unique(
                        #[trigger] self.document_stats@[k].1.term_frequency@,
                    ) by {
                        if k < e.len() {
                            assert(self.document_stats@[k] == e[k]);
                        }
                    }
                }
            },
        }
    }

    fn merge_document(&mut self, id: String, doc: serde_json::Value)
        requires
            old(self).wf(),
        ensures
            final(self).wf(),
            final(self).document_stats == old(self).document_stats,
            final(self).term_stats == old(self).term_stats,
            final(self).name == old(self).name,
            final(self).shard_count == old(self).shard_count,
            final(self).loaded_documents_shards == old(self).loaded_documents_shards,
            final(self).loaded_document_stats_shards == old(self).loaded_document_stats_shards,
            final(self).loaded_term_stats_shards == old(self).loaded_term_stats_shards,
            forall|d: Seq<char>|
                #[trigger] final(self).document(d) == if d == id@ {
                    Some(doc)
                } else {
                    old(self).document(d)
                },
    {
        let ghost e = self.documents@;
        match find_key(&self.documents, id.as_str()) {
            Some(i) => {
                let _ = self.documents.remove(i);
                self.documents.insert(i, (id, doc));
                proof {
                    assert(self.documents@ =~= e.update(i as int, (id, doc)));
                    assert forall|d: Seq<char>|
                        #[trigger] lookup(self.documents@, d) == if d == id@ {
                            Some(doc)
                        } else {
                            lookup(e, d)
                        } by {
                        lemma_lookup_update(e, i as int, id, doc, d);
                    }
                    lemma_lookup_update(e, i as int, id, doc, id@);
                }
            },
            None => {
                self.documents.push((id, doc));
                proof {
                    lemma_lookup_push(e, id, doc);
                    assert(self.documents@.drop_last() =~= e);
                }
            },
        }
    }
}

/// `b` holds the same documents as `a`.
pub open spec fn same_documents(a: &Index, b: &Index) -> bool {
    forall|d: Seq<char>| #[trigger] b.document(d) == a.document(d)
}

/// `b` holds the same document-stat entries as `a`.
pub open spec fn same_document_stats(a: &Index, b: &Index) -> bool {
    &&& b.document_stat_count() == a.document_stat_count()
    &&& forall|d: Seq<char>| #[trigger] b.has_document_stat(d) == a.has_document_stat(d)
    &&& forall|d: Seq<char>, t: Seq<char>| #[trigger] b.term_count(d, t) == a.term_count(d, t)
}

/// `b` holds the same posting lists as `a`.
pub open spec fn same_term_stats(a: &Index, b: &Index) -> bool {
    forall|t: Seq<char>| #[trigger] b.postings(t) == a.postings(t)
}

/// `b` is `a` with shard `k` of `category` marked as ingested, and the same shard
/// count and name.
pub open spec fn marked(a: &Index, b: &Index, category: Category, k: u32) -> bool {
    &&& b.spec_shard_count() == a.spec_shard_count()
    &&& b.spec_name() == a.spec_name()
    &&& forall|c: Category, j: u32|
        #[trigger] b.is_loaded(c, j) == (a.is_loaded(c, j) || (c == category && j == k))
}

/// What ingesting `payload` as the term-stats of shard `k` into `a` does: `b` is the store
/// after, `r` the outcome.
pub open spec fn term_stats_outcome(
    a: &Index,
    b: &Index,
    k: u32,
    payload: Seq<char>,
    r: Result<(), IndexError>,
) -> bool {
    &&& a.is_loaded(Category::TermStats, k) ==> r is Ok && *b == *a
    &&& !a.is_loaded(Category::TermStats, k) ==> match csv_rows(payload) {
        Some(rows) if rows_have_fields(rows, 2) => {
            &&& r is Ok
            &&& marked(a, b, Category::TermStats, k)
            &&& same_documents(a, b)
            &&& same_document_stats(a, b)
            &&& forall|t: Seq<char>|
                #[trigger] b.postings(t) == postings_after(
                    a.postings(t),
                    postings_of(rows),
                    t,
                )
        },
        _ => r == Err::<(), IndexError>(IndexError::ShardDecodeFailed) && *b == *a,
    }
}

/// What ingesting `payload` as the document-stats of shard `k` into `a` does: `b` is the store
/// after, `r` the outcome.
pub open spec fn document_stats_outcome(
    a: &Index,
    b: &Index,
    k: u32,
    payload: Seq<char>,
    r: Result<(), IndexError>,
) -> bool {
    &&& a.is_loaded(Category::DocumentStats, k) ==> r is Ok && *b == *a
    &&& !a.is_loaded(Category::DocumentStats, k) ==> match csv_rows(payload) {
        Some(rows) if stat_rows_of(rows) is Some => {
            let recs = stat_rows_of(rows)->0;
            &&& r is Ok
            &&& marked(a, b, Category::DocumentStats, k)
            &&& same_documents(a, b)
            &&& same_term_stats(a, b)
            &&& forall|d: Seq<char>|
                #[trigger] b.has_document_stat(d) == (a.has_document_stat(d) || has_record_for(
                    recs,
                    d,
                ))
            &&& forall|d: Seq<char>, t: Seq<char>|
                #[trigger] b.term_count(d, t) == count_after(
                    a.term_count(d, t),
                    recs,
                    d,
                    t,
                )
        },
        _ => r == Err::<(), IndexError>(IndexError::ShardDecodeFailed) && *b == *a,
    }
}

/// What ingesting `payload` as the documents of shard `k` into `a` does: `b` is the store
/// after, `r` the outcome.
pub open spec fn documents_outcome(
    a: &Index,
    b: &Index,
    k: u32,
    payload: Seq<char>,
    r: Result<(), IndexError>,
) -> bool {
    &&& a.is_loaded(Category::Documents, k) ==> r is Ok && *b == *a
    &&& !a.is_loaded(Category::Documents, k) ==> (r is Ok <==> (csv_rows(payload) is Some
        && documents_decodable(csv_rows(payload)->0)))
    &&& r is Err ==> r->Err_0 == IndexError::ShardDecodeFailed && *b == *a
    &&& !a.is_loaded(Category::Documents, k) && r is Ok ==> {
        let rows = csv_rows(payload)->0;
        &&& csv_rows(payload) is Some
        &&& marked(a, b, Category::Documents, k)
        &&& same_document_stats(a, b)
        &&& same_term_stats(a, b)
        &&& forall|d: Seq<char>|
            #[trigger] b.document(d) is Some == (a.document(d) is Some
                || has_document_row(rows, d))
        &&& forall|d: Seq<char>|
            !has_document_row(rows, d) ==> #[trigger] b.document(d) == a.document(d)
        &&& forall|d: Seq<char>|
            has_document_row(rows, d) ==> exists|i: int|
                #[trigger] is_last_row_for(rows, d, i) && is_row_document(
                    b.document(d)->0,
                    rows,
                    i,
                )
    }
}

impl Index {
    /// Ingests the term-stats payload of shard `k`, unless that shard is already in.
    /// The posting lists of the payload are appended to those already loaded; a
    /// payload that does not decode leaves the store as it was.
    pub fn load_term_stats(&mut self, k: u32, payload: &str) -> (r: Result<(), IndexError>)
        requires
            old(self).wf(),
        ensures
            final(self).wf(),
            term_stats_outcome(old(self), final(self), k, payload@, r),
    {
        if self.is_shard_loaded(Category::TermStats, k) {
            return Ok(());
        }
        let rows = match payload_rows(payload) {
            Ok(rows) => rows,
            Err(e) => {
                return Err(e);
            },
        };
        let recs = match decode_term_stats(&rows) {
            Ok(recs) => recs,
            Err(e) => {
                return Err(e);
            },
        };
        let ghost rv = postings_view(recs@);
        let ghost start = *self;
        for rec in it: recs
            invariant
                it.seq() == recs@,
                rv == postings_view(recs@),
                self.wf(),
                self.documents == start.documents,
                self.document_stats == start.document_stats,
                self.name == start.name,
                self.shard_count == start.shard_count,
                self.loaded_documents_shards == start.loaded_documents_shards,
                self.loaded_document_stats_shards == start.loaded_document_stats_shards,
                self.loaded_term_stats_shards == start.loaded_term_stats_shards,
                forall|t: Seq<char>|
                    #[trigger] self.postings(t) == postings_after(
                        start.postings(t),
                        rv.take(it.index() as int),
                        t,
                    ),
        {
            proof {
                let n = rv.take(it.index() + 1);
                assert(n.drop_last() =~= rv.take(it.index() as int));
                assert(n.last() == (rec.0@, rec.1.deep_view()));
            }
            self.merge_postings(rec.0, rec.1);
        }
        let ghost rows = csv_rows(payload@)->0;
        proof {
            assert(rv.take(rv.len() as int) =~= rv);
            assert(rv == postings_of(rows));
        }
        let ghost pre = *self;
        self.loaded_term_stats_shards.push(k);
        proof {
            lemma_push_contains(start.loaded_term_stats_shards@, k);
            assert forall|t: Seq<char>|
                #[trigger] self.postings(t) == postings_after(start.postings(t), postings_of(rows), t) by {
                assert(pre.postings(t) == postings_after(start.postings(t), rv.take(rv.len() as int), t));
            }
        }
        Ok(())
    }
}

impl Index {
    /// Ingests the document-stats payload of shard `k`, unless that shard is already in.
    /// Each record sets the counts of its document, the last count of a token winning;
    /// a payload that does not decode leaves the store as it was.
    pub fn load_document_stats(&mut self, k: u32, payload: &str) -> (r: Result<(), IndexError>)
        requires
            old(self).wf(),
        ensures
            final(self).wf(),
            document_stats_outcome(old(self), final(self), k, payload@, r),
    {
        if self.is_shard_loaded(Category::DocumentStats, k) {
            return Ok(());
        }
        let rows = match payload_rows(payload) {
            Ok(rows) => rows,
            Err(e) => {
                return Err(e);
            },
        };
        let recs = match decode_document_stats(&rows) {
            Ok(recs) => recs,
            Err(e) => {
                return Err(e);
            },
        };
        let ghost rv = stat_rows_view(recs@);
        let ghost start = *self;
        for rec in it: recs
            invariant
                it.seq() == recs@,
                rv == stat_rows_view(recs@),
                self.wf(),
                self.documents == start.documents,
                self.term_stats == start.term_stats,
                self.name == start.name,
                self.shard_count == start.shard_count,
                self.loaded_documents_shards == start.loaded_documents_shards,
                self.loaded_document_stats_shards == start.loaded_document_stats_shards,
                self.loaded_term_stats_shards == start.loaded_term_stats_shards,
                forall|d: Seq<char>|
                    #[trigger] self.has_document_stat(d) == (start.has_document_stat(d)
                        || has_record_for(rv.take(it.index() as int), d)),
                forall|d: Seq<char>, t: Seq<char>|
                    #[trigger] self.term_count(d, t) == count_after(
                        start.term_count(d, t),
                        rv.take(it.index() as int),
                        d,
                        t,
                    ),
        {
            let ghost prev = rv.take(it.index() as int);
            let ghost next = rv.take(it.index() + 1);
            proof {
                assert(next.drop_last() =~= prev);
                assert(next.last() == (rec.0@, counts_view(rec.1@)));
                assert forall|d: Seq<char>| has_record_for(next, d) == (has_record_for(prev, d)
                    || d == rec.0@) by {
                    if has_record_for(prev, d) {
                        let i = choose|i: int| 0 <= i < prev.len() && #[trigger] prev[i].0 == d;
                        assert(next[i].0 == d);
                    }
                    if d == rec.0@ {
                        assert(next[prev.len() as int].0 == d);
                    }
                }
            }
            self.merge_stat_row(rec.0, rec.1);
        }
        let ghost rows_v = csv_rows(payload@)->0;
        proof {
            assert(rv.take(rv.len() as int) =~= rv);
        }
        let ghost pre = *self;
        self.loaded_document_stats_shards.push(k);
        proof {
            lemma_push_contains(start.loaded_document_stats_shards@, k);
            assert forall|d: Seq<char>|
                #[trigger] self.has_document_stat(d) == (start.has_document_stat(d)
                    || has_record_for(rv, d)) by {
                assert(pre.has_document_stat(d) == (start.has_document_stat(d) || has_record_for(
                    rv.take(rv.len() as int),
                    d,
                )));
            }
            assert forall|d: Seq<char>, t: Seq<char>|
                #[trigger] self.term_count(d, t) == count_after(start.term_count(d, t), rv, d, t) by {
                assert(pre.term_count(d, t) == count_after(
                    start.term_count(d, t),
                    rv.take(rv.len() as int),
                    d,
                    t,
                ));
            }
        }
        Ok(())
    }

    /// Ingests the documents payload of shard `k`, unless that shard is already in.
    /// A document replaces one with the same id; a payload that does not decode leaves
    /// the store as it was.
    pub fn load_documents(&mut self, k: u32, payload: &str) -> (r: Result<(), IndexError>)
        requires
            old(self).wf(),
        ensures
            final(self).wf(),
            documents_outcome(old(self), final(self), k, payload@, r),
    {
        if self.is_shard_loaded(Category::Documents, k) {
            return Ok(());
        }
        let rows = match payload_rows(payload) {
            Ok(rows) => rows,
            Err(e) => {
                return Err(e);
            },
        };
        let docs = match decode_documents(&rows) {
            Ok(docs) => docs,
            Err(e) => {
                return Err(e);
            },
        };
        let ghost dv = docs@;
        let ghost rv = rows.deep_view();
        let ghost start = *self;
        for doc in it: docs
            invariant
                it.seq() == dv,
                forall|i: int| 0 <= i < dv.len() ==> #[trigger] dv[i].0@ == rv[i + 1][0],
                self.wf(),
                self.document_stats == start.document_stats,
                self.term_stats == start.term_stats,
                self.name == start.name,
                self.shard_count == start.shard_count,
                self.loaded_documents_shards == start.loaded_documents_shards,
                self.loaded_document_stats_shards == start.loaded_document_stats_shards,
                self.loaded_term_stats_shards == start.loaded_term_stats_shards,
                forall|d: Seq<char>|
                    #[trigger] self.document(d) is Some == (start.document(d) is Some || exists|
                        i: int,
                    | 0 <= i < it.index() && #[trigger] dv[i].0@ == d),
                forall|d: Seq<char>|
                    (forall|i: int| 0 <= i < it.index() ==> #[trigger] dv[i].0@ != d)
                        ==> #[trigger] self.document(d) == start.document(d),
                forall|i: int| 0 <= i < dv.len() ==> is_row_document(#[trigger] dv[i].1, rv, i + 1),
                forall|d: Seq<char>|
                    #[trigger] has_id(dv, it.index() as int, d) ==> exists|i: int|
                        #[trigger] is_latest(dv, it.index() as int, d, i) && self.document(d)
                            == Some(dv[i].1),
        {
            let ghost idx = it.index() as int;
            proof {
                assert(dv[idx] == doc);
            }
            let ghost before = *self;
            self.merge_document(doc.0, doc.1);
            proof {
                assert forall|d: Seq<char>|
                    #[trigger] self.document(d) is Some == (start.document(d) is Some || exists|
                        i: int,
                    | 0 <= i < idx + 1 && #[trigger] dv[i].0@ == d) by {
                    if d == dv[idx].0@ {
                        assert(dv[idx].0@ == d);
                    }
                }
                assert forall|d: Seq<char>| #[trigger] has_id(dv, idx + 1, d) implies exists|i: int|
                    #[trigger] is_latest(dv, idx + 1, d, i) && self.document(d) == Some(dv[i].1) by {
                    if d == dv[idx].0@ {
                        assert(is_latest(dv, idx + 1, d, idx));
                    } else {
                        let i = choose|i: int| 0 <= i < idx + 1 && #[trigger] dv[i].0@ == d;
                        assert(i < idx);
                        assert(has_id(dv, idx, d));
                        let w = choose|w: int|
                            #[trigger] is_latest(dv, idx, d, w) && before.document(d) == Some(dv[w].1);
                        assert(is_latest(dv, idx + 1, d, w));
                        assert(self.document(d) == before.document(d));
                    }
                }
            }
        }
        let ghost pre = *self;
        self.loaded_documents_shards.push(k);
        proof {
            lemma_push_contains(start.loaded_documents_shards@, k);
            assert(dv.len() == rv.len() - 1 || rv.len() == 0);
            assert forall|d: Seq<char>|
                #[trigger] self.document(d) is Some == (start.document(d) is Some
                    || has_document_row(rv, d)) by {
                assert(pre.document(d) == self.document(d));
                if has_document_row(rv, d) {
                    let i = choose|i: int| 1 <= i < rv.len() && #[trigger] rv[i][0] == d;
                    assert(dv[i - 1].0@ == d);
                }
                if exists|i: int| 0 <= i < dv.len() && #[trigger] dv[i].0@ == d {
                    let i = choose|i: int| 0 <= i < dv.len() && #[trigger] dv[i].0@ == d;
                    assert(rv[i + 1][0] == d);
                }
            }
            assert forall|d: Seq<char>| has_document_row(rv, d) implies exists|i: int|
                #[trigger] is_last_row_for(rv, d, i) && is_row_document(self.document(d)->0, rv, i) by {
                let i = choose|i: int| 1 <= i < rv.len() && #[trigger] rv[i][0] == d;
                assert(dv[i - 1].0@ == d);
                assert(has_id(dv, dv.len() as int, d));
                let w = choose|w: int|
                    #[trigger] is_latest(dv, dv.len() as int, d, w) && pre.document(d) == Some(dv[w].1);
                assert(pre.document(d) == self.document(d));
                assert forall|j: int| w + 1 < j < rv.len() implies #[trigger] rv[j][0] != d by {
                    assert(dv[j - 1].0@ == rv[j][0]);
                }
                assert(is_last_row_for(rv, d, w + 1));
                assert(is_row_document(dv[w].1, rv, w + 1));
            }
            assert forall|d: Seq<char>|
                !has_document_row(rv, d) implies #[trigger] self.document(d) == start.document(
                    d,
                ) by {
                assert(pre.document(d) == self.document(d));
                assert forall|i: int| 0 <= i < dv.len() implies #[trigger] dv[i].0@ != d by {
                    assert(rv[i + 1][0] == dv[i].0@);
                }
            }
        }
        Ok(())
    }

    /// Ingests the payload of shard `k` of `category`, unless that shard is already in.
    pub fn ingest(&mut self, category: Category, k: u32, payload: &str) -> (r: Result<
        (),
        IndexError,
    >)
        requires
            old(self).wf(),
        ensures
            final(self).wf(),
            old(self).is_loaded(category, k) ==> r is Ok && *final(self) == *old(self),
            r is Err ==> r->Err_0 == IndexError::ShardDecodeFailed && *final(self) == *old(self),
            r is Ok ==> final(self).is_loaded(category, k),
            r is Ok && !old(self).is_loaded(category, k) ==> marked(
                old(self),
                final(self),
                category,
                k,
            ),
            category == Category::TermStats ==> term_stats_outcome(old(self), final(self), k, payload@, r),
            category == Category::DocumentStats ==> document_stats_outcome(
                old(self),
                final(self),
                k,
                payload@,
                r,
            ),
            category == Category::Documents ==> documents_outcome(old(self), final(self), k, payload@, r),
            category != Category::Documents ==> same_documents(old(self), final(self)),
            category != Category::DocumentStats ==> same_document_stats(old(self), final(self)),
            category != Category::TermStats ==> same_term_stats(old(self), final(self)),
    {
        match category {
            Category::Documents => self.load_documents(k, payload),
            Category::DocumentStats => self.load_document_stats(k, payload),
            Category::TermStats => self.load_term_stats(k, payload),
        }
    }
}

impl Index {
    /// The posting list of `t`, if it is loaded; `locate` says which shard to ingest
    /// first.
    pub fn fetch_term_stat(&self, t: &str) -> (r: Option<&TermStat>)
        ensures
            match r {
                Some(s) => self.postings(t@) == Some(s.ids()),
                None => self.postings(t@) is None,
            },
    {
        match find_key(&self.term_stats, t) {
            Some(i) => Some(&self.term_stats[i].1),
            None => None,
        }
    }

    /// The document with id `d`, if it is loaded; `locate` says which shard to ingest
    /// first.
    pub fn fetch_document(&self, d: &str) -> (r: Option<&serde_json::Value>)
        ensures
            match r {
                Some(v) => self.document(d@) == Some(*v),
                None => self.document(d@) is None,
            },
    {
        match find_key(&self.documents, d) {
            Some(i) => Some(&self.documents[i].1),
            None => None,
        }
    }

    /// Whether a document-stat entry for `d` is loaded.
    pub fn has_document_stat_for(&self, d: &str) -> (r: bool)
        ensures
            r == self.has_document_stat(d@),
    {
        find_key(&self.document_stats, d).is_some()
    }

    /// The count of `t` in document `d`, or zero where none is loaded.
    pub fn term_frequency(&self, d: &str, t: &str) -> (r: u64)
        ensures
            r == match self.term_count(d@, t@) {
                Some(c) => c,
                None => 0,
            },
    {
        match find_key(&self.document_stats, d) {
            Some(i) => match find_key(&self.document_stats[i].1.term_frequency, t) {
                Some(j) => self.document_stats[i].1.term_frequency[j].1,
                None => 0,
            },
            None => 0,
        }
    }

    /// How many documents have a loaded document-stat entry.
    pub fn count_document_stats(&self) -> (r: usize)
        ensures
            r == self.document_stat_count(),
    {
        self.document_stats.len()
    }
}

/// Where an entry is to be found.
pub enum Lookup {
    /// Ingest this shard first, then look again.
    Fetch(Category, u32),
    /// The shard that holds the entry is in: the entry is loaded, or does not exist.
    Ready,
}

impl Index {
    /// The step before reading the entry of `id` in `category`: refused on an index with
    /// no shards; otherwise the shard that the router names for `id`, unless it is in.
    pub fn locate(&self, category: Category, id: &str) -> (r: Result<Lookup, IndexError>)
        ensures
            self.spec_shard_count() == 0 ==> r matches Err(IndexError::EmptyIndex),
            self.spec_shard_count() != 0 ==> {
                let k = route(id@, self.spec_shard_count());
                if self.is_loaded(category, k) {
                    r matches Ok(Lookup::Ready)
                } else {
                    r matches Ok(Lookup::Fetch(c, j)) && c == category && j == k
                }
            },
    {
        if self.shard_count == 0 {
            return Err(IndexError::EmptyIndex);
        }
        let k = calculate_shard_id(id, self.shard_count);
        if self.is_shard_loaded(category, k) {
            Ok(Lookup::Ready)
        } else {
            Ok(Lookup::Fetch(category, k))
        }
    }
}

} // verus!
