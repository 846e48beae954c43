use crate::collections::{
    extended, lemma_extended, lemma_extended_len, lemma_index_of_distinct,
    lemma_occurrences_contains, occurrences, string_views, token_views, Dictionary,
    FrequencyDistribution,
};
use vstd::prelude::*;

verus! {

/// The token views of each document.
pub open spec fn documents_view(docs: Seq<Vec<&str>>) -> Seq<Seq<Seq<char>>> {
    docs.map_values(|d: Vec<&str>| token_views(d@))
}

/// The vocabulary of a corpus: one index extended with every document, in
/// document order.
pub open spec fn vocabulary(docs: Seq<Seq<Seq<char>>>) -> Seq<Seq<char>>
    decreases docs.len(),
{
    if docs.len() == 0 {
        Seq::empty()
    } else {
        extended(vocabulary(docs.drop_last()), docs.last())
    }
}

/// The vocabulary of a corpus has no duplicates, holds exactly the tokens
/// that occur in some document, and grows as documents are added.
pub proof fn lemma_vocabulary(docs: Seq<Seq<Seq<char>>>)
    ensures
        vocabulary(docs).no_duplicates(),
        forall|d: int, t: Seq<char>|
            0 <= d < docs.len() && #[trigger] docs[d].contains(t) ==> vocabulary(docs).contains(t),
        forall|t: Seq<char>| #[trigger]
            vocabulary(docs).contains(t) ==> exists|d: int| 0 <= d < docs.len() && docs[d].contains(t),
        forall|k: int| 0 <= k <= docs.len() ==> #[trigger] vocabulary(docs.take(k)).len()
            <= vocabulary(docs).len(),
    decreases docs.len(),
{
    if docs.len() > 0 {
        let prev = docs.drop_last();
        lemma_vocabulary(prev);
        lemma_extended(vocabulary(prev), docs.last());
        assert forall|d: int, t: Seq<char>|
            0 <= d < docs.len() && #[trigger] docs[d].contains(t) implies vocabulary(
            docs,
        ).contains(t) by {
            if d < docs.len() - 1 {
                assert(prev[d] == docs[d]);
            }
        }
        assert forall|t: Seq<char>| #[trigger] vocabulary(docs).contains(t) implies exists|d: int|
            0 <= d < docs.len() && docs[d].contains(t) by {
            if vocabulary(prev).contains(t) {
                let d = choose|d: int| 0 <= d < prev.len() && prev[d].contains(t);
                assert(docs[d] == prev[d]);
            } else {
                assert(docs[docs.len() - 1].contains(t));
            }
        }
        assert forall|k: int| 0 <= k <= docs.len() implies #[trigger] vocabulary(docs.take(k)).len()
            <= vocabulary(docs).len() by {
            if k == docs.len() {
                assert(docs.take(k) =~= docs);
            } else {
                assert(prev.take(k) =~= docs.take(k));
                assert(vocabulary(prev.take(k)).len() <= vocabulary(prev).len());
            }
        }
    }
}

/// The number of tokens in a corpus, counting repeats.
pub open spec fn corpus_len(docs: Seq<Seq<Seq<char>>>) -> nat
    decreases docs.len(),
{
    if docs.len() == 0 {
        0
    } else {
        corpus_len(docs.drop_last()) + docs.last().len()
    }
}

/// A corpus has no more distinct tokens than tokens.
pub proof fn lemma_vocabulary_len(docs: Seq<Seq<Seq<char>>>)
    ensures
        vocabulary(docs).len() <= corpus_len(docs),
    decreases docs.len(),
{
    if docs.len() > 0 {
        lemma_vocabulary_len(docs.drop_last());
        lemma_extended_len(vocabulary(docs.drop_last()), docs.last());
    }
}

/// The number of rows whose cell in column `i` is positive: the documents
/// that hold the column's token.
pub open spec fn document_frequency(rows: Seq<Vec<u32>>, i: int) -> nat
    decreases rows.len(),
{
    if rows.len() == 0 {
        0
    } else {
        document_frequency(rows.drop_last(), i) + if rows.last()@[i] > 0 {
            1nat
        } else {
            0nat
        }
    }
}

/// No column is held by more documents than there are.
pub proof fn lemma_document_frequency_bound(rows: Seq<Vec<u32>>, i: int)
    ensures
        document_frequency(rows, i) <= rows.len(),
    decreases rows.len(),
{
    if rows.len() > 0 {
        lemma_document_frequency_bound(rows.drop_last(), i);
    }
}

/// A column positive in every row has a document frequency equal to the
/// number of rows, so its smoothed inverse frequency `ln((n + 1) / (1 + df))`
/// is `ln(1) = 0` and every tf-idf weight in it is 0.
pub proof fn lemma_column_in_every_document(rows: Seq<Vec<u32>>, i: int)
    requires
        forall|d: int| 0 <= d < rows.len() ==> #[trigger] rows[d]@[i] > 0,
    ensures
        document_frequency(rows, i) == rows.len(),
        rows.len() + 1 == 1 + document_frequency(rows, i),
    decreases rows.len(),
{
    if rows.len() > 0 {
        let prev = rows.drop_last();
        assert forall|d: int| 0 <= d < prev.len() implies #[trigger] prev[d]@[i] > 0 by {
            assert(prev[d] == rows[d]);
        }
        lemma_column_in_every_document(prev, i);
        assert(rows[rows.len() - 1]@[i] > 0);
    }
}

/// A term-document matrix: one row per document, in input order, and one
/// column per vocabulary token, in id order. Cell `[d][i]` holds how many
/// times token `keys[i]` occurs in document `d`.
#[derive(Debug)]
pub struct TDM {
    pub keys: Vec<String>,
    pub values: Vec<Vec<u32>>,
}

/// A row of `n` zeros.
fn zeros(n: usize) -> (r: Vec<u32>)
    ensures
        r.len() == n,
        forall|i: int| 0 <= i < n ==> r[i] == 0,
{
    let mut r: Vec<u32> = Vec::new();
    let mut i: usize = 0;
    while i < n
        invariant
            i <= n,
            r.len() == i,
            forall|k: int| 0 <= k < i ==> r[k] == 0,
        decreases n - i,
    {
        r.push(0);
        i = i + 1;
    }
    r
}

/// The row of one document: for each vocabulary token, its count in `tokens`.
fn count_row(indexes: &Dictionary, tokens: &[&str]) -> (r: Vec<u32>)
    requires
        indexes.wf(),
        forall|t: Seq<char>| #[trigger] token_views(tokens@).contains(t) ==> indexes@.contains(t),
        forall|t: Seq<char>| #[trigger] occurrences(token_views(tokens@), t) <= u32::MAX,
    ensures
        r.len() == indexes@.len(),
        forall|i: int|
            0 <= i < r.len() ==> r[i] == occurrences(token_views(tokens@), #[trigger] indexes@[i]),
{
    let ghost tv = token_views(tokens@);
    let ghost keys = indexes@;
    let freq = FrequencyDistribution::from_iter(tokens);
    let mut row = zeros(indexes.size());
    let mut j: usize = 0;
    while j < tokens.len()
        invariant
            j <= tokens.len(),
            tv == token_views(tokens@),
            keys == indexes@,
            indexes.wf(),
            freq.wf(),
            forall|t: Seq<char>| #[trigger] freq.count(t) == occurrences(tv, t),
            forall|t: Seq<char>| #[trigger] tv.contains(t) ==> keys.contains(t),
            row.len() == keys.len(),
            forall|i: int|
                0 <= i < keys.len() ==> #[trigger] row[i] == if tv.take(j as int).contains(keys[i]) {
                    occurrences(tv, keys[i])
                } else {
                    0
                },
        decreases tokens.len() - j,
    {
        let token = tokens[j];
        proof {
            assert(tv[j as int] == token@);
            assert(tv.contains(token@));
        }
        let id = indexes.get(token);
        let count = freq.get(token);
        let ghost p = id - 1;
        proof {
            assert(keys[p] == token@);
        }
        row.set((id - 1) as usize, count);
        proof {
            let next = tv.take(j + 1);
            assert(next =~= tv.take(j as int).push(token@));
            assert forall|i: int| 0 <= i < keys.len() implies #[trigger] row[i] == if next.contains(
                keys[i],
            ) {
                occurrences(tv, keys[i])
            } else {
                0
            } by {
                if i == p {
                    assert(next[j as int] == keys[i]);
                } else {
                    assert(keys[i] != token@);
                    if next.contains(keys[i]) {
                        let k = choose|k: int| 0 <= k < next.len() && next[k] == keys[i];
                        assert(tv.take(j as int)[k] == keys[i]);
                    }
                    if tv.take(j as int).contains(keys[i]) {
                        let k = choose|k: int| 0 <= k < j && tv.take(j as int)[k] == keys[i];
                        assert(next[k] == keys[i]);
                    }
                }
            }
        }
        j = j + 1;
    }
    proof {
        assert(tv.take(j as int) =~= tv);
        assert forall|i: int| 0 <= i < row.len() implies row[i] == occurrences(
            tv,
            #[trigger] keys[i],
        ) by {
            lemma_occurrences_contains(tv, keys[i]);
        }
    }
    row
}

impl TDM {
    /// Every row has one cell per column.
    pub open spec fn wf(&self) -> bool {
        forall|d: int| 0 <= d < self.values.len() ==> #[trigger] self.values[d].len() == self.keys.len()
    }

    /// Builds the matrix of `documents`: one vocabulary over the whole corpus,
    /// scanned in document order, then each document's counts against it.
    pub fn from(documents: &Vec<Vec<&str>>) -> (r: TDM)
        requires
            vocabulary(documents_view(documents@)).len() <= u32::MAX,
            forall|d: int, t: Seq<char>|
                0 <= d < documents.len() ==> #[trigger] occurrences(
                    documents_view(documents@)[d],
                    t,
                ) <= u32::MAX,
        ensures
            r.wf(),
            string_views(r.keys@) == vocabulary(documents_view(documents@)),
            r.values.len() == documents.len(),
            forall|d: int, i: int|
                0 <= d < r.values.len() && 0 <= i < r.keys.len() ==> #[trigger] r.values[d][i]
                    == occurrences(
                    documents_view(documents@)[d],
                    vocabulary(documents_view(documents@))[i],
                ),
    {
        let ghost dv = documents_view(documents@);
        proof {
            lemma_vocabulary(dv);
        }
        let mut indexes = Dictionary::new();
        let mut d: usize = 0;
        while d < documents.len()
            invariant
                d <= documents.len(),
                dv == documents_view(documents@),
                vocabulary(dv).len() <= u32::MAX,
                forall|k: int| 0 <= k <= dv.len() ==> #[trigger] vocabulary(dv.take(k)).len()
                    <= vocabulary(dv).len(),
                indexes.wf(),
                indexes@ == vocabulary(dv.take(d as int)),
            decreases documents.len() - d,
        {
            proof {
                assert(dv.take(d + 1).drop_last() =~= dv.take(d as int));
                assert(dv.take(d + 1).last() == token_views(documents[d as int]@));
                assert(vocabulary(dv.take(d + 1)).len() <= vocabulary(dv).len());
            }
            indexes.extend(documents[d].as_slice());
            d = d + 1;
        }
        proof {
            assert(dv.take(d as int) =~= dv);
        }
        let keys = indexes.keys();
        let mut values: Vec<Vec<u32>> = Vec::new();
        let mut d: usize = 0;
        while d < documents.len()
            invariant
                d <= documents.len(),
                dv == documents_view(documents@),
                indexes.wf(),
                indexes@ == vocabulary(dv),
                forall|e: int, t: Seq<char>|
                    0 <= e < dv.len() && #[trigger] dv[e].contains(t) ==> vocabulary(dv).contains(t),
                forall|e: int, t: Seq<char>|
                    0 <= e < dv.len() ==> #[trigger] occurrences(dv[e], t) <= u32::MAX,
                values.len() == d,
                forall|e: int, i: int|
                    0 <= e < d && 0 <= i < indexes@.len() ==> #[trigger] values[e][i]
                        == occurrences(dv[e], indexes@[i]),
                forall|e: int| 0 <= e < d ==> #[trigger] values[e].len() == indexes@.len(),
            decreases documents.len() - d,
        {
            let tokens = documents[d].as_slice();
            proof {
                assert(token_views(tokens@) == dv[d as int]);
            }
            let row = count_row(&indexes, tokens);
            values.push(row);
            d = d + 1;
        }
        TDM { keys, values }
    }

    /// For each column, the number of documents whose count in it is positive.
    pub fn document_frequencies(&self) -> (r: Vec<usize>)
        requires
            self.wf(),
        ensures
            r.len() == self.keys.len(),
            forall|i: int| 0 <= i < r.len() ==> r[i] == #[trigger] document_frequency(self.values@, i),
    {
        let width = self.keys.len();
        let mut r: Vec<usize> = Vec::new();
        let mut i: usize = 0;
        while i < width
            invariant
                i <= width,
                r.len() == i,
                forall|k: int| 0 <= k < i ==> r[k] == 0,
            decreases width - i,
        {
            r.push(0);
            i = i + 1;
        }
        let mut d: usize = 0;
        while d < self.values.len()
            invariant
                self.wf(),
                width == self.keys.len(),
                d <= self.values.len(),
                r.len() == width,
                forall|k: int|
                    0 <= k < width ==> r[k] == #[trigger] document_frequency(
                        self.values@.take(d as int),
                        k,
                    ),
            decreases self.values.len() - d,
        {
            let row = &self.values[d];
            proof {
                assert(self.values@.take(d + 1).drop_last() =~= self.values@.take(d as int));
                assert(self.values@.take(d + 1).last() == *row);
            }
            let mut c: usize = 0;
            while c < width
                invariant
                    self.wf(),
                    width == self.keys.len(),
                    d < self.values.len(),
                    *row == self.values@[d as int],
                    row.len() == width,
                    c <= width,
                    r.len() == width,
                    forall|k: int|
                        0 <= k < c ==> r[k] == #[trigger] document_frequency(
                            self.values@.take(d + 1),
                            k,
                        ),
                    forall|k: int|
                        c <= k < width ==> r[k] == #[trigger] document_frequency(
                            self.values@.take(d as int),
                            k,
                        ),
                decreases width - c,
            {
                proof {
                    assert(self.values@.take(d + 1).drop_last() =~= self.values@.take(d as int));
                    lemma_document_frequency_bound(self.values@.take(d as int), c as int);
                }
                if row[c] > 0 {
                    let v = r[c];
                    r.set(c, v + 1);
                }
                c = c + 1;
            }
            d = d + 1;
        }
        proof {
            assert(self.values@.take(d as int) =~= self.values@);
        }
        r
    }
}

} // verus!
