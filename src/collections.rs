use vstd::prelude::*;

verus! {

/// The character sequences held by a sequence of strings.
pub open spec fn string_views(v: Seq<String>) -> Seq<Seq<char>> {
    v.map_values(|s: String| s@)
}

/// The character sequences of a batch of tokens.
pub open spec fn token_views(v: Seq<&str>) -> Seq<Seq<char>> {
    v.map_values(|s: &str| s@)
}

/// The vocabulary `keys` after scanning `batch` in order: each token that is
/// not yet present is appended.
pub open spec fn extended(keys: Seq<Seq<char>>, batch: Seq<Seq<char>>) -> Seq<Seq<char>>
    decreases batch.len(),
{
    if batch.len() == 0 {
        keys
    } else {
        let prev = extended(keys, batch.drop_last());
        if prev.contains(batch.last()) {
            prev
        } else {
            prev.push(batch.last())
        }
    }
}

/// The id of `token` in a vocabulary: its position plus one, or 0 when absent.
pub open spec fn id_of(keys: Seq<Seq<char>>, token: Seq<char>) -> nat {
    if keys.contains(token) {
        (keys.index_of(token) + 1) as nat
    } else {
        0
    }
}

/// In a sequence without duplicates, an element's position is its index.
pub proof fn lemma_index_of_distinct(s: Seq<Seq<char>>, i: int)
    requires
        s.no_duplicates(),
        0 <= i < s.len(),
    ensures
        s.contains(s[i]),
        s.index_of(s[i]) == i,
{
    assert(s.contains(s[i]));
}

/// Scanning a batch only appends: the old vocabulary is a prefix of the new
/// one, the new one has no duplicates where the old had none, and it holds
/// exactly the old keys and the batch's tokens.
pub proof fn lemma_extended(keys: Seq<Seq<char>>, batch: Seq<Seq<char>>)
    ensures
        keys.is_prefix_of(extended(keys, batch)),
        keys.no_duplicates() ==> extended(keys, batch).no_duplicates(),
        forall|t: Seq<char>|
            #[trigger] extended(keys, batch).contains(t) <==> (keys.contains(t) || batch.contains(t)),
    decreases batch.len(),
{
    if batch.len() > 0 {
        let prev = extended(keys, batch.drop_last());
        lemma_extended(keys, batch.drop_last());
        assert forall|t: Seq<char>| #[trigger] batch.contains(t)
            <==> (batch.drop_last().contains(t) || t == batch.last()) by {
            if batch.contains(t) {
                let k = choose|k: int| 0 <= k < batch.len() && batch[k] == t;
                if k < batch.len() - 1 {
                    assert(batch.drop_last()[k] == t);
                }
            }
            if t == batch.last() {
                assert(batch[batch.len() - 1] == t);
            }
            if batch.drop_last().contains(t) {
                let k = choose|k: int| 0 <= k < batch.len() - 1 && batch.drop_last()[k] == t;
                assert(batch[k] == t);
            }
        }
        if !prev.contains(batch.last()) {
            let next = prev.push(batch.last());
            assert forall|t: Seq<char>| #[trigger] next.contains(t) <==> (prev.contains(t) || t
                == batch.last()) by {
                if next.contains(t) {
                    let k = choose|k: int| 0 <= k < next.len() && next[k] == t;
                    if k < prev.len() {
                        assert(prev[k] == t);
                    }
                }
                if prev.contains(t) {
                    let k = choose|k: int| 0 <= k < prev.len() && prev[k] == t;
                    assert(next[k] == t);
                }
                if t == batch.last() {
                    assert(next[prev.len() as int] == t);
                }
            }
        }
    }
}

/// Scanning part of a batch gives a prefix of the vocabulary that scanning
/// all of it gives.
pub proof fn lemma_extended_take(keys: Seq<Seq<char>>, batch: Seq<Seq<char>>, i: int)
    requires
        0 <= i <= batch.len(),
    ensures
        extended(keys, batch.take(i)).len() <= extended(keys, batch).len(),
        forall|m: int|
            0 <= m < extended(keys, batch.take(i)).len() ==> #[trigger] extended(
                keys,
                batch.take(i),
            )[m] == extended(keys, batch)[m],
    decreases batch.len(),
{
    if i == batch.len() {
        assert(batch.take(i) =~= batch);
    } else {
        assert(batch.drop_last().take(i) =~= batch.take(i));
        lemma_extended_take(keys, batch.drop_last(), i);
    }
}

/// Scanning a batch adds at most one id per token, so an index stays within
/// `u32` ids while its size plus the tokens fed to it do.
pub proof fn lemma_extended_len(keys: Seq<Seq<char>>, batch: Seq<Seq<char>>)
    ensures
        keys.len() <= extended(keys, batch).len() <= keys.len() + batch.len(),
    decreases batch.len(),
{
    if batch.len() > 0 {
        lemma_extended_len(keys, batch.drop_last());
    }
}

/// Ids follow first appearance. Every id from 1 to the size is given, to the
/// token at that position; ids already given stay as they were; a token new
/// to the index gets a larger id than every token seen before it in the
/// batch; and a batch of tokens already present changes nothing, size
/// included.
pub proof fn lemma_ids_follow_first_appearance(keys: Seq<Seq<char>>, batch: Seq<Seq<char>>)
    requires
        keys.no_duplicates(),
    ensures
        forall|k: int|
            0 <= k < extended(keys, batch).len() ==> #[trigger] id_of(
                extended(keys, batch),
                extended(keys, batch)[k],
            ) == k + 1,
        forall|t: Seq<char>| #[trigger] keys.contains(t) ==> id_of(extended(keys, batch), t) == id_of(keys, t),
        forall|i: int, j: int|
            0 <= i < j < batch.len() && !keys.contains(batch[j]) && !batch.take(j).contains(batch[j])
                ==> #[trigger] id_of(extended(keys, batch), batch[i]) < #[trigger] id_of(
                extended(keys, batch),
                batch[j],
            ),
        (forall|t: Seq<char>| #[trigger] batch.contains(t) ==> keys.contains(t)) ==> extended(keys, batch)
            == keys,
{
    let e = extended(keys, batch);
    lemma_extended(keys, batch);
    assert forall|k: int| 0 <= k < e.len() implies #[trigger] id_of(e, e[k]) == k + 1 by {
        lemma_index_of_distinct(e, k);
    }
    assert forall|t: Seq<char>| #[trigger] keys.contains(t) implies id_of(e, t) == id_of(keys, t) by {
        let m = keys.index_of(t);
        lemma_index_of_distinct(keys, m);
        assert(e[m] == keys[m]);
        lemma_index_of_distinct(e, m);
    }
    assert forall|i: int, j: int|
        0 <= i < j < batch.len() && !keys.contains(batch[j]) && !batch.take(j).contains(
            batch[j],
        ) implies #[trigger] id_of(e, batch[i]) < #[trigger] id_of(e, batch[j]) by {
        let p = extended(keys, batch.take(j));
        lemma_extended(keys, batch.take(j));
        lemma_extended_take(keys, batch, j + 1);
        assert(batch.take(j + 1).drop_last() =~= batch.take(j));
        assert(batch.take(j + 1).last() == batch[j]);
        let q = extended(keys, batch.take(j + 1));
        assert(q == p.push(batch[j]));
        assert(batch.take(j)[i] == batch[i]);
        assert(batch.take(j).contains(batch[i]));
        assert(p.contains(batch[i]));
        let m = choose|m: int| 0 <= m < p.len() && p[m] == batch[i];
        assert(q[m] == p[m]);
        assert(e[m] == batch[i]);
        assert(q[p.len() as int] == batch[j]);
        assert(e[p.len() as int] == batch[j]);
        lemma_index_of_distinct(e, m);
        lemma_index_of_distinct(e, p.len() as int);
    }
    if forall|t: Seq<char>| #[trigger] batch.contains(t) ==> keys.contains(t) {
        lemma_extended_already_present(keys, batch);
    }
}

/// Scanning tokens that are all present already leaves the vocabulary as it was.
proof fn lemma_extended_already_present(keys: Seq<Seq<char>>, batch: Seq<Seq<char>>)
    requires
        forall|t: Seq<char>| #[trigger] batch.contains(t) ==> keys.contains(t),
    ensures
        extended(keys, batch) == keys,
    decreases batch.len(),
{
    if batch.len() > 0 {
        let prev = batch.drop_last();
        assert forall|t: Seq<char>| #[trigger] prev.contains(t) implies keys.contains(t) by {
            let k = choose|k: int| 0 <= k < prev.len() && prev[k] == t;
            assert(batch[k] == t);
            assert(batch.contains(t));
        }
        lemma_extended_already_present(keys, prev);
        assert(batch.contains(batch[batch.len() - 1]));
    }
}

/// A token never presented to an index has id 0.
pub proof fn lemma_unseen_token(keys: Seq<Seq<char>>, batch: Seq<Seq<char>>, t: Seq<char>)
    requires
        !keys.contains(t),
        !batch.contains(t),
    ensures
        id_of(extended(keys, batch), t) == 0,
{
    lemma_extended(keys, batch);
}

/// A vocabulary index: each distinct token has a positive id, given in the
/// order in which tokens were first seen. The token with id `i` is held at
/// position `i - 1`.
#[derive(Debug)]
pub struct Dictionary {
    keys: Vec<String>,
}

impl View for Dictionary {
    type V = Seq<Seq<char>>;

    /// The tokens in id order.
    closed spec fn view(&self) -> Seq<Seq<char>> {
        string_views(self.keys@)
    }
}

impl Dictionary {
    /// Tokens are distinct and every id fits in a `u32`.
    pub open spec fn wf(&self) -> bool {
        &&& self@.no_duplicates()
        &&& self@.len() <= u32::MAX
    }

    /// An empty index.
    pub fn new() -> (r: Self)
        ensures
            r.wf(),
            r@ == Seq::<Seq<char>>::empty(),
    {
        let r = Dictionary { keys: Vec::new() };
        assert(r@ =~= Seq::<Seq<char>>::empty());
        r
    }

    /// The id of `token`, or 0 when it was never seen.
    pub fn get(&self, token: &str) -> (r: u32)
        requires
            self.wf(),
        ensures
            r == id_of(self@, token@),
    {
        let wanted = token.to_owned();
        let mut j: usize = 0;
        while j < self.keys.len()
            invariant
                self.wf(),
                wanted@ == token@,
                j <= self.keys.len(),
                forall|k: int| 0 <= k < j ==> self@[k] != token@,
            decreases self.keys.len() - j,
        {
            if self.keys[j] == wanted {
                proof {
                    lemma_index_of_distinct(self@, j as int);
                }
                return (j + 1) as u32;
            }
            j = j + 1;
        }
        0
    }

    /// An index seeded from `tokens`: ids 1, 2, ... in order of first appearance.
    pub fn from_iter(tokens: &[&str]) -> (r: Self)
        requires
            extended(Seq::empty(), token_views(tokens@)).len() <= u32::MAX,
        ensures
            r.wf(),
            r@ == extended(Seq::empty(), token_views(tokens@)),
    {
        let mut r = Dictionary::new();
        r.extend(tokens);
        r
    }

    /// Scans `tokens` in order and gives each token not yet present the next
    /// unused id. Ids already given never change.
    pub fn extend(&mut self, tokens: &[&str])
        requires
            old(self).wf(),
            extended(old(self)@, token_views(tokens@)).len() <= u32::MAX,
        ensures
            final(self).wf(),
            final(self)@ == extended(old(self)@, token_views(tokens@)),
    {
        let ghost start = self@;
        let ghost batch = token_views(tokens@);
        let mut i: usize = 0;
        while i < tokens.len()
            invariant
                i <= tokens.len(),
                batch == token_views(tokens@),
                extended(start, batch).len() <= u32::MAX,
                self.wf(),
                self@ == extended(start, batch.take(i as int)),
            decreases tokens.len() - i,
        {
            let token = tokens[i];
            proof {
                assert(batch.take(i + 1).drop_last() =~= batch.take(i as int));
                assert(batch.take(i + 1).last() == token@);
                lemma_extended_take(start, batch, i + 1);
            }
            if self.get(token) == 0 {
                let ghost prev = self@;
                self.keys.push(token.to_owned());
                proof {
                    assert(self@ =~= prev.push(token@));
                    assert forall|a: int, b: int| 0 <= a < b < self@.len() implies self@[a]
                        != self@[b] by {
                        if b == prev.len() {
                            assert(prev[a] == self@[a]);
                        }
                    }
                }
            } else {
                proof {
                    assert(self@.contains(token@));
                }
            }
            i = i + 1;
        }
        proof {
            assert(batch.take(tokens.len() as int) =~= batch);
        }
    }

    /// The tokens in id order: the token with id `i` stands at position `i - 1`.
    pub fn keys(&self) -> (r: Vec<String>)
        ensures
            string_views(r@) == self@,
    {
        let mut r: Vec<String> = Vec::new();
        let mut j: usize = 0;
        while j < self.keys.len()
            invariant
                j <= self.keys.len(),
                string_views(r@) =~= self@.take(j as int),
            decreases self.keys.len() - j,
        {
            let ghost before = r@;
            r.push(self.keys[j].clone());
            proof {
                assert(string_views(r@) =~= string_views(before).push(self@[j as int]));
                assert(self@.take(j + 1) =~= self@.take(j as int).push(self@[j as int]));
            }
            j = j + 1;
        }
        assert(self@.take(j as int) =~= self@);
        r
    }

    /// The number of distinct tokens seen.
    pub fn size(&self) -> (r: usize)
        ensures
            r == self@.len(),
    {
        self.keys.len()
    }
}

} // verus!

verus! {

/// The number of times `token` occurs in `tokens`.
pub open spec fn occurrences(tokens: Seq<Seq<char>>, token: Seq<char>) -> nat
    decreases tokens.len(),
{
    if tokens.len() == 0 {
        0
    } else {
        occurrences(tokens.drop_last(), token) + if tokens.last() == token {
            1nat
        } else {
            0nat
        }
    }
}

/// A prefix holds no more occurrences than the whole.
pub proof fn lemma_occurrences_take(tokens: Seq<Seq<char>>, token: Seq<char>, i: int)
    requires
        0 <= i <= tokens.len(),
    ensures
        occurrences(tokens.take(i), token) <= occurrences(tokens, token),
    decreases tokens.len(),
{
    if i == tokens.len() {
        assert(tokens.take(i) =~= tokens);
    } else {
        assert(tokens.drop_last().take(i) =~= tokens.take(i));
        lemma_occurrences_take(tokens.drop_last(), token, i);
    }
}

/// A token occurs in a sequence exactly when the sequence contains it.
pub proof fn lemma_occurrences_contains(tokens: Seq<Seq<char>>, token: Seq<char>)
    ensures
        occurrences(tokens, token) > 0 <==> tokens.contains(token),
    decreases tokens.len(),
{
    if tokens.len() > 0 {
        let prev = tokens.drop_last();
        lemma_occurrences_contains(prev, token);
        if prev.contains(token) {
            let k = choose|k: int| 0 <= k < prev.len() && prev[k] == token;
            assert(tokens[k] == token);
        }
        if tokens.contains(token) {
            let k = choose|k: int| 0 <= k < tokens.len() && tokens[k] == token;
            if k < prev.len() {
                assert(prev[k] == token);
            }
        }
    }
}

/// No token occurs more often than the sequence is long.
pub proof fn lemma_occurrences_len(tokens: Seq<Seq<char>>, token: Seq<char>)
    ensures
        occurrences(tokens, token) <= tokens.len(),
    decreases tokens.len(),
{
    if tokens.len() > 0 {
        lemma_occurrences_len(tokens.drop_last(), token);
    }
}

/// The count of a token is its multiplicity in the multiset of the tokens.
pub proof fn lemma_occurrences_multiset(tokens: Seq<Seq<char>>, token: Seq<char>)
    ensures
        occurrences(tokens, token) == tokens.to_multiset().count(token),
    decreases tokens.len(),
{
    if tokens.len() == 0 {
        assert(tokens.to_multiset().count(token) == 0) by {
            tokens.to_multiset_ensures();
        }
    } else {
        let prev = tokens.drop_last();
        lemma_occurrences_multiset(prev, token);
        prev.to_multiset_ensures();
        assert(prev.push(tokens.last()) =~= tokens);
    }
}

/// Feeding two batches one after the other counts what feeding them joined
/// would count.
pub proof fn lemma_occurrences_concat(a: Seq<Seq<char>>, b: Seq<Seq<char>>, token: Seq<char>)
    ensures
        occurrences(a + b, token) == occurrences(a, token) + occurrences(b, token),
    decreases b.len(),
{
    if b.len() == 0 {
        assert(a + b =~= a);
    } else {
        assert((a + b).drop_last() =~= a + b.drop_last());
        lemma_occurrences_concat(a, b.drop_last(), token);
    }
}

/// Occurrence counts of the tokens of one document, possibly fed in several
/// batches.
#[derive(Debug)]
pub struct FrequencyDistribution {
    keys: Vec<String>,
    counts: Vec<u32>,
}

impl FrequencyDistribution {
    /// Each counted token is held once, beside its count.
    pub closed spec fn wf(&self) -> bool {
        &&& self.keys.len() == self.counts.len()
        &&& string_views(self.keys@).no_duplicates()
    }

    /// How many times `token` was fed: 0 for a token never seen.
    pub closed spec fn count(&self, token: Seq<char>) -> nat {
        let ks = string_views(self.keys@);
        if ks.contains(token) {
            self.counts@[ks.index_of(token)] as nat
        } else {
            0
        }
    }

    /// An empty distribution.
    pub fn new() -> (r: Self)
        ensures
            r.wf(),
            forall|t: Seq<char>| #[trigger] r.count(t) == 0,
    {
        let r = FrequencyDistribution { keys: Vec::new(), counts: Vec::new() };
        assert(string_views(r.keys@) =~= Seq::<Seq<char>>::empty());
        r
    }

    /// A distribution with the counts of `tokens`.
    pub fn from_iter(tokens: &[&str]) -> (r: Self)
        requires
            forall|t: Seq<char>| #[trigger] occurrences(token_views(tokens@), t) <= u32::MAX,
        ensures
            r.wf(),
            forall|t: Seq<char>| #[trigger] r.count(t) == occurrences(token_views(tokens@), t),
    {
        let mut r = FrequencyDistribution::new();
        r.extend(tokens);
        r
    }

    /// Where `token` is held, if it was counted.
    fn position(&self, token: &String) -> (r: Option<usize>)
        requires
            self.wf(),
        ensures
            match r {
                Some(p) => p < self.keys.len() && string_views(self.keys@)[p as int] == token@,
                None => !string_views(self.keys@).contains(token@),
            },
    {
        let mut j: usize = 0;
        while j < self.keys.len()
            invariant
                j <= self.keys.len(),
                forall|k: int| 0 <= k < j ==> string_views(self.keys@)[k] != token@,
            decreases self.keys.len() - j,
        {
            if self.keys[j] == *token {
                return Some(j);
            }
            j = j + 1;
        }
        None
    }

    /// Adds the occurrences in `tokens` to the counts.
    pub fn extend(&mut self, tokens: &[&str])
        requires
            old(self).wf(),
            forall|t: Seq<char>|
                old(self).count(t) + #[trigger] occurrences(token_views(tokens@), t) <= u32::MAX,
        ensures
            final(self).wf(),
            forall|t: Seq<char>| #[trigger]
                final(self).count(t) == old(self).count(t) + occurrences(token_views(tokens@), t),
    {
        let ghost batch = token_views(tokens@);
        let mut i: usize = 0;
        while i < tokens.len()
            invariant
                i <= tokens.len(),
                batch == token_views(tokens@),
                forall|t: Seq<char>| old(self).count(t) + #[trigger] occurrences(batch, t) <= u32::MAX,
                self.wf(),
                forall|t: Seq<char>| #[trigger]
                    self.count(t) == old(self).count(t) + occurrences(batch.take(i as int), t),
            decreases tokens.len() - i,
        {
            let token = tokens[i].to_owned();
            let ghost prev = *self;
            proof {
                assert(batch.take(i + 1).drop_last() =~= batch.take(i as int));
                assert(batch.take(i + 1).last() == token@);
                lemma_occurrences_take(batch, token@, i + 1);
                assert(occurrences(batch.take(i + 1), token@) == occurrences(
                    batch.take(i as int),
                    token@,
                ) + 1);
            }
            match self.position(&token) {
                Some(p) => {
                    let c = self.counts[p];
                    proof {
                        lemma_index_of_distinct(string_views(self.keys@), p as int);
                        assert(self.count(token@) == c);
                        assert(old(self).count(token@) + occurrences(batch, token@) <= u32::MAX);
                    }
                    self.counts.set(p, c + 1);
                    proof {
                        assert(string_views(self.keys@) == string_views(prev.keys@));
                        assert(self.count(token@) == prev.count(token@) + 1);
                        assert forall|t: Seq<char>| t != token@ implies #[trigger] self.count(t)
                            == prev.count(t) by {
                            let ks = string_views(self.keys@);
                            if ks.contains(t) {
                                assert(ks.index_of(t) != p);
                            }
                        }
                    }
                },
                None => {
                    let ghost ks0 = string_views(self.keys@);
                    self.keys.push(token);
                    self.counts.push(1);
                    proof {
                        let ks = string_views(self.keys@);
                        assert(ks =~= ks0.push(token@));
                        assert forall|a: int, b: int| 0 <= a < b < ks.len() implies ks[a]
                            != ks[b] by {
                            if b == ks0.len() {
                                assert(ks0[a] == ks[a]);
                            }
                        }
                        lemma_index_of_distinct(ks, ks0.len() as int);
                        assert(self.count(token@) == prev.count(token@) + 1);
                        assert forall|t: Seq<char>| t != token@ implies #[trigger] self.count(t)
                            == prev.count(t) by {
                            if ks0.contains(t) {
                                let q = ks0.index_of(t);
                                assert(ks[q] == t);
                                lemma_index_of_distinct(ks, q);
                            }
                            if ks.contains(t) {
                                let k = choose|k: int| 0 <= k < ks.len() && ks[k] == t;
                                assert(ks0[k] == t);
                            }
                        }
                    }
                },
            }
            proof {
                assert forall|t: Seq<char>| #[trigger]
                    self.count(t) == old(self).count(t) + occurrences(batch.take(i + 1), t) by {
                    assert(batch.take(i + 1).drop_last() =~= batch.take(i as int));
                    assert(prev.count(t) == old(self).count(t) + occurrences(batch.take(i as int), t));
                }
            }
            i = i + 1;
        }
        proof {
            assert(batch.take(tokens.len() as int) =~= batch);
        }
    }

    /// How many times `token` was fed, or 0 when never.
    pub fn get(&self, token: &str) -> (r: u32)
        requires
            self.wf(),
        ensures
            r == self.count(token@),
    {
        let wanted = token.to_owned();
        match self.position(&wanted) {
            Some(p) => {
                proof {
                    lemma_index_of_distinct(string_views(self.keys@), p as int);
                }
                self.counts[p]
            },
            None => 0,
        }
    }
}

} // verus!
