use vstd::string::StrSliceExecFns;
use crate::collections::{
    extended, id_of, lemma_extended, lemma_index_of_distinct, token_views, Dictionary,
};
use vstd::prelude::*;

verus! {

/// The vocabulary that a fresh index builds from `tokens`.
pub open spec fn own_vocabulary(tokens: Seq<&str>) -> Seq<Seq<char>> {
    extended(Seq::empty(), token_views(tokens))
}

/// Every token of a batch has an id between 1 and the size of the index
/// built from it, and that size is itself the id of some token.
pub proof fn lemma_own_ids(tokens: Seq<&str>)
    ensures
        own_vocabulary(tokens).no_duplicates(),
        forall|k: int|
            0 <= k < tokens.len() ==> 1 <= #[trigger] id_of(own_vocabulary(tokens), tokens[k]@)
                <= own_vocabulary(tokens).len(),
        own_vocabulary(tokens).len() > 0 ==> exists|k: int|
            0 <= k < tokens.len() && #[trigger] id_of(own_vocabulary(tokens), tokens[k]@)
                == own_vocabulary(tokens).len(),
{
    let tv = token_views(tokens);
    let vocab = own_vocabulary(tokens);
    lemma_extended(Seq::empty(), tv);
    assert(Seq::<Seq<char>>::empty().no_duplicates());
    assert forall|k: int| 0 <= k < tokens.len() implies 1 <= #[trigger] id_of(vocab, tokens[k]@)
        <= vocab.len() by {
        assert(tv[k] == tokens[k]@);
        assert(tv.contains(tokens[k]@));
    }
    if vocab.len() > 0 {
        let last = vocab[vocab.len() - 1];
        assert(vocab.contains(last));
        assert(!Seq::<Seq<char>>::empty().contains(last));
        let k = choose|k: int| 0 <= k < tv.len() && tv[k] == last;
        lemma_index_of_distinct(vocab, vocab.len() - 1);
        assert(tokens[k]@ == last);
        assert(id_of(vocab, tokens[k]@) == vocab.len());
    }
}

/// The id of each token under an index built from `tokens` itself, in input
/// order, duplicates kept.
pub fn encode_int(tokens: Vec<&str>) -> (r: Vec<u32>)
    requires
        own_vocabulary(tokens@).len() <= u32::MAX,
    ensures
        r.len() == tokens.len(),
        forall|k: int|
            0 <= k < r.len() ==> r[k] == #[trigger] id_of(own_vocabulary(tokens@), tokens@[k]@),
{
    let indexes = Dictionary::from_iter(tokens.as_slice());
    let mut r: Vec<u32> = Vec::new();
    let mut k: usize = 0;
    while k < tokens.len()
        invariant
            k <= tokens.len(),
            indexes.wf(),
            indexes@ == own_vocabulary(tokens@),
            r.len() == k,
            forall|j: int|
                0 <= j < k ==> r[j] == #[trigger] id_of(own_vocabulary(tokens@), tokens@[j]@),
        decreases tokens.len() - k,
    {
        r.push(indexes.get(tokens[k]));
        k = k + 1;
    }
    r
}

/// One vector per token, in input order, of width one more than the largest
/// id (the number of distinct tokens), with a single 1 at the token's id.
/// An empty batch gives no vectors.
pub fn encode_one_hot(tokens: Vec<&str>) -> (r: Vec<Vec<u32>>)
    requires
        own_vocabulary(tokens@).len() < u32::MAX,
    ensures
        r.len() == tokens.len(),
        forall|k: int| 0 <= k < r.len() ==> #[trigger] r[k].len() == own_vocabulary(tokens@).len() + 1,
        forall|k: int, j: int|
            0 <= k < r.len() && 0 <= j < r[k].len() ==> #[trigger] r[k][j] == if j == id_of(
                own_vocabulary(tokens@),
                tokens@[k]@,
            ) {
                1u32
            } else {
                0u32
            },
{
    let ghost vocab = own_vocabulary(tokens@);
    let ghost n = tokens.len();
    let ghost tv = tokens@;
    let ints = encode_int(tokens);
    proof {
        lemma_own_ids(tv);
    }
    let mut r: Vec<Vec<u32>> = Vec::new();
    if ints.len() == 0 {
        return r;
    }
    let mut max: u32 = 0;
    let mut k: usize = 0;
    while k < ints.len()
        invariant
            k <= ints.len(),
            ints.len() == n,
            forall|j: int| 0 <= j < n ==> ints[j] == #[trigger] id_of(vocab, tv[j]@),
            forall|j: int| 0 <= j < k ==> ints[j] <= max,
            max <= vocab.len(),
            vocab == own_vocabulary(tv),
            forall|j: int| 0 <= j < n ==> 1 <= #[trigger] id_of(own_vocabulary(tv), tv[j]@)
                <= vocab.len(),
            (exists|j: int| 0 <= j < k && ints[j] == vocab.len()) ==> max == vocab.len(),
        decreases ints.len() - k,
    {
        if ints[k] > max {
            max = ints[k];
        }
        proof {
            assert(ints[k as int] == id_of(vocab, tv[k as int]@));
        }
        k = k + 1;
    }
    assert(max == vocab.len()) by {
        let j = choose|j: int|
            0 <= j < n && #[trigger] id_of(vocab, tv[j]@) == vocab.len();
        assert(ints[j] == vocab.len());
        assert(ints[j] <= max);
    }
    let width = max as usize + 1;
    let mut k: usize = 0;
    while k < ints.len()
        invariant
            k <= ints.len(),
            ints.len() == n,
            width == vocab.len() + 1,
            forall|j: int| 0 <= j < n ==> ints[j] == #[trigger] id_of(vocab, tv[j]@),
            vocab == own_vocabulary(tv),
            forall|j: int| 0 <= j < n ==> 1 <= #[trigger] id_of(own_vocabulary(tv), tv[j]@)
                <= vocab.len(),
            r.len() == k,
            forall|j: int| 0 <= j < k ==> #[trigger] r[j].len() == width,
            forall|j: int, c: int|
                0 <= j < k && 0 <= c < r[j].len() ==> #[trigger] r[j][c] == if c == ints[j] {
                    1u32
                } else {
                    0u32
                },
        decreases ints.len() - k,
    {
        let mut row: Vec<u32> = Vec::new();
        let mut c: usize = 0;
        while c < width
            invariant
                c <= width,
                row.len() == c,
                k < n,
                ints.len() == n,
                forall|i: int| 0 <= i < c ==> #[trigger] row[i] == if i == ints[k as int] {
                    1u32
                } else {
                    0u32
                },
            decreases width - c,
        {
            if c == ints[k] as usize {
                row.push(1);
            } else {
                row.push(0);
            }
            c = c + 1;
        }
        r.push(row);
        k = k + 1;
    }
    r
}

/// Unicode's White_Space property.
pub open spec fn is_white_space(c: char) -> bool {
    let u = c as u32;
    ||| 0x09 <= u <= 0x0d
    ||| u == 0x20
    ||| u == 0x85
    ||| u == 0xa0
    ||| u == 0x1680
    ||| 0x2000 <= u <= 0x200a
    ||| u == 0x2028
    ||| u == 0x2029
    ||| u == 0x202f
    ||| u == 0x205f
    ||| u == 0x3000
}

/// Relies on `char::is_whitespace`: true exactly for the characters with the
/// White_Space property.
#[verifier::external_body]
fn is_whitespace(c: char) -> (r: bool)
    ensures
        r == is_white_space(c),
{
    c.is_whitespace()
}

/// The maximal runs of characters of `s` that are not white space, in order.
pub open spec fn words(s: Seq<char>) -> Seq<Seq<char>>
    decreases s.len(),
{
    if s.len() == 0 {
        Seq::empty()
    } else {
        let prev = words(s.drop_last());
        let c = s.last();
        if is_white_space(c) {
            prev
        } else if s.len() >= 2 && !is_white_space(s[s.len() - 2]) {
            prev.drop_last().push(prev.last().push(c))
        } else {
            prev.push(seq![c])
        }
    }
}

/// Splits `text` on runs of white space; the tokens are the non-empty pieces
/// between them, in order.
pub fn tokenize(text: &str) -> (r: Vec<&str>)
    ensures
        token_views(r@) == words(text@),
{
    let n = text.unicode_len();
    let mut r: Vec<&str> = Vec::new();
    let mut start: usize = 0;
    let mut in_word = false;
    let mut i: usize = 0;
    for c in it: text.chars()
        invariant
            n == text@.len(),
            it.seq() == text@,
            i == it.index(),
            i <= n,
            start <= i,
            in_word ==> start < i,
            in_word ==> words(text@.take(i as int)) == token_views(r@).push(
                text@.subrange(start as int, i as int),
            ),
            in_word ==> !is_white_space(text@[i - 1]),
            !in_word ==> words(text@.take(i as int)) == token_views(r@),
            !in_word && i > 0 ==> is_white_space(text@[i - 1]),
    {
        let ghost s = text@.take(i + 1);
        proof {
            assert(s.drop_last() =~= text@.take(i as int));
            assert(s.last() == c);
        }
        if is_whitespace(c) {
            if in_word {
                let piece = text.substring_char(start, i);
                let ghost before = r@;
                r.push(piece);
                proof {
                    assert(token_views(r@) =~= token_views(before).push(piece@));
                }
                in_word = false;
            }
        } else {
            if in_word {
                proof {
                    let prev = words(text@.take(i as int));
                    assert(s[s.len() - 2] == text@[i - 1]);
                    assert(text@.subrange(start as int, i + 1) =~= text@.subrange(
                        start as int,
                        i as int,
                    ).push(c));
                    assert(prev.drop_last() =~= token_views(r@));
                }
            } else {
                start = i;
                proof {
                    assert(text@.subrange(start as int, i + 1) =~= seq![c]);
                    if i > 0 {
                        assert(s[s.len() - 2] == text@[i - 1]);
                    }
                }
                in_word = true;
            }
        }
        i = i + 1;
    }
    proof {
        assert(text@.take(i as int) =~= text@);
    }
    if in_word {
        let piece = text.substring_char(start, i);
        let ghost before = r@;
        r.push(piece);
        proof {
            assert(token_views(r@) =~= token_views(before).push(piece@));
        }
    }
    r
}

} // verus!
