//! The character tokenizer, token datasets and random training batches.
use vstd::prelude::*;
use std::collections::{BTreeMap, BTreeSet, HashMap};
use crate::sampler::WindowSampler;
use crate::text::{chars_of, string_from_chars, lemma_char_code};

verus! {

broadcast use {vstd::std_specs::hash::group_hash_axioms, vstd::std_specs::btree::group_btree_axioms};

/// Why text could not be encoded or token ids decoded.
#[derive(Debug, Clone, Copy, PartialEq, Eq, Structural)]
pub enum TokenizerError {
    /// A character of the text is not in the vocabulary.
    UnknownCharacter(char),
    /// A token id is not below the vocabulary size.
    UnknownTokenId(u32),
}

/// A deliberately simple tokenizer: every Unicode scalar value is a token,
/// and a token's id is its position in the vocabulary.
#[derive(Debug, Clone)]
pub struct CharTokenizer {
    chars: Vec<char>,
    /// Code point of each indexed character to its id.
    ids: HashMap<u32, u32>,
}

/// Characters ordered strictly by code point.
pub open spec fn strictly_increasing(s: Seq<char>) -> bool {
    forall|i: int, j: int| 0 <= i < j < s.len() ==> (s[i] as int) < (s[j] as int)
}

/// `vocab` is the sorted vocabulary of `text`: each character of the text once,
/// in code point order.
pub open spec fn is_vocabulary_of(vocab: Seq<char>, text: Seq<char>) -> bool {
    &&& strictly_increasing(vocab)
    &&& forall|c: char| vocab.contains(c) <==> text.contains(c)
}

/// The index built from a vocabulary: each character's code point maps to its
/// position, the last position where a character occurs twice.
pub open spec fn code_index(vocab: Seq<char>) -> Map<u32, u32>
    decreases vocab.len(),
{
    if vocab.len() == 0 {
        Map::empty()
    } else {
        code_index(vocab.drop_last()).insert(vocab.last() as u32, (vocab.len() - 1) as u32)
    }
}

/// Every character of `t` has an id in `index`.
pub open spec fn encodable(index: Map<u32, u32>, t: Seq<char>) -> bool {
    forall|i: int| 0 <= i < t.len() ==> index.contains_key(#[trigger] t[i] as u32)
}

/// The ids of the characters of `t`.
pub open spec fn encoded(index: Map<u32, u32>, t: Seq<char>) -> Seq<u32> {
    t.map_values(|c: char| index[c as u32])
}

/// Every id in `ids` is below the vocabulary size.
pub open spec fn decodable(vocab: Seq<char>, ids: Seq<u32>) -> bool {
    forall|i: int| 0 <= i < ids.len() ==> (#[trigger] ids[i] as int) < vocab.len()
}

/// The characters that `ids` stand for.
pub open spec fn decoded(vocab: Seq<char>, ids: Seq<u32>) -> Seq<char> {
    ids.map_values(|id: u32| vocab[id as int])
}

impl View for CharTokenizer {
    /// The vocabulary and the index from code points to ids.
    type V = (Seq<char>, Map<u32, u32>);

    closed spec fn view(&self) -> (Seq<char>, Map<u32, u32>) {
        (self.chars@, self.ids@)
    }
}

/// Keys that a `BTreeMap` lists in increasing order are strictly increasing numbers.
proof fn lemma_increasing_keys(order: Seq<u32>)
    requires
        token_ids_ordered(),
        vstd::std_specs::btree::increasing_seq(order),
    ensures
        forall|i: int, j: int| 0 <= i < j < order.len() ==> order[i] < order[j],
{
    assert forall|i: int, j: int| 0 <= i < j < order.len() implies order[i] < order[j] by {
        assert(vstd::std_specs::cmp::OrdSpec::cmp_spec(&order[i], &order[j]) is Less);
    }
}

/// Code points and token ids (`u32`) are ordered as `BTreeSet` and `BTreeMap` need them to be.
pub open spec fn token_ids_ordered() -> bool {
    vstd::laws_cmp::obeys_cmp::<u32>()
}

proof fn lemma_token_ids_ordered()
    ensures
        token_ids_ordered(),
{
    broadcast use vstd::laws_cmp::group_laws_cmp;
}

impl CharTokenizer {
    /// The index agrees with the vocabulary, as `train` and `rebuild_index` leave it.
    pub open spec fn is_indexed(&self) -> bool {
        &&& self@.1 == code_index(self@.0)
        &&& self@.0.len() <= 0x1_0000_0000
    }

    /// Builds the vocabulary of a text: its distinct characters in code point
    /// order, each with its position as id.
    pub fn train(text: &str) -> (res: Self)
        ensures
            is_vocabulary_of(res@.0, text@),
            res.is_indexed(),
    {
        proof {
            lemma_token_ids_ordered();
        }
        let input = chars_of(text);
        // The distinct characters, keyed by code point.
        let mut seen: BTreeMap<u32, char> = BTreeMap::new();
        let mut k: usize = 0;
        while k < input.len()
            invariant
                k <= input@.len(),
                input@ == text@,
                token_ids_ordered(),
                forall|key: u32| #[trigger] seen@.contains_key(key) ==> seen@[key] as u32 == key
                    && input@.take(k as int).contains(seen@[key]),
                forall|i: int| 0 <= i < k ==> seen@.contains_key(#[trigger] input@[i] as u32),
            decreases input@.len() - k,
        {
            let c = input[k];
            seen.insert(c as u32, c);
            assert(input@.take(k + 1) =~= input@.take(k as int).push(c));
            assert forall|key: u32| #[trigger] seen@.contains_key(key) implies seen@[key] as u32 == key
                && input@.take(k + 1).contains(seen@[key]) by {
                if key != c as u32 {
                    let t = input@.take(k as int);
                    let w = choose|w: int| 0 <= w < t.len() && t[w] == seen@[key];
                    assert(input@.take(k + 1)[w] == seen@[key]);
                } else {
                    assert(input@.take(k + 1)[k as int] == c);
                }
            }
            k = k + 1;
        }
        assert(input@.take(k as int) =~= text@);
        let ghost m = seen@;
        let values = seen.values();
        let ghost order = choose|order: Seq<u32>| {
            &&& vstd::std_specs::btree::increasing_seq(order)
            &&& order.to_set() == m.dom()
            &&& order.no_duplicates()
            &&& vstd::std_specs::iter::IteratorSpec::remaining(&values) == order.map(|i: int, key: u32| &m[key])
        };
        let mut chars: Vec<char> = Vec::new();
        for c in it: values
            invariant
                it.seq() == order.map(|i: int, key: u32| &m[key]),
                chars@.len() == it.index(),
                chars@.len() <= order.len(),
                forall|i: int| 0 <= i < chars@.len() ==> #[trigger] chars@[i] == m[order[i]],
        {
            chars.push(*c);
        }
        proof {
            assert(chars@.len() == order.len());
            assert forall|i: int| 0 <= i < order.len() implies #[trigger] chars@[i] == m[order[i]] && m.contains_key(order[i]) by {
                assert(order.to_set().contains(order[i]));
            }
            lemma_increasing_keys(order);
            assert forall|i: int, j: int| 0 <= i < j < chars@.len() implies (chars@[i] as int) < (chars@[j] as int) by {
                assert(chars@[i] == m[order[i]] && chars@[j] == m[order[j]]);
                lemma_char_code(chars@[i], chars@[j]);
                lemma_char_code(chars@[j], chars@[i]);
            }
            assert forall|d: char| chars@.contains(d) <==> text@.contains(d) by {
                if chars@.contains(d) {
                    let i = choose|i: int| 0 <= i < chars@.len() && chars@[i] == d;
                    assert(chars@[i] == m[order[i]]);
                    assert(m.contains_key(order[i]));
                }
                if text@.contains(d) {
                    let w = choose|w: int| 0 <= w < text@.len() && text@[w] == d;
                    assert(input@[w] == d);
                    let key = d as u32;
                    assert(m.contains_key(key));
                    assert(order.to_set().contains(key));
                    let j = choose|j: int| 0 <= j < order.len() && order[j] == key;
                    assert(chars@[j] == m[key]);
                    lemma_char_code(m[key], d);
                }
            }
            lemma_increasing_vocabulary_fits(chars@);
        }
        let mut tokenizer = CharTokenizer { chars, ids: HashMap::new() };
        tokenizer.rebuild_index();
        tokenizer
    }

    /// Number of tokens in the vocabulary.
    pub fn vocab_size(&self) -> (n: usize)
        ensures
            n == self@.0.len(),
    {
        self.chars.len()
    }

    /// The ids of the characters of `text`, or the first character that has none.
    pub fn encode(&self, text: &str) -> (res: Result<Vec<u32>, TokenizerError>)
        ensures
            res is Ok <==> encodable(self@.1, text@),
            res matches Ok(ids) ==> ids@ == encoded(self@.1, text@),
            res matches Err(e) ==> exists|i: int|
                0 <= i < text@.len() && !self@.1.contains_key(text@[i] as u32)
                    && e == TokenizerError::UnknownCharacter(text@[i])
                    && encodable(self@.1, text@.take(i)),
    {
        let input = chars_of(text);
        let mut out: Vec<u32> = Vec::new();
        let mut k: usize = 0;
        while k < input.len()
            invariant
                k <= input@.len(),
                input@ == text@,
                encodable(self@.1, input@.take(k as int)),
                out@ == encoded(self@.1, input@.take(k as int)),
            decreases input@.len() - k,
        {
            let ch = input[k];
            match self.ids.get(&(ch as u32)) {
                Some(id) => {
                    out.push(*id);
                    assert(input@.take(k + 1) =~= input@.take(k as int).push(ch));
                    assert(out@ =~= encoded(self@.1, input@.take(k + 1)));
                },
                None => {
                    assert(!encodable(self@.1, text@));
                    return Err(TokenizerError::UnknownCharacter(ch));
                },
            }
            k = k + 1;
        }
        assert(input@.take(k as int) =~= text@);
        Ok(out)
    }

    /// The text that `ids` stand for, or the first id outside the vocabulary.
    pub fn decode(&self, ids: &[u32]) -> (res: Result<String, TokenizerError>)
        ensures
            res is Ok <==> decodable(self@.0, ids@),
            res matches Ok(s) ==> s@ == decoded(self@.0, ids@),
            res matches Err(e) ==> exists|i: int|
                0 <= i < ids@.len() && (ids@[i] as int) >= self@.0.len()
                    && e == TokenizerError::UnknownTokenId(ids@[i])
                    && decodable(self@.0, ids@.take(i)),
    {
        let mut out: Vec<char> = Vec::new();
        let mut k: usize = 0;
        while k < ids.len()
            invariant
                k <= ids@.len(),
                decodable(self@.0, ids@.take(k as int)),
                out@ == decoded(self@.0, ids@.take(k as int)),
            decreases ids@.len() - k,
        {
            let id = ids[k];
            if (id as usize) < self.chars.len() {
                out.push(self.chars[id as usize]);
                assert(ids@.take(k + 1) =~= ids@.take(k as int).push(id));
                assert(out@ =~= decoded(self@.0, ids@.take(k + 1)));
            } else {
                assert(!decodable(self@.0, ids@));
                return Err(TokenizerError::UnknownTokenId(id));
            }
            k = k + 1;
        }
        assert(ids@.take(k as int) =~= ids@);
        Ok(string_from_chars(out.as_slice()))
    }

    /// Recomputes the index from the vocabulary (after the vocabulary alone was
    /// restored, for instance from a saved run).
    pub fn rebuild_index(&mut self)
        ensures
            final(self)@.0 == old(self)@.0,
            final(self)@.1 == code_index(old(self)@.0),
    {
        let mut ids: HashMap<u32, u32> = HashMap::new();
        let mut id: usize = 0;
        while id < self.chars.len()
            invariant
                id <= self.chars@.len(),
                ids@ == code_index(self.chars@.take(id as int)),
            decreases self.chars@.len() - id,
        {
            let ch = self.chars[id];
            ids.insert(ch as u32, id as u32);
            assert(self.chars@.take(id + 1).drop_last() =~= self.chars@.take(id as int));
            id = id + 1;
        }
        assert(self.chars@.take(id as int) =~= self.chars@);
        self.ids = ids;
    }

    /// Number of distinct token ids in `tokens`.
    pub fn observed_token_types(&self, tokens: &[u32]) -> (n: usize)
        ensures
            n == tokens@.to_set().len(),
    {
        proof {
            lemma_token_ids_ordered();
        }
        let mut seen: BTreeSet<u32> = BTreeSet::new();
        let mut k: usize = 0;
        while k < tokens.len()
            invariant
                k <= tokens@.len(),
                seen@ == tokens@.take(k as int).to_set(),
            decreases tokens@.len() - k,
        {
            seen.insert(tokens[k]);
            assert(tokens@.take(k + 1) =~= tokens@.take(k as int) + seq![tokens@[k as int]]);
            proof {
                Seq::lemma_to_set_insert_commutes(tokens@.take(k as int), tokens@[k as int]);
            }
            k = k + 1;
        }
        assert(tokens@.take(k as int) =~= tokens@);
        seen.len()
    }

    /// A tokenizer with the given vocabulary and no index yet, as restored from
    /// a saved vocabulary; `rebuild_index` makes it usable.
    pub fn from_vocabulary(chars: Vec<char>) -> (res: Self)
        ensures
            res@.0 == chars@,
            res@.1 == Map::<u32, u32>::empty(),
    {
        CharTokenizer { chars, ids: HashMap::new() }
    }

    /// The vocabulary, in id order.
    pub fn vocabulary(&self) -> (res: Vec<char>)
        ensures
            res@ == self@.0,
    {
        self.chars.clone()
    }
}

/// A strictly increasing sequence of characters is no longer than the number of code points.
proof fn lemma_increasing_vocabulary_fits(s: Seq<char>)
    requires
        strictly_increasing(s),
    ensures
        s.len() <= 0x110000,
{
    if s.len() > 0 {
        lemma_increasing_lower_bound(s, s.len() - 1);
        lemma_char_code(s[s.len() - 1], s[s.len() - 1]);
    }
}

proof fn lemma_increasing_lower_bound(s: Seq<char>, i: int)
    requires
        strictly_increasing(s),
        0 <= i < s.len(),
    ensures
        (s[i] as int) >= i,
    decreases i,
{
    lemma_char_code(s[i], s[i]);
    if i > 0 {
        lemma_increasing_lower_bound(s, i - 1);
        assert((s[i - 1] as int) < (s[i] as int));
    }
}

/// The index of a vocabulary has an entry for each of its characters, and the
/// id of each entry leads back to a character with that code point.
pub proof fn lemma_code_index(vocab: Seq<char>)
    requires
        vocab.len() <= 0x1_0000_0000,
    ensures
        forall|i: int| 0 <= i < vocab.len() ==> code_index(vocab).contains_key(#[trigger] vocab[i] as u32),
        forall|k: u32| #[trigger] code_index(vocab).contains_key(k) ==> (code_index(vocab)[k] as int)
            < vocab.len() && vocab[code_index(vocab)[k] as int] as u32 == k,
    decreases vocab.len(),
{
    if vocab.len() > 0 {
        let prefix = vocab.drop_last();
        lemma_code_index(prefix);
        assert forall|i: int| 0 <= i < vocab.len() implies code_index(vocab).contains_key(#[trigger] vocab[i] as u32) by {
            if i < vocab.len() - 1 {
                assert(prefix[i] == vocab[i]);
            }
        }
        let last = vocab.last() as u32;
        assert forall|k: u32| #[trigger] code_index(vocab).contains_key(k) implies (code_index(vocab)[k] as int)
            < vocab.len() && vocab[code_index(vocab)[k] as int] as u32 == k by {
            if k != last {
                assert(code_index(prefix).contains_key(k));
                let j = code_index(prefix)[k] as int;
                assert(prefix[j] == vocab[j]);
            }
        }
    }
}

/// Decoding what was encoded gives the text back, whenever the index agrees
/// with the vocabulary and the text could be encoded.
pub proof fn lemma_decode_encode(tokenizer: CharTokenizer, t: Seq<char>)
    requires
        tokenizer.is_indexed(),
        encodable(tokenizer@.1, t),
    ensures
        decodable(tokenizer@.0, encoded(tokenizer@.1, t)),
        decoded(tokenizer@.0, encoded(tokenizer@.1, t)) == t,
{
    let vocab = tokenizer@.0;
    let index = tokenizer@.1;
    lemma_code_index(vocab);
    let ids = encoded(index, t);
    assert forall|i: int| 0 <= i < ids.len() implies (#[trigger] ids[i] as int) < vocab.len() by {
        assert(index.contains_key(t[i] as u32));
    }
    let back = decoded(vocab, ids);
    assert forall|i: int| 0 <= i < t.len() implies back[i] == t[i] by {
        let k = t[i] as u32;
        assert(index.contains_key(k));
        lemma_char_code(vocab[index[k] as int], t[i]);
    }
    assert(back =~= t);
}

/// A tokenizer trained on a text can encode exactly the texts whose characters
/// all occur in it, and decoding gives such a text back unchanged.
pub proof fn lemma_trained_round_trip(tokenizer: CharTokenizer, training: Seq<char>, t: Seq<char>)
    requires
        is_vocabulary_of(tokenizer@.0, training),
        tokenizer.is_indexed(),
    ensures
        encodable(tokenizer@.1, t) <==> forall|i: int| 0 <= i < t.len() ==> training.contains(#[trigger] t[i]),
        encodable(tokenizer@.1, t) ==> decodable(tokenizer@.0, encoded(tokenizer@.1, t))
            && decoded(tokenizer@.0, encoded(tokenizer@.1, t)) == t,
{
    let vocab = tokenizer@.0;
    let index = tokenizer@.1;
    lemma_code_index(vocab);
    if encodable(index, t) {
        assert forall|i: int| 0 <= i < t.len() implies training.contains(#[trigger] t[i]) by {
            let k = t[i] as u32;
            assert(index.contains_key(k));
            let j = index[k] as int;
            lemma_char_code(vocab[j], t[i]);
            assert(vocab.contains(t[i]));
        }
        lemma_decode_encode(tokenizer, t);
    }
    if forall|i: int| 0 <= i < t.len() ==> training.contains(#[trigger] t[i]) {
        assert forall|i: int| 0 <= i < t.len() implies index.contains_key(#[trigger] t[i] as u32) by {
            assert(training.contains(t[i]));
            assert(vocab.contains(t[i]));
            let j = choose|j: int| 0 <= j < vocab.len() && vocab[j] == t[i];
            assert(index.contains_key(vocab[j] as u32));
        }
    }
}

/// In the index of a vocabulary ordered by code point, each character's entry
/// is its own position.
proof fn lemma_increasing_index(vocab: Seq<char>, j: int)
    requires
        strictly_increasing(vocab),
        0 <= j < vocab.len(),
        vocab.len() <= 0x1_0000_0000,
    ensures
        code_index(vocab).contains_key(vocab[j] as u32),
        code_index(vocab)[vocab[j] as u32] == j,
    decreases vocab.len(),
{
    let prefix = vocab.drop_last();
    let last = vocab.len() - 1;
    if j < last {
        assert(strictly_increasing(prefix)) by {
            assert forall|a: int, b: int| 0 <= a < b < prefix.len() implies (prefix[a] as int) < (prefix[b] as int) by {
                assert(prefix[a] == vocab[a] && prefix[b] == vocab[b]);
            }
        }
        assert(prefix[j] == vocab[j]);
        lemma_increasing_index(prefix, j);
        lemma_char_code(vocab[j], vocab[last]);
        assert((vocab[j] as int) < (vocab[last] as int));
    }
}

/// Encoding what was decoded gives the ids back: a trained tokenizer's
/// vocabulary holds each character once, so every id stands for a character
/// whose id it is.
pub proof fn lemma_encode_decode(tokenizer: CharTokenizer, training: Seq<char>, ids: Seq<u32>)
    requires
        is_vocabulary_of(tokenizer@.0, training),
        tokenizer.is_indexed(),
        decodable(tokenizer@.0, ids),
    ensures
        encodable(tokenizer@.1, decoded(tokenizer@.0, ids)),
        encoded(tokenizer@.1, decoded(tokenizer@.0, ids)) == ids,
{
    let vocab = tokenizer@.0;
    let index = tokenizer@.1;
    let text = decoded(vocab, ids);
    assert forall|i: int| 0 <= i < text.len() implies index.contains_key(#[trigger] text[i] as u32)
        && index[text[i] as u32] == ids[i] by {
        let j = ids[i] as int;
        lemma_increasing_index(vocab, j);
    }
    assert(encoded(index, text) =~= ids);
}

/// Two vocabularies ordered by code point that hold the same characters are equal.
pub proof fn lemma_vocabulary_unique(v: Seq<char>, w: Seq<char>)
    requires
        strictly_increasing(v),
        strictly_increasing(w),
        forall|c: char| v.contains(c) <==> w.contains(c),
    ensures
        v == w,
    decreases v.len() + w.len(),
{
    if v.len() == 0 || w.len() == 0 {
        if v.len() > 0 {
            assert(w.contains(v[0]));
        }
        if w.len() > 0 {
            assert(v.contains(w[0]));
        }
        assert(v =~= w);
    } else {
        let a = v.last();
        let b = w.last();
        assert(v.contains(a));
        assert(w.contains(b));
        let i = choose|i: int| 0 <= i < v.len() && v[i] == b;
        let j = choose|j: int| 0 <= j < w.len() && w[j] == a;
        crate::text::lemma_char_code(a, b);
        if i < v.len() - 1 {
            assert((v[i] as int) < (a as int));
        }
        if j < w.len() - 1 {
            assert((w[j] as int) < (b as int));
        }
        assert(a == b);
        let v1 = v.drop_last();
        let w1 = w.drop_last();
        assert forall|c: char| v1.contains(c) <==> w1.contains(c) by {
            if v1.contains(c) {
                let k = choose|k: int| 0 <= k < v1.len() && v1[k] == c;
                assert(v[k] == c);
                assert((c as int) < (a as int));
                assert(w.contains(c));
                let m = choose|m: int| 0 <= m < w.len() && w[m] == c;
                assert(m != w.len() - 1);
                assert(w1[m] == c);
            }
            if w1.contains(c) {
                let k = choose|k: int| 0 <= k < w1.len() && w1[k] == c;
                assert(w[k] == c);
                assert((c as int) < (b as int));
                assert(v.contains(c));
                let m = choose|m: int| 0 <= m < v.len() && v[m] == c;
                assert(m != v.len() - 1);
                assert(v1[m] == c);
            }
        }
        assert(strictly_increasing(v1));
        assert(strictly_increasing(w1));
        lemma_vocabulary_unique(v1, w1);
        assert(v =~= v1.push(a));
        assert(w =~= w1.push(b));
    }
}

/// A trained tokenizer depends only on which characters its training text
/// holds: texts with the same characters give the same vocabulary and index,
/// so the two tokenizers encode and decode alike.
pub proof fn lemma_train_depends_on_character_set(ta: CharTokenizer, tb: CharTokenizer, a: Seq<char>, b: Seq<char>)
    requires
        is_vocabulary_of(ta@.0, a),
        ta.is_indexed(),
        is_vocabulary_of(tb@.0, b),
        tb.is_indexed(),
        forall|c: char| a.contains(c) <==> b.contains(c),
    ensures
        ta@ == tb@,
{
    assert forall|c: char| ta@.0.contains(c) <==> tb@.0.contains(c) by {
        assert(ta@.0.contains(c) <==> a.contains(c));
        assert(tb@.0.contains(c) <==> b.contains(c));
    }
    lemma_vocabulary_unique(ta@.0, tb@.0);
}

/// A tokenizer restored from the vocabulary of a trained one and re-indexed
/// is the trained tokenizer again: same vocabulary, same index, so it encodes
/// and decodes alike.
pub proof fn lemma_restored_tokenizer(trained: CharTokenizer, restored: CharTokenizer)
    requires
        trained.is_indexed(),
        restored@.0 == trained@.0,
        restored@.1 == code_index(restored@.0),
    ensures
        restored@ == trained@,
        restored.is_indexed(),
{
}

// ---------------------------------------------------------------------------
// Datasets and batches

/// Training and validation token streams.
pub struct TokenDataset {
    pub train: Vec<u32>,
    pub validation: Vec<u32>,
}

impl TokenDataset {
    /// Splits encoded tokens into the first `split` for training and the rest for validation.
    pub fn from_tokens(tokens: Vec<u32>, split: usize) -> (res: Self)
        requires
            split <= tokens@.len(),
        ensures
            res.train@ == tokens@.take(split as int),
            res.validation@ == tokens@.skip(split as int),
            res.train@ + res.validation@ == tokens@,
    {
        let mut train: Vec<u32> = Vec::new();
        let mut validation: Vec<u32> = Vec::new();
        let mut i: usize = 0;
        while i < tokens.len()
            invariant
                i <= tokens@.len(),
                split <= tokens@.len(),
                i <= split ==> train@ == tokens@.take(i as int) && validation@.len() == 0,
                i > split ==> train@ == tokens@.take(split as int) && validation@ == tokens@.subrange(split as int, i as int),
            decreases tokens@.len() - i,
        {
            if i < split {
                train.push(tokens[i]);
                assert(train@ =~= tokens@.take(i + 1));
            } else {
                validation.push(tokens[i]);
                assert(validation@ =~= tokens@.subrange(split as int, i + 1));
            }
            i = i + 1;
        }
        assert(tokens@.take(split as int) + tokens@.skip(split as int) =~= tokens@);
        assert(validation@ =~= tokens@.skip(split as int));
        TokenDataset { train, validation }
    }
}

/// Why no batch could be drawn from a token stream.
#[derive(Debug, Clone, Copy, PartialEq, Eq, Structural)]
pub enum BatchError {
    /// The stream has no window of `context_length + 1` tokens.
    TooFewTokens { available: usize, context_length: usize },
}

/// The input and target rows for windows starting at `starts`, laid out row after
/// row: each input row is `context_length` tokens from its start, and its target
/// row the same window shifted one token to the right.
pub open spec fn batch_rows(tokens: Seq<u32>, starts: Seq<usize>, context_length: nat) -> (Seq<u32>, Seq<u32>)
    decreases starts.len(),
{
    if starts.len() == 0 {
        (Seq::<u32>::empty(), Seq::<u32>::empty())
    } else {
        let (inputs, targets) = batch_rows(tokens, starts.drop_last(), context_length);
        let s = starts.last() as int;
        (
            inputs + tokens.subrange(s, s + context_length),
            targets + tokens.subrange(s + 1, s + context_length + 1),
        )
    }
}

/// Every window fits in the stream with its one-token shift.
pub open spec fn windows_fit(tokens: Seq<u32>, starts: Seq<usize>, context_length: nat) -> bool {
    forall|b: int| 0 <= b < starts.len() ==> #[trigger] starts[b] + context_length < tokens.len()
}

/// The rows of a batch whose windows start at the given positions.
pub fn batch_from_starts(tokens: &[u32], starts: &[usize], context_length: usize) -> (res: (Vec<u32>, Vec<u32>))
    requires
        windows_fit(tokens@, starts@, context_length as nat),
    ensures
        (res.0@, res.1@) == batch_rows(tokens@, starts@, context_length as nat),
{
    let mut inputs: Vec<u32> = Vec::new();
    let mut targets: Vec<u32> = Vec::new();
    let mut b: usize = 0;
    while b < starts.len()
        invariant
            b <= starts@.len(),
            windows_fit(tokens@, starts@, context_length as nat),
            (inputs@, targets@) == batch_rows(tokens@, starts@.take(b as int), context_length as nat),
        decreases starts@.len() - b,
    {
        let start = starts[b];
        assert(start + context_length < tokens@.len());
        let _tokens_len = tokens.len();
        let ghost inputs_before = inputs@;
        let ghost targets_before = targets@;
        let mut j: usize = 0;
        while j < context_length
            invariant
                j <= context_length,
                start + context_length < tokens@.len(),
                _tokens_len == tokens@.len(),
                inputs@ == inputs_before + tokens@.subrange(start as int, start + j),
                targets@ == targets_before + tokens@.subrange(start + 1, start + j + 1),
            decreases context_length - j,
        {
            inputs.push(tokens[start + j]);
            targets.push(tokens[start + j + 1]);
            j = j + 1;
            assert(inputs@ =~= inputs_before + tokens@.subrange(start as int, start + j));
            assert(targets@ =~= targets_before + tokens@.subrange(start + 1, start + j + 1));
        }
        assert(starts@.take(b + 1).drop_last() =~= starts@.take(b as int));
        b = b + 1;
    }
    assert(starts@.take(b as int) =~= starts@);
    (inputs, targets)
}

/// The starts of a sequence of draws.
pub open spec fn drawn_starts(draws: Seq<(usize, usize)>) -> Seq<usize> {
    draws.map_values(|d: (usize, usize)| d.0)
}

/// Draws `batch_size` random windows of `context_length` tokens and their
/// targets, the same windows shifted by one token. Each row takes exactly one
/// draw from the sampler, over every start whose window fits.
pub fn random_batch(tokens: &[u32], batch_size: usize, context_length: usize, sampler: &mut WindowSampler)
    -> (res: Result<(Vec<u32>, Vec<u32>), BatchError>)
    ensures
        res is Err <==> tokens@.len() <= context_length,
        res matches Err(e) ==> e == (BatchError::TooFewTokens { available: tokens@.len() as usize, context_length }),
        res is Err ==> *final(sampler) == *old(sampler),
        res is Ok ==> {
            &&& final(sampler).draws().len() == old(sampler).draws().len() + batch_size
            &&& final(sampler).draws().take(old(sampler).draws().len() as int) == old(sampler).draws()
            &&& forall|k: int| old(sampler).draws().len() <= k < final(sampler).draws().len()
                ==> #[trigger] final(sampler).draws()[k].1 == tokens@.len() - context_length - 1
        },
        res matches Ok((inputs, targets)) ==> {
            let starts = drawn_starts(final(sampler).draws().skip(old(sampler).draws().len() as int));
            &&& inputs@.len() == batch_size * context_length
            &&& targets@.len() == batch_size * context_length
            &&& windows_fit(tokens@, starts, context_length as nat)
            &&& (inputs@, targets@) == batch_rows(tokens@, starts, context_length as nat)
        },
{
    if tokens.len() <= context_length {
        return Err(BatchError::TooFewTokens { available: tokens.len(), context_length });
    }
    let last_start = tokens.len() - context_length - 1;
    let ghost before = sampler.draws();
    let mut starts: Vec<usize> = Vec::new();
    let mut b: usize = 0;
    while b < batch_size
        invariant
            b <= batch_size,
            last_start + context_length + 1 == tokens@.len(),
            starts@.len() == b,
            sampler.draws().len() == before.len() + b,
            sampler.draws().take(before.len() as int) == before,
            starts@ == drawn_starts(sampler.draws().skip(before.len() as int)),
            forall|k: int| before.len() <= k < sampler.draws().len() ==> #[trigger] sampler.draws()[k].1 == last_start,
            windows_fit(tokens@, starts@, context_length as nat),
        decreases batch_size - b,
    {
        let ghost prior = sampler.draws();
        let start = sampler.draw(last_start);
        starts.push(start);
        b = b + 1;
        assert(sampler.draws().take(before.len() as int) =~= prior.take(before.len() as int));
        assert(sampler.draws().skip(before.len() as int) =~= prior.skip(before.len() as int).push((start, last_start)));
        assert(starts@ =~= drawn_starts(sampler.draws().skip(before.len() as int)));
    }
    let (inputs, targets) = batch_from_starts(tokens, starts.as_slice(), context_length);
    proof {
        lemma_batch_rows_len(tokens@, starts@, context_length as nat);
    }
    Ok((inputs, targets))
}

proof fn lemma_batch_rows_len(tokens: Seq<u32>, starts: Seq<usize>, context_length: nat)
    requires
        windows_fit(tokens, starts, context_length),
    ensures
        batch_rows(tokens, starts, context_length).0.len() == starts.len() * context_length,
        batch_rows(tokens, starts, context_length).1.len() == starts.len() * context_length,
    decreases starts.len(),
{
    if starts.len() == 0 {
        assert(0 * context_length == 0) by (nonlinear_arith);
    } else {
        let prefix = starts.drop_last();
        assert(windows_fit(tokens, prefix, context_length)) by {
            assert forall|c: int| 0 <= c < prefix.len() implies #[trigger] prefix[c] + context_length < tokens.len() by {
                assert(prefix[c] == starts[c]);
            }
        }
        lemma_batch_rows_len(tokens, prefix, context_length);
        assert(starts.len() * context_length == prefix.len() * context_length + context_length) by (nonlinear_arith)
            requires starts.len() == prefix.len() + 1;
    }
}

/// Row `b` of the inputs is the window at `starts[b]`, and row `b` of the
/// targets the same window shifted by one token; rows follow one another.
pub proof fn lemma_batch_rows_at(tokens: Seq<u32>, starts: Seq<usize>, context_length: nat, b: int, j: int)
    requires
        windows_fit(tokens, starts, context_length),
        0 <= b < starts.len(),
        0 <= j < context_length,
    ensures
        batch_rows(tokens, starts, context_length).0.len() == starts.len() * context_length,
        batch_rows(tokens, starts, context_length).1.len() == starts.len() * context_length,
        0 <= b * context_length + j < starts.len() * context_length,
        batch_rows(tokens, starts, context_length).0[b * context_length + j] == tokens[starts[b] + j],
        batch_rows(tokens, starts, context_length).1[b * context_length + j] == tokens[starts[b] + j + 1],
    decreases starts.len(),
{
    let prefix = starts.drop_last();
    let n = prefix.len();
    assert(windows_fit(tokens, prefix, context_length)) by {
        assert forall|c: int| 0 <= c < prefix.len() implies #[trigger] prefix[c] + context_length < tokens.len() by {
            assert(prefix[c] == starts[c]);
        }
    }
    assert(starts.len() * context_length == n * context_length + context_length) by (nonlinear_arith)
        requires starts.len() == n + 1;
    assert(0 <= b * context_length + j < starts.len() * context_length) by (nonlinear_arith)
        requires 0 <= b < starts.len(), 0 <= j < context_length;
    lemma_batch_rows_len(tokens, starts, context_length);
    lemma_batch_rows_len(tokens, prefix, context_length);
    if b < n {
        lemma_batch_rows_at(tokens, prefix, context_length, b, j);
        assert(prefix[b] == starts[b]);
    } else {
        assert(b * context_length == n * context_length);
    }
}

/// Within each row, the targets are the inputs shifted left by one token: the
/// model is asked to predict each next token.
pub proof fn lemma_targets_shifted(tokens: Seq<u32>, starts: Seq<usize>, context_length: nat, b: int, j: int)
    requires
        windows_fit(tokens, starts, context_length),
        0 <= b < starts.len(),
        0 <= j,
        j + 1 < context_length,
    ensures
        batch_rows(tokens, starts, context_length).1[b * context_length + j]
            == batch_rows(tokens, starts, context_length).0[b * context_length + j + 1],
{
    lemma_batch_rows_at(tokens, starts, context_length, b, j);
    lemma_batch_rows_at(tokens, starts, context_length, b, j + 1);
}

} // verus!
