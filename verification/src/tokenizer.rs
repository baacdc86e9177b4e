//! Character vocabularies: building one from a corpus, encoding text to ids
//! and decoding ids back to text.
use std::collections::HashMap;
use vstd::prelude::*;

verus! {

broadcast use vstd::string::group_string_axioms, vstd::std_specs::hash::group_hash_axioms;

/// The characters of `text` in the order of their first occurrence, each once.
pub open spec fn first_occurrences(text: Seq<char>) -> Seq<char>
    decreases text.len(),
{
    if text.len() == 0 {
        Seq::empty()
    } else {
        let seen = first_occurrences(text.drop_last());
        if seen.contains(text.last()) {
            seen
        } else {
            seen.push(text.last())
        }
    }
}

/// The map from character codes to ids for the vocabulary `chars`:
/// the character at position `i` gets the id `i + 1`.
pub open spec fn char_id_map(chars: Seq<char>) -> Map<u32, u8>
    decreases chars.len(),
{
    if chars.len() == 0 {
        Map::empty()
    } else {
        char_id_map(chars.drop_last()).insert(chars.last() as u32, chars.len() as u8)
    }
}

/// The map from ids to characters for the vocabulary `chars`:
/// the id `i + 1` stands for the character at position `i`.
pub open spec fn id_char_map(chars: Seq<char>) -> Map<u8, char>
    decreases chars.len(),
{
    if chars.len() == 0 {
        Map::empty()
    } else {
        id_char_map(chars.drop_last()).insert(chars.len() as u8, chars.last())
    }
}

/// A character is among the first occurrences of `text` exactly when it occurs in `text`.
pub proof fn lemma_first_occurrences_contains(text: Seq<char>, c: char)
    ensures
        first_occurrences(text).contains(c) <==> text.contains(c),
    decreases text.len(),
{
    if text.len() > 0 {
        let rest = text.drop_last();
        lemma_first_occurrences_contains(rest, c);
        if rest.contains(c) {
            let i = choose|i: int| 0 <= i < rest.len() && rest[i] == c;
            assert(text[i] == c);
        }
        if text.contains(c) && c != text.last() {
            let i = choose|i: int| 0 <= i < text.len() && text[i] == c;
            assert(rest[i] == c);
        }
        if c == text.last() {
            assert(text[text.len() - 1] == c);
            let seen = first_occurrences(rest);
            if !seen.contains(c) {
                assert(seen.push(c)[seen.len() as int] == c);
            }
        }
        let seen = first_occurrences(rest);
        if seen.contains(c) && !seen.contains(text.last()) {
            let i = choose|i: int| 0 <= i < seen.len() && seen[i] == c;
            assert(seen.push(text.last())[i] == c);
        }
    }
}

/// The first occurrences of a prefix of `text` begin the first occurrences of
/// `text`: reading more text only adds characters at the end.
pub proof fn lemma_first_occurrences_prefix_len(text: Seq<char>, n: int)
    requires
        0 <= n <= text.len(),
    ensures
        first_occurrences(text.take(n)).len() <= first_occurrences(text).len(),
        first_occurrences(text).take(first_occurrences(text.take(n)).len() as int)
            == first_occurrences(text.take(n)),
    decreases text.len(),
{
    if n == text.len() {
        assert(text.take(n) =~= text);
        assert(first_occurrences(text).take(first_occurrences(text).len() as int) =~= first_occurrences(text));
    } else {
        let rest = text.drop_last();
        assert(rest.take(n) =~= text.take(n));
        lemma_first_occurrences_prefix_len(rest, n);
        let short = first_occurrences(text.take(n));
        let seen = first_occurrences(rest);
        if !seen.contains(text.last()) {
            assert(seen.push(text.last()).take(short.len() as int) =~= seen.take(short.len() as int));
        }
    }
}

/// A character that does not occur in `text` is appended to its first
/// occurrences when it is appended to `text`; one that occurs changes nothing.
pub proof fn lemma_first_occurrences_push(text: Seq<char>, c: char)
    ensures
        !text.contains(c) ==> first_occurrences(text.push(c)) == first_occurrences(text).push(c),
        text.contains(c) ==> first_occurrences(text.push(c)) == first_occurrences(text),
{
    assert(text.push(c).drop_last() =~= text);
    lemma_first_occurrences_contains(text, c);
}

/// The id of a character is one more than the number of distinct characters
/// that come before its first occurrence in the text the vocabulary was built
/// from, and that id maps back to the character.
pub proof fn lemma_vocabulary_id_counts_earlier_characters(text: Seq<char>, p: int)
    requires
        first_occurrences(text).len() <= MAX_VOCABULARY,
        0 <= p < text.len(),
        !text.take(p).contains(text[p]),
    ensures
        char_id_map(first_occurrences(text)).contains_key(text[p] as u32),
        char_id_map(first_occurrences(text))[text[p] as u32] == text.take(p).to_set().len() + 1,
        id_char_map(first_occurrences(text)).contains_key((text.take(p).to_set().len() + 1) as u8),
        id_char_map(first_occurrences(text))[(text.take(p).to_set().len() + 1) as u8] == text[p],
{
    let all = first_occurrences(text);
    let before = text.take(p);
    let pre = first_occurrences(before);
    assert(text.take(p + 1) =~= before.push(text[p]));
    lemma_first_occurrences_push(before, text[p]);
    lemma_first_occurrences_prefix_len(text, p + 1);
    let upto = first_occurrences(text.take(p + 1));
    assert(upto == pre.push(text[p]));
    assert(all.take(upto.len() as int)[pre.len() as int] == text[p]);
    assert(all[pre.len() as int] == text[p]);
    lemma_first_occurrences_no_duplicates(text);
    lemma_vocabulary_entry(all, pre.len() as int);
    // the number of first occurrences before `p` is the number of distinct characters there
    lemma_first_occurrences_no_duplicates(before);
    assert(pre.no_duplicates());
    pre.unique_seq_to_set();
    assert forall|c: char| pre.to_set().contains(c) <==> before.to_set().contains(c) by {
        lemma_first_occurrences_contains(before, c);
    }
    assert(pre.to_set() =~= before.to_set());
}

/// Two characters with the same code are the same character.
pub proof fn lemma_char_code_injective(a: char, b: char)
    ensures
        a as u32 == b as u32 <==> a == b,
{
    assert(0 <= a as int <= 0x10FFFF);
    assert(0 <= b as int <= 0x10FFFF);
}

/// The keys of `char_id_map(chars)` are the codes of the characters of `chars`.
pub proof fn lemma_char_id_map_keys(chars: Seq<char>, c: char)
    ensures
        char_id_map(chars).contains_key(c as u32) <==> chars.contains(c),
    decreases chars.len(),
{
    if chars.len() > 0 {
        let rest = chars.drop_last();
        lemma_char_id_map_keys(rest, c);
        if rest.contains(c) {
            let i = choose|i: int| 0 <= i < rest.len() && rest[i] == c;
            assert(chars[i] == c);
        }
        if chars.contains(c) && c != chars.last() {
            let i = choose|i: int| 0 <= i < chars.len() && chars[i] == c;
            assert(rest[i] == c);
        }
        if c == chars.last() {
            assert(chars[chars.len() - 1] == c);
        }
        lemma_char_code_injective(chars.last(), c);
    }
}

/// No character occurs twice in a sequence.
pub open spec fn no_duplicates(chars: Seq<char>) -> bool {
    forall|i: int, j: int| 0 <= i < j < chars.len() ==> chars[i] != chars[j]
}

/// Every character of a vocabulary is there once: the first occurrences of a
/// text hold no character twice.
pub proof fn lemma_first_occurrences_no_duplicates(text: Seq<char>)
    ensures
        no_duplicates(first_occurrences(text)),
    decreases text.len(),
{
    if text.len() > 0 {
        lemma_first_occurrences_no_duplicates(text.drop_last());
    }
}

/// In the vocabulary `chars`, the character at position `i` and the id `i + 1`
/// stand for each other in both maps.
pub proof fn lemma_vocabulary_entry(chars: Seq<char>, i: int)
    requires
        no_duplicates(chars),
        chars.len() <= MAX_VOCABULARY,
        0 <= i < chars.len(),
    ensures
        char_id_map(chars).contains_key(chars[i] as u32),
        char_id_map(chars)[chars[i] as u32] == (i + 1) as u8,
        id_char_map(chars).contains_key((i + 1) as u8),
        id_char_map(chars)[(i + 1) as u8] == chars[i],
    decreases chars.len(),
{
    if i < chars.len() - 1 {
        let rest = chars.drop_last();
        lemma_vocabulary_entry(rest, i);
        lemma_char_code_injective(chars.last(), chars[i]);
        assert(chars.last() != chars[i]);
    }
}

/// The keys of `id_char_map(chars)` are the ids from 1 to the size of the vocabulary.
pub proof fn lemma_id_char_map_keys(chars: Seq<char>, id: u8)
    requires
        chars.len() <= MAX_VOCABULARY,
    ensures
        id_char_map(chars).contains_key(id) <==> 1 <= id <= chars.len(),
    decreases chars.len(),
{
    if chars.len() > 0 {
        lemma_id_char_map_keys(chars.drop_last(), id);
    }
}

/// Two maps of one vocabulary are inverse to each other: a character code maps
/// to an id exactly when that id maps back to the character.
pub proof fn lemma_vocabulary_maps_inverse(text: Seq<char>, c: char, id: u8)
    requires
        first_occurrences(text).len() <= MAX_VOCABULARY,
    ensures
        ({
            let chars = first_occurrences(text);
            (char_id_map(chars).contains_key(c as u32) && char_id_map(chars)[c as u32] == id)
                <==> (id_char_map(chars).contains_key(id) && id_char_map(chars)[id] == c)
        }),
{
    let chars = first_occurrences(text);
    lemma_first_occurrences_no_duplicates(text);
    lemma_char_id_map_keys(chars, c);
    lemma_id_char_map_keys(chars, id);
    if chars.contains(c) {
        let i = choose|i: int| 0 <= i < chars.len() && chars[i] == c;
        lemma_vocabulary_entry(chars, i);
        if id_char_map(chars).contains_key(id) && id_char_map(chars)[id] == c {
            lemma_vocabulary_entry(chars, id - 1);
        }
    } else if id_char_map(chars).contains_key(id) {
        lemma_vocabulary_entry(chars, id - 1);
    }
}

/// Every character of the text that a vocabulary was built from has an id in it.
pub proof fn lemma_vocabulary_covers_text(text: Seq<char>, c: char)
    requires
        first_occurrences(text).len() <= MAX_VOCABULARY,
        text.contains(c),
    ensures
        char_id_map(first_occurrences(text)).contains_key(c as u32),
        1 <= char_id_map(first_occurrences(text))[c as u32] <= first_occurrences(text).len(),
{
    let chars = first_occurrences(text);
    lemma_first_occurrences_contains(text, c);
    lemma_first_occurrences_no_duplicates(text);
    let i = choose|i: int| 0 <= i < chars.len() && chars[i] == c;
    lemma_vocabulary_entry(chars, i);
}

/// Decoding the encoding of a text gives the text back, for a vocabulary built
/// from a corpus in which every character of the text occurs; the encoding
/// meets what `encode` asks of its input, and the ids it gives meet what
/// `decode` asks.
pub proof fn lemma_decode_encode(corpus: Seq<char>, text: Seq<char>)
    requires
        first_occurrences(corpus).len() <= MAX_VOCABULARY,
        forall|i: int| 0 <= i < text.len() ==> corpus.contains(#[trigger] text[i]),
    ensures
        ({
            let chars = first_occurrences(corpus);
            let ids = text.map_values(|c: char| char_id_map(chars)[c as u32]);
            &&& forall|i: int| 0 <= i < text.len() ==> char_id_map(chars).contains_key(#[trigger] text[i] as u32)
            &&& forall|i: int| 0 <= i < ids.len() ==> id_char_map(chars).contains_key(#[trigger] ids[i])
            &&& ids.map_values(|id: u8| id_char_map(chars)[id]) == text
        }),
{
    let chars = first_occurrences(corpus);
    let ids = text.map_values(|c: char| char_id_map(chars)[c as u32]);
    assert forall|i: int| 0 <= i < text.len() implies char_id_map(chars).contains_key(#[trigger] text[i] as u32)
        && id_char_map(chars).contains_key(ids[i]) && id_char_map(chars)[ids[i]] == text[i] by {
        lemma_vocabulary_covers_text(corpus, text[i]);
        lemma_vocabulary_maps_inverse(corpus, text[i], ids[i]);
    }
    assert(ids.map_values(|id: u8| id_char_map(chars)[id]) =~= text);
}

/// Encoding the decoding of ids gives the ids back, for ids from 1 to the size
/// of a vocabulary built from any corpus; the ids meet what `decode` asks of its
/// input, and the text it gives meets what `encode` asks.
pub proof fn lemma_encode_decode(corpus: Seq<char>, ids: Seq<u8>)
    requires
        first_occurrences(corpus).len() <= MAX_VOCABULARY,
        forall|i: int| 0 <= i < ids.len() ==> 1 <= #[trigger] ids[i] <= first_occurrences(corpus).len(),
    ensures
        ({
            let chars = first_occurrences(corpus);
            let text = ids.map_values(|id: u8| id_char_map(chars)[id]);
            &&& forall|i: int| 0 <= i < ids.len() ==> id_char_map(chars).contains_key(#[trigger] ids[i])
            &&& forall|i: int| 0 <= i < text.len() ==> char_id_map(chars).contains_key(#[trigger] text[i] as u32)
            &&& text.map_values(|c: char| char_id_map(chars)[c as u32]) == ids
        }),
{
    let chars = first_occurrences(corpus);
    let text = ids.map_values(|id: u8| id_char_map(chars)[id]);
    lemma_first_occurrences_no_duplicates(corpus);
    assert forall|i: int| 0 <= i < ids.len() implies id_char_map(chars).contains_key(#[trigger] ids[i])
        && char_id_map(chars).contains_key(text[i] as u32) && char_id_map(chars)[text[i] as u32] == ids[i] by {
        lemma_vocabulary_entry(chars, ids[i] - 1);
    }
    assert(text.map_values(|c: char| char_id_map(chars)[c as u32]) =~= ids);
}

/// Every key of `char_id_map(chars)` is the code of a character of `chars`.
proof fn lemma_char_id_map_keys_are_codes(chars: Seq<char>, k: u32)
    requires
        char_id_map(chars).contains_key(k),
    ensures
        exists|i: int| 0 <= i < chars.len() && chars[i] as u32 == k,
    decreases chars.len(),
{
    let rest = chars.drop_last();
    if k == chars.last() as u32 {
        assert(chars[chars.len() - 1] as u32 == k);
    } else {
        lemma_char_id_map_keys_are_codes(rest, k);
        let i = choose|i: int| 0 <= i < rest.len() && rest[i] as u32 == k;
        assert(chars[i] as u32 == k);
    }
}

/// The vocabulary built from `text`, described by the text alone: a character
/// whose first occurrence is at `p` has as id one more than the number of
/// distinct characters before `p`; every character of the text has an id that
/// maps back to it; the keys are the codes of the characters of the text; the
/// ids run from 1 to the number of distinct characters of the text.
pub proof fn lemma_vocabulary_facts(text: Seq<char>)
    requires
        first_occurrences(text).len() <= MAX_VOCABULARY,
    ensures
        ({
            let char_ids = char_id_map(first_occurrences(text));
            let id_chars = id_char_map(first_occurrences(text));
            &&& forall|p: int|
                #![trigger text[p]]
                0 <= p < text.len() && !text.take(p).contains(text[p]) ==> char_ids.contains_key(
                    text[p] as u32,
                ) && char_ids[text[p] as u32] == text.take(p).to_set().len() + 1
            &&& forall|p: int|
                #![trigger text[p]]
                0 <= p < text.len() ==> char_ids.contains_key(text[p] as u32) && id_chars.contains_key(
                    char_ids[text[p] as u32],
                ) && id_chars[char_ids[text[p] as u32]] == text[p]
            &&& forall|k: u32|
                #[trigger] char_ids.contains_key(k) <==> exists|p: int|
                    #![trigger text[p]]
                    0 <= p < text.len() && text[p] as u32 == k
            &&& forall|id: u8| #[trigger] id_chars.contains_key(id) <==> 1 <= id <= text.to_set().len()
        }),
{
    let chars = first_occurrences(text);
    let char_ids = char_id_map(chars);
    let id_chars = id_char_map(chars);
    assert forall|p: int|
        #![trigger text[p]]
        0 <= p < text.len() && !text.take(p).contains(text[p]) implies char_ids.contains_key(
            text[p] as u32,
        ) && char_ids[text[p] as u32] == text.take(p).to_set().len() + 1 by {
        lemma_vocabulary_id_counts_earlier_characters(text, p);
    }
    assert forall|p: int|
        #![trigger text[p]]
        0 <= p < text.len() implies char_ids.contains_key(text[p] as u32) && id_chars.contains_key(
            char_ids[text[p] as u32],
        ) && id_chars[char_ids[text[p] as u32]] == text[p] by {
        assert(text.contains(text[p]));
        lemma_vocabulary_covers_text(text, text[p]);
        lemma_vocabulary_maps_inverse(text, text[p], char_ids[text[p] as u32]);
    }
    assert forall|k: u32| #[trigger] char_ids.contains_key(k) <==> exists|p: int|
        #![trigger text[p]]
        0 <= p < text.len() && text[p] as u32 == k by {
        if char_ids.contains_key(k) {
            lemma_char_id_map_keys_are_codes(chars, k);
            let i = choose|i: int| 0 <= i < chars.len() && chars[i] as u32 == k;
            assert(chars.contains(chars[i]));
            lemma_first_occurrences_contains(text, chars[i]);
            let p = choose|p: int| 0 <= p < text.len() && text[p] == chars[i];
            assert(text[p] as u32 == k);
        }
        if exists|p: int| #![trigger text[p]] 0 <= p < text.len() && text[p] as u32 == k {
            let p = choose|p: int| #![trigger text[p]] 0 <= p < text.len() && text[p] as u32 == k;
            assert(text.contains(text[p]));
            lemma_vocabulary_covers_text(text, text[p]);
        }
    }
    lemma_first_occurrences_no_duplicates(text);
    assert(chars.no_duplicates());
    chars.unique_seq_to_set();
    assert forall|c: char| chars.to_set().contains(c) <==> text.to_set().contains(c) by {
        lemma_first_occurrences_contains(text, c);
    }
    assert(chars.to_set() =~= text.to_set());
    assert forall|id: u8| #[trigger] id_chars.contains_key(id) <==> 1 <= id <= text.to_set().len() by {
        lemma_id_char_map_keys(chars, id);
    }
}

/// The largest number of distinct characters a vocabulary can hold: ids are
/// `u8` values from 1, and the counter of the next id must itself fit in a `u8`.
pub const MAX_VOCABULARY: usize = 254;

/// Appends `c` to `s` (`String::push`).
#[verifier::external_body]
fn push_char(s: &mut String, c: char)
    ensures
        final(s)@ == old(s)@.push(c),
{
    s.push(c);
}

/// Builds the vocabulary of `text`: every distinct character gets an id, from 1
/// up, in the order of its first occurrence. Returns the map from character
/// codes to ids and the map from ids to characters.
pub fn vocabulary_from_text(text: &str) -> (maps: (HashMap<u32, u8>, HashMap<u8, char>))
    requires
        first_occurrences(text@).len() <= MAX_VOCABULARY,
    ensures
        maps.0@ == char_id_map(first_occurrences(text@)),
        maps.1@ == id_char_map(first_occurrences(text@)),
        forall|p: int|
            #![trigger text@[p]]
            0 <= p < text@.len() && !text@.take(p).contains(text@[p]) ==> maps.0@.contains_key(
                text@[p] as u32,
            ) && maps.0@[text@[p] as u32] == text@.take(p).to_set().len() + 1,
        forall|p: int|
            #![trigger text@[p]]
            0 <= p < text@.len() ==> maps.0@.contains_key(text@[p] as u32) && maps.1@.contains_key(
                maps.0@[text@[p] as u32],
            ) && maps.1@[maps.0@[text@[p] as u32]] == text@[p],
        forall|k: u32|
            #[trigger] maps.0@.contains_key(k) <==> exists|p: int|
                #![trigger text@[p]]
                0 <= p < text@.len() && text@[p] as u32 == k,
        forall|id: u8| #[trigger] maps.1@.contains_key(id) <==> 1 <= id <= text@.to_set().len(),
{
    let mut char_ids: HashMap<u32, u8> = HashMap::new();
    let mut id_chars: HashMap<u8, char> = HashMap::new();
    let mut distinct: u8 = 1;
    let ghost all = text@;
    for c in it: text.chars()
        invariant
            all == text@,
            it.seq() == all,
            first_occurrences(all).len() <= MAX_VOCABULARY,
            distinct == first_occurrences(all.take(it.index())).len() + 1,
            char_ids@ == char_id_map(first_occurrences(all.take(it.index()))),
            id_chars@ == id_char_map(first_occurrences(all.take(it.index()))),
    {
        let ghost seen = first_occurrences(all.take(it.index()));
        proof {
            assert(all.take(it.index() + 1).drop_last() =~= all.take(it.index()));
            lemma_first_occurrences_contains(all.take(it.index()), c);
            lemma_char_id_map_keys(seen, c);
            assert(seen.push(c).drop_last() =~= seen);
            lemma_first_occurrences_prefix_len(all, it.index() + 1);
        }
        if !char_ids.contains_key(&(c as u32)) {
            char_ids.insert(c as u32, distinct);
            id_chars.insert(distinct, c);
            distinct += 1;
        }
    }
    proof {
        assert(all.take(all.len() as int) =~= all);
        lemma_vocabulary_facts(all);
    }
    (char_ids, id_chars)
}

/// Decodes every id of `ids` as its character in the vocabulary.
/// An id that is not a key of `id_chars` is not accepted.
pub fn decode(ids: &Vec<u8>, id_chars: &HashMap<u8, char>) -> (text: String)
    requires
        forall|i: int| 0 <= i < ids@.len() ==> id_chars@.contains_key(#[trigger] ids@[i]),
    ensures
        text@ == ids@.map_values(|id: u8| id_chars@[id]),
{
    let mut text: String = String::new();
    for k in 0..ids.len()
        invariant
            forall|i: int| 0 <= i < ids@.len() ==> id_chars@.contains_key(#[trigger] ids@[i]),
            text@ == ids@.take(k as int).map_values(|id: u8| id_chars@[id]),
    {
        let c: char = *id_chars.get(&ids[k]).unwrap();
        push_char(&mut text, c);
        proof {
            assert(ids@.take(k + 1).map_values(|id: u8| id_chars@[id]) =~= text@);
        }
    }
    proof {
        assert(ids@.take(ids@.len() as int) =~= ids@);
    }
    text
}

/// Encodes every character of `text` as its id in the vocabulary.
/// A character whose code is not a key of `char_ids` is not accepted.
pub fn encode(text: &String, char_ids: &HashMap<u32, u8>) -> (ids: Vec<u8>)
    requires
        forall|i: int| 0 <= i < text@.len() ==> char_ids@.contains_key(#[trigger] text@[i] as u32),
    ensures
        ids@ == text@.map_values(|c: char| char_ids@[c as u32]),
{
    let mut ids: Vec<u8> = Vec::new();
    let ghost all = text@;
    for c in it: text.as_str().chars()
        invariant
            all == text@,
            it.seq() == all,
            forall|i: int| 0 <= i < all.len() ==> char_ids@.contains_key(#[trigger] all[i] as u32),
            ids@ == all.take(it.index()).map_values(|c: char| char_ids@[c as u32]),
    {
        let id: u8 = *char_ids.get(&(c as u32)).unwrap();
        ids.push(id);
    }
    ids
}

} // verus!
