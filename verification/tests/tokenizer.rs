use std::collections::HashMap;
use tiny_llm::tokenizer::{decode, encode, vocabulary_from_text, MAX_VOCABULARY};

fn code(c: char) -> u32 {
    c as u32
}

#[test]
fn vocabulary_numbers_characters_by_first_occurrence() {
    let (char_ids, id_chars) = vocabulary_from_text("hello world");
    assert_eq!(char_ids.len(), 8);
    assert_eq!(id_chars.len(), 8);
    let expected = ['h', 'e', 'l', 'o', ' ', 'w', 'r', 'd'];
    for (i, c) in expected.iter().enumerate() {
        let id = (i + 1) as u8;
        assert_eq!(char_ids[&code(*c)], id);
        assert_eq!(id_chars[&id], *c);
    }
}

#[test]
fn vocabulary_of_empty_text_is_empty() {
    let (char_ids, id_chars) = vocabulary_from_text("");
    assert!(char_ids.is_empty());
    assert!(id_chars.is_empty());
}

#[test]
fn vocabulary_handles_non_ascii_characters() {
    let (char_ids, id_chars) = vocabulary_from_text("añaé");
    assert_eq!(char_ids[&code('a')], 1);
    assert_eq!(char_ids[&code('ñ')], 2);
    assert_eq!(char_ids[&code('é')], 3);
    assert_eq!(id_chars[&2], 'ñ');
    assert_eq!(id_chars.len(), 3);
}

#[test]
fn vocabulary_holds_the_largest_allowed_number_of_characters() {
    let text: String = (0..MAX_VOCABULARY as u32).map(|i| char::from_u32(0x100 + i).unwrap()).collect();
    let (char_ids, id_chars) = vocabulary_from_text(&text);
    assert_eq!(char_ids.len(), MAX_VOCABULARY);
    assert_eq!(id_chars[&254], char::from_u32(0x100 + 253).unwrap());
}

#[test]
fn encode_gives_ids_in_text_order() {
    let (char_ids, _) = vocabulary_from_text("abc ");
    let ids = encode(&String::from("cab a"), &char_ids);
    assert_eq!(ids, vec![3, 1, 2, 4, 1]);
}

#[test]
fn encode_of_empty_text_is_empty() {
    let char_ids: HashMap<u32, u8> = HashMap::new();
    assert!(encode(&String::new(), &char_ids).is_empty());
}

#[test]
fn decode_gives_characters_in_id_order() {
    let (_, id_chars) = vocabulary_from_text("abc ");
    let text = decode(&vec![2, 4, 3, 1], &id_chars);
    assert_eq!(text, "b ca");
}

#[test]
fn decode_of_no_ids_is_empty() {
    let id_chars: HashMap<u8, char> = HashMap::new();
    assert_eq!(decode(&Vec::new(), &id_chars), "");
}

#[test]
fn decode_undoes_encode() {
    let corpus = "the quick brown fox jumps over the lazy dog";
    let (char_ids, id_chars) = vocabulary_from_text(corpus);
    let text = String::from("a lazy brown dog");
    let ids = encode(&text, &char_ids);
    assert_eq!(decode(&ids, &id_chars), text);
}

#[test]
fn encode_undoes_decode() {
    let (char_ids, id_chars) = vocabulary_from_text("xyz!");
    let ids: Vec<u8> = vec![4, 1, 1, 3, 2];
    let text = decode(&ids, &id_chars);
    assert_eq!(text, "!xxzy");
    assert_eq!(encode(&text, &char_ids), ids);
}

#[test]
fn vocabulary_maps_are_inverse() {
    let (char_ids, id_chars) = vocabulary_from_text("mississippi");
    for (c, id) in char_ids.iter() {
        assert_eq!(code(id_chars[id]), *c);
    }
    for (id, c) in id_chars.iter() {
        assert_eq!(char_ids[&code(*c)], *id);
    }
}
