use worker_index::builder::BuildError;
use worker_index::reader::{at_from_bytes, LookupError};
use worker_index::text::{chars_of, phrases_of, split_words};
use worker_index::trie::Trie;

fn sorted(mut v: Vec<u32>) -> Vec<u32> {
    v.sort();
    v
}

fn frozen(trie: &mut Trie) -> Vec<u8> {
    trie.serialize().expect("small tries always fit the format")
}

#[test]
fn single_insert_phrases_scenario() {
    let mut trie = Trie::new();
    assert_eq!(trie.index_text("ANA MARIA", 7), Ok(()));
    let bytes = frozen(&mut trie);
    assert_eq!(at_from_bytes("ANA", &bytes, false), Ok(Some(vec![7])));
    assert_eq!(at_from_bytes("MARIA", &bytes, false), Ok(Some(vec![7])));
    assert_eq!(at_from_bytes("ANA MARIA", &bytes, false), Ok(Some(vec![7])));
    assert_eq!(at_from_bytes("MARI", &bytes, false), Ok(Some(vec![])));
    assert_eq!(at_from_bytes("MARIO", &bytes, false), Ok(None));
    // "ANA" and "ANA MARIA" both lie below the prefix "ANA".
    let prefixed = at_from_bytes("ANA", &bytes, true).unwrap().unwrap();
    assert_eq!(prefixed, vec![7, 7]);
    let mut distinct = prefixed.clone();
    distinct.dedup();
    assert_eq!(distinct, vec![7]);
}

#[test]
fn two_inserts_exact_and_prefix_scenario() {
    let mut trie = Trie::new();
    trie.add("JOAO".to_string(), 1);
    trie.add("JOAO SILVA".to_string(), 2);
    let bytes = frozen(&mut trie);
    assert_eq!(at_from_bytes("JOAO", &bytes, false), Ok(Some(vec![1])));
    assert_eq!(sorted(at_from_bytes("JOAO", &bytes, true).unwrap().unwrap()), vec![1, 2]);
}

#[test]
fn inserted_string_is_found_after_save() {
    let mut trie = Trie::new();
    let words = ["CASA", "CASADO", "CAMA", "BOLA", "CASA"];
    for (i, w) in words.iter().enumerate() {
        trie.add(w.to_string(), i as u32 + 1);
    }
    let bytes = frozen(&mut trie);
    for (i, w) in words.iter().enumerate() {
        let found = at_from_bytes(w, &bytes, false).unwrap().unwrap();
        assert!(found.contains(&(i as u32 + 1)));
    }
    assert_eq!(at_from_bytes("CASA", &bytes, false), Ok(Some(vec![1, 5])));
}

#[test]
fn prefix_query_covers_extensions() {
    let mut trie = Trie::new();
    trie.add("CASA".to_string(), 1);
    trie.add("CASADO".to_string(), 2);
    trie.add("CAMA".to_string(), 3);
    trie.add("BOLA".to_string(), 4);
    let bytes = frozen(&mut trie);
    assert_eq!(sorted(at_from_bytes("CA", &bytes, true).unwrap().unwrap()), vec![1, 2, 3]);
    assert_eq!(sorted(at_from_bytes("CASA", &bytes, true).unwrap().unwrap()), vec![1, 2]);
    assert_eq!(at_from_bytes("B", &bytes, true), Ok(Some(vec![4])));
    // Breadth first: "CASA" (depth 0) comes before "CASADO" (depth 2).
    assert_eq!(at_from_bytes("CAS", &bytes, true), Ok(Some(vec![1, 2])));
}

#[test]
fn missing_path_and_empty_query_give_no_result() {
    let mut trie = Trie::new();
    trie.add("PEDRO".to_string(), 3);
    let bytes = frozen(&mut trie);
    assert_eq!(at_from_bytes("PAULO", &bytes, false), Ok(None));
    assert_eq!(at_from_bytes("PAULO", &bytes, true), Ok(None));
    assert_eq!(at_from_bytes("PEDROS", &bytes, false), Ok(None));
    assert_eq!(at_from_bytes("", &bytes, false), Ok(None));
    assert_eq!(at_from_bytes("", &bytes, true), Ok(None));
}

#[test]
fn empty_trie_serializes_to_bare_root() {
    let mut trie = Trie::new();
    assert_eq!(frozen(&mut trie), vec![0, 0, 0, 0]);
}

#[test]
fn serialized_layout_is_exact() {
    let mut trie = Trie::new();
    trie.add("A".to_string(), 5);
    let bytes = frozen(&mut trie);
    let expected: Vec<u8> = vec![
        0, 0, 0, // root: no identifiers
        1, // one child
        65, 0, 0, 0, // 'A'
        1, 0, 0, 0, // arena position 1
        16, 0, 0, 0, // at byte 16
        1, 0, 0, // one identifier
        5, 0, 0, 0, // 5
        0, // no children
    ];
    assert_eq!(bytes, expected);
}

#[test]
fn identifiers_are_little_endian() {
    let mut trie = Trie::new();
    trie.add("Z".to_string(), 0x0102_0304);
    let bytes = frozen(&mut trie);
    assert_eq!(&bytes[19..23], &[4, 3, 2, 1]);
    assert_eq!(at_from_bytes("Z", &bytes, false), Ok(Some(vec![0x0102_0304])));
}

#[test]
fn accented_characters_stay_distinct() {
    let mut trie = Trie::new();
    trie.add("JOSÉ".to_string(), 1);
    trie.add("JOSĘ".to_string(), 2);
    let bytes = frozen(&mut trie);
    assert_eq!(at_from_bytes("JOSÉ", &bytes, false), Ok(Some(vec![1])));
    assert_eq!(at_from_bytes("JOSĘ", &bytes, false), Ok(Some(vec![2])));
}

#[test]
fn encode_decode_encode_is_identical() {
    let mut trie = Trie::new();
    for (i, w) in ["MARIA", "MARIANA", "JOSÉ", "ANA", "ANA MARIA"].iter().enumerate() {
        trie.add(w.to_string(), i as u32 + 10);
    }
    let first = frozen(&mut trie);
    let mut back = Trie::new_from_bytes(&first).unwrap();
    let second = frozen(&mut back);
    assert_eq!(first, second);
    assert_eq!(at_from_bytes("JOSÉ", &second, false), Ok(Some(vec![12])));
}

#[test]
fn decoded_trie_accepts_more_inserts() {
    let mut trie = Trie::new();
    trie.add("ROSA".to_string(), 1);
    let bytes = frozen(&mut trie);
    let mut back = Trie::new_from_bytes(&bytes).unwrap();
    back.add("ROSANA".to_string(), 2);
    let again = frozen(&mut back);
    assert_eq!(sorted(at_from_bytes("ROSA", &again, true).unwrap().unwrap()), vec![1, 2]);
}

#[test]
fn truncated_file_is_malformed() {
    let mut trie = Trie::new();
    trie.add("LUIZ".to_string(), 9);
    let bytes = frozen(&mut trie);
    let cut = &bytes[..bytes.len() - 2];
    assert_eq!(at_from_bytes("LUIZ", cut, false), Err(LookupError::Malformed));
    assert!(Trie::new_from_bytes(cut).is_err());
    assert!(Trie::new_from_bytes(&[]).is_err());
}

#[test]
fn backward_child_offset_is_malformed() {
    // A root whose only child entry points back at the root itself.
    let bytes: Vec<u8> = vec![0, 0, 0, 1, 65, 0, 0, 0, 1, 0, 0, 0, 0, 0, 0, 0];
    assert_eq!(at_from_bytes("A", &bytes, false), Err(LookupError::Malformed));
    assert_eq!(at_from_bytes("A", &bytes, true), Err(LookupError::Malformed));
}

#[test]
fn phrases_of_three_words() {
    let ws = split_words(&chars_of("ANA  MARIA\tSILVA "));
    assert_eq!(ws.len(), 3);
    let ps: Vec<String> = phrases_of(&ws).iter().map(|p| p.iter().collect()).collect();
    assert_eq!(ps, vec!["ANA", "ANA MARIA", "ANA MARIA SILVA", "MARIA", "MARIA SILVA", "SILVA"]);
    assert_eq!(ps.len(), 3 * 4 / 2);
}

#[test]
fn unicode_white_space_splits_words() {
    let ws = split_words(&chars_of("\u{3000}JOÃO\u{a0}DA\u{2003}SILVA\n"));
    let ws: Vec<String> = ws.iter().map(|w| w.iter().collect()).collect();
    assert_eq!(ws, vec!["JOÃO", "DA", "SILVA"]);
    assert!(split_words(&chars_of(" \t ")).is_empty());
}

#[test]
fn index_text_stores_every_phrase() {
    let mut trie = Trie::new();
    trie.index_text("A B C", 4).unwrap();
    let bytes = frozen(&mut trie);
    for p in ["A", "B", "C", "A B", "B C", "A B C"] {
        assert_eq!(at_from_bytes(p, &bytes, false), Ok(Some(vec![4])), "phrase {}", p);
    }
    assert_eq!(at_from_bytes("A C", &bytes, false), Ok(None));
}

#[test]
fn repeated_word_is_stored_per_occurrence() {
    let mut trie = Trie::new();
    trie.index_text("LUA LUA", 8).unwrap();
    let bytes = frozen(&mut trie);
    assert_eq!(at_from_bytes("LUA", &bytes, false), Ok(Some(vec![8, 8])));
    assert_eq!(at_from_bytes("LUA LUA", &bytes, false), Ok(Some(vec![8])));
}

#[test]
fn index_text_of_blank_text_changes_nothing() {
    let mut trie = Trie::new();
    assert_eq!(trie.index_text("   ", 1), Ok(()));
    assert_eq!(frozen(&mut trie), vec![0, 0, 0, 0]);
    let _ = BuildError::Full;
}

#[test]
fn repeated_add_keeps_two_nodes() {
    let mut trie = Trie::new();
    trie.add("X".to_string(), 3);
    trie.add("X".to_string(), 3);
    assert_eq!(trie.nodes.nodes.len(), 2);
    assert_eq!(trie.nodes.nodes[1].val, vec![3, 3]);
}

#[test]
fn empty_string_add_stores_at_root() {
    let mut trie = Trie::new();
    trie.add("AB".to_string(), 1);
    trie.add("".to_string(), 2);
    assert_eq!(trie.nodes.nodes.len(), 3);
    assert_eq!(trie.nodes.nodes[0].val, vec![2]);
    assert_eq!(trie.nodes.nodes[1].val, Vec::<u32>::new());
}

#[test]
fn add_appends_one_node_per_missing_prefix() {
    let mut trie = Trie::new();
    trie.add("CASA".to_string(), 1);
    assert_eq!(trie.nodes.nodes.len(), 5);
    trie.add("CASADO".to_string(), 2);
    assert_eq!(trie.nodes.nodes.len(), 7);
    trie.add("CAMA".to_string(), 3);
    assert_eq!(trie.nodes.nodes.len(), 9);
    assert_eq!(trie.nodes.nodes[2].chars.len(), 2);
}

#[test]
fn serialize_records_node_offsets() {
    let mut trie = Trie::new();
    trie.add("AB".to_string(), 7);
    trie.add("AC".to_string(), 8);
    frozen(&mut trie);
    let addresses: Vec<u32> = trie.nodes.nodes.iter().map(|n| n.address).collect();
    // Root: 4 + 12; "A": 4 + 24; "AB": 4 + 4; "AC": 4 + 4.
    assert_eq!(addresses, vec![0, 16, 44, 52]);
}

#[test]
fn duplicate_labels_in_file_are_malformed() {
    // A root with two children both labelled 'A'.
    let mut bytes: Vec<u8> = vec![0, 0, 0, 2];
    bytes.extend([65, 0, 0, 0, 1, 0, 0, 0, 28, 0, 0, 0]);
    bytes.extend([65, 0, 0, 0, 2, 0, 0, 0, 32, 0, 0, 0]);
    bytes.extend([0, 0, 0, 0]);
    bytes.extend([0, 0, 0, 0]);
    assert!(Trie::new_from_bytes(&bytes).is_err());
}

#[test]
fn orphan_node_in_file_is_malformed() {
    // A bare root followed by a node that no edge names.
    let bytes: Vec<u8> = vec![0, 0, 0, 0, 1, 0, 0, 9, 0, 0, 0, 0];
    assert!(Trie::new_from_bytes(&bytes).is_err());
}

#[test]
fn indexed_phrase_prefixes_have_paths() {
    let mut trie = Trie::new();
    trie.index_text("ANA MARIA", 7).unwrap();
    let bytes = frozen(&mut trie);
    assert_eq!(at_from_bytes("AN", &bytes, false), Ok(Some(vec![])));
    assert_eq!(at_from_bytes("ANA M", &bytes, false), Ok(Some(vec![])));
    assert_eq!(at_from_bytes("MAR", &bytes, false), Ok(Some(vec![])));
    assert_eq!(at_from_bytes("ARIA", &bytes, false), Ok(None));
    assert_eq!(at_from_bytes("ANA  MARIA", &bytes, false), Ok(None));
    // One node per distinct prefix of "ANA", "ANA MARIA", "MARIA", plus the root.
    assert_eq!(trie.nodes.nodes.len(), 1 + 9 + 5);
}
