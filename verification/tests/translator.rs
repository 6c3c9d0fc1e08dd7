use nltk_test::IndexTranslator;

#[test]
fn ascii_offsets_are_byte_offsets() {
    let mut t = IndexTranslator::new("hello");
    assert_eq!(t.next_byte_idx_for_char_idx(0), Some(0));
    assert_eq!(t.next_byte_idx_for_char_idx(3), Some(3));
    assert_eq!(t.next_byte_idx_for_char_idx(5), Some(5));
    assert_eq!(t.next_byte_idx_for_char_idx(6), None);
}

#[test]
fn wide_characters_take_their_bytes() {
    let text = "aé€😀b";
    let mut t = IndexTranslator::new(text);
    let expected = [0, 1, 3, 6, 10, 11];
    for (chars, bytes) in expected.iter().enumerate() {
        assert_eq!(t.next_byte_idx_for_char_idx(chars), Some(*bytes));
        assert_eq!(t.char_idx(), chars);
        assert_eq!(t.byte_idx(), *bytes);
    }
    assert_eq!(t.next_byte_idx_for_char_idx(6), None);
}

#[test]
fn the_same_offset_may_be_asked_again() {
    let mut t = IndexTranslator::new("né");
    assert_eq!(t.next_byte_idx_for_char_idx(2), Some(3));
    assert_eq!(t.next_byte_idx_for_char_idx(2), Some(3));
}

#[test]
fn a_failed_query_leaves_the_cursor() {
    let mut t = IndexTranslator::new("añb");
    assert_eq!(t.next_byte_idx_for_char_idx(1), Some(1));
    assert_eq!(t.next_byte_idx_for_char_idx(7), None);
    assert_eq!(t.char_idx(), 1);
    assert_eq!(t.byte_idx(), 1);
    assert_eq!(t.next_byte_idx_for_char_idx(3), Some(4));
}

#[test]
fn empty_text_has_offset_zero_only() {
    let mut t = IndexTranslator::new("");
    assert_eq!(t.next_byte_idx_for_char_idx(0), Some(0));
    assert_eq!(t.next_byte_idx_for_char_idx(1), None);
}

#[test]
fn slices_between_offsets_are_the_characters_between() {
    let text = "zß水𝄞 end";
    let chars: Vec<char> = text.chars().collect();
    let queries = [0, 1, 2, 4, 5, 8];
    let mut t = IndexTranslator::new(text);
    let mut offsets = Vec::new();
    for &q in queries.iter() {
        offsets.push(t.next_byte_idx_for_char_idx(q).unwrap());
    }
    assert_eq!(offsets, vec![0, 1, 3, 10, 11, 14]);
    for i in 1..queries.len() {
        let expected: String = chars[queries[i - 1]..queries[i]].iter().collect();
        assert_eq!(&text[offsets[i - 1]..offsets[i]], expected);
    }
}
