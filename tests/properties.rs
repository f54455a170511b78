use autocomplete::completer::MIN_PREFIX_LEN;
use autocomplete::provider::string_of_word;
use autocomplete::words::{compare_words, word_byte};
use autocomplete::{
    AutoCompleter, AutoCompletionState, CompletionItem, CompletionProvider, Point, TextBuffer,
    WordCompletionProvider,
};

fn buffer_with(text: &[u8]) -> TextBuffer {
    let mut b = TextBuffer::new();
    b.write_canon(text);
    b
}

fn labels(items: &[CompletionItem]) -> Vec<String> {
    items.iter().map(|i| i.label.clone()).collect()
}

fn contents(b: &TextBuffer) -> Vec<u8> {
    b.read_forward(0).to_vec()
}

#[test]
fn candidates_ordered_shortest_first() {
    let b = buffer_with(b"hello world hello test function hello_world");
    let items = WordCompletionProvider.get_completions(&b, "hel");
    assert_eq!(labels(&items), vec!["hello", "hello_world"]);
    for item in &items {
        assert_eq!(item.detail, None);
        assert_eq!(item.sort_text, None);
    }
    let items = WordCompletionProvider.get_completions(&b, "hello");
    assert_eq!(labels(&items), vec!["hello_world"]);
}

#[test]
fn empty_prefix_offers_nothing() {
    let b = buffer_with(b"hello world hello test function hello_world");
    assert!(WordCompletionProvider.get_completions(&b, "").is_empty());
    let empty = TextBuffer::new();
    assert!(WordCompletionProvider.get_completions(&empty, "").is_empty());
}

#[test]
fn equal_lengths_in_byte_order() {
    let b = buffer_with(b"abe abd abZ abc abz");
    let items = WordCompletionProvider.get_completions(&b, "ab");
    assert_eq!(labels(&items), vec!["abZ", "abc", "abd", "abe", "abz"]);
}

#[test]
fn duplicates_collapse_and_exact_match_is_left_out() {
    let b = buffer_with(b"foo foobar foobar foo foobaz foobar");
    let items = WordCompletionProvider.get_completions(&b, "foo");
    assert_eq!(labels(&items), vec!["foobar", "foobaz"]);
    let b = buffer_with(b"test");
    assert!(WordCompletionProvider.get_completions(&b, "test").is_empty());
}

#[test]
fn runs_that_are_not_utf8_are_skipped() {
    let b = buffer_with("café caféine ca_x".as_bytes());
    let items = WordCompletionProvider.get_completions(&b, "ca");
    assert_eq!(labels(&items), vec!["ca_x"]);
    assert!(WordCompletionProvider.get_completions(&b, "caf\u{e9}").is_empty());
}

#[test]
fn latin1_alphanumeric_bytes_join_words() {
    let b = buffer_with(&[0x61, 0x62, 0xC2, 0xB5]);
    let items = WordCompletionProvider.get_completions(&b, "ab");
    assert_eq!(labels(&items), vec!["ab\u{b5}"]);
    let b = buffer_with("\u{b5}m x".as_bytes());
    let items = WordCompletionProvider.get_completions(&b, "\u{b5}");
    assert_eq!(labels(&items), vec!["\u{b5}m"]);
}

#[test]
fn order_counts_label_bytes() {
    let b = buffer_with("ab\u{b5} abcd abc".as_bytes());
    let items = WordCompletionProvider.get_completions(&b, "ab");
    assert_eq!(labels(&items), vec!["abc", "abcd", "ab\u{b5}"]);
}

#[test]
fn trigger_after_latin1_bytes_stays_total() {
    let b = buffer_with("\u{b5}m \u{b5}".as_bytes());
    let mut c = AutoCompleter::new(WordCompletionProvider);
    c.trigger_completion(&b);
    assert!(!c.is_completing());
    let b = buffer_with("ab\u{b5} ab".as_bytes());
    c.trigger_completion(&b);
    assert!(c.is_completing());
    assert_eq!(labels(&c.state.items), vec!["ab\u{b5}"]);
    assert_eq!(c.state.start_pos, Point { x: 5, y: 0 });
    assert_eq!(c.state.end_pos, Point { x: 7, y: 0 });
}

#[test]
fn no_completions_in_empty_buffer() {
    let b = TextBuffer::new();
    assert!(WordCompletionProvider.get_completions(&b, "ab").is_empty());
    let mut c = AutoCompleter::new(WordCompletionProvider);
    c.trigger_completion(&b);
    assert!(!c.is_completing());
}

#[test]
fn trigger_offers_word_extending_fragment() {
    let b = buffer_with(b"alpha alphabet al");
    let mut c = AutoCompleter::new(WordCompletionProvider);
    c.trigger_completion(&b);
    assert!(c.is_completing());
    assert_eq!(c.state.prefix, "al");
    assert_eq!(labels(&c.state.items), vec!["alpha", "alphabet"]);
    assert_eq!(c.state.selected_index, 0);
    assert!(c.state.show_popup);
    assert_eq!(c.state.start_pos, Point { x: 15, y: 0 });
    assert_eq!(c.state.end_pos, Point { x: 17, y: 0 });
}

#[test]
fn trigger_on_later_line_records_span() {
    let mut b = buffer_with(b"let value = 1;\nlet other = val");
    let mut c = AutoCompleter::new(WordCompletionProvider);
    c.trigger_completion(&b);
    assert!(c.is_completing());
    assert_eq!(c.state.prefix, "val");
    assert_eq!(labels(&c.state.items), vec!["value"]);
    assert_eq!(c.state.start_pos, Point { x: 12, y: 1 });
    assert_eq!(c.state.end_pos, Point { x: 15, y: 1 });
    b.cursor_move_to_logical(Point { x: 7, y: 0 });
    c.trigger_completion(&b);
    assert!(c.is_completing());
    assert_eq!(c.state.prefix, "val");
    assert_eq!(c.state.start_pos, Point { x: 4, y: 0 });
}

#[test]
fn fragment_of_one_letter_closes_session() {
    assert_eq!(MIN_PREFIX_LEN, 2);
    let mut b = buffer_with(b"hello help he");
    let mut c = AutoCompleter::new(WordCompletionProvider);
    c.trigger_completion(&b);
    assert!(c.is_completing());
    b.cursor_move_to_offset(12);
    c.trigger_completion(&b);
    assert!(!c.is_completing());
    assert!(c.state.prefix.is_empty());
    assert!(c.state.items.is_empty());
    assert_eq!(c.state.selected_index, 0);
    assert!(!c.state.show_popup);
}

#[test]
fn fragment_stops_at_separator() {
    let b = buffer_with(b"value x.va");
    let mut c = AutoCompleter::new(WordCompletionProvider);
    c.trigger_completion(&b);
    assert!(c.is_completing());
    assert_eq!(c.state.prefix, "va");
    assert_eq!(labels(&c.state.items), vec!["value"]);
}

#[test]
fn trigger_without_candidates_closes_session() {
    let mut b = buffer_with(b"alpha alphabet al zz");
    let mut c = AutoCompleter::new(WordCompletionProvider);
    b.cursor_move_to_offset(17);
    c.trigger_completion(&b);
    assert!(c.is_completing());
    b.cursor_move_to_offset(20);
    c.trigger_completion(&b);
    assert!(!c.is_completing());
    assert!(c.state.items.is_empty());
}

#[test]
fn next_then_prev_round_trip() {
    let b = buffer_with(b"ab1 ab22 ab333 ab");
    let mut c = AutoCompleter::new(WordCompletionProvider);
    c.trigger_completion(&b);
    assert_eq!(c.state.items.len(), 3);
    for start in 0..3 {
        c.state.selected_index = start;
        c.state.select_next();
        c.state.select_prev();
        assert_eq!(c.state.selected_index, start);
        c.state.select_prev();
        c.state.select_next();
        assert_eq!(c.state.selected_index, start);
    }
}

#[test]
fn selection_wraps_both_ways() {
    let b = buffer_with(b"ab1 ab22 ab333 ab");
    let mut c = AutoCompleter::new(WordCompletionProvider);
    c.trigger_completion(&b);
    c.select_prev_completion();
    assert_eq!(c.state.selected_index, 2);
    c.select_next_completion();
    assert_eq!(c.state.selected_index, 0);
    c.state.select_next();
    c.state.select_next();
    assert_eq!(c.state.selected_index, 2);
    c.state.select_next();
    assert_eq!(c.state.selected_index, 0);
}

#[test]
fn selection_on_empty_list_stays() {
    let mut s = AutoCompletionState::new();
    s.select_next();
    assert_eq!(s.selected_index, 0);
    s.select_prev();
    assert_eq!(s.selected_index, 0);
}

#[test]
fn accept_replaces_fragment_with_highlighted_label() {
    let mut b = buffer_with(b"alpha alphabet al");
    let mut c = AutoCompleter::new(WordCompletionProvider);
    c.trigger_completion(&b);
    c.select_next_completion();
    assert_eq!(c.get_auto_completion_state().selected_index, 1);
    assert!(c.accept_current_completion(&mut b));
    assert_eq!(contents(&b), b"alpha alphabet alphabet".to_vec());
    assert_eq!(b.cursor_offset(), 23);
    assert!(!c.is_completing());
    assert!(c.state.items.is_empty());
    assert!(c.state.prefix.is_empty());
}

#[test]
fn accept_in_middle_of_text() {
    let mut b = buffer_with(b"counter = 0; cou + 1");
    b.cursor_move_to_offset(16);
    let mut c = AutoCompleter::new(WordCompletionProvider);
    c.trigger_completion(&b);
    assert_eq!(labels(&c.state.items), vec!["counter"]);
    assert!(c.state.accept_current(&mut b));
    assert_eq!(contents(&b), b"counter = 0; counter + 1".to_vec());
    assert_eq!(b.cursor_offset(), 20);
}

#[test]
fn accept_without_session_does_nothing() {
    let mut b = buffer_with(b"alpha al");
    let mut s = AutoCompletionState::new();
    assert!(!s.accept_current(&mut b));
    assert_eq!(contents(&b), b"alpha al".to_vec());
    assert_eq!(b.cursor_offset(), 8);
}

#[test]
fn cancel_twice_same_as_once() {
    let b = buffer_with(b"alpha alphabet al");
    let mut c = AutoCompleter::new(WordCompletionProvider);
    c.trigger_completion(&b);
    assert!(c.is_completing());
    c.cancel_completion();
    let start = c.state.start_pos;
    let end = c.state.end_pos;
    assert!(!c.is_completing());
    c.cancel_completion();
    assert!(!c.is_completing());
    assert!(c.state.prefix.is_empty());
    assert!(c.state.items.is_empty());
    assert_eq!(c.state.selected_index, 0);
    assert!(!c.state.show_popup);
    assert_eq!(c.state.start_pos, start);
    assert_eq!(c.state.end_pos, end);
}

#[test]
fn defaults_are_inactive() {
    assert_eq!(Point::default(), Point { x: 0, y: 0 });
    let c: AutoCompleter<WordCompletionProvider> = AutoCompleter::default();
    assert!(!c.is_completing());
    let mut b = buffer_with(b"alpha al");
    let mut c = c;
    assert!(!c.accept_current_completion(&mut b));
    assert_eq!(contents(&b), b"alpha al".to_vec());
    let s = AutoCompletionState::default();
    assert!(!s.is_active);
    assert!(!s.show_popup);
    assert!(s.prefix.is_empty());
    assert!(s.items.is_empty());
    assert_eq!(s.start_pos, Point { x: 0, y: 0 });
}

#[test]
fn words_become_strings() {
    assert_eq!(string_of_word(b"abc_1"), "abc_1");
    assert_eq!(string_of_word(b""), "");
    assert_eq!(string_of_word(&[0x61, 0xb5]), "a\u{b5}");
}

#[test]
fn word_bytes_and_order() {
    assert!(word_byte(b'a') && word_byte(b'Z') && word_byte(b'7') && word_byte(b'_'));
    assert!(!word_byte(b' ') && !word_byte(b'.') && !word_byte(0x80) && !word_byte(0xa9));
    assert!(word_byte(0xc3) && word_byte(0xb5) && word_byte(0xb2) && word_byte(0xff));
    assert!(!word_byte(0xd7) && !word_byte(0xf7));
    assert!(compare_words(b"ab", b"abc") < 0);
    assert!(compare_words(b"abd", b"abc") > 0);
    assert!(compare_words(b"abZ", b"abc") < 0);
    assert_eq!(compare_words(b"abc", b"abc"), 0);
}

#[test]
fn buffer_edits_and_positions() {
    let mut b = buffer_with(b"one\ntwo\nthree");
    assert_eq!(b.text_length(), 13);
    assert_eq!(b.cursor_logical_pos(), Point { x: 5, y: 2 });
    b.cursor_move_to_logical(Point { x: 99, y: 1 });
    assert_eq!(b.cursor_offset(), 7);
    b.cursor_move_to_logical(Point { x: 1, y: 99 });
    assert_eq!(b.cursor_offset(), 13);
    b.cursor_move_to_logical(Point { x: 1, y: 0 });
    b.write_canon(b"XY");
    assert_eq!(contents(&b), b"oXYne\ntwo\nthree".to_vec());
    assert_eq!(b.cursor_offset(), 3);
    b.delete_backward(10);
    assert_eq!(contents(&b), b"ne\ntwo\nthree".to_vec());
    assert_eq!(b.cursor_offset(), 0);
    assert_eq!(b.offset_to_point(7), Point { x: 0, y: 2 });
    assert_eq!(b.read_backward(4), b"ne\nt");
    assert!(b.read_forward(99).is_empty());
}
