use autocomplete::{AutoCompleter, CompletionItem, Point, TextBuffer, WordCompletionProvider};

fn completer() -> AutoCompleter<WordCompletionProvider> {
    AutoCompleter::new(WordCompletionProvider)
}

#[test]
fn test_basic_auto_completion() {
    let mut buffer = TextBuffer::new();
    let mut completer = completer();

    buffer.write_canon(b"hello world hello test");
    buffer.cursor_move_to_logical(Point { x: 5, y: 0 });

    assert!(!completer.is_completing());

    completer.trigger_completion(&buffer);

    let is_completing = completer.is_completing();
    println!("Is completing: {}", is_completing);

    if is_completing {
        let state = completer.get_auto_completion_state();
        println!("Prefix: '{}'", state.prefix);
        println!("Items count: {}", state.items.len());
        for (i, item) in state.items.iter().enumerate() {
            println!("  {}: {}", i, item.label);
        }

        let initial_index = state.selected_index;
        completer.select_next_completion();
        assert_ne!(initial_index, completer.get_auto_completion_state().selected_index);

        completer.select_prev_completion();
        assert_eq!(initial_index, completer.get_auto_completion_state().selected_index);
    }
}

#[test]
fn test_completion_acceptance() {
    let mut buffer = TextBuffer::new();
    let mut completer = completer();
    buffer.write_canon(b"test test_value");
    buffer.cursor_move_to_logical(Point { x: 4, y: 0 });

    completer.trigger_completion(&buffer);

    if completer.is_completing() {
        let accepted = completer.accept_current_completion(&mut buffer);
        println!("Completion accepted: {}", accepted);
    }
}

#[test]
fn test_completion_cancel() {
    let mut buffer = TextBuffer::new();
    let mut completer = completer();
    buffer.write_canon(b"hello world");
    buffer.cursor_move_to_logical(Point { x: 5, y: 0 });

    completer.trigger_completion(&buffer);
    completer.cancel_completion();

    assert!(!completer.is_completing());
}

#[test]
fn completion_item_builders_set_fields() {
    let item = CompletionItem::new("alpha".to_string());
    assert_eq!(item.label, "alpha");
    assert_eq!(item.detail, None);
    assert_eq!(item.sort_text, None);
    let item = item
        .with_detail("a word".to_string())
        .with_sort_text("0".to_string());
    assert_eq!(item.label, "alpha");
    assert_eq!(item.detail, Some("a word".to_string()));
    assert_eq!(item.sort_text, Some("0".to_string()));
}
