use autocomplete::{AutoCompleter, Point, TextBuffer, WordCompletionProvider};

#[test]
fn debug_popup_display() {
    println!("=== Debugging Popup Display ===");

    let mut buffer = TextBuffer::new();
    let mut completer = AutoCompleter::new(WordCompletionProvider);

    buffer.write_canon(b"hello world\nfunction test() {\n    return 42;\n}");

    println!("Buffer length: {} chars", buffer.text_length());

    let test_positions = vec![
        Point { x: 5, y: 0 },
        Point { x: 0, y: 1 },
        Point { x: 10, y: 2 },
    ];

    for (i, pos) in test_positions.iter().enumerate() {
        println!("\n--- Test {} ---", i + 1);
        buffer.cursor_move_to_logical(*pos);
        println!("Cursor at: {:?}", buffer.cursor_logical_pos());

        completer.trigger_completion(&buffer);
        let is_active = completer.is_completing();
        println!("Completion active: {}", is_active);

        if is_active {
            let state = completer.get_auto_completion_state();
            println!("  Prefix: '{}'", state.prefix);
            println!("  Items: {}", state.items.len());
        }
    }

    println!("\n=== Debug Test Completed ===");
}
