use autocomplete::{AutoCompleter, Point, TextBuffer, WordCompletionProvider};

#[test]
fn test_completion_display_properties() {
    println!("=== Testing Completion Display Properties ===");

    let mut buffer = TextBuffer::new();
    let mut completer = AutoCompleter::new(WordCompletionProvider);

    buffer.write_canon(b"function calculate_sum(a, b) {\n    let result = a + b;\n    return result;\n}\n\nlet sum_result = calculate_;\n");

    println!("Buffer created with {} characters", buffer.text_length());

    buffer.cursor_move_to_logical(Point { x: 20, y: 5 });
    println!("Cursor moved to position: {:?}", buffer.cursor_logical_pos());

    completer.trigger_completion(&buffer);

    let is_active = completer.is_completing();
    println!("Completion is active: {}", is_active);

    if is_active {
        let state = completer.get_auto_completion_state();
        println!("Completion details:");
        println!("  Prefix: '{}'", state.prefix);
        println!("  Items count: {}", state.items.len());
        println!("  Selected index: {}", state.selected_index);

        assert!(!state.prefix.is_empty(), "Prefix should not be empty");
        assert!(!state.items.is_empty(), "Should have completion items");
        assert!(state.selected_index < state.items.len(), "Selected index should be valid");

        println!("✓ All completion state properties are valid");
    } else {
        println!("No completions available - this is OK for testing");
    }

    println!("\nTesting boundary conditions:");

    let test_positions = vec![
        Point { x: 0, y: 0 },
        Point { x: 10, y: 2 },
        Point { x: 5, y: 100 },
    ];

    for (i, pos) in test_positions.iter().enumerate() {
        println!("  Test {}: Moving to {:?}", i + 1, pos);
        buffer.cursor_move_to_logical(*pos);
        completer.trigger_completion(&buffer);
        println!("    Completion active: {}", completer.is_completing());
    }

    println!("=== Display Fix Test Completed ===");
}
