use autocomplete::{AutoCompleter, Point, TextBuffer, WordCompletionProvider};

#[test]
fn test_improved_auto_trigger() {
    println!("=== Testing Improved Auto-Trigger ===");

    let mut buffer = TextBuffer::new();
    let mut completer = AutoCompleter::new(WordCompletionProvider);

    buffer.write_canon(b"function test_function() {\n    let test_value = 42;\n    return test_;\n}");

    println!("Buffer content:");
    println!("{}", String::from_utf8_lossy(buffer.read_forward(0)));

    buffer.cursor_move_to_logical(Point { x: 11, y: 2 });
    println!("\nTest 1: Typing single character 'f'");
    buffer.write_canon(b"f");
    completer.trigger_completion(&buffer);

    println!("Is completing after 'f': {}", completer.is_completing());
    if completer.is_completing() {
        let state = completer.get_auto_completion_state();
        println!("  Prefix: '{}'", state.prefix);
        println!("  Suggestions: {}", state.items.len());
        for (i, item) in state.items.iter().enumerate() {
            println!("    {}: {}", i, item.label);
        }
    }

    completer.cancel_completion();
    println!("\nTest 2: Manual trigger with Ctrl+Space");
    completer.trigger_completion(&buffer);
    println!("Is completing with manual trigger: {}", completer.is_completing());

    if completer.is_completing() {
        let state = completer.get_auto_completion_state();
        println!("  Prefix: '{}'", state.prefix);
        println!("  Suggestions: {}", state.items.len());
    }

    println!("=== Improved Trigger Test Completed ===");
}
