use autocomplete::{AutoCompleter, CompletionProvider, Point, TextBuffer, WordCompletionProvider};

#[test]
fn debug_completion_triggering() {
    let mut buffer = TextBuffer::new();
    let mut completer = AutoCompleter::new(WordCompletionProvider);

    buffer.write_canon(b"hello world hello test function hello_world");

    println!("=== Auto-completion Debug Test ===");
    println!("Buffer content: \"hello world hello test function hello_world\"");
    println!("Buffer length: {}", buffer.text_length());

    buffer.cursor_move_to_logical(Point { x: 5, y: 0 });
    println!("Cursor position: {:?}", buffer.cursor_logical_pos());

    completer.trigger_completion(&buffer);
    println!("Manual trigger result - is completing: {}", completer.is_completing());

    if completer.is_completing() {
        let state = completer.get_auto_completion_state();
        println!("  Prefix found: '{}'", state.prefix);
        println!("  Items found: {}", state.items.len());
        for item in &state.items {
            println!("    - {}", item.label);
        }
    } else {
        println!("  No completions found");
        println!("  Checking buffer content for words:");
        let completions_debug = WordCompletionProvider.get_completions(&buffer, "");
        println!("  Total words found: {}", completions_debug.len());
        for (i, item) in completions_debug.iter().enumerate().take(10) {
            println!("    {}: {}", i, item.label);
        }
    }

    println!("\nDirect word extraction test:");
    let completions = WordCompletionProvider.get_completions(&buffer, "hel");
    println!("Words starting with 'hel': {}", completions.len());
    for item in completions {
        println!("  - {}", item.label);
    }

    let completions2 = WordCompletionProvider.get_completions(&buffer, "hello");
    println!("\nWords starting with 'hello': {}", completions2.len());
    for item in completions2 {
        println!("  - {}", item.label);
    }

    println!("=== Debug Test Completed ===");
}
