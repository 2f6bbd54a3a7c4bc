use promptpal::count_tokens;

#[test]
fn test_token_count() {
    // Test basic token counting with different models
    let (count, context) = count_tokens("Hello", Some("gpt-4"));
    assert_eq!(count, 1);
    assert_eq!(context, 8192);

    let (count, context) = count_tokens("Hello, world!", Some("gpt-3.5-turbo"));
    assert_eq!(count, 4);
    assert_eq!(context, 16385);

    // Test empty string
    let (count, _) = count_tokens("", None);
    assert_eq!(count, 0);

    // Test whitespace
    let (count, _) = count_tokens("   ", None);
    assert_eq!(count, 1);

    // Test special characters
    let (count, _) = count_tokens("🦀", None);
    assert_eq!(count, 3);

    // Test longer text
    let long_text = "This is a longer piece of text that should be more than 20 tokens so we can test if the tokenizer is working correctly ...🤫";
    let (count, _) = count_tokens(long_text, None);
    assert!(count > 20);
}

#[test]
fn test_unknown_model_context_size_is_zero() {
    let (_, context) = count_tokens("Hello", Some("no-such-model"));
    assert_eq!(context, 0);
}
