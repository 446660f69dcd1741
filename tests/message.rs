use commit_wrap::message::{
    build_prompt, combine_message, commit_msg_file, first_choice_content, require_api_key,
    trim_text, Choice, CompletionError, Message, OpenAIResponse, API_KEY_VAR, PROMPT_INSTRUCTIONS,
};

fn response(contents: &[&str]) -> OpenAIResponse {
    OpenAIResponse {
        choices: contents
            .iter()
            .map(|c| Choice { message: Message { content: c.to_string() } })
            .collect(),
    }
}

#[test]
fn merge_into_missing_file() {
    assert_eq!(combine_message("Add feature X", ""), "Add feature X");
}

#[test]
fn merge_before_existing_content() {
    assert_eq!(
        combine_message("Add feature X", "# Please enter the commit message"),
        "Add feature X\n# Please enter the commit message"
    );
}

#[test]
fn prompt_is_instructions_then_diff() {
    let p = build_prompt("diff --git a/x b/x");
    assert!(p.starts_with("Write a great commit message for the following diff."));
    assert!(p.ends_with("less.\n\ndiff --git a/x b/x"));
    assert_eq!(p, format!("{}{}", PROMPT_INSTRUCTIONS, "diff --git a/x b/x"));
}

#[test]
fn first_choice_is_trimmed() {
    let r = first_choice_content(&response(&["  \nAdd feature\n\n ", "other"]));
    assert!(matches!(r, Ok(ref s) if s == "Add feature"));
}

#[test]
fn no_choices_is_an_error() {
    let r = first_choice_content(&response(&[]));
    assert!(matches!(r, Err(CompletionError::NoChoices)));
}

#[test]
fn trim_keeps_inner_whitespace() {
    assert_eq!(trim_text("\t a  b \u{3000}"), "a  b");
    assert_eq!(trim_text("   "), "");
}

#[test]
fn missing_credential_is_an_error() {
    assert!(matches!(require_api_key(None), Err(CompletionError::MissingCredential)));
    assert!(matches!(require_api_key(Some("k".to_string())), Ok(ref k) if k == "k"));
    assert_eq!(API_KEY_VAR, "OPENAI_API_KEY");
}

#[test]
fn argument_count_is_checked() {
    let one = vec!["prog".to_string()];
    let two = vec!["prog".to_string(), ".git/COMMIT_EDITMSG".to_string()];
    let three = vec!["prog".to_string(), "a".to_string(), "b".to_string()];
    assert_eq!(commit_msg_file(&one), None);
    assert_eq!(commit_msg_file(&two), Some(".git/COMMIT_EDITMSG".to_string()));
    assert_eq!(commit_msg_file(&three), None);
}
