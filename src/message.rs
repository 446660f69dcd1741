use vstd::prelude::*;
use crate::text::{is_space_char, trim, trim_start, trim_end, chars_of};

verus! {

/// The instructions that open every prompt; the staged diff follows them.
pub const PROMPT_INSTRUCTIONS: &'static str = "Write a great commit message for the following diff. Only output the commit message, no other text. Follow a note about git commit messages by Tim Pope. Use a blank line between paragraphs. Make sure the title line is 50 characters or less.\n\n";

/// The environment variable that holds the completion service's credential.
pub const API_KEY_VAR: &'static str = "OPENAI_API_KEY";

/// What the completion step can fail with before or after the network call.
pub enum CompletionError {
    /// The credential variable is not set.
    MissingCredential,
    /// The response listed no candidate completion.
    NoChoices,
}

/// One candidate message of a completion response.
pub struct Message {
    pub content: String,
}

/// One candidate of a completion response.
pub struct Choice {
    pub message: Message,
}

/// A completion response: its candidates, best first.
pub struct OpenAIResponse {
    pub choices: Vec<Choice>,
}

/// The prompt for a diff: the fixed instructions, then the diff as it is.
pub fn build_prompt(diff: &str) -> (r: String)
    ensures
        r@ == PROMPT_INSTRUCTIONS@ + diff@,
{
    let mut r = String::from_str(PROMPT_INSTRUCTIONS);
    r.append(diff);
    r
}

/// The new content of the commit-message file: the formatted message alone
/// when the file held nothing, else the message, a newline and the old content.
pub open spec fn merged(formatted: Seq<char>, existing: Seq<char>) -> Seq<char> {
    if existing.len() == 0 {
        formatted
    } else {
        formatted + seq!['\n'] + existing
    }
}

/// Puts the formatted message in front of what the file held.
pub fn combine_message(formatted: &str, existing: &str) -> (r: String)
    ensures
        r@ == merged(formatted@, existing@),
{
    let mut r = String::from_str(formatted);
    if existing.unicode_len() > 0 {
        proof {
            reveal_strlit("\n");
        }
        r.append("\n");
        r.append(existing);
    }
    r
}

/// `s` without whitespace at either end.
pub fn trim_text(s: &str) -> (r: String)
    ensures
        r@ == trim(s@),
{
    let cs = chars_of(s);
    let n = cs.len();
    let mut lo: usize = 0;
    assert(cs@.skip(0) =~= cs@);
    while lo < n && is_space_char(cs[lo])
        invariant
            n == cs@.len(),
            lo <= n,
            trim_start(cs@.skip(lo as int)) == trim_start(cs@),
        decreases n - lo,
    {
        assert(cs@.skip(lo as int).drop_first() =~= cs@.skip(lo as int + 1));
        lo = lo + 1;
    }
    if lo < n {
        assert(trim_start(cs@.skip(lo as int)) == cs@.skip(lo as int));
    } else {
        assert(cs@.skip(lo as int) =~= Seq::<char>::empty());
    }
    let mut hi: usize = n;
    while hi > lo && is_space_char(cs[hi - 1])
        invariant
            n == cs@.len(),
            lo <= hi <= n,
            trim_end(cs@.subrange(lo as int, hi as int)) == trim_end(cs@.subrange(lo as int, n as int)),
        decreases hi,
    {
        assert(cs@.subrange(lo as int, hi as int).drop_last() =~= cs@.subrange(lo as int, hi as int - 1));
        hi = hi - 1;
    }
    assert(cs@.subrange(lo as int, n as int) =~= cs@.skip(lo as int));
    String::from_str(s.substring_char(lo, hi))
}

/// The first candidate's content, trimmed; `NoChoices` when there is none.
pub fn first_choice_content(resp: &OpenAIResponse) -> (r: Result<String, CompletionError>)
    ensures
        match r {
            Ok(s) => resp.choices@.len() > 0 && s@ == trim(resp.choices@[0].message.content@),
            Err(e) => resp.choices@.len() == 0 && e is NoChoices,
        },
{
    if resp.choices.len() == 0 {
        Err(CompletionError::NoChoices)
    } else {
        Ok(trim_text(resp.choices[0].message.content.as_str()))
    }
}

/// The credential, from the value the environment gave for `API_KEY_VAR`.
pub fn require_api_key(value: Option<String>) -> (r: Result<String, CompletionError>)
    ensures
        match value {
            Some(v) => r == Ok::<String, CompletionError>(v),
            None => r matches Err(CompletionError::MissingCredential),
        },
{
    match value {
        Some(v) => Ok(v),
        None => Err(CompletionError::MissingCredential),
    }
}

/// The path of the commit-message file: the one argument after the program
/// name, or `None` when the count of arguments is not two.
pub fn commit_msg_file(args: &Vec<String>) -> (r: Option<String>)
    ensures
        match r {
            Some(p) => args@.len() == 2 && p@ == args@[1]@,
            None => args@.len() != 2,
        },
{
    if args.len() == 2 {
        Some(String::from_str(args[1].as_str()))
    } else {
        None
    }
}

} // verus!
