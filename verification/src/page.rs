//! The demonstration page: what its two panels load, and what a panel shows
//! for what it has loaded.

use vstd::prelude::*;

verus! {

/// How long a fetch of the demonstration takes, in milliseconds.
pub const FETCH_DELAY_MS: u64 = 450;

/// What a panel shows once its resource has a result.
#[derive(Debug, PartialEq, Eq)]
pub enum PanelContent {
    /// The resource failed: a line of text.
    Failure { message: String },
    /// The resource is loaded: a read-only field with the value.
    Field { value: String },
}

/// `String::push_str` of the standard library: afterwards `text` is what it
/// was, followed by `tail`. Not proved here; this is what its documentation
/// says.
#[verifier::external_body]
fn push_text(text: &mut String, tail: &str)
    ensures
        final(text)@ == old(text)@ + tail@,
{
    text.push_str(tail);
}

/// What the suspense panel loads.
pub fn suspense_string() -> (text: String)
    ensures
        text@ == "This is a Suspense String"@,
{
    "This is a Suspense String".to_owned()
}

/// What the transition panel loads.
pub fn transition_string() -> (text: String)
    ensures
        text@ == "This is a Transition String"@,
{
    "This is a Transition String".to_owned()
}

/// The fallback of both panels.
pub fn loading_text() -> (text: String)
    ensures
        text@ == "Loading"@,
{
    "Loading".to_owned()
}

/// The line that a panel shows for a failed fetch.
pub fn load_failed_text(error: &str) -> (text: String)
    ensures
        text@ == "Load Failed "@ + error@,
{
    let mut text = "Load Failed ".to_owned();
    push_text(&mut text, error);
    text
}

/// The line that is logged when the innermost component is cleaned up.
pub fn cleanup_message(stored: &str) -> (text: String)
    ensures
        text@ == "string_ref = "@ + stored@,
{
    let mut text = "string_ref = ".to_owned();
    push_text(&mut text, stored);
    text
}

/// The content of a panel for what its resource was read as: nothing while
/// there is no result, the failure line for an error, the field for a value.
pub fn panel_content(read: Option<Result<&String, &String>>) -> (content: Option<PanelContent>)
    ensures
        match read {
            None => content is None,
            Some(Ok(value)) => content matches Some(PanelContent::Field { value: shown })
                && shown@ == value@,
            Some(Err(error)) => content matches Some(PanelContent::Failure { message })
                && message@ == "Load Failed "@ + error@,
        },
{
    match read {
        None => None,
        Some(Ok(value)) => Some(PanelContent::Field { value: value.clone() }),
        Some(Err(error)) => Some(PanelContent::Failure { message: load_failed_text(error.as_str()) }),
    }
}

} // verus!
