//! Approximate token counting for GPT-style models, through the
//! `tiktoken_rs` crate's cl100k_base encoding.

use vstd::prelude::*;

verus! {

/// The number of tokens the cl100k_base encoding assigns to a text; a
/// function of the text alone.
pub uninterp spec fn token_count_of(text: Seq<char>) -> nat;

/// The context size `tiktoken_rs` records for a model name, `None` for an
/// unrecognized model; a function of the name alone.
pub uninterp spec fn context_size_of(model: Seq<char>) -> Option<usize>;

/// Relies on `tiktoken_rs::cl100k_base_singleton` and
/// `CoreBPE::encode_with_special_tokens`: the encoding is deterministic, a
/// function of the text alone, so the count of its tokens is the named
/// `token_count_of`.
#[verifier::external_body]
fn cl100k_token_count(text: &str) -> (r: usize)
    ensures
        r as nat == token_count_of(text@),
{
    let bpe = tiktoken_rs::cl100k_base_singleton();
    bpe.encode_with_special_tokens(text).len()
}

/// Relies on `tiktoken_rs::model::get_context_size`: a fixed lookup over
/// the model name, `None` for an unrecognized model, named
/// `context_size_of`.
#[verifier::external_body]
fn model_context_size(model: &str) -> (r: Option<usize>)
    ensures
        r == context_size_of(model@),
{
    tiktoken_rs::model::get_context_size(model)
}

/// Counts the tokens of a text under the cl100k_base encoding, and pairs
/// the count with the context size of the chosen model. The model defaults
/// to gpt-3.5-turbo; an unrecognized model gets context size zero.
pub fn count_tokens(text: &str, model: Option<&str>) -> (r: (usize, usize))
    ensures
        r.0 as nat == token_count_of(text@),
        ({
            let m = match model {
                Some(s) => s@,
                None => "gpt-3.5-turbo"@,
            };
            r.1 == (match context_size_of(m) {
                Some(n) => n,
                None => 0usize,
            })
        }),
{
    let count = cl100k_token_count(text);
    let name = match model {
        Some(s) => s,
        None => "gpt-3.5-turbo",
    };
    let ctx = match model_context_size(name) {
        Some(n) => n,
        None => 0,
    };
    (count, ctx)
}

} // verus!
