//! The syntax check of paths, which is left to the `syn` parser.

use vstd::prelude::*;

verus! {

/// `syn::Path`, a parsed path. It is carried through and never looked into.
#[verifier::external_type_specification]
#[verifier::external_body]
pub struct ExSynPath(syn::Path);

/// `syn::Error`, the error of the parser. Only its message is read.
#[verifier::external_type_specification]
#[verifier::external_body]
pub struct ExSynError(syn::Error);

/// A text that the parser did not accept as a path.
#[derive(Clone, Debug, PartialEq, Eq)]
pub struct PathError {
    /// The text that was refused.
    pub input: String,
    /// The parser's message.
    pub message: String,
}

/// Calls `syn::parse_str::<syn::Path>` on `text`. It returns the parsed path,
/// or the parser's error where `text` is not a path by the parser's grammar.
/// Nothing is claimed of which of the two comes back: the tokenizer behind
/// the parser depends on whether the process is a procedural macro.
#[verifier::external_body]
fn parse_path(text: &str) -> (r: Result<syn::Path, syn::Error>) {
    syn::parse_str::<syn::Path>(text)
}

/// Calls `to_string` on a `syn::Error`, which gives the message of the error.
/// Nothing is claimed of the text.
#[verifier::external_body]
fn error_message(error: &syn::Error) -> (r: String) {
    error.to_string()
}

/// What the syntax check said of one text: `None` where the parser accepted
/// it as a path, its message where it did not.
pub type Verdict = Option<String>;

/// The messages of the verdicts, in order.
pub open spec fn verdict_views(verdicts: Seq<Verdict>) -> Seq<Option<Seq<char>>> {
    Seq::new(
        verdicts.len(),
        |k: int|
            match verdicts[k] {
                Some(message) => Some(message@),
                None => None,
            },
    )
}

/// A text that was refused, with the message of the refusal.
pub struct Refusal {
    pub input: Seq<char>,
    pub message: Seq<char>,
}

/// The index of the first refusal among the verdicts from `from` on; the
/// number of verdicts where there is none.
pub open spec fn first_refused(verdicts: Seq<Option<Seq<char>>>, from: int) -> int
    decreases verdicts.len() - from,
{
    if from < 0 || from >= verdicts.len() || verdicts[from] is Some {
        from
    } else {
        first_refused(verdicts, from + 1)
    }
}

/// What the verdicts say of the texts `paths`, the verdict of index `k` being
/// that on the text of index `k`: the first text that was refused, with the
/// message of its refusal; `None` where every text was accepted.
pub open spec fn refusal(paths: Seq<Seq<char>>, verdicts: Seq<Option<Seq<char>>>) -> Option<
    Refusal,
> {
    let k = first_refused(verdicts, 0);
    if 0 <= k < verdicts.len() && k < paths.len() {
        Some(Refusal { input: paths[k], message: verdicts[k]->Some_0 })
    } else {
        None
    }
}

/// The first refusal stands where a verdict stands, and every verdict before
/// it is an acceptance.
pub proof fn lemma_first_refused(verdicts: Seq<Option<Seq<char>>>, from: int)
    requires
        0 <= from <= verdicts.len(),
    ensures
        from <= first_refused(verdicts, from) <= verdicts.len(),
        first_refused(verdicts, from) < verdicts.len() ==> verdicts[first_refused(
            verdicts,
            from,
        )] is Some,
        forall|k: int| from <= k < first_refused(verdicts, from) ==> verdicts[k] is None,
    decreases verdicts.len() - from,
{
    if from < verdicts.len() && verdicts[from] is None {
        lemma_first_refused(verdicts, from + 1);
    }
}

/// Whether `error` is the error that stands for `refusal`.
pub open spec fn is_refusal(error: PathError, refusal: Refusal) -> bool {
    error.input@ == refusal.input && error.message@ == refusal.message
}

/// Asks the parser whether `text` is a path. The parser alone decides; where
/// it refuses, the error holds `text` and the parser's message.
pub(crate) fn check_path(text: &str) -> (r: Result<(), PathError>)
    ensures
        r matches Err(error) ==> error.input@ == text@,
{
    let verdict = match parse_path(text) {
        Ok(_) => None,
        Err(error) => Some(error_message(&error)),
    };
    verdict_result(text, verdict)
}

/// Turns the verdict on `input` into a result: `Ok` where the parser accepted
/// the text, the error with the text and the parser's message where it did not.
pub fn verdict_result(input: &str, verdict: Verdict) -> (r: Result<(), PathError>)
    ensures
        match r {
            Ok(_) => verdict is None,
            Err(error) => verdict is Some && error.input@ == input@ && error.message@
                == verdict->Some_0@,
        },
{
    match verdict {
        None => Ok(()),
        Some(message) => Err(PathError { input: String::from_str(input), message }),
    }
}

} // verus!
