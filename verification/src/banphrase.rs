use vstd::prelude::*;

verus! {

/// What is asked of the banphrase service: whether a message may be sent.
#[derive(Debug, Clone)]
pub struct BanphraseRequest {
    pub message: String,
}

/// What the banphrase service answers.
#[derive(Debug, Clone, Copy, PartialEq, Eq, Structural)]
pub struct BanphraseResponse {
    pub banned: bool,
}

/// Whether a message may be sent, given what came back from the
/// banphrase service: only an answer that says "not banned" lets it
/// through. No answer, for whatever reason, counts as banned.
pub fn permits(answer: Option<BanphraseResponse>) -> (yes: bool)
    ensures
        yes == (answer matches Some(response) && !response.banned),
{
    match answer {
        Some(response) => !response.banned,
        None => false,
    }
}

} // verus!
