//! Codes for whole words: one guess against one secret, or against a list of
//! secrets in the order given.
use vstd::prelude::*;
use vstd::utf8::encode_utf8;
use crate::code::{base3_code_u16, code_of, MAX_CODE_LEN};
use crate::error::FeedbackError;
use crate::feedback::{feedback, feedback_trits_core};

verus! {

/// The code of the feedback of `guess` against `secret`.
pub open spec fn single_code(guess: Seq<u8>, secret: Seq<u8>) -> nat {
    code_of(feedback(guess, secret))
}

/// A guess has a length that a code can hold: one to ten positions.
pub open spec fn codable_guess(guess: Seq<u8>) -> bool {
    1 <= guess.len() <= MAX_CODE_LEN
}

/// Every secret is as long as the guess.
pub open spec fn all_fit(guess: Seq<u8>, secrets: Seq<Vec<u8>>) -> bool {
    forall|i: int| 0 <= i < secrets.len() ==> (#[trigger] secrets[i])@.len() == guess.len()
}

/// The bytes of each text are as many as those of the guess.
pub open spec fn all_texts_fit(guess: Seq<u8>, secrets: Seq<String>) -> bool {
    forall|i: int|
        0 <= i < secrets.len() ==> encode_utf8((#[trigger] secrets[i])@).len() == guess.len()
}

fn code_for(guess: &[u8], secret: &[u8]) -> (code: u16)
    requires
        guess@.len() == secret@.len(),
        guess@.len() <= MAX_CODE_LEN,
    ensures
        code == single_code(guess@, secret@),
{
    let trits = feedback_trits_core(guess, secret);
    let code = base3_code_u16(&trits[0..guess.len()]);
    code
}

/// The code of one guess against one secret, both given as text and read
/// byte by byte.
pub fn feedback_code(guess: &str, secret: &str) -> (code: u16)
    requires
        encode_utf8(guess@).len() == encode_utf8(secret@).len(),
        encode_utf8(guess@).len() <= MAX_CODE_LEN,
    ensures
        code == single_code(encode_utf8(guess@), encode_utf8(secret@)),
{
    code_for(guess.as_bytes(), secret.as_bytes())
}

/// The codes of one guess against each secret, in the order of the secrets.
pub fn pattern_row_u16(guess: &str, secrets: &Vec<String>) -> (out: Vec<u16>)
    requires
        codable_guess(encode_utf8(guess@)),
        all_texts_fit(encode_utf8(guess@), secrets@),
    ensures
        out@.len() == secrets@.len(),
        forall|i: int|
            0 <= i < secrets@.len() ==> #[trigger] out@[i] == single_code(
                encode_utf8(guess@),
                encode_utf8(secrets@[i]@),
            ),
{
    let g = guess.as_bytes();
    let n = secrets.len();
    let mut out: Vec<u16> = Vec::with_capacity(n);
    let mut i: usize = 0;
    while i < n
        invariant
            i <= n,
            n == secrets@.len(),
            g@ == encode_utf8(guess@),
            codable_guess(g@),
            all_texts_fit(g@, secrets@),
            out@.len() == i,
            forall|j: int|
                0 <= j < i ==> #[trigger] out@[j] == single_code(g@, encode_utf8(secrets@[j]@)),
        decreases n - i,
    {
        let sb = secrets[i].as_str().as_bytes();
        out.push(code_for(g, sb));
        i += 1;
    }
    out
}

/// The codes of one guess against each secret, in the order of the secrets:
/// for each secret what `encode` gives for what `classify` gives.
///
/// Fails with `LengthUnsupported` exactly when the guess is empty or longer
/// than ten positions; else with `LengthMismatch` exactly when some secret
/// differs from the guess in length. A failed call returns no code at all.
pub fn batch_codes(guess: &[u8], secrets: &[Vec<u8>]) -> (res: Result<Vec<u16>, FeedbackError>)
    ensures
        !codable_guess(guess@) ==> res == Err::<Vec<u16>, FeedbackError>(
            FeedbackError::LengthUnsupported,
        ),
        codable_guess(guess@) && !all_fit(guess@, secrets@) ==> res == Err::<
            Vec<u16>,
            FeedbackError,
        >(FeedbackError::LengthMismatch),
        codable_guess(guess@) && all_fit(guess@, secrets@) ==> res is Ok,
        res is Ok ==> res->Ok_0@.len() == secrets@.len() && forall|i: int|
            0 <= i < secrets@.len() ==> #[trigger] res->Ok_0@[i] == single_code(
                guess@,
                secrets@[i]@,
            ),
{
    let l = guess.len();
    if l == 0 || l > MAX_CODE_LEN {
        return Err(FeedbackError::LengthUnsupported);
    }
    let n = secrets.len();
    let mut out: Vec<u16> = Vec::with_capacity(n);
    let mut i: usize = 0;
    while i < n
        invariant
            i <= n,
            n == secrets@.len(),
            l == guess@.len(),
            codable_guess(guess@),
            out@.len() == i,
            forall|j: int| 0 <= j < i ==> (#[trigger] secrets@[j])@.len() == l,
            forall|j: int| 0 <= j < i ==> #[trigger] out@[j] == single_code(guess@, secrets@[j]@),
        decreases n - i,
    {
        let secret = secrets[i].as_slice();
        if secret.len() != l {
            assert(secrets@[i as int]@.len() != guess@.len());
            return Err(FeedbackError::LengthMismatch);
        }
        out.push(code_for(guess, secret));
        i += 1;
    }
    Ok(out)
}

} // verus!
