//! Per-position feedback for a guess against a secret, with duplicate letters
//! credited from left to right.
use vstd::prelude::*;
use crate::error::FeedbackError;

verus! {

/// The guessed letter has no occurrence in the secret left to account for it.
pub const ABSENT: u8 = 0;

/// The guessed letter occurs in the secret, at another position.
pub const PRESENT: u8 = 1;

/// The guessed letter stands at the same position in the secret.
pub const EXACT: u8 = 2;

/// The longest word that the fixed buffer of `feedback_trits_core` holds.
pub const BUFFER_LEN: usize = 64;

/// A lowercase ASCII letter, `a` to `z`.
pub open spec fn is_letter(c: u8) -> bool {
    97 <= c <= 122
}

/// How often `c` stands among the first `n` positions of `word`.
pub open spec fn occurrences(word: Seq<u8>, c: u8, n: int) -> nat
    decreases n,
{
    if n <= 0 {
        0
    } else {
        occurrences(word, c, n - 1) + if word[n - 1] == c { 1nat } else { 0nat }
    }
}

/// How many of the first `n` positions hold `c` in both words.
pub open spec fn exact_count(guess: Seq<u8>, secret: Seq<u8>, c: u8, n: int) -> nat
    decreases n,
{
    if n <= 0 {
        0
    } else {
        exact_count(guess, secret, c, n - 1) + if guess[n - 1] == c && secret[n - 1] == c {
            1nat
        } else {
            0nat
        }
    }
}

/// How many of the first `n` positions hold `c` in `word` and something else in
/// `other`: the occurrences of `c` that no exact match accounts for.
pub open spec fn stray_count(word: Seq<u8>, other: Seq<u8>, c: u8, n: int) -> nat
    decreases n,
{
    if n <= 0 {
        0
    } else {
        stray_count(word, other, c, n - 1) + if word[n - 1] == c && other[n - 1] != c {
            1nat
        } else {
            0nat
        }
    }
}

/// The feedback at position `i` of `guess`.
///
/// Equal bytes are an exact match, whatever the byte. Otherwise a letter is
/// present as long as the secret holds more unmatched occurrences of it than
/// the guess has shown, unmatched, to the left of `i`. A byte that is no
/// letter is never present.
pub open spec fn mark_at(guess: Seq<u8>, secret: Seq<u8>, i: int) -> u8 {
    let c = guess[i];
    if c == secret[i] {
        EXACT
    } else if is_letter(c) && stray_count(guess, secret, c, i) < stray_count(
        secret,
        guess,
        c,
        secret.len() as int,
    ) {
        PRESENT
    } else {
        ABSENT
    }
}

/// The feedback sequence of `guess` against `secret`, one value per position
/// of the guess.
pub open spec fn feedback(guess: Seq<u8>, secret: Seq<u8>) -> Seq<u8> {
    Seq::new(guess.len(), |i: int| mark_at(guess, secret, i))
}

/// Every value of `marks` is one of the three feedback values.
pub open spec fn all_marks(marks: Seq<u8>) -> bool {
    forall|i: int| 0 <= i < marks.len() ==> #[trigger] marks[i] <= EXACT
}

/// What is left of `supply` once `used` of it are spent.
pub open spec fn remaining(supply: nat, used: nat) -> nat {
    if supply > used {
        (supply - used) as nat
    } else {
        0
    }
}

proof fn lemma_occurrences_bound(word: Seq<u8>, c: u8, n: int)
    requires
        0 <= n,
    ensures
        occurrences(word, c, n) <= n,
    decreases n,
{
    if n > 0 {
        lemma_occurrences_bound(word, c, n - 1);
    }
}

proof fn lemma_exact_within_occurrences(guess: Seq<u8>, secret: Seq<u8>, c: u8, m: int, n: int)
    requires
        0 <= m <= n,
    ensures
        exact_count(guess, secret, c, m) <= occurrences(secret, c, n),
    decreases n,
{
    if n > 0 {
        if m == n {
            lemma_exact_within_occurrences(guess, secret, c, m - 1, n - 1);
        } else {
            lemma_exact_within_occurrences(guess, secret, c, m, n - 1);
        }
    }
}

/// Each occurrence of `c` in the secret is either matched exactly or stray.
pub proof fn lemma_occurrences_split(guess: Seq<u8>, secret: Seq<u8>, c: u8, n: int)
    ensures
        occurrences(secret, c, n) == exact_count(guess, secret, c, n) + stray_count(
            secret,
            guess,
            c,
            n,
        ),
    decreases n,
{
    if n > 0 {
        lemma_occurrences_split(guess, secret, c, n - 1);
    }
}

/// How many of the first `n` positions hold `c` in `guess` and the value
/// `mark` in `marks`.
pub open spec fn marked_count(guess: Seq<u8>, marks: Seq<u8>, c: u8, mark: u8, n: int) -> nat
    decreases n,
{
    if n <= 0 {
        0
    } else {
        marked_count(guess, marks, c, mark, n - 1) + if guess[n - 1] == c && marks[n - 1]
            == mark {
            1nat
        } else {
            0nat
        }
    }
}

/// The smaller of two counts.
pub open spec fn least(a: nat, b: nat) -> nat {
    if a <= b {
        a
    } else {
        b
    }
}

/// The feedback has one value per position of the guess, and each is absent,
/// present or exact.
pub proof fn lemma_feedback_shape(guess: Seq<u8>, secret: Seq<u8>)
    ensures
        feedback(guess, secret).len() == guess.len(),
        all_marks(feedback(guess, secret)),
{
}

/// Among the first `n` positions, the exact marks of a letter are its exact
/// matches, and its present marks are its stray occurrences in the guess as
/// far as the stray occurrences in the secret go round.
pub proof fn lemma_marks_counted(guess: Seq<u8>, secret: Seq<u8>, c: u8, n: int)
    requires
        guess.len() == secret.len(),
        0 <= n <= guess.len(),
    ensures
        marked_count(guess, feedback(guess, secret), c, EXACT, n) == exact_count(
            guess,
            secret,
            c,
            n,
        ),
        marked_count(guess, feedback(guess, secret), c, PRESENT, n) == if is_letter(c) {
            least(
                stray_count(guess, secret, c, n),
                stray_count(secret, guess, c, secret.len() as int),
            )
        } else {
            0
        },
    decreases n,
{
    if n > 0 {
        lemma_marks_counted(guess, secret, c, n - 1);
        assert(feedback(guess, secret)[n - 1] == mark_at(guess, secret, n - 1));
    }
}

/// A letter gets no more present marks than the secret holds occurrences of
/// it that no exact match has used up.
pub proof fn lemma_present_within_supply(guess: Seq<u8>, secret: Seq<u8>, c: u8)
    requires
        guess.len() == secret.len(),
    ensures
        marked_count(guess, feedback(guess, secret), c, PRESENT, guess.len() as int)
            <= stray_count(secret, guess, c, secret.len() as int),
{
    lemma_marks_counted(guess, secret, c, guess.len() as int);
}

/// Count conservation: the exact and present marks that a letter gets are
/// together no more than its occurrences in the secret.
pub proof fn lemma_count_conservation(guess: Seq<u8>, secret: Seq<u8>, c: u8)
    requires
        guess.len() == secret.len(),
    ensures
        marked_count(guess, feedback(guess, secret), c, EXACT, guess.len() as int) + marked_count(
            guess,
            feedback(guess, secret),
            c,
            PRESENT,
            guess.len() as int,
        ) <= occurrences(secret, c, secret.len() as int),
{
    lemma_marks_counted(guess, secret, c, guess.len() as int);
    lemma_occurrences_split(guess, secret, c, secret.len() as int);
}

proof fn lemma_never_held_never_stray(word: Seq<u8>, other: Seq<u8>, c: u8, n: int)
    requires
        0 <= n <= word.len(),
        forall|k: int| 0 <= k < word.len() ==> word[k] != c,
    ensures
        stray_count(word, other, c, n) == 0,
    decreases n,
{
    if n > 0 {
        lemma_never_held_never_stray(word, other, c, n - 1);
    }
}

/// Where no byte of the guess occurs anywhere in the secret, every position
/// is absent.
pub proof fn lemma_disjoint_all_absent(guess: Seq<u8>, secret: Seq<u8>)
    requires
        guess.len() == secret.len(),
        forall|i: int, j: int|
            0 <= i < guess.len() && 0 <= j < secret.len() ==> guess[i] != secret[j],
    ensures
        feedback(guess, secret) == Seq::new(guess.len(), |i: int| ABSENT),
{
    assert forall|i: int| 0 <= i < guess.len() implies mark_at(guess, secret, i) == ABSENT by {
        lemma_never_held_never_stray(secret, guess, guess[i], secret.len() as int);
    }
    assert(feedback(guess, secret) =~= Seq::new(guess.len(), |i: int| ABSENT));
}

/// A word guessed against itself is exact at every position.
pub proof fn lemma_same_all_exact(word: Seq<u8>)
    ensures
        feedback(word, word) == Seq::new(word.len(), |i: int| EXACT),
{
    assert(feedback(word, word) =~= Seq::new(word.len(), |i: int| EXACT));
}

/// The two-pass classification of a guess against a secret of the same
/// length: first the exact matches, which use up the secret's letters, then
/// from left to right the letters that are present while the supply lasts.
fn two_pass_marks(guess: &[u8], secret: &[u8]) -> (marks: Vec<u8>)
    requires
        guess@.len() == secret@.len(),
    ensures
        marks@ == feedback(guess@, secret@),
        marks@.len() == guess@.len(),
        all_marks(marks@),
{
    let l = guess.len();
    let mut counts = [0usize; 26];
    let mut k: usize = 0;
    while k < l
        invariant
            k <= l,
            l == secret@.len(),
            forall|c: u8|
                #[trigger] is_letter(c) ==> counts@[c - 97] == occurrences(secret@, c, k as int),
        decreases l - k,
    {
        let c = secret[k];
        if c >= 97 && c <= 122 {
            let idx = (c - 97) as usize;
            proof {
                assert(is_letter(c));
                lemma_occurrences_bound(secret@, c, k as int);
            }
            counts[idx] = counts[idx] + 1;
        }
        k += 1;
    }
    let mut marks: Vec<u8> = Vec::new();
    let mut i: usize = 0;
    while i < l
        invariant
            i <= l,
            l == secret@.len(),
            l == guess@.len(),
            marks@.len() == i,
            forall|j: int|
                0 <= j < i ==> #[trigger] marks@[j] == if guess@[j] == secret@[j] {
                    EXACT
                } else {
                    ABSENT
                },
            forall|c: u8|
                #[trigger] is_letter(c) ==> counts@[c - 97] + exact_count(
                    guess@,
                    secret@,
                    c,
                    i as int,
                ) == occurrences(secret@, c, l as int),
        decreases l - i,
    {
        let c = guess[i];
        if c == secret[i] {
            marks.push(EXACT);
            if c >= 97 && c <= 122 {
                let idx = (c - 97) as usize;
                proof {
                    assert(is_letter(c));
                    lemma_exact_within_occurrences(guess@, secret@, c, i + 1, l as int);
                }
                counts[idx] = counts[idx] - 1;
            }
        } else {
            marks.push(ABSENT);
        }
        i += 1;
    }
    proof {
        assert forall|c: u8| #[trigger] is_letter(c) implies counts@[c - 97] == remaining(
            stray_count(secret@, guess@, c, l as int),
            stray_count(guess@, secret@, c, 0),
        ) by {
            lemma_occurrences_split(guess@, secret@, c, l as int);
        }
    }
    let mut i: usize = 0;
    while i < l
        invariant
            i <= l,
            l == secret@.len(),
            l == guess@.len(),
            marks@.len() == l,
            forall|j: int| 0 <= j < i ==> #[trigger] marks@[j] == mark_at(guess@, secret@, j),
            forall|j: int|
                i <= j < l ==> #[trigger] marks@[j] == if guess@[j] == secret@[j] {
                    EXACT
                } else {
                    ABSENT
                },
            forall|c: u8|
                #[trigger] is_letter(c) ==> counts@[c - 97] == remaining(
                    stray_count(secret@, guess@, c, l as int),
                    stray_count(guess@, secret@, c, i as int),
                ),
        decreases l - i,
    {
        if marks[i] == ABSENT {
            let c = guess[i];
            assert(is_letter(c) <==> 97 <= c <= 122);
            if c >= 97 && c <= 122 && counts[(c - 97) as usize] > 0 {
                let idx = (c - 97) as usize;
                marks.set(i, PRESENT);
                counts[idx] = counts[idx] - 1;
            } else {
                marks.set(i, ABSENT);
            }
        }
        i += 1;
    }
    assert(marks@ =~= feedback(guess@, secret@));
    marks
}

/// Classifies each position of `guess` against `secret`.
///
/// Fails with `LengthMismatch` exactly when the two differ in length;
/// otherwise returns the feedback sequence, one value per position.
pub fn classify(guess: &[u8], secret: &[u8]) -> (res: Result<Vec<u8>, FeedbackError>)
    ensures
        guess@.len() != secret@.len() ==> res == Err::<Vec<u8>, FeedbackError>(
            FeedbackError::LengthMismatch,
        ),
        guess@.len() == secret@.len() ==> res is Ok && res->Ok_0@ == feedback(guess@, secret@),
        res is Ok ==> res->Ok_0@.len() == guess@.len() && all_marks(res->Ok_0@),
{
    if guess.len() != secret.len() {
        return Err(FeedbackError::LengthMismatch);
    }
    Ok(two_pass_marks(guess, secret))
}

/// The feedback of `guess` against `secret` in a fixed buffer: the first
/// positions hold the feedback sequence, the rest are zero.
pub fn feedback_trits_core(guess: &[u8], secret: &[u8]) -> (result: [u8; 64])
    requires
        guess@.len() == secret@.len(),
        guess@.len() <= BUFFER_LEN,
    ensures
        result@.subrange(0, guess@.len() as int) == feedback(guess@, secret@),
        forall|i: int| guess@.len() <= i < BUFFER_LEN ==> result@[i] == ABSENT,
{
    let marks = two_pass_marks(guess, secret);
    let l = guess.len();
    let mut result = [0u8; 64];
    let mut i: usize = 0;
    while i < l
        invariant
            i <= l,
            l <= BUFFER_LEN,
            l == marks@.len(),
            forall|j: int| 0 <= j < i ==> result@[j] == marks@[j],
            forall|j: int| i <= j < BUFFER_LEN ==> result@[j] == ABSENT,
        decreases l - i,
    {
        result[i] = marks[i];
        i += 1;
    }
    assert(result@.subrange(0, guess@.len() as int) =~= feedback(guess@, secret@));
    result
}

} // verus!
