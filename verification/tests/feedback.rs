use ibxwasm::feedback::{ABSENT, EXACT, PRESENT};
use ibxwasm::{classify, feedback_trits_core, FeedbackError};

#[test]
fn dup_cases() {
    let g = "civic";
    let s = "cigar";
    let tr = feedback_trits_core(g.as_bytes(), s.as_bytes());
    // c and i are green where they stand; the last c is gray, as cigar holds one c only.
    assert_eq!(&tr[..5], &[2, 2, 0, 0, 0]);
    let g2 = "allee";
    let s2 = "eagle";
    let tr2 = feedback_trits_core(g2.as_bytes(), s2.as_bytes());
    let yellows = tr2[..5].iter().filter(|&&t| t == 1).count();
    assert!(yellows <= 3);
}

#[test]
fn buffer_is_zero_past_the_word() {
    let tr = feedback_trits_core(b"aabb", b"abab");
    assert_eq!(&tr[..4], &[2, 1, 1, 2]);
    assert!(tr[4..].iter().all(|&t| t == 0));
    assert_eq!(tr.len(), 64);
}

#[test]
fn buffer_takes_a_full_length_word() {
    let word = [b'q'; 64];
    let tr = feedback_trits_core(&word, &word);
    assert!(tr.iter().all(|&t| t == 2));
}

#[test]
fn tie_break_goes_left_to_right() {
    assert_eq!(classify(b"aabb", b"abab"), Ok(vec![2, 1, 1, 2]));
    assert_eq!(
        classify(b"aabb", b"abab"),
        Ok(vec![EXACT, PRESENT, PRESENT, EXACT])
    );
}

#[test]
fn double_letter_against_single() {
    // One e in the secret: the first e of the guess is credited, the second is not.
    assert_eq!(classify(b"eel", b"ble"), Ok(vec![1, 0, 1]));
    // An exact match further right takes the letter before any present mark.
    assert_eq!(classify(b"lle", b"alx"), Ok(vec![0, 2, 0]));
}

#[test]
fn no_shared_letters_is_all_absent() {
    assert_eq!(classify(b"abc", b"xyz"), Ok(vec![0, 0, 0]));
    assert_eq!(classify(b"abc", b"xyz"), Ok(vec![ABSENT, ABSENT, ABSENT]));
}

#[test]
fn same_word_is_all_exact() {
    assert_eq!(classify(b"crane", b"crane"), Ok(vec![2, 2, 2, 2, 2]));
    assert_eq!(classify(b"", b""), Ok(vec![]));
}

#[test]
fn civic_against_cigar() {
    assert_eq!(classify(b"civic", b"cigar"), Ok(vec![2, 2, 0, 0, 0]));
}

#[test]
fn allee_against_eagle() {
    assert_eq!(classify(b"allee", b"eagle"), Ok(vec![1, 1, 0, 1, 2]));
}

#[test]
fn feedback_has_the_length_of_the_guess() {
    for len in 0..40usize {
        let guess = vec![b'a'; len];
        let secret = vec![b'b'; len];
        assert_eq!(classify(&guess, &secret).map(|v| v.len()), Ok(len));
    }
}

#[test]
fn long_words_are_classified() {
    let mut guess = vec![b'z'; 300];
    let mut secret = vec![b'y'; 300];
    guess[5] = b'q';
    secret[5] = b'z';
    secret[299] = b'z';
    let marks = classify(&guess, &secret).unwrap();
    assert_eq!(marks[0], 1);
    assert!(marks[1..299].iter().all(|&m| m == 0));
    assert_eq!(marks[299], 2);
}

#[test]
fn marks_of_a_letter_stay_within_the_secret() {
    let pairs: [(&[u8], &[u8]); 5] = [
        (b"allee", b"eagle"),
        (b"aabb", b"abab"),
        (b"eeeee", b"geese"),
        (b"civic", b"cigar"),
        (b"banana", b"ananas"),
    ];
    for (guess, secret) in pairs {
        let marks = classify(guess, secret).unwrap();
        for c in b'a'..=b'z' {
            let credited = (0..guess.len())
                .filter(|&i| guess[i] == c && marks[i] != 0)
                .count();
            let held = secret.iter().filter(|&&s| s == c).count();
            assert!(credited <= held);
        }
    }
}

#[test]
fn bytes_that_are_no_letters() {
    // Never present, though the secret holds them elsewhere.
    assert_eq!(classify(b"a-", b"-a"), Ok(vec![1, 0]));
    assert_eq!(classify(b"A1", b"1A"), Ok(vec![0, 0]));
    // Equal bytes at one position are an exact match all the same.
    assert_eq!(classify(b"--", b"--"), Ok(vec![2, 2]));
}

#[test]
fn unequal_lengths_are_refused() {
    assert_eq!(classify(b"abc", b"ab"), Err(FeedbackError::LengthMismatch));
    assert_eq!(classify(b"", b"a"), Err(FeedbackError::LengthMismatch));
    assert_eq!(
        classify(b"abcdefghijkl", b"abcdefghijk"),
        Err(FeedbackError::LengthMismatch)
    );
}
