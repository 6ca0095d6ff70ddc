//! The base-3 code of a feedback sequence: position 0 is the least
//! significant digit.
use vstd::prelude::*;
use vstd::arithmetic::div_mod::lemma_div_denominator;
use crate::error::FeedbackError;
use crate::feedback::{all_marks, EXACT};

verus! {

/// The longest feedback sequence whose code fits in 16 bits.
pub const MAX_CODE_LEN: usize = 10;

/// Three to the power `n`.
pub open spec fn pow3(n: nat) -> nat
    decreases n,
{
    if n == 0 {
        1
    } else {
        3 * pow3((n - 1) as nat)
    }
}

/// The sum of `marks[i] * 3^i` over the first `n` positions.
pub open spec fn code_prefix(marks: Seq<u8>, n: int) -> nat
    decreases n,
{
    if n <= 0 {
        0
    } else {
        code_prefix(marks, n - 1) + marks[n - 1] as nat * pow3((n - 1) as nat)
    }
}

/// The code of a feedback sequence: the sum of `marks[i] * 3^i` over all of
/// its positions.
pub open spec fn code_of(marks: Seq<u8>) -> nat {
    code_prefix(marks, marks.len() as int)
}

/// The base-3 digit of `code` at position `i`.
pub open spec fn trit_at(code: nat, i: nat) -> nat {
    (code / pow3(i)) % 3
}

/// The `len` lowest base-3 digits of `code`, lowest first.
pub open spec fn trits_of(code: nat, len: nat) -> Seq<u8> {
    Seq::new(len, |i: int| trit_at(code, i as nat) as u8)
}

proof fn lemma_pow3_monotonic(a: nat, b: nat)
    requires
        a <= b,
    ensures
        0 < pow3(a) <= pow3(b),
    decreases b,
{
    if b > 0 {
        if a < b {
            lemma_pow3_monotonic(a, (b - 1) as nat);
        } else {
            lemma_pow3_monotonic((a - 1) as nat, (b - 1) as nat);
        }
    }
}

proof fn lemma_pow3_ceiling(n: nat)
    requires
        n <= MAX_CODE_LEN,
    ensures
        0 < pow3(n) <= 59049,
{
    lemma_pow3_monotonic(n, 10);
    assert(pow3(10) == 59049) by {
        reveal_with_fuel(pow3, 11);
    }
}

/// A sequence of feedback values has a code below three to the power of its
/// length, whatever part of it is summed.
pub proof fn lemma_code_below_power(marks: Seq<u8>, n: int)
    requires
        all_marks(marks),
        0 <= n <= marks.len(),
    ensures
        code_prefix(marks, n) < pow3(n as nat),
    decreases n,
{
    if n > 0 {
        lemma_code_below_power(marks, n - 1);
        let m = marks[n - 1] as nat;
        let p = pow3((n - 1) as nat);
        assert(m * p <= 2 * p) by (nonlinear_arith)
            requires
                m <= 2,
        ;
    }
}

proof fn lemma_code_within_bytes(marks: Seq<u8>, n: int)
    requires
        0 <= n <= marks.len(),
    ensures
        code_prefix(marks, n) + 128 <= 128 * pow3(n as nat),
    decreases n,
{
    if n > 0 {
        lemma_code_within_bytes(marks, n - 1);
        let m = marks[n - 1] as nat;
        let p = pow3((n - 1) as nat);
        assert(m * p <= 255 * p) by (nonlinear_arith)
            requires
                m <= 255,
        ;
        lemma_pow3_monotonic((n - 1) as nat, (n - 1) as nat);
    }
}

/// The code of a sequence is its first value plus three times the code of
/// the rest.
pub proof fn lemma_code_front(marks: Seq<u8>, n: int)
    requires
        1 <= n <= marks.len(),
    ensures
        code_prefix(marks, n) == marks[0] + 3 * code_prefix(marks.drop_first(), n - 1),
    decreases n,
{
    let rest = marks.drop_first();
    if n == 1 {
        assert(code_prefix(marks, 0) == 0);
        assert(pow3(0) == 1);
        assert(code_prefix(rest, 0) == 0);
    } else {
        lemma_code_front(marks, n - 1);
        let m = marks[n - 1] as nat;
        let p = pow3((n - 2) as nat);
        assert(rest[n - 2] == marks[n - 1]);
        assert(pow3((n - 1) as nat) == 3 * p);
        assert(m * (3 * p) == 3 * (m * p)) by (nonlinear_arith);
    }
}

/// Decoding what was encoded gives back each feedback value.
pub proof fn lemma_trit_of_code(marks: Seq<u8>, i: int)
    requires
        all_marks(marks),
        0 <= i < marks.len(),
    ensures
        trit_at(code_of(marks), i as nat) == marks[i],
    decreases i,
{
    let rest = marks.drop_first();
    let code = code_of(marks);
    lemma_code_front(marks, marks.len() as int);
    assert(marks[0] <= EXACT);
    assert(code == marks[0] + 3 * code_of(rest));
    if i == 0 {
        assert(pow3(0) == 1);
    } else {
        assert(all_marks(rest)) by {
            assert forall|j: int| 0 <= j < rest.len() implies #[trigger] rest[j] <= EXACT by {
                assert(rest[j] == marks[j + 1]);
            }
        }
        lemma_trit_of_code(rest, i - 1);
        let p = pow3((i - 1) as nat);
        lemma_pow3_monotonic((i - 1) as nat, (i - 1) as nat);
        lemma_div_denominator(code as int, 3, p as int);
        assert(pow3(i as nat) == 3 * p);
        assert(code / 3 == code_of(rest));
        assert(rest[i - 1] == marks[i]);
    }
}

/// Round trip: the digits of the code of a feedback sequence are that
/// sequence again, and up to ten positions the code fits in 16 bits.
pub proof fn lemma_decode_encode(marks: Seq<u8>)
    requires
        all_marks(marks),
    ensures
        trits_of(code_of(marks), marks.len()) == marks,
        marks.len() <= MAX_CODE_LEN ==> code_of(marks) < 59049,
{
    assert forall|i: int| 0 <= i < marks.len() implies trits_of(code_of(marks), marks.len())[i]
        == marks[i] by {
        lemma_trit_of_code(marks, i);
    }
    assert(trits_of(code_of(marks), marks.len()) =~= marks);
    if marks.len() <= MAX_CODE_LEN {
        lemma_code_below_power(marks, marks.len() as int);
        lemma_pow3_ceiling(marks.len());
    }
}

/// The base-3 code of up to ten values, position 0 least significant.
///
/// For feedback values the result is the code itself. Other bytes are summed
/// in the same way and the sum is reduced to 16 bits.
pub fn base3_code_u16(trits: &[u8]) -> (code: u16)
    requires
        trits@.len() <= MAX_CODE_LEN,
    ensures
        code == code_of(trits@) % 0x10000,
        all_marks(trits@) ==> code == code_of(trits@),
{
    let n = trits.len();
    let mut code: u32 = 0;
    let mut mul: u32 = 1;
    let mut i: usize = 0;
    while i < n
        invariant
            i <= n,
            n == trits@.len(),
            n <= MAX_CODE_LEN,
            mul == pow3(i as nat),
            code == code_prefix(trits@, i as int),
        decreases n - i,
    {
        let t = trits[i];
        proof {
            lemma_pow3_ceiling(i as nat);
            lemma_code_within_bytes(trits@, i as int);
            assert(t * mul <= 255 * 59049) by (nonlinear_arith)
                requires
                    t <= 255,
                    mul <= 59049,
            ;
        }
        code = code + (t as u32) * mul;
        mul = mul * 3;
        i += 1;
    }
    proof {
        if all_marks(trits@) {
            lemma_decode_encode(trits@);
        }
    }
    (code % 0x10000) as u16
}

/// Encodes a feedback sequence as its base-3 code.
///
/// Fails with `LengthUnsupported` exactly when the sequence has more than ten
/// positions.
pub fn encode(sequence: &[u8]) -> (res: Result<u16, FeedbackError>)
    ensures
        sequence@.len() > MAX_CODE_LEN ==> res == Err::<u16, FeedbackError>(
            FeedbackError::LengthUnsupported,
        ),
        sequence@.len() <= MAX_CODE_LEN ==> res is Ok && res->Ok_0 == code_of(sequence@) % 0x10000,
        sequence@.len() <= MAX_CODE_LEN && all_marks(sequence@) ==> res == Ok::<
            u16,
            FeedbackError,
        >(code_of(sequence@) as u16),
{
    if sequence.len() > MAX_CODE_LEN {
        return Err(FeedbackError::LengthUnsupported);
    }
    Ok(base3_code_u16(sequence))
}

/// The `len` lowest base-3 digits of `code`, lowest first: take the code
/// modulo 3, divide it by 3, and so on.
pub fn decode(code: u16, len: usize) -> (marks: Vec<u8>)
    ensures
        marks@ == trits_of(code as nat, len as nat),
        all_marks(marks@),
{
    let mut marks: Vec<u8> = Vec::new();
    let mut rest: u16 = code;
    let mut i: usize = 0;
    assert(pow3(0) == 1);
    while i < len
        invariant
            i <= len,
            marks@.len() == i,
            rest == code as nat / pow3(i as nat),
            forall|j: int| 0 <= j < i ==> #[trigger] marks@[j] == trit_at(code as nat, j as nat),
        decreases len - i,
    {
        proof {
            lemma_pow3_monotonic(i as nat, i as nat);
            lemma_div_denominator(code as int, pow3(i as nat) as int, 3);
            assert(pow3((i + 1) as nat) == 3 * pow3(i as nat));
            assert(pow3(i as nat) * 3 == 3 * pow3(i as nat));
        }
        marks.push((rest % 3) as u8);
        rest = rest / 3;
        i += 1;
    }
    assert(marks@ =~= trits_of(code as nat, len as nat));
    marks
}

} // verus!
