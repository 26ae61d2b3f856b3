//! The verified writer: a bounded write-read-compare cycle over a checksum.
//!
//! The writer itself cannot touch storage; it owns the decisions. The caller
//! writes the bytes, reads the destination back, and hands the read-back to
//! [`check_read_back`]; the verifier compares digests and spends the bounded
//! retry budget. An in-memory destination is handled here whole, and
//! provably succeeds on its first attempt.

use vstd::prelude::*;
use vstd::slice::slice_to_vec;
use crate::error::SerdeFlowError;

verus! {

/// The digest that the verified writer compares: a 32-bit cyclic redundancy
/// value of the byte sequence, a function of the bytes alone. It guards
/// writes only and is never persisted as part of a record.
pub uninterp spec fn crc32c_of(bytes: Seq<u8>) -> u32;

/// Relies on crc's `Crc::<u32>::checksum` with the `CRC_32_ISCSI` algorithm:
/// the digest is computed from the bytes alone.
#[verifier::external_body]
fn crc32c(bytes: &[u8]) -> (r: u32)
    ensures
        r == crc32c_of(bytes@),
{
    crc::Crc::<u32>::new(&crc::CRC_32_ISCSI).checksum(bytes)
}

/// How many write-read-compare cycles a verified write may spend.
pub const WRITE_ATTEMPTS: u8 = 3;

/// What one read-back check decided.
#[derive(Debug, PartialEq, Eq, Structural)]
pub enum WriteOutcome {
    /// The read-back matches the written bytes: the write is verified.
    Verified,
    /// The read-back differs and budget remains: run the cycle again.
    Retry,
    /// The read-back differs and the budget is exhausted: the save fails
    /// with `FailedToWrite`.
    Failed,
}

/// One verified write in progress: the digest every read-back is held
/// against, and the attempts that remain.
pub struct WriteVerifier {
    pub expected: u32,
    pub attempts_left: u8,
}

/// Starts a verified write: the digest of the bytes about to be written,
/// with the full retry budget.
pub fn begin_verified_write(data: &Vec<u8>) -> (v: WriteVerifier)
    ensures
        v.expected == crc32c_of(data@),
        v.attempts_left == WRITE_ATTEMPTS,
{
    WriteVerifier { expected: crc32c(data.as_slice()), attempts_left: WRITE_ATTEMPTS }
}

/// What one read-back check decides and leaves behind: a matching digest
/// verifies the write and spends nothing; a differing digest spends one
/// attempt, asking for a retry while any remains and failing on the last.
pub open spec fn spec_check(expected: u32, attempts_left: u8, readback: Seq<u8>) -> (
    WriteOutcome,
    u8,
) {
    if crc32c_of(readback) == expected {
        (WriteOutcome::Verified, attempts_left)
    } else if attempts_left <= 1 {
        (WriteOutcome::Failed, 0u8)
    } else {
        (WriteOutcome::Retry, (attempts_left - 1) as u8)
    }
}

/// Judges the destination's contents after one write, exactly as
/// [`spec_check`] says.
pub fn check_read_back(v: &mut WriteVerifier, readback: &Vec<u8>) -> (o: WriteOutcome)
    requires
        old(v).attempts_left > 0,
    ensures
        final(v).expected == old(v).expected,
        (o, final(v).attempts_left) == spec_check(
            old(v).expected,
            old(v).attempts_left,
            readback@,
        ),
{
    let digest = crc32c(readback.as_slice());
    if digest == v.expected {
        WriteOutcome::Verified
    } else {
        v.attempts_left = v.attempts_left - 1;
        if v.attempts_left == 0 {
            WriteOutcome::Failed
        } else {
            WriteOutcome::Retry
        }
    }
}

/// A destination corrupted between write and read-back on every attempt
/// exhausts the budget: starting from the full budget, three differing
/// read-backs in a row ask for two retries and then fail the save, after
/// exactly the configured number of attempts.
pub proof fn lemma_verified_write_exhaustion(
    expected: u32,
    r1: Seq<u8>,
    r2: Seq<u8>,
    r3: Seq<u8>,
)
    requires
        crc32c_of(r1) != expected,
        crc32c_of(r2) != expected,
        crc32c_of(r3) != expected,
    ensures
        ({
            let s1 = spec_check(expected, WRITE_ATTEMPTS, r1);
            let s2 = spec_check(expected, s1.1, r2);
            let s3 = spec_check(expected, s2.1, r3);
            s1.0 == WriteOutcome::Retry && s2.0 == WriteOutcome::Retry && s3.0
                == WriteOutcome::Failed && s3.1 == 0
        }),
{
}

/// An uncorrupted destination reads back what was written, so the save is
/// verified on its first attempt with the whole budget intact.
pub proof fn lemma_verified_write_first_attempt(expected: u32, r: Seq<u8>)
    requires
        crc32c_of(r) == expected,
    ensures
        spec_check(expected, WRITE_ATTEMPTS, r) == (WriteOutcome::Verified, WRITE_ATTEMPTS),
{
}

/// A verified save to an in-memory destination. Memory reads back what was
/// written, so the digests agree and the save succeeds on the first attempt.
pub fn save_to_bytes_verified(dest: &mut Vec<u8>, data: &Vec<u8>) -> (r: Result<
    (),
    SerdeFlowError,
>)
    ensures
        r == Ok::<(), SerdeFlowError>(()),
        final(dest)@ == data@,
{
    let mut v = begin_verified_write(data);
    *dest = slice_to_vec(data.as_slice());
    let o = check_read_back(&mut v, dest);
    proof {
        assert(o == WriteOutcome::Verified);
    }
    Ok(())
}

} // verus!
