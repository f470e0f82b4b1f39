//! Error types.
use vstd::prelude::*;
use vstd::string::StringExecFns;

verus! {

/// What can go wrong.
#[derive(Debug)]
pub enum GoldenError {
    /// Fewer shares than the threshold.
    NotEnoughShares { have: u32, need: u32 },
    /// Two shares with one index.
    DuplicateShareIndex,
    /// A share with the index of the secret.
    InvalidShareIndex,
    /// A Feldman commitment to a polynomial of the wrong degree.
    WrongCommitmentLength { dealer: u32, got: usize, expected: usize },
    /// A proof of knowledge that does not verify.
    SchnorrPoKFailed { party: u32 },
    /// A dealing of another session.
    SessionMismatch { dealer: u32 },
    /// An encrypted share that does not match the commitments.
    CiphertextCheckFailed { dealer: u32, recipient: u32 },
    /// A pad proof that does not verify.
    EvrfProofFailed { dealer: u32, reason: String },
    /// A recipient without an encrypted share.
    MissingCiphertext { dealer: u32, recipient: u32 },
    /// An encrypted share for someone who is no recipient.
    UnexpectedCiphertext { dealer: u32, recipient: u32 },
    /// A key that is the neutral element.
    IdentityPublicKey { party: u32 },
    /// A key outside the prime-order subgroup.
    PublicKeyNotInSubgroup { party: u32 },
    /// A broadcast point outside the prime-order subgroup.
    ElementNotInSubgroup { dealer: u32 },
    /// Two keys that are equal or negations of each other.
    PkiKeyCollision { a: u32, b: u32 },
    /// A refresh that would change the secret.
    NonZeroRefreshSecret { dealer: u32 },
    /// A party without a registered key.
    PartyNotInPki { id: u32 },
    /// More recipients than the parameters were made for.
    TooManyPeers { got: usize, max: usize },
    /// A proof that could not be made or does not verify.
    Proof(String),
    /// A condition that a correct caller does not meet.
    Internal(String),
}

pub type GoldenResult<T> = Result<T, GoldenError>;

/// The decimal digits of `n`, without leading zeros.
pub open spec fn decimal(n: nat) -> Seq<char>
    decreases n,
{
    if n < 10 {
        seq![(48 + n) as char]
    } else {
        decimal(n / 10).push((48 + n % 10) as char)
    }
}

fn digit(d: u64) -> (s: &'static str)
    requires
        d < 10,
    ensures
        s@ == seq![(48 + d) as char],
{
    proof {
        reveal_strlit("0");
        reveal_strlit("1");
        reveal_strlit("2");
        reveal_strlit("3");
        reveal_strlit("4");
        reveal_strlit("5");
        reveal_strlit("6");
        reveal_strlit("7");
        reveal_strlit("8");
        reveal_strlit("9");
    }
    if d == 0 {
        "0"
    } else if d == 1 {
        "1"
    } else if d == 2 {
        "2"
    } else if d == 3 {
        "3"
    } else if d == 4 {
        "4"
    } else if d == 5 {
        "5"
    } else if d == 6 {
        "6"
    } else if d == 7 {
        "7"
    } else if d == 8 {
        "8"
    } else {
        "9"
    }
}

/// Appends the decimal digits of `n`.
pub fn append_decimal(s: &mut String, n: u64)
    ensures
        final(s)@ == old(s)@ + decimal(n as nat),
    decreases n,
{
    if n >= 10 {
        append_decimal(s, n / 10);
    }
    s.append(digit(n % 10));
}

impl GoldenError {
    /// The text of [`GoldenError::message`].
    pub open spec fn text(&self) -> Seq<char> {
        match *self {
            GoldenError::NotEnoughShares { have, need } => "not enough shares: have "@ + decimal(have as nat) + ", need "@ + decimal(need as nat),
            GoldenError::DuplicateShareIndex => "duplicate share index"@,
            GoldenError::InvalidShareIndex => "invalid share index (0 is reserved for the secret)"@,
            GoldenError::WrongCommitmentLength { dealer, got, expected } => "VSS commitment from dealer "@ + decimal(dealer as nat) + " has wrong length: got "@ + decimal(got as nat) + ", expected "@ + decimal(expected as nat),
            GoldenError::SchnorrPoKFailed { party } => "Schnorr PoK verification failed for party "@ + decimal(party as nat),
            GoldenError::SessionMismatch { dealer } => "session id mismatch from dealer "@ + decimal(dealer as nat),
            GoldenError::CiphertextCheckFailed { dealer, recipient } => "ciphertext consistency check failed: dealer "@ + decimal(dealer as nat) + " → recipient "@ + decimal(recipient as nat),
            GoldenError::EvrfProofFailed { dealer, reason } => "eVRF proof failed for dealer "@ + decimal(dealer as nat) + ": "@ + reason@,
            GoldenError::MissingCiphertext { dealer, recipient } => "dealer "@ + decimal(dealer as nat) + " did not send a ciphertext for recipient "@ + decimal(recipient as nat),
            GoldenError::UnexpectedCiphertext { dealer, recipient } => "dealer "@ + decimal(dealer as nat) + " sent an unexpected ciphertext for recipient "@ + decimal(recipient as nat),
            GoldenError::IdentityPublicKey { party } => "PKI public key for party "@ + decimal(party as nat) + " is the identity"@,
            GoldenError::PublicKeyNotInSubgroup { party } => "PKI public key for party "@ + decimal(party as nat) + " is not in the prime-order subgroup"@,
            GoldenError::ElementNotInSubgroup { dealer } => "dealing from dealer "@ + decimal(dealer as nat) + " contains a group element not in the prime-order subgroup"@,
            GoldenError::PkiKeyCollision { a, b } => "PKI keys for parties "@ + decimal(a as nat) + " and "@ + decimal(b as nat) + " are equal or negations — see BUGS.md §1/§2"@,
            GoldenError::NonZeroRefreshSecret { dealer } => "refresh dealing from dealer "@ + decimal(dealer as nat) + " commits to a non-zero secret"@,
            GoldenError::PartyNotInPki { id } => "party "@ + decimal(id as nat) + " is not registered in the PKI snapshot"@,
            GoldenError::TooManyPeers { got, max } => "dealing has "@ + decimal(got as nat) + " recipients but the ZK CRS supports at most "@ + decimal(max as nat),
            GoldenError::Proof(reason) => "Bulletproofs proof error: "@ + reason@,
            GoldenError::Internal(reason) => "internal: "@ + reason@,
        }
    }

    /// The error as a sentence.
    pub fn message(&self) -> (r: String)
        ensures
            r@ == self.text(),
    {
        let mut s = String::from_str("");
        proof {
            reveal_strlit("");
            assert(s@ =~= Seq::<char>::empty());
        }
        match self {
            GoldenError::NotEnoughShares { have, need } => {
                s.append("not enough shares: have ");
                append_decimal(&mut s, *have as u64);
                s.append(", need ");
                append_decimal(&mut s, *need as u64);
            },
            GoldenError::DuplicateShareIndex => {
                s.append("duplicate share index");
            },
            GoldenError::InvalidShareIndex => {
                s.append("invalid share index (0 is reserved for the secret)");
            },
            GoldenError::WrongCommitmentLength { dealer, got, expected } => {
                s.append("VSS commitment from dealer ");
                append_decimal(&mut s, *dealer as u64);
                s.append(" has wrong length: got ");
                append_decimal(&mut s, *got as u64);
                s.append(", expected ");
                append_decimal(&mut s, *expected as u64);
            },
            GoldenError::SchnorrPoKFailed { party } => {
                s.append("Schnorr PoK verification failed for party ");
                append_decimal(&mut s, *party as u64);
            },
            GoldenError::SessionMismatch { dealer } => {
                s.append("session id mismatch from dealer ");
                append_decimal(&mut s, *dealer as u64);
            },
            GoldenError::CiphertextCheckFailed { dealer, recipient } => {
                s.append("ciphertext consistency check failed: dealer ");
                append_decimal(&mut s, *dealer as u64);
                s.append(" → recipient ");
                append_decimal(&mut s, *recipient as u64);
            },
            GoldenError::EvrfProofFailed { dealer, reason } => {
                s.append("eVRF proof failed for dealer ");
                append_decimal(&mut s, *dealer as u64);
                s.append(": ");
                s.append(reason.as_str());
            },
            GoldenError::MissingCiphertext { dealer, recipient } => {
                s.append("dealer ");
                append_decimal(&mut s, *dealer as u64);
                s.append(" did not send a ciphertext for recipient ");
                append_decimal(&mut s, *recipient as u64);
            },
            GoldenError::UnexpectedCiphertext { dealer, recipient } => {
                s.append("dealer ");
                append_decimal(&mut s, *dealer as u64);
                s.append(" sent an unexpected ciphertext for recipient ");
                append_decimal(&mut s, *recipient as u64);
            },
            GoldenError::IdentityPublicKey { party } => {
                s.append("PKI public key for party ");
                append_decimal(&mut s, *party as u64);
                s.append(" is the identity");
            },
            GoldenError::PublicKeyNotInSubgroup { party } => {
                s.append("PKI public key for party ");
                append_decimal(&mut s, *party as u64);
                s.append(" is not in the prime-order subgroup");
            },
            GoldenError::ElementNotInSubgroup { dealer } => {
                s.append("dealing from dealer ");
                append_decimal(&mut s, *dealer as u64);
                s.append(" contains a group element not in the prime-order subgroup");
            },
            GoldenError::PkiKeyCollision { a, b } => {
                s.append("PKI keys for parties ");
                append_decimal(&mut s, *a as u64);
                s.append(" and ");
                append_decimal(&mut s, *b as u64);
                s.append(" are equal or negations — see BUGS.md §1/§2");
            },
            GoldenError::NonZeroRefreshSecret { dealer } => {
                s.append("refresh dealing from dealer ");
                append_decimal(&mut s, *dealer as u64);
                s.append(" commits to a non-zero secret");
            },
            GoldenError::PartyNotInPki { id } => {
                s.append("party ");
                append_decimal(&mut s, *id as u64);
                s.append(" is not registered in the PKI snapshot");
            },
            GoldenError::TooManyPeers { got, max } => {
                s.append("dealing has ");
                append_decimal(&mut s, *got as u64);
                s.append(" recipients but the ZK CRS supports at most ");
                append_decimal(&mut s, *max as u64);
            },
            GoldenError::Proof(reason) => {
                s.append("Bulletproofs proof error: ");
                s.append(reason.as_str());
            },
            GoldenError::Internal(reason) => {
                s.append("internal: ");
                s.append(reason.as_str());
            },
        }
        proof {
            assert(s@ =~= self.text());
        }
        s
    }
}


/// The number that digits stand for.
pub open spec fn digits_value(s: Seq<char>) -> int
    decreases s.len(),
{
    if s.len() == 0 {
        0
    } else {
        10 * digits_value(s.drop_last()) + (s.last() as u32 - 48)
    }
}

/// The decimal digits of a number stand for it, and begin with zero only for zero.
pub proof fn law_decimal_reads_back(n: nat)
    ensures
        digits_value(decimal(n)) == n,
        decimal(n).len() >= 1,
        forall|i: int| 0 <= i < decimal(n).len() ==> 48 <= #[trigger] decimal(n)[i] as u32 <= 57,
        n > 0 ==> decimal(n)[0] as u32 != 48,
    decreases n,
{
    let s = decimal(n);
    if n < 10 {
        assert(s.drop_last() =~= Seq::<char>::empty());
        assert(digits_value(s.drop_last()) == 0);
    } else {
        law_decimal_reads_back(n / 10);
        assert(s.drop_last() =~= decimal(n / 10));
    }
}

} // verus!
