//! Error kinds of the library.
use vstd::prelude::*;

verus! {

/// Why a textual share could not be read.
#[derive(Clone, Copy, Debug, PartialEq, Eq, Structural)]
pub enum ParseFailure {
    /// The text does not have exactly three parts separated by `-`.
    PartCount,
    /// The threshold or the identifier is not a decimal number that fits.
    Number,
    /// The data part is not valid base64.
    Base64,
    /// The decoded data part is not a valid share payload.
    Payload,
    /// The payload disagrees with the text on the threshold.
    ThresholdMismatch,
    /// The payload disagrees with the text on the identifier.
    IdMismatch,
    /// The share information is out of range.
    IllegalShareInfo,
}

/// The kinds of error that the library reports.
#[derive(Clone, Copy, Debug, PartialEq, Eq, Structural)]
pub enum ErrorKind {
    /// The threshold is below 2, on splitting or in the shares to recover from.
    ThresholdTooSmall,
    /// The threshold exceeds the number of shares.
    ThresholdTooBig,
    /// More than 255 shares were asked for.
    InvalidShareCountMax,
    /// The secret is empty.
    EmptySecret,
    /// The secret is longer than the maximum size.
    SecretTooBig,
    /// The random source failed or could not give usable bytes.
    CannotGenerateRandomNumbers,
    /// A textual share is malformed.
    ShareParsingError(ParseFailure),
    /// A share has identifier 0.
    ShareParsingInvalidShareId(u8),
    /// A share has a threshold below 2 (threshold, identifier).
    ShareParsingInvalidShareThreshold(u8, u8),
    /// A share has an empty data part.
    ShareParsingErrorEmptyShare(u8),
    /// Two shares have the same identifier.
    DuplicateShareId,
    /// The shares disagree on the threshold.
    InconsistentThresholds,
    /// The shares disagree on the number of shares of their dealing.
    InconsistentShareCounts,
    /// The shares disagree on the secret length.
    InconsistentSecretLengths,
    /// Fewer shares than the threshold were given.
    MissingShares,
    /// A share carries no signature.
    MissingSignatures,
    /// The shares' Merkle proofs disagree on the root hash.
    InconsistentRootHashes,
    /// A signature or a proof does not verify.
    SignatureVerificationFailure,
    /// The Merkle-signature scheme could not sign the shares.
    SigningFailure,
    /// The recovered envelope could not be decoded.
    SecretDeserializationError,
}

} // verus!
