use vstd::prelude::*;

verus! {

/// Process exit classifications, one per fatal failure kind, so that scripts
/// calling the tool can tell the failures apart.
#[derive(Clone, Copy, Debug, PartialEq, Eq, Structural)]
pub enum Errors {
    WinUserErr,
    HomePathErr,
    ConfigDirErr,
    NoteIdErr,
    InputFlagErr,
    MenuLineErr,
    MenuLineEmptyErr,
    NoteIdMalformedErr,
    LastTouchFetchErr,
    SummaryErr,
    MenuLineMalformedErr,
    SetPasswordErr,
    CreatePasswordErr,
    KeyValInsertErr,
    KeyValSelectErr,
    KeyValUpdateErr,
}

impl Errors {
    /// The exit code reported for this failure kind.
    pub open spec fn spec_exit_code(self) -> int {
        match self {
            Errors::WinUserErr => 501,
            Errors::HomePathErr => 502,
            Errors::ConfigDirErr => 503,
            Errors::NoteIdErr => 504,
            Errors::InputFlagErr => 505,
            Errors::MenuLineErr => 506,
            Errors::MenuLineEmptyErr => 507,
            Errors::NoteIdMalformedErr => 508,
            Errors::LastTouchFetchErr => 509,
            Errors::SummaryErr => 510,
            Errors::MenuLineMalformedErr => 511,
            Errors::SetPasswordErr => 512,
            Errors::CreatePasswordErr => 513,
            Errors::KeyValInsertErr => 514,
            Errors::KeyValSelectErr => 515,
            Errors::KeyValUpdateErr => 516,
        }
    }

    pub fn exit_code(&self) -> (r: i32)
        ensures
            r as int == self.spec_exit_code(),
    {
        match self {
            Errors::WinUserErr => 501,
            Errors::HomePathErr => 502,
            Errors::ConfigDirErr => 503,
            Errors::NoteIdErr => 504,
            Errors::InputFlagErr => 505,
            Errors::MenuLineErr => 506,
            Errors::MenuLineEmptyErr => 507,
            Errors::NoteIdMalformedErr => 508,
            Errors::LastTouchFetchErr => 509,
            Errors::SummaryErr => 510,
            Errors::MenuLineMalformedErr => 511,
            Errors::SetPasswordErr => 512,
            Errors::CreatePasswordErr => 513,
            Errors::KeyValInsertErr => 514,
            Errors::KeyValSelectErr => 515,
            Errors::KeyValUpdateErr => 516,
        }
    }
}

/// Outcomes of the key-wrapping and note-protection operations.
///
/// The first four are genuine failures; the last three are policy outcomes
/// (a no-op, or a missing record) that callers report rather than retry.
#[derive(Clone, Copy, Debug, PartialEq, Eq, Structural)]
pub enum SecurityError {
    /// The password gate ran out of attempts.
    AuthenticationExhausted,
    /// The presented recovery code's fingerprint does not match the stored one.
    InvalidRecoveryCode,
    /// The cipher could not invert a ciphertext with the secret given.
    DecryptionFailure,
    /// A key/value write did not report success.
    AttributeWriteFailure,
    /// The note is not protected, so there is nothing to decrypt.
    NoteNotProtected,
    /// The note is already protected; protecting again is a no-op.
    NoteAlreadyProtected,
    /// No note with the requested id exists.
    NoteNotFound,
}

} // verus!
