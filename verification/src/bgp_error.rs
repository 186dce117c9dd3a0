//! The RFC 4271 protocol-error taxonomy: an error code together with a
//! sub-code, as carried by a Notification message.

use vstd::prelude::*;

verus! {

/// The top-level error code of a Notification message (RFC 4271, section 4.5).
/// The registry is open-ended on the wire, so an unrecognized code is kept
/// in the `Unknown` variant rather than dropped.
#[derive(Clone, Copy, PartialEq, Eq, Structural, Debug, Hash)]
pub enum ErrorCode {
    MessageHeader,
    OpenMessage,
    UpdateMessage,
    HoldTimerExpired,
    FiniteStateMachine,
    Cease,
    Unknown(u8),
}

impl ErrorCode {
    /// The wire value of this error code.
    pub open spec fn spec_to_u8(self) -> u8 {
        match self {
            ErrorCode::MessageHeader => 1,
            ErrorCode::OpenMessage => 2,
            ErrorCode::UpdateMessage => 3,
            ErrorCode::HoldTimerExpired => 4,
            ErrorCode::FiniteStateMachine => 5,
            ErrorCode::Cease => 6,
            ErrorCode::Unknown(value) => value,
        }
    }

    /// The error code a wire value stands for.
    pub open spec fn spec_from_u8(value: u8) -> ErrorCode {
        match value {
            1u8 => ErrorCode::MessageHeader,
            2u8 => ErrorCode::OpenMessage,
            3u8 => ErrorCode::UpdateMessage,
            4u8 => ErrorCode::HoldTimerExpired,
            5u8 => ErrorCode::FiniteStateMachine,
            6u8 => ErrorCode::Cease,
            _ => ErrorCode::Unknown(value),
        }
    }

    /// A code decodes and re-encodes to the same wire value exactly when an
    /// `Unknown` does not shadow one of the six assigned values.
    pub open spec fn canonical(self) -> bool {
        match self {
            ErrorCode::Unknown(value) => !(1 <= value <= 6),
            _ => true,
        }
    }

    #[verifier::when_used_as_spec(spec_to_u8)]
    pub fn to_u8(self) -> (r: u8)
        ensures
            r == self.spec_to_u8(),
    {
        match self {
            ErrorCode::MessageHeader => 1,
            ErrorCode::OpenMessage => 2,
            ErrorCode::UpdateMessage => 3,
            ErrorCode::HoldTimerExpired => 4,
            ErrorCode::FiniteStateMachine => 5,
            ErrorCode::Cease => 6,
            ErrorCode::Unknown(value) => value,
        }
    }

    #[verifier::when_used_as_spec(spec_from_u8)]
    pub fn from_u8(value: u8) -> (r: ErrorCode)
        ensures
            r == ErrorCode::spec_from_u8(value),
    {
        match value {
            1 => ErrorCode::MessageHeader,
            2 => ErrorCode::OpenMessage,
            3 => ErrorCode::UpdateMessage,
            4 => ErrorCode::HoldTimerExpired,
            5 => ErrorCode::FiniteStateMachine,
            6 => ErrorCode::Cease,
            _ => ErrorCode::Unknown(value),
        }
    }
}

/// The sub-codes of the `MessageHeader` error code (RFC 4271, section 6.1).
#[derive(Clone, Copy, PartialEq, Eq, Structural, Debug, Hash)]
pub enum HeaderError {
    ConnectionNotSynchronized,
    BadMessageLength,
    BadMessageType,
}

impl HeaderError {
    pub open spec fn spec_to_u8(self) -> u8 {
        match self {
            HeaderError::ConnectionNotSynchronized => 1,
            HeaderError::BadMessageLength => 2,
            HeaderError::BadMessageType => 3,
        }
    }

    #[verifier::when_used_as_spec(spec_to_u8)]
    pub fn to_u8(self) -> (r: u8)
        ensures
            r == self.spec_to_u8(),
    {
        match self {
            HeaderError::ConnectionNotSynchronized => 1,
            HeaderError::BadMessageLength => 2,
            HeaderError::BadMessageType => 3,
        }
    }
}

/// The sub-codes of the `OpenMessage` error code (RFC 4271, section 6.2).
#[derive(Clone, Copy, PartialEq, Eq, Structural, Debug, Hash)]
pub enum OpenMessageError {
    UnsupportedVersionNumber,
    BadPeerAS,
    BadBGPIdentifier,
    UnsupportedOptionalParameter,
    UnacceptableHoldTime,
}

impl OpenMessageError {
    pub open spec fn spec_to_u8(self) -> u8 {
        match self {
            OpenMessageError::UnsupportedVersionNumber => 1,
            OpenMessageError::BadPeerAS => 2,
            OpenMessageError::BadBGPIdentifier => 3,
            OpenMessageError::UnsupportedOptionalParameter => 4,
            OpenMessageError::UnacceptableHoldTime => 6,
        }
    }

    #[verifier::when_used_as_spec(spec_to_u8)]
    pub fn to_u8(self) -> (r: u8)
        ensures
            r == self.spec_to_u8(),
    {
        match self {
            OpenMessageError::UnsupportedVersionNumber => 1,
            OpenMessageError::BadPeerAS => 2,
            OpenMessageError::BadBGPIdentifier => 3,
            OpenMessageError::UnsupportedOptionalParameter => 4,
            OpenMessageError::UnacceptableHoldTime => 6,
        }
    }
}

/// An RFC 4271 protocol error: the (code, sub-code) pair that would be
/// reflected back to the peer in a Notification message.
#[derive(Clone, Copy, PartialEq, Eq, Structural, Debug, Hash)]
pub struct BGPError {
    error_code: ErrorCode,
    sub_code: u8,
}

impl BGPError {
    pub closed spec fn spec_new(error_code: ErrorCode, sub_code: u8) -> BGPError {
        BGPError { error_code, sub_code }
    }

    pub closed spec fn spec_error_code(self) -> ErrorCode {
        self.error_code
    }

    pub closed spec fn spec_sub_code(self) -> u8 {
        self.sub_code
    }

    pub broadcast proof fn lemma_new_fields(error_code: ErrorCode, sub_code: u8)
        ensures
            (#[trigger] BGPError::spec_new(error_code, sub_code)).spec_error_code()
                == error_code,
            BGPError::spec_new(error_code, sub_code).spec_sub_code() == sub_code,
    {
    }

    #[verifier::when_used_as_spec(spec_new)]
    pub fn new(error_code: ErrorCode, sub_code: u8) -> (r: BGPError)
        ensures
            r == BGPError::spec_new(error_code, sub_code),
    {
        BGPError { error_code, sub_code }
    }

    /// The pair for a header validation failure.
    pub fn header_error(sub_code: HeaderError) -> (r: BGPError)
        ensures
            r == BGPError::spec_new(ErrorCode::MessageHeader, sub_code.spec_to_u8()),
    {
        BGPError::new(ErrorCode::MessageHeader, sub_code.to_u8())
    }

    /// The pair for an Open-message validation failure.
    pub fn open(sub_code: OpenMessageError) -> (r: BGPError)
        ensures
            r == BGPError::spec_new(ErrorCode::OpenMessage, sub_code.spec_to_u8()),
    {
        BGPError::new(ErrorCode::OpenMessage, sub_code.to_u8())
    }

    #[verifier::when_used_as_spec(spec_error_code)]
    pub fn error_code(self) -> (r: ErrorCode)
        ensures
            r == self.spec_error_code(),
    {
        self.error_code
    }

    #[verifier::when_used_as_spec(spec_sub_code)]
    pub fn sub_code(self) -> (r: u8)
        ensures
            r == self.spec_sub_code(),
    {
        self.sub_code
    }
}

} // verus!
