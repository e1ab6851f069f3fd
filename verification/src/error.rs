//! Transport error codes and transport errors.
use vstd::prelude::*;

use crate::frame::{FrameType, frame_text};
use crate::text::{decimal_text, push_decimal, push_text};

verus! {

/// Transport-level error code
#[derive(Copy, Clone, Eq, PartialEq, Debug, Structural)]
pub struct TransportErrorCode(pub u64);

impl TransportErrorCode {
    /// the connection is being closed abruptly in the absence of any error
    #[verifier::allow_in_spec]
    #[allow(non_snake_case)]
    pub fn NO_ERROR() -> Self
        returns
            TransportErrorCode(0x0),
    {
        TransportErrorCode(0x0)
    }
    /// the endpoint encountered an internal error and cannot continue with the connection
    #[verifier::allow_in_spec]
    #[allow(non_snake_case)]
    pub fn INTERNAL_ERROR() -> Self
        returns
            TransportErrorCode(0x1),
    {
        TransportErrorCode(0x1)
    }
    /// the server refused to accept a new connection
    #[verifier::allow_in_spec]
    #[allow(non_snake_case)]
    pub fn CONNECTION_REFUSED() -> Self
        returns
            TransportErrorCode(0x2),
    {
        TransportErrorCode(0x2)
    }
    /// received more data than permitted in advertised data limits
    #[verifier::allow_in_spec]
    #[allow(non_snake_case)]
    pub fn FLOW_CONTROL_ERROR() -> Self
        returns
            TransportErrorCode(0x3),
    {
        TransportErrorCode(0x3)
    }
    /// received a frame for a stream identifier that exceeded advertised the stream limit for the corresponding stream type
    #[verifier::allow_in_spec]
    #[allow(non_snake_case)]
    pub fn STREAM_LIMIT_ERROR() -> Self
        returns
            TransportErrorCode(0x4),
    {
        TransportErrorCode(0x4)
    }
    /// received a frame for a stream that was not in a state that permitted that frame
    #[verifier::allow_in_spec]
    #[allow(non_snake_case)]
    pub fn STREAM_STATE_ERROR() -> Self
        returns
            TransportErrorCode(0x5),
    {
        TransportErrorCode(0x5)
    }
    /// received a STREAM frame or a RESET_STREAM frame containing a different final size to the one already established
    #[verifier::allow_in_spec]
    #[allow(non_snake_case)]
    pub fn FINAL_SIZE_ERROR() -> Self
        returns
            TransportErrorCode(0x6),
    {
        TransportErrorCode(0x6)
    }
    /// received a frame that was badly formatted
    #[verifier::allow_in_spec]
    #[allow(non_snake_case)]
    pub fn FRAME_ENCODING_ERROR() -> Self
        returns
            TransportErrorCode(0x7),
    {
        TransportErrorCode(0x7)
    }
    /// received transport parameters that were badly formatted, included an invalid value, was absent even though it is mandatory, was present though it is forbidden, or is otherwise in error
    #[verifier::allow_in_spec]
    #[allow(non_snake_case)]
    pub fn TRANSPORT_PARAMETER_ERROR() -> Self
        returns
            TransportErrorCode(0x8),
    {
        TransportErrorCode(0x8)
    }
    /// the number of connection IDs provided by the peer exceeds the advertised active_connection_id_limit
    #[verifier::allow_in_spec]
    #[allow(non_snake_case)]
    pub fn CONNECTION_ID_LIMIT_ERROR() -> Self
        returns
            TransportErrorCode(0x9),
    {
        TransportErrorCode(0x9)
    }
    /// detected an error with protocol compliance that was not covered by more specific error codes
    #[verifier::allow_in_spec]
    #[allow(non_snake_case)]
    pub fn PROTOCOL_VIOLATION() -> Self
        returns
            TransportErrorCode(0xA),
    {
        TransportErrorCode(0xA)
    }
    /// received an invalid Retry Token in a client Initial
    #[verifier::allow_in_spec]
    #[allow(non_snake_case)]
    pub fn INVALID_TOKEN() -> Self
        returns
            TransportErrorCode(0xB),
    {
        TransportErrorCode(0xB)
    }
    /// the application or application protocol caused the connection to be closed during the handshake
    #[verifier::allow_in_spec]
    #[allow(non_snake_case)]
    pub fn APPLICATION_ERROR() -> Self
        returns
            TransportErrorCode(0xC),
    {
        TransportErrorCode(0xC)
    }
    /// received more data in CRYPTO frames than can be buffered
    #[verifier::allow_in_spec]
    #[allow(non_snake_case)]
    pub fn CRYPTO_BUFFER_EXCEEDED() -> Self
        returns
            TransportErrorCode(0xD),
    {
        TransportErrorCode(0xD)
    }
    /// key update error
    #[verifier::allow_in_spec]
    #[allow(non_snake_case)]
    pub fn KEY_UPDATE_ERROR() -> Self
        returns
            TransportErrorCode(0xE),
    {
        TransportErrorCode(0xE)
    }
    /// the endpoint has reached the confidentiality or integrity limit for the AEAD algorithm
    #[verifier::allow_in_spec]
    #[allow(non_snake_case)]
    pub fn AEAD_LIMIT_REACHED() -> Self
        returns
            TransportErrorCode(0xF),
    {
        TransportErrorCode(0xF)
    }
    /// no viable network path exists
    #[verifier::allow_in_spec]
    #[allow(non_snake_case)]
    pub fn NO_VIABLE_PATH() -> Self
        returns
            TransportErrorCode(0x10),
    {
        TransportErrorCode(0x10)
    }

    /// Create QUIC error code from TLS alert code
    pub fn crypto(code: u8) -> (r: Self)
        ensures
            r.0 == (0x100u64 | code as u64),
            r.0 == 0x100 + code,
    {
        assert((0x100u64 | code as u64) == 0x100 + code) by (bit_vector);
        Self(0x100 | code as u64)
    }

    /// The code as an integer.
    pub fn value(self) -> (r: u64)
        ensures
            r == self.0,
    {
        self.0
    }
}

impl From<u64> for TransportErrorCode {
    fn from(code: u64) -> (r: Self) {
        Self(code)
    }
}

impl vstd::std_specs::convert::FromSpecImpl<u64> for TransportErrorCode {
    open spec fn obeys_from_spec() -> bool {
        true
    }

    open spec fn from_spec(code: u64) -> Self {
        TransportErrorCode(code)
    }
}

/// The description an error code is shown with.
pub open spec fn code_text(c: u64) -> Seq<char> {
    if c == 0x0 {
        "the connection is being closed abruptly in the absence of any error"@
    } else if c == 0x1 {
        "the endpoint encountered an internal error and cannot continue with the connection"@
    } else if c == 0x2 {
        "the server refused to accept a new connection"@
    } else if c == 0x3 {
        "received more data than permitted in advertised data limits"@
    } else if c == 0x4 {
        "received a frame for a stream identifier that exceeded advertised the stream limit for the corresponding stream type"@
    } else if c == 0x5 {
        "received a frame for a stream that was not in a state that permitted that frame"@
    } else if c == 0x6 {
        "received a STREAM frame or a RESET_STREAM frame containing a different final size to the one already established"@
    } else if c == 0x7 {
        "received a frame that was badly formatted"@
    } else if c == 0x8 {
        "received transport parameters that were badly formatted, included an invalid value, was absent even though it is mandatory, was present though it is forbidden, or is otherwise in error"@
    } else if c == 0x9 {
        "the number of connection IDs provided by the peer exceeds the advertised active_connection_id_limit"@
    } else if c == 0xa {
        "detected an error with protocol compliance that was not covered by more specific error codes"@
    } else if c == 0xb {
        "received an invalid Retry Token in a client Initial"@
    } else if c == 0xc {
        "the application or application protocol caused the connection to be closed during the handshake"@
    } else if c == 0xd {
        "received more data in CRYPTO frames than can be buffered"@
    } else if c == 0xe {
        "key update error"@
    } else if c == 0xf {
        "the endpoint has reached the confidentiality or integrity limit for the AEAD algorithm"@
    } else if c == 0x10 {
        "no viable network path exists"@
    } else if 0x100 <= c < 0x200 {
        "the cryptographic handshake failed: error "@ + decimal_text((c - 0x100) as nat)
    } else {
        "unknown error"@
    }
}

impl TransportErrorCode {
    /// The description the code is shown with.
    pub fn to_string(&self) -> (r: String)
        ensures
            r@ == code_text(self.0),
    {
        let c = self.0;
        if c == 0x0 {
            "the connection is being closed abruptly in the absence of any error".to_owned()
        } else if c == 0x1 {
            "the endpoint encountered an internal error and cannot continue with the connection".to_owned()
        } else if c == 0x2 {
            "the server refused to accept a new connection".to_owned()
        } else if c == 0x3 {
            "received more data than permitted in advertised data limits".to_owned()
        } else if c == 0x4 {
            "received a frame for a stream identifier that exceeded advertised the stream limit for the corresponding stream type".to_owned()
        } else if c == 0x5 {
            "received a frame for a stream that was not in a state that permitted that frame".to_owned()
        } else if c == 0x6 {
            "received a STREAM frame or a RESET_STREAM frame containing a different final size to the one already established".to_owned()
        } else if c == 0x7 {
            "received a frame that was badly formatted".to_owned()
        } else if c == 0x8 {
            "received transport parameters that were badly formatted, included an invalid value, was absent even though it is mandatory, was present though it is forbidden, or is otherwise in error".to_owned()
        } else if c == 0x9 {
            "the number of connection IDs provided by the peer exceeds the advertised active_connection_id_limit".to_owned()
        } else if c == 0xa {
            "detected an error with protocol compliance that was not covered by more specific error codes".to_owned()
        } else if c == 0xb {
            "received an invalid Retry Token in a client Initial".to_owned()
        } else if c == 0xc {
            "the application or application protocol caused the connection to be closed during the handshake".to_owned()
        } else if c == 0xd {
            "received more data in CRYPTO frames than can be buffered".to_owned()
        } else if c == 0xe {
            "key update error".to_owned()
        } else if c == 0xf {
            "the endpoint has reached the confidentiality or integrity limit for the AEAD algorithm".to_owned()
        } else if c == 0x10 {
            "no viable network path exists".to_owned()
        } else if 0x100 <= c && c < 0x200 {
            let mut s = "the cryptographic handshake failed: error ".to_owned();
            push_decimal(&mut s, c - 0x100);
            s
        } else {
            "unknown error".to_owned()
        }
    }
}

/// Transport-level errors occur when a peer violates the protocol specification
#[derive(Debug, Clone, Eq, PartialEq)]
pub struct TransportError {
    /// Type of error
    pub code: TransportErrorCode,
    /// Frame type that triggered the error
    pub frame: Option<FrameType>,
    /// Human-readable explanation of the reason
    pub reason: String,
}

impl TransportError {
    /// An error of the given code, with no frame type and the given reason.
    pub fn with_code(code: TransportErrorCode, reason: &str) -> (r: Self)
        ensures
            r.code == code,
            r.frame is None,
            r.reason@ == reason@,
    {
        Self { code, frame: None, reason: reason.to_owned() }
    }

    #[allow(non_snake_case)]
    pub fn NO_ERROR(reason: &str) -> (r: Self)
        ensures
            r.code == TransportErrorCode::NO_ERROR(),
            r.frame is None,
            r.reason@ == reason@,
    {
        Self::with_code(TransportErrorCode::NO_ERROR(), reason)
    }

    #[allow(non_snake_case)]
    pub fn INTERNAL_ERROR(reason: &str) -> (r: Self)
        ensures
            r.code == TransportErrorCode::INTERNAL_ERROR(),
            r.frame is None,
            r.reason@ == reason@,
    {
        Self::with_code(TransportErrorCode::INTERNAL_ERROR(), reason)
    }

    #[allow(non_snake_case)]
    pub fn CONNECTION_REFUSED(reason: &str) -> (r: Self)
        ensures
            r.code == TransportErrorCode::CONNECTION_REFUSED(),
            r.frame is None,
            r.reason@ == reason@,
    {
        Self::with_code(TransportErrorCode::CONNECTION_REFUSED(), reason)
    }

    #[allow(non_snake_case)]
    pub fn FLOW_CONTROL_ERROR(reason: &str) -> (r: Self)
        ensures
            r.code == TransportErrorCode::FLOW_CONTROL_ERROR(),
            r.frame is None,
            r.reason@ == reason@,
    {
        Self::with_code(TransportErrorCode::FLOW_CONTROL_ERROR(), reason)
    }

    #[allow(non_snake_case)]
    pub fn STREAM_LIMIT_ERROR(reason: &str) -> (r: Self)
        ensures
            r.code == TransportErrorCode::STREAM_LIMIT_ERROR(),
            r.frame is None,
            r.reason@ == reason@,
    {
        Self::with_code(TransportErrorCode::STREAM_LIMIT_ERROR(), reason)
    }

    #[allow(non_snake_case)]
    pub fn STREAM_STATE_ERROR(reason: &str) -> (r: Self)
        ensures
            r.code == TransportErrorCode::STREAM_STATE_ERROR(),
            r.frame is None,
            r.reason@ == reason@,
    {
        Self::with_code(TransportErrorCode::STREAM_STATE_ERROR(), reason)
    }

    #[allow(non_snake_case)]
    pub fn FINAL_SIZE_ERROR(reason: &str) -> (r: Self)
        ensures
            r.code == TransportErrorCode::FINAL_SIZE_ERROR(),
            r.frame is None,
            r.reason@ == reason@,
    {
        Self::with_code(TransportErrorCode::FINAL_SIZE_ERROR(), reason)
    }

    #[allow(non_snake_case)]
    pub fn FRAME_ENCODING_ERROR(reason: &str) -> (r: Self)
        ensures
            r.code == TransportErrorCode::FRAME_ENCODING_ERROR(),
            r.frame is None,
            r.reason@ == reason@,
    {
        Self::with_code(TransportErrorCode::FRAME_ENCODING_ERROR(), reason)
    }

    #[allow(non_snake_case)]
    pub fn TRANSPORT_PARAMETER_ERROR(reason: &str) -> (r: Self)
        ensures
            r.code == TransportErrorCode::TRANSPORT_PARAMETER_ERROR(),
            r.frame is None,
            r.reason@ == reason@,
    {
        Self::with_code(TransportErrorCode::TRANSPORT_PARAMETER_ERROR(), reason)
    }

    #[allow(non_snake_case)]
    pub fn CONNECTION_ID_LIMIT_ERROR(reason: &str) -> (r: Self)
        ensures
            r.code == TransportErrorCode::CONNECTION_ID_LIMIT_ERROR(),
            r.frame is None,
            r.reason@ == reason@,
    {
        Self::with_code(TransportErrorCode::CONNECTION_ID_LIMIT_ERROR(), reason)
    }

    #[allow(non_snake_case)]
    pub fn PROTOCOL_VIOLATION(reason: &str) -> (r: Self)
        ensures
            r.code == TransportErrorCode::PROTOCOL_VIOLATION(),
            r.frame is None,
            r.reason@ == reason@,
    {
        Self::with_code(TransportErrorCode::PROTOCOL_VIOLATION(), reason)
    }

    #[allow(non_snake_case)]
    pub fn INVALID_TOKEN(reason: &str) -> (r: Self)
        ensures
            r.code == TransportErrorCode::INVALID_TOKEN(),
            r.frame is None,
            r.reason@ == reason@,
    {
        Self::with_code(TransportErrorCode::INVALID_TOKEN(), reason)
    }

    #[allow(non_snake_case)]
    pub fn APPLICATION_ERROR(reason: &str) -> (r: Self)
        ensures
            r.code == TransportErrorCode::APPLICATION_ERROR(),
            r.frame is None,
            r.reason@ == reason@,
    {
        Self::with_code(TransportErrorCode::APPLICATION_ERROR(), reason)
    }

    #[allow(non_snake_case)]
    pub fn CRYPTO_BUFFER_EXCEEDED(reason: &str) -> (r: Self)
        ensures
            r.code == TransportErrorCode::CRYPTO_BUFFER_EXCEEDED(),
            r.frame is None,
            r.reason@ == reason@,
    {
        Self::with_code(TransportErrorCode::CRYPTO_BUFFER_EXCEEDED(), reason)
    }

    #[allow(non_snake_case)]
    pub fn KEY_UPDATE_ERROR(reason: &str) -> (r: Self)
        ensures
            r.code == TransportErrorCode::KEY_UPDATE_ERROR(),
            r.frame is None,
            r.reason@ == reason@,
    {
        Self::with_code(TransportErrorCode::KEY_UPDATE_ERROR(), reason)
    }

    #[allow(non_snake_case)]
    pub fn AEAD_LIMIT_REACHED(reason: &str) -> (r: Self)
        ensures
            r.code == TransportErrorCode::AEAD_LIMIT_REACHED(),
            r.frame is None,
            r.reason@ == reason@,
    {
        Self::with_code(TransportErrorCode::AEAD_LIMIT_REACHED(), reason)
    }

    #[allow(non_snake_case)]
    pub fn NO_VIABLE_PATH(reason: &str) -> (r: Self)
        ensures
            r.code == TransportErrorCode::NO_VIABLE_PATH(),
            r.frame is None,
            r.reason@ == reason@,
    {
        Self::with_code(TransportErrorCode::NO_VIABLE_PATH(), reason)
    }
}

/// The text a transport error is shown with: the description of its code,
/// the frame type it came with, and its reason.
pub open spec fn error_text(e: TransportError) -> Seq<char> {
    code_text(e.code.0) + match e.frame {
        Some(f) => " in "@ + frame_text(f.0),
        None => Seq::empty(),
    } + if e.reason@.len() == 0 {
        Seq::empty()
    } else {
        ": "@ + e.reason@
    }
}

impl TransportError {
    /// The text the error is shown with.
    pub fn to_string(&self) -> (r: String)
        ensures
            r@ == error_text(*self),
    {
        let mut s = self.code.to_string();
        if let Some(f) = self.frame {
            push_text(&mut s, " in ");
            let t = f.to_string();
            push_text(&mut s, t.as_str());
        }
        if !self.reason.as_str().is_empty() {
            push_text(&mut s, ": ");
            push_text(&mut s, self.reason.as_str());
        }
        s
    }
}

} // verus!
