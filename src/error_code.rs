//! The error codes of the client protocol.
use vstd::prelude::*;
use crate::notation::{be32, decode32, read_int, short_text, string_enc, write_int, write_string, ByteReader, DecodeError};

verus! {

#[derive(Debug, Clone, Copy, PartialEq, Eq, Structural)]
pub enum ErrorCode {
    ServerError,
    ProtocolError,
    BadCredentials,
    UnavailableException,
    Overloaded,
    IsBootstrapping,
    TruncateError,
    WriteTimeout,
    ReadTimeout,
    SyntaxError,
    Unauthorized,
    Invalid,
    ConfigError,
    AlreadyExists,
    Unprepared,
}

pub open spec fn error_value(e: ErrorCode) -> i32 {
    match e {
        ErrorCode::ServerError => 0x0000,
        ErrorCode::ProtocolError => 0x000A,
        ErrorCode::BadCredentials => 0x0100,
        ErrorCode::UnavailableException => 0x1000,
        ErrorCode::Overloaded => 0x1001,
        ErrorCode::IsBootstrapping => 0x1002,
        ErrorCode::TruncateError => 0x1003,
        ErrorCode::WriteTimeout => 0x1100,
        ErrorCode::ReadTimeout => 0x1200,
        ErrorCode::SyntaxError => 0x2000,
        ErrorCode::Unauthorized => 0x2100,
        ErrorCode::Invalid => 0x2200,
        ErrorCode::ConfigError => 0x2300,
        ErrorCode::AlreadyExists => 0x2400,
        ErrorCode::Unprepared => 0x2500,
    }
}

/// The code of a value; `None` for a value that names no error.
pub open spec fn error_of_value(v: i32) -> Option<ErrorCode> {
    if v == 0x0000 { Some(ErrorCode::ServerError) }
    else if v == 0x000A { Some(ErrorCode::ProtocolError) }
    else if v == 0x0100 { Some(ErrorCode::BadCredentials) }
    else if v == 0x1000 { Some(ErrorCode::UnavailableException) }
    else if v == 0x1001 { Some(ErrorCode::Overloaded) }
    else if v == 0x1002 { Some(ErrorCode::IsBootstrapping) }
    else if v == 0x1003 { Some(ErrorCode::TruncateError) }
    else if v == 0x1100 { Some(ErrorCode::WriteTimeout) }
    else if v == 0x1200 { Some(ErrorCode::ReadTimeout) }
    else if v == 0x2000 { Some(ErrorCode::SyntaxError) }
    else if v == 0x2100 { Some(ErrorCode::Unauthorized) }
    else if v == 0x2200 { Some(ErrorCode::Invalid) }
    else if v == 0x2300 { Some(ErrorCode::ConfigError) }
    else if v == 0x2400 { Some(ErrorCode::AlreadyExists) }
    else if v == 0x2500 { Some(ErrorCode::Unprepared) }
    else { None }
}

pub proof fn lemma_error_value_round_trip(e: ErrorCode)
    ensures
        error_of_value(error_value(e)) == Some(e),
{
}

impl ErrorCode {
    pub fn value(&self) -> (r: i32)
        ensures
            r == error_value(*self),
    {
        match self {
            ErrorCode::ServerError => 0x0000,
            ErrorCode::ProtocolError => 0x000A,
            ErrorCode::BadCredentials => 0x0100,
            ErrorCode::UnavailableException => 0x1000,
            ErrorCode::Overloaded => 0x1001,
            ErrorCode::IsBootstrapping => 0x1002,
            ErrorCode::TruncateError => 0x1003,
            ErrorCode::WriteTimeout => 0x1100,
            ErrorCode::ReadTimeout => 0x1200,
            ErrorCode::SyntaxError => 0x2000,
            ErrorCode::Unauthorized => 0x2100,
            ErrorCode::Invalid => 0x2200,
            ErrorCode::ConfigError => 0x2300,
            ErrorCode::AlreadyExists => 0x2400,
            ErrorCode::Unprepared => 0x2500,
        }
    }

    /// The code a value names.
    pub fn from_value(v: i32) -> (r: Option<ErrorCode>)
        ensures
            r == error_of_value(v),
    {
        if v == 0x0000 { Some(ErrorCode::ServerError) }
        else if v == 0x000A { Some(ErrorCode::ProtocolError) }
        else if v == 0x0100 { Some(ErrorCode::BadCredentials) }
        else if v == 0x1000 { Some(ErrorCode::UnavailableException) }
        else if v == 0x1001 { Some(ErrorCode::Overloaded) }
        else if v == 0x1002 { Some(ErrorCode::IsBootstrapping) }
        else if v == 0x1003 { Some(ErrorCode::TruncateError) }
        else if v == 0x1100 { Some(ErrorCode::WriteTimeout) }
        else if v == 0x1200 { Some(ErrorCode::ReadTimeout) }
        else if v == 0x2000 { Some(ErrorCode::SyntaxError) }
        else if v == 0x2100 { Some(ErrorCode::Unauthorized) }
        else if v == 0x2200 { Some(ErrorCode::Invalid) }
        else if v == 0x2300 { Some(ErrorCode::ConfigError) }
        else if v == 0x2400 { Some(ErrorCode::AlreadyExists) }
        else if v == 0x2500 { Some(ErrorCode::Unprepared) }
        else { None }
    }

    /// A short description of the error.
    pub fn message(&self) -> (r: &'static str)
        ensures
            short_text(r@),
            r@.len() > 0,
    {
        proof {
            reveal_strlit("A server error occurred.");
            reveal_strlit("There was a protocol error.");
            reveal_strlit("Invalid credentials provided.");
            reveal_strlit("The requested service is unavailable.");
            reveal_strlit("The server is overloaded.");
            reveal_strlit("The server is currently bootstrapping.");
            reveal_strlit("An error occurred while truncating data.");
            reveal_strlit("A write timeout occurred.");
            reveal_strlit("A read timeout occurred.");
            reveal_strlit("There is a syntax error in the query.");
            reveal_strlit("You are unauthorized to perform this action.");
            reveal_strlit("The request was invalid.");
            reveal_strlit("There is a configuration error.");
            reveal_strlit("The item you are trying to create already exists.");
            reveal_strlit("The query was not prepared.");
        }
        let m = match self {
            ErrorCode::ServerError => "A server error occurred.",
            ErrorCode::ProtocolError => "There was a protocol error.",
            ErrorCode::BadCredentials => "Invalid credentials provided.",
            ErrorCode::UnavailableException => "The requested service is unavailable.",
            ErrorCode::Overloaded => "The server is overloaded.",
            ErrorCode::IsBootstrapping => "The server is currently bootstrapping.",
            ErrorCode::TruncateError => "An error occurred while truncating data.",
            ErrorCode::WriteTimeout => "A write timeout occurred.",
            ErrorCode::ReadTimeout => "A read timeout occurred.",
            ErrorCode::SyntaxError => "There is a syntax error in the query.",
            ErrorCode::Unauthorized => "You are unauthorized to perform this action.",
            ErrorCode::Invalid => "The request was invalid.",
            ErrorCode::ConfigError => "There is a configuration error.",
            ErrorCode::AlreadyExists => "The item you are trying to create already exists.",
            ErrorCode::Unprepared => "The query was not prepared.",
        };
        proof {
            vstd::string::is_ascii_spec_bytes(m);
        }
        m
    }

    /// The body of an `ERROR` frame: the code as an `[int]`, then the message.
    pub fn serialize(&self) -> (r: Vec<u8>)
        ensures
            exists|m: Seq<char>| r@ == be32(error_value(*self) as u32) + string_enc(m) && m.len() > 0,
            r@.len() <= 4 + 2 + u16::MAX,
    {
        let mut body: Vec<u8> = Vec::new();
        write_int(&mut body, self.value());
        let m = self.message();
        write_string(&mut body, m);
        assert(body@.len() == 4 + 2 + vstd::utf8::encode_utf8(m@).len());
        body
    }
}

/// Why an error body could not be read.
#[derive(Debug, Clone, Copy, PartialEq, Eq, Structural)]
pub enum ErrorBodyError {
    /// Fewer than four bytes.
    Short,
    /// The leading `[int]` names no error code.
    UnknownCode,
}

impl ErrorCode {
    /// The error code at the front of an `ERROR` body.
    pub fn deserialize_to_code(body: &[u8]) -> (r: Result<ErrorCode, ErrorBodyError>)
        ensures
            body@.len() < 4 ==> r == Err::<ErrorCode, ErrorBodyError>(ErrorBodyError::Short),
            body@.len() >= 4 ==> match error_of_value(decode32(body@) as i32) {
                Some(e) => r == Ok::<ErrorCode, ErrorBodyError>(e),
                None => r == Err::<ErrorCode, ErrorBodyError>(ErrorBodyError::UnknownCode),
            },
    {
        let mut cursor = ByteReader::new(body);
        let v = match read_int(&mut cursor) {
            Ok(v) => v,
            Err(_) => return Err(ErrorBodyError::Short),
        };
        assert(v == decode32(body@) as i32) by {
            let u = decode32(body@);
            assert(v as u32 == u);
            assert(v == (v as u32) as i32) by (bit_vector);
        }
        match ErrorCode::from_value(v) {
            Some(e) => Ok(e),
            None => Err(ErrorBodyError::UnknownCode),
        }
    }
}

/// An `ERROR` body reads back as the code that was written.
pub proof fn lemma_error_body_round_trip(e: ErrorCode, rest: Seq<u8>)
    ensures
        decode32(be32(error_value(e) as u32) + rest) as i32 == error_value(e),
        error_of_value(decode32(be32(error_value(e) as u32) + rest) as i32) == Some(e),
{
    let b = be32(error_value(e) as u32) + rest;
    crate::notation::lemma_be32_round_trip(error_value(e) as u32);
    assert(b.subrange(0, 4) =~= be32(error_value(e) as u32));
    assert(decode32(b) == decode32(b.subrange(0, 4)));
    let x = error_value(e);
    assert((x as u32) as i32 == x) by (bit_vector);
}

} // verus!
