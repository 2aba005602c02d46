//! Client frames: the nine-byte header, the message bodies, and the connection's
//! handshake as a state machine.
use vstd::prelude::*;
use crate::authentication::{AuthChallenge, AuthResponse};
use crate::error_code::{error_value, ErrorCode};
use crate::notation::{
    be16, be32, push_all, short_text, string_enc, string_map_enc, string_multimap_enc, string_pairs_view,
    write_short, write_string, str_multi_view,
};
use crate::query::{query_enc, query_fits, Query};
use crate::security::{mod_pow, EncryptionHandler};
use crate::startup_options::{default_supported, validate_options, options_valid};

verus! {

#[derive(Copy, Clone, Debug, PartialEq, Eq, Structural)]
pub enum Version {
    RequestV3,
    ResponseV3,
}

pub open spec fn version_byte(v: Version) -> u8 {
    match v {
        Version::RequestV3 => 0x03,
        Version::ResponseV3 => 0x83,
    }
}

impl Version {
    /// The version a header byte names.
    pub fn from_byte(value: u8) -> (r: Option<Version>)
        ensures
            r == (if value == 0x03 { Some(Version::RequestV3) } else if value == 0x83 { Some(Version::ResponseV3) } else { None }),
    {
        if value == 0x03 {
            Some(Version::RequestV3)
        } else if value == 0x83 {
            Some(Version::ResponseV3)
        } else {
            None
        }
    }

    pub fn to_byte(self) -> (r: u8)
        ensures
            r == version_byte(self),
    {
        match self {
            Version::RequestV3 => 0x03,
            Version::ResponseV3 => 0x83,
        }
    }
}

/// A message of the client protocol. A `RESULT` carries its body's bytes.
#[derive(Debug, Clone)]
pub enum Message {
    Error(ErrorCode),
    Startup(Vec<(String, String)>),
    Ready,
    Authenticate(String),
    Options,
    Supported(Vec<(String, Vec<String>)>),
    Query(Query),
    Result(Vec<u8>),
    Prepare,
    Execute,
    Register,
    Event,
    Batch,
    AuthChallenge(Vec<u8>),
    AuthResponse(Vec<u8>),
    AuthSuccess,
}

pub open spec fn op_code(m: Message) -> u8 {
    match m {
        Message::Error(_) => 0x00,
        Message::Startup(_) => 0x01,
        Message::Ready => 0x02,
        Message::Authenticate(_) => 0x03,
        Message::Options => 0x05,
        Message::Supported(_) => 0x06,
        Message::Query(_) => 0x07,
        Message::Result(_) => 0x08,
        Message::Prepare => 0x09,
        Message::Execute => 0x0A,
        Message::Register => 0x0B,
        Message::Event => 0x0C,
        Message::Batch => 0x0D,
        Message::AuthChallenge(_) => 0x0E,
        Message::AuthResponse(_) => 0x0F,
        Message::AuthSuccess => 0x10,
    }
}

pub open spec fn multi_view(l: Seq<(String, Vec<String>)>) -> Seq<(Seq<char>, Seq<Seq<char>>)> {
    l.map_values(|p: (String, Vec<String>)| (p.0@, crate::notation::strings_view(p.1@)))
}

/// Whether every text and count of the message fits the length before it.
pub open spec fn message_fits(m: Message) -> bool {
    match m {
        Message::Startup(o) => o@.len() <= u16::MAX && forall|i: int| 0 <= i < o@.len() ==> short_text((#[trigger] o@[i]).0@) && short_text(o@[i].1@),
        Message::Supported(o) => o@.len() <= u16::MAX && forall|i: int| 0 <= i < o@.len() ==> short_text((#[trigger] o@[i]).0@)
            && o@[i].1@.len() <= u16::MAX && forall|j: int| 0 <= j < o@[i].1@.len() ==> short_text((#[trigger] o@[i].1@[j])@),
        Message::Authenticate(s) => short_text(s@),
        Message::Query(q) => query_fits(q),
        _ => true,
    }
}

impl Message {
    pub fn to_op_code(&self) -> (r: u8)
        ensures
            r == op_code(*self),
    {
        match self {
            Message::Error(_) => 0x00,
            Message::Startup(_) => 0x01,
            Message::Ready => 0x02,
            Message::Authenticate(_) => 0x03,
            Message::Options => 0x05,
            Message::Supported(_) => 0x06,
            Message::Query(_) => 0x07,
            Message::Result(_) => 0x08,
            Message::Prepare => 0x09,
            Message::Execute => 0x0A,
            Message::Register => 0x0B,
            Message::Event => 0x0C,
            Message::Batch => 0x0D,
            Message::AuthChallenge(_) => 0x0E,
            Message::AuthResponse(_) => 0x0F,
            Message::AuthSuccess => 0x10,
        }
    }

    /// The message's body.
    pub fn serialize(&self) -> (r: Vec<u8>)
        requires
            message_fits(*self),
        ensures
            match *self {
                Message::Error(e) => r@.len() >= 4 && r@.subrange(0, 4) == be32(error_value(e) as u32),
                Message::Startup(o) => r@ == string_map_enc(string_pairs_view(o@)),
                Message::Supported(o) => r@ == string_multimap_enc(multi_view(o@)),
                Message::Query(q) => r@ == query_enc(q),
                Message::Result(b) => r@ == b@,
                Message::Authenticate(s) => r@ == string_enc(s@),
                Message::AuthChallenge(b) => r@ == b@,
                Message::AuthResponse(b) => r@ == b@,
                _ => r@.len() == 0,
            },
    {
        match self {
            Message::Error(e) => {
                let r = e.serialize();
                proof {
                    let m = choose|m: Seq<char>| r@ == be32(error_value(*e) as u32) + string_enc(m) && m.len() > 0;
                    assert(r@.subrange(0, 4) =~= be32(error_value(*e) as u32));
                }
                r
            },
            Message::Startup(o) => crate::startup_options::serialize_startup(o.as_slice()),
            Message::Supported(o) => {
                let mut pairs: Vec<(&str, Vec<&str>)> = Vec::new();
                let mut i: usize = 0;
                while i < o.len()
                    invariant
                        i <= o@.len(),
                        pairs@.len() == i,
                        forall|j: int| 0 <= j < i ==> (#[trigger] pairs@[j]).0@ == o@[j].0@
                            && crate::notation::strs_view(pairs@[j].1@) == crate::notation::strings_view(o@[j].1@),
                    decreases o@.len() - i,
                {
                    let mut vals: Vec<&str> = Vec::new();
                    let mut k: usize = 0;
                    while k < o[i].1.len()
                        invariant
                            i < o@.len(),
                            k <= o@[i as int].1@.len(),
                            vals@.len() == k,
                            forall|x: int| 0 <= x < k ==> (#[trigger] vals@[x])@ == o@[i as int].1@[x]@,
                        decreases o@[i as int].1@.len() - k,
                    {
                        vals.push(o[i].1[k].as_str());
                        k = k + 1;
                    }
                    assert(crate::notation::strs_view(vals@) =~= crate::notation::strings_view(o@[i as int].1@));
                    pairs.push((o[i].0.as_str(), vals));
                    i = i + 1;
                }
                assert(str_multi_view(pairs@) =~= multi_view(o@));
                let mut body: Vec<u8> = Vec::new();
                crate::notation::write_string_multimap(&mut body, pairs);
                body
            },
            Message::Query(q) => q.serialize(),
            Message::Result(b) => b.clone(),
            Message::Authenticate(s) => crate::authentication::serialize_authenticate(s.as_str()),
            Message::AuthChallenge(b) => b.clone(),
            Message::AuthResponse(b) => b.clone(),
            _ => Vec::new(),
        }
    }
}

/// A frame of the client protocol.
#[derive(Debug, Clone)]
pub struct Frame {
    pub version: Version,
    pub compression: bool,
    pub tracing: bool,
    pub stream: i16,
    pub body: Message,
}

/// The state of a client connection's handshake.
#[derive(Debug, Clone, Copy, PartialEq, Eq, Structural)]
pub enum ConnectionState {
    Uninitialized,
    UnAuthenticated,
    Authenticating,
    Ready,
}

/// The largest body a frame carries: 256 MB less the header.
pub const MAX_BODY: usize = 268435447;

/// The header of a frame whose body has `len` bytes.
pub open spec fn header(f: Frame, len: nat) -> Seq<u8> {
    seq![version_byte(f.version), ((if f.compression { 1u8 } else { 0u8 }) | (if f.tracing { 2u8 } else { 0u8 })) as u8]
        + be16(f.stream as u16) + seq![op_code(f.body)] + be32(len as u32)
}

impl Frame {
    /// An `ERROR` response on the given stream.
    pub fn new_error(code: ErrorCode, stream: i16) -> (r: Self)
        ensures
            r.version == Version::ResponseV3,
            r.stream == stream,
            r.body == Message::Error(code),
            !r.compression && !r.tracing,
    {
        Frame { version: Version::ResponseV3, compression: false, tracing: false, stream, body: Message::Error(code) }
    }

    pub open spec fn new_protocol_error_spec(stream: i16) -> Frame {
        Frame { version: Version::ResponseV3, compression: false, tracing: false, stream, body: Message::Error(ErrorCode::ProtocolError) }
    }

    /// A protocol error on the given stream.
    pub fn new_protocol_error(stream: i16) -> (r: Self)
        ensures
            r.version == Version::ResponseV3,
            r.stream == stream,
            r.body == Message::Error(ErrorCode::ProtocolError),
            !r.compression && !r.tracing,
    {
        Self::new_error(ErrorCode::ProtocolError, stream)
    }

    /// A server error on stream 0.
    pub fn new_server_error() -> (r: Self)
        ensures
            r.version == Version::ResponseV3,
            r.stream == 0,
            r.body == Message::Error(ErrorCode::ServerError),
    {
        Self::new_error(ErrorCode::ServerError, 0)
    }

    /// The frame's bytes: the header, then the body. A body past the 256 MB frame limit
    /// gives a protocol error on the same stream instead.
    pub fn serialize(&self) -> (r: Vec<u8>)
        requires
            message_fits(self.body),
        ensures
            (exists|body: Seq<u8>| r@ == header(*self, body.len()) + body && body.len() <= MAX_BODY)
                || (exists|body: Seq<u8>| r@ == header(Frame::new_protocol_error_spec(self.stream), body.len()) + body),
    {
        let body = self.body.serialize();
        if body.len() > MAX_BODY {
            let e = Frame::new_protocol_error(self.stream);
            let eb = ErrorCode::ProtocolError.serialize();
            let r = e.with_body(&eb);
            assert(r@ == header(Frame::new_protocol_error_spec(self.stream), eb@.len()) + eb@);
            return r;
        }
        let r = self.with_body(&body);
        assert(r@ == header(*self, body@.len()) + body@ && body@.len() <= MAX_BODY);
        r
    }

    fn with_body(&self, body: &Vec<u8>) -> (r: Vec<u8>)
        requires
            body@.len() <= u32::MAX,
        ensures
            r@ == header(*self, body@.len()) + body@,
    {
        let mut out: Vec<u8> = Vec::new();
        out.push(self.version.to_byte());
        let flags: u8 = ((if self.compression { 1u8 } else { 0u8 }) | (if self.tracing { 2u8 } else { 0u8 })) as u8;
        out.push(flags);
        write_short(&mut out, self.stream as u16);
        out.push(self.body.to_op_code());
        let len = body.len() as u32;
        let lb = [(len >> 24) as u8, (len >> 16) as u8, (len >> 8) as u8, len as u8];
        assert(lb@ =~= be32(len));
        push_all(&mut out, &lb);
        push_all(&mut out, body.as_slice());
        assert(out@ =~= header(*self, body@.len()) + body@);
        out
    }

    fn respond(&self, body: Message) -> (r: Self)
        ensures
            r.version == Version::ResponseV3,
            r.stream == self.stream,
            r.compression == self.compression,
            r.tracing == self.tracing,
            r.body == body,
    {
        Frame { version: Version::ResponseV3, compression: self.compression, tracing: self.tracing, stream: self.stream, body }
    }

    /// Answers a request on a connection that has not started: `STARTUP` with valid
    /// options moves it on and asks for `PLAIN` authentication, `OPTIONS` lists what is
    /// supported, anything else is a protocol error.
    pub fn handle_uninitialized(&self, connection_state: &mut ConnectionState) -> (r: Self)
        ensures
            r.stream == self.stream,
            r.version == Version::ResponseV3,
            match self.body {
                Message::Startup(o) => if options_valid(o@) {
                    *final(connection_state) == ConnectionState::UnAuthenticated && (r.body matches Message::Authenticate(s) && s@ == "PLAIN"@)
                } else {
                    *final(connection_state) == *old(connection_state) && r.body == Message::Error(ErrorCode::ProtocolError)
                },
                Message::Options => *final(connection_state) == *old(connection_state) && (r.body matches Message::Supported(v)
                    && v@.len() == 2 && v@[0].0@ == crate::startup_options::CQL_VERSION_KEY@ && v@[0].1@.len() == 1
                    && v@[0].1@[0]@ == crate::startup_options::CQL_VERSION_VALUE@ && v@[1].0@ == crate::startup_options::COMPRESSION_KEY@
                    && v@[1].1@.len() == 1 && v@[1].1@[0]@ == crate::startup_options::COMPRESSION_VALUE@),
                _ => *final(connection_state) == *old(connection_state) && r.body == Message::Error(ErrorCode::ProtocolError),
            },
    {
        let body = match &self.body {
            Message::Startup(selected) => {
                if !validate_options(selected) {
                    Message::Error(ErrorCode::ProtocolError)
                } else {
                    *connection_state = ConnectionState::UnAuthenticated;
                    Message::Authenticate("PLAIN".to_owned())
                }
            },
            Message::Options => Message::Supported(default_supported()),
            _ => Message::Error(ErrorCode::ProtocolError),
        };
        self.respond(body)
    }

    /// Answers an `AUTH_RESPONSE`: the first sends the Diffie-Hellman challenge, the
    /// second is accepted when its shared key matches the one computed here, which makes
    /// the connection ready; a mismatch resets it.
    pub fn handle_authentication(&self, connection_state: &mut ConnectionState, encryption_handler: &mut EncryptionHandler) -> (r: Self)
        requires
            old(encryption_handler).wf(),
        ensures
            final(encryption_handler).wf(),
            r.stream == self.stream,
            match self.body {
                Message::AuthResponse(bytes) => match *old(connection_state) {
                    ConnectionState::UnAuthenticated => *final(connection_state) == ConnectionState::Authenticating
                        && (r.body matches Message::AuthChallenge(c) && c@ == crate::notation::be64(old(encryption_handler).public_key)
                        + crate::notation::be64(old(encryption_handler).prime) + crate::notation::be64(old(encryption_handler).base))
                        && *final(encryption_handler) == *old(encryption_handler),
                    ConnectionState::Authenticating => if bytes@.len() < 16 {
                        *final(connection_state) == ConnectionState::Uninitialized && r.body == Message::Error(ErrorCode::BadCredentials)
                    } else if mod_pow(
                        crate::notation::decode64(bytes@.subrange(0, 8)),
                        old(encryption_handler).private_key as nat,
                        old(encryption_handler).prime,
                    ) == crate::notation::decode64(bytes@.subrange(8, 16)) as nat {
                        *final(connection_state) == ConnectionState::Ready && r.body is AuthSuccess
                    } else {
                        *final(connection_state) == ConnectionState::Uninitialized && r.body == Message::Error(ErrorCode::BadCredentials)
                    },
                    _ => *final(connection_state) == *old(connection_state) && r.body == Message::Error(ErrorCode::ServerError),
                },
                _ => *final(connection_state) == *old(connection_state) && r.body == Message::Error(ErrorCode::ProtocolError),
            },
    {
        let body = match &self.body {
            Message::AuthResponse(bytes) => match *connection_state {
                ConnectionState::UnAuthenticated => {
                    *connection_state = ConnectionState::Authenticating;
                    let (public_key, prime, base) = encryption_handler.get_dh_params();
                    let challenge = AuthChallenge::new(public_key, prime, base);
                    Message::AuthChallenge(challenge.serialize())
                },
                ConnectionState::Authenticating => {
                    if bytes.len() < 16 {
                        *connection_state = ConnectionState::Uninitialized;
                        Message::Error(ErrorCode::BadCredentials)
                    } else {
                        let response = AuthResponse::deserialize(bytes.as_slice());
                        if encryption_handler.attempt_initialize(response.public_key, response.shared_secret) {
                            *connection_state = ConnectionState::Ready;
                            Message::AuthSuccess
                        } else {
                            *connection_state = ConnectionState::Uninitialized;
                            Message::Error(ErrorCode::BadCredentials)
                        }
                    }
                },
                _ => Message::Error(ErrorCode::ServerError),
            },
            _ => Message::Error(ErrorCode::ProtocolError),
        };
        self.respond(body)
    }
}

/// What a frame header says: version, compression, tracing, stream, opcode and body length.
pub struct Header {
    pub version: Version,
    pub compression: bool,
    pub tracing: bool,
    pub stream: i16,
    pub opcode: u8,
    pub length: u32,
}

pub open spec fn header_of(b: Seq<u8>) -> Option<Header> {
    if b.len() < 9 || !(b[0] == 0x03 || b[0] == 0x83) {
        None
    } else {
        Some(Header {
            version: if b[0] == 0x03 { Version::RequestV3 } else { Version::ResponseV3 },
            compression: b[1] & 1 != 0,
            tracing: b[1] & 2 != 0,
            stream: crate::notation::decode16(b.subrange(2, 4)) as i16,
            opcode: b[4],
            length: crate::notation::decode32(b.subrange(5, 9)),
        })
    }
}

/// Reads the nine-byte header at the front of `bytes`; an unknown version is refused.
pub fn parse_header(bytes: &[u8]) -> (r: Option<Header>)
    ensures
        r == header_of(bytes@),
{
    if bytes.len() < 9 {
        return None;
    }
    let version = match Version::from_byte(bytes[0]) {
        Some(v) => v,
        None => return None,
    };
    let stream_bits: u16 = ((bytes[2] as u16) << 8) | (bytes[3] as u16);
    let length: u32 = ((bytes[5] as u32) << 24) | ((bytes[6] as u32) << 16) | ((bytes[7] as u32) << 8) | (bytes[8] as u32);
    proof {
        let b = bytes@;
        assert(b.subrange(2, 4)[0] == b[2] && b.subrange(2, 4)[1] == b[3]);
        assert(b.subrange(5, 9)[0] == b[5] && b.subrange(5, 9)[1] == b[6] && b.subrange(5, 9)[2] == b[7] && b.subrange(5, 9)[3] == b[8]);
    }
    Some(Header {
        version,
        compression: bytes[1] & 1 != 0,
        tracing: bytes[1] & 2 != 0,
        stream: stream_bits as i16,
        opcode: bytes[4],
        length,
    })
}

/// A frame's header reads back as the frame's version, flags, stream, opcode and length.
pub proof fn lemma_header_round_trip(f: Frame, len: nat, body: Seq<u8>)
    requires
        len <= u32::MAX,
    ensures
        header_of(header(f, len) + body) == Some(Header {
            version: f.version,
            compression: f.compression,
            tracing: f.tracing,
            stream: f.stream,
            opcode: op_code(f.body),
            length: len as u32,
        }),
{
    let b = header(f, len) + body;
    let c = f.compression;
    let t = f.tracing;
    let flags = ((if c { 1u8 } else { 0u8 }) | (if t { 2u8 } else { 0u8 })) as u8;
    assert(b[1] == flags);
    let one: u8 = if c { 1u8 } else { 0u8 };
    let two: u8 = if t { 2u8 } else { 0u8 };
    assert((one | two) & 1 != 0 <==> one == 1) by (bit_vector)
        requires
            one == 0 || one == 1,
            two == 0 || two == 2,
    ;
    assert((one | two) & 2 != 0 <==> two == 2) by (bit_vector)
        requires
            one == 0 || one == 1,
            two == 0 || two == 2,
    ;
    assert(b.subrange(2, 4) =~= be16(f.stream as u16));
    crate::notation::lemma_be16_round_trip(f.stream as u16);
    let s = f.stream;
    assert((s as u16) as i16 == s) by (bit_vector);
    assert(b.subrange(5, 9) =~= be32(len as u32));
    crate::notation::lemma_be32_round_trip(len as u32);
}

} // verus!
