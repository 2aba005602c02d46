use cassandra_node::authentication::{serialize_authenticate, AuthChallenge, AuthResponse};
use cassandra_node::error_code::ErrorCode;
use cassandra_node::frame::{ConnectionState, Frame, Message, Version};
use cassandra_node::security::EncryptionHandler;
use cassandra_node::startup_options::default_startup;

fn request(body: Message) -> Frame {
    Frame { version: Version::RequestV3, compression: false, tracing: false, stream: 7, body }
}

#[test]
fn challenge_and_response_round_trip() {
    let c = AuthChallenge::new(0x0102030405060708, 23, 5);
    let bytes = c.serialize();
    assert_eq!(bytes.len(), 24);
    assert_eq!(&bytes[0..8], &[1, 2, 3, 4, 5, 6, 7, 8]);
    assert_eq!(AuthChallenge::deserialize(&bytes), c);
    let r = AuthResponse::new(99, 4);
    assert_eq!(AuthResponse::deserialize(&r.serialize()), r);
    assert_eq!(serialize_authenticate("PLAIN"), vec![0, 5, b'P', b'L', b'A', b'I', b'N']);
}

#[test]
fn error_codes_and_bodies() {
    assert_eq!(ErrorCode::Invalid.value(), 0x2200);
    assert_eq!(ErrorCode::from_value(0x1000), Some(ErrorCode::UnavailableException));
    assert_eq!(ErrorCode::from_value(0x1234), None);
    let body = ErrorCode::ProtocolError.serialize();
    assert_eq!(&body[0..4], &[0, 0, 0, 0x0A]);
    assert_eq!(body.len(), 6 + ErrorCode::ProtocolError.message().len());
}

#[test]
fn frame_header_layout() {
    let f = Frame::new_protocol_error(3);
    let bytes = f.serialize();
    assert_eq!(bytes[0], 0x83);
    assert_eq!(&bytes[2..4], &[0, 3]);
    assert_eq!(bytes[4], 0x00);
    let len = u32::from_be_bytes([bytes[5], bytes[6], bytes[7], bytes[8]]) as usize;
    assert_eq!(bytes.len(), 9 + len);
    assert_eq!(Version::from_byte(0x03), Some(Version::RequestV3));
    assert_eq!(Version::from_byte(0x04), None);
}

#[test]
fn startup_then_full_handshake() {
    let mut state = ConnectionState::Uninitialized;
    let reply = request(Message::Startup(default_startup())).handle_uninitialized(&mut state);
    assert_eq!(state, ConnectionState::UnAuthenticated);
    assert!(matches!(reply.body, Message::Authenticate(ref s) if s == "PLAIN"));
    assert_eq!(reply.stream, 7);

    let mut server = EncryptionHandler::new(23, 5);
    let reply = request(Message::AuthResponse(vec![])).handle_authentication(&mut state, &mut server);
    assert_eq!(state, ConnectionState::Authenticating);
    let challenge = match reply.body {
        Message::AuthChallenge(bytes) => AuthChallenge::deserialize(&bytes),
        other => panic!("expected a challenge, got {:?}", other),
    };
    let (_client, client_public, shared) =
        EncryptionHandler::new_initialized(challenge.prime, challenge.base, challenge.public_key);
    let answer = AuthResponse::new(client_public, shared).serialize();
    let reply = request(Message::AuthResponse(answer)).handle_authentication(&mut state, &mut server);
    assert_eq!(state, ConnectionState::Ready);
    assert!(matches!(reply.body, Message::AuthSuccess));
}

#[test]
fn wrong_shared_key_resets() {
    let mut state = ConnectionState::Authenticating;
    let mut server = EncryptionHandler::new(23, 5);
    let answer = AuthResponse::new(1, 1_000_000).serialize();
    let reply = request(Message::AuthResponse(answer)).handle_authentication(&mut state, &mut server);
    assert_eq!(state, ConnectionState::Uninitialized);
    assert!(matches!(reply.body, Message::Error(ErrorCode::BadCredentials)));
}

#[test]
fn bad_startup_and_options() {
    let mut state = ConnectionState::Uninitialized;
    let bad = vec![("CQL_VERSION".to_string(), "2.0.0".to_string())];
    let reply = request(Message::Startup(bad)).handle_uninitialized(&mut state);
    assert_eq!(state, ConnectionState::Uninitialized);
    assert!(matches!(reply.body, Message::Error(ErrorCode::ProtocolError)));
    let reply = request(Message::Options).handle_uninitialized(&mut state);
    assert!(matches!(reply.body, Message::Supported(ref v) if v.len() == 2));
    let reply = request(Message::Ready).handle_uninitialized(&mut state);
    assert!(matches!(reply.body, Message::Error(ErrorCode::ProtocolError)));
    assert_eq!(Message::Options.to_op_code(), 0x05);
}

#[test]
fn header_reads_back() {
    let f = Frame { version: Version::RequestV3, compression: false, tracing: true, stream: -2, body: Message::Options };
    let bytes = f.serialize();
    let h = cassandra_node::frame::parse_header(&bytes).unwrap();
    assert_eq!(h.version, Version::RequestV3);
    assert!(!h.compression && h.tracing);
    assert_eq!(h.stream, -2);
    assert_eq!(h.opcode, 0x05);
    assert_eq!(h.length, 0);
    assert!(cassandra_node::frame::parse_header(&[0x04, 0, 0, 0, 0, 0, 0, 0, 0]).is_none());
}
