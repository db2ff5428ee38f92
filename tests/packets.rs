use raknet::binary::{read_var_u32, read_var_u64, write_var_u32};
use raknet::command::{CommandOriginType, CommandOutput, CommandOutputMessage, CommandOutputType};
use raknet::error::{Error, ErrorKind};
use raknet::interact::{Interact, InteractAction, Vector3Bits};
use raknet::packets::{
    CacheBlob, CacheMissResponse, ClientToServerHandshake, Header, NewIncomingConnection,
    ServerToClientHandshake,
};

#[test]
fn read_write_header() {
    let header = Header {
        id: 129,
        sender_subclient: 3,
        target_subclient: 2,
    };

    let mut buffer = Vec::new();
    header.serialize(&mut buffer);

    assert_eq!(Header::deserialize(&buffer).unwrap(), header);
}

#[test]
fn header_encoding_value() {
    let header = Header { id: 129, sender_subclient: 3, target_subclient: 2 };
    let mut buffer = Vec::new();
    header.serialize(&mut buffer);
    // 129 + 3 * 1024 + 2 * 4096 = 11393
    assert_eq!(buffer, vec![0x81, 0x59]);
    assert_eq!(Header::deserialize(&[]).unwrap_err().kind(), ErrorKind::Malformed);
}

#[test]
fn varint_round_trip_and_errors() {
    let mut buf = Vec::new();
    write_var_u32(&mut buf, 300);
    assert_eq!(buf, vec![0xac, 0x02]);
    assert_eq!(read_var_u32(&buf, 0).unwrap(), (300, 2));
    assert_eq!(read_var_u32(&[0x80], 0).unwrap_err().kind(), ErrorKind::Malformed);
    assert_eq!(read_var_u32(&[0xff, 0xff, 0xff, 0xff, 0x7f], 0).unwrap_err().kind(), ErrorKind::Malformed);
    assert_eq!(read_var_u32(&[0xff, 0xff, 0xff, 0xff, 0x0f], 0).unwrap(), (u32::MAX, 5));
    assert_eq!(read_var_u64(&[0x01], 0).unwrap(), (1, 1));
}

#[test]
fn new_incoming_connection_decode() {
    assert!(NewIncomingConnection::decode(&[0x13, 1, 2]).is_ok());
    assert_eq!(NewIncomingConnection::decode(&[0x14]).unwrap_err().kind(), ErrorKind::AssertionFailed);
    assert_eq!(NewIncomingConnection::decode(&[]).unwrap_err().kind(), ErrorKind::AssertionFailed);
}

#[test]
fn client_to_server_handshake_has_no_data() {
    assert!(ClientToServerHandshake::deserialize(&[1, 2, 3]).is_ok());
}

#[test]
fn server_to_client_handshake_serialize() {
    let hs = ServerToClientHandshake { jwt: "abc".to_owned() };
    let mut buf = Vec::new();
    hs.serialize(&mut buf);
    assert_eq!(buf, vec![3, b'a', b'b', b'c']);
    assert_eq!(hs.serialized_size(), 4);
}

#[test]
fn cache_miss_response_serialize() {
    let r = CacheMissResponse {
        blobs: vec![CacheBlob { hash: 300, payload: vec![9, 8] }],
    };
    let mut buf = Vec::new();
    r.serialize(&mut buf);
    assert_eq!(buf, vec![1, 0xac, 0x02, 2, 9, 8]);
    assert_eq!(r.blobs[0].len(), 5);
    assert_eq!(r.serialized_size(), 6);
}

#[test]
fn interact_deserialize() {
    let mut body = vec![4, 0x96, 0x01];
    body.extend_from_slice(&1.5f32.to_le_bytes());
    body.extend_from_slice(&(-2.0f32).to_le_bytes());
    body.extend_from_slice(&0.0f32.to_le_bytes());
    let it = Interact::deserialize(&body).unwrap();
    assert_eq!(it.action, InteractAction::MouseOverEntity);
    assert_eq!(it.target_runtime_id, 150);
    assert_eq!(f32::from_bits(it.position.x), 1.5);
    assert_eq!(f32::from_bits(it.position.y), -2.0);

    let it = Interact::deserialize(&[6, 7]).unwrap();
    assert_eq!(it.action, InteractAction::OpenInventory);
    assert_eq!(it.position, Vector3Bits { x: 0, y: 0, z: 0 });

    assert_eq!(Interact::deserialize(&[9, 1]).unwrap_err().kind(), ErrorKind::Malformed);
    assert_eq!(Interact::deserialize(&[3, 1, 0]).unwrap_err().kind(), ErrorKind::Malformed);
    assert_eq!(InteractAction::from_byte(5).unwrap(), InteractAction::NpcOpen);
}

#[test]
fn command_output_encode() {
    let out = CommandOutput {
        origin: CommandOriginType::Test,
        request_id: "r".to_owned(),
        output_type: CommandOutputType::AllOutput,
        success_count: 1,
        output: vec![CommandOutputMessage {
            is_success: true,
            message: "ok".to_owned(),
            parameters: vec!["p".to_owned()],
        }],
    };
    let bytes = out.encode().unwrap();
    let mut expected = vec![4];
    expected.extend_from_slice(&[0u8; 16]);
    expected.extend_from_slice(&[1, b'r', 0, 3, 1, 1, 1, 2, b'o', b'k', 1, 1, b'p']);
    assert_eq!(bytes, expected);

    let data_set = CommandOutput {
        origin: CommandOriginType::Player,
        request_id: String::new(),
        output_type: CommandOutputType::DataSet,
        success_count: 0,
        output: Vec::new(),
    };
    assert_eq!(data_set.encode().unwrap_err().kind(), ErrorKind::Unsupported);
}

#[test]
fn error_keeps_kind_and_message() {
    let e = Error::new(ErrorKind::Outdated, "old client".to_owned());
    assert_eq!(e.kind(), ErrorKind::Outdated);
    assert_eq!(e.message(), "old client".to_owned());
}
