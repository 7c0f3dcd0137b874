use minesweeper::protocol::{ClientMsg, CodecError, ServerMsg};
use minesweeper::zip;

fn all_client_msgs() -> Vec<ClientMsg> {
    vec![
        ClientMsg::Error(7),
        ClientMsg::SetVersion(2),
        ClientMsg::NewGame(10, 12, 30),
        ClientMsg::NewGame(255, 0, 65535),
        ClientMsg::Reveal(513),
        ClientMsg::GetTime(),
        ClientMsg::CloseGame(),
    ]
}

fn all_server_msgs() -> Vec<ServerMsg> {
    vec![
        ServerMsg::Error(100),
        ServerMsg::Accepted(),
        ServerMsg::RevealCells(vec![9, 0, 1, 9, 8]),
        ServerMsg::RevealCells(vec![]),
        ServerMsg::GameWin(vec![0; 300]),
        ServerMsg::GameLoss(vec![0, 3, 65535, 258]),
        ServerMsg::Time("12.034s".to_string()),
        ServerMsg::Time("héllo ✓ 🎉".to_string()),
        ServerMsg::Time(String::new()),
    ]
}

#[test]
fn client_messages_round_trip() {
    for m in all_client_msgs() {
        assert_eq!(ClientMsg::decode(&m.encode()), Some(m));
    }
}

#[test]
fn server_messages_round_trip() {
    for m in all_server_msgs() {
        assert_eq!(ServerMsg::decode(&m.encode()), Some(m));
    }
}

#[test]
fn client_layout_matches_bincode() {
    assert_eq!(ClientMsg::Error(7).encode(), bincode::serialize(&(0u32, 7u16)).unwrap());
    assert_eq!(ClientMsg::SetVersion(2).encode(), bincode::serialize(&(1u32, 2u16)).unwrap());
    assert_eq!(
        ClientMsg::NewGame(10, 12, 300).encode(),
        bincode::serialize(&(2u32, 10u8, 12u8, 300u16)).unwrap()
    );
    assert_eq!(ClientMsg::Reveal(513).encode(), bincode::serialize(&(3u32, 513u16)).unwrap());
    assert_eq!(ClientMsg::GetTime().encode(), bincode::serialize(&4u32).unwrap());
    assert_eq!(ClientMsg::CloseGame().encode(), bincode::serialize(&5u32).unwrap());
    assert_eq!(ClientMsg::Reveal(513).encode(), vec![3, 0, 0, 0, 1, 2]);
}

#[test]
fn server_layout_matches_bincode() {
    assert_eq!(ServerMsg::Error(100).encode(), bincode::serialize(&(0u32, 100u16)).unwrap());
    assert_eq!(ServerMsg::Accepted().encode(), bincode::serialize(&1u32).unwrap());
    assert_eq!(
        ServerMsg::RevealCells(vec![9, 1]).encode(),
        bincode::serialize(&(2u32, vec![9u8, 1u8])).unwrap()
    );
    assert_eq!(
        ServerMsg::GameWin(vec![0, 2, 9]).encode(),
        bincode::serialize(&(3u32, vec![0u8, 2u8, 9u8])).unwrap()
    );
    assert_eq!(
        ServerMsg::GameLoss(vec![1, 300]).encode(),
        bincode::serialize(&(4u32, vec![1u16, 300u16])).unwrap()
    );
    assert_eq!(
        ServerMsg::Time("1.5s é".to_string()).encode(),
        bincode::serialize(&(5u32, "1.5s é".to_string())).unwrap()
    );
}

#[test]
fn decoding_ignores_trailing_bytes() {
    let mut b = ClientMsg::NewGame(3, 4, 5).encode();
    b.extend_from_slice(&[0; 20]);
    assert_eq!(ClientMsg::decode(&b), Some(ClientMsg::NewGame(3, 4, 5)));
    let mut s = ServerMsg::GameLoss(vec![4, 5]).encode();
    s.extend_from_slice(&[7; 5]);
    assert_eq!(ServerMsg::decode(&s), Some(ServerMsg::GameLoss(vec![4, 5])));
}

#[test]
fn client_decoding_rejects_bad_input() {
    assert_eq!(ClientMsg::decode(&vec![]), None);
    assert_eq!(ClientMsg::decode(&vec![3, 0, 0]), None);
    assert_eq!(ClientMsg::decode(&vec![6, 0, 0, 0]), None);
    assert_eq!(ClientMsg::decode(&vec![0, 0, 0, 1, 0, 0]), None);
    assert_eq!(ClientMsg::decode(&vec![3, 0, 0, 0, 1]), None);
    assert_eq!(ClientMsg::decode(&vec![2, 0, 0, 0, 1, 2, 3]), None);
}

#[test]
fn server_decoding_rejects_bad_input() {
    assert_eq!(ServerMsg::decode(&vec![1, 0, 0]), None);
    assert_eq!(ServerMsg::decode(&vec![6, 0, 0, 0]), None);
    assert_eq!(ServerMsg::decode(&vec![0, 0, 0, 0, 1]), None);
    // A length that runs past the end of the bytes.
    assert_eq!(ServerMsg::decode(&vec![2, 0, 0, 0, 3, 0, 0, 0, 0, 0, 0, 0, 1, 2]), None);
    assert_eq!(ServerMsg::decode(&vec![4, 0, 0, 0, 2, 0, 0, 0, 0, 0, 0, 0, 1, 2, 3]), None);
    assert_eq!(ServerMsg::decode(&vec![2, 0, 0, 0, 255, 255, 255, 255, 255, 255, 255, 255]), None);
    // A string that is not UTF-8.
    assert_eq!(ServerMsg::decode(&vec![5, 0, 0, 0, 2, 0, 0, 0, 0, 0, 0, 0, 0xc3, 0x28]), None);
}

#[test]
fn compressed_messages_round_trip() {
    for m in all_client_msgs() {
        let bytes = m.to_bytes().unwrap();
        assert_ne!(bytes, m.encode());
        assert_eq!(ClientMsg::from_bytes(&bytes), Ok(m));
    }
    for m in all_server_msgs() {
        let bytes = m.to_bytes().unwrap();
        assert_ne!(bytes, m.encode());
        assert_eq!(ServerMsg::from_bytes(&bytes), Ok(m));
    }
}

#[test]
fn compressed_message_in_a_larger_buffer_decodes() {
    let mut buffer = ServerMsg::GameLoss(vec![1, 2, 3]).to_bytes().unwrap();
    buffer.resize(2048, 0);
    assert_eq!(ServerMsg::from_bytes(&buffer), Ok(ServerMsg::GameLoss(vec![1, 2, 3])));
}

#[test]
fn decompression_and_decoding_failures_are_distinct() {
    assert_eq!(ClientMsg::from_bytes(&vec![1, 2, 3, 4]), Err(CodecError::Decompress));
    assert_eq!(ServerMsg::from_bytes(&vec![0; 16]), Err(CodecError::Decompress));
    let not_a_message = zip::encode(&[9, 0, 0, 0]).unwrap();
    assert_eq!(ClientMsg::from_bytes(&not_a_message), Err(CodecError::Decode));
    assert_eq!(ServerMsg::from_bytes(&not_a_message), Err(CodecError::Decode));
}

#[test]
fn zip_round_trips_and_compresses() {
    let data: Vec<u8> = vec![9; 1000];
    let packed = zip::encode(&data).unwrap();
    assert!(packed.len() < data.len());
    assert_eq!(packed[0], 0x78);
    assert_eq!(zip::decode(&packed), Some(data));
    assert_eq!(zip::decode(&zip::encode(&[]).unwrap()), Some(vec![]));
    assert_eq!(zip::decode(&[0x78]), None);
}
