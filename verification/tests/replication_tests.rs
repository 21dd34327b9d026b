use miniredis::cli::{get_port_from_address, Role, CLI};
use miniredis::replica::{handshake_start, replica_on_bytes, HandshakeStage};
use miniredis::server::{default_replication_id, rdb_snapshot, ConnState, ServerState};
use miniredis::session::on_input;
use miniredis::store::TimedHashMap;

#[test]
fn handshake_messages_are_the_pinned_arrays() {
    let (_, ping) = handshake_start(6380);
    assert_eq!(ping, b"*1\r\n$4\r\nPING\r\n".to_vec());
}

#[test]
fn full_handshake_and_propagation() {
    // master M
    let mut m = ServerState::new(Role::Master("master".to_string()), default_replication_id());
    let mut m_conn = ConnState::new();
    // follower F: replication link plus its own store
    let (mut link, first) = handshake_start(6380);
    let mut f_store = TimedHashMap::new();

    let mut follower_sent = first.clone();

    // step 1: PING -> +PONG
    let (r1, _) = on_input(&mut m, &mut m_conn, &first, 0);
    assert_eq!(r1, b"+PONG\r\n".to_vec());
    let (s2, failed) = replica_on_bytes(&mut link, &mut f_store, &r1, 0);
    assert!(!failed);
    assert_eq!(
        s2,
        b"*3\r\n$8\r\nREPLCONF\r\n$14\r\nlistening-port\r\n$4\r\n6380\r\n".to_vec()
    );
    follower_sent.extend_from_slice(&s2);

    // step 2: REPLCONF listening-port -> +OK
    let (r2, _) = on_input(&mut m, &mut m_conn, &s2, 0);
    assert_eq!(r2, b"+OK\r\n".to_vec());
    let (s3, failed) = replica_on_bytes(&mut link, &mut f_store, &r2, 0);
    assert!(!failed);
    assert_eq!(s3, b"*3\r\n$8\r\nREPLCONF\r\n$4\r\ncapa\r\n$6\r\npsync2\r\n".to_vec());
    follower_sent.extend_from_slice(&s3);

    // step 3: REPLCONF capa -> +OK
    let (r3, _) = on_input(&mut m, &mut m_conn, &s3, 0);
    assert_eq!(r3, b"+OK\r\n".to_vec());
    let (s4, failed) = replica_on_bytes(&mut link, &mut f_store, &r3, 0);
    assert!(!failed);
    assert_eq!(s4, b"*3\r\n$5\r\nPSYNC\r\n$1\r\n?\r\n$2\r\n-1\r\n".to_vec());
    follower_sent.extend_from_slice(&s4);

    // the four messages, in order, are exactly what the follower sent
    let mut expected_sent = Vec::new();
    expected_sent.extend_from_slice(b"*1\r\n$4\r\nPING\r\n");
    expected_sent.extend_from_slice(b"*3\r\n$8\r\nREPLCONF\r\n$14\r\nlistening-port\r\n$4\r\n6380\r\n");
    expected_sent.extend_from_slice(b"*3\r\n$8\r\nREPLCONF\r\n$4\r\ncapa\r\n$6\r\npsync2\r\n");
    expected_sent.extend_from_slice(b"*3\r\n$5\r\nPSYNC\r\n$1\r\n?\r\n$2\r\n-1\r\n");
    assert_eq!(follower_sent, expected_sent);

    // step 4: PSYNC -> FULLRESYNC + inline snapshot
    let (r4, _) = on_input(&mut m, &mut m_conn, &s4, 0);
    let mut expected_r4 =
        b"+FULLRESYNC 8371b4fb1155b71f4a04d3e1bc3e18c4a990aeeb 0\r\n$88\r\n".to_vec();
    expected_r4.extend_from_slice(&rdb_snapshot());
    assert_eq!(r4, expected_r4);
    assert_eq!(m.followers.len(), 1);
    assert_eq!(m.followers[0].port, 6380);

    let (s5, failed) = replica_on_bytes(&mut link, &mut f_store, &r4, 0);
    assert!(!failed);
    assert_eq!(s5, Vec::<u8>::new());
    assert!(matches!(link.stage, HandshakeStage::Streaming));
    assert_eq!(
        link.master_replid,
        b"8371b4fb1155b71f4a04d3e1bc3e18c4a990aeeb".to_vec()
    );
    assert_eq!(link.master_offset, 0);

    // a client applies SET x 1 on the master
    let mut client = ConnState::new();
    let (ok, _) = on_input(&mut m, &mut client, b"*3\r\n$3\r\nSET\r\n$1\r\nx\r\n$1\r\n1\r\n", 0);
    assert_eq!(ok, b"+OK\r\n".to_vec());

    // the propagated frame reaches the follower's store, silently
    let stream = m.followers[0].stream.clone();
    assert_eq!(stream, b"*3\r\n$3\r\nSET\r\n$1\r\nx\r\n$1\r\n1\r\n".to_vec());
    let (s6, failed) = replica_on_bytes(&mut link, &mut f_store, &stream, 0);
    assert!(!failed);
    assert_eq!(s6, Vec::<u8>::new());

    // a client of the follower now reads the propagated value
    let mut f = ServerState::new(Role::Slave("slave".to_string()), default_replication_id());
    f.store = f_store;
    let mut f_conn = ConnState::new();
    let (got, _) = on_input(&mut f, &mut f_conn, b"*2\r\n$3\r\nGET\r\n$1\r\nx\r\n", 0);
    assert_eq!(got, b"$1\r\n1\r\n".to_vec());
}

#[test]
fn replication_stream_survives_arbitrary_splits() {
    let mut stream = Vec::new();
    stream.extend_from_slice(b"*3\r\n$3\r\nSET\r\n$1\r\na\r\n$1\r\n1\r\n");
    stream.extend_from_slice(b"*5\r\n$3\r\nSET\r\n$1\r\nb\r\n$1\r\n2\r\n$2\r\nPX\r\n$4\r\n5000\r\n");
    for cut in 0..=stream.len() {
        let (mut link, _) = handshake_start(6380);
        // jump straight to the streaming stage through a minimal handshake
        let mut store = TimedHashMap::new();
        drive_to_streaming(&mut link, &mut store);
        let (_, f1) = replica_on_bytes(&mut link, &mut store, &stream[..cut], 100);
        assert!(!f1);
        let (_, f2) = replica_on_bytes(&mut link, &mut store, &stream[cut..], 100);
        assert!(!f2);
        assert_eq!(store.get(&b"a".to_vec(), 100), Some(b"1".to_vec()), "cut {}", cut);
        assert_eq!(store.get(&b"b".to_vec(), 100), Some(b"2".to_vec()), "cut {}", cut);
        assert_eq!(store.get(&b"b".to_vec(), 6000), None);
    }
}

fn drive_to_streaming(link: &mut miniredis::replica::ReplicaLink, store: &mut TimedHashMap) {
    let (_, f) = replica_on_bytes(link, store, b"+PONG\r\n", 0);
    assert!(!f);
    let (_, f) = replica_on_bytes(link, store, b"+OK\r\n+OK\r\n", 0);
    assert!(!f);
    let mut sync = b"+FULLRESYNC 8371b4fb1155b71f4a04d3e1bc3e18c4a990aeeb 0\r\n$88\r\n".to_vec();
    sync.extend_from_slice(&rdb_snapshot());
    let (_, f) = replica_on_bytes(link, store, &sync, 0);
    assert!(!f);
    assert!(matches!(link.stage, HandshakeStage::Streaming));
}

#[test]
fn a_bad_handshake_reply_fails_the_link() {
    let (mut link, _) = handshake_start(6380);
    let mut store = TimedHashMap::new();
    let (send, failed) = replica_on_bytes(&mut link, &mut store, b"-ERR nope\r\n", 0);
    assert!(failed);
    assert_eq!(send, Vec::<u8>::new());
    assert!(matches!(link.stage, HandshakeStage::Failed));
}

#[test]
fn replicated_non_set_frames_are_ignored() {
    let (mut link, _) = handshake_start(6380);
    let mut store = TimedHashMap::new();
    drive_to_streaming(&mut link, &mut store);
    let (send, failed) = replica_on_bytes(&mut link, &mut store, b"*1\r\n$4\r\nPING\r\n", 0);
    assert!(!failed);
    assert_eq!(send, Vec::<u8>::new());
}

#[test]
fn cli_parses_port_and_replica_flags() {
    let args: Vec<String> = vec!["server", "--port", "6380"].iter().map(|s| s.to_string()).collect();
    let c = CLI::new(args);
    assert_eq!(c.port, "127.0.0.1:6380");
    assert!(matches!(c.role, Role::Master(_)));
    assert_eq!(c.master_server, "");

    let args2: Vec<String> = vec!["server", "--port", "6380", "--replicaof", "127.0.0.1", "6379"]
        .iter()
        .map(|s| s.to_string())
        .collect();
    let c2 = CLI::new(args2);
    assert_eq!(c2.port, "127.0.0.1:6380");
    assert!(matches!(c2.role, Role::Slave(_)));
    assert_eq!(c2.master_server, "127.0.0.1:6379");

    let bare: Vec<String> = vec!["server".to_string()];
    let c3 = CLI::new(bare);
    assert_eq!(c3.port, "127.0.0.1:6379");
    assert!(matches!(c3.role, Role::Master(_)));
}

#[test]
fn port_extraction_takes_the_suffix() {
    assert_eq!(
        get_port_from_address(&b"127.0.0.1:6379".to_vec()),
        Some(b"6379".to_vec())
    );
    assert_eq!(get_port_from_address(&b"localhost".to_vec()), None);
}
