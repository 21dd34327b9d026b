use miniredis::cli::Role;
use miniredis::codec::Frame;
use miniredis::decoder::{decode_frame, DecodeOutcome};
use miniredis::server::{
    default_replication_id, get_command_and_arguments, rdb_snapshot, ConnState, ServerState,
};
use miniredis::session::on_input;

fn master() -> ServerState {
    ServerState::new(Role::Master("master".to_string()), default_replication_id())
}

fn follower() -> ServerState {
    ServerState::new(Role::Slave("slave".to_string()), default_replication_id())
}

fn feed(srv: &mut ServerState, conn: &mut ConnState, bytes: &[u8], now: u64) -> (Vec<u8>, bool) {
    on_input(srv, conn, bytes, now)
}

#[test]
fn scenario_ping_master() {
    let mut srv = master();
    let mut conn = ConnState::new();
    let (out, close) = feed(&mut srv, &mut conn, b"*1\r\n$4\r\nPING\r\n", 0);
    assert_eq!(out, b"+PONG\r\n".to_vec());
    assert!(!close);
}

#[test]
fn ping_on_follower_replies_with_an_array() {
    let mut srv = follower();
    let mut conn = ConnState::new();
    let (out, close) = feed(&mut srv, &mut conn, b"*1\r\n$4\r\nPING\r\n", 0);
    assert_eq!(out, b"*1\r\n$4\r\nPONG\r\n".to_vec());
    assert!(!close);
}

#[test]
fn scenario_echo() {
    let mut srv = master();
    let mut conn = ConnState::new();
    let (out, close) = feed(&mut srv, &mut conn, b"*2\r\n$4\r\nECHO\r\n$5\r\nhello\r\n", 0);
    assert_eq!(out, b"$5\r\nhello\r\n".to_vec());
    assert!(!close);
}

#[test]
fn scenario_set_then_get() {
    let mut srv = master();
    let mut conn = ConnState::new();
    let (out1, _) = feed(&mut srv, &mut conn, b"*3\r\n$3\r\nSET\r\n$3\r\nfoo\r\n$3\r\nbar\r\n", 0);
    assert_eq!(out1, b"+OK\r\n".to_vec());
    let (out2, _) = feed(&mut srv, &mut conn, b"*2\r\n$3\r\nGET\r\n$3\r\nfoo\r\n", 0);
    assert_eq!(out2, b"$3\r\nbar\r\n".to_vec());
}

#[test]
fn scenario_ttl_expiry() {
    let mut srv = master();
    let mut conn = ConnState::new();
    let (out, _) = feed(
        &mut srv,
        &mut conn,
        b"*5\r\n$3\r\nSET\r\n$1\r\nk\r\n$1\r\nv\r\n$2\r\nPX\r\n$3\r\n100\r\n",
        1000,
    );
    assert_eq!(out, b"+OK\r\n".to_vec());
    let (within, _) = feed(&mut srv, &mut conn, b"*2\r\n$3\r\nGET\r\n$1\r\nk\r\n", 1050);
    assert_eq!(within, b"$1\r\nv\r\n".to_vec());
    let (after, _) = feed(&mut srv, &mut conn, b"*2\r\n$3\r\nGET\r\n$1\r\nk\r\n", 1200);
    assert_eq!(after, b"$-1\r\n".to_vec());
}

#[test]
fn scenario_info_on_master() {
    let mut srv = master();
    let mut conn = ConnState::new();
    let (out, _) = feed(&mut srv, &mut conn, b"*2\r\n$4\r\nINFO\r\n$11\r\nreplication\r\n", 0);
    let text = String::from_utf8(out.clone()).unwrap();
    assert!(text.starts_with('$'));
    assert!(text.contains("role:master"));
    assert!(text.contains("master_replid:8371b4fb1155b71f4a04d3e1bc3e18c4a990aeeb"));
    assert!(text.contains("master_repl_offset:0"));
}

#[test]
fn info_on_follower_reports_slave_role() {
    let mut srv = follower();
    let mut conn = ConnState::new();
    let (out, _) = feed(&mut srv, &mut conn, b"*1\r\n$4\r\nINFO\r\n", 0);
    assert_eq!(out, b"$10\r\nrole:slave\r\n".to_vec());
}

#[test]
fn command_names_are_case_insensitive() {
    let mut srv = master();
    let mut conn = ConnState::new();
    let (out, _) = feed(&mut srv, &mut conn, b"*3\r\n$3\r\nSeT\r\n$1\r\na\r\n$1\r\nb\r\n", 0);
    assert_eq!(out, b"+OK\r\n".to_vec());
    let (got, _) = feed(&mut srv, &mut conn, b"*2\r\n$3\r\ngEt\r\n$1\r\na\r\n", 0);
    assert_eq!(got, b"$1\r\nb\r\n".to_vec());
}

#[test]
fn px_modifier_is_case_insensitive() {
    let mut srv = master();
    let mut conn = ConnState::new();
    let (out, _) = feed(
        &mut srv,
        &mut conn,
        b"*5\r\n$3\r\nSET\r\n$1\r\nk\r\n$1\r\nv\r\n$2\r\npx\r\n$2\r\n50\r\n",
        0,
    );
    assert_eq!(out, b"+OK\r\n".to_vec());
    let (gone, _) = feed(&mut srv, &mut conn, b"*2\r\n$3\r\nGET\r\n$1\r\nk\r\n", 60);
    assert_eq!(gone, b"$-1\r\n".to_vec());
}

#[test]
fn unknown_command_keeps_the_connection() {
    let mut srv = master();
    let mut conn = ConnState::new();
    let (out, close) = feed(&mut srv, &mut conn, b"*1\r\n$5\r\nHELLO\r\n", 0);
    assert_eq!(out, b"-ERR unknown command\r\n".to_vec());
    assert!(!close);
    let (out2, _) = feed(&mut srv, &mut conn, b"*1\r\n$4\r\nPING\r\n", 0);
    assert_eq!(out2, b"+PONG\r\n".to_vec());
}

#[test]
fn arity_errors_keep_the_connection() {
    let mut srv = master();
    let mut conn = ConnState::new();
    let (e1, c1) = feed(&mut srv, &mut conn, b"*1\r\n$4\r\nECHO\r\n", 0);
    assert_eq!(e1, b"-ERR wrong number of arguments\r\n".to_vec());
    assert!(!c1);
    let (e2, _) = feed(&mut srv, &mut conn, b"*1\r\n$3\r\nGET\r\n", 0);
    assert_eq!(e2, b"-ERR wrong number of arguments\r\n".to_vec());
    let (e3, _) = feed(&mut srv, &mut conn, b"*2\r\n$3\r\nSET\r\n$1\r\nk\r\n", 0);
    assert_eq!(e3, b"-ERR wrong number of arguments\r\n".to_vec());
}

#[test]
fn set_with_bad_modifier_is_a_syntax_error() {
    let mut srv = master();
    let mut conn = ConnState::new();
    let (out, _) = feed(
        &mut srv,
        &mut conn,
        b"*5\r\n$3\r\nSET\r\n$1\r\nk\r\n$1\r\nv\r\n$2\r\nEX\r\n$3\r\n100\r\n",
        0,
    );
    assert_eq!(out, b"-ERR syntax error\r\n".to_vec());
    let (out2, _) = feed(
        &mut srv,
        &mut conn,
        b"*5\r\n$3\r\nSET\r\n$1\r\nk\r\n$1\r\nv\r\n$2\r\nPX\r\n$3\r\nabc\r\n",
        0,
    );
    assert_eq!(out2, b"-ERR syntax error\r\n".to_vec());
}

#[test]
fn protocol_error_closes_the_connection() {
    let mut srv = master();
    let mut conn = ConnState::new();
    let (out, close) = feed(&mut srv, &mut conn, b"HELLO\r\n", 0);
    assert_eq!(out, Vec::<u8>::new());
    assert!(close);
}

#[test]
fn pipelined_commands_are_answered_in_order() {
    let mut srv = master();
    let mut conn = ConnState::new();
    let mut bytes = Vec::new();
    bytes.extend_from_slice(b"*1\r\n$4\r\nPING\r\n");
    bytes.extend_from_slice(b"*2\r\n$4\r\nECHO\r\n$2\r\nhi\r\n");
    let (out, close) = feed(&mut srv, &mut conn, &bytes, 0);
    assert_eq!(out, b"+PONG\r\n$2\r\nhi\r\n".to_vec());
    assert!(!close);
}

#[test]
fn split_command_across_reads_is_buffered() {
    let mut srv = master();
    let mut conn = ConnState::new();
    let whole = b"*3\r\n$3\r\nSET\r\n$3\r\nfoo\r\n$3\r\nbar\r\n";
    for cut in 1..whole.len() - 1 {
        let mut srv2 = master();
        let mut conn2 = ConnState::new();
        let (first, c1) = feed(&mut srv2, &mut conn2, &whole[..cut], 0);
        assert_eq!(first, Vec::<u8>::new());
        assert!(!c1);
        let (second, c2) = feed(&mut srv2, &mut conn2, &whole[cut..], 0);
        assert_eq!(second, b"+OK\r\n".to_vec());
        assert!(!c2);
    }
    let (out, _) = feed(&mut srv, &mut conn, whole, 0);
    assert_eq!(out, b"+OK\r\n".to_vec());
}

#[test]
fn replconf_and_psync_register_a_follower() {
    let mut srv = master();
    let mut conn = ConnState::new();
    let (o1, _) = feed(
        &mut srv,
        &mut conn,
        b"*3\r\n$8\r\nREPLCONF\r\n$14\r\nlistening-port\r\n$4\r\n6380\r\n",
        0,
    );
    assert_eq!(o1, b"+OK\r\n".to_vec());
    let (o2, _) = feed(&mut srv, &mut conn, b"*3\r\n$8\r\nREPLCONF\r\n$4\r\ncapa\r\n$6\r\npsync2\r\n", 0);
    assert_eq!(o2, b"+OK\r\n".to_vec());
    let (o3, _) = feed(&mut srv, &mut conn, b"*3\r\n$5\r\nPSYNC\r\n$1\r\n?\r\n$2\r\n-1\r\n", 0);
    let mut expected = b"+FULLRESYNC 8371b4fb1155b71f4a04d3e1bc3e18c4a990aeeb 0\r\n$88\r\n".to_vec();
    expected.extend_from_slice(&rdb_snapshot());
    assert_eq!(o3, expected);
    assert_eq!(srv.followers.len(), 1);
    assert_eq!(srv.followers[0].port, 6380);
    assert_eq!(conn.follower_idx, Some(0));
}

#[test]
fn replconf_on_follower_is_unknown() {
    let mut srv = follower();
    let mut conn = ConnState::new();
    let (out, _) = feed(
        &mut srv,
        &mut conn,
        b"*3\r\n$8\r\nREPLCONF\r\n$14\r\nlistening-port\r\n$4\r\n6380\r\n",
        0,
    );
    assert_eq!(out, b"-ERR unknown command\r\n".to_vec());
    let (out2, _) = feed(&mut srv, &mut conn, b"*3\r\n$5\r\nPSYNC\r\n$1\r\n?\r\n$2\r\n-1\r\n", 0);
    assert_eq!(out2, b"-ERR unknown command\r\n".to_vec());
}

#[test]
fn follower_set_is_local_only() {
    let mut srv = follower();
    let mut conn = ConnState::new();
    let (out, _) = feed(&mut srv, &mut conn, b"*3\r\n$3\r\nSET\r\n$1\r\nx\r\n$1\r\n1\r\n", 0);
    assert_eq!(out, b"+OK\r\n".to_vec());
    assert_eq!(srv.followers.len(), 0);
    assert_eq!(srv.offset, 0);
    let (got, _) = feed(&mut srv, &mut conn, b"*2\r\n$3\r\nGET\r\n$1\r\nx\r\n", 0);
    assert_eq!(got, b"$1\r\n1\r\n".to_vec());
}

#[test]
fn command_extraction_lowercases_the_name() {
    let f = Frame::Array(vec![b"EcHo".to_vec(), b"payload".to_vec()]);
    let (name, args) = get_command_and_arguments(&f).unwrap();
    assert_eq!(name, b"echo".to_vec());
    assert_eq!(args, vec![b"payload".to_vec()]);
    let empty = Frame::Array(Vec::new());
    assert!(get_command_and_arguments(&empty).is_none());
    let not_array = Frame::Integer(3);
    assert!(get_command_and_arguments(&not_array).is_none());
}

#[test]
fn propagation_appends_in_apply_order() {
    let mut srv = master();
    let mut repl_conn = ConnState::new();
    feed(&mut srv, &mut repl_conn, b"*3\r\n$5\r\nPSYNC\r\n$1\r\n?\r\n$2\r\n-1\r\n", 0);
    let mut client = ConnState::new();
    let (o1, _) = feed(&mut srv, &mut client, b"*3\r\n$3\r\nSET\r\n$1\r\na\r\n$1\r\n1\r\n", 0);
    assert_eq!(o1, b"+OK\r\n".to_vec());
    let (o2, _) = feed(&mut srv, &mut client, b"*3\r\n$3\r\nSET\r\n$1\r\nb\r\n$1\r\n2\r\n", 0);
    assert_eq!(o2, b"+OK\r\n".to_vec());
    let mut expected = Vec::new();
    expected.extend_from_slice(b"*3\r\n$3\r\nSET\r\n$1\r\na\r\n$1\r\n1\r\n");
    expected.extend_from_slice(b"*3\r\n$3\r\nSET\r\n$1\r\nb\r\n$1\r\n2\r\n");
    assert_eq!(srv.followers[0].stream, expected);
    assert_eq!(srv.offset as usize, expected.len());
    // GET does not propagate
    feed(&mut srv, &mut client, b"*2\r\n$3\r\nGET\r\n$1\r\na\r\n", 0);
    assert_eq!(srv.followers[0].stream, expected);
}

#[test]
fn decode_frame_reports_whole_commands_only() {
    let v = b"*2\r\n$4\r\nECHO\r\n$5\r\nhel".to_vec();
    assert!(matches!(decode_frame(&v, 0), DecodeOutcome::Incomplete));
}

#[test]
fn empty_array_is_an_unknown_command() {
    let mut srv = master();
    let mut conn = ConnState::new();
    let (out, close) = feed(&mut srv, &mut conn, b"*0\r\n", 0);
    assert_eq!(out, b"-ERR unknown command\r\n".to_vec());
    assert!(!close);
}

#[test]
fn oversized_bulk_length_waits_for_more_bytes() {
    let v = b"$99999999999999999999\r\nabc".to_vec();
    assert!(matches!(decode_frame(&v, 0), DecodeOutcome::Incomplete));
}

#[test]
fn an_evicted_follower_gets_no_more_propagation() {
    let mut srv = master();
    let mut repl_a = ConnState::new();
    feed(&mut srv, &mut repl_a, b"*3\r\n$5\r\nPSYNC\r\n$1\r\n?\r\n$2\r\n-1\r\n", 0);
    let mut repl_b = ConnState::new();
    feed(&mut srv, &mut repl_b, b"*3\r\n$5\r\nPSYNC\r\n$1\r\n?\r\n$2\r\n-1\r\n", 0);
    assert_eq!(srv.followers.len(), 2);
    let mut client = ConnState::new();
    feed(&mut srv, &mut client, b"*3\r\n$3\r\nSET\r\n$1\r\na\r\n$1\r\n1\r\n", 0);
    srv.evict_follower(0);
    feed(&mut srv, &mut client, b"*3\r\n$3\r\nSET\r\n$1\r\nb\r\n$1\r\n2\r\n", 0);
    let first = b"*3\r\n$3\r\nSET\r\n$1\r\na\r\n$1\r\n1\r\n".to_vec();
    let mut both = first.clone();
    both.extend_from_slice(b"*3\r\n$3\r\nSET\r\n$1\r\nb\r\n$1\r\n2\r\n");
    assert_eq!(srv.followers[0].stream, first);
    assert!(!srv.followers[0].live);
    assert_eq!(srv.followers[1].stream, both);
    assert!(srv.followers[1].live);
}
