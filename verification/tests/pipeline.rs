use resp_kv::kv_store::KvStore;
use resp_kv::protocol::{Command, Response, ServerInfo, ServerRole};
use resp_kv::resp::{parse_frame, FrameResult};

fn server_info() -> ServerInfo {
    ServerInfo::new(vec![b'a'; 40], 6379, ServerRole::Master)
}

/// Decodes every complete frame of `wire` and processes each as one turn,
/// returning the concatenated replies, flushed at each reply boundary.
fn feed(resp: &mut Response, store: &mut KvStore, info: &ServerInfo, now: u64, wire: &[u8]) -> Vec<u8> {
    let mut input = wire.to_vec();
    let mut out = Vec::new();
    loop {
        match parse_frame(&input) {
            FrameResult::Frame(elems, used) => {
                input.drain(..used);
                let cmd = Command::from_elems(&elems);
                resp.process_command(&cmd, store, info, now);
                out.extend_from_slice(&resp.take_output());
            },
            FrameResult::Incomplete => break,
            FrameResult::Malformed => panic!("malformed frame in test input"),
        }
    }
    out
}

#[test]
fn ping_answers_pong() {
    let info = server_info();
    let mut resp = Response::new();
    let mut store = KvStore::new();
    let out = feed(&mut resp, &mut store, &info, 0, b"*1\r\n$4\r\nPING\r\n");
    assert_eq!(out, b"+PONG\r\n".to_vec());
}

#[test]
fn set_then_get_round_trip() {
    let info = server_info();
    let mut resp = Response::new();
    let mut store = KvStore::new();
    let out = feed(&mut resp, &mut store, &info, 0, b"*3\r\n$3\r\nSET\r\n$1\r\nk\r\n$1\r\nv\r\n");
    assert_eq!(out, b"+OK\r\n".to_vec());
    let out = feed(&mut resp, &mut store, &info, 0, b"*2\r\n$3\r\nGET\r\n$1\r\nk\r\n");
    assert_eq!(out, b"$1\r\nv\r\n".to_vec());
}

#[test]
fn set_with_px_expires() {
    let info = server_info();
    let mut resp = Response::new();
    let mut store = KvStore::new();
    let out = feed(
        &mut resp,
        &mut store,
        &info,
        0,
        b"*5\r\n$3\r\nSET\r\n$1\r\nk\r\n$1\r\nv\r\n$2\r\nPX\r\n$3\r\n100\r\n",
    );
    assert_eq!(out, b"+OK\r\n".to_vec());
    let get = b"*2\r\n$3\r\nGET\r\n$1\r\nk\r\n";
    assert_eq!(feed(&mut resp, &mut store, &info, 50, get), b"$1\r\nv\r\n".to_vec());
    assert_eq!(feed(&mut resp, &mut store, &info, 100, get), b"$1\r\nv\r\n".to_vec());
    assert_eq!(feed(&mut resp, &mut store, &info, 151, get), b"$-1\r\n".to_vec());
}

#[test]
fn px_option_is_case_insensitive() {
    let info = server_info();
    let mut resp = Response::new();
    let mut store = KvStore::new();
    let out = feed(
        &mut resp,
        &mut store,
        &info,
        0,
        b"*5\r\n$3\r\nSET\r\n$1\r\nk\r\n$1\r\nv\r\n$2\r\npx\r\n$2\r\n10\r\n",
    );
    assert_eq!(out, b"+OK\r\n".to_vec());
    let get = b"*2\r\n$3\r\nGET\r\n$1\r\nk\r\n";
    assert_eq!(feed(&mut resp, &mut store, &info, 11, get), b"$-1\r\n".to_vec());
}

#[test]
fn incr_counts_and_rejects_non_integers() {
    let info = server_info();
    let mut resp = Response::new();
    let mut store = KvStore::new();
    let incr = b"*2\r\n$4\r\nINCR\r\n$1\r\nn\r\n";
    assert_eq!(feed(&mut resp, &mut store, &info, 0, incr), b":1\r\n".to_vec());
    assert_eq!(feed(&mut resp, &mut store, &info, 0, incr), b":2\r\n".to_vec());
    let set = b"*3\r\n$3\r\nSET\r\n$1\r\nn\r\n$3\r\nabc\r\n";
    assert_eq!(feed(&mut resp, &mut store, &info, 0, set), b"+OK\r\n".to_vec());
    assert_eq!(
        feed(&mut resp, &mut store, &info, 0, incr),
        b"-ERR value is not an integer or out of range\r\n".to_vec()
    );
    let get = b"*2\r\n$3\r\nGET\r\n$1\r\nn\r\n";
    assert_eq!(feed(&mut resp, &mut store, &info, 0, get), b"$3\r\nabc\r\n".to_vec());
}

#[test]
fn incr_overflow_is_an_error() {
    let info = server_info();
    let mut resp = Response::new();
    let mut store = KvStore::new();
    let set = b"*3\r\n$3\r\nSET\r\n$1\r\nn\r\n$19\r\n9223372036854775807\r\n";
    assert_eq!(feed(&mut resp, &mut store, &info, 0, set), b"+OK\r\n".to_vec());
    let incr = b"*2\r\n$4\r\nINCR\r\n$1\r\nn\r\n";
    assert_eq!(
        feed(&mut resp, &mut store, &info, 0, incr),
        b"-ERR value is not an integer or out of range\r\n".to_vec()
    );
    let get = b"*2\r\n$3\r\nGET\r\n$1\r\nn\r\n";
    assert_eq!(
        feed(&mut resp, &mut store, &info, 0, get),
        b"$19\r\n9223372036854775807\r\n".to_vec()
    );
}

#[test]
fn incr_preserves_expiry() {
    let info = server_info();
    let mut resp = Response::new();
    let mut store = KvStore::new();
    let set = b"*5\r\n$3\r\nSET\r\n$1\r\nn\r\n$1\r\n5\r\n$2\r\nPX\r\n$3\r\n100\r\n";
    assert_eq!(feed(&mut resp, &mut store, &info, 0, set), b"+OK\r\n".to_vec());
    let incr = b"*2\r\n$4\r\nINCR\r\n$1\r\nn\r\n";
    assert_eq!(feed(&mut resp, &mut store, &info, 10, incr), b":6\r\n".to_vec());
    let get = b"*2\r\n$3\r\nGET\r\n$1\r\nn\r\n";
    assert_eq!(feed(&mut resp, &mut store, &info, 50, get), b"$1\r\n6\r\n".to_vec());
    assert_eq!(feed(&mut resp, &mut store, &info, 101, get), b"$-1\r\n".to_vec());
}

#[test]
fn transaction_replays_in_order() {
    let info = server_info();
    let mut resp = Response::new();
    let mut store = KvStore::new();
    let wire = b"*1\r\n$5\r\nMULTI\r\n\
                 *3\r\n$3\r\nSET\r\n$1\r\nx\r\n$1\r\n1\r\n\
                 *2\r\n$4\r\nINCR\r\n$1\r\nx\r\n\
                 *1\r\n$4\r\nEXEC\r\n";
    let out = feed(&mut resp, &mut store, &info, 0, wire);
    assert_eq!(out, b"+OK\r\n+QUEUED\r\n+QUEUED\r\n*2\r\n+OK\r\n:2\r\n".to_vec());
    let get = b"*2\r\n$3\r\nGET\r\n$1\r\nx\r\n";
    assert_eq!(feed(&mut resp, &mut store, &info, 0, get), b"$1\r\n2\r\n".to_vec());
}

#[test]
fn empty_transaction_replies_empty_array() {
    let info = server_info();
    let mut resp = Response::new();
    let mut store = KvStore::new();
    let wire = b"*1\r\n$5\r\nMULTI\r\n*1\r\n$4\r\nEXEC\r\n";
    assert_eq!(feed(&mut resp, &mut store, &info, 0, wire), b"+OK\r\n*0\r\n".to_vec());
}

#[test]
fn discard_drops_queued_commands() {
    let info = server_info();
    let mut resp = Response::new();
    let mut store = KvStore::new();
    let wire = b"*1\r\n$5\r\nMULTI\r\n\
                 *3\r\n$3\r\nSET\r\n$1\r\nx\r\n$1\r\n9\r\n\
                 *1\r\n$7\r\nDISCARD\r\n\
                 *2\r\n$3\r\nGET\r\n$1\r\nx\r\n";
    let out = feed(&mut resp, &mut store, &info, 0, wire);
    assert_eq!(out, b"+OK\r\n+QUEUED\r\n+OK\r\n$-1\r\n".to_vec());
}

#[test]
fn nested_multi_is_refused_and_queue_kept() {
    let info = server_info();
    let mut resp = Response::new();
    let mut store = KvStore::new();
    let wire = b"*1\r\n$5\r\nMULTI\r\n\
                 *3\r\n$3\r\nSET\r\n$1\r\nx\r\n$1\r\n7\r\n\
                 *1\r\n$5\r\nMULTI\r\n\
                 *1\r\n$4\r\nEXEC\r\n";
    let out = feed(&mut resp, &mut store, &info, 0, wire);
    assert_eq!(
        out,
        b"+OK\r\n+QUEUED\r\n-ERR MULTI calls can not be nested\r\n*1\r\n+OK\r\n".to_vec()
    );
    let get = b"*2\r\n$3\r\nGET\r\n$1\r\nx\r\n";
    assert_eq!(feed(&mut resp, &mut store, &info, 0, get), b"$1\r\n7\r\n".to_vec());
}

#[test]
fn exec_and_discard_outside_multi_are_errors() {
    let info = server_info();
    let mut resp = Response::new();
    let mut store = KvStore::new();
    assert_eq!(
        feed(&mut resp, &mut store, &info, 0, b"*1\r\n$4\r\nEXEC\r\n"),
        b"-ERR EXEC without MULTI\r\n".to_vec()
    );
    assert_eq!(
        feed(&mut resp, &mut store, &info, 0, b"*1\r\n$7\r\nDISCARD\r\n"),
        b"-ERR DISCARD without MULTI\r\n".to_vec()
    );
}

#[test]
fn command_handshake_answers_empty_array() {
    let info = server_info();
    let mut resp = Response::new();
    let mut store = KvStore::new();
    assert_eq!(
        feed(&mut resp, &mut store, &info, 0, b"*1\r\n$7\r\nCOMMAND\r\n"),
        b"*0\r\n".to_vec()
    );
}

#[test]
fn echo_returns_argument_bytes() {
    let info = server_info();
    let mut resp = Response::new();
    let mut store = KvStore::new();
    assert_eq!(
        feed(&mut resp, &mut store, &info, 0, b"*2\r\n$4\r\nECHO\r\n$5\r\na\r\nb\0\r\n"),
        b"$5\r\na\r\nb\0\r\n".to_vec()
    );
    assert_eq!(
        feed(&mut resp, &mut store, &info, 0, b"*1\r\n$4\r\nECHO\r\n"),
        b"-ERR wrong number of arguments for 'echo' command\r\n".to_vec()
    );
}

#[test]
fn set_argument_errors() {
    let info = server_info();
    let mut resp = Response::new();
    let mut store = KvStore::new();
    assert_eq!(
        feed(&mut resp, &mut store, &info, 0, b"*2\r\n$3\r\nSET\r\n$1\r\nk\r\n"),
        b"-ERR wrong number of arguments for 'set' command\r\n".to_vec()
    );
    assert_eq!(
        feed(&mut resp, &mut store, &info, 0, b"*4\r\n$3\r\nSET\r\n$1\r\nk\r\n$1\r\nv\r\n$2\r\nEX\r\n"),
        b"-ERR unknown option for 'set' command\r\n".to_vec()
    );
    assert_eq!(
        feed(&mut resp, &mut store, &info, 0, b"*4\r\n$3\r\nSET\r\n$1\r\nk\r\n$1\r\nv\r\n$2\r\nPX\r\n"),
        b"-ERR invalid expire time\r\n".to_vec()
    );
    assert_eq!(
        feed(
            &mut resp,
            &mut store,
            &info,
            0,
            b"*5\r\n$3\r\nSET\r\n$1\r\nk\r\n$1\r\nv\r\n$2\r\nPX\r\n$3\r\nabc\r\n"
        ),
        b"-ERR invalid expire time\r\n".to_vec()
    );
}

#[test]
fn get_and_incr_argument_errors() {
    let info = server_info();
    let mut resp = Response::new();
    let mut store = KvStore::new();
    assert_eq!(
        feed(&mut resp, &mut store, &info, 0, b"*1\r\n$3\r\nGET\r\n"),
        b"-ERR wrong number of arguments for 'get' command\r\n".to_vec()
    );
    assert_eq!(
        feed(&mut resp, &mut store, &info, 0, b"*1\r\n$4\r\nINCR\r\n"),
        b"-ERR wrong number of arguments for 'incr' command\r\n".to_vec()
    );
}

#[test]
fn unknown_command_is_an_error() {
    let info = server_info();
    let mut resp = Response::new();
    let mut store = KvStore::new();
    assert_eq!(
        feed(&mut resp, &mut store, &info, 0, b"*1\r\n$5\r\nHELLO\r\n"),
        b"-ERR unknown command\r\n".to_vec()
    );
}

#[test]
fn info_replication_reports_role_offset_and_id() {
    let id: String = "a".repeat(40);
    let info = ServerInfo::new(id.clone().into_bytes(), 6379, ServerRole::Master);
    let mut resp = Response::new();
    let mut store = KvStore::new();
    let body = format!(
        "# Replication\r\nrole:master\r\nmaster_repl_offset:0\r\nmaster_replid:{}",
        id
    );
    let expected = format!("${}\r\n{}\r\n", body.len(), body).into_bytes();
    assert_eq!(
        feed(&mut resp, &mut store, &info, 0, b"*2\r\n$4\r\nINFO\r\n$11\r\nreplication\r\n"),
        expected
    );
}

#[test]
fn info_slave_role_and_section_handling() {
    let id: String = "b".repeat(40);
    let info = ServerInfo::new(id.clone().into_bytes(), 7000, ServerRole::Slave);
    let mut resp = Response::new();
    let mut store = KvStore::new();
    let body = format!(
        "# Replication\r\nrole:slave\r\nmaster_repl_offset:0\r\nmaster_replid:{}",
        id
    );
    let expected = format!("${}\r\n{}\r\n", body.len(), body).into_bytes();
    assert_eq!(
        feed(&mut resp, &mut store, &info, 0, b"*2\r\n$4\r\nINFO\r\n$11\r\nREPLICATION\r\n"),
        expected
    );
    assert_eq!(
        feed(&mut resp, &mut store, &info, 0, b"*2\r\n$4\r\nINFO\r\n$6\r\nmemory\r\n"),
        b"-ERR unsupported INFO section\r\n".to_vec()
    );
    assert_eq!(
        feed(&mut resp, &mut store, &info, 0, b"*1\r\n$4\r\nINFO\r\n"),
        b"-ERR wrong number of arguments for 'info' command\r\n".to_vec()
    );
}
