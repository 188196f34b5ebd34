use resp_kv::resp::{parse_frame, FrameResult};
use resp_kv::protocol::Command;

fn frame(input: &[u8]) -> (Vec<Vec<u8>>, usize) {
    match parse_frame(&input.to_vec()) {
        FrameResult::Frame(elems, used) => (elems, used),
        FrameResult::Incomplete => panic!("unexpectedly incomplete"),
        FrameResult::Malformed => panic!("unexpectedly malformed"),
    }
}

fn is_incomplete(input: &[u8]) -> bool {
    matches!(parse_frame(&input.to_vec()), FrameResult::Incomplete)
}

fn is_malformed(input: &[u8]) -> bool {
    matches!(parse_frame(&input.to_vec()), FrameResult::Malformed)
}

#[test]
fn parse_ping_frame() {
    let (elems, used) = frame(b"*1\r\n$4\r\nPING\r\n");
    assert_eq!(elems, vec![b"PING".to_vec()]);
    assert_eq!(used, 14);
}

#[test]
fn parse_set_frame() {
    let (elems, used) = frame(b"*3\r\n$3\r\nSET\r\n$1\r\nk\r\n$1\r\nv\r\n");
    assert_eq!(elems, vec![b"SET".to_vec(), b"k".to_vec(), b"v".to_vec()]);
    assert_eq!(used, 27);
}

#[test]
fn parse_leaves_trailing_bytes() {
    let (elems, used) = frame(b"*1\r\n$4\r\nPING\r\n*1\r\n$4");
    assert_eq!(elems, vec![b"PING".to_vec()]);
    assert_eq!(used, 14);
}

#[test]
fn parse_empty_bulk_string() {
    let (elems, _) = frame(b"*2\r\n$4\r\nECHO\r\n$0\r\n\r\n");
    assert_eq!(elems, vec![b"ECHO".to_vec(), b"".to_vec()]);
}

#[test]
fn parse_binary_payload_with_crlf_and_zero() {
    let (elems, used) = frame(b"*2\r\n$4\r\nECHO\r\n$5\r\na\r\nb\0\r\n");
    assert_eq!(elems, vec![b"ECHO".to_vec(), b"a\r\nb\0".to_vec()]);
    assert_eq!(used, 25);
}

#[test]
fn parse_incomplete_header() {
    assert!(is_incomplete(b""));
    assert!(is_incomplete(b"*2"));
    assert!(is_incomplete(b"*2\r"));
}

#[test]
fn parse_incomplete_elements() {
    assert!(is_incomplete(b"*2\r\n$4\r\nECHO\r\n"));
    assert!(is_incomplete(b"*1\r\n$4\r\nPI"));
    assert!(is_incomplete(b"*1\r\n$4\r\nPING"));
}

#[test]
fn parse_malformed_header() {
    assert!(is_malformed(b"+OK\r\n"));
    assert!(is_malformed(b"*\r\n"));
    assert!(is_malformed(b"*x\r\n"));
    assert!(is_malformed(b"*0\r\n"));
}

#[test]
fn parse_malformed_element_leader() {
    assert!(is_malformed(b"*1\r\n%4\r\nPING\r\n"));
    assert!(is_malformed(b"*1\r\n$\r\n"));
    assert!(is_malformed(b"*1\r\n$4x\r\nPING\r\n"));
}

#[test]
fn parse_malformed_length_mismatch() {
    // declared length 3, but four payload bytes before the terminator
    assert!(is_malformed(b"*1\r\n$3\r\nPING\r\n"));
}

#[test]
fn command_name_is_uppercased() {
    let (elems, _) = frame(b"*2\r\n$4\r\nping\r\n$2\r\nhi\r\n");
    let cmd = Command::from_elems(&elems);
    assert_eq!(cmd.name, b"PING".to_vec());
    assert_eq!(cmd.args, vec![b"hi".to_vec()]);
}

#[test]
fn command_args_keep_case_and_bytes() {
    let (elems, _) = frame(b"*3\r\n$3\r\nSeT\r\n$2\r\nKe\r\n$3\r\nV\ra\r\n");
    let cmd = Command::from_elems(&elems);
    assert_eq!(cmd.name, b"SET".to_vec());
    assert_eq!(cmd.args, vec![b"Ke".to_vec(), b"V\ra".to_vec()]);
}
