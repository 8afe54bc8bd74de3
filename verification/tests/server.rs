use redis_rs::connection::Conn;
use redis_rs::server::serve_input;

fn conn_with(input: &[u8]) -> Conn {
    let mut c = Conn::new();
    c.incoming.extend_from_slice(input);
    c
}

#[test]
fn serve_answers_pipelined_commands_in_order() {
    let mut c = conn_with(b"*1\r\n$4\r\nPING\r\n*1\r\n$3\r\nGET\r\n*1\r\n$4\r\nping\r\n");
    assert!(serve_input(&mut c));
    assert!(c.incoming.is_empty());
    assert_eq!(c.outgoing, b"+PONG\r\n-ERR unknown command\r\n+PONG\r\n".to_vec());
    assert!(!c.want_close);
}

#[test]
fn serve_leaves_partial_command_in_input() {
    let mut c = conn_with(b"*1\r\n$4\r\nPI");
    assert!(serve_input(&mut c));
    assert_eq!(c.incoming, b"*1\r\n$4\r\nPI".to_vec());
    assert!(c.outgoing.is_empty());
    assert!(!c.want_close);
}

#[test]
fn serve_answers_complete_command_and_keeps_the_rest() {
    let mut c = conn_with(b"*1\r\n$4\r\nPING\r\n*1\r\n$4\r\nPI");
    assert!(serve_input(&mut c));
    assert_eq!(c.incoming, b"*1\r\n$4\r\nPI".to_vec());
    assert_eq!(c.outgoing, b"+PONG\r\n".to_vec());
}

#[test]
fn serve_marks_malformed_input_for_closing() {
    let mut c = conn_with(b"*1\r\n$4\r\nPING\r\n?bogus\r\n");
    assert!(serve_input(&mut c));
    assert_eq!(c.incoming, b"?bogus\r\n".to_vec());
    assert_eq!(c.outgoing, b"+PONG\r\n".to_vec());
    assert!(c.want_close);
}

#[test]
fn serve_appends_to_pending_replies() {
    let mut c = conn_with(b"*1\r\n$4\r\nPING\r\n");
    c.outgoing.extend_from_slice(b"+EARLIER\r\n");
    assert!(serve_input(&mut c));
    assert_eq!(c.outgoing, b"+EARLIER\r\n+PONG\r\n".to_vec());
}

#[test]
fn serve_refuses_negative_array_count() {
    let mut c = conn_with(b"*1\r\n$4\r\nPING\r\n*-1\r\n");
    assert!(!serve_input(&mut c));
    assert_eq!(c.incoming, b"*-1\r\n".to_vec());
    assert_eq!(c.outgoing, b"+PONG\r\n".to_vec());
}

#[test]
fn serve_on_empty_input_changes_nothing() {
    let mut c = Conn::new();
    assert!(serve_input(&mut c));
    assert!(c.incoming.is_empty());
    assert!(c.outgoing.is_empty());
    assert!(!c.want_close);
}
