use redis_rs::connection::{Conn, Interest, IoStep, ReadEvent, WriteEvent};

#[test]
fn new_connection_waits_for_input_only() {
    let c = Conn::new();
    assert!(!c.want_close);
    assert!(c.incoming.is_empty());
    assert!(c.outgoing.is_empty());
    assert_eq!(c.current_interest, Interest::readable());
    assert_eq!(c.desired_interest(), Interest::readable());
}

#[test]
fn pending_replies_add_writable_interest() {
    let mut c = Conn::new();
    c.outgoing.extend_from_slice(b"+PONG\r\n");
    let want = c.desired_interest();
    assert!(want.readable);
    assert!(want.writable);
    assert_eq!(want, Interest::readable().add(Interest::writable()));
}

#[test]
fn interest_add_combines_both_kinds() {
    let both = Interest::readable().add(Interest::writable());
    assert_eq!(both, Interest { readable: true, writable: true });
    assert_eq!(Interest::readable().add(Interest::readable()), Interest::readable());
}

#[test]
fn received_bytes_are_queued() {
    let mut c = Conn::new();
    assert_eq!(c.on_readable(ReadEvent::Data(b"*1\r\n")), IoStep::Continue);
    assert_eq!(c.on_readable(ReadEvent::Data(b"$4\r\n")), IoStep::Continue);
    assert_eq!(c.incoming, b"*1\r\n$4\r\n".to_vec());
    assert!(!c.want_close);
}

#[test]
fn peer_close_with_nothing_to_send_closes() {
    let mut c = Conn::new();
    assert_eq!(c.on_readable(ReadEvent::Eof), IoStep::Stop);
    assert!(c.want_close);
}

#[test]
fn peer_close_with_replies_pending_keeps_open() {
    let mut c = Conn::new();
    c.outgoing.extend_from_slice(b"+PONG\r\n");
    assert_eq!(c.on_readable(ReadEvent::Eof), IoStep::Stop);
    assert!(!c.want_close);
}

#[test]
fn read_interruptions_and_errors() {
    let mut c = Conn::new();
    assert_eq!(c.on_readable(ReadEvent::Interrupted), IoStep::Continue);
    assert_eq!(c.on_readable(ReadEvent::WouldBlock), IoStep::Stop);
    assert_eq!(c.on_readable(ReadEvent::Failed), IoStep::Stop);
    assert!(c.incoming.is_empty());
    assert!(!c.want_close);
}

#[test]
fn written_bytes_leave_the_outgoing_buffer() {
    let mut c = Conn::new();
    c.outgoing.extend_from_slice(b"+PONG\r\n");
    assert_eq!(c.on_writable(WriteEvent::Wrote(3)), IoStep::Continue);
    assert_eq!(c.outgoing, b"NG\r\n".to_vec());
    assert_eq!(c.on_writable(WriteEvent::Wrote(4)), IoStep::Continue);
    assert!(c.outgoing.is_empty());
    assert_eq!(c.on_writable(WriteEvent::Wrote(0)), IoStep::Stop);
}

#[test]
fn write_interruptions_and_errors() {
    let mut c = Conn::new();
    c.outgoing.extend_from_slice(b"+OK\r\n");
    assert_eq!(c.on_writable(WriteEvent::Interrupted), IoStep::Continue);
    assert_eq!(c.on_writable(WriteEvent::WouldBlock), IoStep::Stop);
    assert_eq!(c.on_writable(WriteEvent::Failed), IoStep::Stop);
    assert_eq!(c.outgoing, b"+OK\r\n".to_vec());
}

#[test]
fn refresh_interest_reports_changes() {
    let mut c = Conn::new();
    assert!(!c.refresh_interest());
    c.outgoing.extend_from_slice(b"+OK\r\n");
    assert!(c.refresh_interest());
    assert_eq!(c.current_interest, Interest { readable: true, writable: true });
    assert!(!c.refresh_interest());
    assert_eq!(c.on_writable(WriteEvent::Wrote(5)), IoStep::Continue);
    assert!(c.refresh_interest());
    assert_eq!(c.current_interest, Interest::readable());
}
