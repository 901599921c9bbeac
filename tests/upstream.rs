use tcp_router_first::connector::{Connector, ConnectorAction, ReadOutcome};

fn is_lost(a: &ConnectorAction) -> bool {
    matches!(a, ConnectorAction::ReportLost)
}

#[test]
fn data_without_delimiter_keeps_reading() {
    let mut c = Connector::new();
    let a = c.on_read(ReadOutcome::Data(b"abc".to_vec()));
    assert!(matches!(a, ConnectorAction::KeepReading));
    assert!(!c.finished());
}

#[test]
fn completed_frame_is_delivered() {
    let mut c = Connector::new();
    c.on_read(ReadOutcome::Data(b"hel".to_vec()));
    match c.on_read(ReadOutcome::Data(b"lo\r\x00".to_vec())) {
        ConnectorAction::Deliver(m) => assert_eq!(m, b"hello\r".to_vec()),
        _ => panic!("expected a message"),
    }
    assert!(!c.finished());
}

#[test]
fn end_of_stream_reports_loss_once() {
    let mut c = Connector::new();
    c.on_read(ReadOutcome::Data(b"abc".to_vec()));
    assert!(is_lost(&c.on_read(ReadOutcome::Data(Vec::new()))));
    assert!(c.finished());
}

#[test]
fn read_error_reports_loss() {
    let mut c = Connector::new();
    assert!(is_lost(&c.on_read(ReadOutcome::Failed)));
    assert!(c.finished());
}

#[test]
fn connect_failure_reports_loss() {
    let mut c = Connector::new();
    assert!(is_lost(&c.on_connect_failed()));
    assert!(c.finished());
}

#[test]
fn session_reports_exactly_one_loss() {
    let reads = vec![
        ReadOutcome::Data(b"a\n".to_vec()),
        ReadOutcome::Data(b"bc".to_vec()),
        ReadOutcome::Data(b"d\r".to_vec()),
        ReadOutcome::Failed,
    ];
    let mut c = Connector::new();
    let mut lost = 0;
    let mut delivered = Vec::new();
    for r in reads {
        if c.finished() {
            break;
        }
        match c.on_read(r) {
            ConnectorAction::ReportLost => lost += 1,
            ConnectorAction::Deliver(m) => delivered.push(m),
            ConnectorAction::KeepReading => {}
        }
    }
    assert_eq!(lost, 1);
    assert_eq!(delivered, vec![b"a\n".to_vec(), b"bcd\r".to_vec()]);
}
