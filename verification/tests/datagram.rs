use dtls_records::datagram::{ClientDtlsSocket, DtlsSocket, IoAction, IoEvent, ServerDtlsSocket};
use dtls_records::vecbuf::ChunkVecBuffer;

#[test]
fn anti_replay() {
    // We should maintain a sliding window of seen TLS record sequence
    // numbers, per epoch(?). Replayed sequence numbers should be rejected.
    // Replayed sequence numbers outside the replay window will get through.
    // <https://datatracker.ietf.org/doc/html/rfc9147#section-4.5.1>
    //
    // I guess send some traffic, copy a record out of client send buffer,
    // then send it again
}

#[test]
fn queue_hands_out_bytes_in_order() {
    let mut queue = ChunkVecBuffer::new();
    assert!(queue.is_empty());
    assert_eq!(queue.append(b"hello".to_vec()), 5);
    assert_eq!(queue.append(Vec::new()), 0);
    assert_eq!(queue.append(b"world".to_vec()), 5);
    assert!(!queue.is_empty());

    let mut buf = [0; 7];
    assert_eq!(queue.write_to(&mut buf), 7);
    assert_eq!(&buf, b"hellowo");
    assert_eq!(queue.write_to(&mut buf), 3);
    assert_eq!(&buf, b"rldlowo");
    assert!(queue.is_empty());
    assert_eq!(queue.write_to(&mut buf), 0);
}

#[test]
fn datagrams_are_processed_before_sending() {
    let mut socket: DtlsSocket<(), ()> = DtlsSocket::new((), ());
    socket.buffered_plaintext.append(b"waiting".to_vec());

    let event: IoEvent<&str> = IoEvent::Started;
    assert!(matches!(socket.pending_io(event, false), IoAction::Receive));
    let event: IoEvent<&str> = IoEvent::Received(Ok(20));
    assert!(matches!(socket.pending_io(event, false), IoAction::Process(20)));
    let event: IoEvent<&str> = IoEvent::Processed(Ok(Some(b"first".to_vec())));
    assert!(matches!(socket.pending_io(event, true), IoAction::Receive));
    let event: IoEvent<&str> = IoEvent::Processed(Ok(None));
    assert!(matches!(socket.pending_io(event, true), IoAction::Receive));
    let event: IoEvent<&str> = IoEvent::Processed(Ok(Some(b"second".to_vec())));
    assert!(matches!(socket.pending_io(event, true), IoAction::Receive));

    // the handshake decides whether plaintext may be sent
    let event: IoEvent<&str> = IoEvent::Received(Ok(0));
    assert!(matches!(socket.pending_io(event, false), IoAction::Send));
    let event: IoEvent<&str> = IoEvent::Received(Ok(0));
    assert!(matches!(socket.pending_io(event, true), IoAction::Seal));
    let event: IoEvent<&str> = IoEvent::Sealed;
    assert!(matches!(socket.pending_io(event, true), IoAction::Send));
    let event: IoEvent<&str> = IoEvent::Sent(Ok(()));
    assert!(matches!(socket.pending_io(event, true), IoAction::Finish(Ok(()))));

    let mut buf = [0; 20];
    let io: Result<(), &str> = Ok(());
    assert_eq!(socket.recv(io, &mut buf), Ok(11));
    assert_eq!(&buf[..11], b"firstsecond");
    assert_eq!(socket.recv(io, &mut buf), Ok(0));
}

#[test]
fn failures_end_it() {
    let mut socket: DtlsSocket<(), ()> = DtlsSocket::new((), ());
    let events: [IoEvent<&str>; 3] = [
        IoEvent::Received(Err("no")),
        IoEvent::Processed(Err("no")),
        IoEvent::Sent(Err("no")),
    ];
    for event in events {
        assert!(matches!(
            socket.pending_io(event, true),
            IoAction::Finish(Err("no"))
        ));
    }
    let mut buf = [3; 2];
    assert_eq!(socket.recv(Err("no"), &mut buf), Err("no"));
    assert_eq!(buf, [3; 2]);
    assert_eq!(socket.send(5, Err("no")), Err("no"));
    let io: Result<(), &str> = Ok(());
    assert_eq!(socket.send(5, io), Ok(5));
}

#[test]
fn sockets_need_a_connection() {
    let core: Result<u8, &str> = Ok(5);
    let socket = ServerDtlsSocket::new(core, "transport").unwrap();
    assert_eq!(socket.inner.core, 5);
    assert_eq!(socket.inner.inner, "transport");
    assert_eq!(socket.inner.epoch, 0);
    let core: Result<u8, &str> = Err("no");
    assert!(ServerDtlsSocket::new(core, "transport").is_err());
    assert!(ClientDtlsSocket::new(core, "transport").is_err());
    let core: Result<u8, &str> = Ok(6);
    assert_eq!(ClientDtlsSocket::new(core, "t").unwrap().inner.sequence.0, 0);
}
