//! Implements parts of Datagram TLS (DTLS), specified in [RFC 6347][1] (DTLS
//! 1.2) and [RFC 9147][2] (DTLS 1.3).
//!
//! The transport and the connection do their work outside of this library. What is
//! here decides what they do next, and keeps the plaintext between them.
//!
//! [1]: https://datatracker.ietf.org/doc/html/rfc6347
//! [2]: https://datatracker.ietf.org/doc/html/rfc9147

use vstd::prelude::*;

use crate::msgs::codec::U48;
use crate::vecbuf::ChunkVecBuffer;

verus! {

/// What has just happened to a socket, or what came of what it was told to do.
pub enum IoEvent<E> {
    /// Pending I/O is about to be done.
    Started,
    /// A datagram of the given length was received. There is none if it is zero.
    Received(Result<usize, E>),
    /// A datagram was processed, which may have given plaintext.
    Processed(Result<Option<Vec<u8>>, E>),
    /// The buffered plaintext was encrypted and queued for sending.
    Sealed,
    /// Everything that was queued for sending was sent.
    Sent(Result<(), E>),
}

/// What a socket has to do next.
pub enum IoAction<E> {
    /// Receive a datagram.
    Receive,
    /// Process the datagram, which has the given length.
    Process(usize),
    /// Encrypt the buffered plaintext and queue it for sending.
    Seal,
    /// Send what is queued.
    Send,
    /// Stop: pending I/O is done, or something has failed.
    Finish(Result<(), E>),
}

/// What to do next.
///
/// Datagrams are received and processed until there are no more. Then plaintext
/// that has waited for the handshake is encrypted if the handshake is done, and what
/// is queued is sent. The first failure ends it all.
pub open spec fn next_action<E>(
    event: IoEvent<E>,
    may_send_application_data: bool,
    plaintext_is_buffered: bool,
) -> IoAction<E> {
    match event {
        IoEvent::Started => IoAction::Receive,
        IoEvent::Received(Ok(len)) => if len > 0 {
            IoAction::Process(len)
        } else if may_send_application_data && plaintext_is_buffered {
            IoAction::Seal
        } else {
            IoAction::Send
        },
        IoEvent::Received(Err(e)) => IoAction::Finish(Err(e)),
        IoEvent::Processed(Ok(_)) => IoAction::Receive,
        IoEvent::Processed(Err(e)) => IoAction::Finish(Err(e)),
        IoEvent::Sealed => IoAction::Send,
        IoEvent::Sent(result) => IoAction::Finish(result),
    }
}

/// The plaintext that an event brings.
pub open spec fn event_plaintext<E>(event: IoEvent<E>) -> Seq<u8> {
    match event {
        IoEvent::Processed(Ok(Some(payload))) => payload@,
        _ => Seq::empty(),
    }
}

/// The plaintext that a number of events bring.
pub open spec fn events_plaintext<E>(events: Seq<IoEvent<E>>) -> Seq<u8>
    decreases events.len(),
{
    if events.len() == 0 {
        Seq::empty()
    } else {
        events_plaintext(events.drop_last()) + event_plaintext(events.last())
    }
}

/// Plaintext can be read in the order in which it came in: where `received[i]` is
/// the unread plaintext before event `i`, all the plaintext that the events brought
/// is in the end behind what was there before.
pub proof fn law_plaintext_is_received_in_order<E>(
    events: Seq<IoEvent<E>>,
    received: Seq<Seq<u8>>,
)
    requires
        received.len() == events.len() + 1,
        forall|i: int|
            0 <= i < events.len() ==> received[i + 1] == received[i] + #[trigger] event_plaintext(
                events[i],
            ),
    ensures
        received.last() == received.first() + events_plaintext(events),
    decreases events.len(),
{
    if events.len() > 0 {
        let n = events.len() - 1;
        let fewer = events.drop_last();
        let earlier = received.drop_last();
        assert forall|i: int| 0 <= i < fewer.len() implies earlier[i + 1] == earlier[i]
            + #[trigger] event_plaintext(fewer[i]) by {
            assert(received[i + 1] == received[i] + event_plaintext(events[i]));
        }
        law_plaintext_is_received_in_order(fewer, earlier);
        assert(received[n + 1] == received[n] + event_plaintext(events[n]));
        assert(received.last() =~= received.first() + events_plaintext(events));
    } else {
        assert(received.last() =~= received.first() + events_plaintext(events));
    }
}

/// Plaintext waits for the handshake to complete: as long as application data may
/// not be sent, none is encrypted.
pub proof fn law_plaintext_waits_for_handshake<E>(event: IoEvent<E>, plaintext_is_buffered: bool)
    ensures
        next_action(event, false, plaintext_is_buffered) !is Seal,
{
}

/// I/O that has not failed ends only after sending: it is done if and only if everything
/// that was queued was sent. It fails only with what has just failed.
pub proof fn law_io_ends_after_sending<E>(
    event: IoEvent<E>,
    may_send_application_data: bool,
    plaintext_is_buffered: bool,
)
    ensures
        next_action(event, may_send_application_data, plaintext_is_buffered) == IoAction::Finish(
            Ok::<(), E>(()),
        ) <==> event == IoEvent::Sent(Ok::<(), E>(())),
        next_action(
            event,
            may_send_application_data,
            plaintext_is_buffered,
        ) matches IoAction::Finish(Err(e)) ==> event == IoEvent::Received(Err::<usize, E>(e))
            || event == IoEvent::Processed(Err::<Option<Vec<u8>>, E>(e)) || event == IoEvent::Sent(
            Err::<(), E>(e),
        ),
{
}

/// When there are no more datagrams, what is queued is sent, whether or not plaintext is
/// buffered. Plaintext is encrypted before, if there is any and application data may be
/// sent, and then sent too.
pub proof fn law_what_is_queued_is_sent<E>(
    may_send_application_data: bool,
    plaintext_is_buffered: bool,
)
    ensures
        ({
            let no_more = IoEvent::Received(Ok::<usize, E>(0));
            let next = next_action(no_more, may_send_application_data, plaintext_is_buffered);
            &&& next is Send || next is Seal
            &&& next is Seal <==> may_send_application_data && plaintext_is_buffered
        }),
        forall|may_send: bool, is_buffered: bool| #[trigger]
            next_action(IoEvent::<E>::Sealed, may_send, is_buffered) is Send,
{
}

/// Every datagram is processed, and datagrams are received until there are no more.
/// Nothing is processed that was not received.
pub proof fn law_datagrams_are_processed<E>(
    event: IoEvent<E>,
    len: usize,
    may_send_application_data: bool,
    plaintext_is_buffered: bool,
)
    ensures
        ({
            let next = next_action(event, may_send_application_data, plaintext_is_buffered);
            &&& next == IoAction::<E>::Process(len) <==> len > 0 && event == IoEvent::Received(
                Ok::<usize, E>(len),
            )
            &&& next is Receive <==> event is Started || (event matches IoEvent::Processed(Ok(_)))
        }),
{
}

/// Plaintext comes from processed datagrams alone, and all of it.
pub proof fn law_plaintext_of_event<E>(event: IoEvent<E>)
    ensures
        event matches IoEvent::Processed(Ok(Some(payload))) ==> event_plaintext(event) == payload@,
        event_plaintext(event).len() > 0 ==> (event matches IoEvent::Processed(Ok(Some(_)))),
{
}

/// A failure is reported at once.
pub proof fn law_failure_ends_io<E>(
    event: IoEvent<E>,
    e: E,
    may_send_application_data: bool,
    plaintext_is_buffered: bool,
)
    requires
        event == IoEvent::Received(Err::<usize, E>(e)) || event == IoEvent::Processed(
            Err::<Option<Vec<u8>>, E>(e),
        ) || event == IoEvent::Sent(Err::<(), E>(e)),
    ensures
        next_action(event, may_send_application_data, plaintext_is_buffered) == IoAction::Finish(
            Err::<(), E>(e),
        ),
{
}

/// A socket-like transport with the state of a connection over it.
pub struct DtlsSocket<SocketLike, Core> {
    /// Current epoch.
    pub epoch: u16,
    /// Current sequence number.
    pub sequence: U48,
    /// Inner socket on which messages will be received and sent.
    pub inner: SocketLike,
    /// Connection internals
    pub core: Core,
    /// Buffered plaintext waiting for handshakes to complete.
    pub buffered_plaintext: ChunkVecBuffer,
    /// Plaintext received and decrypted but not yet read.
    pub received_plaintext: ChunkVecBuffer,
}

impl<SocketLike, Core> DtlsSocket<SocketLike, Core> {
    /// A socket over which nothing has been sent or received.
    pub fn new(inner: SocketLike, core: Core) -> (r: Self)
        ensures
            r.epoch == 0,
            r.sequence == U48(0),
            r.inner == inner,
            r.core == core,
            r.buffered_plaintext@ == Seq::<u8>::empty(),
            r.received_plaintext@ == Seq::<u8>::empty(),
    {
        DtlsSocket {
            epoch: 0,
            sequence: U48(0),
            inner,
            core,
            buffered_plaintext: ChunkVecBuffer::new(),
            received_plaintext: ChunkVecBuffer::new(),
        }
    }

    /// Takes in what has happened and says what to do next.
    pub fn pending_io<E>(&mut self, event: IoEvent<E>, may_send_application_data: bool) -> (r:
        IoAction<E>)
        ensures
            r == next_action(
                event,
                may_send_application_data,
                old(self).buffered_plaintext@.len() > 0,
            ),
            r == IoAction::Finish(Ok::<(), E>(())) <==> event == IoEvent::Sent(Ok::<(), E>(())),
            event == IoEvent::Received(Ok::<usize, E>(0)) ==> if may_send_application_data && old(
                self).buffered_plaintext@.len() > 0 {
                r is Seal
            } else {
                r is Send
            },
            event is Sealed ==> r is Send,
            final(self).received_plaintext@ == old(self).received_plaintext@ + event_plaintext(
                event,
            ),
            final(self).buffered_plaintext@ == old(self).buffered_plaintext@,
            final(self).epoch == old(self).epoch,
            final(self).sequence == old(self).sequence,
            final(self).inner == old(self).inner,
            final(self).core == old(self).core,
    {
        assert(self.received_plaintext@ + Seq::<u8>::empty() =~= self.received_plaintext@);
        match event {
            IoEvent::Started => IoAction::Receive,
            IoEvent::Received(Ok(len)) => {
                if len > 0 {
                    IoAction::Process(len)
                } else if may_send_application_data && !self.buffered_plaintext.is_empty() {
                    IoAction::Seal
                } else {
                    IoAction::Send
                }
            },
            IoEvent::Received(Err(e)) => IoAction::Finish(Err(e)),
            IoEvent::Processed(Ok(Some(payload))) => {
                let _ = self.received_plaintext.append(payload);
                IoAction::Receive
            },
            IoEvent::Processed(Ok(None)) => IoAction::Receive,
            IoEvent::Processed(Err(e)) => IoAction::Finish(Err(e)),
            IoEvent::Sealed => IoAction::Send,
            IoEvent::Sent(result) => IoAction::Finish(result),
        }
    }

    /// Hands out plaintext that was received, as much as there is room for, once
    /// pending I/O was done. Its length is returned, unless I/O has failed.
    pub fn recv<E>(&mut self, io: Result<(), E>, bytes: &mut [u8]) -> (r: Result<usize, E>)
        ensures
            match io {
                Err(e) => r == Err::<usize, E>(e) && final(bytes)@ == old(bytes)@ && final(
                    self).received_plaintext@ == old(self).received_plaintext@,
                Ok(()) => {
                    let n = if old(self).received_plaintext@.len() < old(bytes)@.len() {
                        old(self).received_plaintext@.len()
                    } else {
                        old(bytes)@.len()
                    } as int;
                    &&& r == Ok::<usize, E>(n as usize)
                    &&& final(bytes)@ == old(self).received_plaintext@.take(n)
                        + old(bytes)@.skip(n)
                    &&& final(self).received_plaintext@ == old(self).received_plaintext@.skip(n)
                },
            },
            final(self).buffered_plaintext@ == old(self).buffered_plaintext@,
            final(self).epoch == old(self).epoch,
            final(self).sequence == old(self).sequence,
            final(self).inner == old(self).inner,
            final(self).core == old(self).core,
    {
        match io {
            Err(e) => Err(e),
            Ok(()) => Ok(self.received_plaintext.write_to(bytes)),
        }
    }

    /// Reports how much was sent, unless I/O has failed.
    pub fn send<E>(&self, sent: usize, io: Result<(), E>) -> (r: Result<usize, E>)
        ensures
            r == match io {
                Ok(()) => Ok::<usize, E>(sent),
                Err(e) => Err(e),
            },
    {
        match io {
            Ok(()) => Ok(sent),
            Err(e) => Err(e),
        }
    }
}

/// The client's end of a connection.
pub struct ClientDtlsSocket<SocketLike, Core> {
    pub inner: DtlsSocket<SocketLike, Core>,
}

impl<SocketLike, Core> ClientDtlsSocket<SocketLike, Core> {
    /// A socket over `inner`, unless the connection could not be set up.
    pub fn new<E>(connection_core: Result<Core, E>, inner: SocketLike) -> (r: Result<Self, E>)
        ensures
            match connection_core {
                Err(e) => r == Err::<Self, E>(e),
                Ok(core) => {
                    &&& r matches Ok(socket)
                    &&& socket.inner.epoch == 0
                    &&& socket.inner.sequence == U48(0)
                    &&& socket.inner.inner == inner
                    &&& socket.inner.core == core
                    &&& socket.inner.buffered_plaintext@ == Seq::<u8>::empty()
                    &&& socket.inner.received_plaintext@ == Seq::<u8>::empty()
                },
            },
    {
        match connection_core {
            Err(e) => Err(e),
            Ok(core) => Ok(ClientDtlsSocket { inner: DtlsSocket::new(inner, core) }),
        }
    }
}

/// The server's end of a connection.
pub struct ServerDtlsSocket<SocketLike, Core> {
    pub inner: DtlsSocket<SocketLike, Core>,
}

impl<SocketLike, Core> ServerDtlsSocket<SocketLike, Core> {
    /// A socket over `inner`, unless the connection could not be set up.
    pub fn new<E>(connection_core: Result<Core, E>, inner: SocketLike) -> (r: Result<Self, E>)
        ensures
            match connection_core {
                Err(e) => r == Err::<Self, E>(e),
                Ok(core) => {
                    &&& r matches Ok(socket)
                    &&& socket.inner.epoch == 0
                    &&& socket.inner.sequence == U48(0)
                    &&& socket.inner.inner == inner
                    &&& socket.inner.core == core
                    &&& socket.inner.buffered_plaintext@ == Seq::<u8>::empty()
                    &&& socket.inner.received_plaintext@ == Seq::<u8>::empty()
                },
            },
    {
        match connection_core {
            Err(e) => Err(e),
            Ok(core) => Ok(ServerDtlsSocket { inner: DtlsSocket::new(inner, core) }),
        }
    }
}

} // verus!
