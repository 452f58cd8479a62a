//! Records as they are handed between the deframer and record protection.

use vstd::prelude::*;

use crate::enums::{ContentType, ProtocolVersion};
use crate::error::{Error, PeerMisbehaved};

verus! {

/// Plaintext of a record may be no longer than this.
pub const MAX_FRAGMENT_LEN: usize = 16384;

/// A version together with how it is represented in record headers.
#[derive(Clone, Copy, Debug, PartialEq, Eq, Structural)]
pub enum EncodableVersion {
    /// TLS 1.3 and DTLS 1.3 pass for their predecessors on the wire.
    Legacy(ProtocolVersion),
}

impl EncodableVersion {
    /// The version itself.
    pub open spec fn actual(self) -> ProtocolVersion {
        match self {
            EncodableVersion::Legacy(version) => version,
        }
    }

    /// The version that record headers show.
    pub open spec fn shown(self) -> ProtocolVersion {
        match self {
            EncodableVersion::Legacy(ProtocolVersion::TLSv1_3) => ProtocolVersion::TLSv1_2,
            EncodableVersion::Legacy(ProtocolVersion::DTLSv1_3) => ProtocolVersion::DTLSv1_2,
            EncodableVersion::Legacy(version) => version,
        }
    }

    /// The version itself.
    pub fn version(&self) -> (r: ProtocolVersion)
        ensures
            r == self.actual(),
    {
        match *self {
            EncodableVersion::Legacy(version) => version,
        }
    }

    /// The version that record headers show.
    pub fn encode(&self) -> (r: ProtocolVersion)
        ensures
            r == self.shown(),
    {
        match *self {
            EncodableVersion::Legacy(ProtocolVersion::TLSv1_3) => ProtocolVersion::TLSv1_2,
            EncodableVersion::Legacy(ProtocolVersion::DTLSv1_3) => ProtocolVersion::DTLSv1_2,
            EncodableVersion::Legacy(version) => version,
        }
    }
}

/// A record with some form of payload.
#[derive(Debug)]
pub struct Record<P> {
    pub typ: ContentType,
    pub version: EncodableVersion,
    pub payload: P,
}

impl<P> Record<P> {
    pub fn new(typ: ContentType, version: EncodableVersion, payload: P) -> (r: Self)
        ensures
            r == (Record { typ, version, payload }),
    {
        Record { typ, version, payload }
    }
}

/// The header and the payload of a record as they came in.
#[derive(Debug)]
pub struct InboundOpaque<'a>(pub &'a mut [u8], pub &'a mut [u8]);

/// The number of bytes in front of the trailing zeros of `payload`.
pub open spec fn unpadded_len(payload: Seq<u8>) -> nat
    decreases payload.len(),
{
    if payload.len() > 0 && payload.last() == 0 {
        unpadded_len(payload.drop_last())
    } else {
        payload.len()
    }
}

/// What the inner plaintext of a TLS 1.3 record holds: the content type in the
/// last byte that is not padding, and the bytes in front of it.
pub open spec fn tls13_inner_plaintext(inner: Seq<u8>) -> Result<(ContentType, Seq<u8>), Error> {
    let n = unpadded_len(inner) as int;
    if inner.len() > MAX_FRAGMENT_LEN + 1 {
        Err(Error::PeerSentOversizedRecord)
    } else if n == 0 {
        Err(Error::PeerMisbehaved(PeerMisbehaved::IllegalTlsInnerPlaintext))
    } else if n - 1 > MAX_FRAGMENT_LEN {
        Err(Error::PeerSentOversizedRecord)
    } else {
        Ok((ContentType::of(inner[n - 1]), inner.take(n - 1)))
    }
}

/// A content type that is not zero survives padding and unpadding.
pub proof fn lemma_unpadded(plain: Seq<u8>, typ: u8)
    requires
        typ != 0,
    ensures
        unpadded_len(plain.push(typ)) == plain.len() + 1,
{
}

impl<'a> Record<InboundOpaque<'a>> {
    /// The record with its payload as plaintext.
    pub fn into_plain_record(self) -> (r: Record<&'a [u8]>)
        ensures
            r.typ == self.typ,
            r.version == self.version,
            r.payload@ == old(self.payload.1)@,
            final(self.payload.1)@ == old(self.payload.1)@,
            final(self.payload.0)@ == old(self.payload.0)@,
    {
        let Record { typ, version, payload } = self;
        let InboundOpaque(_header, body) = payload;
        Record { typ, version, payload: &*body }
    }

    /// For TLS 1.3, checks the length of the first `len` bytes of the payload and
    /// removes the padding.
    pub fn into_tls13_unpadded_record(self, len: usize) -> (r: Result<Record<&'a [u8]>, Error>)
        requires
            len <= old(self.payload.1)@.len(),
        ensures
            match (r, tls13_inner_plaintext(old(self.payload.1)@.take(len as int))) {
                (Ok(record), Ok((typ, plain))) => {
                    &&& record.typ == typ
                    &&& record.version == EncodableVersion::Legacy(ProtocolVersion::TLSv1_3)
                    &&& record.payload@ == plain
                },
                (Err(e), Err(expected)) => e == expected,
                _ => false,
            },
            final(self.payload.1)@ == old(self.payload.1)@,
            final(self.payload.0)@ == old(self.payload.0)@,
    {
        let Record { payload, .. } = self;
        let InboundOpaque(_header, body) = payload;
        let body: &'a [u8] = &*body;
        let ghost inner = body@.take(len as int);
        if len > MAX_FRAGMENT_LEN + 1 {
            return Err(Error::PeerSentOversizedRecord);
        }
        let mut n: usize = len;
        assert(inner.take(n as int) =~= inner);
        while n > 0 && body[n - 1] == 0
            invariant
                n <= len <= body@.len(),
                inner == body@.take(len as int),
                unpadded_len(inner.take(n as int)) == unpadded_len(inner),
            decreases n,
        {
            assert(inner.take(n as int).drop_last() =~= inner.take(n - 1));
            n = n - 1;
        }
        if n == 0 {
            return Err(Error::PeerMisbehaved(PeerMisbehaved::IllegalTlsInnerPlaintext));
        }
        if n - 1 > MAX_FRAGMENT_LEN {
            return Err(Error::PeerSentOversizedRecord);
        }
        let plain = vstd::slice::slice_subrange(body, 0, n - 1);
        assert(plain@ =~= inner.take(n - 1));
        Ok(
            Record {
                typ: ContentType::from_u8(body[n - 1]),
                version: EncodableVersion::Legacy(ProtocolVersion::TLSv1_3),
                payload: plain,
            },
        )
    }
}

/// Record headers show the predecessor of TLS 1.3 and DTLS 1.3, and all other versions as
/// they are.
pub proof fn law_shown_version(version: EncodableVersion)
    ensures
        EncodableVersion::Legacy(version.actual()) == version,
        version.shown().code() == if version.actual() is TLSv1_3 {
            0x0303
        } else if version.actual() is DTLSv1_3 {
            0xfefd
        } else {
            version.actual().code()
        },
        version.shown() !is TLSv1_3,
        version.shown() !is DTLSv1_3,
        version.actual() !is TLSv1_3 && version.actual() !is DTLSv1_3 ==> version.shown()
            == version.actual(),
{
}

/// Trailing zeros do not count.
proof fn lemma_padding(payload: Seq<u8>, n: int)
    requires
        0 <= n <= payload.len(),
        forall|i: int| n <= i < payload.len() ==> #[trigger] payload[i] == 0,
        n > 0 ==> payload[n - 1] != 0,
    ensures
        unpadded_len(payload) == n,
    decreases payload.len(),
{
    if payload.len() > n {
        assert(payload[payload.len() - 1] == 0);
        lemma_padding(payload.drop_last(), n);
    }
}

/// However much padding follows, the content type of a record is the last byte that is not
/// zero, and its plaintext is what stands in front.
pub proof fn law_padding_is_removed(plain: Seq<u8>, typ: u8, padding: Seq<u8>)
    requires
        typ != 0,
        forall|i: int| 0 <= i < padding.len() ==> #[trigger] padding[i] == 0,
    ensures
        ({
            let inner = plain.push(typ) + padding;
            if inner.len() <= 16385 {
                &&& tls13_inner_plaintext(inner) matches Ok((found, bytes))
                &&& found == ContentType::of(typ)
                &&& found.code() == typ
                &&& bytes == plain
            } else {
                tls13_inner_plaintext(inner) == Err::<(ContentType, Seq<u8>), Error>(
                    Error::PeerSentOversizedRecord,
                )
            }
        }),
{
    let inner = plain.push(typ) + padding;
    let n = plain.len() + 1;
    assert forall|i: int| n <= i < inner.len() implies #[trigger] inner[i] == 0 by {
        assert(inner[i] == padding[i - n]);
    }
    assert(inner[n - 1] == typ);
    lemma_padding(inner, n as int);
    assert(inner.take(plain.len() as int) =~= plain);
}

/// A record that is nothing but padding has no content type, and is refused.
pub proof fn law_padding_alone_is_refused(inner: Seq<u8>)
    requires
        forall|i: int| 0 <= i < inner.len() ==> #[trigger] inner[i] == 0,
    ensures
        tls13_inner_plaintext(inner) == Err::<(ContentType, Seq<u8>), Error>(
            if inner.len() <= 16385 {
                Error::PeerMisbehaved(PeerMisbehaved::IllegalTlsInnerPlaintext)
            } else {
                Error::PeerSentOversizedRecord
            },
        ),
{
    lemma_padding(inner, 0);
}

} // verus!
