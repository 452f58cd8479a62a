//! The running hash of a handshake.

use aws_lc_rs::digest;

use vstd::prelude::*;

use crate::crypto::hash::{
    digest_algorithm, digest_clone, digest_finish, digest_input, digest_new, digest_update,
    hash_value, HashAlgorithm, Output,
};
use crate::enums::{HandshakeType, ProtocolVersion};
use crate::msgs::codec::{
    be_bytes, be_value, encode_be, lemma_be_bytes_len, lemma_pow256_values,
};
use crate::msgs::dtls::{lemma_handshake_header_len, HandshakeFragment};
use crate::msgs::wire_laws::{law_numbers_are_big_endian, lemma_written_at, number_at};

verus! {

/// The bytes of an encoded handshake message that are hashed in the given version.
///
/// In TLS 1.2 or 1.3, the entire handshake payload gets hashed. In DTLS 1.2, the
/// entire handshake message including the DTLS-specific message_seq,
/// fragment_offset, and fragment_length fields are hashed. But in DTLS 1.3, those
/// fields are omitted.
pub open spec fn hashed_bytes(version: ProtocolVersion, encoded: Seq<u8>) -> Seq<u8> {
    if version == ProtocolVersion::DTLSv1_3 && encoded.len() >= 4 {
        encoded.take(4) + encoded.skip(12)
    } else {
        encoded
    }
}

/// The message has no more than part of a DTLS handshake header behind type and
/// length, which DTLS 1.3 cannot do without.
pub open spec fn lacks_fragment_fields(version: ProtocolVersion, encoded: Seq<u8>) -> bool {
    version == ProtocolVersion::DTLSv1_3 && 4 <= encoded.len() < 12
}

/// The handshake message that stands for everything before a HelloRetryRequest:
/// of type `message_hash`, with the hash value as its body.
pub open spec fn message_hash_encoding(hash: Seq<u8>) -> Seq<u8> {
    seq![HandshakeType::MessageHash.code()] + be_bytes(hash.len(), 3) + hash
}

/// The message that stands for the transcript reads as a TLS handshake message: its first
/// byte is the code of `message_hash`, the number in the next three is how many bytes
/// follow, and what follows is the hash.
pub proof fn law_message_hash_is_handshake_message(hash: Seq<u8>)
    requires
        hash.len() <= 0xff_ffff,
    ensures
        ({
            let message = message_hash_encoding(hash);
            &&& message.len() == 4 + hash.len()
            &&& message[0] == 254
            &&& number_at(message, 1, 3) == message.len() - 4
            &&& be_value(message.subrange(1, 4)) == hash.len()
            &&& message.skip(4) == hash
        }),
{
    lemma_pow256_values();
    lemma_be_bytes_len(hash.len(), 3);
    let message = message_hash_encoding(hash);
    assert(message.subrange(1, 4) =~= be_bytes(hash.len(), 3));
    lemma_written_at(message, 1, hash.len(), 3);
    law_numbers_are_big_endian(message, 1, 3);
    assert(message.skip(4) =~= hash);
}

/// In DTLS 1.3 the first four bytes of a message are hashed and then those from the
/// thirteenth on, so that eight are left out. In every other version all bytes are hashed,
/// and so are fewer than four bytes.
pub proof fn law_fragment_fields_are_left_out(version: ProtocolVersion, encoded: Seq<u8>)
    requires
        version.is_canonical(),
    ensures
        lacks_fragment_fields(version, encoded) <==> version.code() == 0xfefc && encoded.len() >= 4
            && encoded.len() < 12,
        version.code() == 0xfefc && encoded.len() >= 12 ==> {
            &&& hashed_bytes(version, encoded).len() == encoded.len() - 8
            &&& forall|i: int|
                0 <= i < 4 ==> #[trigger] hashed_bytes(version, encoded)[i] == encoded[i]
            &&& forall|i: int|
                4 <= i < encoded.len() - 8 ==> #[trigger] hashed_bytes(version, encoded)[i]
                    == encoded[i + 8]
        },
        version.code() != 0xfefc || encoded.len() < 4 ==> hashed_bytes(version, encoded) == encoded,
{
}

/// Adding bytes one piece after the other is the same as adding them all at once, and
/// leaves what was there before in front.
pub proof fn law_pieces_are_hashed_in_order(
    before: HandshakeHash,
    between: HandshakeHash,
    after: HandshakeHash,
    first: Seq<u8>,
    second: Seq<u8>,
)
    requires
        between.has_added(before, first),
        after.has_added(between, second),
    ensures
        after.has_added(before, first + second),
        after.provider == before.provider,
        digest_input(after.ctx) == digest_input(before.ctx) + first + second,
        before.client_auth is None ==> after.client_auth is None,
        before.client_auth is Some ==> after.client_auth is Some && after.client_auth->Some_0@
            == before.client_auth->Some_0@ + first + second,
{
    assert(after.transcript() =~= before.transcript() + (first + second));
    if before.client_auth is Some {
        assert(after.client_auth->Some_0@ =~= before.client_auth->Some_0@ + (first + second));
    }
}

/// The transcript hash does not depend on the version, but for DTLS 1.3: there it
/// is that of the message with a TLS handshake header.
pub proof fn law_hashed_bytes(version: ProtocolVersion, message: HandshakeFragment)
    ensures
        version != ProtocolVersion::DTLSv1_3 ==> hashed_bytes(version, message.encoding())
            == message.encoding(),
        hashed_bytes(ProtocolVersion::DTLSv1_3, message.encoding()) == seq![message.msg_type.code()]
            + be_bytes(message.length as nat, 3) + message.fragment,
{
    broadcast use lemma_be_bytes_len;

    lemma_handshake_header_len(message);
    let encoded = message.encoding();
    assert(encoded.take(4) =~= seq![message.msg_type.code()] + be_bytes(message.length as nat, 3));
    assert(encoded.skip(12) =~= message.fragment);
}

/// Encodes the handshake message that stands for everything before a
/// HelloRetryRequest.
fn build_handshake_hash(hash: &[u8]) -> (r: Vec<u8>)
    ensures
        r@ == message_hash_encoding(hash@),
        r@.len() == 4 + hash@.len(),
        r@[0] == 254,
        hash@.len() <= 0xff_ffff ==> number_at(r@, 1, 3) == hash@.len(),
        r@.skip(4) == hash@,
{
    let mut bytes: Vec<u8> = Vec::new();
    bytes.push(HandshakeType::MessageHash.to_u8());
    encode_be(hash.len() as u64, 3, &mut bytes);
    bytes.extend_from_slice(hash);
    proof {
        lemma_be_bytes_len(hash@.len(), 3);
        assert(bytes@ =~= message_hash_encoding(hash@));
        assert(bytes@.skip(4) =~= hash@);
        if hash@.len() <= 0xff_ffff {
            law_message_hash_is_handshake_message(hash@);
        }
    }
    bytes
}

/// Early stage buffering of handshake payloads.
///
/// Before we know the hash algorithm to use to verify the handshake, we just
/// buffer the messages. During the handshake, we may restart the transcript due
/// to a HelloRetryRequest, reverting from the `HandshakeHash` to a
/// `HandshakeHashBuffer` again.
#[derive(Debug)]
pub struct HandshakeHashBuffer {
    pub buffer: Vec<u8>,
    pub client_auth_enabled: bool,
}

impl Clone for HandshakeHashBuffer {
    fn clone(&self) -> (r: Self)
        ensures
            r.buffer@ == self.buffer@,
            r.client_auth_enabled == self.client_auth_enabled,
    {
        HandshakeHashBuffer {
            buffer: vstd::slice::slice_to_vec(self.buffer.as_slice()),
            client_auth_enabled: self.client_auth_enabled,
        }
    }
}

impl HandshakeHashBuffer {
    pub fn new() -> (r: Self)
        ensures
            r.buffer@.len() == 0,
            !r.client_auth_enabled,
    {
        HandshakeHashBuffer { buffer: Vec::new(), client_auth_enabled: false }
    }

    /// We might be doing client auth, so need to keep a full
    /// log of the handshake.
    pub fn set_client_auth_enabled(&mut self)
        ensures
            final(self).client_auth_enabled,
            final(self).buffer@ == old(self).buffer@,
    {
        self.client_auth_enabled = true;
    }

    /// Hash or buffer a byte slice.
    pub fn add(&mut self, bytes: &[u8])
        ensures
            final(self).buffer@ == old(self).buffer@ + bytes@,
            final(self).client_auth_enabled == old(self).client_auth_enabled,
    {
        self.buffer.extend_from_slice(bytes);
    }

    /// Get the hash value if we were to hash `extra` too.
    pub fn hash_given(&self, provider: HashAlgorithm, extra: &[u8]) -> (r: Output)
        requires
            self.buffer@.len() + extra@.len() <= u64::MAX,
        ensures
            r@ == hash_value(provider, self.buffer@ + extra@),
            r@.len() == provider.output_size(),
    {
        let mut ctx = digest_new(provider);
        digest_update(&mut ctx, self.buffer.as_slice());
        digest_update(&mut ctx, extra);
        assert(digest_input(ctx) =~= self.buffer@ + extra@);
        Output { bytes: digest_finish(ctx) }
    }

    /// We now know what hash function the verify_data will use.
    pub fn start_hash(self, provider: HashAlgorithm, negotiated_version: ProtocolVersion) -> (r:
        HandshakeHash)
        requires
            !lacks_fragment_fields(negotiated_version, self.buffer@),
            self.buffer@.len() <= u64::MAX,
        ensures
            r.wf(),
            r.provider == provider,
            r.transcript() == hashed_bytes(negotiated_version, self.buffer@),
            r.client_auth is Some <==> self.client_auth_enabled,
            r.client_auth matches Some(log) ==> log@ == hashed_bytes(
                negotiated_version,
                self.buffer@,
            ),
    {
        let (first, second) = HandshakeHash::split_around_dtls_handshake_fragment_fields(
            negotiated_version,
            self.buffer.as_slice(),
        );
        assert((first@ + second@).len() <= self.buffer@.len());
        let mut ctx = digest_new(provider);
        digest_update(&mut ctx, first);
        digest_update(&mut ctx, second);
        assert(digest_input(ctx) =~= first@ + second@);
        let client_auth = if self.client_auth_enabled {
            let mut log: Vec<u8> = vstd::slice::slice_to_vec(first);
            log.extend_from_slice(second);
            Some(log)
        } else {
            None
        };
        HandshakeHash { provider, ctx, client_auth }
    }
}

/// This deals with keeping a running hash of the handshake
/// payloads.  This is computed by buffering initially.  Once
/// we know what hash function we need to use we switch to
/// incremental hashing.
///
/// For client auth, we also need to buffer all the messages.
/// This is disabled in cases where client auth is not possible.
pub struct HandshakeHash {
    pub provider: HashAlgorithm,
    pub ctx: digest::Context,
    /// buffer for client-auth.
    pub client_auth: Option<Vec<u8>>,
}

impl Clone for HandshakeHash {
    fn clone(&self) -> (r: Self)
        ensures
            r.provider == self.provider,
            self.wf() ==> r.wf(),
            r.transcript() == self.transcript(),
            r.client_auth is Some <==> self.client_auth is Some,
            r.client_auth matches Some(log) ==> log@ == self.client_auth->Some_0@,
    {
        HandshakeHash {
            provider: self.provider,
            ctx: digest_clone(&self.ctx),
            client_auth: match &self.client_auth {
                Some(log) => Some(vstd::slice::slice_to_vec(log.as_slice())),
                None => None,
            },
        }
    }
}

impl HandshakeHash {
    /// The running hash is computed with the hash function of the provider.
    pub open spec fn wf(&self) -> bool {
        digest_algorithm(self.ctx) == self.provider
    }

    /// What was hashed so far.
    pub open spec fn transcript(&self) -> Seq<u8> {
        digest_input(self.ctx)
    }

    /// `self` after `bytes` were added to `before`.
    pub open spec fn has_added(&self, before: Self, bytes: Seq<u8>) -> bool {
        &&& self.wf()
        &&& self.provider == before.provider
        &&& self.transcript() == before.transcript() + bytes
        &&& self.client_auth is Some <==> before.client_auth is Some
        &&& self.client_auth matches Some(log) ==> log@ == before.client_auth->Some_0@ + bytes
    }

    /// We decided not to do client auth after all, so discard
    /// the transcript.
    pub fn abandon_client_auth(&mut self)
        ensures
            final(self).client_auth is None,
            final(self).provider == old(self).provider,
            final(self).ctx == old(self).ctx,
    {
        self.client_auth = None;
    }

    /// Hash/buffer an encoded handshake message.
    pub fn add(&mut self, version: ProtocolVersion, bytes: &[u8])
        requires
            old(self).wf(),
            !lacks_fragment_fields(version, bytes@),
            old(self).transcript().len() + bytes@.len() <= u64::MAX,
        ensures
            final(self).has_added(*old(self), hashed_bytes(version, bytes@)),
    {
        let (first, second) = Self::split_around_dtls_handshake_fragment_fields(version, bytes);
        assert((first@ + second@).len() <= bytes@.len());
        self.add_raw(first);
        self.add_raw(second);
        proof {
            assert(self.transcript() =~= old(self).transcript() + (first@ + second@));
            if self.client_auth is Some {
                assert(self.client_auth->Some_0@ =~= old(self).client_auth->Some_0@ + (first@
                    + second@));
            }
        }
    }

    /// Hash or buffer a byte slice.
    pub fn add_raw(&mut self, buf: &[u8])
        requires
            old(self).wf(),
            old(self).transcript().len() + buf@.len() <= u64::MAX,
        ensures
            final(self).has_added(*old(self), buf@),
    {
        digest_update(&mut self.ctx, buf);
        if let Some(log) = self.client_auth.as_mut() {
            log.extend_from_slice(buf);
        }
        proof {
            if self.client_auth is Some {
                assert(self.client_auth->Some_0@ =~= old(self).client_auth->Some_0@ + buf@);
            }
        }
    }

    /// Get the hash value if we were to hash `extra` too.
    pub fn hash_given(&self, extra: &[u8]) -> (r: Output)
        requires
            self.wf(),
            self.transcript().len() + extra@.len() <= u64::MAX,
        ensures
            r@ == hash_value(self.provider, self.transcript() + extra@),
            r@.len() == self.provider.output_size(),
    {
        let mut ctx = digest_clone(&self.ctx);
        digest_update(&mut ctx, extra);
        Output { bytes: digest_finish(ctx) }
    }

    /// Reverts to buffering, with a message that stands for all that was hashed.
    pub fn into_hrr_buffer(self) -> (r: HandshakeHashBuffer)
        requires
            self.wf(),
        ensures
            r.buffer@ == message_hash_encoding(hash_value(self.provider, self.transcript())),
            r.buffer@.len() == 4 + self.provider.output_size(),
            r.buffer@[0] == 254,
            number_at(r.buffer@, 1, 3) == self.provider.output_size(),
            r.buffer@.skip(4) == hash_value(self.provider, self.transcript()),
            r.client_auth_enabled == self.client_auth is Some,
    {
        let client_auth_enabled: bool = self.client_auth.is_some();
        let old_hash = digest_finish(self.ctx);
        HandshakeHashBuffer {
            buffer: build_handshake_hash(old_hash.as_slice()),
            client_auth_enabled,
        }
    }

    /// Take the current hash value, and encapsulate it in a
    /// 'handshake_hash' handshake message.  Start this hash
    /// again, with that message at the front.
    pub fn rollup_for_hrr(&mut self)
        requires
            old(self).wf(),
        ensures
            final(self).wf(),
            final(self).provider == old(self).provider,
            ({
                let message = message_hash_encoding(
                    hash_value(old(self).provider, old(self).transcript()),
                );
                &&& final(self).transcript() == message
                &&& message.len() == 4 + old(self).provider.output_size()
                &&& message[0] == 254
                &&& number_at(message, 1, 3) == old(self).provider.output_size()
                &&& message.skip(4) == hash_value(old(self).provider, old(self).transcript())
                &&& final(self).client_auth is Some <==> old(self).client_auth is Some
                &&& final(self).client_auth matches Some(log) ==> log@
                    == old(self).client_auth->Some_0@ + message
            }),
    {
        let old_hash = digest_finish(digest_clone(&self.ctx));
        self.ctx = digest_new(self.provider);
        let message = build_handshake_hash(old_hash.as_slice());
        self.add_raw(message.as_slice());
        assert(self.transcript() =~= message@);
    }

    /// Get the current hash value.
    pub fn current_hash(&self) -> (r: Output)
        requires
            self.wf(),
        ensures
            r@ == hash_value(self.provider, self.transcript()),
            r@.len() == self.provider.output_size(),
    {
        Output { bytes: digest_finish(digest_clone(&self.ctx)) }
    }

    /// Takes this object's buffer containing all handshake messages
    /// so far.  This method only works once; it resets the buffer
    /// to empty.
    pub fn take_handshake_buf(&mut self) -> (r: Option<Vec<u8>>)
        ensures
            r == old(self).client_auth,
            final(self).client_auth is None,
            final(self).provider == old(self).provider,
            final(self).ctx == old(self).ctx,
    {
        self.client_auth.take()
    }

    /// The hashing algorithm
    pub fn algorithm(&self) -> (r: HashAlgorithm)
        ensures
            r == self.provider,
    {
        self.provider
    }

    /// This function takes the encoded handshake message payload and splits it into
    /// two slices based on protocol version. For TLS 1.2, TLS 1.3 and DTLS 1.2, the
    /// entire encoded payload is yielded, split across the two slices. For DTLS 1.3,
    /// the encoded payload is split around bytes 5-12, which are occupied by the
    /// omitted fields.
    fn split_around_dtls_handshake_fragment_fields<'b>(
        version: ProtocolVersion,
        encoded_handshake_payload: &'b [u8],
    ) -> (r: (&'b [u8], &'b [u8]))
        requires
            !lacks_fragment_fields(version, encoded_handshake_payload@),
        ensures
            r.0@ + r.1@ == hashed_bytes(version, encoded_handshake_payload@),
            encoded_handshake_payload@.len() >= 4 ==> r.0@ == encoded_handshake_payload@.take(4),
            encoded_handshake_payload@.len() < 4 ==> r.0@ == encoded_handshake_payload@,
    {
        let len: usize = encoded_handshake_payload.len();
        let empty: &'b [u8] = vstd::slice::slice_subrange(encoded_handshake_payload, len, len);
        if len < 4 {
            assert(encoded_handshake_payload@ + empty@ =~= encoded_handshake_payload@);
            return (encoded_handshake_payload, empty);
        }
        // msg_type (1 byte) + length (3 bytes)
        let first_slice = vstd::slice::slice_subrange(encoded_handshake_payload, 0, 4);
        let second_slice = if version == ProtocolVersion::DTLSv1_3 {
            // Skip msg_typ (1 byte) + length (3 bytes) + message_seq (2 bytes) +
            // fragment_offset (3 bytes) + fragment_length (3 bytes)
            vstd::slice::slice_subrange(encoded_handshake_payload, 12, len)
        } else {
            // Remainder of input buffer
            vstd::slice::slice_subrange(encoded_handshake_payload, 4, len)
        };
        assert(first_slice@ =~= encoded_handshake_payload@.take(4));
        assert(first_slice@ + second_slice@ =~= hashed_bytes(version, encoded_handshake_payload@));
        (first_slice, second_slice)
    }
}

} // verus!
