//! Code points of the TLS registries that the record layer deals in.

use vstd::prelude::*;

verus! {

/// The `ContentType` of a record.
#[derive(Clone, Copy, Debug, PartialEq, Eq, Structural)]
pub enum ContentType {
    ChangeCipherSpec,
    Alert,
    Handshake,
    ApplicationData,
    Heartbeat,
    Ack,
    Unknown(u8),
}

impl ContentType {
    /// The content type that a byte on the wire stands for.
    pub open spec fn of(code: u8) -> Self {
        if code == 20 {
            Self::ChangeCipherSpec
        } else if code == 21 {
            Self::Alert
        } else if code == 22 {
            Self::Handshake
        } else if code == 23 {
            Self::ApplicationData
        } else if code == 24 {
            Self::Heartbeat
        } else if code == 26 {
            Self::Ack
        } else {
            Self::Unknown(code)
        }
    }

    /// The byte that stands for this content type on the wire.
    pub open spec fn code(self) -> u8 {
        match self {
            Self::ChangeCipherSpec => 20,
            Self::Alert => 21,
            Self::Handshake => 22,
            Self::ApplicationData => 23,
            Self::Heartbeat => 24,
            Self::Ack => 26,
            Self::Unknown(code) => code,
        }
    }

    /// Whether this is one of the named content types.
    pub open spec fn is_known(self) -> bool {
        self !is Unknown
    }

    /// Whether this is the value that its own code point is read as.
    pub open spec fn is_canonical(self) -> bool {
        Self::of(self.code()) == self
    }

    pub fn from_u8(code: u8) -> (r: Self)
        ensures
            r == Self::of(code),
    {
        match code {
            20 => Self::ChangeCipherSpec,
            21 => Self::Alert,
            22 => Self::Handshake,
            23 => Self::ApplicationData,
            24 => Self::Heartbeat,
            26 => Self::Ack,
            _ => Self::Unknown(code),
        }
    }

    pub fn to_u8(self) -> (r: u8)
        ensures
            r == self.code(),
    {
        match self {
            Self::ChangeCipherSpec => 20,
            Self::Alert => 21,
            Self::Handshake => 22,
            Self::ApplicationData => 23,
            Self::Heartbeat => 24,
            Self::Ack => 26,
            Self::Unknown(code) => code,
        }
    }

    /// The encoding as an array of one byte.
    pub fn to_array(self) -> (r: [u8; 1])
        ensures
            r@ == seq![self.code()],
    {
        [self.to_u8()]
    }
}

/// The `HandshakeType` of a handshake message.
#[derive(Clone, Copy, Debug, PartialEq, Eq, Structural)]
pub enum HandshakeType {
    HelloRequest,
    ClientHello,
    ServerHello,
    HelloVerifyRequest,
    NewSessionTicket,
    EndOfEarlyData,
    HelloRetryRequest,
    EncryptedExtensions,
    Certificate,
    ServerKeyExchange,
    CertificateRequest,
    ServerHelloDone,
    CertificateVerify,
    ClientKeyExchange,
    Finished,
    CertificateUrl,
    CertificateStatus,
    KeyUpdate,
    CompressedCertificate,
    MessageHash,
    Unknown(u8),
}

impl HandshakeType {
    /// The handshake type that a byte on the wire stands for.
    pub open spec fn of(code: u8) -> Self {
        if code == 0 {
            Self::HelloRequest
        } else if code == 1 {
            Self::ClientHello
        } else if code == 2 {
            Self::ServerHello
        } else if code == 3 {
            Self::HelloVerifyRequest
        } else if code == 4 {
            Self::NewSessionTicket
        } else if code == 5 {
            Self::EndOfEarlyData
        } else if code == 6 {
            Self::HelloRetryRequest
        } else if code == 8 {
            Self::EncryptedExtensions
        } else if code == 11 {
            Self::Certificate
        } else if code == 12 {
            Self::ServerKeyExchange
        } else if code == 13 {
            Self::CertificateRequest
        } else if code == 14 {
            Self::ServerHelloDone
        } else if code == 15 {
            Self::CertificateVerify
        } else if code == 16 {
            Self::ClientKeyExchange
        } else if code == 20 {
            Self::Finished
        } else if code == 21 {
            Self::CertificateUrl
        } else if code == 22 {
            Self::CertificateStatus
        } else if code == 24 {
            Self::KeyUpdate
        } else if code == 25 {
            Self::CompressedCertificate
        } else if code == 254 {
            Self::MessageHash
        } else {
            Self::Unknown(code)
        }
    }

    /// The byte that stands for this handshake type on the wire.
    pub open spec fn code(self) -> u8 {
        match self {
            Self::HelloRequest => 0,
            Self::ClientHello => 1,
            Self::ServerHello => 2,
            Self::HelloVerifyRequest => 3,
            Self::NewSessionTicket => 4,
            Self::EndOfEarlyData => 5,
            Self::HelloRetryRequest => 6,
            Self::EncryptedExtensions => 8,
            Self::Certificate => 11,
            Self::ServerKeyExchange => 12,
            Self::CertificateRequest => 13,
            Self::ServerHelloDone => 14,
            Self::CertificateVerify => 15,
            Self::ClientKeyExchange => 16,
            Self::Finished => 20,
            Self::CertificateUrl => 21,
            Self::CertificateStatus => 22,
            Self::KeyUpdate => 24,
            Self::CompressedCertificate => 25,
            Self::MessageHash => 254,
            Self::Unknown(code) => code,
        }
    }

    /// Whether this is the value that its own code point is read as.
    pub open spec fn is_canonical(self) -> bool {
        Self::of(self.code()) == self
    }

    pub fn from_u8(code: u8) -> (r: Self)
        ensures
            r == Self::of(code),
    {
        match code {
            0 => Self::HelloRequest,
            1 => Self::ClientHello,
            2 => Self::ServerHello,
            3 => Self::HelloVerifyRequest,
            4 => Self::NewSessionTicket,
            5 => Self::EndOfEarlyData,
            6 => Self::HelloRetryRequest,
            8 => Self::EncryptedExtensions,
            11 => Self::Certificate,
            12 => Self::ServerKeyExchange,
            13 => Self::CertificateRequest,
            14 => Self::ServerHelloDone,
            15 => Self::CertificateVerify,
            16 => Self::ClientKeyExchange,
            20 => Self::Finished,
            21 => Self::CertificateUrl,
            22 => Self::CertificateStatus,
            24 => Self::KeyUpdate,
            25 => Self::CompressedCertificate,
            254 => Self::MessageHash,
            _ => Self::Unknown(code),
        }
    }

    pub fn to_u8(self) -> (r: u8)
        ensures
            r == self.code(),
    {
        match self {
            Self::HelloRequest => 0,
            Self::ClientHello => 1,
            Self::ServerHello => 2,
            Self::HelloVerifyRequest => 3,
            Self::NewSessionTicket => 4,
            Self::EndOfEarlyData => 5,
            Self::HelloRetryRequest => 6,
            Self::EncryptedExtensions => 8,
            Self::Certificate => 11,
            Self::ServerKeyExchange => 12,
            Self::CertificateRequest => 13,
            Self::ServerHelloDone => 14,
            Self::CertificateVerify => 15,
            Self::ClientKeyExchange => 16,
            Self::Finished => 20,
            Self::CertificateUrl => 21,
            Self::CertificateStatus => 22,
            Self::KeyUpdate => 24,
            Self::CompressedCertificate => 25,
            Self::MessageHash => 254,
            Self::Unknown(code) => code,
        }
    }
}

/// A TLS or DTLS protocol version.
#[derive(Clone, Copy, Debug, PartialEq, Eq, Structural)]
pub enum ProtocolVersion {
    SSLv2,
    SSLv3,
    TLSv1_0,
    TLSv1_1,
    TLSv1_2,
    TLSv1_3,
    DTLSv1_0,
    DTLSv1_2,
    DTLSv1_3,
    Unknown(u16),
}

impl ProtocolVersion {
    /// The version that two bytes on the wire stand for.
    pub open spec fn of(code: u16) -> Self {
        if code == 0x0200 {
            Self::SSLv2
        } else if code == 0x0300 {
            Self::SSLv3
        } else if code == 0x0301 {
            Self::TLSv1_0
        } else if code == 0x0302 {
            Self::TLSv1_1
        } else if code == 0x0303 {
            Self::TLSv1_2
        } else if code == 0x0304 {
            Self::TLSv1_3
        } else if code == 0xfeff {
            Self::DTLSv1_0
        } else if code == 0xfefd {
            Self::DTLSv1_2
        } else if code == 0xfefc {
            Self::DTLSv1_3
        } else {
            Self::Unknown(code)
        }
    }

    /// The number that stands for this version on the wire.
    pub open spec fn code(self) -> u16 {
        match self {
            Self::SSLv2 => 0x0200,
            Self::SSLv3 => 0x0300,
            Self::TLSv1_0 => 0x0301,
            Self::TLSv1_1 => 0x0302,
            Self::TLSv1_2 => 0x0303,
            Self::TLSv1_3 => 0x0304,
            Self::DTLSv1_0 => 0xfeff,
            Self::DTLSv1_2 => 0xfefd,
            Self::DTLSv1_3 => 0xfefc,
            Self::Unknown(code) => code,
        }
    }

    /// Whether this is the value that its own code point is read as.
    pub open spec fn is_canonical(self) -> bool {
        Self::of(self.code()) == self
    }

    /// Whether this is a version of Datagram TLS.
    pub open spec fn is_datagram(self) -> bool {
        self is DTLSv1_0 || self is DTLSv1_2 || self is DTLSv1_3
    }

    /// The length of the header on a handshake message in this version.
    pub open spec fn handshake_header(self) -> int {
        if self.is_datagram() {
            12
        } else {
            4
        }
    }

    /// The length of the header on a handshake message in this version: type
    /// and length, and for Datagram TLS also sequence number, fragment offset
    /// and fragment length.
    pub fn handshake_header_size(self) -> (r: usize)
        ensures
            r == self.handshake_header(),
    {
        if self.is_datagram_tls() {
            12
        } else {
            4
        }
    }

    pub fn from_u16(code: u16) -> (r: Self)
        ensures
            r == Self::of(code),
    {
        match code {
            0x0200 => Self::SSLv2,
            0x0300 => Self::SSLv3,
            0x0301 => Self::TLSv1_0,
            0x0302 => Self::TLSv1_1,
            0x0303 => Self::TLSv1_2,
            0x0304 => Self::TLSv1_3,
            0xfeff => Self::DTLSv1_0,
            0xfefd => Self::DTLSv1_2,
            0xfefc => Self::DTLSv1_3,
            _ => Self::Unknown(code),
        }
    }

    pub fn to_u16(self) -> (r: u16)
        ensures
            r == self.code(),
    {
        match self {
            Self::SSLv2 => 0x0200,
            Self::SSLv3 => 0x0300,
            Self::TLSv1_0 => 0x0301,
            Self::TLSv1_1 => 0x0302,
            Self::TLSv1_2 => 0x0303,
            Self::TLSv1_3 => 0x0304,
            Self::DTLSv1_0 => 0xfeff,
            Self::DTLSv1_2 => 0xfefd,
            Self::DTLSv1_3 => 0xfefc,
            Self::Unknown(code) => code,
        }
    }

    /// Whether this is a version of Datagram TLS.
    pub fn is_datagram_tls(self) -> (r: bool)
        ensures
            r == self.is_datagram(),
    {
        match self {
            Self::DTLSv1_0 | Self::DTLSv1_2 | Self::DTLSv1_3 => true,
            _ => false,
        }
    }
}

/// A content type is written as the code point that it is read from. The named ones are
/// those of the registry, and no two of them share a code point.
pub proof fn law_content_type_codes(code: u8, typ: ContentType)
    ensures
        ContentType::of(code).code() == code,
        ContentType::of(code) is ChangeCipherSpec <==> code == 20,
        ContentType::of(code) is Alert <==> code == 21,
        ContentType::of(code) is Handshake <==> code == 22,
        ContentType::of(code) is ApplicationData <==> code == 23,
        ContentType::of(code) is Heartbeat <==> code == 24,
        ContentType::of(code) is Ack <==> code == 26,
        ContentType::of(code).is_known() <==> 20 <= code <= 24 || code == 26,
        typ.is_known() ==> ContentType::of(typ.code()) == typ,
        typ.is_canonical() <==> (typ matches ContentType::Unknown(unknown) ==> !(20 <= unknown <= 24
            || unknown == 26)),
{
}

/// A handshake type is written as the code point that it is read from. The named ones are
/// those of the registry, and no two of them share a code point.
pub proof fn law_handshake_type_codes(code: u8, typ: HandshakeType)
    ensures
        HandshakeType::of(code).code() == code,
        HandshakeType::of(code) is HelloRequest <==> code == 0,
        HandshakeType::of(code) is ClientHello <==> code == 1,
        HandshakeType::of(code) is ServerHello <==> code == 2,
        HandshakeType::of(code) is HelloVerifyRequest <==> code == 3,
        HandshakeType::of(code) is NewSessionTicket <==> code == 4,
        HandshakeType::of(code) is EndOfEarlyData <==> code == 5,
        HandshakeType::of(code) is HelloRetryRequest <==> code == 6,
        HandshakeType::of(code) is EncryptedExtensions <==> code == 8,
        HandshakeType::of(code) is Certificate <==> code == 11,
        HandshakeType::of(code) is ServerKeyExchange <==> code == 12,
        HandshakeType::of(code) is CertificateRequest <==> code == 13,
        HandshakeType::of(code) is ServerHelloDone <==> code == 14,
        HandshakeType::of(code) is CertificateVerify <==> code == 15,
        HandshakeType::of(code) is ClientKeyExchange <==> code == 16,
        HandshakeType::of(code) is Finished <==> code == 20,
        HandshakeType::of(code) is CertificateUrl <==> code == 21,
        HandshakeType::of(code) is CertificateStatus <==> code == 22,
        HandshakeType::of(code) is KeyUpdate <==> code == 24,
        HandshakeType::of(code) is CompressedCertificate <==> code == 25,
        HandshakeType::of(code) is MessageHash <==> code == 254,
        typ !is Unknown ==> HandshakeType::of(typ.code()) == typ,
        typ.is_canonical() <==> (typ matches HandshakeType::Unknown(unknown) ==> HandshakeType::of(
            unknown,
        ) is Unknown),
{
}

/// A version is written as the code point that it is read from. The named ones are those of
/// the registry, and no two of them share a code point. Versions of Datagram TLS have code
/// points of their own, and eight more bytes in the header of a handshake message.
pub proof fn law_protocol_version_codes(code: u16, version: ProtocolVersion)
    ensures
        ProtocolVersion::of(code).code() == code,
        ProtocolVersion::of(code) is SSLv2 <==> code == 0x0200,
        ProtocolVersion::of(code) is SSLv3 <==> code == 0x0300,
        ProtocolVersion::of(code) is TLSv1_0 <==> code == 0x0301,
        ProtocolVersion::of(code) is TLSv1_1 <==> code == 0x0302,
        ProtocolVersion::of(code) is TLSv1_2 <==> code == 0x0303,
        ProtocolVersion::of(code) is TLSv1_3 <==> code == 0x0304,
        ProtocolVersion::of(code) is DTLSv1_0 <==> code == 0xfeff,
        ProtocolVersion::of(code) is DTLSv1_2 <==> code == 0xfefd,
        ProtocolVersion::of(code) is DTLSv1_3 <==> code == 0xfefc,
        version !is Unknown ==> ProtocolVersion::of(version.code()) == version,
        version.is_canonical() <==> (version matches ProtocolVersion::Unknown(unknown)
            ==> ProtocolVersion::of(unknown) is Unknown),
        ProtocolVersion::of(code).is_datagram() <==> code == 0xfeff || code == 0xfefd || code
            == 0xfefc,
        ProtocolVersion::of(code).handshake_header() == if code == 0xfeff || code == 0xfefd || code
            == 0xfefc {
            12int
        } else {
            4
        },
{
}

} // verus!
