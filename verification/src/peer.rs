use vstd::prelude::*;

use crate::hexcode::{all_lower_hex_digits, hex_of, hex_val, lemma_hex_of_digits,
    lemma_hex_of_hex_val};
use crate::torrent::{InfoHash, Torrent};
use crate::util::{ascii_chars, be32_bytes, be32_val, lemma_be32_roundtrip};

verus! {

broadcast use vstd::std_specs::vec::group_vec_axioms;

// ---------------------------------------------------------------------------
// Protocol errors
// ---------------------------------------------------------------------------

/// The ways a peer exchange can fail.
#[derive(Debug, Clone, Copy, PartialEq, Eq, Structural)]
pub enum ProtocolError {
    /// Fewer than 68 bytes where a handshake was expected.
    ShortHandshake,
    /// A frame shorter than its length prefix announces, a prefix of zero,
    /// or fewer than four bytes where a prefix was expected.
    IncompleteFrame,
    /// A message id other than 1, 2, 5, 6 or 7.
    UnknownMessageId,
    /// A well-formed message of the wrong kind for the current step.
    UnexpectedMessage,
}

// ---------------------------------------------------------------------------
// The 68-byte handshake
// ---------------------------------------------------------------------------

/// The 19 bytes of the protocol name "BitTorrent protocol".
pub open spec fn protocol_name() -> Seq<u8> {
    seq![
        66u8, 105u8, 116u8, 84u8, 111u8, 114u8, 114u8, 101u8, 110u8, 116u8, 32u8, 112u8, 114u8,
        111u8, 116u8, 111u8, 99u8, 111u8, 108u8,
    ]
}

/// The 68 handshake bytes: the length byte 19, the protocol name, 8 zero
/// bytes, the raw 20-byte digest decoded from its hex text, and the 20-byte
/// peer identifier.
pub open spec fn handshake_bytes(ih_hex: Seq<u8>, pid: Seq<u8>) -> Seq<u8> {
    seq![19u8] + protocol_name() + seq![0u8, 0u8, 0u8, 0u8, 0u8, 0u8, 0u8, 0u8] + hex_val(ih_hex)
        + pid
}

/// An outbound or inbound peer handshake: the content digest and the peer
/// identifier.
#[derive(Debug)]
pub struct HandShake {
    pub info_hash: InfoHash,
    pub peer_id: Vec<u8>,
}

impl HandShake {
    /// Well-formed: the digest is 40 hex digits and the identifier 20
    /// bytes.
    pub open spec fn wf(&self) -> bool {
        self.info_hash.wf() && self.peer_id@.len() == 20
    }

    /// The 68 wire bytes of this handshake.
    pub fn to_message(&self) -> (r: Vec<u8>)
        requires
            self.wf(),
        ensures
            r@ == handshake_bytes(self.info_hash.text(), self.peer_id@),
            r@.len() == 68,
    {
        let mut v: Vec<u8> = Vec::new();
        v.push(19u8);
        v.push(66u8);
        v.push(105u8);
        v.push(116u8);
        v.push(84u8);
        v.push(111u8);
        v.push(114u8);
        v.push(114u8);
        v.push(101u8);
        v.push(110u8);
        v.push(116u8);
        v.push(32u8);
        v.push(112u8);
        v.push(114u8);
        v.push(111u8);
        v.push(116u8);
        v.push(111u8);
        v.push(99u8);
        v.push(111u8);
        v.push(108u8);
        let mut z: usize = 0;
        while z < 8
            invariant
                z <= 8,
                v@ == seq![19u8] + protocol_name() + Seq::new(z as nat, |i: int| 0u8),
            decreases 8 - z,
        {
            v.push(0u8);
            proof {
                assert(v@ =~= seq![19u8] + protocol_name() + Seq::new((z + 1) as nat, |i: int| 0u8));
            }
            z += 1;
        }
        let mut digest = self.info_hash.to_hex();
        v.append(&mut digest);
        let mut i: usize = 0;
        let ghost mid = v@;
        while i < self.peer_id.len()
            invariant
                i <= self.peer_id@.len(),
                v@ == mid + self.peer_id@.take(i as int),
            decreases self.peer_id.len() - i,
        {
            v.push(self.peer_id[i]);
            proof {
                assert(v@ =~= mid + self.peer_id@.take(i + 1));
            }
            i += 1;
        }
        proof {
            assert(self.peer_id@.take(self.peer_id@.len() as int) =~= self.peer_id@);
            assert(Seq::new(8nat, |i: int| 0u8) =~= seq![0u8, 0u8, 0u8, 0u8, 0u8, 0u8, 0u8, 0u8]);
            assert(v@ =~= handshake_bytes(self.info_hash.text(), self.peer_id@));
        }
        v
    }

    /// The peer identifier as lowercase hex text.
    pub fn peer_id_as_str(&self) -> (r: String)
        ensures
            r@ == ascii_chars(hex_of(self.peer_id@)),
    {
        let hexed = crate::hexcode::hex_encode(&self.peer_id);
        proof {
            lemma_hex_of_digits(self.peer_id@);
        }
        crate::util::ascii_string(&hexed)
    }
}

// ---------------------------------------------------------------------------
// Reading a handshake out of bytes
// ---------------------------------------------------------------------------

/// A source of a handshake: a torrent descriptor, or received bytes.
pub trait ToHandShake {
    /// Whether a handshake can be produced.
    spec fn handshake_ok(&self) -> bool;

    /// The hex text of the digest of the produced handshake.
    spec fn handshake_ih(&self) -> Seq<u8>;

    /// The peer identifier of the produced handshake.
    spec fn handshake_pid(&self) -> Seq<u8>;

    /// Produce the handshake, or report that the bytes are too short.
    fn to_handshake(&self) -> (r: Result<HandShake, ProtocolError>)
        ensures
            match r {
                Ok(h) => self.handshake_ok() && h.info_hash.text() == self.handshake_ih()
                    && h.peer_id@ == self.handshake_pid(),
                Err(e) => !self.handshake_ok() && e == ProtocolError::ShortHandshake,
            },
    ;
}

impl ToHandShake for Torrent {
    /// A descriptor always yields its own digest and identifier.
    open spec fn handshake_ok(&self) -> bool {
        true
    }

    open spec fn handshake_ih(&self) -> Seq<u8> {
        self.info_hash.text()
    }

    open spec fn handshake_pid(&self) -> Seq<u8> {
        self.peer_id@
    }

    fn to_handshake(&self) -> (r: Result<HandShake, ProtocolError>) {
        let mut ih_text: Vec<u8> = Vec::new();
        let src = self.info_hash.text_bytes();
        let mut i: usize = 0;
        while i < src.len()
            invariant
                i <= src@.len(),
                ih_text@ == src@.take(i as int),
            decreases src.len() - i,
        {
            ih_text.push(src[i]);
            proof {
                assert(ih_text@ =~= src@.take(i + 1));
            }
            i += 1;
        }
        proof {
            assert(src@.take(src@.len() as int) =~= src@);
        }
        let ih = InfoHash::from_raw(ih_text);
        let mut pid: Vec<u8> = Vec::new();
        let mut j: usize = 0;
        while j < self.peer_id.len()
            invariant
                j <= self.peer_id@.len(),
                pid@ == self.peer_id@.take(j as int),
            decreases self.peer_id.len() - j,
        {
            pid.push(self.peer_id[j]);
            proof {
                assert(pid@ =~= self.peer_id@.take(j + 1));
            }
            j += 1;
        }
        proof {
            assert(self.peer_id@.take(self.peer_id@.len() as int) =~= self.peer_id@);
        }
        Ok(HandShake { info_hash: ih, peer_id: pid })
    }
}

impl ToHandShake for Vec<u8> {
    /// Received bytes yield a handshake when at least 68 are present; the
    /// trailing 20 bytes are the peer identifier and the 20 before them the
    /// raw digest, kept as hex text.
    open spec fn handshake_ok(&self) -> bool {
        self@.len() >= 68
    }

    open spec fn handshake_ih(&self) -> Seq<u8> {
        hex_of(self@.subrange(self@.len() - 40, self@.len() - 20))
    }

    open spec fn handshake_pid(&self) -> Seq<u8> {
        self@.subrange(self@.len() - 20, self@.len() as int)
    }

    fn to_handshake(&self) -> (r: Result<HandShake, ProtocolError>) {
        if self.len() < 68 {
            return Err(ProtocolError::ShortHandshake);
        }
        let n = self.len();
        let mut digest: Vec<u8> = Vec::new();
        let mut i: usize = n - 40;
        while i < n - 20
            invariant
                n == self@.len(),
                n >= 68,
                n - 40 <= i <= n - 20,
                digest@ == self@.subrange(n - 40, i as int),
            decreases n - 20 - i,
        {
            digest.push(self[i]);
            proof {
                assert(digest@ =~= self@.subrange(n - 40, i + 1));
            }
            i += 1;
        }
        let hexed = crate::hexcode::hex_encode(&digest);
        proof {
            lemma_hex_of_digits(digest@);
        }
        let ih = InfoHash::from_raw(hexed);
        let mut pid: Vec<u8> = Vec::new();
        let mut j: usize = n - 20;
        while j < n
            invariant
                n == self@.len(),
                n >= 68,
                n - 20 <= j <= n,
                pid@ == self@.subrange(n - 20, j as int),
            decreases n - j,
        {
            pid.push(self[j]);
            proof {
                assert(pid@ =~= self@.subrange(n - 20, j + 1));
            }
            j += 1;
        }
        Ok(HandShake { info_hash: ih, peer_id: pid })
    }
}

/// HANDSHAKE ROUND TRIP: the 68 encoded bytes of a handshake with a
/// lowercase 40-digit hex digest and a 20-byte identifier decode back to
/// the same digest text and the same identifier bytes.
pub proof fn lemma_handshake_round_trip(ih_hex: Seq<u8>, pid: Seq<u8>)
    requires
        ih_hex.len() == 40,
        all_lower_hex_digits(ih_hex),
        pid.len() == 20,
    ensures
        handshake_bytes(ih_hex, pid).len() == 68,
        hex_of(
            handshake_bytes(ih_hex, pid).subrange(28, 48),
        ) == ih_hex,
        handshake_bytes(ih_hex, pid).subrange(48, 68) == pid,
{
    let m = handshake_bytes(ih_hex, pid);
    assert(hex_val(ih_hex).len() == 20);
    assert(m.len() == 68);
    assert(m.subrange(28, 48) =~= hex_val(ih_hex));
    lemma_hex_of_hex_val(ih_hex);
    assert(m.subrange(48, 68) =~= pid);
}


// ---------------------------------------------------------------------------
// Length-prefixed peer messages
// ---------------------------------------------------------------------------

/// The kinds of peer message this client understands.
#[derive(Debug, Clone, Copy, PartialEq, Eq, Structural)]
pub enum MessageType {
    Bitfield,
    Interested,
    Unchoke,
    Request,
    Piece,
}

/// The wire id of a message kind.
pub open spec fn msg_id(t: MessageType) -> u8 {
    match t {
        MessageType::Bitfield => 5,
        MessageType::Interested => 2,
        MessageType::Unchoke => 1,
        MessageType::Request => 6,
        MessageType::Piece => 7,
    }
}

/// The message kind of a wire id, if the id is known.
pub open spec fn id_type(b: u8) -> Option<MessageType> {
    if b == 5 {
        Some(MessageType::Bitfield)
    } else if b == 2 {
        Some(MessageType::Interested)
    } else if b == 1 {
        Some(MessageType::Unchoke)
    } else if b == 6 {
        Some(MessageType::Request)
    } else if b == 7 {
        Some(MessageType::Piece)
    } else {
        None
    }
}

/// The body of a peer message: the four length-prefix bytes (covering the
/// id byte and the payload) and the payload bytes.
#[derive(Debug)]
pub struct Message {
    pub length: [u8; 4],
    pub payload: Vec<u8>,
}

/// A framed peer message.
#[derive(Debug)]
pub enum PeerMessage {
    Bitfield(Message),
    Interested(Message),
    Unchoke(Message),
    Request(Message),
    Piece(Message),
}

impl PeerMessage {
    /// The kind of this message.
    pub open spec fn kind(self) -> MessageType {
        match self {
            PeerMessage::Bitfield(_) => MessageType::Bitfield,
            PeerMessage::Interested(_) => MessageType::Interested,
            PeerMessage::Unchoke(_) => MessageType::Unchoke,
            PeerMessage::Request(_) => MessageType::Request,
            PeerMessage::Piece(_) => MessageType::Piece,
        }
    }

    /// The body of this message.
    pub open spec fn msg(self) -> Message {
        match self {
            PeerMessage::Bitfield(m) => m,
            PeerMessage::Interested(m) => m,
            PeerMessage::Unchoke(m) => m,
            PeerMessage::Request(m) => m,
            PeerMessage::Piece(m) => m,
        }
    }

    /// The wire bytes of this message: prefix, id, payload.
    pub open spec fn wire(self) -> Seq<u8> {
        self.msg().length@ + seq![msg_id(self.kind())] + self.msg().payload@
    }

    /// A message is framed when its length prefix equals one (for the id
    /// byte) plus the payload length.
    pub open spec fn framed(self) -> bool {
        be32_val(self.msg().length@) == 1 + self.msg().payload@.len()
    }

    /// Build a message of the given kind. A non-zero `length` makes a
    /// block-request payload of the three 32-bit big-endian fields index,
    /// begin, length; a zero `length` makes an empty payload. The length
    /// prefix covers the id byte and the payload.
    pub fn new(message_type: MessageType, index: usize, begin: usize, length: usize) -> (r: Self)
        requires
            index <= u32::MAX,
            begin <= u32::MAX,
            length <= u32::MAX,
        ensures
            r.kind() == message_type,
            r.msg().payload@ == (if length != 0 {
                be32_bytes(index as int) + be32_bytes(begin as int) + be32_bytes(length as int)
            } else {
                Seq::<u8>::empty()
            }),
            r.msg().length@ == be32_bytes(1 + r.msg().payload@.len() as int),
            r.framed(),
    {
        let mut payload: Vec<u8> = Vec::new();
        if length != 0 {
            let mut a = crate::util::u32_to_be(index as u32);
            payload.append(&mut a);
            let mut b = crate::util::u32_to_be(begin as u32);
            payload.append(&mut b);
            let mut c = crate::util::u32_to_be(length as u32);
            payload.append(&mut c);
        }
        let plen = payload.len();
        let lb = crate::util::u32_to_be(1 + plen as u32);
        let length_arr: [u8; 4] = [lb[0], lb[1], lb[2], lb[3]];
        proof {
            assert(length_arr@ =~= be32_bytes(1 + plen as int));
            lemma_be32_roundtrip(1 + plen as int);
        }
        let message = Message { length: length_arr, payload };
        match message_type {
            MessageType::Bitfield => PeerMessage::Bitfield(message),
            MessageType::Interested => PeerMessage::Interested(message),
            MessageType::Unchoke => PeerMessage::Unchoke(message),
            MessageType::Request => PeerMessage::Request(message),
            MessageType::Piece => PeerMessage::Piece(message),
        }
    }

    /// The wire bytes of this message.
    pub fn to_message(&self) -> (r: Vec<u8>)
        ensures
            r@ == self.wire(),
    {
        let (message, id): (&Message, u8) = match self {
            PeerMessage::Bitfield(m) => (m, 5),
            PeerMessage::Interested(m) => (m, 2),
            PeerMessage::Unchoke(m) => (m, 1),
            PeerMessage::Request(m) => (m, 6),
            PeerMessage::Piece(m) => (m, 7),
        };
        let mut v: Vec<u8> = Vec::new();
        v.push(message.length[0]);
        v.push(message.length[1]);
        v.push(message.length[2]);
        v.push(message.length[3]);
        v.push(id);
        let ghost mid = v@;
        let mut i: usize = 0;
        while i < message.payload.len()
            invariant
                i <= message.payload@.len(),
                v@ == mid + message.payload@.take(i as int),
            decreases message.payload.len() - i,
        {
            v.push(message.payload[i]);
            proof {
                assert(v@ =~= mid + message.payload@.take(i + 1));
            }
            i += 1;
        }
        proof {
            assert(message.payload@.take(message.payload@.len() as int) =~= message.payload@);
            assert(mid =~= message.length@ + seq![msg_id(self.kind())]);
            assert(v@ =~= self.wire());
        }
        v
    }
}

/// What a frame holds: its kind and its length prefix, or the error. The
/// frame must carry at least four prefix bytes, a prefix of at least one
/// (the id byte), all the bytes the prefix announces, and a known id.
pub open spec fn frame_check(s: Seq<u8>) -> Result<(MessageType, int), ProtocolError> {
    if s.len() < 4 {
        Err(ProtocolError::IncompleteFrame)
    } else {
        let l = be32_val(s.subrange(0, 4));
        if l < 1 || s.len() < 4 + l {
            Err(ProtocolError::IncompleteFrame)
        } else {
            match id_type(s[4]) {
                Some(t) => Ok((t, l)),
                None => Err(ProtocolError::UnknownMessageId),
            }
        }
    }
}

/// A source of one framed peer message.
pub trait ToPeerMessage {
    /// The frame bytes to read the message from.
    spec fn frame_of(&self) -> Seq<u8>;

    /// Read the message: its length-prefix bytes and its payload (the
    /// bytes after the id, as many as the prefix announces, less one).
    fn to_peer_message(&self) -> (r: Result<PeerMessage, ProtocolError>)
        ensures
            match r {
                Ok(pm) => frame_check(self.frame_of()) matches Ok((t, l)) && pm.kind() == t
                    && pm.msg().length@ == self.frame_of().subrange(0, 4) && pm.msg().payload@
                    == self.frame_of().subrange(5, 4 + l),
                Err(e) => frame_check(self.frame_of()) == Err::<(MessageType, int), _>(e),
            },
    ;
}

impl ToPeerMessage for Vec<u8> {
    open spec fn frame_of(&self) -> Seq<u8> {
        self@
    }

    fn to_peer_message(&self) -> (r: Result<PeerMessage, ProtocolError>) {
        if self.len() < 4 {
            return Err(ProtocolError::IncompleteFrame);
        }
        let l32 = crate::util::be_to_u32(self[0], self[1], self[2], self[3]);
        proof {
            assert(self@.subrange(0, 4) =~= seq![self@[0], self@[1], self@[2], self@[3]]);
        }
        let l = l32 as usize;
        if l < 1 {
            return Err(ProtocolError::IncompleteFrame);
        }
        if self.len() - 4 < l {
            return Err(ProtocolError::IncompleteFrame);
        }
        let id = self[4];
        let message_type = if id == 5 {
            MessageType::Bitfield
        } else if id == 2 {
            MessageType::Interested
        } else if id == 1 {
            MessageType::Unchoke
        } else if id == 6 {
            MessageType::Request
        } else if id == 7 {
            MessageType::Piece
        } else {
            return Err(ProtocolError::UnknownMessageId);
        };
        let length_arr: [u8; 4] = [self[0], self[1], self[2], self[3]];
        let mut payload: Vec<u8> = Vec::new();
        let mut i: usize = 5;
        while i - 4 < l
            invariant
                5 <= i,
                i - 4 <= l,
                4 + l <= self@.len(),
                self@.len() <= usize::MAX,
                payload@ == self@.subrange(5, i as int),
            decreases 4 + l - i,
        {
            payload.push(self[i]);
            proof {
                assert(payload@ =~= self@.subrange(5, i + 1));
            }
            i += 1;
        }
        proof {
            assert(length_arr@ =~= self@.subrange(0, 4));
        }
        let message = Message { length: length_arr, payload };
        match message_type {
            MessageType::Bitfield => Ok(PeerMessage::Bitfield(message)),
            MessageType::Interested => Ok(PeerMessage::Interested(message)),
            MessageType::Unchoke => Ok(PeerMessage::Unchoke(message)),
            MessageType::Request => Ok(PeerMessage::Request(message)),
            MessageType::Piece => Ok(PeerMessage::Piece(message)),
        }
    }
}

/// MESSAGE ROUND TRIP: reading back the wire bytes of any framed message
/// yields its kind, its length-prefix bytes, and its payload unchanged.
pub proof fn lemma_message_round_trip(m: PeerMessage)
    requires
        m.framed(),
    ensures
        frame_check(m.wire()) == Ok::<(MessageType, int), ProtocolError>((
            m.kind(),
            1 + m.msg().payload@.len() as int,
        )),
        m.wire().subrange(0, 4) == m.msg().length@,
        m.wire().subrange(5, 5 + m.msg().payload@.len() as int) == m.msg().payload@,
{
    let w = m.wire();
    let plen = m.msg().payload@.len() as int;
    assert(m.msg().length@.len() == 4);
    assert(w.subrange(0, 4) =~= m.msg().length@);
    assert(w.len() == 5 + plen);
    assert(be32_val(w.subrange(0, 4)) == 1 + plen);
    assert(w[4] == msg_id(m.kind()));
    assert(id_type(msg_id(m.kind())) == Some(m.kind()));
    assert(w.subrange(5, 5 + plen) =~= m.msg().payload@);
}

} // verus!
