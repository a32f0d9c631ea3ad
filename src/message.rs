//! The message envelope that every frame carries.
use crate::codec::{
    bytes_field, decode_bytes, decode_u32, encode_bytes, encode_varint, lemma_bytes_at,
    lemma_u32_at, parse_bytes_at, parse_u32_at, varint, CodecError,
};
use vstd::prelude::*;

verus! {

/// What a message is in the conversation between client and daemon.
#[derive(Debug, Clone, Copy, PartialEq, Eq, Structural)]
pub enum MessageType {
    Request,
    Response,
    Event,
}

/// The tag that stands for `kind` on the wire.
pub open spec fn kind_tag(kind: MessageType) -> u32 {
    match kind {
        MessageType::Request => 0,
        MessageType::Response => 1,
        MessageType::Event => 2,
    }
}

/// The kind that a wire tag stands for, if any.
pub open spec fn kind_of_tag(tag: u32) -> Option<MessageType> {
    if tag == 0 {
        Some(MessageType::Request)
    } else if tag == 1 {
        Some(MessageType::Response)
    } else if tag == 2 {
        Some(MessageType::Event)
    } else {
        None
    }
}

/// The envelope: which service and object a message is for, what kind of
/// message it is, and its encoded payload.
#[derive(Debug, Clone)]
pub struct BaseMessage {
    pub service: u32,
    pub object: u32,
    pub kind: MessageType,
    pub content: Vec<u8>,
}

/// The value an envelope stands for.
pub struct MessageView {
    pub service: u32,
    pub object: u32,
    pub kind: MessageType,
    pub content: Seq<u8>,
}

impl View for BaseMessage {
    type V = MessageView;

    open spec fn view(&self) -> MessageView {
        MessageView {
            service: self.service,
            object: self.object,
            kind: self.kind,
            content: self.content@,
        }
    }
}

/// The encoding of an envelope: service, object, kind tag, then the
/// payload with its length.
pub open spec fn message_bytes(m: MessageView) -> Seq<u8> {
    varint(m.service as u64) + varint(m.object as u64) + varint(kind_tag(m.kind) as u64)
        + bytes_field(m.content)
}

/// Reading an envelope that spans all of `s`.
pub open spec fn parse_message(s: Seq<u8>) -> Result<MessageView, CodecError> {
    match parse_u32_at(s, 0) {
        Err(e) => Err(e),
        Ok((service, p1)) => match parse_u32_at(s, p1) {
            Err(e) => Err(e),
            Ok((object, p2)) => match parse_u32_at(s, p2) {
                Err(e) => Err(e),
                Ok((tag, p3)) => match kind_of_tag(tag) {
                    None => Err(CodecError::InvalidTag),
                    Some(kind) => match parse_bytes_at(s, p3) {
                        Err(e) => Err(e),
                        Ok((content, p4)) => if p4 == s.len() {
                            Ok(MessageView { service, object, kind, content })
                        } else {
                            Err(CodecError::TrailingBytes)
                        },
                    },
                },
            },
        },
    }
}

/// Decoding an encoded envelope gives the envelope back.
pub proof fn lemma_message_round_trip(m: MessageView)
    requires
        m.content.len() <= u64::MAX,
    ensures
        parse_message(message_bytes(m)) == Ok::<MessageView, CodecError>(m),
{
    let a = varint(m.service as u64);
    let b = varint(m.object as u64);
    let c = varint(kind_tag(m.kind) as u64);
    let d = bytes_field(m.content);
    let s = message_bytes(m);
    let e = Seq::<u8>::empty();
    assert(s =~= e + a + (b + c + d));
    lemma_u32_at(e, m.service, b + c + d);
    assert(s =~= a + b + (c + d));
    lemma_u32_at(a, m.object, c + d);
    assert(s =~= (a + b) + c + d);
    lemma_u32_at(a + b, kind_tag(m.kind), d);
    assert(s =~= (a + b + c) + d + e);
    lemma_bytes_at(a + b + c, m.content, e);
}

/// Encodes an envelope.
pub fn encode_message(m: &BaseMessage) -> (r: Vec<u8>)
    ensures
        r@ == message_bytes(m@),
{
    let mut out: Vec<u8> = Vec::new();
    encode_varint(m.service as u64, &mut out);
    encode_varint(m.object as u64, &mut out);
    let tag: u32 = match m.kind {
        MessageType::Request => 0,
        MessageType::Response => 1,
        MessageType::Event => 2,
    };
    encode_varint(tag as u64, &mut out);
    encode_bytes(m.content.as_slice(), &mut out);
    proof {
        assert(out@ =~= message_bytes(m@));
    }
    out
}

/// Decodes an envelope that spans all of `bytes`.
pub fn decode_message(bytes: &[u8]) -> (r: Result<BaseMessage, CodecError>)
    ensures
        match parse_message(bytes@) {
            Ok(v) => r matches Ok(m) && m@ == v,
            Err(e) => r matches Err(f) && f == e,
        },
{
    let (service, p1) = match decode_u32(bytes, 0) {
        Ok(x) => x,
        Err(e) => return Err(e),
    };
    let (object, p2) = match decode_u32(bytes, p1) {
        Ok(x) => x,
        Err(e) => return Err(e),
    };
    let (tag, p3) = match decode_u32(bytes, p2) {
        Ok(x) => x,
        Err(e) => return Err(e),
    };
    let kind = if tag == 0 {
        MessageType::Request
    } else if tag == 1 {
        MessageType::Response
    } else if tag == 2 {
        MessageType::Event
    } else {
        return Err(CodecError::InvalidTag);
    };
    let (content, p4) = match decode_bytes(bytes, p3) {
        Ok(x) => x,
        Err(e) => return Err(e),
    };
    if p4 != bytes.len() {
        return Err(CodecError::TrailingBytes);
    }
    Ok(BaseMessage { service, object, kind, content })
}

} // verus!
