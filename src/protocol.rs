use crate::buffer::{
    buf_extend, buf_len, buf_split_to, buf_to_vec, buf_truncate, buf_with_capacity, buffered_bytes,
};
use crate::error::KvsError;
use crate::le_bytes::{le_bytes, le_value, lemma_le_bytes_len, lemma_le_round_trip, pow256, u64_from_le, u64_to_le};
use bytes::BytesMut;
use vstd::prelude::*;

verus! {

/// The largest payload that one message may carry.
pub const MAX_MESSAGE_SIZE: u64 = 4096;

/// A request from a client.
#[derive(Debug, Clone, PartialEq, Eq)]
pub enum Request {
    Get { key: String },
    Put { key: String, value: String },
    Remove { key: String },
}

/// The server's answer: the value read, if any, or the message of an error.
#[derive(Debug, Clone, PartialEq, Eq)]
pub enum Response {
    Success(Option<String>),
    Failure(String),
}

/// The four bytes that open every message.
pub open spec fn start_code() -> Seq<u8> {
    seq![0x4bu8, 0x56u8, 0x53u8, 0x21u8]
}

/// The bytes of a message: the start code, the payload's length as eight
/// little-endian bytes, then the payload.
pub open spec fn message_frame(payload: Seq<u8>) -> Seq<u8> {
    start_code() + le_bytes(payload.len(), 8) + payload
}

pub open spec fn code_at(buf: Seq<u8>, i: int) -> bool {
    0 <= i && i + 4 <= buf.len() && buf.subrange(i, i + 4) == start_code()
}

/// The first place at or after `i` where the start code begins.
pub open spec fn first_code_from(buf: Seq<u8>, i: int) -> Option<int>
    decreases buf.len() - i,
{
    if i < 0 || i + 4 > buf.len() {
        None
    } else if code_at(buf, i) {
        Some(i)
    } else {
        first_code_from(buf, i + 1)
    }
}

/// The start code's bytes.
pub fn start_code_bytes() -> (r: Vec<u8>)
    ensures
        r@ == start_code(),
{
    let r: Vec<u8> = vec![0x4bu8, 0x56u8, 0x53u8, 0x21u8];
    assert(r@ =~= start_code());
    r
}

/// Where the start code first begins in `buf`.
pub fn find_start_code(buf: &Vec<u8>) -> (r: Option<usize>)
    ensures
        match r {
            Some(i) => first_code_from(buf@, 0) == Some(i as int) && i + 4 <= buf@.len(),
            None => first_code_from(buf@, 0) is None,
        },
{
    let n = buf.len();
    let mut i: usize = 0;
    while n >= 4 && i <= n - 4
        invariant
            n == buf@.len(),
            first_code_from(buf@, 0) == first_code_from(buf@, i as int),
        decreases n - i,
    {
        let found = buf[i] == 0x4bu8 && buf[i + 1] == 0x56u8 && buf[i + 2] == 0x53u8 && buf[i + 3]
            == 0x21u8;
        proof {
            let w = buf@.subrange(i as int, i + 4);
            assert(w[0] == buf@[i as int] && w[1] == buf@[i + 1] && w[2] == buf@[i + 2] && w[3]
                == buf@[i + 3]);
            if found {
                assert(w =~= start_code());
            } else {
                assert(w != start_code());
            }
        }
        if found {
            return Some(i);
        }
        i = i + 1;
    }
    None
}

/// Frames payloads as messages.
pub struct KvsEncoder {
    buffer: BytesMut,
}

impl KvsEncoder {
    pub closed spec fn wf(&self) -> bool {
        buffered_bytes(self.buffer).len() >= 4 && buffered_bytes(self.buffer).subrange(0, 4)
            == start_code()
    }

    pub fn new(capacity: usize) -> (r: KvsEncoder)
        ensures
            r.wf(),
    {
        let mut buffer = buf_with_capacity(capacity);
        let code = start_code_bytes();
        buf_extend(&mut buffer, code.as_slice());
        let r = KvsEncoder { buffer };
        assert(buffered_bytes(r.buffer).subrange(0, 4) =~= start_code());
        r
    }

    /// The message that carries `payload`; a payload longer than
    /// `MAX_MESSAGE_SIZE` is refused.
    pub fn encode(&mut self, payload: &Vec<u8>) -> (r: Result<Vec<u8>, KvsError>)
        requires
            old(self).wf(),
        ensures
            final(self).wf(),
            match r {
                Ok(m) => payload@.len() <= MAX_MESSAGE_SIZE && m@ == message_frame(payload@),
                Err(e) => payload@.len() > MAX_MESSAGE_SIZE && e is Serialization,
            },
    {
        if payload.len() as u64 > MAX_MESSAGE_SIZE {
            return Err(KvsError::Serialization(String::from_str("message exceeds the largest size")));
        }
        buf_truncate(&mut self.buffer, 4);
        let ghost head = buffered_bytes(self.buffer);
        assert(head =~= start_code());
        let len = u64_to_le(payload.len() as u64);
        buf_extend(&mut self.buffer, len.as_slice());
        buf_extend(&mut self.buffer, payload.as_slice());
        let m = buf_to_vec(&self.buffer);
        proof {
            assert(buffered_bytes(self.buffer).subrange(0, 4) =~= start_code());
        }
        Ok(m)
    }
}

/// Gathers bytes from a connection and cuts them into message payloads.
pub struct KvsDecoder {
    buffer: BytesMut,
    pending: Option<u64>,
}

impl KvsDecoder {
    /// The bytes received and not yet consumed.
    pub closed spec fn buffered(&self) -> Seq<u8> {
        buffered_bytes(self.buffer)
    }

    /// The length of the payload whose header was read and whose bytes are
    /// awaited.
    pub closed spec fn awaited(&self) -> Option<u64> {
        self.pending
    }

    pub fn new(capacity: usize) -> (r: KvsDecoder)
        ensures
            r.buffered() == Seq::<u8>::empty(),
            r.awaited() is None,
    {
        KvsDecoder { buffer: buf_with_capacity(capacity), pending: None }
    }

    /// Adds bytes received from the connection.
    pub fn append(&mut self, data: &[u8])
        ensures
            final(self).buffered() == old(self).buffered() + data@,
            final(self).awaited() == old(self).awaited(),
    {
        buf_extend(&mut self.buffer, data);
    }

    /// The next payload, once all of its bytes have come. Bytes before the
    /// start code are dropped; when no start code is found, all but the last
    /// three bytes are dropped, since they may begin one. A header that
    /// announces more than `MAX_MESSAGE_SIZE` bytes is rejected.
    pub fn decode(&mut self) -> (r: Option<Result<Vec<u8>, KvsError>>)
        ensures
            ({
                let b = old(self).buffered();
                match old(self).awaited() {
                    Some(n) => if b.len() >= n {
                        &&& r matches Some(Ok(p)) && p@ == b.subrange(0, n as int)
                        &&& final(self).buffered() == b.subrange(n as int, b.len() as int)
                        &&& final(self).awaited() is None
                    } else {
                        r is None && final(self).buffered() == b && final(self).awaited() == Some(n)
                    },
                    None => match first_code_from(b, 0) {
                        None => {
                            &&& r is None
                            &&& final(self).awaited() is None
                            &&& final(self).buffered() == if b.len() > 3 {
                                b.subrange(b.len() - 3, b.len() as int)
                            } else {
                                b
                            }
                        },
                        Some(i) => if b.len() < i + 12 {
                            &&& r is None
                            &&& final(self).awaited() is None
                            &&& final(self).buffered() == b.subrange(i, b.len() as int)
                        } else {
                            let n = le_value(b.subrange(i + 4, i + 12));
                            let rest = b.subrange(i + 12, b.len() as int);
                            if n > MAX_MESSAGE_SIZE {
                                &&& r matches Some(Err(e)) && e is Serialization
                                &&& final(self).awaited() is None
                                &&& final(self).buffered() == rest
                            } else if rest.len() >= n {
                                &&& r matches Some(Ok(p)) && p@ == rest.subrange(0, n as int)
                                &&& final(self).buffered() == rest.subrange(n as int, rest.len() as int)
                                &&& final(self).awaited() is None
                            } else {
                                &&& r is None
                                &&& final(self).buffered() == rest
                                &&& final(self).awaited() == Some(n as u64)
                            }
                        },
                    },
                }
            }),
    {
        if self.pending.is_none() {
            let data = buf_to_vec(&self.buffer);
            match find_start_code(&data) {
                None => {
                    if data.len() > 3 {
                        let _ = buf_split_to(&mut self.buffer, data.len() - 3);
                    }
                    return None;
                },
                Some(i) => {
                    if data.len() - i < 12 {
                        let _ = buf_split_to(&mut self.buffer, i);
                        return None;
                    }
                    let n = u64_from_le(data.as_slice(), i + 4);
                    let _ = buf_split_to(&mut self.buffer, i + 12);
                    proof {
                        let b = data@;
                        assert(buffered_bytes(self.buffer) =~= b.subrange(i + 12, b.len() as int));
                    }
                    if n > MAX_MESSAGE_SIZE {
                        return Some(Err(KvsError::Serialization(String::from_str("message exceeds the largest size"))));
                    }
                    self.pending = Some(n);
                },
            }
        }
        let n = self.pending.unwrap();
        let len = buf_len(&self.buffer);
        if len as u64 >= n {
            let payload = buf_split_to(&mut self.buffer, n as usize);
            self.pending = None;
            Some(Ok(payload))
        } else {
            None
        }
    }
}

/// A message that carries a payload within the limit starts with the start
/// code and announces the payload's length; after the header comes the
/// payload itself. So a decoder that receives a whole message returns its
/// payload.
pub proof fn lemma_message_decodes(payload: Seq<u8>)
    requires
        payload.len() <= MAX_MESSAGE_SIZE,
    ensures
        first_code_from(message_frame(payload), 0) == Some(0int),
        message_frame(payload).len() == payload.len() + 12,
        le_value(message_frame(payload).subrange(4, 12)) == payload.len(),
        message_frame(payload).subrange(12, message_frame(payload).len() as int) == payload,
{
    let f = message_frame(payload);
    assert(pow256(8) == 0x1_0000_0000_0000_0000) by {
        reveal_with_fuel(pow256, 9);
    }
    lemma_le_round_trip(payload.len(), 8);
    assert(f.subrange(0, 4) =~= start_code());
    assert(f.subrange(4, 12) =~= le_bytes(payload.len(), 8));
    assert(f.subrange(12, f.len() as int) =~= payload);
}

} // verus!
