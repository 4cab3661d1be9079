//! What a stored entry says about how it was stored.
use vstd::prelude::*;

use super::codec::{codec_id, codec_of_id, Codec};
use super::error::Error;
use crate::bytes::{be_bytes, be_value, lemma_be_value_of_bytes, push_u64, read_u64};

verus! {

/// The version of the frame format this build writes.
pub const FRAME_VERSION: u8 = 1;

/// How long the header every entry starts with is: the magic, three one-byte fields and a
/// length.
pub const HEADER_LEN: usize = 15;

/// The magic every frame header starts with: `RLST`.
pub open spec fn frame_magic() -> Seq<u8> {
    seq![82u8, 76u8, 83u8, 84u8]
}

/// How a payload is laid out behind its frame.
#[derive(Debug, Clone, Copy, PartialEq, Eq, Structural)]
pub enum Layout {
    /// The payload is the whole content, encoded.
    Single,
    /// The payload is a manifest, encoded.
    Chunked,
}

/// The number `layout` is written down by.
pub open spec fn layout_id(layout: Layout) -> u8 {
    match layout {
        Layout::Single => 0,
        Layout::Chunked => 1,
    }
}

/// The layout `number` writes down, if there is one.
pub open spec fn layout_of_id(number: u8) -> Option<Layout> {
    if number == 0 {
        Some(Layout::Single)
    } else if number == 1 {
        Some(Layout::Chunked)
    } else {
        None
    }
}

/// A layout read back from its number is the layout that was written.
pub proof fn lemma_layout_id_round_trip(layout: Layout)
    ensures
        layout_of_id(layout_id(layout)) == Some(layout),
{
}

impl Layout {
    /// The number this layout is written down by in a frame header.
    pub fn id(self) -> (number: u8)
        ensures
            number == layout_id(self),
    {
        match self {
            Layout::Single => 0,
            Layout::Chunked => 1,
        }
    }

    /// The layout written down by `number`, if this build knows one.
    pub fn from_id(number: u8) -> (layout: Option<Layout>)
        ensures
            layout == layout_of_id(number),
    {
        if number == 0 {
            Some(Layout::Single)
        } else if number == 1 {
            Some(Layout::Chunked)
        } else {
            None
        }
    }
}

/// What a stored entry says about how it was stored: the version of the format, the codec the
/// payload is encoded with, how it is laid out, and how long the content was before encoding.
///
/// It is stored as it is, never encoded itself, so a reader learns how to read the payload
/// without decoding anything first.
#[derive(Debug, Clone, Copy, PartialEq, Eq, Structural)]
pub struct Frame {
    /// The version of the frame format the entry was written in.
    pub version: u8,
    /// The codec the payload is encoded with.
    pub codec: Codec,
    /// How the payload is laid out.
    pub layout: Layout,
    /// The length, in bytes, of the content before it was encoded.
    pub plain_len: u64,
}

/// The header `frame` is written as.
pub open spec fn frame_header(frame: Frame) -> Seq<u8> {
    frame_magic() + seq![frame.version, codec_id(frame.codec), layout_id(frame.layout)]
        + be_bytes(frame.plain_len)
}

/// The frame `bytes` starts with, if it starts with a header this build understands.
pub open spec fn frame_of(bytes: Seq<u8>) -> Option<Frame> {
    if bytes.len() < 15 || bytes.subrange(0, 4) != frame_magic() || bytes[4] != 1u8 {
        None
    } else {
        match (codec_of_id(bytes[5]), layout_of_id(bytes[6])) {
            (Some(codec), Some(layout)) => Some(
                Frame {
                    version: bytes[4],
                    codec,
                    layout,
                    plain_len: be_value(bytes.subrange(7, 15)),
                },
            ),
            _ => None,
        }
    }
}

/// A header reads back as the frame it was written from, whatever follows it, when the frame
/// is of the version this build writes.
pub proof fn lemma_frame_round_trip(frame: Frame, payload: Seq<u8>)
    requires
        frame.version == FRAME_VERSION,
    ensures
        frame_header(frame).len() == HEADER_LEN,
        frame_of(frame_header(frame) + payload) == Some(frame),
{
    lemma_be_value_of_bytes(frame.plain_len);
    let all = frame_header(frame) + payload;
    assert(all.subrange(0, 4) =~= frame_magic());
    assert(all.subrange(7, 15) =~= be_bytes(frame.plain_len));
}

impl Frame {
    /// Writes this frame as the header that goes in front of a payload.
    pub fn encode(&self) -> (header: Vec<u8>)
        ensures
            header@ == frame_header(*self),
    {
        let mut header = Vec::new();
        header.push(82u8);
        header.push(76u8);
        header.push(83u8);
        header.push(84u8);
        header.push(self.version);
        header.push(self.codec.id());
        header.push(self.layout.id());
        push_u64(&mut header, self.plain_len);
        assert(header@ =~= frame_header(*self));
        header
    }

    /// Reads the header `bytes` starts with, and how many bytes of them it took.
    ///
    /// Returns `Error::Malformed` if `bytes` does not start with a header this build understands:
    /// the wrong magic, a version or a codec it does not know, or too few bytes to hold one.
    pub fn decode(bytes: &[u8]) -> (read: Result<(Frame, usize), Error>)
        ensures
            read matches Ok((frame, taken)) ==> frame_of(bytes@) == Some(frame) && taken
                == HEADER_LEN,
            read matches Err(error) ==> error is Malformed && frame_of(bytes@) is None,
    {
        if bytes.len() < HEADER_LEN {
            return Err(Error::Malformed);
        }
        if !(bytes[0] == 82u8 && bytes[1] == 76u8 && bytes[2] == 83u8 && bytes[3] == 84u8) {
            proof {
                if bytes@.subrange(0, 4) == frame_magic() {
                    assert(bytes@.subrange(0, 4)[0] == bytes@[0]);
                    assert(bytes@.subrange(0, 4)[1] == bytes@[1]);
                    assert(bytes@.subrange(0, 4)[2] == bytes@[2]);
                    assert(bytes@.subrange(0, 4)[3] == bytes@[3]);
                }
            }
            return Err(Error::Malformed);
        }
        assert(bytes@.subrange(0, 4) =~= frame_magic());
        let version = bytes[4];
        if version != FRAME_VERSION {
            return Err(Error::Malformed);
        }
        let codec = match Codec::from_id(bytes[5]) {
            Some(codec) => codec,
            None => {
                return Err(Error::Malformed);
            },
        };
        let layout = match Layout::from_id(bytes[6]) {
            Some(layout) => layout,
            None => {
                return Err(Error::Malformed);
            },
        };
        let plain_len = read_u64(bytes, 7);
        Ok((Frame { version, codec, layout, plain_len }, HEADER_LEN))
    }
}

} // verus!
