//! Fixed-size frames: a message travels as exactly `FRAME_SIZE` bytes, right
//! padded with zero bytes; on receipt its payload is everything before the
//! first zero byte.

use vstd::prelude::*;
use vstd::utf8::{decode_utf8, encode_utf8, valid_utf8};

verus! {

/// Number of bytes of every frame on the wire.
pub const FRAME_SIZE: usize = 32;

/// The frame carrying `text`: its first `FRAME_SIZE` bytes, then zero bytes
/// up to `FRAME_SIZE`.
pub open spec fn frame_of(text: Seq<u8>) -> Seq<u8> {
    Seq::new(FRAME_SIZE as nat, |i: int| if i < text.len() { text[i] } else { 0u8 })
}

/// The payload of a frame: the bytes before its first zero byte (all of
/// them when it holds none).
pub open spec fn payload_of(frame: Seq<u8>) -> Seq<u8>
    decreases frame.len(),
{
    if frame.len() == 0 || frame[0] == 0 {
        Seq::empty()
    } else {
        seq![frame[0]] + payload_of(frame.drop_first())
    }
}

/// `k` is where the text of `frame` ends: no zero byte before it, and a zero
/// byte or the end of the frame at it.
pub open spec fn is_text_end(frame: Seq<u8>, k: int) -> bool {
    &&& 0 <= k <= frame.len()
    &&& forall|i: int| 0 <= i < k ==> frame[i] != 0
    &&& k < frame.len() ==> frame[k] == 0
}

/// `text` holds no zero byte.
pub open spec fn has_no_zero(text: Seq<u8>) -> bool {
    forall|i: int| 0 <= i < text.len() ==> text[i] != 0
}

/// The payload is the prefix of the frame that ends where its text ends.
pub proof fn lemma_payload_is_prefix(frame: Seq<u8>)
    ensures
        is_text_end(frame, payload_of(frame).len() as int),
        payload_of(frame) == frame.take(payload_of(frame).len() as int),
    decreases frame.len(),
{
    if frame.len() == 0 || frame[0] == 0 {
        assert(frame.take(0) =~= Seq::<u8>::empty());
    } else {
        let rest = frame.drop_first();
        lemma_payload_is_prefix(rest);
        let k = payload_of(rest).len() as int;
        assert forall|i: int| 0 <= i < k + 1 implies frame[i] != 0 by {
            if i > 0 {
                assert(frame[i] == rest[i - 1]);
            }
        }
        if k + 1 < frame.len() {
            assert(frame[k + 1] == rest[k]);
        }
        assert(payload_of(frame) =~= frame.take(k + 1));
    }
}

/// A frame has exactly one text end.
pub proof fn lemma_text_end_unique(frame: Seq<u8>, k: int)
    requires
        is_text_end(frame, k),
    ensures
        payload_of(frame) == frame.take(k),
{
    lemma_payload_is_prefix(frame);
    let j = payload_of(frame).len() as int;
    if j < k {
        assert(frame[j] != 0);
    } else if k < j {
        assert(frame[k] != 0);
    }
}

/// Decoding the frame of a text that is shorter than a frame and holds no
/// zero byte gives back that text.
pub proof fn lemma_text_round_trip(text: Seq<u8>)
    requires
        text.len() < FRAME_SIZE,
        has_no_zero(text),
    ensures
        payload_of(frame_of(text)) == text,
{
    let f = frame_of(text);
    assert(is_text_end(f, text.len() as int));
    lemma_text_end_unique(f, text.len() as int);
    assert(f.take(text.len() as int) =~= text);
}

/// Encoding the payload of a well-formed frame (one whose bytes after its
/// text are all zero) gives back that frame.
pub proof fn lemma_frame_round_trip(frame: Seq<u8>)
    requires
        frame.len() == FRAME_SIZE,
        forall|i: int| payload_of(frame).len() <= i < frame.len() ==> frame[i] == 0,
    ensures
        frame_of(payload_of(frame)) == frame,
{
    lemma_payload_is_prefix(frame);
    assert(frame_of(payload_of(frame)) =~= frame);
}

/// The frame that carries `text`.
pub fn encode_frame(text: &[u8]) -> (frame: Vec<u8>)
    ensures
        frame@ == frame_of(text@),
{
    let mut frame: Vec<u8> = Vec::new();
    let mut i: usize = 0;
    while i < FRAME_SIZE
        invariant
            i <= FRAME_SIZE,
            frame@ =~= frame_of(text@).take(i as int),
        decreases FRAME_SIZE - i,
    {
        if i < text.len() {
            frame.push(text[i]);
        } else {
            frame.push(0u8);
        }
        i = i + 1;
    }
    assert(frame@ =~= frame_of(text@));
    frame
}

/// The payload that `frame` carries.
pub fn decode_frame(frame: &[u8]) -> (text: Vec<u8>)
    ensures
        text@ == payload_of(frame@),
{
    let mut text: Vec<u8> = Vec::new();
    let mut i: usize = 0;
    while i < frame.len() && frame[i] != 0
        invariant
            i <= frame@.len(),
            text@ =~= frame@.take(i as int),
            forall|j: int| 0 <= j < i ==> frame@[j] != 0,
        decreases frame@.len() - i,
    {
        text.push(frame[i]);
        i = i + 1;
    }
    proof {
        lemma_text_end_unique(frame@, i as int);
    }
    text
}

/// Relies on `String::from_utf8`: `Ok` exactly when the bytes are valid
/// UTF-8, holding the characters they encode.
#[verifier::external_body]
fn text_from_bytes(bytes: Vec<u8>) -> (text: Option<String>)
    ensures
        text is Some <==> valid_utf8(bytes@),
        text is Some ==> text->0@ == decode_utf8(bytes@),
{
    String::from_utf8(bytes).ok()
}

/// The frame that carries the UTF-8 bytes of `message`.
pub fn encode_message(message: &String) -> (frame: Vec<u8>)
    ensures
        frame@ == frame_of(encode_utf8(message@)),
{
    encode_frame(message.as_str().as_bytes())
}

/// The message that `frame` carries, or `None` when its payload is not
/// valid UTF-8.
pub fn decode_message(frame: &[u8]) -> (message: Option<String>)
    ensures
        message is Some <==> valid_utf8(payload_of(frame@)),
        message is Some ==> message->0@ == decode_utf8(payload_of(frame@)),
{
    text_from_bytes(decode_frame(frame))
}

/// A message whose UTF-8 form is shorter than a frame and holds no zero
/// byte comes out of its frame unchanged.
pub proof fn lemma_message_round_trip(message: Seq<char>)
    requires
        encode_utf8(message).len() < FRAME_SIZE,
        has_no_zero(encode_utf8(message)),
    ensures
        valid_utf8(payload_of(frame_of(encode_utf8(message)))),
        decode_utf8(payload_of(frame_of(encode_utf8(message)))) == message,
{
    broadcast use vstd::utf8::encode_utf8_valid_utf8, vstd::utf8::encode_utf8_decode_utf8;

    lemma_text_round_trip(encode_utf8(message));
}

} // verus!
