//! The frame codec: one logical message to and from its wire form.
//!
//! A frame is a 4-digit zero-padded decimal peer id, a payload chunk of at
//! most 1024 bytes, and a one-byte continuation flag (`'1'` when further
//! chunks of the same logical payload follow, `'0'` on the last frame).

use vstd::prelude::*;
use crate::decimal::{all_digits, dec_value, digit_byte, digit_val, is_digit, pow10};

verus! {

/// One decoded frame: the addressed peer, the payload chunk it carries, and
/// whether further frames of the same logical message follow.
#[derive(Debug, Clone)]
pub struct Message {
    pub peer: usize,
    pub content: Vec<u8>,
    pub has_more: bool,
}

/// The mathematical value of a `Message`.
pub ghost struct MessageModel {
    pub peer: int,
    pub content: Seq<u8>,
    pub has_more: bool,
}

impl View for Message {
    type V = MessageModel;

    open spec fn view(&self) -> MessageModel {
        MessageModel { peer: self.peer as int, content: self.content@, has_more: self.has_more }
    }
}

/// Why a byte string is not a frame.
#[derive(Debug, PartialEq, Eq, Structural)]
pub enum ParseError {
    /// Fewer than 4 bytes: the peer field is incomplete.
    PeerLessThanFour,
    /// The peer field is not 4 ASCII decimal digits.
    PeerNotUsize,
    /// Nothing follows the peer field.
    NoContent,
    /// The last byte is neither `'0'` nor `'1'`.
    NoEnding,
}

/// The 4-digit zero-padded decimal form of a peer id in `[0, 9999]`.
pub open spec fn peer_field(peer: int) -> Seq<u8> {
    seq![
        digit_byte(peer / 1000 % 10),
        digit_byte(peer / 100 % 10),
        digit_byte(peer / 10 % 10),
        digit_byte(peer % 10),
    ]
}

/// The wire bytes of one frame.
pub open spec fn frame_bytes(peer: int, chunk: Seq<u8>, has_more: bool) -> Seq<u8> {
    peer_field(peer) + chunk + seq![if has_more { 49u8 } else { 48u8 }]
}

/// The part of `payload` that one frame carries: all of it, or the first
/// 1024 bytes.
pub open spec fn chunk_of(payload: Seq<u8>) -> Seq<u8> {
    if payload.len() <= 1024 {
        payload
    } else {
        payload.take(1024)
    }
}

/// The frames that encode `payload` addressed to `peer`: chunks of at most
/// 1024 bytes in order, every frame but the last flagged as continued.
pub open spec fn encode_frames(peer: int, payload: Seq<u8>) -> Seq<Seq<u8>>
    decreases payload.len(),
{
    if payload.len() <= 1024 {
        seq![frame_bytes(peer, payload, false)]
    } else {
        seq![frame_bytes(peer, payload.take(1024), true)] + encode_frames(peer, payload.skip(1024))
    }
}

/// What `decode` makes of a byte string.
pub open spec fn parse_spec(input: Seq<u8>) -> Result<MessageModel, ParseError> {
    if input.len() < 4 {
        Err(ParseError::PeerLessThanFour)
    } else if !all_digits(input.take(4)) {
        Err(ParseError::PeerNotUsize)
    } else if input.len() == 4 {
        Err(ParseError::NoContent)
    } else if input.last() != 48u8 && input.last() != 49u8 {
        Err(ParseError::NoEnding)
    } else {
        Ok(MessageModel {
            peer: dec_value(input.take(4)),
            content: input.subrange(4, input.len() - 1),
            has_more: input.last() == 49u8,
        })
    }
}

impl Message {
    /// A frame assembled from its parts.
    pub fn new(peer: usize, content: Vec<u8>, has_more: bool) -> (r: Self)
        ensures
            r@ == (MessageModel { peer: peer as int, content: content@, has_more }),
    {
        Message { peer, content, has_more }
    }

    /// Decodes one frame, exactly as `parse_spec` says: the first 4 bytes
    /// must be decimal digits naming the peer, at least one byte must follow
    /// them, and the last byte is the continuation flag, stripped from the
    /// payload.
    pub fn parse(input: &Vec<u8>) -> (r: Result<Self, ParseError>)
        ensures
            r is Ok <==> parse_spec(input@) is Ok,
            r matches Ok(m) ==> parse_spec(input@) matches Ok(mm) && m@ == mm,
            r matches Err(e) ==> parse_spec(input@) matches Err(ee) && e == ee,
    {
        if input.len() < 4 {
            return Err(ParseError::PeerLessThanFour);
        }
        let mut peer: usize = 0;
        let mut i: usize = 0;
        while i < 4
            invariant
                0 <= i <= 4,
                input@.len() >= 4,
                all_digits(input@.take(i as int)),
                peer == dec_value(input@.take(i as int)),
                peer < pow10(i as nat),
            decreases 4 - i,
        {
            let b = input[i];
            if b < 48 || b > 57 {
                proof {
                    assert(input@.take(4)[i as int] == b);
                }
                return Err(ParseError::PeerNotUsize);
            }
            proof {
                assert(input@.take(i + 1).drop_last() =~= input@.take(i as int));
                assert(input@.take(i + 1).last() == b);
                assert(pow10(0) == 1);
                assert(pow10(1) == 10);
                assert(pow10(2) == 100);
                assert(pow10(3) == 1000);
                assert(peer < 1000);
            }
            peer = peer * 10 + (b - 48) as usize;
            i = i + 1;
        }
        if input.len() == 4 {
            return Err(ParseError::NoContent);
        }
        let last = input[input.len() - 1];
        if last != 48 && last != 49 {
            return Err(ParseError::NoEnding);
        }
        let mut content: Vec<u8> = Vec::new();
        let mut j: usize = 4;
        let end = input.len() - 1;
        while j < end
            invariant
                4 <= j <= end,
                end == input@.len() - 1,
                input@.len() >= 5,
                content@ == input@.subrange(4, j as int),
            decreases end - j,
        {
            content.push(input[j]);
            proof {
                assert(content@ =~= input@.subrange(4, j + 1));
            }
            j = j + 1;
        }
        Ok(Message { peer, content, has_more: last == 49 })
    }

    /// One frame of `content` addressed to `peer`: the 4-digit peer field,
    /// the first chunk of at most 1024 bytes, and the continuation flag.
    /// Also says whether bytes beyond the first chunk remain.
    pub fn encode_inner(peer: usize, content: &Vec<u8>) -> (r: (Vec<u8>, bool))
        requires
            peer <= 9999,
        ensures
            r.0@ == frame_bytes(peer as int, chunk_of(content@), content@.len() > 1024),
            r.1 == (content@.len() > 1024),
    {
        let mut out: Vec<u8> = Vec::new();
        out.push((48 + peer / 1000 % 10) as u8);
        out.push((48 + peer / 100 % 10) as u8);
        out.push((48 + peer / 10 % 10) as u8);
        out.push((48 + peer % 10) as u8);
        proof {
            assert(out@ =~= peer_field(peer as int));
        }
        let limit = if content.len() > 1024 {
            1024
        } else {
            content.len()
        };
        let mut k: usize = 0;
        while k < limit
            invariant
                0 <= k <= limit,
                limit <= content@.len(),
                out@ == peer_field(peer as int) + content@.subrange(0, k as int),
            decreases limit - k,
        {
            out.push(content[k]);
            proof {
                assert(out@ =~= peer_field(peer as int) + content@.subrange(0, k + 1));
            }
            k = k + 1;
        }
        let has_more = content.len() > 1024;
        out.push(if has_more { 49 } else { 48 });
        proof {
            assert(content@.subrange(0, limit as int) =~= chunk_of(content@));
            assert(out@ =~= frame_bytes(peer as int, chunk_of(content@), has_more));
        }
        (out, has_more)
    }

    /// All the frames that carry `content` to `peer`, in order. Always at
    /// least one frame, even for an empty payload.
    pub fn encode(peer: usize, content: &Vec<u8>) -> (r: Vec<Vec<u8>>)
        requires
            peer <= 9999,
        ensures
            r.deep_view() == encode_frames(peer as int, content@),
    {
        let mut res: Vec<Vec<u8>> = Vec::new();
        let (part, first_more) = Self::encode_inner(peer, content);
        res.push(part);
        let mut has_more = first_more;
        let mut rest = tail_from(content, 1024);
        proof {
            lemma_deep_view_push(Seq::<Vec<u8>>::empty(), res@);
            assert(res.deep_view() =~= seq![
                frame_bytes(peer as int, chunk_of(content@), first_more),
            ]);
        }
        while has_more
            invariant
                peer <= 9999,
                has_more ==> rest@.len() > 0,
                res.deep_view() + (if has_more {
                    encode_frames(peer as int, rest@)
                } else {
                    Seq::<Seq<u8>>::empty()
                }) == encode_frames(peer as int, content@),
            decreases rest@.len(),
        {
            let (part, more_inner) = Self::encode_inner(peer, &rest);
            let ghost prev = res@;
            res.push(part);
            proof {
                lemma_deep_view_push(prev, res@);
            }
            let new_rest = tail_from(&rest, 1024);
            proof {
                if more_inner {
                    assert(encode_frames(peer as int, rest@) == seq![
                        frame_bytes(peer as int, chunk_of(rest@), true),
                    ] + encode_frames(peer as int, new_rest@));
                } else {
                    assert(encode_frames(peer as int, rest@) =~= seq![
                        frame_bytes(peer as int, chunk_of(rest@), false),
                    ]);
                }
                assert(res.deep_view() + (if more_inner {
                    encode_frames(peer as int, new_rest@)
                } else {
                    Seq::<Seq<u8>>::empty()
                }) =~= encode_frames(peer as int, content@));
            }
            rest = new_rest;
            has_more = more_inner;
        }
        res
    }
}

/// A copy of `v` from index `n` on; empty when `v` is no longer than `n`.
fn tail_from(v: &Vec<u8>, n: usize) -> (r: Vec<u8>)
    ensures
        r@ == if v@.len() <= n {
            Seq::<u8>::empty()
        } else {
            v@.skip(n as int)
        },
{
    let mut r: Vec<u8> = Vec::new();
    if v.len() <= n {
        return r;
    }
    let mut k: usize = n;
    while k < v.len()
        invariant
            n <= k <= v@.len(),
            r@ == v@.subrange(n as int, k as int),
        decreases v@.len() - k,
    {
        r.push(v[k]);
        proof {
            assert(r@ =~= v@.subrange(n as int, k + 1));
        }
        k = k + 1;
    }
    proof {
        assert(r@ =~= v@.skip(n as int));
    }
    r
}

/// The payload reassembled from a run of frames: the concatenation of the
/// payload chunk each frame carries, in order. Meaningful only when every
/// frame parses.
pub open spec fn reassembled_payload(frames: Seq<Seq<u8>>) -> Seq<u8>
    decreases frames.len(),
{
    if frames.len() == 0 {
        Seq::<u8>::empty()
    } else {
        (match parse_spec(frames.first()) {
            Ok(m) => m.content,
            Err(_) => Seq::<u8>::empty(),
        }) + reassembled_payload(frames.drop_first())
    }
}

/// The 4-digit peer field of an id in `[0, 9999]` is all digits and reads
/// back as the same id.
pub proof fn lemma_peer_field_value(peer: int)
    requires
        0 <= peer <= 9999,
    ensures
        all_digits(peer_field(peer)),
        peer_field(peer).len() == 4,
        dec_value(peer_field(peer)) == peer,
{
    let s = peer_field(peer);
    let d0 = peer / 1000 % 10;
    let d1 = peer / 100 % 10;
    let d2 = peer / 10 % 10;
    let d3 = peer % 10;
    assert(0 <= peer / 1000 % 10 <= 9);
    assert(0 <= peer / 100 % 10 <= 9);
    assert(0 <= peer / 10 % 10 <= 9);
    assert(0 <= peer % 10 <= 9);
    assert forall|i: int| 0 <= i < s.len() implies is_digit(s[i]) by {
        assert(s[0] == digit_byte(d0) && s[1] == digit_byte(d1) && s[2] == digit_byte(d2)
            && s[3] == digit_byte(d3));
    }
    let s3 = seq![digit_byte(d0), digit_byte(d1), digit_byte(d2)];
    let s2 = seq![digit_byte(d0), digit_byte(d1)];
    let s1 = seq![digit_byte(d0)];
    assert(s.drop_last() =~= s3);
    assert(s3.drop_last() =~= s2);
    assert(s2.drop_last() =~= s1);
    assert(s1.drop_last() =~= Seq::<u8>::empty());
    assert(dec_value(Seq::<u8>::empty()) == 0);
    assert(digit_byte(d0) == (48 + d0) as u8);
    assert(48 <= digit_byte(d0) <= 57);
    assert(digit_val(digit_byte(d0)) == d0);
    assert(digit_val(digit_byte(d1)) == d1);
    assert(digit_val(digit_byte(d2)) == d2);
    assert(digit_val(digit_byte(d3)) == d3);
    assert(s1.last() == digit_byte(d0));
    assert(dec_value(s1) == dec_value(s1.drop_last()) * 10 + digit_val(s1.last()));
    assert(dec_value(s1) == d0);
    assert(dec_value(s2) == d0 * 10 + d1);
    assert(dec_value(s3) == (d0 * 10 + d1) * 10 + d2);
    assert(dec_value(s) == ((d0 * 10 + d1) * 10 + d2) * 10 + d3);
    assert(((d0 * 10 + d1) * 10 + d2) * 10 + d3 == peer) by (nonlinear_arith)
        requires
            0 <= peer <= 9999,
            d0 == peer / 1000 % 10,
            d1 == peer / 100 % 10,
            d2 == peer / 10 % 10,
            d3 == peer % 10;
}

/// Decoding a frame built from its parts gives back exactly those parts.
pub proof fn lemma_frame_parse(peer: int, chunk: Seq<u8>, has_more: bool)
    requires
        0 <= peer <= 9999,
    ensures
        parse_spec(frame_bytes(peer, chunk, has_more)) == Ok::<MessageModel, ParseError>(
            MessageModel { peer, content: chunk, has_more },
        ),
{
    let f = frame_bytes(peer, chunk, has_more);
    lemma_peer_field_value(peer);
    assert(f.len() == chunk.len() + 5);
    assert(f.take(4) =~= peer_field(peer));
    assert(f.last() == if has_more {
        49u8
    } else {
        48u8
    });
    assert(f.subrange(4, f.len() - 1) =~= chunk);
}

/// The round trip law: for any peer id in `[0, 9999]` and payload of any
/// length, every frame of the encoding decodes, each names that peer, every
/// frame but the last is flagged as continued (wire byte `'1'`, last `'0'`),
/// each frame carries at most 1024 payload bytes, and concatenating the
/// decoded chunks in order yields the payload again. There is always at
/// least one frame.
pub proof fn lemma_encode_parse_round_trip(peer: int, payload: Seq<u8>)
    requires
        0 <= peer <= 9999,
    ensures
        ({
            let frames = encode_frames(peer, payload);
            &&& frames.len() >= 1
            &&& forall|i: int| 0 <= i < frames.len() ==> parse_spec(frames[i]) is Ok
            &&& forall|i: int|
                0 <= i < frames.len() ==> parse_spec(frames[i])->Ok_0.peer == peer
            &&& forall|i: int|
                0 <= i < frames.len() ==> (parse_spec(frames[i])->Ok_0.has_more <==> i
                    < frames.len() - 1)
            &&& forall|i: int|
                0 <= i < frames.len() ==> frames[i].last() == (if i < frames.len() - 1 {
                    49u8
                } else {
                    48u8
                })
            &&& forall|i: int|
                0 <= i < frames.len() ==> parse_spec(frames[i])->Ok_0.content.len() <= 1024
            &&& reassembled_payload(frames) == payload
        }),
    decreases payload.len(),
{
    let frames = encode_frames(peer, payload);
    if payload.len() <= 1024 {
        lemma_frame_parse(peer, payload, false);
        assert(frames =~= seq![frame_bytes(peer, payload, false)]);
        assert(frames.first() == frame_bytes(peer, payload, false));
        assert(frames[0].last() == 48u8);
        assert(frames.drop_first() =~= Seq::<Seq<u8>>::empty());
        assert(reassembled_payload(frames.drop_first()) == Seq::<u8>::empty());
        assert(reassembled_payload(frames) == payload + Seq::<u8>::empty());
        assert(payload + Seq::<u8>::empty() =~= payload);
    } else {
        let head = frame_bytes(peer, payload.take(1024), true);
        let tail = encode_frames(peer, payload.skip(1024));
        lemma_frame_parse(peer, payload.take(1024), true);
        lemma_encode_parse_round_trip(peer, payload.skip(1024));
        assert(frames == seq![head] + tail);
        assert(frames.len() == tail.len() + 1);
        assert(head.last() == 49u8);
        assert forall|i: int| 1 <= i < frames.len() implies frames[i] == tail[i - 1] by {}
        assert(frames.drop_first() =~= tail);
        assert(reassembled_payload(frames) == payload.take(1024) + reassembled_payload(tail));
        assert(payload.take(1024) + payload.skip(1024) =~= payload);
    }
}

/// A payload of at most 1024 bytes goes out as exactly one frame carrying
/// all of it, with terminator `'0'`.
pub proof fn lemma_encode_single_frame(peer: int, payload: Seq<u8>)
    requires
        payload.len() <= 1024,
    ensures
        encode_frames(peer, payload) == seq![frame_bytes(peer, payload, false)],
{
}

/// A payload of more than 1024 and at most 2048 bytes goes out as exactly
/// two frames: the first 1024 bytes flagged as continued, then the rest.
pub proof fn lemma_encode_two_frames(peer: int, payload: Seq<u8>)
    requires
        1024 < payload.len() <= 2048,
    ensures
        encode_frames(peer, payload).len() == 2,
        encode_frames(peer, payload)[0] == frame_bytes(peer, payload.take(1024), true),
        encode_frames(peer, payload)[1] == frame_bytes(peer, payload.skip(1024), false),
        payload.skip(1024).len() == payload.len() - 1024,
{
    let tail = encode_frames(peer, payload.skip(1024));
    assert(payload.skip(1024).len() == payload.len() - 1024);
    assert(tail == seq![frame_bytes(peer, payload.skip(1024), false)]);
}

/// For a vector of bytes the deep view is the view itself.
pub proof fn lemma_bytes_deep_view(v: Vec<u8>)
    ensures
        v.deep_view() =~= v@,
{
}

/// Pushing one vector onto a vector of vectors appends its view to the
/// deep view.
proof fn lemma_deep_view_push(prev: Seq<Vec<u8>>, cur: Seq<Vec<u8>>)
    requires
        cur.len() == prev.len() + 1,
        forall|i: int| 0 <= i < prev.len() ==> cur[i] == prev[i],
    ensures
        Seq::new(cur.len(), |i: int| cur[i].deep_view()) =~= Seq::new(
            prev.len(),
            |i: int| prev[i].deep_view(),
        ) + seq![cur.last()@],
{
    lemma_bytes_deep_view(cur.last());
}

} // verus!
