use vstd::prelude::*;

verus! {

/// Size of the length prefix in front of every frame.
pub const PREFIX_LEN: usize = 8;

/// The eight big-endian bytes of `n`.
pub open spec fn be_bytes(n: u64) -> Seq<u8> {
    seq![
        (n >> 56u64) as u8,
        (n >> 48u64) as u8,
        (n >> 40u64) as u8,
        (n >> 32u64) as u8,
        (n >> 24u64) as u8,
        (n >> 16u64) as u8,
        (n >> 8u64) as u8,
        n as u8,
    ]
}

/// The integer that the first eight bytes of `b` give, read big-endian.
pub open spec fn be_value(b: Seq<u8>) -> u64 {
    ((b[0] as u64) << 56u64) | ((b[1] as u64) << 48u64) | ((b[2] as u64) << 40u64) | ((
    b[3] as u64) << 32u64) | ((b[4] as u64) << 24u64) | ((b[5] as u64) << 16u64) | ((b[6] as u64)
        << 8u64) | (b[7] as u64)
}

/// Reading back the eight bytes of `n` gives `n`.
pub proof fn lemma_be_round_trip(n: u64)
    ensures
        be_bytes(n).len() == 8,
        be_value(be_bytes(n)) == n,
{
    let b = be_bytes(n);
    assert(b[0] == (n >> 56u64) as u8);
    assert(b[7] == n as u8);
    assert(((((n >> 56u64) as u8) as u64) << 56u64) | ((((n >> 48u64) as u8) as u64) << 48u64) | ((
    ((n >> 40u64) as u8) as u64) << 40u64) | ((((n >> 32u64) as u8) as u64) << 32u64) | ((((n
        >> 24u64) as u8) as u64) << 24u64) | ((((n >> 16u64) as u8) as u64) << 16u64) | ((((n
        >> 8u64) as u8) as u64) << 8u64) | ((n as u8) as u64) == n) by (bit_vector);
}

/// One frame on the wire: the body's length as eight big-endian bytes, then the body.
pub open spec fn frame_of(body: Seq<u8>) -> Seq<u8> {
    be_bytes(body.len() as u64) + body
}

/// The frames of `bodies`, one after the other.
pub open spec fn frames_of(bodies: Seq<Seq<u8>>) -> Seq<u8>
    decreases bodies.len(),
{
    if bodies.len() == 0 {
        seq![]
    } else {
        frame_of(bodies[0]) + frames_of(bodies.drop_first())
    }
}

/// Every body is short enough for its length to fit the prefix.
pub open spec fn bodies_fit(bodies: Seq<Seq<u8>>) -> bool {
    forall|i: int| 0 <= i < bodies.len() ==> #[trigger] bodies[i].len() <= u64::MAX
}

/// The length that the prefix at the head of `s` announces.
pub open spec fn announced_len(s: Seq<u8>) -> u64 {
    be_value(s.take(8))
}

/// Whether `s` begins with one whole frame.
pub open spec fn has_frame(s: Seq<u8>) -> bool {
    s.len() >= 8 && s.len() - 8 >= announced_len(s)
}

/// The body of the frame at the head of `s`.
pub open spec fn first_body(s: Seq<u8>) -> Seq<u8> {
    s.subrange(8, 8 + announced_len(s))
}

/// The length a decoder holding `s` has taken from the prefix once it must wait for more bytes:
/// the announced one when the whole prefix is there, none otherwise.
pub open spec fn settled_next_len(s: Seq<u8>) -> Option<u64> {
    if s.len() >= 8 {
        Some(announced_len(s))
    } else {
        None
    }
}

/// What is left of `s` after its first frame.
pub open spec fn after_first(s: Seq<u8>) -> Seq<u8> {
    s.skip(8 + announced_len(s))
}

/// The pieces of `reads` joined in order.
pub open spec fn concat_all(reads: Seq<Seq<u8>>) -> Seq<u8>
    decreases reads.len(),
{
    if reads.len() == 0 {
        seq![]
    } else {
        concat_all(reads.drop_last()) + reads.last()
    }
}

/// The byte sequences of `v`, in order.
pub open spec fn views(v: Seq<Vec<u8>>) -> Seq<Seq<u8>> {
    v.map_values(|b: Vec<u8>| b@)
}

proof fn lemma_frame_head(body: Seq<u8>, rest: Seq<u8>)
    requires
        body.len() <= u64::MAX,
    ensures
        has_frame(frame_of(body) + rest),
        first_body(frame_of(body) + rest) == body,
        after_first(frame_of(body) + rest) == rest,
{
    let s = frame_of(body) + rest;
    lemma_be_round_trip(body.len() as u64);
    assert(s.take(8) =~= be_bytes(body.len() as u64));
    assert(s.subrange(8, 8 + body.len() as int) =~= body);
    assert(s.skip(8 + body.len() as int) =~= rest);
}

proof fn lemma_frames_push(bodies: Seq<Seq<u8>>, b: Seq<u8>)
    ensures
        frames_of(bodies.push(b)) == frames_of(bodies) + frame_of(b),
    decreases bodies.len(),
{
    if bodies.len() == 0 {
        assert(bodies.push(b).drop_first() =~= bodies);
        assert(bodies.push(b)[0] == b);
        assert(frames_of(bodies) =~= Seq::<u8>::empty());
        assert(frames_of(bodies.push(b)) == frame_of(b) + frames_of(bodies));
        assert(frames_of(bodies.push(b)) =~= frame_of(b));
    } else {
        assert(bodies.push(b).drop_first() =~= bodies.drop_first().push(b));
        lemma_frames_push(bodies.drop_first(), b);
        assert(frames_of(bodies.push(b)) =~= frames_of(bodies) + frame_of(b));
    }
}

/// Framing is unambiguous: when the frames of `bodies` followed by bytes `tail` that hold no
/// whole frame are the frames of `out` followed by bytes `rest` that hold no whole frame, then
/// `out` is `bodies` and `rest` is `tail`.
pub proof fn lemma_frames_parse_unique(
    bodies: Seq<Seq<u8>>,
    tail: Seq<u8>,
    out: Seq<Seq<u8>>,
    rest: Seq<u8>,
)
    requires
        bodies_fit(bodies),
        bodies_fit(out),
        frames_of(bodies) + tail == frames_of(out) + rest,
        !has_frame(tail),
        !has_frame(rest),
    ensures
        out == bodies,
        rest == tail,
    decreases out.len(),
{
    if out.len() == 0 {
        assert(frames_of(out) + rest =~= rest);
        if bodies.len() > 0 {
            let tb = frames_of(bodies.drop_first()) + tail;
            assert(frames_of(bodies) + tail =~= frame_of(bodies[0]) + tb);
            lemma_frame_head(bodies[0], tb);
            assert(false);
        }
        assert(frames_of(bodies) + tail =~= tail);
        assert(out =~= bodies);
    } else {
        let tail_out = frames_of(out.drop_first()) + rest;
        assert(frames_of(out) + rest =~= frame_of(out[0]) + tail_out);
        assert(bodies_fit(out.drop_first()));
        lemma_frame_head(out[0], tail_out);
        if bodies.len() == 0 {
            assert(frames_of(bodies) + tail =~= tail);
            assert(false);
        }
        let tail_bodies = frames_of(bodies.drop_first()) + tail;
        assert(bodies_fit(bodies.drop_first()));
        assert(frames_of(bodies) + tail =~= frame_of(bodies[0]) + tail_bodies);
        lemma_frame_head(bodies[0], tail_bodies);
        assert(out[0] == bodies[0]);
        assert(tail_bodies == tail_out);
        assert(frames_of(out.drop_first()) + rest =~= tail_out);
        lemma_frames_parse_unique(bodies.drop_first(), tail, out.drop_first(), rest);
        assert forall|i: int| 0 <= i < out.len() implies out[i] == bodies[i] by {
            if i > 0 {
                assert(out[i] == out.drop_first()[i - 1]);
                assert(bodies[i] == bodies.drop_first()[i - 1]);
            }
        }
        assert(out =~= bodies);
    }
}

/// The frame of `body`.
pub fn encode_frame(body: &Vec<u8>) -> (r: Vec<u8>)
    ensures
        r@ == frame_of(body@),
{
    let n = body.len() as u64;
    let mut r: Vec<u8> = vec![
        (n >> 56u64) as u8,
        (n >> 48u64) as u8,
        (n >> 40u64) as u8,
        (n >> 32u64) as u8,
        (n >> 24u64) as u8,
        (n >> 16u64) as u8,
        (n >> 8u64) as u8,
        n as u8,
    ];
    assert(r@ =~= be_bytes(n));
    let mut i: usize = 0;
    while i < body.len()
        invariant
            i <= body.len(),
            n == body@.len() as u64,
            r@ == be_bytes(n) + body@.take(i as int),
        decreases body.len() - i,
    {
        r.push(body[i]);
        i = i + 1;
        assert(body@.take(i as int) =~= body@.take(i - 1).push(body@[i - 1]));
        assert(r@ =~= be_bytes(n) + body@.take(i as int));
    }
    assert(body@.take(i as int) =~= body@);
    r
}

/// The frames of `bodies`, one after the other.
pub fn encode_frames(bodies: &Vec<Vec<u8>>) -> (r: Vec<u8>)
    ensures
        r@ == frames_of(views(bodies@)),
{
    let mut r: Vec<u8> = Vec::new();
    let mut i: usize = 0;
    while i < bodies.len()
        invariant
            i <= bodies.len(),
            r@ == frames_of(views(bodies@.take(i as int))),
        decreases bodies.len() - i,
    {
        let f = encode_frame(&bodies[i]);
        append_bytes(&mut r, &f);
        proof {
            assert(views(bodies@.take(i + 1)) =~= views(bodies@.take(i as int)).push(bodies@[i as int]@));
            lemma_frames_push(views(bodies@.take(i as int)), bodies@[i as int]@);
        }
        i = i + 1;
    }
    assert(bodies@.take(i as int) =~= bodies@);
    r
}

/// Appends the bytes of `src` to `dst`.
pub fn append_bytes(dst: &mut Vec<u8>, src: &[u8])
    ensures
        final(dst)@ == old(dst)@ + src@,
{
    let mut i: usize = 0;
    while i < src.len()
        invariant
            i <= src.len(),
            dst@ == old(dst)@ + src@.take(i as int),
        decreases src.len() - i,
    {
        dst.push(src[i]);
        i = i + 1;
        assert(src@.take(i as int) =~= src@.take(i - 1).push(src@[i - 1]));
        assert(dst@ =~= old(dst)@ + src@.take(i as int));
    }
    assert(src@.take(i as int) =~= src@);
}

/// The bytes of `v` from `start` up to `end`.
fn copy_range(v: &Vec<u8>, start: usize, end: usize) -> (r: Vec<u8>)
    requires
        start <= end <= v.len(),
    ensures
        r@ == v@.subrange(start as int, end as int),
{
    let mut r: Vec<u8> = Vec::new();
    let mut i: usize = start;
    while i < end
        invariant
            start <= i <= end,
            end <= v.len(),
            r@ == v@.subrange(start as int, i as int),
        decreases end - i,
    {
        r.push(v[i]);
        i = i + 1;
        assert(r@ =~= v@.subrange(start as int, i as int));
    }
    r
}

/// The integer that the eight bytes of `v` from `start` on give, read big-endian.
fn read_be_u64(v: &Vec<u8>, start: usize) -> (r: u64)
    requires
        start + 8 <= v.len(),
    ensures
        r == be_value(v@.subrange(start as int, start + 8)),
{
    let r = ((v[start] as u64) << 56u64) | ((v[start + 1] as u64) << 48u64) | ((v[start
        + 2] as u64) << 40u64) | ((v[start + 3] as u64) << 32u64) | ((v[start + 4] as u64)
        << 24u64) | ((v[start + 5] as u64) << 16u64) | ((v[start + 6] as u64) << 8u64) | (v[start
        + 7] as u64);
    let ghost s = v@.subrange(start as int, start + 8);
    assert(s[0] == v@[start as int] && s[1] == v@[start + 1] && s[2] == v@[start + 2] && s[3]
        == v@[start + 3]);
    assert(s[4] == v@[start + 4] && s[5] == v@[start + 5] && s[6] == v@[start + 6] && s[7]
        == v@[start + 7]);
    r
}

/// Outcome of one attempt to read a frame.
pub enum FrameRead {
    /// A whole frame was there; its body.
    Frame(Vec<u8>),
    /// Not enough bytes yet: try again later. Not an error.
    WouldBlock,
}

/// Receive side of the framing. Bytes are pushed in as they arrive, in whatever pieces the
/// transport delivers; whole frames are taken out. Once a length prefix has been read it is
/// kept in `next_len` until the body is complete, and never read again.
pub struct FrameDecoder {
    next_len: Option<u64>,
    pending: Vec<u8>,
}

impl FrameDecoder {
    /// The bytes received and not yet taken out as frames, a prefix already read included.
    pub closed spec fn stream(&self) -> Seq<u8> {
        match self.next_len {
            Some(l) => be_bytes(l) + self.pending@,
            None => self.pending@,
        }
    }

    /// The length of a frame whose prefix was read and whose body is not yet complete.
    pub closed spec fn spec_next_len(&self) -> Option<u64> {
        self.next_len
    }

    pub fn new() -> (r: FrameDecoder)
        ensures
            r.stream() == Seq::<u8>::empty(),
            r.spec_next_len() is None,
    {
        FrameDecoder { next_len: None, pending: Vec::new() }
    }

    pub fn next_len(&self) -> (r: Option<u64>)
        ensures
            r == self.spec_next_len(),
    {
        self.next_len
    }

    /// Hands the decoder bytes that the transport delivered.
    pub fn push_bytes(&mut self, bytes: &[u8])
        ensures
            final(self).stream() == old(self).stream() + bytes@,
            final(self).spec_next_len() == old(self).spec_next_len(),
    {
        append_bytes(&mut self.pending, bytes);
        proof {
            if let Some(l) = self.next_len {
                assert(be_bytes(l) + old(self).pending@ + bytes@ =~= be_bytes(l) + self.pending@);
            }
        }
    }

    /// Takes out the frame at the head of the stream, if a whole one is there.
    pub fn receive(&mut self) -> (r: FrameRead)
        ensures
            (r is Frame) == has_frame(old(self).stream()),
            r matches FrameRead::Frame(b) ==> b@ == first_body(old(self).stream())
                && final(self).stream() == after_first(old(self).stream())
                && final(self).spec_next_len() is None,
            r is WouldBlock ==> final(self).stream() == old(self).stream() && final(self).spec_next_len()
                == settled_next_len(old(self).stream()),
    {
        let ghost s0 = self.stream();
        let len: u64 = match self.next_len {
            Some(l) => l,
            None => {
                if self.pending.len() < PREFIX_LEN {
                    return FrameRead::WouldBlock;
                }
                let l = read_be_u64(&self.pending, 0);
                let rest = copy_range(&self.pending, PREFIX_LEN, self.pending.len());
                proof {
                    assert(self.pending@.subrange(0, 8) =~= s0.take(8));
                    lemma_be_round_trip(l);
                    assert(be_bytes(l) =~= s0.take(8)) by {
                        assert(be_value(be_bytes(l)) == be_value(s0.take(8)));
                        lemma_be_bytes_of_value(s0.take(8));
                    }
                    assert(s0 =~= be_bytes(l) + rest@);
                }
                self.pending = rest;
                self.next_len = Some(l);
                l
            },
        };
        proof {
            lemma_be_round_trip(len);
            assert(s0 == be_bytes(len) + self.pending@);
            assert(s0.take(8) =~= be_bytes(len));
        }
        if (self.pending.len() as u64) < len {
            return FrameRead::WouldBlock;
        }
        let n = len as usize;
        let body = copy_range(&self.pending, 0, n);
        let rest = copy_range(&self.pending, n, self.pending.len());
        proof {
            assert(body@ =~= first_body(s0));
            assert(rest@ =~= after_first(s0));
        }
        self.pending = rest;
        self.next_len = None;
        FrameRead::Frame(body)
    }

    /// Takes out every whole frame there is, in order, and stops at the first incomplete one.
    pub fn receive_all(&mut self) -> (r: Vec<Vec<u8>>)
        ensures
            old(self).stream() == frames_of(views(r@)) + final(self).stream(),
            !has_frame(final(self).stream()),
            bodies_fit(views(r@)),
            final(self).spec_next_len() == settled_next_len(final(self).stream()),
            forall|bodies: Seq<Seq<u8>>, tail: Seq<u8>|
                bodies_fit(bodies) && !#[trigger] has_frame(tail) && old(self).stream() == #[trigger] frames_of(bodies) + tail
                    ==> views(r@) == bodies && final(self).stream() == tail,
    {
        let ghost s_start = self.stream();
        let mut r: Vec<Vec<u8>> = Vec::new();
        loop
            invariant
                old(self).stream() == frames_of(views(r@)) + self.stream(),
                s_start == old(self).stream(),
                bodies_fit(views(r@)),
            ensures
                old(self).stream() == frames_of(views(r@)) + self.stream(),
                !has_frame(self.stream()),
                bodies_fit(views(r@)),
            decreases self.stream().len(),
        {
            let ghost s = self.stream();
            let ghost rv = views(r@);
            match self.receive() {
                FrameRead::Frame(b) => {
                    proof {
                        lemma_be_bytes_of_value(s.take(8));
                        assert(s =~= frame_of(b@) + self.stream());
                        lemma_frames_push(rv, b@);
                        assert(views(r@.push(b)) =~= rv.push(b@));
                    }
                    r.push(b);
                },
                FrameRead::WouldBlock => {
                    proof {
                        assert forall|bodies: Seq<Seq<u8>>, tail: Seq<u8>|
                            bodies_fit(bodies) && !#[trigger] has_frame(tail) && s_start == #[trigger] frames_of(bodies) + tail
                                implies views(r@) == bodies && self.stream() == tail by {
                            lemma_frames_parse_unique(bodies, tail, views(r@), self.stream());
                        }
                    }
                    return r;
                },
            }
        }
    }
}

proof fn lemma_be_bytes_of_value(b: Seq<u8>)
    requires
        b.len() == 8,
    ensures
        be_bytes(be_value(b)) == b,
{
    let (b0, b1, b2, b3, b4, b5, b6, b7) = (b[0], b[1], b[2], b[3], b[4], b[5], b[6], b[7]);
    let v = be_value(b);
    assert(v == ((b0 as u64) << 56u64) | ((b1 as u64) << 48u64) | ((b2 as u64) << 40u64) | ((
    b3 as u64) << 32u64) | ((b4 as u64) << 24u64) | ((b5 as u64) << 16u64) | ((b6 as u64) << 8u64)
        | (b7 as u64));
    assert(((v >> 56u64) as u8) == b0 && ((v >> 48u64) as u8) == b1 && ((v >> 40u64) as u8) == b2
        && ((v >> 32u64) as u8) == b3) by (bit_vector)
        requires
            v == ((b0 as u64) << 56u64) | ((b1 as u64) << 48u64) | ((b2 as u64) << 40u64) | ((
            b3 as u64) << 32u64) | ((b4 as u64) << 24u64) | ((b5 as u64) << 16u64) | ((b6 as u64)
                << 8u64) | (b7 as u64),
    ;
    assert(((v >> 24u64) as u8) == b4 && ((v >> 16u64) as u8) == b5 && ((v >> 8u64) as u8) == b6
        && (v as u8) == b7) by (bit_vector)
        requires
            v == ((b0 as u64) << 56u64) | ((b1 as u64) << 48u64) | ((b2 as u64) << 40u64) | ((
            b3 as u64) << 32u64) | ((b4 as u64) << 24u64) | ((b5 as u64) << 16u64) | ((b6 as u64)
                << 8u64) | (b7 as u64),
    ;
    assert(be_bytes(v) =~= b);
}

/// Runs a fresh decoder over `reads`, the pieces in which the transport delivered the bytes,
/// and returns every whole frame, in order.
pub fn decode_reads(reads: &Vec<Vec<u8>>) -> (r: (Vec<Vec<u8>>, FrameDecoder))
    ensures
        frames_of(views(r.0@)) + r.1.stream() == concat_all(views(reads@)),
        !has_frame(r.1.stream()),
        bodies_fit(views(r.0@)),
        r.1.spec_next_len() == settled_next_len(r.1.stream()),
        forall|bodies: Seq<Seq<u8>>|
            bodies_fit(bodies) && #[trigger] frames_of(bodies) == concat_all(views(reads@))
                ==> views(r.0@) == bodies && r.1.stream() == Seq::<u8>::empty() && r.1.spec_next_len() is None,
{
    let mut dec = FrameDecoder::new();
    let mut out: Vec<Vec<u8>> = Vec::new();
    let mut i: usize = 0;
    while i < reads.len()
        invariant
            i <= reads.len(),
            frames_of(views(out@)) + dec.stream() == concat_all(views(reads@.take(i as int))),
            !has_frame(dec.stream()),
            bodies_fit(views(out@)),
            dec.spec_next_len() == settled_next_len(dec.stream()),
        decreases reads.len() - i,
    {
        let ghost before = views(out@);
        let ghost s0 = dec.stream();
        dec.push_bytes(reads[i].as_slice());
        let got = dec.receive_all();
        proof {
            let ghost piece = reads@[i as int]@;
            lemma_frames_append(before, views(got@));
            assert(views(out@ + got@) =~= before + views(got@));
            assert(views(reads@.take(i + 1)) =~= views(reads@.take(i as int)).push(piece));
            assert(views(reads@.take(i + 1)).drop_last() =~= views(reads@.take(i as int)));
            assert(concat_all(views(reads@.take(i + 1))) == concat_all(views(reads@.take(i as int)))
                + piece);
            assert(s0 + piece == frames_of(views(got@)) + dec.stream());
            let ghost fb = frames_of(before);
            let ghost fg = frames_of(views(got@));
            assert(frames_of(before + views(got@)) == fb + fg);
            assert((fb + fg) + dec.stream() =~= fb + (fg + dec.stream()));
            assert(fb + (s0 + piece) =~= (fb + s0) + piece);
            assert(bodies_fit(before + views(got@)));
        }
        append_frames(&mut out, got);
        i = i + 1;
    }
    assert(reads@.take(i as int) =~= reads@);
    assert forall|bodies: Seq<Seq<u8>>|
        bodies_fit(bodies) && #[trigger] frames_of(bodies) == concat_all(views(reads@)) implies views(
        out@) == bodies && dec.stream() == Seq::<u8>::empty() && dec.spec_next_len() is None by {
        assert(frames_of(bodies) + Seq::<u8>::empty() =~= frames_of(bodies));
        assert(!has_frame(Seq::<u8>::empty()));
        lemma_frames_parse_unique(bodies, Seq::<u8>::empty(), views(out@), dec.stream());
    }
    (out, dec)
}

proof fn lemma_frames_append(a: Seq<Seq<u8>>, b: Seq<Seq<u8>>)
    ensures
        frames_of(a + b) == frames_of(a) + frames_of(b),
    decreases a.len(),
{
    if a.len() == 0 {
        assert(a + b =~= b);
        assert(frames_of(a) + frames_of(b) =~= frames_of(b));
    } else {
        assert((a + b).drop_first() =~= a.drop_first() + b);
        lemma_frames_append(a.drop_first(), b);
        assert(frames_of(a + b) =~= frames_of(a) + frames_of(b));
    }
}

fn append_frames(dst: &mut Vec<Vec<u8>>, src: Vec<Vec<u8>>)
    ensures
        final(dst)@ == old(dst)@ + src@,
{
    let mut src = src;
    dst.append(&mut src);
}

} // verus!
