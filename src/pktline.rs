use vstd::prelude::*;

verus! {

/// Largest value of a pkt-line length field: four header bytes plus the payload.
pub const MAX_FRAME_LEN: usize = 65520;

/// Largest payload a single data pkt-line can carry.
pub const MAX_PAYLOAD_LEN: usize = 65516;

/// Largest piece of sideband data per pkt-line (one byte goes to the band).
pub const MAX_SIDEBAND_CHUNK: usize = 65515;

/// Errors of the pkt-line codec.
#[derive(Debug, Clone, Copy, PartialEq, Eq, Structural)]
pub enum CodecError {
    /// A payload too long to fit in one pkt-line was handed to the encoder.
    PayloadTooLarge,
    /// A length field that is not four hex digits, or is out of range.
    ProtocolAbuse,
}

/// A frame to be written on the wire.
pub enum PktLine {
    Flush,
    Delimiter,
    ResponseEnd,
    Data(Vec<u8>),
    /// Progress message, sent on band 2.
    SidebandMsg(Vec<u8>),
    /// Packfile data, sent on band 1 and split into as many frames as needed.
    SidebandData(Vec<u8>),
}

/// A frame read from the wire.
pub enum Frame {
    Flush,
    Delimiter,
    ResponseEnd,
    Data(Vec<u8>),
}

/// The mathematical value of a `Frame`.
pub enum FrameView {
    Flush,
    Delimiter,
    ResponseEnd,
    Data(Seq<u8>),
}

impl View for Frame {
    type V = FrameView;

    open spec fn view(&self) -> FrameView {
        match self {
            Frame::Flush => FrameView::Flush,
            Frame::Delimiter => FrameView::Delimiter,
            Frame::ResponseEnd => FrameView::ResponseEnd,
            Frame::Data(p) => FrameView::Data(p@),
        }
    }
}

/// Lower-case hex digit of `n < 16`.
pub open spec fn hex_digit(n: nat) -> u8 {
    if n < 10 {
        (48 + n) as u8
    } else {
        (87 + n) as u8
    }
}

/// Value of a hex digit, of either case.
pub open spec fn hex_val(b: u8) -> Option<nat> {
    if 48 <= b <= 57 {
        Some((b - 48) as nat)
    } else if 97 <= b <= 102 {
        Some((b - 87) as nat)
    } else if 65 <= b <= 70 {
        Some((b - 55) as nat)
    } else {
        None
    }
}

/// The four-digit lower-case hex form of `n < 65536`.
pub open spec fn len_prefix(n: nat) -> Seq<u8> {
    seq![
        hex_digit(n / 4096),
        hex_digit((n / 256) % 16),
        hex_digit((n / 16) % 16),
        hex_digit(n % 16),
    ]
}

/// The value of the first four bytes of `s` read as hex, if they are hex digits.
pub open spec fn hex_len(s: Seq<u8>) -> Option<nat>
    recommends
        s.len() >= 4,
{
    match (hex_val(s[0]), hex_val(s[1]), hex_val(s[2]), hex_val(s[3])) {
        (Some(a), Some(b), Some(c), Some(d)) => Some(a * 4096 + b * 256 + c * 16 + d),
        _ => None,
    }
}

/// A data pkt-line carrying `p`.
pub open spec fn pkt(p: Seq<u8>) -> Seq<u8> {
    len_prefix(p.len() + 4) + p
}

/// Sideband frames on band 1 for `p`, in pieces of at most `MAX_SIDEBAND_CHUNK` bytes.
pub open spec fn sideband_frames(p: Seq<u8>) -> Seq<u8>
    decreases p.len(),
{
    if p.len() == 0 {
        seq![]
    } else if p.len() <= MAX_SIDEBAND_CHUNK {
        pkt(seq![1u8] + p)
    } else {
        pkt(seq![1u8] + p.take(MAX_SIDEBAND_CHUNK as int)) + sideband_frames(
            p.skip(MAX_SIDEBAND_CHUNK as int),
        )
    }
}

/// Whether the encoder accepts `line`.
pub open spec fn encodable(line: &PktLine) -> bool {
    match line {
        PktLine::Data(p) => p@.len() <= MAX_PAYLOAD_LEN,
        PktLine::SidebandMsg(p) => p@.len() + 1 <= MAX_PAYLOAD_LEN,
        _ => true,
    }
}

/// The bytes that stand for `line` on the wire.
pub open spec fn encoding(line: &PktLine) -> Seq<u8> {
    match line {
        PktLine::Flush => seq![48u8, 48, 48, 48],
        PktLine::Delimiter => seq![48u8, 48, 48, 49],
        PktLine::ResponseEnd => seq![48u8, 48, 48, 50],
        PktLine::Data(p) => pkt(p@),
        PktLine::SidebandMsg(p) => pkt(seq![2u8] + p@),
        PktLine::SidebandData(p) => sideband_frames(p@),
    }
}

/// `p` without one trailing newline, if it has one.
pub open spec fn strip_newline(p: Seq<u8>) -> Seq<u8> {
    if p.len() > 0 && p.last() == 10u8 {
        p.drop_last()
    } else {
        p
    }
}

/// The first frame of `s` and the number of bytes it takes; `Ok(None)` when
/// `s` does not yet hold a whole frame, `Err` for a bad length field.
pub open spec fn frame_spec(s: Seq<u8>) -> Result<Option<(FrameView, nat)>, ()> {
    if s.len() < 4 {
        Ok(None)
    } else {
        match hex_len(s) {
            None => Err(()),
            Some(n) => if n == 0 {
                Ok(Some((FrameView::Flush, 4)))
            } else if n == 1 {
                Ok(Some((FrameView::Delimiter, 4)))
            } else if n == 2 {
                Ok(Some((FrameView::ResponseEnd, 4)))
            } else if n < 4 || n > MAX_FRAME_LEN {
                Err(())
            } else if s.len() < n {
                Ok(None)
            } else {
                Ok(Some((FrameView::Data(strip_newline(s.subrange(4, n as int))), n)))
            },
        }
    }
}

/// The first data payload of `s`, passing over control frames, with what is
/// left of the buffer afterwards.
pub open spec fn decode_spec(s: Seq<u8>) -> (Result<Option<Seq<u8>>, ()>, Seq<u8>)
    decreases s.len(),
{
    if s.len() < 4 {
        (Ok(None), s)
    } else {
        match hex_len(s) {
            None => (Err(()), s),
            Some(n) => if n <= 2 {
                decode_spec(s.skip(4))
            } else if n < 4 || n > MAX_FRAME_LEN {
                (Err(()), s)
            } else if s.len() < n {
                (Ok(None), s)
            } else {
                (Ok(Some(strip_newline(s.subrange(4, n as int)))), s.skip(n as int))
            },
        }
    }
}

proof fn lemma_hex_digit(k: nat)
    requires
        k < 16,
    ensures
        hex_val(hex_digit(k)) == Some(k),
{
}

/// Reading back a length field gives the length that was written.
pub proof fn lemma_len_prefix(n: nat)
    requires
        n < 65536,
    ensures
        len_prefix(n).len() == 4,
        hex_len(len_prefix(n)) == Some(n),
{
    let a = n / 4096;
    let b = (n / 256) % 16;
    let c = (n / 16) % 16;
    let d = n % 16;
    assert(a < 16 && a * 4096 + b * 256 + c * 16 + d == n) by (nonlinear_arith)
        requires
            a == n / 4096,
            b == (n / 256) % 16,
            c == (n / 16) % 16,
            d == n % 16,
            n < 65536,
    ;
    lemma_hex_digit(a);
    lemma_hex_digit(b);
    lemma_hex_digit(c);
    lemma_hex_digit(d);
}

fn hex_digit_exec(n: u16) -> (r: u8)
    requires
        n < 16,
    ensures
        r == hex_digit(n as nat),
{
    if n < 10 {
        48 + n as u8
    } else {
        87 + n as u8
    }
}

fn hex_val_exec(b: u8) -> (r: Option<u16>)
    ensures
        r matches Some(v) ==> hex_val(b) == Some(v as nat),
        r is None ==> hex_val(b) is None,
{
    if 48 <= b && b <= 57 {
        Some((b - 48) as u16)
    } else if 97 <= b && b <= 102 {
        Some((b - 87) as u16)
    } else if 65 <= b && b <= 70 {
        Some((b - 55) as u16)
    } else {
        None
    }
}

/// Appends the length field for a frame of `n` bytes.
fn push_len_prefix(dst: &mut Vec<u8>, n: usize)
    requires
        n < 65536,
    ensures
        final(dst)@ == old(dst)@ + len_prefix(n as nat),
{
    let n16 = n as u16;
    dst.push(hex_digit_exec(n16 / 4096));
    dst.push(hex_digit_exec((n16 / 256) % 16));
    dst.push(hex_digit_exec((n16 / 16) % 16));
    dst.push(hex_digit_exec(n16 % 16));
    assert(final(dst)@ =~= old(dst)@ + len_prefix(n as nat));
}

/// Appends a data pkt-line whose payload is `band` (if any) followed by
/// `p[start..end]`.
pub(crate) fn push_frame(dst: &mut Vec<u8>, band: Option<u8>, p: &[u8], start: usize, end: usize)
    requires
        start <= end <= p@.len(),
        end - start + (if band is Some { 1int } else { 0int }) <= MAX_PAYLOAD_LEN,
    ensures
        final(dst)@ == old(dst)@ + pkt(
            match band {
                Some(b) => seq![b] + p@.subrange(start as int, end as int),
                None => p@.subrange(start as int, end as int),
            },
        ),
{
    let ghost payload = match band {
        Some(b) => seq![b] + p@.subrange(start as int, end as int),
        None => p@.subrange(start as int, end as int),
    };
    let len = match band {
        Some(_) => end - start + 5,
        None => end - start + 4,
    };
    push_len_prefix(dst, len);
    let ghost head = dst@;
    if let Some(b) = band {
        dst.push(b);
    }
    let mut i: usize = start;
    while i < end
        invariant
            start <= i <= end <= p@.len(),
            dst@ == head + match band {
                Some(b) => seq![b] + p@.subrange(start as int, i as int),
                None => p@.subrange(start as int, i as int),
            },
        decreases end - i,
    {
        dst.push(p[i]);
        i += 1;
        assert(dst@ =~= head + match band {
            Some(b) => seq![b] + p@.subrange(start as int, i as int),
            None => p@.subrange(start as int, i as int),
        });
    }
    assert(dst@ =~= old(dst)@ + pkt(payload));
}

/// Writes pkt-lines: the framing of outbound data.
pub struct Encoder {}

impl Encoder {
    /// Appends the wire form of `item` to `dst`. A data or progress payload
    /// too long for one frame is refused and `dst` is left as it was.
    pub fn encode(&mut self, item: PktLine, dst: &mut Vec<u8>) -> (r: Result<(), CodecError>)
        ensures
            r is Ok <==> encodable(&item),
            r is Ok ==> final(dst)@ == old(dst)@ + encoding(&item),
            r is Err ==> r == Err::<(), CodecError>(CodecError::PayloadTooLarge) && final(dst)@
                == old(dst)@,
    {
        match item {
            PktLine::Flush => {
                dst.push(48);
                dst.push(48);
                dst.push(48);
                dst.push(48);
                assert(final(dst)@ =~= old(dst)@ + seq![48u8, 48, 48, 48]);
                Ok(())
            },
            PktLine::Delimiter => {
                dst.push(48);
                dst.push(48);
                dst.push(48);
                dst.push(49);
                assert(final(dst)@ =~= old(dst)@ + seq![48u8, 48, 48, 49]);
                Ok(())
            },
            PktLine::ResponseEnd => {
                dst.push(48);
                dst.push(48);
                dst.push(48);
                dst.push(50);
                assert(final(dst)@ =~= old(dst)@ + seq![48u8, 48, 48, 50]);
                Ok(())
            },
            PktLine::Data(p) => {
                if p.len() > MAX_PAYLOAD_LEN {
                    return Err(CodecError::PayloadTooLarge);
                }
                push_frame(dst, None, p.as_slice(), 0, p.len());
                assert(p@.subrange(0, p@.len() as int) =~= p@);
                Ok(())
            },
            PktLine::SidebandMsg(p) => {
                if p.len() >= MAX_PAYLOAD_LEN {
                    return Err(CodecError::PayloadTooLarge);
                }
                push_frame(dst, Some(2), p.as_slice(), 0, p.len());
                assert(p@.subrange(0, p@.len() as int) =~= p@);
                Ok(())
            },
            PktLine::SidebandData(p) => {
                push_sideband_data(dst, &p);
                Ok(())
            },
        }
    }
}

/// Appends `p` as band-1 frames of at most `MAX_SIDEBAND_CHUNK` data bytes each.
pub(crate) fn push_sideband_data(dst: &mut Vec<u8>, p: &Vec<u8>)
    ensures
        final(dst)@ == old(dst)@ + sideband_frames(p@),
{
    let mut i: usize = 0;
    assert(p@.skip(0) =~= p@);
    while i < p.len()
        invariant
            i <= p@.len(),
            dst@ + sideband_frames(p@.skip(i as int)) == old(dst)@ + sideband_frames(p@),
        decreases p@.len() - i,
    {
        let ghost before = dst@;
        let ghost rest = p@.skip(i as int);
        let end = if p.len() - i <= MAX_SIDEBAND_CHUNK {
            p.len()
        } else {
            i + MAX_SIDEBAND_CHUNK
        };
        push_frame(dst, Some(1), p.as_slice(), i, end);
        if end == p.len() {
            assert(rest =~= p@.subrange(i as int, end as int));
            assert(p@.skip(end as int).len() == 0);
            assert(sideband_frames(p@.skip(end as int)) =~= seq![]);
        } else {
            assert(rest.take(MAX_SIDEBAND_CHUNK as int) =~= p@.subrange(i as int, end as int));
            assert(rest.skip(MAX_SIDEBAND_CHUNK as int) =~= p@.skip(end as int));
        }
        assert(dst@ + sideband_frames(p@.skip(end as int)) =~= before + sideband_frames(rest));
        i = end;
    }
    assert(p@.skip(i as int) =~= seq![]);
    assert(dst@ + seq![] =~= dst@);
}

/// The bytes `v[start..end]` as a new vector.
pub fn copy_range(v: &Vec<u8>, start: usize, end: usize) -> (r: Vec<u8>)
    requires
        start <= end <= v@.len(),
    ensures
        r@ == v@.subrange(start as int, end as int),
{
    let mut r: Vec<u8> = Vec::new();
    let mut i: usize = start;
    while i < end
        invariant
            start <= i <= end <= v@.len(),
            r@ == v@.subrange(start as int, i as int),
        decreases end - i,
    {
        r.push(v[i]);
        i += 1;
        assert(r@ =~= v@.subrange(start as int, i as int));
    }
    r
}

/// Removes the first `k` bytes of `v`.
fn drop_front(v: &mut Vec<u8>, k: usize)
    requires
        k <= old(v)@.len(),
    ensures
        final(v)@ == old(v)@.skip(k as int),
{
    let rest = copy_range(v, k, v.len());
    *v = rest;
}

/// Reads the length field at the front of `src`, which holds at least four bytes.
fn read_len(src: &Vec<u8>) -> (r: Option<usize>)
    requires
        src@.len() >= 4,
    ensures
        r matches Some(n) ==> hex_len(src@) == Some(n as nat),
        r is None ==> hex_len(src@) is None,
{
    let a = hex_val_exec(src[0]);
    let b = hex_val_exec(src[1]);
    let c = hex_val_exec(src[2]);
    let d = hex_val_exec(src[3]);
    match (a, b, c, d) {
        (Some(a), Some(b), Some(c), Some(d)) => Some(
            a as usize * 4096 + b as usize * 256 + c as usize * 16 + d as usize,
        ),
        _ => None,
    }
}

/// Takes the first frame off `src`, control frames included. A frame that
/// is not yet whole leaves `src` as it is and gives `Ok(None)`.
pub fn decode_frame(src: &mut Vec<u8>) -> (r: Result<Option<Frame>, CodecError>)
    ensures
        match frame_spec(old(src)@) {
            Err(()) => r == Err::<Option<Frame>, CodecError>(CodecError::ProtocolAbuse)
                && final(src)@ == old(src)@,
            Ok(None) => r matches Ok(None) && final(src)@ == old(src)@,
            Ok(Some((f, n))) => r matches Ok(Some(fr)) && fr@ == f && final(src)@ == old(
                src,
            )@.skip(n as int),
        },
{
    if src.len() < 4 {
        return Ok(None);
    }
    let n = match read_len(src) {
        None => return Err(CodecError::ProtocolAbuse),
        Some(n) => n,
    };
    if n <= 2 {
        drop_front(src, 4);
        return Ok(
            Some(
                if n == 0 {
                    Frame::Flush
                } else if n == 1 {
                    Frame::Delimiter
                } else {
                    Frame::ResponseEnd
                },
            ),
        );
    }
    if n < 4 || n > MAX_FRAME_LEN {
        return Err(CodecError::ProtocolAbuse);
    }
    if src.len() < n {
        return Ok(None);
    }
    let end = if src[n - 1] == 10 {
        n - 1
    } else {
        n
    };
    let payload = copy_range(src, 4, end);
    assert(payload@ =~= strip_newline(src@.subrange(4, n as int)));
    drop_front(src, n);
    Ok(Some(Frame::Data(payload)))
}

/// Reads pkt-lines: the framing of inbound data.
#[derive(Default)]
pub struct GitCodec;

impl GitCodec {
    /// Takes the next data payload off `src`, consuming the control frames
    /// before it; a trailing newline is not part of the payload. Gives
    /// `Ok(None)` when no whole data frame is there yet: a partial frame is
    /// not consumed.
    pub fn decode(&mut self, src: &mut Vec<u8>) -> (r: Result<Option<Vec<u8>>, CodecError>)
        ensures
            final(src)@ == decode_spec(old(src)@).1,
            match decode_spec(old(src)@).0 {
                Err(()) => r == Err::<Option<Vec<u8>>, CodecError>(CodecError::ProtocolAbuse),
                Ok(None) => r matches Ok(None),
                Ok(Some(p)) => r matches Ok(Some(v)) && v@ == p,
            },
    {
        loop
            invariant
                decode_spec(src@) == decode_spec(old(src)@),
            decreases src@.len(),
        {
            let ghost before = src@;
            match decode_frame(src) {
                Err(e) => return Err(e),
                Ok(None) => return Ok(None),
                Ok(Some(Frame::Data(p))) => return Ok(Some(p)),
                Ok(Some(_)) => {
                    assert(src@ == before.skip(4));
                },
            }
        }
    }
}

/// A data frame decodes to the payload it was encoded from, whatever
/// follows it, provided the payload fits in one frame and does not itself
/// end in a newline (the decoder drops one trailing newline).
pub proof fn lemma_data_round_trip(p: Seq<u8>, rest: Seq<u8>)
    requires
        p.len() <= MAX_PAYLOAD_LEN,
        p.len() == 0 || p.last() != 10u8,
    ensures
        frame_spec(pkt(p) + rest) == Ok::<Option<(FrameView, nat)>, ()>(
            Some((FrameView::Data(p), p.len() + 4)),
        ),
        decode_spec(pkt(p) + rest) == (Ok::<Option<Seq<u8>>, ()>(Some(p)), rest),
{
    let s = pkt(p) + rest;
    let n = p.len() + 4;
    lemma_len_prefix(n);
    assert(s.subrange(0, 4) =~= len_prefix(n));
    assert(hex_len(s) == hex_len(len_prefix(n)));
    assert(s.subrange(4, n as int) =~= p);
    assert(s.skip(n as int) =~= rest);
}

/// A control frame decodes to its own variant and takes four bytes; the
/// payload decoder passes over it to what follows.
pub proof fn lemma_control_round_trip(line: PktLine, rest: Seq<u8>)
    requires
        line is Flush || line is Delimiter || line is ResponseEnd,
    ensures
        frame_spec(encoding(&line) + rest) == Ok::<Option<(FrameView, nat)>, ()>(
            Some(
                (
                    match line {
                        PktLine::Flush => FrameView::Flush,
                        PktLine::Delimiter => FrameView::Delimiter,
                        _ => FrameView::ResponseEnd,
                    },
                    4,
                ),
            ),
        ),
        decode_spec(encoding(&line) + rest) == decode_spec(rest),
{
    let s = encoding(&line) + rest;
    assert(s.skip(4) =~= rest);
    assert(s[0] == 48u8 && s[1] == 48u8 && s[2] == 48u8);
}

} // verus!
