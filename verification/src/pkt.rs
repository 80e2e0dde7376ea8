//! The pkt-line wire framing.
//!
//! Every protocol line is prefixed by four ASCII hex digits giving the total
//! line length including the prefix itself. `0000` is a flush marker and
//! `0001` a distinct delimiter marker, both without payload; any other
//! declared length below four, or a non-hex prefix, is a protocol error.

use crate::digits::hex_digit;
use crate::digits::hex_val;
use crate::digits::is_hex_digit;
use crate::error::MyGitError;
use vstd::prelude::*;
use vstd::slice::slice_subrange;
use vstd::slice::slice_to_vec;

verus! {

/// One framed protocol line.
#[derive(Debug, Clone, PartialEq)]
pub enum PktLine {
    /// The `0000` flush marker.
    Flush,
    /// The `0001` delimiter marker used during negotiation.
    Delim,
    /// A payload-carrying line.
    Data(Vec<u8>),
}

/// The mathematical form of a pkt-line.
pub enum PktLineView {
    Flush,
    Delim,
    Data(Seq<u8>),
}

impl View for PktLine {
    type V = PktLineView;

    open spec fn view(&self) -> PktLineView {
        match self {
            PktLine::Flush => PktLineView::Flush,
            PktLine::Delim => PktLineView::Delim,
            PktLine::Data(v) => PktLineView::Data(v@),
        }
    }
}

/// The four hex digits of a length below 65536, most significant first.
pub open spec fn hex4(n: nat) -> Seq<u8> {
    seq![
        hex_digit((n / 16 / 16 / 16 % 16) as u8),
        hex_digit((n / 16 / 16 % 16) as u8),
        hex_digit((n / 16 % 16) as u8),
        hex_digit((n % 16) as u8),
    ]
}

/// The longest payload a single line can carry: 65535 minus the prefix.
pub open spec fn pkt_max_payload() -> nat {
    65531
}

/// The framed form of one payload line.
pub open spec fn pkt_encode_spec(payload: Seq<u8>) -> Seq<u8>
    recommends
        payload.len() <= pkt_max_payload(),
{
    hex4(payload.len() + 4) + payload
}

/// Frames one payload as a pkt-line.
pub fn pkt_encode(payload: &[u8]) -> (r: Result<Vec<u8>, MyGitError>)
    ensures
        match r {
            Ok(v) => payload@.len() <= pkt_max_payload() && v@ == pkt_encode_spec(payload@),
            Err(e) => payload@.len() > pkt_max_payload() && e == MyGitError::ProtocolError,
        },
{
    if payload.len() > 65531 {
        return Err(MyGitError::ProtocolError);
    }
    let n = payload.len() + 4;
    let m1 = n / 16;
    let m2 = m1 / 16;
    let m3 = m2 / 16;
    let mut out: Vec<u8> = Vec::new();
    out.push(hex_digit_of(m3 % 16));
    out.push(hex_digit_of(m2 % 16));
    out.push(hex_digit_of(m1 % 16));
    out.push(hex_digit_of(n % 16));
    crate::digits::push_bytes(&mut out, payload);
    proof {
        assert(out@ =~= pkt_encode_spec(payload@));
    }
    Ok(out)
}

/// The lowercase hex digit of a value below sixteen.
fn hex_digit_of(n: usize) -> (r: u8)
    requires
        n < 16,
    ensures
        r == hex_digit(n as u8),
{
    if n < 10 {
        48 + n as u8
    } else {
        87 + n as u8
    }
}

/// What reading one line at `pos` yields: the line and the position after
/// it, or nothing when the prefix is malformed, a declared length is below
/// four without being a marker, or the line is truncated.
pub open spec fn pkt_line_spec(data: Seq<u8>, pos: int) -> Option<(PktLineView, int)> {
    if pos + 4 > data.len() {
        None
    } else if !(is_hex_digit(data[pos]) && is_hex_digit(data[pos + 1]) && is_hex_digit(
        data[pos + 2],
    ) && is_hex_digit(data[pos + 3])) {
        None
    } else {
        let n = hex_val(data[pos]) * 4096 + hex_val(data[pos + 1]) * 256 + hex_val(
            data[pos + 2],
        ) * 16 + hex_val(data[pos + 3]);
        if n == 0 {
            Some((PktLineView::Flush, pos + 4))
        } else if n == 1 {
            Some((PktLineView::Delim, pos + 4))
        } else if n < 4 {
            None
        } else if pos + n > data.len() {
            None
        } else {
            Some((PktLineView::Data(data.subrange(pos + 4, pos + n)), pos + n))
        }
    }
}

/// What decoding the whole buffer from `pos` yields: the lines until the
/// end of the buffer, or nothing when any line is malformed.
pub open spec fn pkt_lines_spec(data: Seq<u8>, pos: int) -> Option<Seq<PktLineView>>
    decreases data.len() - pos,
    when 0 <= pos <= data.len()
{
    if pos == data.len() {
        Some(Seq::empty())
    } else {
        match pkt_line_spec(data, pos) {
            None => None,
            Some(lp) => {
                if lp.1 <= pos || lp.1 > data.len() {
                    None
                } else {
                    match pkt_lines_spec(data, lp.1) {
                        None => None,
                        Some(rest) => Some(seq![lp.0] + rest),
                    }
                }
            },
        }
    }
}

/// Reads one line at `pos`.
pub fn pkt_decode_line(data: &[u8], pos: usize) -> (r: Result<(PktLine, usize), MyGitError>)
    requires
        pos <= data@.len(),
    ensures
        match r {
            Ok(p) => pkt_line_spec(data@, pos as int) == Some((p.0@, p.1 as int)) && pos < p.1
                <= data@.len(),
            Err(e) => pkt_line_spec(data@, pos as int) is None && e == MyGitError::ProtocolError,
        },
{
    if data.len() - pos < 4 {
        return Err(MyGitError::ProtocolError);
    }
    let b0 = data[pos];
    let b1 = data[pos + 1];
    let b2 = data[pos + 2];
    let b3 = data[pos + 3];
    if !(hex_ok(b0) && hex_ok(b1) && hex_ok(b2) && hex_ok(b3)) {
        return Err(MyGitError::ProtocolError);
    }
    let n: usize = (hex_val_of(b0) as usize) * 4096 + (hex_val_of(b1) as usize) * 256 + (hex_val_of(
        b2,
    ) as usize) * 16 + (hex_val_of(b3) as usize);
    if n == 0 {
        Ok((PktLine::Flush, pos + 4))
    } else if n == 1 {
        Ok((PktLine::Delim, pos + 4))
    } else if n < 4 {
        Err(MyGitError::ProtocolError)
    } else if n > data.len() - pos {
        Err(MyGitError::ProtocolError)
    } else {
        let payload = slice_to_vec(slice_subrange(data, pos + 4, pos + n));
        Ok((PktLine::Data(payload), pos + n))
    }
}

/// Checks for a lowercase hex digit.
fn hex_ok(b: u8) -> (r: bool)
    ensures
        r == is_hex_digit(b),
{
    (48 <= b && b <= 57) || (97 <= b && b <= 102)
}

/// The value of a lowercase hex digit.
fn hex_val_of(b: u8) -> (r: u8)
    requires
        is_hex_digit(b),
    ensures
        r == hex_val(b),
        r < 16,
{
    if b <= 57 {
        b - 48
    } else {
        b - 87
    }
}

/// The concatenation of a known prefix with a possibly failed tail.
pub open spec fn opt_prepend(s: Seq<PktLineView>, o: Option<Seq<PktLineView>>) -> Option<
    Seq<PktLineView>,
> {
    match o {
        None => None,
        Some(t) => Some(s + t),
    }
}

/// Decodes a whole buffer of framed lines.
pub fn pkt_decode(data: &[u8]) -> (r: Result<Vec<PktLine>, MyGitError>)
    ensures
        match r {
            Ok(v) => pkt_lines_spec(data@, 0) == Some(v@.map_values(|l: PktLine| l@)),
            Err(e) => pkt_lines_spec(data@, 0) is None && e == MyGitError::ProtocolError,
        },
{
    let mut out: Vec<PktLine> = Vec::new();
    let mut pos: usize = 0;
    while pos < data.len()
        invariant
            pos <= data@.len(),
            pkt_lines_spec(data@, 0) == opt_prepend(
                out@.map_values(|l: PktLine| l@),
                pkt_lines_spec(data@, pos as int),
            ),
        decreases data@.len() - pos,
    {
        let (line, next) = match pkt_decode_line(data, pos) {
            Ok(p) => p,
            Err(e) => {
                return Err(e);
            },
        };
        let ghost prev_views = out@.map_values(|l: PktLine| l@);
        let ghost line_view = line@;
        out.push(line);
        pos = next;
        proof {
            assert(out@.map_values(|l: PktLine| l@) =~= prev_views + seq![line_view]);
            match pkt_lines_spec(data@, pos as int) {
                Some(t) => {
                    assert(prev_views + (seq![line_view] + t) =~= (prev_views + seq![line_view])
                        + t);
                },
                None => {},
            }
        }
    }
    proof {
        assert(out@.map_values(|l: PktLine| l@) + Seq::<PktLineView>::empty() =~= out@.map_values(
            |l: PktLine| l@,
        ));
    }
    Ok(out)
}

/// Framing then unframing yields exactly one line holding the payload: the
/// pkt-line codec round-trips on every payload a line can carry.
pub proof fn lemma_pkt_round_trip(payload: Seq<u8>)
    requires
        payload.len() <= pkt_max_payload(),
    ensures
        pkt_lines_spec(pkt_encode_spec(payload), 0) == Some(
            seq![PktLineView::Data(payload)],
        ),
{
    let e = pkt_encode_spec(payload);
    let n = payload.len() + 4;
    assert(e.len() == n);
    assert(e[0] == hex_digit((n / 16 / 16 / 16 % 16) as u8));
    assert(e[1] == hex_digit((n / 16 / 16 % 16) as u8));
    assert(e[2] == hex_digit((n / 16 % 16) as u8));
    assert(e[3] == hex_digit((n % 16) as u8));
    lemma_hex_digit_val((n / 16 / 16 / 16 % 16) as u8);
    lemma_hex_digit_val((n / 16 / 16 % 16) as u8);
    lemma_hex_digit_val((n / 16 % 16) as u8);
    lemma_hex_digit_val((n % 16) as u8);
    assert(n / 16 / 16 / 16 % 16 == n / 16 / 16 / 16) by {
        assert(n < 65536);
        assert(n / 16 < 4096);
        assert(n / 16 / 16 < 256);
        assert(n / 16 / 16 / 16 < 16);
    }
    let v = hex_val(e[0]) * 4096 + hex_val(e[1]) * 256 + hex_val(e[2]) * 16 + hex_val(e[3]);
    assert(v == (n / 16 / 16 / 16) * 4096 + (n / 16 / 16 % 16) * 256 + (n / 16 % 16) * 16 + n
        % 16);
    assert(v == n) by {
        assert(n == (n / 16) * 16 + n % 16);
        assert(n / 16 == (n / 16 / 16) * 16 + n / 16 % 16);
        assert(n / 16 / 16 == (n / 16 / 16 / 16) * 16 + n / 16 / 16 % 16);
    }
    assert(pkt_line_spec(e, 0) == Some((PktLineView::Data(e.subrange(4, n as int)), n as int)));
    assert(e.subrange(4, n as int) =~= payload);
    assert(pkt_lines_spec(e, n as int) == Some(Seq::<PktLineView>::empty()));
    assert(seq![PktLineView::Data(payload)] + Seq::<PktLineView>::empty() =~= seq![
        PktLineView::Data(payload),
    ]);
}

/// The value of a hex digit of a value below sixteen.
proof fn lemma_hex_digit_val(x: u8)
    requires
        x < 16,
    ensures
        is_hex_digit(hex_digit(x)),
        hex_val(hex_digit(x)) == x,
{
}

/// The four zero digits alone decode to exactly one flush marker.
pub proof fn lemma_pkt_flush_decode()
    ensures
        pkt_lines_spec(seq![48u8, 48u8, 48u8, 48u8], 0) == Some(seq![PktLineView::Flush]),
{
    let e = seq![48u8, 48u8, 48u8, 48u8];
    assert(is_hex_digit(48) && hex_val(48) == 0);
    assert(pkt_line_spec(e, 0) == Some((PktLineView::Flush, 4int)));
    assert(pkt_lines_spec(e, 4) == Some(Seq::<PktLineView>::empty()));
    assert(seq![PktLineView::Flush] + Seq::<PktLineView>::empty() =~= seq![PktLineView::Flush]);
}

} // verus!
