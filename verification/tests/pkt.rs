use mygit::MyGitError;
use mygit::PktLine;
use mygit::pkt_decode;
use mygit::pkt_encode;

#[test]
fn encode_prefixes_length() {
    assert_eq!(pkt_encode(b"hello").unwrap(), b"0009hello".to_vec());
}

#[test]
fn encode_empty_line() {
    assert_eq!(pkt_encode(b"").unwrap(), b"0004".to_vec());
}

#[test]
fn encode_rejects_oversized_payload() {
    let big = vec![0u8; 65532];
    assert_eq!(pkt_encode(&big).unwrap_err(), MyGitError::ProtocolError);
}

#[test]
fn encode_accepts_largest_payload() {
    let big = vec![7u8; 65531];
    let framed = pkt_encode(&big).unwrap();
    assert_eq!(&framed[..4], b"ffff");
    assert_eq!(framed.len(), 65535);
}

#[test]
fn decode_round_trips_one_line() {
    // Unframing the framing yields exactly one line with the payload.
    let framed = pkt_encode(b"want abc\n").unwrap();
    let lines = pkt_decode(&framed).unwrap();
    assert_eq!(lines, vec![PktLine::Data(b"want abc\n".to_vec())]);
}

#[test]
fn flush_marker_decodes_alone() {
    let lines = pkt_decode(b"0000").unwrap();
    assert_eq!(lines, vec![PktLine::Flush]);
}

#[test]
fn delimiter_stays_distinct_from_flush() {
    let lines = pkt_decode(b"00010000").unwrap();
    assert_eq!(lines, vec![PktLine::Delim, PktLine::Flush]);
}

#[test]
fn decode_rejects_non_hex_prefix() {
    assert_eq!(pkt_decode(b"00xx").unwrap_err(), MyGitError::ProtocolError);
}

#[test]
fn decode_rejects_length_below_four() {
    assert_eq!(pkt_decode(b"0002").unwrap_err(), MyGitError::ProtocolError);
}

#[test]
fn decode_rejects_truncated_line() {
    assert_eq!(pkt_decode(b"0009hell").unwrap_err(), MyGitError::ProtocolError);
}

#[test]
fn decode_walks_several_lines() {
    let mut body = pkt_encode(b"one").unwrap();
    body.extend_from_slice(&pkt_encode(b"two").unwrap());
    body.extend_from_slice(b"0000");
    let lines = pkt_decode(&body).unwrap();
    assert_eq!(
        lines,
        vec![
            PktLine::Data(b"one".to_vec()),
            PktLine::Data(b"two".to_vec()),
            PktLine::Flush,
        ]
    );
}
