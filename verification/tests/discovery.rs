use mygit::MyGitError;
use mygit::ReferenceDiscovery;
use mygit::build_fetch_request;
use mygit::pkt_encode;

const ID_1: &str = "20f7295d14cbf2d4a12bf41d3a1b6bf17c04c6a3";
const ID_2: &str = "4b825dc642cb6eb9a060e54bf8d69288fbee4904";

fn advertisement() -> Vec<u8> {
    let mut body = Vec::new();
    body.extend_from_slice(&pkt_encode(b"# service=git-upload-pack\n").unwrap());
    body.extend_from_slice(b"0000");
    let first = format!("{} refs/heads/main\0multi_ack side-band-64k\n", ID_1);
    body.extend_from_slice(&pkt_encode(first.as_bytes()).unwrap());
    let second = format!("{} refs/heads/dev\n", ID_2);
    body.extend_from_slice(&pkt_encode(second.as_bytes()).unwrap());
    body.extend_from_slice(b"0000");
    body
}

#[test]
fn two_ref_advertisement_parses_in_order() {
    // The first ref's NUL-delimited capability string splits off the ref
    // name; both pairs come back in encounter order.
    let d = ReferenceDiscovery::parse(&advertisement()).unwrap();
    assert_eq!(d.sha_ref_pairs.len(), 2);
    assert_eq!(d.sha_ref_pairs[0].0, ID_1);
    assert_eq!(d.sha_ref_pairs[0].1, "refs/heads/main");
    assert_eq!(d.sha_ref_pairs[1].0, ID_2);
    assert_eq!(d.sha_ref_pairs[1].1, "refs/heads/dev");
    assert_eq!(d.capabilities, vec!["multi_ack".to_string(), "side-band-64k".to_string()]);
}

#[test]
fn advertisement_without_service_line_is_rejected() {
    let mut body = Vec::new();
    body.extend_from_slice(&pkt_encode(b"# service=git-receive-pack\n").unwrap());
    body.extend_from_slice(b"0000");
    body.extend_from_slice(b"0000");
    assert_eq!(
        ReferenceDiscovery::parse(&body).unwrap_err(),
        MyGitError::ProtocolError
    );
}

#[test]
fn advertisement_with_short_id_is_rejected() {
    let mut body = Vec::new();
    body.extend_from_slice(&pkt_encode(b"# service=git-upload-pack\n").unwrap());
    body.extend_from_slice(b"0000");
    body.extend_from_slice(&pkt_encode(b"abc refs/heads/main\n").unwrap());
    body.extend_from_slice(b"0000");
    assert_eq!(
        ReferenceDiscovery::parse(&body).unwrap_err(),
        MyGitError::ProtocolError
    );
}

#[test]
fn advertisement_without_final_flush_is_rejected() {
    let mut body = Vec::new();
    body.extend_from_slice(&pkt_encode(b"# service=git-upload-pack\n").unwrap());
    body.extend_from_slice(b"0000");
    let first = format!("{} refs/heads/main\0caps\n", ID_1);
    body.extend_from_slice(&pkt_encode(first.as_bytes()).unwrap());
    assert_eq!(
        ReferenceDiscovery::parse(&body).unwrap_err(),
        MyGitError::ProtocolError
    );
}

#[test]
fn unframed_advertisement_is_rejected() {
    assert_eq!(
        ReferenceDiscovery::parse(b"hello").unwrap_err(),
        MyGitError::ProtocolError
    );
}

#[test]
fn non_utf8_ref_name_is_rejected() {
    let mut body = Vec::new();
    body.extend_from_slice(&pkt_encode(b"# service=git-upload-pack\n").unwrap());
    body.extend_from_slice(b"0000");
    let mut first = format!("{} refs/heads/", ID_1).into_bytes();
    first.push(0xff);
    first.push(b'\n');
    body.extend_from_slice(&pkt_encode(&first).unwrap());
    body.extend_from_slice(b"0000");
    assert_eq!(
        ReferenceDiscovery::parse(&body).unwrap_err(),
        MyGitError::ProtocolError
    );
}

#[test]
fn empty_ref_section_parses_to_nothing() {
    let mut body = Vec::new();
    body.extend_from_slice(&pkt_encode(b"# service=git-upload-pack\n").unwrap());
    body.extend_from_slice(b"0000");
    body.extend_from_slice(b"0000");
    let d = ReferenceDiscovery::parse(&body).unwrap();
    assert!(d.sha_ref_pairs.is_empty());
    assert!(d.capabilities.is_empty());
}

#[test]
fn fetch_request_is_byte_exact() {
    let wants = vec![ID_1.to_string()];
    let body = build_fetch_request(&wants);
    let expected = format!("0011command=fetch0032want {}\n00000009done\n0000", ID_1);
    assert_eq!(body, expected.into_bytes());
}

#[test]
fn fetch_request_lists_every_want() {
    let wants = vec![ID_1.to_string(), ID_2.to_string()];
    let body = build_fetch_request(&wants);
    let expected = format!(
        "0011command=fetch0032want {}\n0032want {}\n00000009done\n0000",
        ID_1, ID_2
    );
    assert_eq!(body, expected.into_bytes());
}
