//! Reference discovery and the fetch-request grammar.
//!
//! The discovery response is pkt-line framed: a service announcement, a
//! flush, then one line per reference until a flush. Each ref line carries
//! a forty-digit id, a space and the ref name; the first one additionally
//! carries a NUL-separated, space-split capability string that belongs to
//! the advertisement, not to the name. The fetch request sent back is
//! framed byte-for-byte: `command=fetch`, one `want` per chosen id, a
//! flush, `done`, and a final flush.

use crate::asciistr::push_str_bytes;
use crate::asciistr::vec_to_string;
use crate::digits::all_hex_digits;
use crate::digits::find_byte;
use crate::digits::find_byte_in;
use crate::digits::lemma_find_byte_props;
use crate::digits::valid_hex_id;
use crate::error::MyGitError;
use crate::pkt::PktLine;
use crate::pkt::PktLineView;
use crate::pkt::pkt_decode;
use crate::pkt::pkt_encode_spec;
use crate::pkt::pkt_lines_spec;
use vstd::prelude::*;
use vstd::slice::slice_subrange;
use vstd::slice::slice_to_vec;
use vstd::utf8::decode_utf8;
use vstd::utf8::encode_utf8;
use vstd::utf8::valid_utf8;

verus! {

/// The advertisement's parts, still as raw bytes.
pub struct AdvBytes {
    pub pairs: Seq<(Seq<u8>, Seq<u8>)>,
    pub caps: Seq<Seq<u8>>,
}

/// The literal announcement expected on the first line.
pub open spec fn service_bytes() -> Seq<u8> {
    encode_utf8("# service=git-upload-pack"@)
}

/// The first line's payload: the announcement, with or without a trailing
/// line feed.
pub open spec fn is_service_line(p: Seq<u8>) -> bool {
    p == service_bytes() || p == service_bytes() + seq![10u8]
}

/// Splits one ref line payload: forty hex id bytes, one space, the name up
/// to a NUL or the line's end, and the bytes after the NUL when one is
/// there. A trailing line feed is stripped first.
pub open spec fn split_ref_payload(p: Seq<u8>) -> Option<(Seq<u8>, Seq<u8>, Option<Seq<u8>>)> {
    let q = if p.len() > 0 && p.last() == 10 {
        p.drop_last()
    } else {
        p
    };
    if q.len() < 42 {
        None
    } else if !all_hex_digits(q.subrange(0, 40)) {
        None
    } else if q[40] != 32 {
        None
    } else {
        let rest = q.subrange(41, q.len() as int);
        let nl = find_byte_in(rest, 0u8, 0, rest.len() as int);
        if nl < 0 {
            Some((q.subrange(0, 40), rest, None))
        } else {
            Some(
                (
                    q.subrange(0, 40),
                    rest.subrange(0, nl),
                    Some(rest.subrange(nl + 1, rest.len() as int)),
                ),
            )
        }
    }
}

/// The pieces of `s` from `from` on, split on single spaces.
pub open spec fn split_spaces_from(s: Seq<u8>, from: int) -> Seq<Seq<u8>>
    decreases s.len() - from,
    when 0 <= from <= s.len()
    via split_spaces_from_decreases
{
    let k = find_byte_in(s, 32u8, from, s.len() as int);
    if k < 0 {
        seq![s.subrange(from, s.len() as int)]
    } else {
        seq![s.subrange(from, k)] + split_spaces_from(s, k + 1)
    }
}

#[via_fn]
proof fn split_spaces_from_decreases(s: Seq<u8>, from: int) {
    lemma_find_byte_props(s, 32u8, from, s.len() as int);
}

/// A capability string split on single spaces.
pub open spec fn split_spaces(s: Seq<u8>) -> Seq<Seq<u8>> {
    split_spaces_from(s, 0)
}

/// Ref pairs from `lines[i]` on, up to the flush ending the section.
pub open spec fn collect_pairs(lines: Seq<PktLineView>, i: int) -> Option<Seq<(Seq<u8>, Seq<u8>)>>
    decreases lines.len() - i,
    when 0 <= i <= lines.len()
{
    if i >= lines.len() {
        None
    } else {
        match lines[i] {
            PktLineView::Flush => Some(Seq::empty()),
            PktLineView::Delim => None,
            PktLineView::Data(p) => match split_ref_payload(p) {
                None => None,
                Some(t) => match collect_pairs(lines, i + 1) {
                    None => None,
                    Some(r) => Some(seq![(t.0, t.1)] + r),
                },
            },
        }
    }
}

/// The advertisement's leading shape: the announcement, a flush, and a
/// first ref line that splits into the given parts.
pub open spec fn adv_head_ok(
    lines: Seq<PktLineView>,
    raw0: (Seq<u8>, Seq<u8>),
    tail0: Option<Seq<u8>>,
) -> bool {
    &&& lines.len() >= 3
    &&& match lines[0] {
        PktLineView::Data(p) => is_service_line(p),
        _ => false,
    }
    &&& lines[1] is Flush
    &&& match lines[2] {
        PktLineView::Data(p0) => split_ref_payload(p0) == Some((raw0.0, raw0.1, tail0)),
        _ => false,
    }
}

/// What parsing the advertisement's lines yields, at the byte level.
pub open spec fn adv_from_lines(lines: Seq<PktLineView>) -> Option<AdvBytes> {
    if lines.len() < 3 {
        None
    } else {
        let ok_head = match lines[0] {
            PktLineView::Data(p) => is_service_line(p),
            _ => false,
        };
        if !ok_head {
            None
        } else if !(lines[1] is Flush) {
            None
        } else {
            match lines[2] {
                PktLineView::Flush => Some(AdvBytes { pairs: Seq::empty(), caps: Seq::empty() }),
                PktLineView::Delim => None,
                PktLineView::Data(p0) => match split_ref_payload(p0) {
                    None => None,
                    Some(t) => match collect_pairs(lines, 3) {
                        None => None,
                        Some(rest) => Some(
                            AdvBytes {
                                pairs: seq![(t.0, t.1)] + rest,
                                caps: match t.2 {
                                    None => Seq::empty(),
                                    Some(c) => split_spaces(c),
                                },
                            },
                        ),
                    },
                },
            }
        }
    }
}

/// What parsing a whole discovery response yields.
pub open spec fn adv_spec(data: Seq<u8>) -> Option<AdvBytes> {
    match pkt_lines_spec(data, 0) {
        None => None,
        Some(lines) => adv_from_lines(lines),
    }
}

/// Every pair's bytes are valid UTF-8.
pub open spec fn pairs_utf8(raw: Seq<(Seq<u8>, Seq<u8>)>) -> bool {
    forall|i: int|
        0 <= i < raw.len() ==> valid_utf8((#[trigger] raw[i]).0) && valid_utf8(raw[i].1)
}

/// Every capability's bytes are valid UTF-8.
pub open spec fn caps_utf8(raw: Seq<Seq<u8>>) -> bool {
    forall|j: int| 0 <= j < raw.len() ==> valid_utf8(#[trigger] raw[j])
}

/// Every component of the advertisement is valid UTF-8, so each can become
/// a string.
pub open spec fn adv_utf8_ok(a: AdvBytes) -> bool {
    pairs_utf8(a.pairs) && caps_utf8(a.caps)
}

pub open spec fn pairs_match(pairs: Seq<(String, String)>, raw: Seq<(Seq<u8>, Seq<u8>)>) -> bool {
    &&& pairs.len() == raw.len()
    &&& forall|i: int|
        0 <= i < raw.len() ==> (#[trigger] pairs[i]).0@ == decode_utf8(raw[i].0) && pairs[i].1@
            == decode_utf8(raw[i].1)
}

pub open spec fn caps_match(caps: Seq<String>, raw: Seq<Seq<u8>>) -> bool {
    &&& caps.len() == raw.len()
    &&& forall|j: int| 0 <= j < raw.len() ==> (#[trigger] caps[j])@ == decode_utf8(raw[j])
}

/// The parsed reference advertisement: `(id, refname)` pairs in encounter
/// order, and the capability set carried by the first ref line.
#[derive(Debug, Clone)]
pub struct ReferenceDiscovery {
    pub sha_ref_pairs: Vec<(String, String)>,
    pub capabilities: Vec<String>,
}

/// Compares two byte slices.
pub fn bytes_eq(a: &[u8], b: &[u8]) -> (r: bool)
    ensures
        r == (a@ == b@),
{
    if a.len() != b.len() {
        return false;
    }
    let mut i: usize = 0;
    while i < a.len()
        invariant
            i <= a@.len(),
            a@.len() == b@.len(),
            forall|j: int| 0 <= j < i ==> a@[j] == b@[j],
        decreases a@.len() - i,
    {
        if a[i] != b[i] {
            return false;
        }
        i = i + 1;
    }
    proof {
        assert(a@ =~= b@);
    }
    true
}

/// Splits one ref line payload.
fn split_ref_line(p: &[u8]) -> (r: Option<(Vec<u8>, Vec<u8>, Option<Vec<u8>>)>)
    ensures
        match r {
            Some(t) => split_ref_payload(p@) matches Some(u) && u.0 == t.0@ && u.1 == t.1@ && (
            match (u.2, t.2) {
                (Some(uc), Some(tc)) => uc == tc@,
                (None, None) => true,
                _ => false,
            }),
            None => split_ref_payload(p@) is None,
        },
{
    let q_end: usize = if p.len() > 0 && p[p.len() - 1] == 10 {
        p.len() - 1
    } else {
        p.len()
    };
    let q = slice_subrange(p, 0, q_end);
    proof {
        if p@.len() > 0 && p@.last() == 10 {
            assert(q@ =~= p@.drop_last());
        } else {
            assert(q@ =~= p@);
        }
    }
    if q.len() < 42 {
        return None;
    }
    let id_part = slice_subrange(q, 0, 40);
    if !crate::digits::bytes_all_hex(id_part) {
        return None;
    }
    if q[40] != 32 {
        return None;
    }
    let rest = slice_subrange(q, 41, q_end);
    let nl = find_byte(rest, 0, 0, rest.len());
    proof {
        lemma_find_byte_props(rest@, 0u8, 0, rest@.len() as int);
    }
    match nl {
        None => Some((slice_to_vec(id_part), slice_to_vec(rest), None)),
        Some(k) => {
            let name = slice_to_vec(slice_subrange(rest, 0, k));
            let tail = slice_to_vec(slice_subrange(rest, k + 1, rest.len()));
            Some((slice_to_vec(id_part), name, Some(tail)))
        },
    }
}

/// Splits a capability string on single spaces.
fn split_spaces_exec(s: &[u8]) -> (r: Vec<Vec<u8>>)
    ensures
        r@.map_values(|v: Vec<u8>| v@) == split_spaces(s@),
{
    let mut out: Vec<Vec<u8>> = Vec::new();
    let mut from: usize = 0;
    loop
        invariant
            from <= s@.len(),
            split_spaces(s@) == out@.map_values(|v: Vec<u8>| v@) + split_spaces_from(
                s@,
                from as int,
            ),
        decreases s@.len() - from,
    {
        let ghost prev = out@.map_values(|v: Vec<u8>| v@);
        match find_byte(s, 32, from, s.len()) {
            None => {
                out.push(slice_to_vec(slice_subrange(s, from, s.len())));
                proof {
                    assert(split_spaces_from(s@, from as int) =~= seq![
                        s@.subrange(from as int, s@.len() as int),
                    ]);
                    assert(out@.map_values(|v: Vec<u8>| v@) =~= prev + split_spaces_from(
                        s@,
                        from as int,
                    ));
                    assert(prev + split_spaces_from(s@, from as int) =~= split_spaces(s@));
                }
                return out;
            },
            Some(k) => {
                proof {
                    lemma_find_byte_props(s@, 32u8, from as int, s@.len() as int);
                }
                out.push(slice_to_vec(slice_subrange(s, from, k)));
                proof {
                    let tail = split_spaces_from(s@, k + 1);
                    assert(split_spaces_from(s@, from as int) == seq![
                        s@.subrange(from as int, k as int),
                    ] + tail);
                    assert(out@.map_values(|v: Vec<u8>| v@) =~= prev + seq![
                        s@.subrange(from as int, k as int),
                    ]);
                    assert(prev + (seq![s@.subrange(from as int, k as int)] + tail) =~= (prev
                        + seq![s@.subrange(from as int, k as int)]) + tail);
                }
                from = k + 1;
            },
        }
    }
}

/// The concatenation of a known prefix of pairs with a possibly failed
/// tail.
pub open spec fn opt_prepend_pairs(
    s: Seq<(Seq<u8>, Seq<u8>)>,
    o: Option<Seq<(Seq<u8>, Seq<u8>)>>,
) -> Option<Seq<(Seq<u8>, Seq<u8>)>> {
    match o {
        None => None,
        Some(t) => Some(s + t),
    }
}

impl ReferenceDiscovery {
    /// Parses a reference-discovery response body. Succeeds exactly when
    /// the body is a well-formed advertisement whose names and capabilities
    /// are valid UTF-8, and then returns the `(id, refname)` pairs in
    /// encounter order with the first line's capability string split off
    /// rather than kept as part of the name.
    pub fn parse(input: &[u8]) -> (r: Result<ReferenceDiscovery, MyGitError>)
        ensures
            match r {
                Ok(d) => (match adv_spec(input@) {
                    Some(a) => adv_utf8_ok(a) && pairs_match(d.sha_ref_pairs@, a.pairs)
                        && caps_match(d.capabilities@, a.caps),
                    None => false,
                }),
                Err(e) => e == MyGitError::ProtocolError && (match adv_spec(input@) {
                    Some(a) => !adv_utf8_ok(a),
                    None => true,
                }),
            },
    {
        let lines = match pkt_decode(input) {
            Ok(l) => l,
            Err(_) => {
                return Err(MyGitError::ProtocolError);
            },
        };
        let ghost lviews = lines@.map_values(|l: PktLine| l@);
        if lines.len() < 3 {
            return Err(MyGitError::ProtocolError);
        }
        let mut svc: Vec<u8> = Vec::new();
        push_str_bytes(&mut svc, "# service=git-upload-pack");
        match &lines[0] {
            PktLine::Data(p) => {
                let direct = bytes_eq(p.as_slice(), svc.as_slice());
                let with_lf = !direct && p.len() >= 1 && p.len() - 1 == svc.len() && p[p.len()
                    - 1] == 10 && bytes_eq(
                    slice_subrange(p.as_slice(), 0, p.len() - 1),
                    svc.as_slice(),
                );
                proof {
                    if with_lf {
                        assert(p@ =~= service_bytes() + seq![10u8]);
                    }
                    if !direct && !with_lf && p@ == service_bytes() + seq![10u8] {
                        assert(p@.len() == svc@.len() + 1);
                        assert(p@[p@.len() - 1] == 10);
                        assert(p@.subrange(0, p@.len() - 1) =~= service_bytes());
                    }
                }
                if !(direct || with_lf) {
                    return Err(MyGitError::ProtocolError);
                }
            },
            _ => {
                return Err(MyGitError::ProtocolError);
            },
        }
        match &lines[1] {
            PktLine::Flush => {},
            _ => {
                return Err(MyGitError::ProtocolError);
            },
        }
        let first = match &lines[2] {
            PktLine::Flush => {
                return Ok(
                    ReferenceDiscovery { sha_ref_pairs: Vec::new(), capabilities: Vec::new() },
                );
            },
            PktLine::Delim => {
                return Err(MyGitError::ProtocolError);
            },
            PktLine::Data(p0) => split_ref_line(p0.as_slice()),
        };
        let (id0, name0, tail0) = match first {
            Some(t) => t,
            None => {
                return Err(MyGitError::ProtocolError);
            },
        };
        let ghost raw0 = (id0@, name0@);
        let ghost raw_tail0 = match tail0 {
            Some(ref t) => Some(t@),
            None => None::<Seq<u8>>,
        };
        proof {
            assert(adv_head_ok(lviews, raw0, raw_tail0));
        }
        let id0s = match vec_to_string(id0) {
            Ok(s) => s,
            Err(_) => {
                proof {
                    match adv_from_lines(lviews) {
                        Some(a) => {
                            assert(a.pairs[0].0 == raw0.0);
                            assert(!adv_utf8_ok(a));
                        },
                        None => {},
                    }
                }
                return Err(MyGitError::ProtocolError);
            },
        };
        let name0s = match vec_to_string(name0) {
            Ok(s) => s,
            Err(_) => {
                proof {
                    match adv_from_lines(lviews) {
                        Some(a) => {
                            assert(a.pairs[0].1 == raw0.1);
                            assert(!adv_utf8_ok(a));
                        },
                        None => {},
                    }
                }
                return Err(MyGitError::ProtocolError);
            },
        };
        let mut pairs: Vec<(String, String)> = Vec::new();
        pairs.push((id0s, name0s));
        let ghost mut raw_rest: Seq<(Seq<u8>, Seq<u8>)> = Seq::empty();
        let mut i: usize = 3;
        proof {
            assert(seq![raw0] + raw_rest =~= seq![raw0]);
            assert(pairs_utf8(seq![raw0] + raw_rest)) by {
                assert((seq![raw0] + raw_rest)[0] == raw0);
            }
        }
        loop
            invariant
                3 <= i <= lines@.len(),
                lviews == lines@.map_values(|l: PktLine| l@),
                lviews.len() == lines@.len(),
                pkt_lines_spec(input@, 0) == Some(lviews),
                adv_head_ok(lviews, raw0, raw_tail0),
                collect_pairs(lviews, 3) == opt_prepend_pairs(
                    raw_rest,
                    collect_pairs(lviews, i as int),
                ),
                pairs@.len() == 1 + raw_rest.len(),
                pairs_match(pairs@, seq![raw0] + raw_rest),
                pairs_utf8(seq![raw0] + raw_rest),
            ensures
                pkt_lines_spec(input@, 0) == Some(lviews),
                adv_head_ok(lviews, raw0, raw_tail0),
                collect_pairs(lviews, 3) == Some(raw_rest),
                pairs@.len() == 1 + raw_rest.len(),
                pairs_match(pairs@, seq![raw0] + raw_rest),
                pairs_utf8(seq![raw0] + raw_rest),
            decreases lviews.len() - i,
        {
            if i == lines.len() {
                proof {
                    assert(collect_pairs(lviews, i as int) is None);
                    assert(collect_pairs(lviews, 3) is None);
                }
                return Err(MyGitError::ProtocolError);
            }
            let flush_here = match &lines[i] {
                PktLine::Flush => true,
                PktLine::Delim => {
                    proof {
                        assert(collect_pairs(lviews, i as int) is None);
                        assert(collect_pairs(lviews, 3) is None);
                    }
                    return Err(MyGitError::ProtocolError);
                },
                PktLine::Data(_) => false,
            };
            if flush_here {
                // The flush ending the ref section.
                proof {
                    assert(collect_pairs(lviews, i as int) == Some(
                        Seq::<(Seq<u8>, Seq<u8>)>::empty(),
                    ));
                    assert(raw_rest + Seq::<(Seq<u8>, Seq<u8>)>::empty() =~= raw_rest);
                    assert(collect_pairs(lviews, 3) == Some(raw_rest));
                }
                break ;
            }
            let parsed = match &lines[i] {
                PktLine::Data(p) => split_ref_line(p.as_slice()),
                _ => {
                    proof {
                        assert(false);
                    }
                    None
                },
            };
            let (idb, nameb, _tail) = match parsed {
                Some(t) => t,
                None => {
                    proof {
                        assert(collect_pairs(lviews, i as int) is None);
                        assert(collect_pairs(lviews, 3) is None);
                    }
                    return Err(MyGitError::ProtocolError);
                },
            };
            let ghost cur = (idb@, nameb@);
            proof {
                assert(collect_pairs(lviews, i as int) == opt_prepend_pairs(
                    seq![cur],
                    collect_pairs(lviews, i as int + 1),
                ));
            }
            let ids = match vec_to_string(idb) {
                Ok(s) => s,
                Err(_) => {
                    proof {
                        lemma_pair_in_adv(lviews, raw0, raw_tail0, raw_rest, i as int, cur);
                        match adv_from_lines(lviews) {
                            Some(a) => {
                                assert(a.pairs[1 + raw_rest.len() as int].0 == cur.0);
                                assert(!adv_utf8_ok(a));
                            },
                            None => {},
                        }
                    }
                    return Err(MyGitError::ProtocolError);
                },
            };
            let names = match vec_to_string(nameb) {
                Ok(s) => s,
                Err(_) => {
                    proof {
                        lemma_pair_in_adv(lviews, raw0, raw_tail0, raw_rest, i as int, cur);
                        match adv_from_lines(lviews) {
                            Some(a) => {
                                assert(a.pairs[1 + raw_rest.len() as int].1 == cur.1);
                                assert(!adv_utf8_ok(a));
                            },
                            None => {},
                        }
                    }
                    return Err(MyGitError::ProtocolError);
                },
            };
            let ghost old_pairs = pairs@;
            let ghost ids_view = ids@;
            let ghost names_view = names@;
            pairs.push((ids, names));
            proof {
                let old_rest = raw_rest;
                raw_rest = raw_rest + seq![cur];
                match collect_pairs(lviews, i as int + 1) {
                    Some(t) => {
                        assert(old_rest + (seq![cur] + t) =~= raw_rest + t);
                    },
                    None => {},
                }
                assert forall|n: int| 0 <= n < pairs@.len() implies (#[trigger] pairs@[n]).0@
                    == decode_utf8((seq![raw0] + raw_rest)[n].0) && pairs@[n].1@ == decode_utf8(
                    (seq![raw0] + raw_rest)[n].1,
                ) by {
                    if n < pairs@.len() - 1 {
                        assert(pairs@[n] == old_pairs[n]);
                        assert((seq![raw0] + raw_rest)[n] == (seq![raw0] + old_rest)[n]);
                    } else {
                        assert(pairs@[n].0@ == ids_view);
                        assert(pairs@[n].1@ == names_view);
                        assert((seq![raw0] + raw_rest)[n] == cur);
                    }
                }
                assert forall|n: int| 0 <= n < (seq![raw0] + raw_rest).len() implies valid_utf8(
                    (#[trigger] (seq![raw0] + raw_rest)[n]).0,
                ) && valid_utf8((seq![raw0] + raw_rest)[n].1) by {
                    if n < (seq![raw0] + raw_rest).len() - 1 {
                        assert((seq![raw0] + raw_rest)[n] == (seq![raw0] + old_rest)[n]);
                    } else {
                        assert((seq![raw0] + raw_rest)[n] == cur);
                    }
                }
            }
            i = i + 1;
        }
        // Capabilities from the first ref line's tail.
        let mut capabilities: Vec<String> = Vec::new();
        let ghost raw_caps: Seq<Seq<u8>> = match raw_tail0 {
            None => Seq::empty(),
            Some(c) => split_spaces(c),
        };
        match tail0 {
            None => {},
            Some(tail) => {
                let parts = split_spaces_exec(tail.as_slice());
                let mut j: usize = 0;
                while j < parts.len()
                    invariant
                        j <= parts@.len(),
                        adv_head_ok(lviews, raw0, raw_tail0),
                        pkt_lines_spec(input@, 0) == Some(lviews),
                        collect_pairs(lviews, 3) == Some(raw_rest),
                        raw_tail0 is Some,
                        raw_caps == parts@.map_values(|v: Vec<u8>| v@),
                        raw_caps == (match raw_tail0 {
                            None => Seq::<Seq<u8>>::empty(),
                            Some(c) => split_spaces(c),
                        }),
                        capabilities@.len() == j,
                        forall|k: int|
                            0 <= k < j ==> (#[trigger] capabilities@[k])@ == decode_utf8(
                                raw_caps[k],
                            ),
                        forall|k: int| 0 <= k < j ==> valid_utf8(#[trigger] raw_caps[k]),
                    decreases parts@.len() - j,
                {
                    let part = slice_to_vec(parts[j].as_slice());
                    let c = match vec_to_string(part) {
                        Ok(s) => s,
                        Err(_) => {
                            proof {
                                match adv_from_lines(lviews) {
                                    Some(a) => {
                                        assert(a.caps == raw_caps);
                                        assert(!valid_utf8(a.caps[j as int]));
                                        assert(!adv_utf8_ok(a));
                                    },
                                    None => {},
                                }
                            }
                            return Err(MyGitError::ProtocolError);
                        },
                    };
                    capabilities.push(c);
                    j = j + 1;
                }
            },
        }
        proof {
            assert(caps_utf8(raw_caps));
            assert(caps_match(capabilities@, raw_caps));
            match adv_from_lines(lviews) {
                Some(a) => {
                    assert(a.pairs == seq![raw0] + raw_rest);
                    assert(a.caps == raw_caps);
                    assert(adv_utf8_ok(a));
                },
                None => {},
            }
            assert(adv_from_lines(lviews) is Some);
        }
        Ok(ReferenceDiscovery { sha_ref_pairs: pairs, capabilities })
    }
}

/// The payload `command=fetch`, as bytes.
pub open spec fn command_fetch_bytes() -> Seq<u8> {
    seq![99u8, 111u8, 109u8, 109u8, 97u8, 110u8, 100u8, 61u8, 102u8, 101u8, 116u8, 99u8, 104u8]
}

/// The payload prefix `want `, as bytes.
pub open spec fn want_prefix_bytes() -> Seq<u8> {
    seq![119u8, 97u8, 110u8, 116u8, 32u8]
}

/// The payload `done` with its line feed, as bytes.
pub open spec fn done_bytes() -> Seq<u8> {
    seq![100u8, 111u8, 110u8, 101u8, 10u8]
}

/// The flush marker `0000`, as bytes.
pub open spec fn flush_bytes() -> Seq<u8> {
    seq![48u8, 48u8, 48u8, 48u8]
}

/// One framed `want <id>` line.
pub open spec fn want_line(id: Seq<char>) -> Seq<u8> {
    pkt_encode_spec(want_prefix_bytes() + encode_utf8(id) + seq![10u8])
}

/// The framed `want` lines of the chosen ids, in order.
pub open spec fn want_lines(wants: Seq<Seq<char>>) -> Seq<u8>
    decreases wants.len(),
{
    if wants.len() == 0 {
        Seq::empty()
    } else {
        want_lines(wants.drop_last()) + want_line(wants.last())
    }
}

/// The whole fetch request body, byte for byte: `command=fetch`, one `want`
/// per chosen id, a flush, `done`, and a final flush.
pub open spec fn fetch_request_spec(wants: Seq<Seq<char>>) -> Seq<u8> {
    pkt_encode_spec(command_fetch_bytes()) + want_lines(wants) + flush_bytes() + pkt_encode_spec(
        done_bytes(),
    ) + flush_bytes()
}

/// Builds the fetch request body for the chosen ids.
pub fn build_fetch_request(wants: &Vec<String>) -> (r: Vec<u8>)
    requires
        forall|i: int| 0 <= i < wants@.len() ==> valid_hex_id((#[trigger] wants@[i])@),
    ensures
        r@ == fetch_request_spec(wants@.map_values(|s: String| s@)),
{
    let ghost wviews = wants@.map_values(|s: String| s@);
    let mut out: Vec<u8> = Vec::new();
    let mut cmd: Vec<u8> = Vec::new();
    push_str_bytes(&mut cmd, "command=fetch");
    proof {
        reveal_strlit("command=fetch");
        assert("command=fetch"@.len() == 13);
        assert(vstd::utf8::is_ascii_chars("command=fetch"@));
        vstd::utf8::is_ascii_chars_encode_utf8("command=fetch"@);
        assert(cmd@ =~= command_fetch_bytes());
    }
    append_pkt(&mut out, cmd);
    let mut i: usize = 0;
    while i < wants.len()
        invariant
            i <= wants@.len(),
            wviews == wants@.map_values(|s: String| s@),
            forall|k: int| 0 <= k < wants@.len() ==> valid_hex_id((#[trigger] wants@[k])@),
            out@ == pkt_encode_spec(command_fetch_bytes()) + want_lines(
                wviews.subrange(0, i as int),
            ),
        decreases wants@.len() - i,
    {
        let mut line: Vec<u8> = Vec::new();
        push_str_bytes(&mut line, "want ");
        proof {
            reveal_strlit("want ");
            assert("want "@.len() == 5);
            assert(vstd::utf8::is_ascii_chars("want "@));
            vstd::utf8::is_ascii_chars_encode_utf8("want "@);
            assert(line@ =~= want_prefix_bytes());
        }
        push_str_bytes(&mut line, wants[i].as_str());
        line.push(10);
        proof {
            assert(valid_hex_id(wants@[i as int]@));
            assert(line@ =~= want_prefix_bytes() + encode_utf8(wviews[i as int]) + seq![10u8]);
        }
        append_pkt(&mut out, line);
        i = i + 1;
        proof {
            let pre = wviews.subrange(0, i as int);
            assert(pre.drop_last() =~= wviews.subrange(0, i as int - 1));
            assert(pre.last() == wviews[i as int - 1]);
            assert(out@ =~= pkt_encode_spec(command_fetch_bytes()) + want_lines(pre));
        }
    }
    proof {
        assert(wviews.subrange(0, wviews.len() as int) =~= wviews);
    }
    push_flush(&mut out);
    let mut done: Vec<u8> = Vec::new();
    push_str_bytes(&mut done, "done\n");
    proof {
        reveal_strlit("done\n");
        assert("done\n"@.len() == 5);
        assert(vstd::utf8::is_ascii_chars("done\n"@));
        vstd::utf8::is_ascii_chars_encode_utf8("done\n"@);
        assert(done@ =~= done_bytes());
    }
    append_pkt(&mut out, done);
    push_flush(&mut out);
    proof {
        assert(out@ =~= fetch_request_spec(wviews));
    }
    out
}

/// Appends a payload framed as one pkt-line. The payload must fit a line.
fn append_pkt(out: &mut Vec<u8>, payload: Vec<u8>)
    requires
        payload@.len() <= 65531,
    ensures
        final(out)@ == old(out)@ + pkt_encode_spec(payload@),
{
    match crate::pkt::pkt_encode(payload.as_slice()) {
        Ok(enc) => {
            crate::digits::push_bytes(out, enc.as_slice());
        },
        Err(_) => {
            proof {
                assert(false);
            }
        },
    }
}

/// Appends a flush marker.
fn push_flush(out: &mut Vec<u8>)
    ensures
        final(out)@ == old(out)@ + flush_bytes(),
{
    out.push(48);
    out.push(48);
    out.push(48);
    out.push(48);
    proof {
        assert(out@ =~= old(out)@ + flush_bytes());
    }
}

/// In a well-formed advertisement, the pair parsed at line `i` stands at
/// index `1 + rest.len()` of the pair list.
proof fn lemma_pair_in_adv(
    lines: Seq<PktLineView>,
    raw0: (Seq<u8>, Seq<u8>),
    tail0: Option<Seq<u8>>,
    rest: Seq<(Seq<u8>, Seq<u8>)>,
    i: int,
    cur: (Seq<u8>, Seq<u8>),
)
    requires
        adv_head_ok(lines, raw0, tail0),
        3 <= i < lines.len(),
        collect_pairs(lines, 3) == opt_prepend_pairs(rest, collect_pairs(lines, i)),
        collect_pairs(lines, i) == opt_prepend_pairs(seq![cur], collect_pairs(lines, i + 1)),
    ensures
        adv_from_lines(lines) matches Some(a) ==> a.pairs.len() > 1 + rest.len()
            && a.pairs[1 + rest.len() as int] == cur,
{
    match adv_from_lines(lines) {
        Some(a) => {
            assert(collect_pairs(lines, 3) is Some);
            let cp = collect_pairs(lines, 3)->0;
            assert(a.pairs == seq![raw0] + cp);
            assert(collect_pairs(lines, i) is Some);
            assert(collect_pairs(lines, i + 1) is Some);
            let t = collect_pairs(lines, i + 1)->0;
            assert(cp == rest + (seq![cur] + t));
            assert(cp[rest.len() as int] == cur);
            assert(a.pairs[1 + rest.len() as int] == cur);
        },
        None => {},
    }
}

} // verus!
