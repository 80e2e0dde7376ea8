//! The pack-stream decoder.
//!
//! A fetch response multiplexes pkt-lines over side bands; band one carries
//! the pack stream. The pack itself is the signature `PACK`, a big-endian
//! version (only two is supported), a big-endian object count, then that
//! many entries: a variable-length header giving the entry's type and its
//! decompressed size, followed by one zlib stream. The compressed length is
//! never declared, so the decompressor reports how far the cursor advances.

use crate::digits::push_bytes;
use crate::error::MyGitError;
use crate::object::Object;
use crate::object::ObjectType;
use crate::pkt::PktLine;
use crate::pkt::PktLineView;
use crate::pkt::pkt_decode;
use crate::pkt::pkt_lines_spec;
use crate::store::StoreRecord;
use crate::zlib::inflate_of;
use crate::zlib::inflate_prefix;
use vstd::prelude::*;
use vstd::slice::slice_subrange;

verus! {

/// The pack header: version and declared object count, after the `PACK`
/// signature.
#[derive(Debug, Clone, Copy, PartialEq, Eq, Structural)]
pub struct PackHeader {
    pub version: u32,
    pub count: u32,
}

/// One entry's header: the three type bits and the declared decompressed
/// size.
#[derive(Debug, Clone, Copy, PartialEq, Eq, Structural)]
pub struct PackObjectHeader {
    pub kind: u8,
    pub size: u64,
}

/// Powers of two, for the size bits' offsets.
pub open spec fn pow2(k: nat) -> nat
    decreases k,
{
    if k == 0 {
        1
    } else {
        2 * pow2((k - 1) as nat)
    }
}

proof fn lemma_pow2_increases(a: nat, b: nat)
    requires
        a <= b,
    ensures
        pow2(a) <= pow2(b),
    decreases b,
{
    if a < b {
        lemma_pow2_increases(a, (b - 1) as nat);
        assert(pow2(b) == 2 * pow2((b - 1) as nat));
    }
}

/// The value carried by continuation bytes from `pos` on, with the next
/// byte's bits standing at offset `shift`: each byte contributes its low
/// seven bits, and its top bit says whether another byte follows.
pub open spec fn cont_spec(data: Seq<u8>, pos: int, shift: nat) -> Option<(nat, int)>
    decreases data.len() - pos,
    when pos >= 0
{
    if pos >= data.len() {
        None
    } else {
        let b = data[pos];
        let v = (b % 128) * pow2(shift);
        if b < 128 {
            Some((v as nat, pos + 1))
        } else {
            match cont_spec(data, pos + 1, shift + 7) {
                None => None,
                Some(t) => Some(((v + t.0) as nat, t.1)),
            }
        }
    }
}

/// What parsing an entry header at `pos` yields: the three type bits, the
/// declared size with its low four bits in the first byte and seven more
/// bits per continuation byte, and the position after the header.
pub open spec fn obj_header_spec(data: Seq<u8>, pos: int) -> Option<(u8, nat, int)> {
    if pos < 0 || pos >= data.len() {
        None
    } else {
        let b0 = data[pos];
        let ty = (b0 / 16) % 8;
        let sz0 = (b0 % 16) as nat;
        if b0 < 128 {
            Some((ty, sz0, pos + 1))
        } else {
            match cont_spec(data, pos + 1, 4) {
                None => None,
                Some(t) => Some((ty, (sz0 + t.0) as nat, t.1)),
            }
        }
    }
}

/// Two raised to `e`, for exponents a `u64` can hold.
fn pow2_u64(e: u32) -> (r: u64)
    requires
        e <= 63,
    ensures
        r == pow2(e as nat),
{
    proof {
        reveal_with_fuel(pow2, 65);
        assert(pow2(63nat) == 9223372036854775808);
    }
    let mut r: u64 = 1;
    let mut i: u32 = 0;
    while i < e
        invariant
            i <= e <= 63,
            r == pow2(i as nat),
            pow2(63nat) == 9223372036854775808,
        decreases e - i,
    {
        proof {
            lemma_pow2_increases(i as nat + 1, 63);
        }
        r = r * 2;
        i = i + 1;
    }
    r
}

/// Parses one entry header.
pub fn parse_object_header(data: &[u8], pos: usize) -> (r: Result<
    (PackObjectHeader, usize),
    MyGitError,
>)
    requires
        pos <= data@.len(),
    ensures
        match r {
            Ok(p) => obj_header_spec(data@, pos as int) == Some(
                (p.0.kind, p.0.size as nat, p.1 as int),
            ) && pos < p.1 <= data@.len(),
            Err(e) => e == MyGitError::CorruptPack && (match obj_header_spec(
                data@,
                pos as int,
            ) {
                None => true,
                Some(t) => t.1 > u64::MAX,
            }),
        },
{
    if pos >= data.len() {
        return Err(MyGitError::CorruptPack);
    }
    let b0 = data[pos];
    let ty = (b0 / 16) % 8;
    let mut size: u64 = (b0 % 16) as u64;
    if b0 < 128 {
        return Ok((PackObjectHeader { kind: ty, size }, pos + 1));
    }
    let mut p: usize = pos + 1;
    let mut shift: u32 = 4;
    let ghost mut tshift: nat = 4;
    proof {
        reveal_with_fuel(pow2, 66);
        assert(pow2(64nat) == 18446744073709551616);
    }
    loop
        invariant
            pos < p <= data@.len() + 1,
            p <= data@.len() + 1,
            pow2(64nat) == 18446744073709551616,
            shift <= 64,
            shift < 64 ==> shift == tshift,
            shift == 64 ==> tshift >= 64,
            match cont_spec(data@, p as int, tshift) {
                None => obj_header_spec(data@, pos as int) is None,
                Some(t) => obj_header_spec(data@, pos as int) == Some(
                    (ty, (size + t.0) as nat, t.1),
                ),
            },
        decreases data@.len() - p,
    {
        if p >= data.len() {
            proof {
                assert(cont_spec(data@, p as int, tshift) is None);
            }
            return Err(MyGitError::CorruptPack);
        }
        let b = data[p];
        let add = (b % 128) as u64;
        let ghost contribution = (add * pow2(tshift)) as nat;
        let new_size: u64;
        if add == 0 {
            new_size = size;
            proof {
                assert(contribution == 0) by (nonlinear_arith)
                    requires
                        add == 0,
                        contribution == (add * pow2(tshift)) as nat,
                ;
            }
        } else if shift == 64 {
            proof {
                lemma_pow2_increases(64, tshift);
                assert(contribution >= pow2(tshift)) by (nonlinear_arith)
                    requires
                        add >= 1,
                        contribution == (add * pow2(tshift)) as nat,
                ;
                match cont_spec(data@, p as int, tshift) {
                    None => {},
                    Some(t) => {
                        assert(t.0 >= contribution);
                    },
                }
            }
            return Err(MyGitError::CorruptPack);
        } else {
            let factor = pow2_u64(shift);
            if factor > (u64::MAX - size) / add {
                proof {
                    assert(size + add * factor > u64::MAX) by (nonlinear_arith)
                        requires
                            add >= 1,
                            factor > (u64::MAX - size) / (add as int),
                            size <= u64::MAX,
                    ;
                    match cont_spec(data@, p as int, tshift) {
                        None => {},
                        Some(t) => {
                            assert(t.0 >= contribution);
                        },
                    }
                }
                return Err(MyGitError::CorruptPack);
            }
            proof {
                assert(add * factor <= u64::MAX - size) by (nonlinear_arith)
                    requires
                        add >= 1,
                        factor <= (u64::MAX - size) / (add as int),
                ;
            }
            new_size = size + add * factor;
        }
        if b < 128 {
            proof {
                assert(cont_spec(data@, p as int, tshift) == Some(
                    (contribution, p as int + 1),
                ));
            }
            return Ok((PackObjectHeader { kind: ty, size: new_size }, p + 1));
        }
        proof {
            assert(cont_spec(data@, p as int, tshift) == (match cont_spec(
                data@,
                p as int + 1,
                tshift + 7,
            ) {
                None => None,
                Some(t) => Some(((contribution + t.0) as nat, t.1)),
            }));
            tshift = tshift + 7;
        }
        size = new_size;
        p = p + 1;
        if shift < 64 {
            if shift + 7 > 64 {
                shift = 64;
            } else {
                shift = shift + 7;
            }
        }
        proof {
            if shift < 64 {
                assert(shift == tshift);
            }
        }
    }
}

/// The big-endian value of four bytes at `pos`.
pub open spec fn be32_spec(data: Seq<u8>, pos: int) -> nat {
    (data[pos] * 16777216 + data[pos + 1] * 65536 + data[pos + 2] * 256 + data[pos + 3]) as nat
}

/// Reads a big-endian four-byte value.
fn read_be32(data: &[u8], pos: usize) -> (r: u32)
    requires
        pos + 4 <= data@.len(),
    ensures
        r == be32_spec(data@, pos as int),
{
    (data[pos] as u32) * 16777216 + (data[pos + 1] as u32) * 65536 + (data[pos + 2] as u32) * 256
        + (data[pos + 3] as u32)
}

/// How decoding a pack can end: the entries with the final cursor, a
/// delta-encoded or otherwise unsupported entry, or corruption.
pub enum PackOutcome {
    Objects(Seq<(ObjectType, Seq<u8>)>, int),
    Unsupported,
    Corrupt,
}

/// The object type of an entry's type bits, for the supported types.
pub open spec fn kind_of_bits(ty: u8) -> ObjectType {
    if ty == 1 {
        ObjectType::Commit
    } else if ty == 2 {
        ObjectType::Tree
    } else {
        ObjectType::Blob
    }
}

/// What decoding `n` entries from `pos` yields. Each entry is a header and
/// a zlib stream that must inflate to exactly the declared size; the
/// compressed bytes consumed advance the cursor. Delta entries and tags are
/// unsupported; a bad header, a declared size past `u64::MAX`, a bad
/// stream or a size mismatch is corruption.
pub open spec fn entries_spec(data: Seq<u8>, pos: int, n: nat) -> PackOutcome
    decreases n,
{
    if n == 0 {
        PackOutcome::Objects(Seq::empty(), pos)
    } else {
        match obj_header_spec(data, pos) {
            None => PackOutcome::Corrupt,
            Some(h) => {
                if h.1 > u64::MAX {
                    PackOutcome::Corrupt
                } else if h.0 == 4 || h.0 == 6 || h.0 == 7 {
                    PackOutcome::Unsupported
                } else if !(h.0 == 1 || h.0 == 2 || h.0 == 3) {
                    PackOutcome::Corrupt
                } else {
                    match inflate_of(data.subrange(h.2, data.len() as int)) {
                        None => PackOutcome::Corrupt,
                        Some(z) => {
                            if z.0.len() != h.1 {
                                PackOutcome::Corrupt
                            } else {
                                match entries_spec(data, h.2 + z.1, (n - 1) as nat) {
                                    PackOutcome::Objects(rest, end) => PackOutcome::Objects(
                                        seq![(kind_of_bits(h.0), z.0)] + rest,
                                        end,
                                    ),
                                    PackOutcome::Unsupported => PackOutcome::Unsupported,
                                    PackOutcome::Corrupt => PackOutcome::Corrupt,
                                }
                            }
                        },
                    }
                }
            },
        }
    }
}

/// The signature bytes `PACK`.
pub open spec fn pack_signature() -> Seq<u8> {
    seq![80u8, 65u8, 67u8, 75u8]
}

/// What decoding a whole pack yields: signature, version two, count, then
/// the entries.
pub open spec fn pack_spec(data: Seq<u8>) -> PackOutcome {
    if data.len() < 12 {
        PackOutcome::Corrupt
    } else if data.subrange(0, 4) != pack_signature() {
        PackOutcome::Corrupt
    } else if be32_spec(data, 4) != 2 {
        PackOutcome::Corrupt
    } else {
        entries_spec(data, 12, be32_spec(data, 8))
    }
}

/// Prepends decoded entries to a possibly failed tail.
pub open spec fn prepend_entries(s: Seq<(ObjectType, Seq<u8>)>, o: PackOutcome) -> PackOutcome {
    match o {
        PackOutcome::Objects(t, end) => PackOutcome::Objects(s + t, end),
        PackOutcome::Unsupported => PackOutcome::Unsupported,
        PackOutcome::Corrupt => PackOutcome::Corrupt,
    }
}

/// Parses the twelve-byte pack header.
pub fn parse_pack_header(data: &[u8]) -> (r: Result<PackHeader, MyGitError>)
    ensures
        match r {
            Ok(h) => data@.len() >= 12 && data@.subrange(0, 4) == pack_signature() && h.version
                == be32_spec(data@, 4) && h.count == be32_spec(data@, 8),
            Err(e) => e == MyGitError::CorruptPack && (data@.len() < 12 || data@.subrange(0, 4)
                != pack_signature()),
        },
{
    if data.len() < 12 {
        return Err(MyGitError::CorruptPack);
    }
    if !(data[0] == 80 && data[1] == 65 && data[2] == 67 && data[3] == 75) {
        proof {
            if data@.subrange(0, 4) == pack_signature() {
                assert(data@[0] == 80 && data@[1] == 65 && data@[2] == 67 && data@[3] == 75);
            }
        }
        return Err(MyGitError::CorruptPack);
    }
    proof {
        assert(data@.subrange(0, 4) =~= pack_signature());
    }
    let version = read_be32(data, 4);
    let count = read_be32(data, 8);
    Ok(PackHeader { version, count })
}

/// Decodes a canonical pack stream: header, then every declared entry.
/// Returns the objects in pack order and the cursor after the last entry.
#[verifier::rlimit(50)]
pub fn decode_pack(data: &[u8]) -> (r: Result<(Vec<Object>, usize), MyGitError>)
    ensures
        match r {
            Ok(p) => pack_spec(data@) == PackOutcome::Objects(
                p.0@.map_values(|o: Object| (o.ty, o.contents@)),
                p.1 as int,
            ) && p.1 <= data@.len(),
            Err(e) => match pack_spec(data@) {
                PackOutcome::Objects(_, _) => false,
                PackOutcome::Unsupported => e == MyGitError::UnsupportedObjectKind,
                PackOutcome::Corrupt => e == MyGitError::CorruptPack,
            },
        },
{
    let header = match parse_pack_header(data) {
        Ok(h) => h,
        Err(e) => {
            return Err(e);
        },
    };
    if header.version != 2 {
        return Err(MyGitError::CorruptPack);
    }
    let count = header.count;
    let mut objs: Vec<Object> = Vec::new();
    let mut pos: usize = 12;
    let ghost mut done: Seq<(ObjectType, Seq<u8>)> = Seq::empty();
    let mut k: u32 = 0;
    proof {
        assert(done + Seq::<(ObjectType, Seq<u8>)>::empty() =~= done);
    }
    while k < count
        invariant
            k <= count,
            pos <= data@.len(),
            entries_spec(data@, 12, count as nat) == prepend_entries(
                done,
                entries_spec(data@, pos as int, (count - k) as nat),
            ),
            objs@.map_values(|o: Object| (o.ty, o.contents@)) == done,
            pack_spec(data@) == entries_spec(data@, 12, count as nat),
        decreases count - k,
    {
        let (h, body_pos) = match parse_object_header(data, pos) {
            Ok(p) => p,
            Err(e) => {
                return Err(e);
            },
        };
        if h.kind == 4 || h.kind == 6 || h.kind == 7 {
            return Err(MyGitError::UnsupportedObjectKind);
        }
        if !(h.kind == 1 || h.kind == 2 || h.kind == 3) {
            return Err(MyGitError::CorruptPack);
        }
        let body_slice = slice_subrange(data, body_pos, data.len());
        let (payload, used) = match inflate_prefix(body_slice) {
            Some(p) => p,
            None => {
                return Err(MyGitError::CorruptPack);
            },
        };
        let plen = payload.len();
        if plen as u64 != h.size {
            return Err(MyGitError::CorruptPack);
        }
        let kind = if h.kind == 1 {
            ObjectType::Commit
        } else if h.kind == 2 {
            ObjectType::Tree
        } else {
            ObjectType::Blob
        };
        let ghost entry = (kind, payload@);
        let ghost old_done = done;
        objs.push(Object { ty: kind, contents: payload });
        pos = body_pos + used;
        k = k + 1;
        proof {
            done = done + seq![entry];
            match entries_spec(data@, pos as int, (count - k) as nat) {
                PackOutcome::Objects(rest, end) => {
                    assert(old_done + (seq![entry] + rest) =~= done + rest);
                },
                _ => {},
            }
            assert(objs@.map_values(|o: Object| (o.ty, o.contents@)) =~= done);
        }
    }
    proof {
        assert(entries_spec(data@, pos as int, 0) == PackOutcome::Objects(
            Seq::<(ObjectType, Seq<u8>)>::empty(),
            pos as int,
        ));
        assert(done + Seq::<(ObjectType, Seq<u8>)>::empty() =~= done);
    }
    Ok((objs, pos))
}

/// The pack bytes carried on side band one from line `i` on: each data
/// line whose payload starts with the band marker one contributes the rest
/// of its payload; other lines carry progress or errors and are dropped.
pub open spec fn demux_from(lines: Seq<PktLineView>, i: int) -> Seq<u8>
    decreases lines.len() - i,
    when 0 <= i <= lines.len()
{
    if i >= lines.len() {
        Seq::empty()
    } else {
        let head = match lines[i] {
            PktLineView::Data(p) => if p.len() > 0 && p[0] == 1 {
                p.drop_first()
            } else {
                Seq::empty()
            },
            _ => Seq::empty(),
        };
        head + demux_from(lines, i + 1)
    }
}

/// Extracts the pack stream from side band one of the framed lines.
pub fn demux_pack(lines: &Vec<PktLine>) -> (r: Vec<u8>)
    ensures
        r@ == demux_from(lines@.map_values(|l: PktLine| l@), 0),
{
    let ghost lviews = lines@.map_values(|l: PktLine| l@);
    let mut out: Vec<u8> = Vec::new();
    let mut i: usize = 0;
    while i < lines.len()
        invariant
            i <= lines@.len(),
            lviews == lines@.map_values(|l: PktLine| l@),
            demux_from(lviews, 0) == out@ + demux_from(lviews, i as int),
        decreases lines@.len() - i,
    {
        let ghost old_out = out@;
        match &lines[i] {
            PktLine::Data(p) => {
                if p.len() > 0 && p[0] == 1 {
                    push_bytes(&mut out, slice_subrange(p.as_slice(), 1, p.len()));
                    proof {
                        assert(p@.subrange(1, p@.len() as int) =~= p@.drop_first());
                    }
                }
            },
            _ => {},
        }
        i = i + 1;
        proof {
            let head = match lviews[i - 1] {
                PktLineView::Data(p) => if p.len() > 0 && p[0] == 1 {
                    p.drop_first()
                } else {
                    Seq::<u8>::empty()
                },
                _ => Seq::<u8>::empty(),
            };
            assert(out@ =~= old_out + head);
            assert(old_out + (head + demux_from(lviews, i as int)) =~= (old_out + head)
                + demux_from(lviews, i as int));
        }
    }
    proof {
        assert(out@ + Seq::<u8>::empty() =~= out@);
    }
    out
}

/// Every record holds the encoding of its entry.
pub open spec fn records_match(records: Seq<StoreRecord>, entries: Seq<(ObjectType, Seq<u8>)>) -> bool {
    &&& records.len() == entries.len()
    &&& forall|i: int|
        0 <= i < entries.len() ==> (#[trigger] records[i]).is_record_of(
            entries[i].0,
            entries[i].1,
        )
}

/// Ingests a whole fetch response: unframes the side bands, decodes the
/// pack stream behind the band-one marker, and returns one store record
/// per decoded object, in pack order.
pub fn ingest_pack(body: &[u8]) -> (r: Result<Vec<StoreRecord>, MyGitError>)
    ensures
        match r {
            Ok(records) => (match pkt_lines_spec(body@, 0) {
                Some(lines) => match pack_spec(demux_from(lines, 0)) {
                    PackOutcome::Objects(entries, _) => records_match(records@, entries),
                    _ => false,
                },
                None => false,
            }),
            Err(e) => (match pkt_lines_spec(body@, 0) {
                Some(lines) => match pack_spec(demux_from(lines, 0)) {
                    PackOutcome::Objects(_, _) => false,
                    PackOutcome::Unsupported => e == MyGitError::UnsupportedObjectKind,
                    PackOutcome::Corrupt => e == MyGitError::CorruptPack,
                },
                None => e == MyGitError::ProtocolError,
            }),
        },
{
    let lines = match pkt_decode(body) {
        Ok(l) => l,
        Err(_) => {
            return Err(MyGitError::ProtocolError);
        },
    };
    let stream = demux_pack(&lines);
    let (objs, _cursor) = match decode_pack(stream.as_slice()) {
        Ok(p) => p,
        Err(e) => {
            return Err(e);
        },
    };
    let ghost entries = objs@.map_values(|o: Object| (o.ty, o.contents@));
    let mut records: Vec<StoreRecord> = Vec::new();
    let mut i: usize = 0;
    while i < objs.len()
        invariant
            i <= objs@.len(),
            entries == objs@.map_values(|o: Object| (o.ty, o.contents@)),
            records@.len() == i,
            forall|j: int|
                0 <= j < i ==> (#[trigger] records@[j]).is_record_of(entries[j].0, entries[j].1),
        decreases objs@.len() - i,
    {
        let obj = &objs[i];
        let mut buf: Vec<u8> = Vec::new();
        let id = obj.write(&mut buf);
        records.push(StoreRecord { id, data: buf });
        i = i + 1;
    }
    Ok(records)
}

} // verus!
