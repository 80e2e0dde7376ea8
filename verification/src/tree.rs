//! The tree builder and the tree record format.
//!
//! A tree record's payload is the concatenation, in sorted order, of
//! `<mode> <name>\0<20 raw id bytes>` per entry. The order compares names
//! byte by byte with a virtual trailing slash appended to directory names,
//! so a directory `foo` sorts after a file `foo.txt`. Snapshotting a
//! directory tree builds one blob record per file and one tree record per
//! directory, bottom up, and returns every record with the root's id.

use crate::asciistr::push_str_bytes;
use crate::asciistr::vec_to_string;
use crate::digest::id_chars_of;
use crate::digits::find_byte;
use crate::digits::find_byte_in;
use crate::digits::hex_bytes;
use crate::digits::hex_parse;
use crate::digits::hex_to_raw;
use crate::digits::lemma_find_byte_props;
use crate::digits::lemma_hex_bytes_index;
use crate::digits::push_bytes;
use crate::digits::push_hex;
use crate::digits::valid_hex_id;
use crate::error::MyGitError;
use crate::object::ObjectType;
use crate::object::encode_rec;
use crate::pack::records_match;
use crate::store::StoreRecord;
use crate::asciistr::string_from_ascii;
use vstd::prelude::*;
use vstd::slice::slice_subrange;
use vstd::slice::slice_to_vec;
use vstd::utf8::decode_utf8;
use vstd::utf8::encode_utf8;
use vstd::utf8::valid_utf8;

verus! {

/// The mode of one tree entry.
#[derive(Debug, Clone, Copy, PartialEq, Eq, Structural)]
pub enum FileMode {
    RegularFile,
    ExecutableFile,
    Directory,
}

/// The ASCII mode string of a file mode.
pub open spec fn mode_bytes(m: FileMode) -> Seq<u8> {
    match m {
        FileMode::RegularFile => seq![49u8, 48u8, 48u8, 54u8, 52u8, 52u8],  // "100644"
        FileMode::ExecutableFile => seq![49u8, 48u8, 48u8, 55u8, 53u8, 53u8],  // "100755"
        FileMode::Directory => seq![52u8, 48u8, 48u8, 48u8, 48u8],  // "40000"
    }
}

/// The object type an entry of mode `m` references: directories reference
/// trees, files reference blobs.
pub open spec fn object_type_of(m: FileMode) -> ObjectType {
    match m {
        FileMode::RegularFile => ObjectType::Blob,
        FileMode::ExecutableFile => ObjectType::Blob,
        FileMode::Directory => ObjectType::Tree,
    }
}

impl From<FileMode> for ObjectType {
    fn from(value: FileMode) -> (r: Self) {
        match value {
            FileMode::RegularFile => ObjectType::Blob,
            FileMode::ExecutableFile => ObjectType::Blob,
            FileMode::Directory => ObjectType::Tree,
        }
    }
}

impl vstd::std_specs::convert::FromSpecImpl<FileMode> for ObjectType {
    open spec fn obeys_from_spec() -> bool {
        true
    }

    open spec fn from_spec(m: FileMode) -> ObjectType {
        object_type_of(m)
    }
}

/// Whether `s` starts with `prefix` at `pos`.
pub open spec fn starts_with_at(s: Seq<u8>, prefix: Seq<u8>, pos: int) -> bool {
    pos + prefix.len() <= s.len() && s.subrange(pos, pos + prefix.len() as int) == prefix
}

/// What parsing a mode string at `pos` yields, trying the regular, the
/// directory and the executable mode in that order.
pub open spec fn mode_parse_spec(s: Seq<u8>, pos: int) -> Option<(FileMode, int)> {
    if starts_with_at(s, mode_bytes(FileMode::RegularFile), pos) {
        Some((FileMode::RegularFile, pos + 6))
    } else if starts_with_at(s, mode_bytes(FileMode::Directory), pos) {
        Some((FileMode::Directory, pos + 5))
    } else if starts_with_at(s, mode_bytes(FileMode::ExecutableFile), pos) {
        Some((FileMode::ExecutableFile, pos + 6))
    } else {
        None
    }
}

impl FileMode {
    /// Parses a mode string at the head of `input` and returns the mode
    /// with the position after it.
    pub fn parse(input: &[u8]) -> (r: Result<(FileMode, usize), MyGitError>)
        ensures
            match r {
                Ok(p) => mode_parse_spec(input@, 0) == Some((p.0, p.1 as int)) && p.1
                    <= input@.len(),
                Err(e) => mode_parse_spec(input@, 0) is None && e == MyGitError::CorruptObject,
            },
    {
        match mode_parse_at(input, 0) {
            Some(p) => Ok(p),
            None => Err(MyGitError::CorruptObject),
        }
    }
}

/// Parses a mode string at `pos`.
fn mode_parse_at(input: &[u8], pos: usize) -> (r: Option<(FileMode, usize)>)
    requires
        pos <= input@.len(),
    ensures
        match r {
            Some(p) => mode_parse_spec(input@, pos as int) == Some((p.0, p.1 as int)) && pos < p.1
                <= input@.len(),
            None => mode_parse_spec(input@, pos as int) is None,
        },
{
    let ilen = input.len();
    if prefix_at(input, pos, 49, 48, 48, 54, 52, 52) {
        proof {
            assert(pos + 6 <= ilen);
            assert(input@.subrange(pos as int, pos + 6) =~= mode_bytes(FileMode::RegularFile));
        }
        return Some((FileMode::RegularFile, pos + 6));
    }
    proof {
        if starts_with_at(input@, mode_bytes(FileMode::RegularFile), pos as int) {
            assert(input@[pos as int] == 49 && input@[pos as int + 1] == 48 && input@[pos as int
                + 2] == 48 && input@[pos as int + 3] == 54 && input@[pos as int + 4] == 52
                && input@[pos as int + 5] == 52);
        }
    }
    if input.len() - pos >= 5 && input[pos] == 52 && input[pos + 1] == 48 && input[pos + 2] == 48
        && input[pos + 3] == 48 && input[pos + 4] == 48 {
        proof {
            assert(input@.subrange(pos as int, pos + 5) =~= mode_bytes(FileMode::Directory));
        }
        return Some((FileMode::Directory, pos + 5));
    }
    proof {
        if starts_with_at(input@, mode_bytes(FileMode::Directory), pos as int) {
            assert(input@[pos as int] == 52 && input@[pos as int + 1] == 48 && input@[pos as int
                + 2] == 48 && input@[pos as int + 3] == 48 && input@[pos as int + 4] == 48);
        }
    }
    if prefix_at(input, pos, 49, 48, 48, 55, 53, 53) {
        proof {
            assert(pos + 6 <= input@.len());
            assert(input@.subrange(pos as int, pos + 6) =~= mode_bytes(FileMode::ExecutableFile));
        }
        return Some((FileMode::ExecutableFile, pos + 6));
    }
    proof {
        if starts_with_at(input@, mode_bytes(FileMode::ExecutableFile), pos as int) {
            assert(input@[pos as int] == 49 && input@[pos as int + 1] == 48 && input@[pos as int
                + 2] == 48 && input@[pos as int + 3] == 55 && input@[pos as int + 4] == 53
                && input@[pos as int + 5] == 53);
        }
    }
    None
}

/// Checks six bytes at `pos`.
fn prefix_at(input: &[u8], pos: usize, b0: u8, b1: u8, b2: u8, b3: u8, b4: u8, b5: u8) -> (r:
    bool)
    requires
        pos <= input@.len(),
    ensures
        r == (pos + 6 <= input@.len() && input@[pos as int] == b0 && input@[pos as int + 1] == b1
            && input@[pos as int + 2] == b2 && input@[pos as int + 3] == b3 && input@[pos as int
            + 4] == b4 && input@[pos as int + 5] == b5),
{
    input.len() - pos >= 6 && input[pos] == b0 && input[pos + 1] == b1 && input[pos + 2] == b2
        && input[pos + 3] == b3 && input[pos + 4] == b4 && input[pos + 5] == b5
}

/// One entry of a tree record: its mode, the type it references, its
/// child's id as forty hex characters, and the entry's name.
#[derive(Debug, Clone)]
pub struct TreeEntry {
    pub mode: FileMode,
    pub ty: ObjectType,
    pub hash: String,
    pub file: String,
}

/// The mathematical form of a tree entry.
pub struct TreeEntryView {
    pub mode: FileMode,
    pub ty: ObjectType,
    pub hash: Seq<char>,
    pub file: Seq<char>,
}

impl View for TreeEntry {
    type V = TreeEntryView;

    open spec fn view(&self) -> TreeEntryView {
        TreeEntryView { mode: self.mode, ty: self.ty, hash: self.hash@, file: self.file@ }
    }
}

/// The serialized form of one entry: mode string, space, name, NUL, then
/// the twenty raw id bytes the hash characters denote.
pub open spec fn entry_bytes(e: TreeEntryView) -> Seq<u8> {
    mode_bytes(e.mode) + seq![32u8] + encode_utf8(e.file) + seq![0u8] + hex_parse(
        encode_utf8(e.hash),
    )
}

/// What parsing one entry at `pos` yields: the mode, the name bytes up to
/// the NUL, the twenty raw id bytes, and the position after the entry.
pub open spec fn entry_parse_spec(s: Seq<u8>, pos: int) -> Option<(FileMode, Seq<u8>, Seq<u8>, int)> {
    match mode_parse_spec(s, pos) {
        None => None,
        Some(m) => {
            if !(m.1 < s.len() && s[m.1] == 32) {
                None
            } else {
                let nl = find_byte_in(s, 0u8, m.1 + 1, s.len() as int);
                if nl < 0 {
                    None
                } else if nl + 21 > s.len() {
                    None
                } else {
                    Some(
                        (
                            m.0,
                            s.subrange(m.1 + 1, nl),
                            s.subrange(nl + 1, nl + 21),
                            nl + 21,
                        ),
                    )
                }
            }
        },
    }
}

impl TreeEntry {
    /// Parses one entry at `pos`. Succeeds exactly when the entry is well
    /// formed and its name is valid UTF-8; the raw id bytes become forty
    /// hex characters.
    pub fn parse(input: &[u8], pos: usize) -> (r: Result<(TreeEntry, usize), MyGitError>)
        requires
            pos <= input@.len(),
        ensures
            match r {
                Ok(p) => (match entry_parse_spec(input@, pos as int) {
                    Some(t) => {
                        &&& valid_utf8(t.1)
                        &&& p.0@.mode == t.0
                        &&& p.0@.ty == object_type_of(t.0)
                        &&& p.0@.file == decode_utf8(t.1)
                        &&& p.0@.hash == crate::asciistr::chars_of_ascii(hex_bytes(t.2))
                        &&& p.1 == t.3
                        &&& pos < p.1 <= input@.len()
                    },
                    None => false,
                }),
                Err(e) => e == MyGitError::CorruptObject && (match entry_parse_spec(
                    input@,
                    pos as int,
                ) {
                    Some(t) => !valid_utf8(t.1),
                    None => true,
                }),
            },
    {
        let (mode, after_mode) = match mode_parse_at(input, pos) {
            Some(p) => p,
            None => {
                return Err(MyGitError::CorruptObject);
            },
        };
        if !(after_mode < input.len() && input[after_mode] == 32) {
            return Err(MyGitError::CorruptObject);
        }
        let nl = match find_byte(input, 0, after_mode + 1, input.len()) {
            Some(p) => p,
            None => {
                return Err(MyGitError::CorruptObject);
            },
        };
        proof {
            lemma_find_byte_props(input@, 0u8, after_mode as int + 1, input@.len() as int);
        }
        if input.len() - nl < 21 {
            return Err(MyGitError::CorruptObject);
        }
        let name_bytes = slice_to_vec(slice_subrange(input, after_mode + 1, nl));
        let raw_id = slice_subrange(input, nl + 1, nl + 21);
        let file = match vec_to_string(name_bytes) {
            Ok(s) => s,
            Err(_) => {
                return Err(MyGitError::CorruptObject);
            },
        };
        let mut hex: Vec<u8> = Vec::new();
        push_hex(&mut hex, raw_id);
        proof {
            lemma_hex_bytes_index(raw_id@);
            crate::asciistr::lemma_ascii_bytes_utf8(hex@);
        }
        let hash = string_from_ascii(hex);
        let ty = ObjectType::from(mode);
        Ok((TreeEntry { mode, ty, hash, file }, nl + 21))
    }

    /// Appends this entry's serialized form.
    pub fn write(&self, out: &mut Vec<u8>)
        ensures
            final(out)@ == old(out)@ + entry_bytes(self@),
    {
        match self.mode {
            FileMode::RegularFile => {
                push_str_bytes(out, "100644");
                proof {
                    reveal_strlit("100644");
                    assert("100644"@.len() == 6);
                    assert(vstd::utf8::is_ascii_chars("100644"@));
                    vstd::utf8::is_ascii_chars_encode_utf8("100644"@);
                }
            },
            FileMode::ExecutableFile => {
                push_str_bytes(out, "100755");
                proof {
                    reveal_strlit("100755");
                    assert("100755"@.len() == 6);
                    assert(vstd::utf8::is_ascii_chars("100755"@));
                    vstd::utf8::is_ascii_chars_encode_utf8("100755"@);
                }
            },
            FileMode::Directory => {
                push_str_bytes(out, "40000");
                proof {
                    reveal_strlit("40000");
                    assert("40000"@.len() == 5);
                    assert(vstd::utf8::is_ascii_chars("40000"@));
                    vstd::utf8::is_ascii_chars_encode_utf8("40000"@);
                }
            },
        }
        out.push(32);
        push_str_bytes(out, self.file.as_str());
        out.push(0);
        let raw = hex_to_raw(self.hash.as_str().as_bytes());
        push_bytes(out, raw.as_slice());
        proof {
            assert(out@ =~= old(out)@ + entry_bytes(self@));
        }
    }
}

/// What parsing entries from `pos` to the end yields: each entry's parts,
/// or nothing when any entry is malformed.
pub open spec fn entries_parse_spec(s: Seq<u8>, pos: int) -> Option<
    Seq<(FileMode, Seq<u8>, Seq<u8>)>,
>
    decreases s.len() - pos,
    when 0 <= pos <= s.len()
{
    if pos == s.len() {
        Some(Seq::empty())
    } else {
        match entry_parse_spec(s, pos) {
            None => None,
            Some(t) => {
                if t.3 <= pos || t.3 > s.len() {
                    None
                } else {
                    match entries_parse_spec(s, t.3) {
                        None => None,
                        Some(rest) => Some(seq![(t.0, t.1, t.2)] + rest),
                    }
                }
            },
        }
    }
}

/// One parsed entry matches its raw parts.
pub open spec fn entry_matches(e: TreeEntryView, raw: (FileMode, Seq<u8>, Seq<u8>)) -> bool {
    &&& e.mode == raw.0
    &&& e.ty == object_type_of(raw.0)
    &&& valid_utf8(raw.1)
    &&& e.file == decode_utf8(raw.1)
    &&& e.hash == crate::asciistr::chars_of_ascii(hex_bytes(raw.2))
}

pub open spec fn entries_match(entries: Seq<TreeEntryView>, raw: Seq<(FileMode, Seq<u8>, Seq<u8>)>) -> bool {
    &&& entries.len() == raw.len()
    &&& forall|i: int| 0 <= i < raw.len() ==> entry_matches(#[trigger] entries[i], raw[i])
}

/// Every parsed entry's name bytes are valid UTF-8.
pub open spec fn raw_names_utf8(raw: Seq<(FileMode, Seq<u8>, Seq<u8>)>) -> bool {
    forall|i: int| 0 <= i < raw.len() ==> valid_utf8((#[trigger] raw[i]).1)
}

/// The concatenation of parsed entries with a possibly failed tail.
pub open spec fn opt_prepend_raw(
    s: Seq<(FileMode, Seq<u8>, Seq<u8>)>,
    o: Option<Seq<(FileMode, Seq<u8>, Seq<u8>)>>,
) -> Option<Seq<(FileMode, Seq<u8>, Seq<u8>)>> {
    match o {
        None => None,
        Some(t) => Some(s + t),
    }
}

/// Parses a whole tree record payload into its entries. Succeeds exactly
/// when every entry is well formed and every name is valid UTF-8.
pub fn parse_tree_entries(input: &[u8]) -> (r: Result<Vec<TreeEntry>, MyGitError>)
    ensures
        match r {
            Ok(v) => (match entries_parse_spec(input@, 0) {
                Some(raw) => entries_match(v@.map_values(|e: TreeEntry| e@), raw),
                None => false,
            }),
            Err(e) => e == MyGitError::CorruptObject && (match entries_parse_spec(input@, 0) {
                Some(raw) => !raw_names_utf8(raw),
                None => true,
            }),
        },
{
    let mut out: Vec<TreeEntry> = Vec::new();
    let mut pos: usize = 0;
    let ghost mut done: Seq<(FileMode, Seq<u8>, Seq<u8>)> = Seq::empty();
    while pos < input.len()
        invariant
            pos <= input@.len(),
            entries_parse_spec(input@, 0) == opt_prepend_raw(
                done,
                entries_parse_spec(input@, pos as int),
            ),
            out@.len() == done.len(),
            entries_match(out@.map_values(|e: TreeEntry| e@), done),
        decreases input@.len() - pos,
    {
        let (entry, next) = match TreeEntry::parse(input, pos) {
            Ok(p) => p,
            Err(_) => {
                proof {
                    match entry_parse_spec(input@, pos as int) {
                        None => {
                            assert(entries_parse_spec(input@, pos as int) is None);
                        },
                        Some(t) => {
                            lemma_raw_name_in_list(input@, done, pos as int, (t.0, t.1, t.2));
                        },
                    }
                }
                return Err(MyGitError::CorruptObject);
            },
        };
        let ghost t = entry_parse_spec(input@, pos as int)->0;
        let ghost cur = (t.0, t.1, t.2);
        let ghost old_done = done;
        let ghost prev_views = out@.map_values(|e: TreeEntry| e@);
        let ghost eview = entry@;
        out.push(entry);
        pos = next;
        proof {
            done = done + seq![cur];
            match entries_parse_spec(input@, pos as int) {
                Some(rest) => {
                    assert(old_done + (seq![cur] + rest) =~= done + rest);
                },
                None => {},
            }
            let views = out@.map_values(|e: TreeEntry| e@);
            assert forall|i: int| 0 <= i < done.len() implies entry_matches(
                #[trigger] views[i],
                done[i],
            ) by {
                if i < done.len() - 1 {
                    assert(views[i] == prev_views[i]);
                    assert(entry_matches(prev_views[i], old_done[i]));
                    assert(done[i] == old_done[i]);
                } else {
                    assert(views[i] == eview);
                    assert(done[i] == cur);
                }
            }
        }
    }
    proof {
        assert(done + Seq::<(FileMode, Seq<u8>, Seq<u8>)>::empty() =~= done);
    }
    Ok(out)
}

/// When the entry at `pos` has a bad name, and the done entries lead to
/// `pos`, a successful whole parse would hold that entry at index
/// `done.len()`.
proof fn lemma_raw_name_in_list(
    s: Seq<u8>,
    done: Seq<(FileMode, Seq<u8>, Seq<u8>)>,
    pos: int,
    cur: (FileMode, Seq<u8>, Seq<u8>),
)
    requires
        0 <= pos <= s.len(),
        entries_parse_spec(s, 0) == opt_prepend_raw(done, entries_parse_spec(s, pos)),
        entry_parse_spec(s, pos) matches Some(t) && t.0 == cur.0 && t.1 == cur.1 && t.2 == cur.2,
        !valid_utf8(cur.1),
    ensures
        match entries_parse_spec(s, 0) {
            Some(raw) => !raw_names_utf8(raw),
            None => true,
        },
{
    match entries_parse_spec(s, 0) {
        Some(raw) => {
            assert(entries_parse_spec(s, pos) is Some);
            let tail = entries_parse_spec(s, pos)->0;
            assert(raw == done + tail);
            assert(pos < s.len());
            let t = entry_parse_spec(s, pos)->0;
            assert(entries_parse_spec(s, t.3) is Some);
            let rest = entries_parse_spec(s, t.3)->0;
            assert(tail == seq![(t.0, t.1, t.2)] + rest);
            assert(raw[done.len() as int] == (cur.0, cur.1, cur.2));
            assert(!valid_utf8(raw[done.len() as int].1));
        },
        None => {},
    }
}

// ---------------------------------------------------------------------------
// Entry ordering
// ---------------------------------------------------------------------------

/// The byte key an entry is ordered by: its name, with a virtual trailing
/// slash when the entry is a directory.
pub open spec fn entry_key(e: TreeEntryView) -> Seq<u8> {
    if e.mode is Directory {
        encode_utf8(e.file) + seq![47u8]
    } else {
        encode_utf8(e.file)
    }
}

/// Byte-wise lexicographic order from position `i` on: a shorter key that
/// prefixes the other sorts first.
pub open spec fn bytes_lt_from(a: Seq<u8>, b: Seq<u8>, i: int) -> bool
    decreases b.len() - i,
    when i >= 0
{
    if i >= b.len() {
        false
    } else if i >= a.len() {
        true
    } else if a[i] < b[i] {
        true
    } else if a[i] > b[i] {
        false
    } else {
        bytes_lt_from(a, b, i + 1)
    }
}

/// Byte-wise lexicographic order.
pub open spec fn bytes_lt(a: Seq<u8>, b: Seq<u8>) -> bool {
    bytes_lt_from(a, b, 0)
}

/// Compares two byte keys lexicographically.
pub fn bytes_lt_exec(a: &[u8], b: &[u8]) -> (r: bool)
    ensures
        r == bytes_lt(a@, b@),
{
    let mut i: usize = 0;
    loop
        invariant
            i <= a@.len() && i <= b@.len(),
            bytes_lt(a@, b@) == bytes_lt_from(a@, b@, i as int),
        decreases b@.len() - i,
    {
        if i >= b.len() {
            return false;
        }
        if i >= a.len() {
            return true;
        }
        if a[i] < b[i] {
            return true;
        }
        if a[i] > b[i] {
            return false;
        }
        i = i + 1;
    }
}

/// The ordering key of an entry.
pub fn entry_key_exec(e: &TreeEntry) -> (r: Vec<u8>)
    ensures
        r@ == entry_key(e@),
{
    let mut out: Vec<u8> = Vec::new();
    push_str_bytes(&mut out, e.file.as_str());
    match e.mode {
        FileMode::Directory => {
            out.push(47);
        },
        _ => {},
    }
    proof {
        assert(out@ =~= entry_key(e@));
    }
    out
}

/// Where an entry lands among already sorted entries: before the first one
/// whose key is strictly greater, after any equal keys.
pub open spec fn sorted_insert(s: Seq<TreeEntryView>, e: TreeEntryView) -> Seq<TreeEntryView>
    decreases s.len(),
{
    if s.len() == 0 {
        seq![e]
    } else if bytes_lt(entry_key(e), entry_key(s[0])) {
        seq![e] + s
    } else {
        seq![s[0]] + sorted_insert(s.drop_first(), e)
    }
}

/// The entries in sorted order, by stable insertion.
pub open spec fn sort_entries_spec(s: Seq<TreeEntryView>) -> Seq<TreeEntryView>
    decreases s.len(),
{
    if s.len() == 0 {
        Seq::empty()
    } else {
        sorted_insert(sort_entries_spec(s.drop_last()), s.last())
    }
}

/// Inserts one entry into an already sorted vector.
fn insert_sorted(v: &mut Vec<TreeEntry>, e: TreeEntry)
    ensures
        final(v)@.map_values(|t: TreeEntry| t@) == sorted_insert(
            old(v)@.map_values(|t: TreeEntry| t@),
            e@,
        ),
{
    let ghost orig = v@.map_values(|t: TreeEntry| t@);
    let key = entry_key_exec(&e);
    let mut i: usize = 0;
    proof {
        assert(orig.subrange(0, 0) =~= Seq::<TreeEntryView>::empty());
        assert(orig.skip(0) =~= orig);
        assert(Seq::<TreeEntryView>::empty() + sorted_insert(orig, e@) =~= sorted_insert(
            orig,
            e@,
        ));
    }
    loop
        invariant
            i <= v@.len(),
            key@ == entry_key(e@),
            orig == v@.map_values(|t: TreeEntry| t@),
            sorted_insert(orig, e@) == orig.subrange(0, i as int) + sorted_insert(
                orig.skip(i as int),
                e@,
            ),
        ensures
            i <= v@.len(),
            orig == v@.map_values(|t: TreeEntry| t@),
            sorted_insert(orig, e@) == orig.subrange(0, i as int) + sorted_insert(
                orig.skip(i as int),
                e@,
            ),
            i == v@.len() || bytes_lt(entry_key(e@), entry_key(orig[i as int])),
        decreases v@.len() - i,
    {
        if i == v.len() {
            break ;
        }
        let ki = entry_key_exec(&v[i]);
        proof {
            assert(v@[i as int]@ == orig[i as int]);
        }
        if bytes_lt_exec(key.as_slice(), ki.as_slice()) {
            break ;
        }
        i = i + 1;
        proof {
            let pre = orig.subrange(0, i as int);
            assert(orig.skip(i as int - 1)[0] == orig[i as int - 1]);
            assert(orig.skip(i as int - 1).drop_first() =~= orig.skip(i as int));
            assert(sorted_insert(orig.skip(i as int - 1), e@) == seq![orig[i as int - 1]]
                + sorted_insert(orig.skip(i as int), e@));
            assert(orig.subrange(0, i as int - 1) + (seq![orig[i as int - 1]] + sorted_insert(
                orig.skip(i as int),
                e@,
            )) =~= pre + sorted_insert(orig.skip(i as int), e@));
        }
    }
    // At the stop point the tail starts with a strictly greater key, or is
    // empty, so the entry stands exactly here.
    proof {
        if i < v@.len() {
            assert(orig.skip(i as int)[0] == orig[i as int]);
            assert(sorted_insert(orig.skip(i as int), e@) == seq![e@] + orig.skip(i as int));
        } else {
            assert(orig.skip(i as int) =~= Seq::<TreeEntryView>::empty());
            assert(sorted_insert(orig.skip(i as int), e@) == seq![e@]);
        }
    }
    v.insert(i, e);
    proof {
        let after = v@.map_values(|t: TreeEntry| t@);
        assert(after =~= orig.subrange(0, i as int) + (seq![
            sorted_insert(orig, e@)[i as int],
        ]).add(orig.skip(i as int))) by {
            assert(v@ == old(v)@.insert(i as int, e));
            assert(sorted_insert(orig, e@) == orig.subrange(0, i as int) + sorted_insert(
                orig.skip(i as int),
                e@,
            ));
            assert(sorted_insert(orig.skip(i as int), e@)[0] == e@);
            assert forall|n: int| 0 <= n < after.len() implies after[n] == (orig.subrange(
                0,
                i as int,
            ) + (seq![sorted_insert(orig, e@)[i as int]]).add(orig.skip(i as int)))[n] by {
                assert(after[n] == v@[n]@);
                if n < i {
                    assert(v@[n] == old(v)@[n]);
                } else if n == i {
                    assert(v@[n] == e);
                } else {
                    assert(v@[n] == old(v)@[n - 1]);
                }
            }
        }
        assert(after =~= sorted_insert(orig, e@)) by {
            assert(sorted_insert(orig, e@) == orig.subrange(0, i as int) + sorted_insert(
                orig.skip(i as int),
                e@,
            ));
        }
    }
}

/// Sorts entries by the tree order.
pub fn sort_entries(mut entries: Vec<TreeEntry>) -> (r: Vec<TreeEntry>)
    ensures
        r@.map_values(|t: TreeEntry| t@) == sort_entries_spec(
            entries@.map_values(|t: TreeEntry| t@),
        ),
{
    let ghost orig = entries@.map_values(|t: TreeEntry| t@);
    let mut sorted: Vec<TreeEntry> = Vec::new();
    let ghost mut i: int = 0;
    while entries.len() > 0
        invariant
            0 <= i <= orig.len(),
            entries@.map_values(|t: TreeEntry| t@) =~= orig.skip(i),
            entries@.len() == orig.len() - i,
            sorted@.map_values(|t: TreeEntry| t@) == sort_entries_spec(orig.subrange(0, i)),
        decreases entries@.len(),
    {
        let ghost prev = entries@;
        let e = entries.remove(0);
        proof {
            assert(prev.map_values(|t: TreeEntry| t@)[0] == orig.skip(i)[0]);
            assert(orig.skip(i)[0] == orig[i]);
            assert(e@ == orig[i]);
        }
        insert_sorted(&mut sorted, e);
        proof {
            i = i + 1;
            let m = entries@.map_values(|t: TreeEntry| t@);
            assert forall|j: int| 0 <= j < entries@.len() implies #[trigger] m[j] == orig.skip(
                i,
            )[j] by {
                assert(entries@[j] == prev[j + 1]);
                assert(prev.map_values(|t: TreeEntry| t@)[j + 1] == orig.skip(i - 1)[j + 1]);
                assert(orig.skip(i - 1)[j + 1] == orig[i + j]);
                assert(orig.skip(i)[j] == orig[i + j]);
            }
            assert(entries@.map_values(|t: TreeEntry| t@) =~= orig.skip(i));
            let pre = orig.subrange(0, i);
            assert(pre.drop_last() =~= orig.subrange(0, i - 1));
            assert(pre.last() == orig[i - 1]);
        }
    }
    proof {
        assert(orig.subrange(0, orig.len() as int) =~= orig);
    }
    sorted
}

// ---------------------------------------------------------------------------
// Directory snapshots
// ---------------------------------------------------------------------------

/// An in-memory directory snapshot, as a walker reads it from disk: files
/// with their contents and the executable bit, directories with their
/// children. The walker excludes the store's own directory and ignored
/// entries before handing the tree over.
pub enum FsNode {
    File { name: String, executable: bool, contents: Vec<u8> },
    Dir { name: String, children: Vec<FsNode> },
}

/// The mode a node snapshots as.
pub open spec fn node_mode(n: FsNode) -> FileMode {
    match n {
        FsNode::File { executable, .. } => if executable {
            FileMode::ExecutableFile
        } else {
            FileMode::RegularFile
        },
        FsNode::Dir { .. } => FileMode::Directory,
    }
}

/// A node's name.
pub open spec fn node_name(n: FsNode) -> Seq<char> {
    match n {
        FsNode::File { name, .. } => name@,
        FsNode::Dir { name, .. } => name@,
    }
}

/// The serialized payload of a sequence of entry views, in their order.
pub open spec fn tree_payload(vs: Seq<TreeEntryView>) -> Seq<u8>
    decreases vs.len(),
{
    if vs.len() == 0 {
        Seq::empty()
    } else {
        tree_payload(vs.drop_last()) + entry_bytes(vs.last())
    }
}

/// The id of the record a node snapshots to: a blob record of a file's
/// contents, or a tree record of the sorted child entries.
pub open spec fn snap_hash(n: FsNode) -> Seq<char>
    decreases n, 0int,
{
    match n {
        FsNode::File { contents, .. } => id_chars_of(encode_rec(ObjectType::Blob, contents@)),
        FsNode::Dir { children, .. } => id_chars_of(
            encode_rec(ObjectType::Tree, dir_payload(children@)),
        ),
    }
}

/// The payload of a directory's tree record: its child entries, sorted.
pub open spec fn dir_payload(cs: Seq<FsNode>) -> Seq<u8>
    decreases cs, 1int,
{
    tree_payload(sort_entries_spec(child_views(cs)))
}

/// The entry one node contributes to its parent's tree record.
pub open spec fn entry_view_of(n: FsNode) -> TreeEntryView
    decreases n, 1int,
{
    TreeEntryView {
        mode: node_mode(n),
        ty: object_type_of(node_mode(n)),
        hash: snap_hash(n),
        file: node_name(n),
    }
}

/// The entry views of a directory's children, in the children's order.
pub open spec fn child_views(cs: Seq<FsNode>) -> Seq<TreeEntryView>
    decreases cs, 0int,
{
    if cs.len() == 0 {
        Seq::empty()
    } else {
        child_views(cs.drop_last()) + seq![entry_view_of(cs.last())]
    }
}

/// The view list is pointwise the children's entry views.
pub proof fn lemma_child_views(cs: Seq<FsNode>)
    ensures
        child_views(cs).len() == cs.len(),
        forall|i: int| 0 <= i < cs.len() ==> #[trigger] child_views(cs)[i] == entry_view_of(cs[i]),
    decreases cs.len(),
{
    if cs.len() > 0 {
        lemma_child_views(cs.drop_last());
        assert forall|i: int| 0 <= i < cs.len() implies #[trigger] child_views(cs)[i]
            == entry_view_of(cs[i]) by {
            if i < cs.len() - 1 {
                assert(child_views(cs)[i] == child_views(cs.drop_last())[i]);
                assert(cs.drop_last()[i] == cs[i]);
            } else {
                assert(cs.last() == cs[i]);
            }
        }
    }
}

/// The records a node's snapshot persists: every child's records first,
/// the node's own record last, so referenced objects exist before their
/// referents.
pub open spec fn snap_objs(n: FsNode) -> Seq<(ObjectType, Seq<u8>)>
    decreases n, 1int,
{
    match n {
        FsNode::File { contents, .. } => seq![(ObjectType::Blob, contents@)],
        FsNode::Dir { children, .. } => snap_objs_list(children@) + seq![
            (ObjectType::Tree, dir_payload(children@)),
        ],
    }
}

pub open spec fn snap_objs_list(cs: Seq<FsNode>) -> Seq<(ObjectType, Seq<u8>)>
    decreases cs, 0int,
{
    if cs.len() == 0 {
        Seq::empty()
    } else {
        snap_objs_list(cs.drop_last()) + snap_objs(cs.last())
    }
}

/// A node's mode.
fn node_mode_exec(n: &FsNode) -> (r: FileMode)
    ensures
        r == node_mode(*n),
{
    match n {
        FsNode::File { executable, .. } => {
            if *executable {
                FileMode::ExecutableFile
            } else {
                FileMode::RegularFile
            }
        },
        FsNode::Dir { .. } => FileMode::Directory,
    }
}

/// A node's name.
fn node_name_exec(n: &FsNode) -> (r: &String)
    ensures
        r@ == node_name(*n),
{
    match n {
        FsNode::File { name, .. } => name,
        FsNode::Dir { name, .. } => name,
    }
}

/// Serializes entries in their given order.
pub fn tree_contents(entries: &Vec<TreeEntry>) -> (r: Vec<u8>)
    ensures
        r@ == tree_payload(entries@.map_values(|t: TreeEntry| t@)),
{
    let ghost views = entries@.map_values(|t: TreeEntry| t@);
    let mut out: Vec<u8> = Vec::new();
    let mut i: usize = 0;
    while i < entries.len()
        invariant
            i <= entries@.len(),
            views == entries@.map_values(|t: TreeEntry| t@),
            out@ == tree_payload(views.subrange(0, i as int)),
        decreases entries@.len() - i,
    {
        let e = &entries[i];
        e.write(&mut out);
        i = i + 1;
        proof {
            let pre = views.subrange(0, i as int);
            assert(pre.drop_last() =~= views.subrange(0, i as int - 1));
            assert(pre.last() == views[i as int - 1]);
            assert(views[i as int - 1] == entries@[i as int - 1]@);
        }
    }
    proof {
        assert(views.subrange(0, views.len() as int) =~= views);
    }
    out
}

/// Snapshots one node: appends every record the node needs, children
/// before parents, and returns the node's own id.
fn snapshot_node(n: &FsNode, out: &mut Vec<StoreRecord>) -> (id: String)
    ensures
        final(out)@.len() == old(out)@.len() + snap_objs(*n).len(),
        forall|j: int| 0 <= j < old(out)@.len() ==> final(out)@[j] == old(out)@[j],
        records_match(final(out)@.skip(old(out)@.len() as int), snap_objs(*n)),
        id@ == snap_hash(*n),
        valid_hex_id(id@),
    decreases *n,
{
    match n {
        FsNode::File { contents, .. } => {
            let mut buf: Vec<u8> = Vec::new();
            let id = crate::object::encode_object(ObjectType::Blob, contents.as_slice(), &mut buf);
            let id2 = id.clone();
            out.push(StoreRecord { id, data: buf });
            proof {
                assert(out@.skip(old(out)@.len() as int) =~= seq![out@.last()]);
            }
            id2
        },
        FsNode::Dir { children, .. } => {
            let mut entries: Vec<TreeEntry> = Vec::new();
            let mut i: usize = 0;
            let ghost base = old(out)@.len() as int;
            while i < children.len()
                invariant
                    n is Dir,
                    *children == n->Dir_children,
                    i <= children@.len(),
                    out@.len() == old(out)@.len() + snap_objs_list(
                        children@.subrange(0, i as int),
                    ).len(),
                    forall|j: int| 0 <= j < old(out)@.len() ==> out@[j] == old(out)@[j],
                    records_match(
                        out@.skip(old(out)@.len() as int),
                        snap_objs_list(children@.subrange(0, i as int)),
                    ),
                    entries@.map_values(|t: TreeEntry| t@) == child_views(
                        children@.subrange(0, i as int),
                    ),
                decreases children@.len() - i,
            {
                let child = &children[i];
                proof {
                    let cvec = n->Dir_children;
                    assert(cvec == *children);
                    assert(decreases_to!(*n => n->Dir_children));
                    assert(decreases_to!(cvec => cvec@));
                    assert(decreases_to!(cvec@ => cvec@[i as int]));
                    assert(decreases_to!(*n => children@[i as int]));
                    assert(*child == children@[i as int]);
                }
                let ghost prev_len = out@.len() as int;
                let ghost prev_records = out@;
                let ghost prev_entry_views = entries@.map_values(|t: TreeEntry| t@);
                let cid = snapshot_node(child, out);
                let mode = node_mode_exec(child);
                let name = node_name_exec(child).clone();
                let ty = ObjectType::from(mode);
                let ghost cview = TreeEntryView { mode, ty, hash: cid@, file: name@ };
                entries.push(TreeEntry { mode, ty, hash: cid, file: name });
                i = i + 1;
                proof {
                    let pre = children@.subrange(0, i as int);
                    assert(pre.drop_last() =~= children@.subrange(0, i as int - 1));
                    assert(pre.last() == children@[i as int - 1]);
                    // The records so far are the old ones, the earlier
                    // children's, then this child's.
                    assert(snap_objs_list(pre) == snap_objs_list(pre.drop_last()) + snap_objs(
                        pre.last(),
                    ));
                    let objs = snap_objs_list(pre);
                    let suffix = out@.skip(old(out)@.len() as int);
                    assert forall|j: int| 0 <= j < objs.len() implies (#[trigger] suffix[j]).is_record_of(
                        objs[j].0,
                        objs[j].1,
                    ) by {
                        if j < snap_objs_list(pre.drop_last()).len() {
                            assert(out@[old(out)@.len() + j] == prev_records[old(out)@.len() + j]);
                            assert(suffix[j] == prev_records.skip(old(out)@.len() as int)[j]);
                            assert(objs[j] == snap_objs_list(pre.drop_last())[j]);
                        } else {
                            let k = j - snap_objs_list(pre.drop_last()).len();
                            assert(suffix[j] == out@.skip(prev_len)[k]);
                            assert(objs[j] == snap_objs(pre.last())[k]);
                        }
                    }
                    // The entry views so far are the child views.
                    lemma_child_views(pre);
                    lemma_child_views(pre.drop_last());
                    let eviews = entries@.map_values(|t: TreeEntry| t@);
                    assert forall|j: int| 0 <= j < eviews.len() implies #[trigger] eviews[j]
                        == child_views(pre)[j] by {
                        assert(child_views(pre)[j] == entry_view_of(pre[j]));
                        assert(pre[j] == children@[j]);
                        if j < eviews.len() - 1 {
                            assert(eviews[j] == prev_entry_views[j]);
                            assert(pre.drop_last()[j] == pre[j]);
                            assert(child_views(pre.drop_last())[j] == entry_view_of(
                                pre.drop_last()[j],
                            ));
                        } else {
                            assert(eviews[j] == cview);
                            assert(*child == children@[j]);
                        }
                    }
                    assert(eviews =~= child_views(pre));
                }
            }
            proof {
                assert(children@.subrange(0, children@.len() as int) =~= children@);
            }
            let sorted = sort_entries(entries);
            let payload = tree_contents(&sorted);
            let mut buf: Vec<u8> = Vec::new();
            let ghost before_own = out@;
            let id = crate::object::encode_object(ObjectType::Tree, payload.as_slice(), &mut buf);
            let id2 = id.clone();
            out.push(StoreRecord { id, data: buf });
            proof {
                assert(payload@ == dir_payload(children@));
                let objs = snap_objs(*n);
                let suffix = out@.skip(old(out)@.len() as int);
                assert forall|j: int| 0 <= j < objs.len() implies (#[trigger] suffix[j]).is_record_of(
                    objs[j].0,
                    objs[j].1,
                ) by {
                    if j < snap_objs_list(children@).len() {
                        assert(out@[old(out)@.len() + j] == before_own[old(out)@.len() + j]);
                        assert(suffix[j] == before_own.skip(old(out)@.len() as int)[j]);
                        assert(objs[j] == snap_objs_list(children@)[j]);
                    } else {
                        assert(suffix[j] == out@.last());
                        assert(objs[j] == (ObjectType::Tree, dir_payload(children@)));
                    }
                }
            }
            id2
        },
    }
}

/// Snapshots a directory tree: returns the root's id and every record the
/// snapshot persists, each child record standing before its parent's.
pub fn write_tree(root: &FsNode) -> (r: (String, Vec<StoreRecord>))
    ensures
        r.0@ == snap_hash(*root),
        valid_hex_id(r.0@),
        records_match(r.1@, snap_objs(*root)),
{
    let mut records: Vec<StoreRecord> = Vec::new();
    let id = snapshot_node(root, &mut records);
    proof {
        assert(records@.skip(0) =~= records@);
    }
    (id, records)
}


} // verus!
