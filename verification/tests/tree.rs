use mygit::FileMode;
use mygit::FsNode;
use mygit::MyGitError;
use mygit::ObjectType;
use mygit::TreeEntry;
use mygit::hash;
use mygit::parse_tree_entries;
use mygit::sort_entries;
use mygit::tree_contents;
use mygit::write_tree;

fn entry(mode: FileMode, ty: ObjectType, hash: &str, file: &str) -> TreeEntry {
    TreeEntry { mode, ty, hash: hash.to_string(), file: file.to_string() }
}

const ID_A: &str = "aaaaaaaaaaaaaaaaaaaaaaaaaaaaaaaaaaaaaaaa";
const ID_B: &str = "bbbbbbbbbbbbbbbbbbbbbbbbbbbbbbbbbbbbbbbb";

#[test]
fn mode_parse_accepts_the_three_modes() {
    assert_eq!(FileMode::parse(b"100644 rest").unwrap(), (FileMode::RegularFile, 6));
    assert_eq!(FileMode::parse(b"100755 rest").unwrap(), (FileMode::ExecutableFile, 6));
    assert_eq!(FileMode::parse(b"40000 rest").unwrap(), (FileMode::Directory, 5));
}

#[test]
fn mode_parse_rejects_other_tokens() {
    assert_eq!(FileMode::parse(b"120000 link").unwrap_err(), MyGitError::CorruptObject);
}

#[test]
fn entry_write_then_parse_round_trips() {
    let e = entry(FileMode::RegularFile, ObjectType::Blob, ID_A, "a.txt");
    let mut buf = Vec::new();
    e.write(&mut buf);
    let (back, used) = TreeEntry::parse(&buf, 0).unwrap();
    assert_eq!(used, buf.len());
    assert_eq!(back.mode, FileMode::RegularFile);
    assert_eq!(back.ty, ObjectType::Blob);
    assert_eq!(back.hash, ID_A);
    assert_eq!(back.file, "a.txt");
}

#[test]
fn entry_bytes_have_the_wire_shape() {
    let e = entry(FileMode::RegularFile, ObjectType::Blob, ID_A, "a.txt");
    let mut buf = Vec::new();
    e.write(&mut buf);
    let mut expected = b"100644 a.txt\0".to_vec();
    expected.extend_from_slice(&[0xaa; 20]);
    assert_eq!(buf, expected);
}

#[test]
fn parse_tree_entries_reads_two_entries() {
    let e1 = entry(FileMode::RegularFile, ObjectType::Blob, ID_A, "a.txt");
    let e2 = entry(FileMode::Directory, ObjectType::Tree, ID_B, "sub");
    let mut buf = Vec::new();
    e1.write(&mut buf);
    e2.write(&mut buf);
    let back = parse_tree_entries(&buf).unwrap();
    assert_eq!(back.len(), 2);
    assert_eq!(back[0].file, "a.txt");
    assert_eq!(back[0].mode, FileMode::RegularFile);
    assert_eq!(back[1].file, "sub");
    assert_eq!(back[1].mode, FileMode::Directory);
    assert_eq!(back[1].hash, ID_B);
}

#[test]
fn parse_tree_entries_rejects_truncated_id() {
    let mut buf = b"100644 a.txt\0".to_vec();
    buf.extend_from_slice(&[0xaa; 19]);
    assert_eq!(parse_tree_entries(&buf).unwrap_err(), MyGitError::CorruptObject);
}

#[test]
fn directory_foo_sorts_after_file_foo_txt() {
    // The ordering key appends a virtual slash to directory names, and
    // '.' (0x2e) sorts before '/' (0x2f), so "foo.txt" stands before the
    // directory "foo" even though "foo" is shorter.
    let file = entry(FileMode::RegularFile, ObjectType::Blob, ID_A, "foo.txt");
    let dir = entry(FileMode::Directory, ObjectType::Tree, ID_B, "foo");
    let sorted = sort_entries(vec![dir.clone(), file.clone()]);
    assert_eq!(sorted[0].file, "foo.txt");
    assert_eq!(sorted[1].file, "foo");
    // The serialized payload keeps that order.
    let payload = tree_contents(&sorted);
    let mut expected = b"100644 foo.txt\0".to_vec();
    expected.extend_from_slice(&[0xaa; 20]);
    expected.extend_from_slice(b"40000 foo\0");
    expected.extend_from_slice(&[0xbb; 20]);
    assert_eq!(payload, expected);
}

#[test]
fn file_foo_sorts_before_file_foo_txt() {
    // Without the virtual slash the shorter name wins.
    let long = entry(FileMode::RegularFile, ObjectType::Blob, ID_A, "foo.txt");
    let short = entry(FileMode::RegularFile, ObjectType::Blob, ID_B, "foo");
    let sorted = sort_entries(vec![long, short]);
    assert_eq!(sorted[0].file, "foo");
    assert_eq!(sorted[1].file, "foo.txt");
}

#[test]
fn snapshot_of_empty_directory_is_the_empty_tree() {
    let root = FsNode::Dir { name: String::new(), children: Vec::new() };
    let (id, records) = write_tree(&root);
    assert_eq!(id, "4b825dc642cb6eb9a060e54bf8d69288fbee4904");
    assert_eq!(records.len(), 1);
    assert_eq!(records[0].data, b"tree 0\0".to_vec());
}

#[test]
fn snapshot_writes_children_before_parents() {
    let root = FsNode::Dir {
        name: String::new(),
        children: vec![
            FsNode::File {
                name: "hello.txt".to_string(),
                executable: false,
                contents: b"hello world\n".to_vec(),
            },
            FsNode::Dir {
                name: "sub".to_string(),
                children: vec![FsNode::File {
                    name: "x".to_string(),
                    executable: true,
                    contents: b"x".to_vec(),
                }],
            },
        ],
    };
    let (id, records) = write_tree(&root);
    // One blob, one inner tree with its blob, then the root tree.
    assert_eq!(records.len(), 4);
    assert_eq!(records[0].data, b"blob 12\0hello world\n".to_vec());
    assert_eq!(records[0].id, "3b18e512dba79e4c8300dd08aeb37f8e728b8dad");
    assert_eq!(records[1].data, b"blob 1\0x".to_vec());
    // Each record's id is the hash of its bytes, and the root id is the
    // last record's.
    for r in &records {
        assert_eq!(r.id, hash(&r.data));
    }
    assert_eq!(records[3].id, id);
    // The root tree lists the blob entry before the directory entry.
    let mut expected_root = b"tree 67\0100644 hello.txt\0".to_vec();
    let raw0: Vec<u8> = {
        let mut v = Vec::new();
        let h = &records[0].id;
        let b = h.as_bytes();
        let val = |c: u8| -> u8 {
            if c <= b'9' { c - b'0' } else { c - b'a' + 10 }
        };
        let mut i: usize = 0;
        while i < 40 {
            v.push(val(b[i]) * 16 + val(b[i + 1]));
            i += 2;
        }
        v
    };
    expected_root.extend_from_slice(&raw0);
    expected_root.extend_from_slice(b"40000 sub\0");
    let raw2: Vec<u8> = {
        let mut v = Vec::new();
        let b = records[2].id.as_bytes();
        let val = |c: u8| -> u8 {
            if c <= b'9' { c - b'0' } else { c - b'a' + 10 }
        };
        let mut i: usize = 0;
        while i < 40 {
            v.push(val(b[i]) * 16 + val(b[i + 1]));
            i += 2;
        }
        v
    };
    expected_root.extend_from_slice(&raw2);
    assert_eq!(records[3].data, expected_root);
}

#[test]
fn executable_bit_selects_the_mode() {
    let root = FsNode::Dir {
        name: String::new(),
        children: vec![FsNode::File {
            name: "run".to_string(),
            executable: true,
            contents: b"#!x\n".to_vec(),
        }],
    };
    let (_, records) = write_tree(&root);
    let tree = &records[1].data;
    let text: Vec<u8> = tree.clone();
    assert!(text.windows(11).any(|w| w == b"100755 run\0"));
}
