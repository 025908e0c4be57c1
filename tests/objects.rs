use git_objects::builder::{commit_body, commit_tree, is_store_dir, write_line, write_tree};
use git_objects::bytes::{decimal_bytes, find_byte_from};
use git_objects::codec::{frame, parse, ObjectError, ObjectKind};
use git_objects::order::{name_less, sort_entries};
use git_objects::store::{
    cat_file, compute_sha1, hash_hex, location_of_hex, ls_tree, object_location, read_object,
    read_raw, store_object, write_blob, write_object,
};
use git_objects::tree::{format_tree, parse_tree_entries, TreeEntry};

fn hex(b: &[u8]) -> String {
    b.iter().map(|x| format!("{:02x}", x)).collect()
}

fn sha(fill: u8) -> Vec<u8> {
    vec![fill; 20]
}

#[test]
fn hello_blob_is_framed_hashed_and_located() {
    let framed = frame(ObjectKind::Blob, b"hello\n");
    assert_eq!(framed, b"blob 6\0hello\n".to_vec());
    let o = write_blob(b"hello\n");
    assert_ne!(o.compressed, framed);
    assert_eq!(hex(&o.hash), "ce013625030ba8dba906f756967f9e9ca394464a");
    assert_eq!(o.location.dir, "ce");
    assert_eq!(o.location.file, "013625030ba8dba906f756967f9e9ca394464a");
    assert_eq!(read_object(&o.compressed).unwrap(), (ObjectKind::Blob, b"hello\n".to_vec()));
}

#[test]
fn writing_a_blob_twice_gives_the_same_hash() {
    let a = write_blob(b"some content");
    let b = write_blob(b"some content");
    assert_eq!(a.hash, b.hash);
    assert_eq!(a.location.dir, b.location.dir);
    assert_eq!(a.location.file, b.location.file);
    assert_eq!(read_object(&a.compressed).unwrap(), read_object(&b.compressed).unwrap());
    let c = write_blob(b"other content");
    assert_ne!(a.hash, c.hash);
}

#[test]
fn frame_then_parse_gives_back_kind_and_content() {
    for kind in [ObjectKind::Blob, ObjectKind::Tree, ObjectKind::Commit] {
        for content in [&b""[..], b"x", b"with\0null bytes\0", &[7u8; 300][..]] {
            let framed = frame(kind, content);
            assert_eq!(parse(&framed).unwrap(), (kind, content.to_vec()));
        }
    }
    assert_eq!(frame(ObjectKind::Tree, b""), b"tree 0\0".to_vec());
    assert_eq!(frame(ObjectKind::Commit, b"ab"), b"commit 2\0ab".to_vec());
}

#[test]
fn parse_rejects_bad_headers() {
    assert_eq!(parse(b"blob 6hello\n"), Err(ObjectError::MalformedHeader));
    assert_eq!(parse(b"blob 5\0hello\n"), Err(ObjectError::MalformedHeader));
    assert_eq!(parse(b"blob 06\0hello\n"), Err(ObjectError::MalformedHeader));
    assert_eq!(parse(b"note 1\0x"), Err(ObjectError::MalformedHeader));
    assert_eq!(parse(b"blob1\0x"), Err(ObjectError::MalformedHeader));
    assert_eq!(parse(b""), Err(ObjectError::MalformedHeader));
}

#[test]
fn tree_entries_round_trip() {
    let entries = vec![
        TreeEntry::file(b"a.txt".to_vec(), sha(1)),
        TreeEntry::directory(b"b dir".to_vec(), sha(2)),
        TreeEntry::file(vec![0xff, 0xfe], sha(0)),
    ];
    let content = format_tree(&entries);
    let back = parse_tree_entries(&content).unwrap();
    assert_eq!(back.len(), 3);
    for (x, y) in entries.iter().zip(back.iter()) {
        assert_eq!(x.mode, y.mode);
        assert_eq!(x.name, y.name);
        assert_eq!(x.sha, y.sha);
    }
    let mut expected = b"100644 a.txt\0".to_vec();
    expected.extend_from_slice(&sha(1));
    assert_eq!(&content[..expected.len()], &expected[..]);
    assert!(parse_tree_entries(b"").unwrap().is_empty());
}

#[test]
fn tree_entry_errors() {
    assert_eq!(parse_tree_entries(b"100644a.txt").unwrap_err(), ObjectError::MalformedTreeEntry);
    assert_eq!(parse_tree_entries(b"100644 a.txt").unwrap_err(), ObjectError::MalformedTreeEntry);
    let mut short = b"100644 a.txt\0".to_vec();
    short.extend_from_slice(&[1u8; 19]);
    assert_eq!(parse_tree_entries(&short).unwrap_err(), ObjectError::MalformedTreeEntry);
    let mut bad_mode = vec![0xffu8, b' ', b'a', 0];
    bad_mode.extend_from_slice(&sha(3));
    assert_eq!(parse_tree_entries(&bad_mode).unwrap_err(), ObjectError::InvalidUtf8);
}

#[test]
fn from_bytes_reads_exactly_one_entry() {
    let mut data = b"40000 sub\0".to_vec();
    data.extend_from_slice(&sha(9));
    let e = TreeEntry::from_bytes(&data).unwrap();
    assert_eq!(e.mode, "40000");
    assert_eq!(e.name, b"sub".to_vec());
    assert_eq!(e.sha, sha(9));
    data.push(1);
    assert_eq!(TreeEntry::from_bytes(&data).unwrap_err(), ObjectError::MalformedTreeEntry);
    assert_eq!(TreeEntry::from_bytes(b"x").unwrap_err(), ObjectError::MalformedTreeEntry);
}

#[test]
fn directory_with_file_and_empty_subdirectory() {
    let empty = write_tree(Vec::new());
    assert_eq!(hex(&empty.object.hash), "4b825dc642cb6eb9a060e54bf8d69288fbee4904");
    assert!(empty.entries.is_empty());
    let blob = write_blob(b"x");
    assert_eq!(hex(&blob.hash), "c1b0730e0133447badcfd47fd144e254807b06e1");
    let children = vec![
        TreeEntry::directory(b"sub".to_vec(), empty.object.hash.clone()),
        TreeEntry::file(b"a.txt".to_vec(), blob.hash.clone()),
    ];
    let t = write_tree(children);
    assert_eq!(t.entries.len(), 2);
    assert_eq!(t.entries[0].mode, "100644");
    assert_eq!(t.entries[0].name, b"a.txt".to_vec());
    assert_eq!(t.entries[0].sha, blob.hash);
    assert_eq!(t.entries[1].mode, "40000");
    assert_eq!(t.entries[1].name, b"sub".to_vec());
    assert_eq!(t.entries[1].sha, empty.object.hash);
    assert_eq!(hex(&t.object.hash), "b82156768bf012710817a9dbedc9d920bd5885bf");
    let listed = ls_tree(&t.object.compressed).unwrap();
    let names: Vec<Vec<u8>> = listed.iter().map(|e| e.name.clone()).collect();
    assert_eq!(names, vec![b"a.txt".to_vec(), b"sub".to_vec()]);
}

#[test]
fn tree_hash_ignores_listing_order() {
    let make = |order: &[usize]| {
        let names: [&[u8]; 4] = [b"b", b"a", b"ab", b"B"];
        order.iter().map(|&i| TreeEntry::file(names[i].to_vec(), sha(i as u8))).collect::<Vec<_>>()
    };
    let t1 = write_tree(make(&[0, 1, 2, 3]));
    let t2 = write_tree(make(&[3, 2, 1, 0]));
    let t3 = write_tree(make(&[2, 0, 3, 1]));
    assert_eq!(t1.object.hash, t2.object.hash);
    assert_eq!(t1.object.hash, t3.object.hash);
    let names: Vec<Vec<u8>> = t1.entries.iter().map(|e| e.name.clone()).collect();
    assert_eq!(names, vec![b"B".to_vec(), b"a".to_vec(), b"ab".to_vec(), b"b".to_vec()]);
}

#[test]
fn tree_hash_follows_content() {
    let a = write_tree(vec![TreeEntry::file(b"f".to_vec(), sha(1))]);
    let b = write_tree(vec![TreeEntry::file(b"f".to_vec(), sha(1))]);
    let c = write_tree(vec![TreeEntry::file(b"f".to_vec(), sha(2))]);
    assert_eq!(a.object.hash, b.object.hash);
    assert_ne!(a.object.hash, c.object.hash);
}

#[test]
fn corrupt_and_headerless_objects_are_rejected() {
    assert_eq!(read_object(b"not compressed at all"), Err(ObjectError::CorruptObject));
    assert_eq!(cat_file(b"\x00\x01\x02"), Err(ObjectError::CorruptObject));
    let h = compute_sha1(b"no null here");
    let o = write_object(&h, b"no null here");
    assert_eq!(read_object(&o.compressed), Err(ObjectError::MalformedHeader));
    assert_eq!(ls_tree(&o.compressed).unwrap_err(), ObjectError::MalformedHeader);
}

#[test]
fn cat_file_gives_text_content() {
    let o = write_blob(b"hello\n");
    assert_eq!(cat_file(&o.compressed).unwrap(), "hello\n");
    let bin = write_blob(&[0xff, 0x00]);
    assert_eq!(cat_file(&bin.compressed), Err(ObjectError::InvalidUtf8));
}

#[test]
fn sha1_of_known_input() {
    assert_eq!(hex(&compute_sha1(b"abc")), "a9993e364706816aba3e25717850c26c9cd0d89d");
    assert_eq!(hex(&compute_sha1(b"")), "da39a3ee5e6b4b0d3255bfef95601890afd80709");
}

#[test]
fn locations_from_hash_and_hex() {
    let loc = object_location(&[0xab, 0x01, 0xff]);
    assert_eq!(loc.dir, "ab");
    assert_eq!(loc.file, "01ff");
    let h = "ce013625030ba8dba906f756967f9e9ca394464a";
    let loc = location_of_hex(h).unwrap();
    assert_eq!(loc.dir, "ce");
    assert_eq!(loc.file, "013625030ba8dba906f756967f9e9ca394464a");
    assert!(location_of_hex("ce01").is_none());
    assert!(location_of_hex("CE013625030ba8dba906f756967f9e9ca394464a").is_none());
    assert!(location_of_hex("zz013625030ba8dba906f756967f9e9ca394464a").is_none());
}

#[test]
fn commit_body_layout() {
    let body = commit_body("abc", "msg", Some("def"), "A <a@b>", 1700000000, "+0200");
    let expected = "tree abc\nparent def\nauthor A <a@b> 1700000000 +0200\nauthor A <a@b> 1700000000 +0200\n\nmsg\n";
    assert_eq!(String::from_utf8(body).unwrap(), expected);
    let body = commit_body("abc", "m", None, "A", 0, "+0000");
    assert_eq!(String::from_utf8(body).unwrap(), "tree abc\nauthor A 0 +0000\nauthor A 0 +0000\n\nm\n");
    let o = commit_tree("abc", "m", None, "A", 0, "+0000");
    let (kind, content) = read_object(&o.compressed).unwrap();
    assert_eq!(kind, ObjectKind::Commit);
    assert_eq!(content, b"tree abc\nauthor A 0 +0000\nauthor A 0 +0000\n\nm\n".to_vec());
    assert_eq!(o.hash, compute_sha1(&frame(ObjectKind::Commit, &content)));
}

#[test]
fn write_line_appends_newline() {
    let mut v = b"a".to_vec();
    write_line(&mut v, b"bc");
    write_line(&mut v, b"");
    assert_eq!(v, b"abc\n\n".to_vec());
}

#[test]
fn names_compare_bytewise() {
    assert!(name_less(b"a", b"b"));
    assert!(name_less(b"a", b"ab"));
    assert!(name_less(b"B", b"a"));
    assert!(!name_less(b"ab", b"a"));
    assert!(!name_less(b"a", b"a"));
    assert!(name_less(b"", b"a"));
    assert!(!name_less(&[0xff], &[0x7f]));
}

#[test]
fn sort_keeps_all_entries() {
    let v = vec![
        TreeEntry::file(b"z".to_vec(), sha(1)),
        TreeEntry::file(b"a".to_vec(), sha(2)),
        TreeEntry::file(b"m".to_vec(), sha(3)),
    ];
    let s = sort_entries(v);
    let got: Vec<(Vec<u8>, u8)> = s.iter().map(|e| (e.name.clone(), e.sha[0])).collect();
    assert_eq!(got, vec![(b"a".to_vec(), 2), (b"m".to_vec(), 3), (b"z".to_vec(), 1)]);
    assert!(sort_entries(Vec::new()).is_empty());
}

#[test]
fn decimal_rendering() {
    assert_eq!(decimal_bytes(0), b"0".to_vec());
    assert_eq!(decimal_bytes(10), b"10".to_vec());
    assert_eq!(decimal_bytes(1234567), b"1234567".to_vec());
    assert_eq!(decimal_bytes(u64::MAX), u64::MAX.to_string().into_bytes());
}

#[test]
fn byte_search() {
    assert_eq!(find_byte_from(b"ab cd", b' ', 0), 2);
    assert_eq!(find_byte_from(b"ab cd", b' ', 3), 5);
    assert_eq!(find_byte_from(b"", 0, 0), 0);
}

#[test]
fn store_object_frames_content() {
    let o = store_object(ObjectKind::Tree, b"");
    assert_eq!(hex(&o.hash), "4b825dc642cb6eb9a060e54bf8d69288fbee4904");
}

#[test]
fn raw_read_gives_framed_bytes() {
    let o = write_object(&[1, 2, 3], b"not a framed object");
    assert_eq!(read_raw(&o.compressed).unwrap(), b"not a framed object".to_vec());
    let b = write_blob(b"hello\n");
    assert_eq!(read_raw(&b.compressed).unwrap(), b"blob 6\0hello\n".to_vec());
    assert_eq!(read_raw(b"garbage"), Err(ObjectError::CorruptObject));
}

#[test]
fn hash_hex_is_lowercase_hex() {
    assert_eq!(hash_hex(&[0x00, 0xab, 0x7f]), "00ab7f");
    let o = write_blob(b"hello\n");
    assert_eq!(hash_hex(&o.hash), "ce013625030ba8dba906f756967f9e9ca394464a");
}

#[test]
fn store_dir_is_recognised() {
    assert!(is_store_dir(b".git"));
    assert!(!is_store_dir(b".gitignore"));
    assert!(!is_store_dir(b"git"));
    assert!(!is_store_dir(b""));
}
