use oc_rsync::filelist::{group_by_inode, DecodeError, Decoder, Encoder, Entry, InodeEntry};
use tempfile::tempdir;

fn plain(path: &[u8], uid: u32, gid: u32) -> Entry {
    Entry {
        path: path.to_vec(),
        uid,
        gid,
        hardlink: None,
        xattrs: Vec::new(),
        acl: Vec::new(),
        default_acl: Vec::new(),
    }
}

#[test]
fn roundtrip_paths_and_ids() {
    let entries = vec![
        Entry {
            path: b"dir/file1".to_vec(),
            uid: 1000,
            gid: 1000,
            hardlink: None,
            xattrs: vec![(b"user.test".to_vec(), b"val".to_vec())],
            acl: vec![1, 0, 0, 0, 0, 7, 0, 0, 0],
            default_acl: Vec::new(),
        },
        Entry {
            path: b"dir/file2".to_vec(),
            uid: 1000,
            gid: 1001,
            hardlink: Some(2000),
            xattrs: Vec::new(),
            acl: Vec::new(),
            default_acl: vec![1, 0, 0, 0, 0, 7, 0, 0, 0],
        },
        Entry {
            path: b"other".to_vec(),
            uid: 1002,
            gid: 1001,
            hardlink: Some(2000),
            xattrs: Vec::new(),
            acl: Vec::new(),
            default_acl: Vec::new(),
        },
    ];
    let mut enc = Encoder::new();
    let mut dec = Decoder::new();
    for e in entries {
        let bytes = enc.encode_entry(&e);
        let d = dec.decode_entry(&bytes).unwrap();
        assert_eq!(d, e);
    }
}

#[test]
fn path_delta_encode_decode() {
    let e1 = plain(b"dir/file1", 0, 0);
    let e2 = plain(b"dir/file2", 0, 0);
    let mut enc = Encoder::new();
    let mut dec = Decoder::new();

    let b1 = enc.encode_entry(&e1);
    dec.decode_entry(&b1).unwrap();

    let b2 = enc.encode_entry(&e2);
    assert_eq!(&b2[..3], &[8, 1, b'2']);
    let d2 = dec.decode_entry(&b2).unwrap();
    assert_eq!(d2.path, e2.path);
}

#[test]
fn decode_errors() {
    let mut dec = Decoder::new();
    assert_eq!(dec.decode_entry(&[0]).unwrap_err(), DecodeError::ShortInput);

    let mut dec = Decoder::new();
    let bytes = vec![0, 1, b'a', 0];
    assert_eq!(dec.decode_entry(&bytes).unwrap_err(), DecodeError::BadUid(0));

    let mut dec = Decoder::new();
    let bytes = vec![0, 1, b'a', 0xFF, 232, 3, 0, 0, 0];
    assert_eq!(dec.decode_entry(&bytes).unwrap_err(), DecodeError::BadGid(0));
}

#[test]
fn roundtrip_acl_entries() {
    let entry = Entry {
        path: b"file".to_vec(),
        uid: 1,
        gid: 2,
        hardlink: None,
        xattrs: Vec::new(),
        acl: vec![1, 0, 0, 0, 0, 7, 0, 0, 0],
        default_acl: vec![1, 0, 0, 0, 0, 7, 0, 0, 0],
    };
    let mut enc = Encoder::new();
    let payload = enc.encode_entry(&entry);
    let mut dec = Decoder::new();
    let decoded = dec.decode_entry(&payload).unwrap();
    assert_eq!(decoded, entry);
}

#[test]
fn roundtrip_root_default_acl() {
    let entry = Entry {
        path: Vec::new(),
        uid: 0,
        gid: 0,
        hardlink: None,
        xattrs: Vec::new(),
        acl: Vec::new(),
        default_acl: vec![1, 0, 0, 0, 0, 7, 0, 0, 0],
    };
    let mut enc = Encoder::new();
    let payload = enc.encode_entry(&entry);
    let mut dec = Decoder::new();
    let decoded = dec.decode_entry(&payload).unwrap();
    assert_eq!(decoded, entry);
}

#[test]
fn decode_error_short_input() {
    let mut dec = Decoder::new();
    let err = dec.decode_entry(&[]).unwrap_err();
    assert_eq!(err, DecodeError::ShortInput);
}

#[test]
fn decode_error_bad_uid() {
    let mut dec = Decoder::new();
    let bytes = vec![0, 1, b'a', 1];
    let err = dec.decode_entry(&bytes).unwrap_err();
    assert_eq!(err, DecodeError::BadUid(1));
}

#[test]
fn decode_error_bad_gid() {
    let mut dec = Decoder::new();
    let bytes = vec![0, 1, b'a', 0xFF, 0, 0, 0, 0, 2];
    let err = dec.decode_entry(&bytes).unwrap_err();
    assert_eq!(err, DecodeError::BadGid(2));
}

fn tag_positions(bytes: &[u8]) -> (usize, usize) {
    let suffix_len = bytes[1] as usize;
    let mut idx = 2 + suffix_len;
    let uid_pos = idx;
    if bytes[idx] == 0xFF {
        idx += 5;
    } else {
        idx += 1;
    }
    let gid_pos = idx;
    (uid_pos, gid_pos)
}

#[test]
fn encodes_paths_and_reuses_id_tables() {
    let tmp = tempdir().unwrap();
    let dir = tmp.path();
    let entry1 = plain(
        dir.join("file1.txt").to_string_lossy().into_owned().as_bytes(),
        1000,
        1000,
    );
    let entry2 = plain(
        dir.join("file2.txt").to_string_lossy().into_owned().as_bytes(),
        1000,
        1000,
    );

    let mut enc = Encoder::new();
    let bytes1 = enc.encode_entry(&entry1);
    let bytes2 = enc.encode_entry(&entry2);

    let expected_common = entry1
        .path
        .iter()
        .zip(entry2.path.iter())
        .take_while(|(a, b)| a == b)
        .count();
    assert_eq!(bytes2[0] as usize, expected_common);

    let (uid_pos1, gid_pos1) = tag_positions(&bytes1);
    let (uid_pos2, gid_pos2) = tag_positions(&bytes2);
    assert_eq!(bytes1[uid_pos1], 0xFF);
    assert_eq!(bytes1[gid_pos1], 0xFF);
    assert_eq!(bytes2[uid_pos2], 0);
    assert_eq!(bytes2[gid_pos2], 0);

    let mut dec = Decoder::new();
    let decoded1 = dec.decode_entry(&bytes1).unwrap();
    let decoded2 = dec.decode_entry(&bytes2).unwrap();
    assert_eq!(decoded1, entry1);
    assert_eq!(decoded2, entry2);
}

#[test]
fn first_entry_encodes_exact_bytes() {
    let mut enc = Encoder::new();
    let bytes = enc.encode_entry(&plain(b"ab", 7, 7));
    // no common prefix, suffix "ab", new uid 7, new gid 7, no hard link,
    // no xattrs, empty acl and default acl
    assert_eq!(
        bytes,
        vec![0, 2, b'a', b'b', 0xFF, 7, 0, 0, 0, 0xFF, 7, 0, 0, 0, 0, 0, 0, 0, 0, 0, 0, 0, 0, 0]
    );
    let again = enc.encode_entry(&plain(b"ac", 7, 7));
    assert_eq!(&again[..5], &[1, 1, b'c', 0, 0]);
}

#[test]
fn decoded_stream_matches_encoded_stream_law() {
    let mut enc = Encoder::new();
    let mut dec = Decoder::new();
    let entries = vec![
        plain(b"a/b/c", 5, 6),
        plain(b"a/b/d", 6, 5),
        plain(b"x", 5, 5),
        Entry { hardlink: Some(6), ..plain(b"x2", 9, 9) },
    ];
    for e in &entries {
        let bytes = enc.encode_entry(e);
        assert_eq!(&dec.decode_entry(&bytes).unwrap(), e);
    }
}

#[test]
fn trailing_bytes_are_ignored() {
    let mut enc = Encoder::new();
    let e = plain(b"f", 1, 2);
    let mut bytes = enc.encode_entry(&e);
    bytes.push(99);
    let mut dec = Decoder::new();
    assert_eq!(dec.decode_entry(&bytes).unwrap(), e);
}

#[test]
fn decode_error_truncated_suffix() {
    let mut dec = Decoder::new();
    assert_eq!(dec.decode_entry(&[0, 3, b'a']).unwrap_err(), DecodeError::ShortInput);
}

#[test]
fn decode_error_missing_hardlink_flag() {
    let mut dec = Decoder::new();
    let bytes = vec![0, 1, b'a', 0xFF, 1, 0, 0, 0, 0xFF, 2, 0, 0, 0];
    assert_eq!(dec.decode_entry(&bytes).unwrap_err(), DecodeError::ShortInput);
}

fn inode(path: &[u8], dev: u64, ino: u64) -> InodeEntry {
    InodeEntry {
        path: path.to_vec(),
        uid: 1,
        gid: 2,
        dev,
        ino,
        xattrs: Vec::new(),
        acl: Vec::new(),
        default_acl: Vec::new(),
    }
}

#[test]
fn groups_shared_inodes_in_order() {
    let entries = vec![
        inode(b"a", 1, 10),
        inode(b"b", 1, 20),
        inode(b"c", 1, 10),
        inode(b"d", 2, 20),
        inode(b"e", 1, 20),
    ];
    let out = group_by_inode(&entries);
    let groups: Vec<Option<u32>> = out.iter().map(|e| e.hardlink).collect();
    assert_eq!(groups, vec![Some(0), Some(1), Some(0), None, Some(1)]);
    assert_eq!(out[3].path, b"d".to_vec());
    assert_eq!(out[0].uid, 1);
    assert_eq!(out[0].gid, 2);
}

#[test]
fn full_gid_table_roundtrips_known_ids() {
    let mut enc = Encoder::new();
    let mut dec = Decoder::new();
    for g in 0..254u32 {
        let e = plain(b"f", 0, 5000 + g);
        let bytes = enc.encode_entry(&e);
        assert_eq!(dec.decode_entry(&bytes).unwrap(), e);
    }
    // The gid table holds 254 ids: a known gid with one new hard-link group
    // takes index 254, which is still not the new-id tag.
    let mut e = plain(b"g", 0, 5000);
    e.hardlink = Some(9);
    let bytes = enc.encode_entry(&e);
    assert_eq!(dec.decode_entry(&bytes).unwrap(), e);
    let again = plain(b"h", 0, 5253);
    let bytes = enc.encode_entry(&again);
    assert_eq!(dec.decode_entry(&bytes).unwrap(), again);
}
