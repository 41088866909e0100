use chartered_git::index::{build_index, IndexTree};
use chartered_git::object::{CommitUserInfo, PackFileEntry};
use chartered_git::packfile::{encode_entry, push_size_header, PackFile};
use sha1::Digest;
use std::io::Read;

/// Reads a packfile back, independently of the writer: the kinds and
/// inflated bodies of its objects, after checking the header and checksum.
fn read_pack(pack: &[u8]) -> Vec<(u8, Vec<u8>)> {
    assert_eq!(&pack[..4], b"PACK");
    assert_eq!(&pack[4..8], &[0, 0, 0, 2]);
    let count = u32::from_be_bytes([pack[8], pack[9], pack[10], pack[11]]) as usize;
    let body_end = pack.len() - 20;
    let want: [u8; 20] = sha1::Sha1::digest(&pack[..body_end]).into();
    assert_eq!(&pack[body_end..], &want);
    let mut pos = 12;
    let mut out = Vec::new();
    for _ in 0..count {
        let mut b = pack[pos];
        pos += 1;
        let kind = (b >> 4) & 7;
        let mut size = (b & 15) as usize;
        let mut shift = 4;
        while b & 0x80 != 0 {
            b = pack[pos];
            pos += 1;
            size |= ((b & 0x7f) as usize) << shift;
            shift += 7;
        }
        let mut dec = flate2::bufread::ZlibDecoder::new(&pack[pos..body_end]);
        let mut data = Vec::new();
        dec.read_to_end(&mut data).unwrap();
        pos += dec.total_in() as usize;
        assert_eq!(data.len(), size);
        out.push((kind, data));
    }
    assert_eq!(pos, body_end);
    out
}

#[test]
fn single_blob_pack() {
    let pack = PackFile::new(vec![PackFileEntry::Blob(b"hello\n".to_vec())]).encode().unwrap();
    assert_eq!(pack[12], 0x36);
    assert_eq!(read_pack(&pack), vec![(3, b"hello\n".to_vec())]);
}

#[test]
fn size_header_continuation() {
    let mut out = Vec::new();
    push_size_header(&mut out, 3, 100);
    assert_eq!(out, vec![0xb4, 0x06]);
    let mut out = Vec::new();
    push_size_header(&mut out, 1, 15);
    assert_eq!(out, vec![0x1f]);
    let mut out = Vec::new();
    push_size_header(&mut out, 2, 2048);
    assert_eq!(out, vec![0xa0, 0x80, 0x01]);
}

#[test]
fn entry_is_header_then_compressed_bytes() {
    let mut out = Vec::new();
    encode_entry(&PackFileEntry::Blob(b"abc".to_vec()), &vec![9, 9], &mut out);
    assert_eq!(out, vec![0x33, 9, 9]);
}

#[test]
fn index_pack_reads_back_to_its_objects() {
    let mut tree = IndexTree::new();
    assert!(tree.insert(b"serde".to_vec(), b"{\"vers\":\"1.0.0\"}\n".to_vec()));
    assert!(tree.insert(b"tokio".to_vec(), b"{\"vers\":\"1.2.0\"}\n".to_vec()));
    let user = || CommitUserInfo { name: b"n".to_vec(), email: b"e".to_vec(), time: 1 };
    let index = build_index(b"{}".to_vec(), &tree, user(), user(), b"m".to_vec());
    let bodies: Vec<(u8, Vec<u8>)> = index
        .entries
        .iter()
        .map(|e| {
            let kind = match e {
                PackFileEntry::Commit(_) => 1,
                PackFileEntry::Tree(_) => 2,
                PackFileEntry::Blob(_) => 3,
            };
            (kind, e.body_bytes())
        })
        .collect();
    let pack = PackFile::new(index.entries).encode().unwrap();
    assert_eq!(read_pack(&pack), bodies);
}
