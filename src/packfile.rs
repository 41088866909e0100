use vstd::prelude::*;
use crate::object::{append, body, sha1_digest, sha1_of, PackFileEntry};

verus! {

/// The zlib stream (default level) that compresses `data`.
pub uninterp spec fn zlib_of(data: Seq<u8>) -> Seq<u8>;

/// Relies on flate2::write::ZlibEncoder with Compression::default(): the
/// finished zlib stream of `data`. Writing into a `Vec` cannot fail, and the
/// miniz backend reports errors only on misuse of its stream, so the error
/// arms below are not taken.
#[verifier::external_body]
fn zlib_compress(data: &Vec<u8>) -> (r: Vec<u8>)
    ensures
        r@ == zlib_of(data@),
{
    let mut enc = flate2::write::ZlibEncoder::new(Vec::new(), flate2::Compression::default());
    match std::io::Write::write_all(&mut enc, data.as_slice()) {
        Ok(()) => enc.finish().unwrap_or_default(),
        Err(_) => Vec::new(),
    }
}

/// `n < 2^32` as four big-endian bytes.
pub open spec fn be32(n: nat) -> Seq<u8> {
    seq![
        ((n / 16777216) % 256) as u8,
        ((n / 65536) % 256) as u8,
        ((n / 256) % 256) as u8,
        (n % 256) as u8,
    ]
}

/// The continuation bytes of an object header: seven size bits each, least
/// significant group first, the top bit set on all but the last.
pub open spec fn size_varint(m: nat) -> Seq<u8>
    decreases m,
{
    if m == 0 {
        seq![]
    } else {
        seq![((if m >= 128 { 128nat } else { 0nat }) + m % 128) as u8] + size_varint(m / 128)
    }
}

/// An object header in a packfile: type `t` in bits 4..7 of the first byte,
/// the low four bits of the size `n` below it, the rest of `n` after it.
pub open spec fn size_header(t: nat, n: nat) -> Seq<u8> {
    seq![((if n >= 16 { 128nat } else { 0nat }) + t * 16 + n % 16) as u8] + size_varint(n / 16)
}

/// Packfile type of an object: commit 1, tree 2, blob 3.
pub open spec fn type_code(e: PackFileEntry) -> nat {
    match e {
        PackFileEntry::Commit(_) => 1,
        PackFileEntry::Tree(_) => 2,
        PackFileEntry::Blob(_) => 3,
    }
}

/// One object in a packfile: its header and then `z`, the compressed body.
pub open spec fn entry_bytes(e: PackFileEntry, z: Seq<u8>) -> Seq<u8> {
    size_header(type_code(e), body(e).len()) + z
}

/// The objects of a packfile, one after the other.
pub open spec fn pack_objects(es: Seq<PackFileEntry>) -> Seq<u8>
    decreases es.len(),
{
    if es.len() == 0 {
        seq![]
    } else {
        pack_objects(es.drop_last()) + entry_bytes(es.last(), zlib_of(body(es.last())))
    }
}

/// Everything in a packfile before its checksum: `PACK`, version 2, the
/// object count, the objects.
pub open spec fn pack_prefix(es: Seq<PackFileEntry>) -> Seq<u8> {
    seq![80u8, 65, 67, 75] + be32(2) + be32(es.len()) + pack_objects(es)
}

/// A whole packfile: the prefix and the SHA-1 of the prefix.
pub open spec fn pack_bytes(es: Seq<PackFileEntry>) -> Seq<u8> {
    pack_prefix(es) + sha1_of(pack_prefix(es))
}

fn push_be32(dst: &mut Vec<u8>, n: u32)
    ensures
        final(dst)@ == old(dst)@ + be32(n as nat),
{
    dst.push(((n / 16777216) % 256) as u8);
    dst.push(((n / 65536) % 256) as u8);
    dst.push(((n / 256) % 256) as u8);
    dst.push((n % 256) as u8);
    assert(final(dst)@ =~= old(dst)@ + be32(n as nat));
}

/// Appends the header of an object of type `t` whose body is `n` bytes long.
pub fn push_size_header(dst: &mut Vec<u8>, t: u8, n: usize)
    requires
        1 <= t <= 7,
    ensures
        final(dst)@ == old(dst)@ + size_header(t as nat, n as nat),
{
    let first: u8 = (if n >= 16 { 128u8 } else { 0u8 }) + t * 16 + (n % 16) as u8;
    dst.push(first);
    let ghost head = dst@;
    let mut m: usize = n / 16;
    while m > 0
        invariant
            dst@ + size_varint(m as nat) == head + size_varint(n as nat / 16),
        decreases m,
    {
        let ghost before = dst@;
        let b: u8 = (if m >= 128 { 128u8 } else { 0u8 }) + (m % 128) as u8;
        dst.push(b);
        assert(dst@ + size_varint(m as nat / 128) =~= before + size_varint(m as nat));
        m = m / 128;
    }
    assert(dst@ + size_varint(m as nat) =~= dst@);
    assert(final(dst)@ =~= old(dst)@ + size_header(t as nat, n as nat));
}

/// Appends one packfile object: the header for `e` and `compressed`, which
/// stands for its deflated body.
pub fn encode_entry(e: &PackFileEntry, compressed: &Vec<u8>, dst: &mut Vec<u8>)
    ensures
        final(dst)@ == old(dst)@ + entry_bytes(*e, compressed@),
{
    let b = e.body_bytes();
    let t: u8 = match e {
        PackFileEntry::Commit(_) => 1,
        PackFileEntry::Tree(_) => 2,
        PackFileEntry::Blob(_) => 3,
    };
    push_size_header(dst, t, b.len());
    append(dst, compressed.as_slice());
    assert(final(dst)@ =~= old(dst)@ + entry_bytes(*e, compressed@));
}

/// An ordered set of objects to be sent as a version 2 packfile, without
/// deltas.
pub struct PackFile {
    pub entries: Vec<PackFileEntry>,
}

impl PackFile {
    pub fn new(entries: Vec<PackFileEntry>) -> (r: PackFile)
        ensures
            r.entries@ == entries@,
    {
        PackFile { entries }
    }

    /// The packfile's bytes; `None` when there are `2^32` objects or more,
    /// which the count field cannot hold.
    pub fn encode(&self) -> (r: Option<Vec<u8>>)
        ensures
            r matches Some(v) ==> v@ == pack_bytes(self.entries@),
            self.entries@.len() >= 0x1_0000_0000 <==> r is None,
    {
        if self.entries.len() > 0xffff_ffff {
            return None;
        }
        let mut out: Vec<u8> = Vec::new();
        append(&mut out, &[80u8, 65, 67, 75]);
        push_be32(&mut out, 2);
        push_be32(&mut out, self.entries.len() as u32);
        let ghost head = out@;
        let mut i: usize = 0;
        assert(self.entries@.take(0) =~= Seq::<PackFileEntry>::empty());
        assert(out@ =~= head + pack_objects(self.entries@.take(0)));
        while i < self.entries.len()
            invariant
                i <= self.entries@.len(),
                out@ == head + pack_objects(self.entries@.take(i as int)),
            decreases self.entries@.len() - i,
        {
            let e = &self.entries[i];
            let b = e.body_bytes();
            let z = zlib_compress(&b);
            let ghost before = out@;
            encode_entry(e, &z, &mut out);
            assert(self.entries@.take(i + 1).drop_last() =~= self.entries@.take(i as int));
            i += 1;
            assert(out@ =~= before + entry_bytes(
                self.entries@[i - 1],
                zlib_of(body(self.entries@[i - 1])),
            ));
        }
        assert(self.entries@.take(i as int) =~= self.entries@);
        assert(out@ =~= pack_prefix(self.entries@));
        let checksum = sha1_digest(&out);
        append(&mut out, &checksum);
        Some(out)
    }
}

/// Reads the continuation bytes of an object header: the value and how
/// many bytes it took.
pub open spec fn read_varint(s: Seq<u8>) -> (nat, nat)
    decreases s.len(),
{
    if s.len() == 0 {
        (0, 0)
    } else if s[0] < 128 {
        (s[0] as nat, 1)
    } else {
        let (v, k) = read_varint(s.skip(1));
        ((s[0] - 128) as nat + 128 * v, k + 1)
    }
}

/// Reads an object header as a pack reader does: the type, the size, and
/// how many bytes the header took.
pub open spec fn read_size_header(s: Seq<u8>) -> (nat, nat, nat)
    recommends
        s.len() > 0,
{
    let b = s[0] as nat;
    if b < 128 {
        ((b / 16) % 8, b % 16, 1)
    } else {
        let (v, k) = read_varint(s.skip(1));
        ((b / 16) % 8, b % 16 + 16 * v, k + 1)
    }
}

proof fn lemma_varint_reads_back(m: nat, rest: Seq<u8>)
    requires
        m > 0,
    ensures
        read_varint(size_varint(m) + rest) == (m, size_varint(m).len()),
    decreases m,
{
    let s = size_varint(m) + rest;
    assert(m == (m % 128) + 128 * (m / 128)) by (nonlinear_arith)
        requires
            m > 0,
    ;
    if m >= 128 {
        lemma_varint_reads_back(m / 128, rest);
        assert(s.skip(1) =~= size_varint(m / 128) + rest);
    } else {
        assert(size_varint(0) =~= Seq::<u8>::empty());
    }
}

/// An object header reads back as the type and the size it was written
/// with, and the reader stops exactly at its end, where the compressed
/// body begins.
pub proof fn lemma_size_header_reads_back(t: nat, n: nat, rest: Seq<u8>)
    requires
        1 <= t <= 7,
    ensures
        read_size_header(size_header(t, n) + rest) == (t, n, size_header(t, n).len()),
{
    let s = size_header(t, n) + rest;
    let b: nat = (if n >= 16 { 128nat } else { 0nat }) + t * 16 + n % 16;
    assert(n == n % 16 + 16 * (n / 16)) by (nonlinear_arith);
    assert(b / 16 % 8 == t && b % 16 == n % 16 && (b < 128 <==> n < 16)) by (nonlinear_arith)
        requires
            b == (if n >= 16 { 128nat } else { 0nat }) + t * 16 + n % 16,
            1 <= t <= 7,
    ;
    assert(s[0] as nat == b);
    if n >= 16 {
        lemma_varint_reads_back(n / 16, rest);
        assert(s.skip(1) =~= size_varint(n / 16) + rest);
    } else {
        assert(size_varint(n / 16) =~= Seq::<u8>::empty());
    }
}

} // verus!
