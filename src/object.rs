use vstd::prelude::*;

verus! {

/// The SHA-1 digest of `data`.
pub uninterp spec fn sha1_of(data: Seq<u8>) -> Seq<u8>;

/// Relies on sha1::Sha1::digest (through digest::Digest) for the 20-byte
/// SHA-1 digest of `data`.
#[verifier::external_body]
pub(crate) fn sha1_digest(data: &Vec<u8>) -> (r: [u8; 20])
    ensures
        r@ == sha1_of(data@),
{
    <sha1::Sha1 as sha1::Digest>::digest(data.as_slice()).into()
}

/// The lower-case hex form of `s`, two digits per byte.
pub open spec fn hex_lower(s: Seq<u8>) -> Seq<u8>
    decreases s.len(),
{
    if s.len() == 0 {
        seq![]
    } else {
        hex_lower(s.drop_last()) + seq![
            crate::pktline::hex_digit((s.last() / 16) as nat),
            crate::pktline::hex_digit((s.last() % 16) as nat),
        ]
    }
}

/// Relies on hex::encode: two lower-case hex digits for each byte, in order.
#[verifier::external_body]
pub(crate) fn hex_encode(data: &[u8]) -> (r: Vec<u8>)
    ensures
        r@ == hex_lower(data@),
{
    hex::encode(data).into_bytes()
}

/// The decimal digits of `n`, without leading zeros.
pub open spec fn decimal(n: nat) -> Seq<u8>
    decreases n,
{
    if n < 10 {
        seq![(48 + n) as u8]
    } else {
        decimal(n / 10) + seq![(48 + n % 10) as u8]
    }
}

/// Appends `src` to `dst`.
pub fn append(dst: &mut Vec<u8>, src: &[u8])
    ensures
        final(dst)@ == old(dst)@ + src@,
{
    dst.extend_from_slice(src);
    assert(final(dst)@ =~= old(dst)@ + src@);
}

/// Appends the decimal digits of `n`.
pub fn push_decimal(dst: &mut Vec<u8>, n: u64)
    ensures
        final(dst)@ == old(dst)@ + decimal(n as nat),
    decreases n,
{
    if n >= 10 {
        push_decimal(dst, n / 10);
    }
    dst.push(48 + (n % 10) as u8);
    assert(final(dst)@ =~= old(dst)@ + decimal(n as nat));
}

/// What a tree entry points at.
#[derive(Debug, Clone, Copy, PartialEq, Eq, Structural)]
pub enum TreeItemKind {
    File,
    Directory,
}

/// One entry of a tree: a name and the hash of the object it names.
pub struct TreeItem {
    pub kind: TreeItemKind,
    pub name: Vec<u8>,
    pub hash: [u8; 20],
}

/// Author or committer of a commit; `time` is in seconds since the Unix
/// epoch, in UTC.
pub struct CommitUserInfo {
    pub name: Vec<u8>,
    pub email: Vec<u8>,
    pub time: u64,
}

/// A root commit: it has no parents.
pub struct Commit {
    pub tree: [u8; 20],
    pub author: CommitUserInfo,
    pub committer: CommitUserInfo,
    pub message: Vec<u8>,
}

/// A Git object, as it goes into a packfile.
pub enum PackFileEntry {
    Blob(Vec<u8>),
    Tree(Vec<TreeItem>),
    Commit(Commit),
}

/// The mode field of a tree entry, with its following space.
pub open spec fn mode_bytes(kind: TreeItemKind) -> Seq<u8> {
    match kind {
        // "100644 "
        TreeItemKind::File => seq![49u8, 48, 48, 54, 52, 52, 32],
        // "40000 "
        TreeItemKind::Directory => seq![52u8, 48, 48, 48, 48, 32],
    }
}

/// `<mode> <name>\0<hash>`
pub open spec fn item_bytes(i: TreeItem) -> Seq<u8> {
    mode_bytes(i.kind) + i.name@ + seq![0u8] + i.hash@
}

/// The body of a tree: its entries, in the order given.
pub open spec fn tree_body(items: Seq<TreeItem>) -> Seq<u8>
    decreases items.len(),
{
    if items.len() == 0 {
        seq![]
    } else {
        tree_body(items.drop_last()) + item_bytes(items.last())
    }
}

/// `<name> <<email>> <seconds> +0000`
pub open spec fn user_bytes(u: CommitUserInfo) -> Seq<u8> {
    u.name@ + seq![32u8, 60] + u.email@ + seq![62u8, 32] + decimal(u.time as nat) + seq![
        32u8,
        43,
        48,
        48,
        48,
        48,
    ]
}

/// `tree <hex>\nauthor <user>\ncommitter <user>\n\n<message>\n`
pub open spec fn commit_body(c: Commit) -> Seq<u8> {
    seq![116u8, 114, 101, 101, 32] + hex_lower(c.tree@) + seq![10u8] + seq![
        97u8,
        117,
        116,
        104,
        111,
        114,
        32,
    ] + user_bytes(c.author) + seq![10u8] + seq![99u8, 111, 109, 109, 105, 116, 116, 101, 114, 32]
        + user_bytes(c.committer) + seq![10u8, 10] + c.message@ + seq![10u8]
}

/// The canonical body of an object.
pub open spec fn body(e: PackFileEntry) -> Seq<u8> {
    match e {
        PackFileEntry::Blob(b) => b@,
        PackFileEntry::Tree(items) => tree_body(items@),
        PackFileEntry::Commit(c) => commit_body(c),
    }
}

/// `blob`, `tree` or `commit`.
pub open spec fn kind_name(e: PackFileEntry) -> Seq<u8> {
    match e {
        PackFileEntry::Blob(_) => seq![98u8, 108, 111, 98],
        PackFileEntry::Tree(_) => seq![116u8, 114, 101, 101],
        PackFileEntry::Commit(_) => seq![99u8, 111, 109, 109, 105, 116],
    }
}

/// What Git hashes for an object: `<type> <len>\0<body>`.
pub open spec fn object_bytes(e: PackFileEntry) -> Seq<u8> {
    kind_name(e) + seq![32u8] + decimal(body(e).len()) + seq![0u8] + body(e)
}

/// The object id of a blob holding `b`.
pub open spec fn blob_id(b: Seq<u8>) -> Seq<u8> {
    sha1_of(seq![98u8, 108, 111, 98] + seq![32u8] + decimal(b.len()) + seq![0u8] + b)
}

/// The object id of an object.
pub open spec fn object_id(e: PackFileEntry) -> Seq<u8> {
    sha1_of(object_bytes(e))
}

fn push_user(dst: &mut Vec<u8>, u: &CommitUserInfo)
    ensures
        final(dst)@ == old(dst)@ + user_bytes(*u),
{
    append(dst, u.name.as_slice());
    append(dst, &[32u8, 60]);
    append(dst, u.email.as_slice());
    append(dst, &[62u8, 32]);
    push_decimal(dst, u.time);
    append(dst, &[32u8, 43, 48, 48, 48, 48]);
    assert(final(dst)@ =~= old(dst)@ + user_bytes(*u));
}

impl PackFileEntry {
    /// Appends the canonical body of the object to `dst`.
    pub fn encode_body(&self, dst: &mut Vec<u8>)
        ensures
            final(dst)@ == old(dst)@ + body(*self),
    {
        match self {
            PackFileEntry::Blob(b) => {
                append(dst, b.as_slice());
            },
            PackFileEntry::Tree(items) => {
                let mut i: usize = 0;
                assert(items@.take(0) =~= Seq::<TreeItem>::empty());
                assert(dst@ =~= old(dst)@ + tree_body(items@.take(0)));
                while i < items.len()
                    invariant
                        i <= items@.len(),
                        dst@ == old(dst)@ + tree_body(items@.take(i as int)),
                    decreases items@.len() - i,
                {
                    let item = &items[i];
                    let ghost before = dst@;
                    match item.kind {
                        TreeItemKind::File => append(dst, &[49u8, 48, 48, 54, 52, 52, 32]),
                        TreeItemKind::Directory => append(dst, &[52u8, 48, 48, 48, 48, 32]),
                    }
                    append(dst, item.name.as_slice());
                    dst.push(0);
                    append(dst, &item.hash);
                    assert(items@.take(i + 1).drop_last() =~= items@.take(i as int));
                    i += 1;
                    assert(dst@ =~= before + item_bytes(items@[i - 1]));
                }
                assert(items@.take(i as int) =~= items@);
            },
            PackFileEntry::Commit(c) => {
                let ghost start = dst@;
                append(dst, &[116u8, 114, 101, 101, 32]);
                let tree_hex = hex_encode(&c.tree);
                append(dst, tree_hex.as_slice());
                dst.push(10);
                append(dst, &[97u8, 117, 116, 104, 111, 114, 32]);
                push_user(dst, &c.author);
                dst.push(10);
                append(dst, &[99u8, 111, 109, 109, 105, 116, 116, 101, 114, 32]);
                push_user(dst, &c.committer);
                dst.push(10);
                dst.push(10);
                append(dst, c.message.as_slice());
                dst.push(10);
                assert(dst@ =~= start + commit_body(*c));
            },
        }
    }

    /// The canonical body of the object.
    pub fn body_bytes(&self) -> (r: Vec<u8>)
        ensures
            r@ == body(*self),
    {
        let mut r: Vec<u8> = Vec::new();
        self.encode_body(&mut r);
        assert(r@ =~= body(*self));
        r
    }

    /// The object's id: the SHA-1 of `<type> <len>\0<body>`.
    pub fn hash(&self) -> (r: [u8; 20])
        ensures
            r@ == object_id(*self),
    {
        let b = self.body_bytes();
        let mut data: Vec<u8> = Vec::new();
        match self {
            PackFileEntry::Blob(_) => append(&mut data, &[98u8, 108, 111, 98]),
            PackFileEntry::Tree(_) => append(&mut data, &[116u8, 114, 101, 101]),
            PackFileEntry::Commit(_) => append(&mut data, &[99u8, 111, 109, 109, 105, 116]),
        }
        data.push(32);
        push_decimal(&mut data, b.len() as u64);
        data.push(0);
        append(&mut data, b.as_slice());
        assert(data@ =~= object_bytes(*self));
        sha1_digest(&data)
    }
}

} // verus!
