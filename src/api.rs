use vstd::prelude::*;

verus! {

/// Warnings returned when a crate is published.
pub struct PublishCrateResponseWarnings {
    pub invalid_categories: Vec<String>,
    pub invalid_badges: Vec<String>,
    pub other: Vec<String>,
}

/// The body of a successful publish.
pub struct PublishCrateResponse {
    pub warnings: PublishCrateResponseWarnings,
}

impl Default for PublishCrateResponseWarnings {
    fn default() -> (r: Self)
        ensures
            r.invalid_categories@.len() == 0,
            r.invalid_badges@.len() == 0,
            r.other@.len() == 0,
    {
        PublishCrateResponseWarnings {
            invalid_categories: Vec::new(),
            invalid_badges: Vec::new(),
            other: Vec::new(),
        }
    }
}

impl Default for PublishCrateResponse {
    /// A publish with nothing to warn about.
    fn default() -> (r: Self)
        ensures
            r.warnings.invalid_categories@.len() == 0,
            r.warnings.invalid_badges@.len() == 0,
            r.warnings.other@.len() == 0,
    {
        PublishCrateResponse { warnings: PublishCrateResponseWarnings::default() }
    }
}

/// The body of an error answer of the registry's HTTP API.
pub struct ErrorResponse {
    pub error: Option<String>,
}

impl ErrorResponse {
    pub fn new(error: Option<String>) -> (r: ErrorResponse)
        ensures
            r.error == error,
    {
        ErrorResponse { error }
    }
}

/// `s[0..4]` read as a little-endian 32-bit number.
pub open spec fn le32(s: Seq<u8>) -> nat
    recommends
        s.len() >= 4,
{
    s[0] as nat + s[1] as nat * 256 + s[2] as nat * 65536 + s[3] as nat * 16777216
}

/// A publish request body: a 32-bit little-endian length, the metadata
/// JSON, another such length, the crate archive. Gives what follows, the
/// metadata and the archive; `None` where the body is too short.
pub open spec fn publish_body(b: Seq<u8>) -> Option<(Seq<u8>, Seq<u8>, Seq<u8>)> {
    if b.len() < 4 || b.len() - 4 < le32(b) {
        None
    } else {
        let m = le32(b) as int;
        let after = b.skip(4 + m);
        if after.len() < 4 || after.len() - 4 < le32(after) {
            None
        } else {
            let c = le32(after) as int;
            Some((after.skip(4 + c), b.subrange(4, 4 + m), after.subrange(4, 4 + c)))
        }
    }
}

fn read_le32(b: &[u8], at: usize) -> (r: u64)
    requires
        at + 4 <= b@.len(),
    ensures
        r == le32(b@.skip(at as int)),
{
    let r = b[at] as u64 + b[at + 1] as u64 * 256 + b[at + 2] as u64 * 65536 + b[at + 3] as u64
        * 16777216;
    assert(b@.skip(at as int)[0] == b@[at as int]);
    assert(b@.skip(at as int)[1] == b@[at + 1]);
    assert(b@.skip(at as int)[2] == b@[at + 2]);
    assert(b@.skip(at as int)[3] == b@[at + 3]);
    r
}

fn slice_range(b: &[u8], start: usize, end: usize) -> (r: Vec<u8>)
    requires
        start <= end <= b@.len(),
    ensures
        r@ == b@.subrange(start as int, end as int),
{
    let mut r: Vec<u8> = Vec::new();
    let mut i: usize = start;
    while i < end
        invariant
            start <= i <= end <= b@.len(),
            r@ == b@.subrange(start as int, i as int),
        decreases end - i,
    {
        r.push(b[i]);
        i += 1;
        assert(r@ =~= b@.subrange(start as int, i as int));
    }
    r
}

/// Splits a publish request body into what follows it, the metadata and the
/// crate archive; `None` where the lengths run past the end.
pub fn parse(body: &[u8]) -> (r: Option<(Vec<u8>, Vec<u8>, Vec<u8>)>)
    ensures
        match publish_body(body@) {
            None => r is None,
            Some((rest, meta, krate)) => r matches Some((a, b, c)) && a@ == rest && b@ == meta
                && c@ == krate,
        },
{
    let n = body.len();
    if n < 4 {
        return None;
    }
    assert(body@.skip(0) =~= body@);
    let m = read_le32(body, 0);
    if ((n - 4) as u64) < m {
        return None;
    }
    let m = m as usize;
    let at = 4 + m;
    let ghost after = body@.skip(at as int);
    if n - at < 4 {
        return None;
    }
    let c = read_le32(body, at);
    if ((n - at - 4) as u64) < c {
        return None;
    }
    let c = c as usize;
    let end = at + 4 + c;
    let meta = slice_range(body, 4, at);
    let krate = slice_range(body, at + 4, end);
    let rest = slice_range(body, end, n);
    assert(after.skip(4 + c as int) =~= body@.subrange(end as int, n as int));
    assert(after.subrange(4, 4 + c as int) =~= body@.subrange(at + 4, end as int));
    Some((rest, meta, krate))
}

} // verus!
