use vstd::prelude::*;
use crate::object::{blob_id, object_id, Commit, CommitUserInfo, PackFileEntry, TreeItem, TreeItemKind};
use crate::pktline::copy_range;

verus! {

/// Strict lexicographic order on byte strings; a proper prefix comes first.
pub open spec fn lex_lt(a: Seq<u8>, b: Seq<u8>) -> bool
    decreases a.len(),
{
    if a.len() == 0 {
        b.len() > 0
    } else if b.len() == 0 {
        false
    } else if a[0] != b[0] {
        a[0] < b[0]
    } else {
        lex_lt(a.skip(1), b.skip(1))
    }
}

pub proof fn lemma_lex_irreflexive(a: Seq<u8>)
    ensures
        !lex_lt(a, a),
    decreases a.len(),
{
    if a.len() > 0 {
        lemma_lex_irreflexive(a.skip(1));
    }
}

pub proof fn lemma_lex_transitive(a: Seq<u8>, b: Seq<u8>, c: Seq<u8>)
    requires
        lex_lt(a, b),
        lex_lt(b, c),
    ensures
        lex_lt(a, c),
    decreases a.len(),
{
    if a.len() > 0 && b.len() > 0 && c.len() > 0 && a[0] == b[0] && b[0] == c[0] {
        lemma_lex_transitive(a.skip(1), b.skip(1), c.skip(1));
    }
}

pub proof fn lemma_lex_total(a: Seq<u8>, b: Seq<u8>)
    ensures
        lex_lt(a, b) || lex_lt(b, a) || a == b,
    decreases a.len(),
{
    if a.len() > 0 && b.len() > 0 && a[0] == b[0] {
        lemma_lex_total(a.skip(1), b.skip(1));
        if a.skip(1) == b.skip(1) {
            assert(a =~= seq![a[0]] + a.skip(1));
            assert(b =~= seq![b[0]] + b.skip(1));
        }
    } else if a.len() == 0 && b.len() == 0 {
        assert(a =~= b);
    }
}

/// Cutting two ordered strings at the same length keeps them in order, or
/// makes them equal.
pub proof fn lemma_lex_take(a: Seq<u8>, b: Seq<u8>, k: int)
    requires
        lex_lt(a, b),
        0 <= k <= a.len(),
        k <= b.len(),
    ensures
        a.take(k) == b.take(k) || lex_lt(a.take(k), b.take(k)),
    decreases k,
{
    if k > 0 && a[0] == b[0] {
        lemma_lex_take(a.skip(1), b.skip(1), k - 1);
        assert(a.take(k).skip(1) =~= a.skip(1).take(k - 1));
        assert(b.take(k).skip(1) =~= b.skip(1).take(k - 1));
        assert(a.take(k)[0] == a[0] && b.take(k)[0] == b[0]);
        if a.skip(1).take(k - 1) == b.skip(1).take(k - 1) {
            assert(a.take(k) =~= seq![a[0]] + a.skip(1).take(k - 1));
            assert(b.take(k) =~= seq![b[0]] + b.skip(1).take(k - 1));
        }
    } else if k > 0 {
        assert(a.take(k)[0] == a[0] && b.take(k)[0] == b[0]);
    }
}

/// The top-level directory of a crate's file: its first two bytes.
pub open spec fn first2(n: Seq<u8>) -> Seq<u8> {
    n.take(2)
}

/// The second-level directory of a crate's file: its third and fourth bytes.
pub open spec fn second2(n: Seq<u8>) -> Seq<u8> {
    n.subrange(2, 4)
}

proof fn lemma_second2_order(a: Seq<u8>, b: Seq<u8>)
    requires
        lex_lt(a, b),
        a.len() >= 4,
        b.len() >= 4,
        first2(a) == first2(b),
    ensures
        second2(a) == second2(b) || lex_lt(second2(a), second2(b)),
{
    assert(a[0] == first2(a)[0] && a[1] == first2(a)[1]);
    assert(b[0] == first2(b)[0] && b[1] == first2(b)[1]);
    assert(lex_lt(a.skip(1), b.skip(1)));
    assert(a.skip(1)[0] == a[1] && b.skip(1)[0] == b[1]);
    assert(a.skip(1).skip(1) =~= a.skip(2));
    assert(b.skip(1).skip(1) =~= b.skip(2));
    assert(lex_lt(a.skip(2), b.skip(2)));
    lemma_lex_take(a.skip(2), b.skip(2), 2);
    assert(a.skip(2).take(2) =~= second2(a));
    assert(b.skip(2).take(2) =~= second2(b));
}

/// A crate name that has a place in the index: at least four bytes, all
/// ASCII (so its directory names, cut at bytes 2 and 4, are UTF-8), none of
/// them `/` or NUL, which a tree entry's name cannot hold.
pub open spec fn indexable_name(n: Seq<u8>) -> bool {
    n.len() >= 4 && forall|i: int| 0 <= i < n.len() ==> n[i] != 47u8 && n[i] != 0u8 && n[i] < 128u8
}

/// A crate's file in the index: its name and its contents, one JSON line per
/// version.
pub struct CrateFile {
    pub name: Vec<u8>,
    pub file: Vec<u8>,
}

/// The crates of a registry that go into the index, ordered by name.
pub struct IndexTree {
    crates: Vec<CrateFile>,
}

/// Names strictly increasing, so no name twice.
pub open spec fn crates_sorted(cs: Seq<CrateFile>) -> bool {
    forall|i: int, j: int| 0 <= i < j < cs.len() ==> lex_lt(#[trigger] cs[i].name@, #[trigger] cs[j].name@)
}

/// Compares two byte strings: negative, zero or positive as `a` comes
/// before, equals or comes after `b`.
pub fn compare_bytes(a: &[u8], b: &[u8]) -> (r: i8)
    ensures
        r < 0 <==> lex_lt(a@, b@),
        r == 0 <==> a@ == b@,
        r > 0 <==> lex_lt(b@, a@),
{
    proof {
        lemma_lex_irreflexive(a@);
        lemma_lex_total(a@, b@);
        if lex_lt(a@, b@) && lex_lt(b@, a@) {
            lemma_lex_transitive(a@, b@, a@);
        }
    }
    let mut i: usize = 0;
    assert(a@.skip(0) =~= a@ && b@.skip(0) =~= b@);
    assert(a@.take(0) =~= b@.take(0));
    while i < a.len() && i < b.len()
        invariant
            i <= a@.len(),
            i <= b@.len(),
            a@.take(i as int) == b@.take(i as int),
            lex_lt(a@, b@) == lex_lt(a@.skip(i as int), b@.skip(i as int)),
            lex_lt(b@, a@) == lex_lt(b@.skip(i as int), a@.skip(i as int)),
        decreases a@.len() - i,
    {
        if a[i] != b[i] {
            return if a[i] < b[i] {
                -1
            } else {
                1
            };
        }
        assert(a@.skip(i as int).skip(1) =~= a@.skip(i + 1));
        assert(b@.skip(i as int).skip(1) =~= b@.skip(i + 1));
        assert(a@.take(i + 1) =~= a@.take(i as int).push(a@[i as int]));
        assert(b@.take(i + 1) =~= b@.take(i as int).push(b@[i as int]));
        i += 1;
    }
    if a.len() < b.len() {
        -1
    } else if b.len() < a.len() {
        1
    } else {
        assert(a@ =~= a@.take(i as int));
        assert(b@ =~= b@.take(i as int));
        0
    }
}

impl IndexTree {
    /// The crates, in order.
    pub closed spec fn crates(&self) -> Seq<CrateFile> {
        self.crates@
    }

    /// Sorted by name, and every name indexable.
    pub open spec fn wf(&self) -> bool {
        &&& crates_sorted(self.crates())
        &&& forall|i: int|
            0 <= i < self.crates().len() ==> indexable_name(#[trigger] self.crates()[i].name@)
    }

    /// The number of crates.
    pub fn len(&self) -> (r: usize)
        ensures
            r == self.crates().len(),
    {
        self.crates.len()
    }

    pub fn new() -> (r: IndexTree)
        ensures
            r.wf(),
            r.crates().len() == 0,
    {
        IndexTree { crates: Vec::new() }
    }

    /// Adds a crate's file, in its place by name; a crate of the same name is
    /// replaced. A name that is not indexable is left out, deterministically:
    /// the result says whether the crate was taken.
    pub fn insert(&mut self, name: Vec<u8>, file: Vec<u8>) -> (r: bool)
        requires
            old(self).wf(),
        ensures
            final(self).wf(),
            r == indexable_name(name@),
            !r ==> final(self).crates() == old(self).crates(),
            r ==> exists|pos: int|
                0 <= pos <= old(self).crates().len() && {
                    ||| final(self).crates() == old(self).crates().insert(pos, (CrateFile { name, file }))
                    ||| pos < old(self).crates().len() && old(self).crates()[pos].name@ == name@
                        && final(self).crates() == old(self).crates().update(pos, (CrateFile { name, file }))
                },
    {
        if name.len() < 4 {
            return false;
        }
        let mut k: usize = 0;
        while k < name.len()
            invariant
                k <= name@.len(),
                *self == *old(self),
                old(self).wf(),
                forall|i: int| 0 <= i < k ==> name@[i] != 47u8 && name@[i] != 0u8 && name@[i] < 128u8,
            decreases name@.len() - k,
        {
            if name[k] == 47 || name[k] == 0 || name[k] >= 128 {
                return false;
            }
            k += 1;
        }
        let ghost old_crates = self.crates@;
        let mut pos: usize = 0;
        while pos < self.crates.len()
            invariant
                pos <= self.crates@.len(),
                self.crates@ == old_crates,
                forall|i: int| 0 <= i < pos ==> lex_lt(#[trigger] self.crates@[i].name@, name@),
            ensures
                pos <= self.crates@.len(),
                self.crates@ == old_crates,
                forall|i: int| 0 <= i < pos ==> lex_lt(#[trigger] self.crates@[i].name@, name@),
                pos < self.crates@.len() ==> !lex_lt(self.crates@[pos as int].name@, name@),
            decreases self.crates@.len() - pos,
        {
            let c = compare_bytes(self.crates[pos].name.as_slice(), name.as_slice());
            if c >= 0 {
                break;
            }
            pos += 1;
        }
        let ghost new_item = CrateFile { name, file };
        if pos < self.crates.len() && compare_bytes(self.crates[pos].name.as_slice(), name.as_slice())
            == 0 {
            self.crates.set(pos, CrateFile { name, file });
            assert(self.crates@ == old_crates.update(pos as int, new_item));
        } else {
            proof {
                if pos < old_crates.len() {
                    assert(lex_lt(name@, old_crates[pos as int].name@));
                    assert forall|j: int| pos < j < old_crates.len() implies lex_lt(
                        name@,
                        #[trigger] old_crates[j].name@,
                    ) by {
                        assert(lex_lt(old_crates[pos as int].name@, old_crates[j].name@));
                        lemma_lex_transitive(name@, old_crates[pos as int].name@, old_crates[j].name@);
                    }
                }
            }
            self.crates.insert(pos, CrateFile { name, file });
            assert(self.crates@ == old_crates.insert(pos as int, new_item));
        }
        true
    }
}

/// The entries of a tree object; nothing for other objects.
pub open spec fn tree_items(e: PackFileEntry) -> Seq<TreeItem> {
    match e {
        PackFileEntry::Tree(items) => items@,
        _ => seq![],
    }
}

/// Names strictly increasing: sorting the entries again changes nothing, and
/// no name occurs twice. Git orders a directory as if its name ended in `/`;
/// in the index's trees that order is the same as this one, since a tree
/// holds either files only, or directories of two bytes and at most
/// `config.json`, which no two-byte name is a proper prefix of but `co`, and
/// `co/` sorts before `config.json` too.
pub open spec fn items_sorted(items: Seq<TreeItem>) -> bool {
    forall|i: int, j: int|
        0 <= i < j < items.len() ==> lex_lt(#[trigger] items[i].name@, #[trigger] items[j].name@)
}

/// Some object among the first `k` of `es` has the id `h`.
#[verifier::opaque]
pub open spec fn present_before(es: Seq<PackFileEntry>, k: int, h: Seq<u8>) -> bool {
    exists|j: int| 0 <= j < k && object_id(#[trigger] es[j]) == h
}

/// Some tree in `es` lists a file called `name` whose object id is `h`.
#[verifier::opaque]
pub open spec fn listed(es: Seq<PackFileEntry>, name: Seq<u8>, h: Seq<u8>) -> bool {
    exists|k: int, m: int|
        0 <= k < es.len() && 0 <= m < tree_items(es[k]).len() && #[trigger] tree_items(
            es[k],
        )[m].name@ == name && tree_items(es[k])[m].hash@ == h && tree_items(es[k])[m].kind
            == TreeItemKind::File
}

proof fn lemma_listed_push(es: Seq<PackFileEntry>, e: PackFileEntry)
    ensures
        forall|name: Seq<u8>, h: Seq<u8>|
            #[trigger] listed(es, name, h) ==> listed(es.push(e), name, h),
{
    reveal(listed);
    assert forall|name: Seq<u8>, h: Seq<u8>| #[trigger] listed(es, name, h) implies listed(
        es.push(e),
        name,
        h,
    ) by {
        let (k, m) = choose|k: int, m: int|
            0 <= k < es.len() && 0 <= m < tree_items(es[k]).len() && #[trigger] tree_items(
                es[k],
            )[m].name@ == name && tree_items(es[k])[m].hash@ == h && tree_items(es[k])[m].kind
                == TreeItemKind::File;
        assert(es.push(e)[k] == es[k]);
    }
}

/// Tree `k` of `es` lists a file called `name` whose object id is `h`.
#[verifier::opaque]
pub open spec fn tree_lists(es: Seq<PackFileEntry>, k: int, name: Seq<u8>, h: Seq<u8>) -> bool {
    &&& 0 <= k < es.len()
    &&& exists|m: int|
        0 <= m < tree_items(es[k]).len() && #[trigger] tree_items(es[k])[m].name@ == name
            && tree_items(es[k])[m].hash@ == h && tree_items(es[k])[m].kind == TreeItemKind::File
}

/// The entry `item` names a tree of `es` listing the file `name` with id `h`.
#[verifier::opaque]
pub open spec fn leads_to(es: Seq<PackFileEntry>, item: TreeItem, name: Seq<u8>, h: Seq<u8>) -> bool {
    exists|k: int| #[trigger] tree_lists(es, k, name, h) && item.hash@ == object_id(es[k])
}

/// The entry of `items` called `dir` leads to a tree listing `name` with id `h`.
#[verifier::opaque]
pub open spec fn dir_leads(
    es: Seq<PackFileEntry>,
    items: Seq<TreeItem>,
    dir: Seq<u8>,
    name: Seq<u8>,
    h: Seq<u8>,
) -> bool {
    exists|m: int|
        0 <= m < items.len() && #[trigger] items[m].name@ == dir && leads_to(es, items[m], name, h)
}

/// From the entries `root`, the path `<name[0..2]>/<name[2..4]>/<name>`
/// reaches a file whose object id is `h`.
#[verifier::opaque]
pub open spec fn resolves(es: Seq<PackFileEntry>, root: Seq<TreeItem>, name: Seq<u8>, h: Seq<u8>) -> bool {
    exists|r: int, k: int|
        0 <= r < root.len() && 0 <= k < es.len() && #[trigger] root[r].name@ == first2(name)
            && root[r].hash@ == object_id(#[trigger] es[k]) && dir_leads(
            es,
            tree_items(es[k]),
            second2(name),
            name,
            h,
        )
}

proof fn lemma_paths_grow(es: Seq<PackFileEntry>, e: PackFileEntry)
    ensures
        forall|k: int, name: Seq<u8>, h: Seq<u8>|
            #[trigger] tree_lists(es, k, name, h) ==> tree_lists(es.push(e), k, name, h),
        forall|item: TreeItem, name: Seq<u8>, h: Seq<u8>|
            #[trigger] leads_to(es, item, name, h) ==> leads_to(es.push(e), item, name, h),
        forall|items: Seq<TreeItem>, dir: Seq<u8>, name: Seq<u8>, h: Seq<u8>|
            #[trigger] dir_leads(es, items, dir, name, h) ==> dir_leads(es.push(e), items, dir, name, h),
        forall|root: Seq<TreeItem>, name: Seq<u8>, h: Seq<u8>|
            #[trigger] resolves(es, root, name, h) ==> resolves(es.push(e), root, name, h),
{
    reveal(tree_lists);
    reveal(leads_to);
    reveal(dir_leads);
    reveal(resolves);
    let es2 = es.push(e);
    assert forall|k: int, name: Seq<u8>, h: Seq<u8>|
        #[trigger] tree_lists(es, k, name, h) implies tree_lists(es2, k, name, h) by {
        assert(es2[k] == es[k]);
    }
    assert forall|item: TreeItem, name: Seq<u8>, h: Seq<u8>|
        #[trigger] leads_to(es, item, name, h) implies leads_to(es2, item, name, h) by {
        let k = choose|k: int| #[trigger] tree_lists(es, k, name, h) && item.hash@ == object_id(es[k]);
        assert(es2[k] == es[k]);
        assert(tree_lists(es2, k, name, h));
    }
    assert forall|items: Seq<TreeItem>, dir: Seq<u8>, name: Seq<u8>, h: Seq<u8>|
        #[trigger] dir_leads(es, items, dir, name, h) implies dir_leads(es2, items, dir, name, h) by {
        let m = choose|m: int|
            0 <= m < items.len() && #[trigger] items[m].name@ == dir && leads_to(es, items[m], name, h);
        assert(leads_to(es2, items[m], name, h));
    }
    assert forall|root: Seq<TreeItem>, name: Seq<u8>, h: Seq<u8>|
        #[trigger] resolves(es, root, name, h) implies resolves(es2, root, name, h) by {
        let (r, k) = choose|r: int, k: int|
            0 <= r < root.len() && 0 <= k < es.len() && #[trigger] root[r].name@ == first2(name)
                && root[r].hash@ == object_id(#[trigger] es[k]) && dir_leads(
                es,
                tree_items(es[k]),
                second2(name),
                name,
                h,
            );
        assert(es2[k] == es[k]);
        assert(dir_leads(es2, tree_items(es2[k]), second2(name), name, h));
    }
}

proof fn lemma_entries_grow(es: Seq<PackFileEntry>, items: Seq<TreeItem>, x: TreeItem)
    ensures
        forall|dir: Seq<u8>, name: Seq<u8>, h: Seq<u8>|
            #[trigger] dir_leads(es, items, dir, name, h) ==> dir_leads(es, items.push(x), dir, name, h),
        forall|name: Seq<u8>, h: Seq<u8>|
            #[trigger] resolves(es, items, name, h) ==> resolves(es, items.push(x), name, h),
{
    reveal(dir_leads);
    reveal(resolves);
    let items2 = items.push(x);
    assert forall|dir: Seq<u8>, name: Seq<u8>, h: Seq<u8>|
        #[trigger] dir_leads(es, items, dir, name, h) implies dir_leads(es, items2, dir, name, h) by {
        let m = choose|m: int|
            0 <= m < items.len() && #[trigger] items[m].name@ == dir && leads_to(es, items[m], name, h);
        assert(items2[m] == items[m]);
    }
    assert forall|name: Seq<u8>, h: Seq<u8>|
        #[trigger] resolves(es, items, name, h) implies resolves(es, items2, name, h) by {
        let (r, k) = choose|r: int, k: int|
            0 <= r < items.len() && 0 <= k < es.len() && #[trigger] items[r].name@ == first2(name)
                && items[r].hash@ == object_id(#[trigger] es[k]) && dir_leads(
                es,
                tree_items(es[k]),
                second2(name),
                name,
                h,
            );
        assert(items2[r] == items[r]);
    }
}

/// A directory entry just added for the tree `es[k]` leads, for each file
/// that tree lists, to that file.
proof fn lemma_dir_added(
    es: Seq<PackFileEntry>,
    k: int,
    items: Seq<TreeItem>,
    m: int,
    parent: Seq<TreeItem>,
)
    requires
        0 <= k < es.len(),
        tree_items(es[k]) == items,
        0 <= m < items.len(),
        items[m].kind == TreeItemKind::File,
        parent.len() > 0,
        parent.last().hash@ == object_id(es[k]),
    ensures
        dir_leads(es, parent, parent.last().name@, items[m].name@, items[m].hash@),
{
    reveal(tree_lists);
    reveal(leads_to);
    reveal(dir_leads);
    assert(tree_items(es[k])[m].name@ == items[m].name@);
    assert(tree_lists(es, k, items[m].name@, items[m].hash@));
    assert(leads_to(es, parent[parent.len() - 1], items[m].name@, items[m].hash@));
}

proof fn lemma_resolves_insert(es: Seq<PackFileEntry>, items: Seq<TreeItem>, pos: int, x: TreeItem)
    requires
        0 <= pos <= items.len(),
    ensures
        forall|name: Seq<u8>, h: Seq<u8>|
            #[trigger] resolves(es, items, name, h) ==> resolves(es, items.insert(pos, x), name, h),
{
    reveal(resolves);
    let items2 = items.insert(pos, x);
    assert forall|name: Seq<u8>, h: Seq<u8>|
        #[trigger] resolves(es, items, name, h) implies resolves(es, items2, name, h) by {
        let (r, k) = choose|r: int, k: int|
            0 <= r < items.len() && 0 <= k < es.len() && #[trigger] items[r].name@ == first2(name)
                && items[r].hash@ == object_id(#[trigger] es[k]) && dir_leads(
                es,
                tree_items(es[k]),
                second2(name),
                name,
                h,
            );
        if r < pos {
            assert(items2[r] == items[r]);
        } else {
            assert(items2[r + 1] == items[r]);
        }
    }
}

/// A root entry just added for the tree `es[k]` makes every path that tree
/// leads to resolve.
proof fn lemma_root_added(
    es: Seq<PackFileEntry>,
    k: int,
    root: Seq<TreeItem>,
    name: Seq<u8>,
    h: Seq<u8>,
)
    requires
        0 <= k < es.len(),
        root.len() > 0,
        root.last().hash@ == object_id(es[k]),
        root.last().name@ == first2(name),
        dir_leads(es, tree_items(es[k]), second2(name), name, h),
    ensures
        resolves(es, root, name, h),
{
    reveal(resolves);
    assert(root[root.len() - 1].name@ == first2(name));
}

/// Every tree in `es` is sorted.
#[verifier::opaque]
pub open spec fn entries_sorted(es: Seq<PackFileEntry>) -> bool {
    forall|k: int| 0 <= k < es.len() ==> items_sorted(tree_items(#[trigger] es[k]))
}

/// Every object a tree in `es` names comes before that tree.
#[verifier::opaque]
pub open spec fn entries_closed(es: Seq<PackFileEntry>) -> bool {
    forall|k: int, m: int|
        0 <= k < es.len() && 0 <= m < tree_items(es[k]).len() ==> present_before(
            es,
            k,
            #[trigger] tree_items(#[trigger] es[k])[m].hash@,
        )
}

proof fn lemma_present_push(es: Seq<PackFileEntry>, e: PackFileEntry)
    ensures
        forall|k: int, h: Seq<u8>|
            0 <= k <= es.len() && #[trigger] present_before(es, k, h) ==> present_before(
                es.push(e),
                k,
                h,
            ),
{
    reveal(present_before);
    assert forall|k: int, h: Seq<u8>|
        0 <= k <= es.len() && #[trigger] present_before(es, k, h) implies present_before(
        es.push(e),
        k,
        h,
    ) by {
        let j = choose|j: int| 0 <= j < k && object_id(#[trigger] es[j]) == h;
        assert(es.push(e)[j] == es[j]);
    }
}

/// Appends `e`, which refers only to objects already in `es`, and gives
/// its id.
fn push_entry(es: &mut Vec<PackFileEntry>, e: PackFileEntry) -> (h: [u8; 20])
    requires
        entries_sorted(old(es)@),
        entries_closed(old(es)@),
        items_sorted(tree_items(e)),
        forall|m: int|
            0 <= m < tree_items(e).len() ==> present_before(
                old(es)@,
                old(es)@.len() as int,
                #[trigger] tree_items(e)[m].hash@,
            ),
    ensures
        final(es)@ == old(es)@.push(e),
        h@ == object_id(e),
        entries_sorted(final(es)@),
        entries_closed(final(es)@),
        present_before(final(es)@, final(es)@.len() as int, h@),
        forall|g: Seq<u8>|
            #[trigger] present_before(old(es)@, old(es)@.len() as int, g) ==> present_before(
                final(es)@,
                final(es)@.len() as int,
                g,
            ),
        forall|k: int, g: Seq<u8>|
            0 <= k <= old(es)@.len() && #[trigger] present_before(old(es)@, k, g)
                ==> present_before(final(es)@, k, g),
        forall|name: Seq<u8>, g: Seq<u8>|
            #[trigger] listed(old(es)@, name, g) ==> listed(final(es)@, name, g),
        forall|items: Seq<TreeItem>, dir: Seq<u8>, name: Seq<u8>, g: Seq<u8>|
            #[trigger] dir_leads(old(es)@, items, dir, name, g) ==> dir_leads(
                final(es)@,
                items,
                dir,
                name,
                g,
            ),
        forall|root: Seq<TreeItem>, name: Seq<u8>, g: Seq<u8>|
            #[trigger] resolves(old(es)@, root, name, g) ==> resolves(final(es)@, root, name, g),
{
    proof {
        lemma_listed_push(old(es)@, e);
        lemma_paths_grow(old(es)@, e);
    }
    let h = e.hash();
    let ghost e0 = e;
    es.push(e);
    proof {
        reveal(present_before);
        reveal(entries_sorted);
        reveal(entries_closed);
        let n = old(es)@.len() as int;
        lemma_present_push(old(es)@, e0);
        assert(es@[n] == e0);
        assert forall|k: int, m: int|
            0 <= k < es@.len() && 0 <= m < tree_items(es@[k]).len() implies present_before(
            es@,
            k,
            #[trigger] tree_items(#[trigger] es@[k])[m].hash@,
        ) by {
            if k < n {
                assert(es@[k] == old(es)@[k]);
                assert(present_before(old(es)@, k, tree_items(old(es)@[k])[m].hash@));
            } else {
                assert(present_before(old(es)@, n, tree_items(e0)[m].hash@));
            }
        }
        assert forall|k: int| 0 <= k < es@.len() implies items_sorted(
            tree_items(#[trigger] es@[k]),
        ) by {
            if k < n {
                assert(es@[k] == old(es)@[k]);
            }
        }
        assert(object_id(es@[n]) == h@);
        assert forall|g: Seq<u8>| #[trigger] present_before(old(es)@, n, g) implies present_before(
            es@,
            n + 1,
            g,
        ) by {
            let j = choose|j: int| 0 <= j < n && object_id(#[trigger] old(es)@[j]) == g;
            assert(es@[j] == old(es)@[j]);
        }
    }
    h
}

/// Adds the tree of `items` to `es` and an entry for it, called `name`, to
/// `parent`, which must sort before it.
fn close_dir(
    es: &mut Vec<PackFileEntry>,
    parent: &mut Vec<TreeItem>,
    items: Vec<TreeItem>,
    name: Vec<u8>,
)
    requires
        entries_sorted(old(es)@),
        entries_closed(old(es)@),
        items_sorted(items@),
        forall|m: int|
            0 <= m < items@.len() ==> present_before(
                old(es)@,
                old(es)@.len() as int,
                #[trigger] items@[m].hash@,
            ),
        items_sorted(old(parent)@),
        forall|m: int|
            0 <= m < old(parent)@.len() ==> lex_lt(#[trigger] old(parent)@[m].name@, name@),
        forall|m: int|
            0 <= m < old(parent)@.len() ==> present_before(
                old(es)@,
                old(es)@.len() as int,
                #[trigger] old(parent)@[m].hash@,
            ),
    ensures
        final(es)@ == old(es)@.push(PackFileEntry::Tree(items)),
        entries_sorted(final(es)@),
        entries_closed(final(es)@),
        final(parent)@.len() == old(parent)@.len() + 1,
        final(parent)@.drop_last() == old(parent)@,
        final(parent)@.last().name@ == name@,
        final(parent)@.last().kind == TreeItemKind::Directory,
        final(parent)@.last().hash@ == object_id(PackFileEntry::Tree(items)),
        items_sorted(final(parent)@),
        forall|m: int|
            0 <= m < final(parent)@.len() ==> present_before(
                final(es)@,
                final(es)@.len() as int,
                #[trigger] final(parent)@[m].hash@,
            ),
        forall|g: Seq<u8>|
            #[trigger] present_before(old(es)@, old(es)@.len() as int, g) ==> present_before(
                final(es)@,
                final(es)@.len() as int,
                g,
            ),
        forall|k: int, g: Seq<u8>|
            0 <= k <= old(es)@.len() && #[trigger] present_before(old(es)@, k, g)
                ==> present_before(final(es)@, k, g),
        forall|name: Seq<u8>, g: Seq<u8>|
            #[trigger] listed(old(es)@, name, g) ==> listed(final(es)@, name, g),
        forall|m: int|
            0 <= m < items@.len() && (#[trigger] items@[m]).kind == TreeItemKind::File ==> listed(
                final(es)@,
                items@[m].name@,
                items@[m].hash@,
            ),
        forall|m: int|
            0 <= m < items@.len() && (#[trigger] items@[m]).kind == TreeItemKind::File
                ==> dir_leads(final(es)@, final(parent)@, name@, items@[m].name@, items@[m].hash@),
        forall|dir: Seq<u8>, nm: Seq<u8>, g: Seq<u8>|
            #[trigger] dir_leads(old(es)@, items@, dir, nm, g) && name@ == first2(nm) && dir
                == second2(nm) ==> resolves(final(es)@, final(parent)@, nm, g),
        forall|dir: Seq<u8>, nm: Seq<u8>, g: Seq<u8>|
            #[trigger] dir_leads(old(es)@, old(parent)@, dir, nm, g) ==> dir_leads(
                final(es)@,
                final(parent)@,
                dir,
                nm,
                g,
            ),
        forall|nm: Seq<u8>, g: Seq<u8>|
            #[trigger] resolves(old(es)@, old(parent)@, nm, g) ==> resolves(
                final(es)@,
                final(parent)@,
                nm,
                g,
            ),
        forall|root: Seq<TreeItem>, nm: Seq<u8>, g: Seq<u8>|
            #[trigger] resolves(old(es)@, root, nm, g) ==> resolves(final(es)@, root, nm, g),
        forall|its: Seq<TreeItem>, dir: Seq<u8>, nm: Seq<u8>, g: Seq<u8>|
            #[trigger] dir_leads(old(es)@, its, dir, nm, g) ==> dir_leads(final(es)@, its, dir, nm, g),
{
    let ghost iv = items@;
    let ghost n0 = es@.len();
    let h = push_entry(es, PackFileEntry::Tree(items));
    proof {
        reveal(listed);
        assert forall|m: int|
            0 <= m < iv.len() && (#[trigger] iv[m]).kind == TreeItemKind::File implies listed(
            es@,
            iv[m].name@,
            iv[m].hash@,
        ) by {
            assert(tree_items(es@[n0 as int]) == iv);
            assert(tree_items(es@[n0 as int])[m].name@ == iv[m].name@);
        }
    }
    let ghost prior = parent@;
    let ghost es1 = es@;
    parent.push(TreeItem { kind: TreeItemKind::Directory, name, hash: h });
    proof {
        assert(parent@.drop_last() =~= prior);
        assert(parent@ == prior.push(parent@.last()));
        lemma_entries_grow(es@, prior, parent@.last());
        assert(tree_items(es@[n0 as int]) == iv);
        assert forall|m: int|
            0 <= m < iv.len() && (#[trigger] iv[m]).kind == TreeItemKind::File implies dir_leads(
            es@,
            parent@,
            name@,
            iv[m].name@,
            iv[m].hash@,
        ) by {
            lemma_dir_added(es@, n0 as int, iv, m, parent@);
        }
        assert forall|dir: Seq<u8>, nm: Seq<u8>, g: Seq<u8>|
            #[trigger] dir_leads(old(es)@, iv, dir, nm, g) && name@ == first2(nm) && dir
                == second2(nm) implies resolves(es@, parent@, nm, g) by {
            assert(dir_leads(es@, iv, dir, nm, g));
            lemma_root_added(es@, n0 as int, parent@, nm, g);
        }
        assert forall|dir: Seq<u8>, nm: Seq<u8>, g: Seq<u8>|
            #[trigger] dir_leads(old(es)@, prior, dir, nm, g) implies dir_leads(
            es@,
            parent@,
            dir,
            nm,
            g,
        ) by {
            assert(dir_leads(es@, prior, dir, nm, g));
        }
        assert forall|nm: Seq<u8>, g: Seq<u8>|
            #[trigger] resolves(old(es)@, prior, nm, g) implies resolves(es@, parent@, nm, g) by {
            assert(resolves(es@, prior, nm, g));
        }
        assert forall|m: int|
            0 <= m < parent@.len() implies present_before(
            es@,
            es@.len() as int,
            #[trigger] parent@[m].hash@,
        ) by {
            if m < prior.len() {
                assert(parent@[m] == prior[m]);
                assert(present_before(old(es)@, old(es)@.len() as int, prior[m].hash@));
            }
        }
        assert forall|i: int, j: int|
            0 <= i < j < parent@.len() implies lex_lt(
            #[trigger] parent@[i].name@,
            #[trigger] parent@[j].name@,
        ) by {
            assert(parent@[i] == prior[i]);
            if j < prior.len() {
                assert(parent@[j] == prior[j]);
            }
        }
    }
}

/// `d` is the top-level directory of some crate of `t`.
pub open spec fn is_first_dir(t: &IndexTree, d: Seq<u8>) -> bool {
    exists|j: int| 0 <= j < t.crates().len() && first2(#[trigger] t.crates()[j].name@) == d
}

/// Some entry of `items` is called `name`.
pub open spec fn has_entry(items: Seq<TreeItem>, name: Seq<u8>) -> bool {
    exists|m: int| 0 <= m < items.len() && items[m].name@ == name
}

spec fn cname(t: &IndexTree, j: int) -> Seq<u8> {
    t.crates@[j].name@
}

proof fn lemma_first2_mono(t: &IndexTree, a: int, b: int)
    requires
        t.wf(),
        0 <= a < b < t.crates@.len(),
    ensures
        first2(cname(t, a)) == first2(cname(t, b)) || lex_lt(first2(cname(t, a)), first2(cname(t, b))),
{
    assert(lex_lt(t.crates@[a].name@, t.crates@[b].name@));
    assert(indexable_name(t.crates@[a].name@) && indexable_name(t.crates@[b].name@));
    lemma_lex_take(cname(t, a), cname(t, b), 2);
}

/// Adds the index's objects to `pack_file_entries`, each after everything it
/// names (a crate's file, then the trees of its directories, innermost
/// first), and an entry for each top-level directory to `root_tree`. Every
/// tree is sorted by name and every tree entry, in `root_tree` too, names an
/// object that is already in `pack_file_entries`. From `root_tree`, each
/// crate's path `<name[0..2]>/<name[2..4]>/<name>` reaches the blob of its
/// file.
#[verifier::rlimit(100)]
pub fn build_tree(
    root_tree: &mut Vec<TreeItem>,
    pack_file_entries: &mut Vec<PackFileEntry>,
    tree: &IndexTree,
)
    requires
        tree.wf(),
        entries_sorted(old(pack_file_entries)@),
        entries_closed(old(pack_file_entries)@),
        items_sorted(old(root_tree)@),
        forall|m: int|
            0 <= m < old(root_tree)@.len() ==> present_before(
                old(pack_file_entries)@,
                old(pack_file_entries)@.len() as int,
                #[trigger] old(root_tree)@[m].hash@,
            ),
        forall|m: int, j: int|
            0 <= m < old(root_tree)@.len() && 0 <= j < tree.crates().len() ==> lex_lt(
                #[trigger] old(root_tree)@[m].name@,
                first2(#[trigger] tree.crates()[j].name@),
            ),
    ensures
        old(pack_file_entries)@.len() <= final(pack_file_entries)@.len(),
        final(pack_file_entries)@.take(old(pack_file_entries)@.len() as int) == old(
            pack_file_entries,
        )@,
        entries_sorted(final(pack_file_entries)@),
        entries_closed(final(pack_file_entries)@),
        items_sorted(final(root_tree)@),
        forall|m: int|
            0 <= m < final(root_tree)@.len() ==> present_before(
                final(pack_file_entries)@,
                final(pack_file_entries)@.len() as int,
                #[trigger] final(root_tree)@[m].hash@,
            ),
        final(root_tree)@.take(old(root_tree)@.len() as int) == old(root_tree)@,
        forall|m: int|
            old(root_tree)@.len() <= m < final(root_tree)@.len() ==> (#[trigger] final(root_tree)@[m]).name@.len() == 2,
        forall|m: int|
            old(root_tree)@.len() <= m < final(root_tree)@.len() ==> is_first_dir(
                tree,
                (#[trigger] final(root_tree)@[m]).name@,
            ),
        forall|j: int|
            0 <= j < tree.crates().len() ==> has_entry(
                final(root_tree)@,
                first2(#[trigger] tree.crates()[j].name@),
            ),
        forall|j: int|
            0 <= j < tree.crates().len() ==> listed(
                final(pack_file_entries)@,
                (#[trigger] tree.crates()[j]).name@,
                blob_id(tree.crates()[j].file@),
            ),
        forall|j: int|
            0 <= j < tree.crates().len() ==> resolves(
                final(pack_file_entries)@,
                final(root_tree)@,
                (#[trigger] tree.crates()[j]).name@,
                blob_id(tree.crates()[j].file@),
            ),
{
    let n = tree.crates.len();
    let ghost es0 = pack_file_entries@;
    let ghost root0 = root_tree@;
    let mut first_items: Vec<TreeItem> = Vec::new();
    let mut leaf_items: Vec<TreeItem> = Vec::new();
    let mut i: usize = 0;
    let mut leaf_start: usize = 0;
    let mut first_start: usize = 0;
    while i < n
        invariant
            n == tree.crates@.len(),
            tree.wf(),
            first_start <= leaf_start <= i <= n,
            i > 0 ==> leaf_start < i,
            forall|j: int|
                leaf_start <= j < i ==> first2(#[trigger] cname(tree, j)) == first2(
                    cname(tree, leaf_start as int),
                ) && second2(cname(tree, j)) == second2(cname(tree, leaf_start as int)),
            forall|j: int|
                first_start <= j < i ==> first2(#[trigger] cname(tree, j)) == first2(
                    cname(tree, first_start as int),
                ),
            leaf_items@.len() == i - leaf_start,
            forall|j: int|
                0 <= j < first_start ==> resolves(
                    pack_file_entries@,
                    root_tree@,
                    #[trigger] cname(tree, j),
                    blob_id(tree.crates@[j].file@),
                ),
            forall|j: int|
                first_start <= j < leaf_start ==> dir_leads(
                    pack_file_entries@,
                    first_items@,
                    second2(#[trigger] cname(tree, j)),
                    cname(tree, j),
                    blob_id(tree.crates@[j].file@),
                ),
            forall|j: int|
                0 <= j < leaf_start ==> listed(
                    pack_file_entries@,
                    #[trigger] cname(tree, j),
                    blob_id(tree.crates@[j].file@),
                ),
            forall|m: int|
                0 <= m < leaf_items@.len() ==> (#[trigger] leaf_items@[m]).hash@ == blob_id(
                    tree.crates@[leaf_start + m].file@,
                ) && leaf_items@[m].kind == TreeItemKind::File,
            forall|m: int|
                0 <= m < leaf_items@.len() ==> (#[trigger] leaf_items@[m]).name@ == cname(
                    tree,
                    leaf_start + m,
                ),
            forall|m: int|
                0 <= m < leaf_items@.len() ==> present_before(
                    pack_file_entries@,
                    pack_file_entries@.len() as int,
                    #[trigger] leaf_items@[m].hash@,
                ),
            i == 0 ==> first_items@.len() == 0 && root_tree@ == root0 && pack_file_entries@
                == es0,
            items_sorted(first_items@),
            i > 0 ==> forall|m: int|
                0 <= m < first_items@.len() ==> lex_lt(
                    #[trigger] first_items@[m].name@,
                    second2(cname(tree, leaf_start as int)),
                ),
            forall|m: int|
                0 <= m < first_items@.len() ==> present_before(
                    pack_file_entries@,
                    pack_file_entries@.len() as int,
                    #[trigger] first_items@[m].hash@,
                ),
            items_sorted(root_tree@),
            first_start < n ==> forall|m: int|
                0 <= m < root_tree@.len() ==> lex_lt(
                    #[trigger] root_tree@[m].name@,
                    first2(cname(tree, first_start as int)),
                ),
            forall|m: int|
                0 <= m < root_tree@.len() ==> present_before(
                    pack_file_entries@,
                    pack_file_entries@.len() as int,
                    #[trigger] root_tree@[m].hash@,
                ),
            root0.len() <= root_tree@.len(),
            root_tree@.take(root0.len() as int) == root0,
            forall|m: int|
                root0.len() <= m < root_tree@.len() ==> (#[trigger] root_tree@[m]).name@.len()
                    == 2,
            forall|m: int|
                root0.len() <= m < root_tree@.len() ==> is_first_dir(
                    tree,
                    (#[trigger] root_tree@[m]).name@,
                ),
            forall|j: int|
                0 <= j < first_start ==> has_entry(root_tree@, first2(#[trigger] cname(tree, j))),
            entries_sorted(pack_file_entries@),
            entries_closed(pack_file_entries@),
            es0.len() <= pack_file_entries@.len(),
            pack_file_entries@.take(es0.len() as int) == es0,
        decreases n - i,
    {

        let ghost es_a = pack_file_entries@;
        let ghost root_a = root_tree@;
        let ghost first_a = first_items@;
        let ghost leaf_a = leaf_items@;
        let ghost ls_a = leaf_start as int;
        let ghost fs_a = first_start as int;
        if i > 0 {
            let prev = &tree.crates[i - 1].name;
            let cur = &tree.crates[i].name;
            proof {
                assert(indexable_name(prev@) && indexable_name(cur@));
            }
            let same_first = prev[0] == cur[0] && prev[1] == cur[1];
            let same_second = same_first && prev[2] == cur[2] && prev[3] == cur[3];
            proof {
                if same_first {
                    assert(first2(prev@) =~= first2(cur@));
                } else {
                    assert(first2(prev@) != first2(cur@)) by {
                        if first2(prev@) == first2(cur@) {
                            assert(first2(prev@)[0] == prev@[0] && first2(prev@)[1] == prev@[1]);
                            assert(first2(cur@)[0] == cur@[0] && first2(cur@)[1] == cur@[1]);
                        }
                    }
                }
                if same_second {
                    assert(second2(prev@) =~= second2(cur@));
                } else if same_first {
                    assert(second2(prev@) != second2(cur@)) by {
                        if second2(prev@) == second2(cur@) {
                            assert(second2(prev@)[0] == prev@[2] && second2(prev@)[1] == prev@[3]);
                            assert(second2(cur@)[0] == cur@[2] && second2(cur@)[1] == cur@[3]);
                        }
                    }
                }
            }
            if !same_second {
                let dname: Vec<u8> = vec![prev[2], prev[3]];
                proof {
                    assert(dname@ =~= second2(prev@));
                    assert(cname(tree, i - 1) == prev@);
                    assert forall|a: int, b: int|
                        0 <= a < b < leaf_items@.len() implies lex_lt(
                        #[trigger] leaf_items@[a].name@,
                        #[trigger] leaf_items@[b].name@,
                    ) by {
                        assert(leaf_items@[a].name@ == tree.crates@[ls_a + a].name@);
                        assert(leaf_items@[b].name@ == tree.crates@[ls_a + b].name@);
                    }
                }
                let items = leaf_items;
                leaf_items = Vec::new();
                close_dir(pack_file_entries, &mut first_items, items, dname);
                let ghost es_l = pack_file_entries@;
                let ghost first_l = first_items@;
                proof {
                    assert forall|j: int| 0 <= j < fs_a implies resolves(
                        pack_file_entries@,
                        root_tree@,
                        #[trigger] cname(tree, j),
                        blob_id(tree.crates@[j].file@),
                    ) by {
                        assert(resolves(es_a, root_tree@, cname(tree, j), blob_id(tree.crates@[j].file@)));
                    }
                    assert forall|j: int| fs_a <= j < i implies dir_leads(
                        pack_file_entries@,
                        first_items@,
                        second2(#[trigger] cname(tree, j)),
                        cname(tree, j),
                        blob_id(tree.crates@[j].file@),
                    ) by {
                        if j < ls_a {
                            assert(dir_leads(
                                es_a,
                                first_a,
                                second2(cname(tree, j)),
                                cname(tree, j),
                                blob_id(tree.crates@[j].file@),
                            ));
                        } else {
                            assert(leaf_a[j - ls_a].kind == TreeItemKind::File);
                            assert(leaf_a[j - ls_a].name@ == cname(tree, j));
                            assert(second2(cname(tree, j)) == second2(cname(tree, ls_a)));
                            assert(second2(cname(tree, i - 1)) == second2(cname(tree, ls_a)));
                        }
                    }
                    assert forall|j: int| 0 <= j < i implies listed(
                        pack_file_entries@,
                        #[trigger] cname(tree, j),
                        blob_id(tree.crates@[j].file@),
                    ) by {
                        if j < ls_a {
                            assert(listed(es_a, cname(tree, j), blob_id(tree.crates@[j].file@)));
                        } else {
                            assert(leaf_a[j - ls_a].kind == TreeItemKind::File);
                            assert(leaf_a[j - ls_a].name@ == cname(tree, j));
                        }
                    }
                    if same_first {
                        lemma_lex_take(prev@, cur@, 2);
                        assert(lex_lt(prev@, cur@)) by {
                            assert(tree.crates@[i - 1].name@ == prev@);
                            assert(tree.crates@[i as int].name@ == cur@);
                        }
                        lemma_second2_order(prev@, cur@);
                        assert forall|m: int|
                            0 <= m < first_items@.len() implies lex_lt(
                            #[trigger] first_items@[m].name@,
                            second2(cname(tree, i as int)),
                        ) by {
                            if m < first_a.len() {
                                assert(first_items@[m] == first_a[m]);
                                lemma_lex_transitive(
                                    first_a[m].name@,
                                    second2(prev@),
                                    second2(cur@),
                                );
                            }
                        }
                    }
                }
                leaf_start = i;
                if !same_first {
                    let fname: Vec<u8> = vec![prev[0], prev[1]];
                    proof {
                        assert(fname@ =~= first2(prev@));
                        assert(first2(prev@) == first2(cname(tree, fs_a)));
                    }
                    let fitems = first_items;
                    first_items = Vec::new();
                    let ghost root_b = root_tree@;
                    let ghost es_b = pack_file_entries@;
                    close_dir(pack_file_entries, root_tree, fitems, fname);
                    proof {
                        assert forall|j: int| 0 <= j < i implies resolves(
                            pack_file_entries@,
                            root_tree@,
                            #[trigger] cname(tree, j),
                            blob_id(tree.crates@[j].file@),
                        ) by {
                            if j < fs_a {
                                assert(resolves(es_l, root_b, cname(tree, j), blob_id(tree.crates@[j].file@)));
                            } else {
                                assert(dir_leads(
                                    es_l,
                                    first_l,
                                    second2(cname(tree, j)),
                                    cname(tree, j),
                                    blob_id(tree.crates@[j].file@),
                                ));
                                assert(first2(cname(tree, j)) == first2(cname(tree, fs_a)));
                            }
                        }
                        assert forall|j: int| 0 <= j < i implies listed(
                            pack_file_entries@,
                            #[trigger] cname(tree, j),
                            blob_id(tree.crates@[j].file@),
                        ) by {
                            assert(listed(es_b, cname(tree, j), blob_id(tree.crates@[j].file@)));
                        }
                        lemma_first2_mono(tree, i - 1, i as int);
                        assert(cname(tree, i as int) == cur@);
                        assert forall|m: int|
                            0 <= m < root_tree@.len() implies lex_lt(
                            #[trigger] root_tree@[m].name@,
                            first2(cname(tree, i as int)),
                        ) by {
                            if m < root_b.len() {
                                assert(root_tree@[m] == root_b[m]);
                                lemma_lex_transitive(
                                    root_b[m].name@,
                                    first2(prev@),
                                    first2(cur@),
                                );
                            }
                        }
                        assert forall|j: int| 0 <= j < i implies has_entry(
                            root_tree@,
                            first2(#[trigger] cname(tree, j)),
                        ) by {
                            if j < fs_a {
                                let m = choose|m: int|
                                    0 <= m < root_b.len() && root_b[m].name@ == first2(
                                        cname(tree, j),
                                    );
                                assert(root_tree@[m] == root_b[m]);
                            } else {
                                assert(root_tree@[root_tree@.len() - 1].name@ == first2(
                                    cname(tree, j),
                                ));
                            }
                        }
                        assert(root_tree@.take(root0.len() as int) =~= root0) by {
                            assert(root_b.take(root0.len() as int) == root0);
                            assert(root_tree@.drop_last() == root_b);
                        }
                        assert forall|m: int|
                            root0.len() <= m < root_tree@.len() implies (#[trigger] root_tree@[m]).name@.len()
                                == 2 by {
                            if m < root_b.len() {
                                assert(root_tree@[m] == root_b[m]);
                            }
                        }
                        assert forall|m: int|
                            root0.len() <= m < root_tree@.len() implies is_first_dir(
                            tree,
                            (#[trigger] root_tree@[m]).name@,
                        ) by {
                            if m < root_b.len() {
                                assert(root_tree@[m] == root_b[m]);
                            } else {
                                assert(first2(tree.crates()[i - 1].name@) == root_tree@[m].name@);
                            }
                        }
                    }
                    first_start = i;
                }
                proof {
                    assert(pack_file_entries@.take(es0.len() as int) =~= es0) by {
                        assert(es_a.take(es0.len() as int) == es0);
                    }
                }
            }
        }
        let ghost es_c = pack_file_entries@;
        let file = copy_bytes(&tree.crates[i].file);
        let h = push_entry(pack_file_entries, PackFileEntry::Blob(file));
        let name = copy_bytes(&tree.crates[i].name);
        let ghost leaf_c = leaf_items@;
        leaf_items.push(TreeItem { kind: TreeItemKind::File, name, hash: h });
        proof {
            assert(pack_file_entries@.take(es0.len() as int) =~= es0) by {
                assert(es_c.take(es0.len() as int) == es0);
            }
            assert forall|j: int| 0 <= j < leaf_start implies listed(
                pack_file_entries@,
                #[trigger] cname(tree, j),
                blob_id(tree.crates@[j].file@),
            ) by {
                assert(listed(es_c, cname(tree, j), blob_id(tree.crates@[j].file@)));
            }
            assert forall|j: int| 0 <= j < first_start implies resolves(
                pack_file_entries@,
                root_tree@,
                #[trigger] cname(tree, j),
                blob_id(tree.crates@[j].file@),
            ) by {
                assert(resolves(es_c, root_tree@, cname(tree, j), blob_id(tree.crates@[j].file@)));
            }
            assert forall|j: int| first_start <= j < leaf_start implies dir_leads(
                pack_file_entries@,
                first_items@,
                second2(#[trigger] cname(tree, j)),
                cname(tree, j),
                blob_id(tree.crates@[j].file@),
            ) by {
                assert(dir_leads(
                    es_c,
                    first_items@,
                    second2(cname(tree, j)),
                    cname(tree, j),
                    blob_id(tree.crates@[j].file@),
                ));
            }
            assert forall|m: int|
                0 <= m < leaf_items@.len() implies (#[trigger] leaf_items@[m]).hash@ == blob_id(
                tree.crates@[leaf_start + m].file@,
            ) && leaf_items@[m].kind == TreeItemKind::File by {
                if m < leaf_c.len() {
                    assert(leaf_items@[m] == leaf_c[m]);
                }
            }
            assert forall|m: int|
                0 <= m < leaf_items@.len() implies (#[trigger] leaf_items@[m]).name@ == cname(
                tree,
                leaf_start + m,
            ) by {
                if m < leaf_c.len() {
                    assert(leaf_items@[m] == leaf_c[m]);
                }
            }
            assert forall|m: int|
                0 <= m < leaf_items@.len() implies present_before(
                pack_file_entries@,
                pack_file_entries@.len() as int,
                #[trigger] leaf_items@[m].hash@,
            ) by {
                if m < leaf_c.len() {
                    assert(leaf_items@[m] == leaf_c[m]);
                }
            }
        }
        i += 1;
    }
    if n > 0 {
        let prev = &tree.crates[n - 1].name;
        proof {
            assert(indexable_name(prev@));
            assert(cname(tree, n - 1) == prev@);
        }
        let dname: Vec<u8> = vec![prev[2], prev[3]];
        proof {
            assert(dname@ =~= second2(prev@));
            assert forall|a: int, b: int|
                0 <= a < b < leaf_items@.len() implies lex_lt(
                #[trigger] leaf_items@[a].name@,
                #[trigger] leaf_items@[b].name@,
            ) by {
                assert(leaf_items@[a].name@ == tree.crates@[leaf_start + a].name@);
                assert(leaf_items@[b].name@ == tree.crates@[leaf_start + b].name@);
            }
        }
        let ghost es_a = pack_file_entries@;
        let ghost leaf_a = leaf_items@;
        let ghost first_a = first_items@;
        let ghost root_a = root_tree@;
        close_dir(pack_file_entries, &mut first_items, leaf_items, dname);
        let ghost es_m = pack_file_entries@;
        let ghost first_m = first_items@;
        proof {
            assert forall|j: int| first_start <= j < n implies dir_leads(
                pack_file_entries@,
                first_items@,
                second2(#[trigger] cname(tree, j)),
                cname(tree, j),
                blob_id(tree.crates@[j].file@),
            ) by {
                if j < leaf_start {
                    assert(dir_leads(
                        es_a,
                        first_a,
                        second2(cname(tree, j)),
                        cname(tree, j),
                        blob_id(tree.crates@[j].file@),
                    ));
                } else {
                    assert(leaf_a[j - leaf_start].kind == TreeItemKind::File);
                    assert(leaf_a[j - leaf_start].name@ == cname(tree, j));
                    assert(second2(cname(tree, j)) == second2(cname(tree, leaf_start as int)));
                    assert(second2(cname(tree, n - 1)) == second2(cname(tree, leaf_start as int)));
                }
            }
            assert forall|j: int| 0 <= j < first_start implies resolves(
                pack_file_entries@,
                root_tree@,
                #[trigger] cname(tree, j),
                blob_id(tree.crates@[j].file@),
            ) by {
                assert(resolves(es_a, root_a, cname(tree, j), blob_id(tree.crates@[j].file@)));
            }
        }
        proof {
            assert forall|j: int| 0 <= j < n implies listed(
                pack_file_entries@,
                #[trigger] cname(tree, j),
                blob_id(tree.crates@[j].file@),
            ) by {
                if j < leaf_start {
                    assert(listed(es_a, cname(tree, j), blob_id(tree.crates@[j].file@)));
                } else {
                    assert(leaf_a[j - leaf_start].kind == TreeItemKind::File);
                    assert(leaf_a[j - leaf_start].name@ == cname(tree, j));
                }
            }
        }
        let fname: Vec<u8> = vec![prev[0], prev[1]];
        proof {
            assert(fname@ =~= first2(prev@));
            assert(first2(prev@) == first2(cname(tree, first_start as int)));
        }
        let ghost root_b = root_tree@;
        let ghost es_b = pack_file_entries@;
        close_dir(pack_file_entries, root_tree, first_items, fname);
        proof {
            assert forall|j: int| 0 <= j < n implies resolves(
                pack_file_entries@,
                root_tree@,
                (#[trigger] tree.crates()[j]).name@,
                blob_id(tree.crates()[j].file@),
            ) by {
                assert(tree.crates()[j].name@ == cname(tree, j));
                if j < first_start {
                    assert(resolves(es_m, root_a, cname(tree, j), blob_id(tree.crates@[j].file@)));
                } else {
                    assert(dir_leads(
                        es_m,
                        first_m,
                        second2(cname(tree, j)),
                        cname(tree, j),
                        blob_id(tree.crates@[j].file@),
                    ));
                    assert(first2(cname(tree, j)) == first2(cname(tree, first_start as int)));
                }
            }
            assert forall|j: int| 0 <= j < n implies listed(
                pack_file_entries@,
                (#[trigger] tree.crates()[j]).name@,
                blob_id(tree.crates()[j].file@),
            ) by {
                assert(listed(es_m, cname(tree, j), blob_id(tree.crates@[j].file@)));
            }
            assert(pack_file_entries@.take(es0.len() as int) =~= es0) by {
                assert(es_a.take(es0.len() as int) == es0);
                assert(es_b.take(es0.len() as int) =~= es0);
            }
            assert(root_tree@.take(root0.len() as int) =~= root0) by {
                assert(root_b.take(root0.len() as int) == root0);
                assert(root_tree@.drop_last() == root_b);
            }
            assert forall|m: int|
                root0.len() <= m < root_tree@.len() implies (#[trigger] root_tree@[m]).name@.len()
                    == 2 by {
                if m < root_b.len() {
                    assert(root_tree@[m] == root_b[m]);
                }
            }
            assert forall|m: int|
                root0.len() <= m < root_tree@.len() implies is_first_dir(
                tree,
                (#[trigger] root_tree@[m]).name@,
            ) by {
                if m < root_b.len() {
                    assert(root_tree@[m] == root_b[m]);
                } else {
                    assert(first2(tree.crates()[n - 1].name@) == root_tree@[m].name@);
                }
            }
            assert forall|j: int| 0 <= j < n implies has_entry(
                root_tree@,
                first2(#[trigger] tree.crates()[j].name@),
            ) by {
                assert(tree.crates()[j].name@ == cname(tree, j));
                if j < first_start {
                    let m = choose|m: int|
                        0 <= m < root_b.len() && root_b[m].name@ == first2(cname(tree, j));
                    assert(root_tree@[m] == root_b[m]);
                } else {
                    assert(root_tree@[root_tree@.len() - 1].name@ == first2(cname(tree, j)));
                }
            }
        }
    }
}

fn copy_bytes(v: &Vec<u8>) -> (r: Vec<u8>)
    ensures
        r@ == v@,
{
    let r = copy_range(v, 0, v.len());
    assert(v@.subrange(0, v@.len() as int) =~= v@);
    r
}

proof fn lemma_present_prefix(a: Seq<PackFileEntry>, b: Seq<PackFileEntry>, h: Seq<u8>)
    requires
        a.len() <= b.len(),
        b.take(a.len() as int) == a,
        present_before(a, a.len() as int, h),
    ensures
        present_before(b, b.len() as int, h),
{
    reveal(present_before);
    let j = choose|j: int| 0 <= j < a.len() && object_id(#[trigger] a[j]) == h;
    assert(b.take(a.len() as int)[j] == b[j]);
}

/// The trees of an index hold no name twice: in each, the names strictly
/// increase, so sorting the entries again leaves them as they are.
pub proof fn lemma_sorted_trees_unique(es: Seq<PackFileEntry>, k: int)
    requires
        entries_sorted(es),
        0 <= k < es.len(),
    ensures
        items_sorted(tree_items(es[k])),
        forall|i: int, j: int|
            0 <= i < tree_items(es[k]).len() && 0 <= j < tree_items(es[k]).len() && i != j
                ==> #[trigger] tree_items(es[k])[i].name@ != #[trigger] tree_items(es[k])[j].name@,
{
    reveal(entries_sorted);
    let items = tree_items(es[k]);
    assert forall|i: int, j: int|
        0 <= i < items.len() && 0 <= j < items.len() && i != j implies #[trigger] items[i].name@
        != #[trigger] items[j].name@ by {
        lemma_lex_irreflexive(items[i].name@);
        if i < j {
            assert(lex_lt(items[i].name@, items[j].name@));
        } else {
            assert(lex_lt(items[j].name@, items[i].name@));
        }
    }
}

/// `config.json`
pub open spec fn config_name() -> Seq<u8> {
    seq![99u8, 111, 110, 102, 105, 103, 46, 106, 115, 111, 110]
}

/// The objects of a synthesised index, in the order they are sent, and the
/// id of its commit, which is the last of them.
pub struct Index {
    pub entries: Vec<PackFileEntry>,
    pub commit_hash: [u8; 20],
}

/// Builds the whole repository: the `config.json` blob, the crates' files
/// and directory trees, the root tree (`config.json` and the top-level
/// directories) and a root commit of it. Each object comes after those it
/// names, every tree is sorted by name, and each crate's path from the root
/// tree reaches the blob of its file.
pub fn build_index(
    config: Vec<u8>,
    tree: &IndexTree,
    author: CommitUserInfo,
    committer: CommitUserInfo,
    message: Vec<u8>,
) -> (r: Index)
    requires
        tree.wf(),
    ensures
        r.entries@.len() >= 3,
        r.entries@[0] matches PackFileEntry::Blob(b) && b@ == config@,
        entries_sorted(r.entries@),
        entries_closed(r.entries@),
        r.commit_hash@ == object_id(r.entries@.last()),
        r.entries@.last() matches PackFileEntry::Commit(c) && c.tree@ == object_id(
            r.entries@[r.entries@.len() - 2],
        ) && c.author == author && c.committer == committer && c.message == message,
        r.entries@[r.entries@.len() - 2] is Tree,
        has_entry(tree_items(r.entries@[r.entries@.len() - 2]), config_name()),
        forall|j: int|
            0 <= j < tree.crates().len() ==> has_entry(
                tree_items(r.entries@[r.entries@.len() - 2]),
                first2(#[trigger] tree.crates()[j].name@),
            ),
        forall|m: int|
            0 <= m < tree_items(r.entries@[r.entries@.len() - 2]).len() ==> (#[trigger] tree_items(
                r.entries@[r.entries@.len() - 2],
            )[m]).name@ == config_name() || is_first_dir(
                tree,
                tree_items(r.entries@[r.entries@.len() - 2])[m].name@,
            ),
        forall|j: int|
            0 <= j < tree.crates().len() ==> listed(
                r.entries@,
                (#[trigger] tree.crates()[j]).name@,
                blob_id(tree.crates()[j].file@),
            ),
        forall|j: int|
            0 <= j < tree.crates().len() ==> resolves(
                r.entries@,
                tree_items(r.entries@[r.entries@.len() - 2]),
                (#[trigger] tree.crates()[j]).name@,
                blob_id(tree.crates()[j].file@),
            ),
{
    let mut entries: Vec<PackFileEntry> = Vec::new();
    proof {
        reveal(entries_sorted);
        reveal(entries_closed);
    }
    let ghost config0 = config@;
    let config_hash = push_entry(&mut entries, PackFileEntry::Blob(config));
    let ghost es1 = entries@;
    let mut dirs: Vec<TreeItem> = Vec::new();
    build_tree(&mut dirs, &mut entries, tree);
    proof {
        lemma_present_prefix(es1, entries@, config_hash@);
    }
    let cfg_name: Vec<u8> = vec![99u8, 111, 110, 102, 105, 103, 46, 106, 115, 111, 110];
    let mut pos: usize = 0;
    while pos < dirs.len()
        invariant
            pos <= dirs@.len(),
            cfg_name@ == config_name(),
            forall|m: int| 0 <= m < pos ==> lex_lt(#[trigger] dirs@[m].name@, config_name()),
        ensures
            pos <= dirs@.len(),
            forall|m: int| 0 <= m < pos ==> lex_lt(#[trigger] dirs@[m].name@, config_name()),
            pos < dirs@.len() ==> !lex_lt(dirs@[pos as int].name@, config_name()),
        decreases dirs@.len() - pos,
    {
        if compare_bytes(dirs[pos].name.as_slice(), cfg_name.as_slice()) >= 0 {
            break;
        }
        pos += 1;
    }
    let ghost dirs0 = dirs@;
    let ghost cfg_item = TreeItem { kind: TreeItemKind::File, name: cfg_name, hash: config_hash };
    proof {
        lemma_resolves_insert(entries@, dirs0, pos as int, cfg_item);
        if pos < dirs0.len() {
            assert(dirs0[pos as int].name@.len() == 2);
            lemma_lex_total(dirs0[pos as int].name@, config_name());
            assert forall|m: int| pos <= m < dirs0.len() implies lex_lt(
                config_name(),
                #[trigger] dirs0[m].name@,
            ) by {
                if m > pos {
                    assert(lex_lt(dirs0[pos as int].name@, dirs0[m].name@));
                    lemma_lex_transitive(config_name(), dirs0[pos as int].name@, dirs0[m].name@);
                }
            }
        }
    }
    dirs.insert(pos, TreeItem { kind: TreeItemKind::File, name: cfg_name, hash: config_hash });
    proof {
        assert(dirs@ == dirs0.insert(pos as int, cfg_item));
        assert forall|a: int, b: int| 0 <= a < b < dirs@.len() implies lex_lt(
            #[trigger] dirs@[a].name@,
            #[trigger] dirs@[b].name@,
        ) by {
            if b < pos {
                assert(dirs@[a] == dirs0[a] && dirs@[b] == dirs0[b]);
            } else if b == pos {
                assert(dirs@[a] == dirs0[a]);
            } else if a == pos {
                assert(dirs@[b] == dirs0[b - 1]);
            } else if a < pos {
                assert(dirs@[a] == dirs0[a] && dirs@[b] == dirs0[b - 1]);
                lemma_lex_transitive(dirs0[a].name@, config_name(), dirs0[b - 1].name@);
            } else {
                assert(dirs@[a] == dirs0[a - 1] && dirs@[b] == dirs0[b - 1]);
            }
        }
        assert forall|m: int| 0 <= m < dirs@.len() implies present_before(
            entries@,
            entries@.len() as int,
            #[trigger] dirs@[m].hash@,
        ) by {
            if m < pos {
                assert(dirs@[m] == dirs0[m]);
            } else if m > pos {
                assert(dirs@[m] == dirs0[m - 1]);
            }
        }
        assert(dirs@[pos as int].name@ == config_name());
        assert forall|m: int| 0 <= m < dirs@.len() implies (#[trigger] dirs@[m]).name@
            == config_name() || is_first_dir(tree, dirs@[m].name@) by {
            if m < pos {
                assert(dirs@[m] == dirs0[m]);
            } else if m > pos {
                assert(dirs@[m] == dirs0[m - 1]);
            }
        }
        assert forall|j: int| 0 <= j < tree.crates().len() implies has_entry(
            dirs@,
            first2(#[trigger] tree.crates()[j].name@),
        ) by {
            let m = choose|m: int|
                0 <= m < dirs0.len() && dirs0[m].name@ == first2(tree.crates()[j].name@);
            if m < pos {
                assert(dirs@[m] == dirs0[m]);
            } else {
                assert(dirs@[m + 1] == dirs0[m]);
            }
        }
    }
    proof {
        assert forall|j: int| 0 <= j < tree.crates().len() implies resolves(
            entries@,
            dirs@,
            (#[trigger] tree.crates()[j]).name@,
            blob_id(tree.crates()[j].file@),
        ) by {
            assert(resolves(entries@, dirs0, tree.crates()[j].name@, blob_id(tree.crates()[j].file@)));
        }
    }
    let ghost root_items = dirs@;
    let ghost es_t = entries@;
    let root_hash = push_entry(&mut entries, PackFileEntry::Tree(dirs));
    let ghost es2 = entries@;
    let commit = Commit { tree: root_hash, author, committer, message };
    let commit_hash = push_entry(&mut entries, PackFileEntry::Commit(commit));
    proof {
        assert forall|j: int| 0 <= j < tree.crates().len() implies listed(
            entries@,
            (#[trigger] tree.crates()[j]).name@,
            blob_id(tree.crates()[j].file@),
        ) by {
            assert(listed(es_t, tree.crates()[j].name@, blob_id(tree.crates()[j].file@)));
            assert(listed(es2, tree.crates()[j].name@, blob_id(tree.crates()[j].file@)));
        }
        assert(tree_items(es2.last()) == root_items);
        assert forall|j: int| 0 <= j < tree.crates().len() implies resolves(
            entries@,
            root_items,
            (#[trigger] tree.crates()[j]).name@,
            blob_id(tree.crates()[j].file@),
        ) by {
            assert(resolves(es_t, root_items, tree.crates()[j].name@, blob_id(tree.crates()[j].file@)));
            assert(resolves(es2, root_items, tree.crates()[j].name@, blob_id(tree.crates()[j].file@)));
        }
        assert(entries@[0] == es1[0]) by {
            assert(entries@.take(es1.len() as int)[0] == es1[0]);
        }
        assert(entries@[entries@.len() - 2] == es2.last());
    }
    Index { entries, commit_hash }
}

/// The lines of a crate's file, each followed by a newline.
pub open spec fn joined_lines(lines: Seq<Seq<u8>>) -> Seq<u8>
    decreases lines.len(),
{
    if lines.len() == 0 {
        seq![]
    } else {
        joined_lines(lines.drop_last()) + lines.last() + seq![10u8]
    }
}

/// A crate's file: one JSON line per version, each ended by a newline.
pub fn version_file(lines: &Vec<Vec<u8>>) -> (r: Vec<u8>)
    ensures
        r@ == joined_lines(lines@.map_values(|l: Vec<u8>| l@)),
{
    let ghost ls = lines@.map_values(|l: Vec<u8>| l@);
    let mut r: Vec<u8> = Vec::new();
    let mut i: usize = 0;
    assert(ls.take(0) =~= Seq::<Seq<u8>>::empty());
    while i < lines.len()
        invariant
            i <= lines@.len(),
            ls == lines@.map_values(|l: Vec<u8>| l@),
            r@ == joined_lines(ls.take(i as int)),
        decreases lines@.len() - i,
    {
        crate::object::append(&mut r, lines[i].as_slice());
        r.push(10);
        assert(ls.take(i + 1).drop_last() =~= ls.take(i as int));
        i += 1;
    }
    assert(ls.take(i as int) =~= ls);
    r
}

} // verus!
