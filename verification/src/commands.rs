use vstd::prelude::*;

use crate::angofile::AngoContext;
use crate::angofile::LinkType;
use crate::angofile::ObjectSet;
use crate::angofile::TypedHash;
use crate::angofile::TypedHashV;
use crate::entries::encode_entries;
use crate::entries::encode_entry_list;
use crate::entries::entry_leq;
use crate::entries::sort_entries;
use crate::entries::Entry;
use crate::entries::EntryV;
use crate::hashing::digest;
use crate::hashing::digest_of;
use crate::hashing::digest_of_str;
use crate::hashing::digest_str;
use vstd::string::StrSliceExecFns;
use vstd::utf8::encode_utf8;

verus! {

/// A filesystem tree as handed to the builder: file contents already
/// read, directory children already listed, in whatever order the
/// medium reported them.
pub enum FsTree {
    File { contents: Vec<u8> },
    Dir { children: Vec<(String, FsTree)> },
}

/// The entry a child contributes to its parent's entry list.
pub open spec fn child_entry(c: (String, FsTree)) -> EntryV
    decreases c, 1int,
{
    EntryV { name: c.0@, ty: tree_hash(c.1).ty, hash: tree_hash(c.1).hash }
}

/// The entries of the first `i` children, in the order given.
pub open spec fn tree_entries_to(cs: Seq<(String, FsTree)>, i: int) -> Seq<EntryV>
    decreases cs, i,
{
    if i <= 0 || i > cs.len() {
        Seq::empty()
    } else {
        tree_entries_to(cs, i - 1).push(child_entry(cs[i - 1]))
    }
}

/// The serialized text of a directory level: its children's entries in
/// canonical order. This is the content that is hashed and stored as
/// the directory's own object.
pub open spec fn folder_text(cs: Seq<(String, FsTree)>) -> Seq<char>
    decreases cs, cs.len() + 1int,
{
    encode_entries(tree_entries_to(cs, cs.len() as int).sort_by(entry_leq()))
}

/// The typed content hash of a tree: a file is keyed by its bytes, a
/// directory by the serialized, canonically ordered list of its
/// children's entries.
pub open spec fn tree_hash(t: FsTree) -> TypedHashV
    decreases t, 0int,
{
    match t {
        FsTree::File { contents } => TypedHashV {
            ty: LinkType::File,
            hash: digest_of(contents@),
        },
        FsTree::Dir { children } => TypedHashV {
            ty: LinkType::Folder,
            hash: digest_of_str(folder_text(children@)),
        },
    }
}

/// One object blob that still has to be persisted: its storage key and
/// its exact content bytes.
pub struct PendingWrite {
    pub hash: String,
    pub contents: Vec<u8>,
}

/// Mathematical value of a `PendingWrite`.
pub struct BlobV {
    pub hash: Seq<char>,
    pub bytes: Seq<u8>,
}

impl View for PendingWrite {
    type V = BlobV;

    open spec fn view(&self) -> BlobV {
        BlobV { hash: self.hash@, bytes: self.contents@ }
    }
}

impl DeepView for PendingWrite {
    type V = BlobV;

    open spec fn deep_view(&self) -> BlobV {
        self.view()
    }
}

/// The digests named by a list of planned writes.
pub open spec fn plan_digests(p: Seq<BlobV>) -> Set<Seq<char>> {
    Set::new(|h: Seq<char>| exists|i: int| 0 <= i < p.len() && p[i].hash == h)
}

/// The writes a tree adds on top of a set of already known digests:
/// each new object exactly once, children before their directory,
/// children in the order given.
pub open spec fn plan_tree(t: FsTree, known: Set<Seq<char>>) -> Seq<BlobV>
    decreases t, 0int,
{
    match t {
        FsTree::File { contents } => {
            if known.contains(digest_of(contents@)) {
                Seq::empty()
            } else {
                seq![BlobV { hash: digest_of(contents@), bytes: contents@ }]
            }
        },
        FsTree::Dir { children } => {
            let sub = plan_children_to(children@, children@.len() as int, known);
            let text = folder_text(children@);
            let h = digest_of_str(text);
            if known.union(plan_digests(sub)).contains(h) {
                sub
            } else {
                sub.push(BlobV { hash: h, bytes: encode_utf8(text) })
            }
        },
    }
}

/// The writes the first `i` children add, each child seeing the
/// digests its elder siblings already planned.
pub open spec fn plan_children_to(
    cs: Seq<(String, FsTree)>,
    i: int,
    known: Set<Seq<char>>,
) -> Seq<BlobV>
    decreases cs, i,
{
    if i <= 0 || i > cs.len() {
        Seq::empty()
    } else {
        let before = plan_children_to(cs, i - 1, known);
        before + plan_tree(cs[i - 1].1, known.union(plan_digests(before)))
    }
}

/// The digests of concatenated plans are the union of the digests.
proof fn lemma_plan_digests_concat(a: Seq<BlobV>, b: Seq<BlobV>)
    ensures
        plan_digests(a + b) == plan_digests(a).union(plan_digests(b)),
{
    assert forall|h: Seq<char>| plan_digests(a + b).contains(h) implies plan_digests(a).union(
        plan_digests(b),
    ).contains(h) by {
        let i = choose|i: int| 0 <= i < (a + b).len() && (a + b)[i].hash == h;
        if i < a.len() {
            assert(a[i].hash == h);
        } else {
            assert(b[i - a.len()].hash == h);
        }
    }
    assert forall|h: Seq<char>| plan_digests(a).union(plan_digests(b)).contains(h)
        implies plan_digests(a + b).contains(h) by {
        if plan_digests(a).contains(h) {
            let i = choose|i: int| 0 <= i < a.len() && a[i].hash == h;
            assert((a + b)[i].hash == h);
        } else {
            let i = choose|i: int| 0 <= i < b.len() && b[i].hash == h;
            assert((a + b)[a.len() + i].hash == h);
        }
    }
    assert(plan_digests(a + b) =~= plan_digests(a).union(plan_digests(b)));
}

/// Tests whether a digest is already among the planned writes.
fn plan_contains(plan: &Vec<PendingWrite>, hash: &String) -> (r: bool)
    ensures
        r == plan_digests(plan.deep_view()).contains(hash@),
{
    let n = plan.len();
    let mut i: usize = 0;
    while i < n
        invariant
            n == plan.len(),
            i <= n,
            forall|j: int| 0 <= j < i ==> plan.deep_view()[j].hash != hash@,
        decreases n - i,
    {
        if plan[i].hash.eq(hash) {
            proof {
                assert(plan.deep_view()[i as int].hash == hash@);
            }
            return true;
        }
        i += 1;
    }
    false
}

/// Builds a path's typed content hash against a set of already known
/// digests, appending the writes still owed to `plan`: one blob for
/// each object of the tree whose digest is neither known nor already
/// planned, children before their directory. The known set itself is
/// not touched: recording a digest is the caller's step, taken only
/// once the blob is safely persisted.
pub fn add_pathed(tree: &FsTree, known: &ObjectSet, plan: &mut Vec<PendingWrite>) -> (r: TypedHash)
    ensures
        r@ == tree_hash(*tree),
        final(plan).deep_view() == old(plan).deep_view() + plan_tree(
            *tree,
            known@.union(plan_digests(old(plan).deep_view())),
        ),
    decreases *tree,
{
    let ghost k0 = known@.union(plan_digests(old(plan).deep_view()));
    match tree {
        FsTree::File { contents } => {
            let h = digest(contents.as_slice());
            let in_store = known.contains(&h);
            let in_plan = plan_contains(plan, &h);
            if !in_store && !in_plan {
                let bytes = vstd::slice::slice_to_vec(contents.as_slice());
                let hc = h.clone();
                let ghost pre = plan.deep_view();
                plan.push(PendingWrite { hash: hc, contents: bytes });
                proof {
                    assert(plan.deep_view() =~= pre.push(
                        BlobV { hash: digest_of(contents@), bytes: contents@ },
                    ));
                    assert(plan.deep_view() =~= pre + plan_tree(*tree, k0));
                }
            } else {
                proof {
                    assert(plan_tree(*tree, k0) =~= Seq::<BlobV>::empty());
                    assert(plan.deep_view() =~= plan.deep_view() + plan_tree(*tree, k0));
                }
            }
            TypedHash::file(h)
        },
        FsTree::Dir { children } => {
            let ghost cs = children@;
            let mut entries: Vec<Entry> = Vec::new();
            let mut i: usize = 0;
            proof {
                assert(entries.deep_view() =~= tree_entries_to(cs, 0));
                assert(plan_children_to(cs, 0, k0) =~= Seq::<BlobV>::empty());
                assert(plan.deep_view() =~= old(plan).deep_view() + plan_children_to(cs, 0, k0));
            }
            while i < children.len()
                invariant
                    *tree is Dir,
                    tree->Dir_children == *children,
                    cs == children@,
                    i <= children.len(),
                    entries.deep_view() == tree_entries_to(cs, i as int),
                    plan.deep_view() == old(plan).deep_view() + plan_children_to(cs, i as int, k0),
                    k0 == known@.union(plan_digests(old(plan).deep_view())),
                decreases children.len() - i,
            {
                let child = &children[i];
                proof {
                    assert(decreases_to!(*tree => tree->Dir_children));
                    assert(decreases_to!(*tree => *children));
                    assert(decreases_to!(*children => children@));
                    assert(decreases_to!(children@ => children@[i as int]));
                    assert(decreases_to!(children@[i as int] => children@[i as int].1));
                    assert(decreases_to!(*tree => children@[i as int].1));
                }
                let ghost plan_before = plan.deep_view();
                let ghost entries_before = entries.deep_view();
                let th = add_pathed(&child.1, known, plan);
                let name = child.0.clone();
                entries.push(Entry { name, ty: th.ty, hash: th.hash });
                proof {
                    let before = plan_children_to(cs, i as int, k0);
                    lemma_plan_digests_concat(old(plan).deep_view(), before);
                    assert(known@.union(plan_digests(plan_before)) =~= k0.union(
                        plan_digests(before),
                    ));
                    assert(plan.deep_view() =~= old(plan).deep_view() + plan_children_to(
                        cs,
                        i + 1,
                        k0,
                    ));
                    assert(th@ == tree_hash(cs[i as int].1));
                    assert(entries.deep_view() =~= entries_before.push(child_entry(cs[i as int])));
                    assert(tree_entries_to(cs, i + 1) == tree_entries_to(cs, i as int).push(
                        child_entry(cs[i as int]),
                    ));
                }
                i += 1;
            }
            let sorted = sort_entries(&entries);
            let text = encode_entry_list(&sorted);
            let h = digest_str(text.as_str());
            proof {
                assert(text@ == folder_text(cs));
                assert(h@ == tree_hash(*tree).hash);
            }
            let in_store = known.contains(&h);
            let in_plan = plan_contains(plan, &h);
            proof {
                let sub = plan_children_to(cs, cs.len() as int, k0);
                lemma_plan_digests_concat(old(plan).deep_view(), sub);
                assert((in_store || in_plan) == k0.union(plan_digests(sub)).contains(h@));
            }
            if !in_store && !in_plan {
                let bytes = text.as_str().as_bytes_vec();
                let hc = h.clone();
                let ghost pre = plan.deep_view();
                plan.push(PendingWrite { hash: hc, contents: bytes });
                proof {
                    let sub = plan_children_to(cs, cs.len() as int, k0);
                    assert(plan.deep_view() =~= pre.push(
                        BlobV { hash: h@, bytes: encode_utf8(folder_text(cs)) },
                    ));
                    assert(plan_tree(*tree, k0) =~= sub.push(
                        BlobV { hash: h@, bytes: encode_utf8(folder_text(cs)) },
                    ));
                    assert(plan.deep_view() =~= old(plan).deep_view() + plan_tree(*tree, k0));
                }
            } else {
                proof {
                    let sub = plan_children_to(cs, cs.len() as int, k0);
                    assert(plan_tree(*tree, k0) =~= sub);
                }
            }
            TypedHash::folder(h)
        },
    }
}

/// Every digest that ingesting a tree makes known: one per distinct
/// file content, one per directory level.
pub open spec fn tree_objects(t: FsTree) -> Set<Seq<char>>
    decreases t, 0int,
{
    match t {
        FsTree::File { contents } => set![digest_of(contents@)],
        FsTree::Dir { children } => children_objects(children@, children@.len() as int).insert(
            digest_of_str(folder_text(children@)),
        ),
    }
}

/// The digests of the first `i` children's subtrees.
pub open spec fn children_objects(cs: Seq<(String, FsTree)>, i: int) -> Set<Seq<char>>
    decreases cs, i,
{
    if i <= 0 || i > cs.len() {
        Set::empty()
    } else {
        children_objects(cs, i - 1).union(tree_objects(cs[i - 1].1))
    }
}

/// A tree all of whose objects are already known plans no write.
pub proof fn lemma_plan_empty_when_known(t: FsTree, known: Set<Seq<char>>)
    requires
        tree_objects(t).subset_of(known),
    ensures
        plan_tree(t, known) == Seq::<BlobV>::empty(),
    decreases t, 0int,
{
    match t {
        FsTree::File { contents } => {
            assert(tree_objects(t).contains(digest_of(contents@)));
        },
        FsTree::Dir { children } => {
            let cs = children@;
            let h = digest_of_str(folder_text(cs));
            assert(children_objects(cs, cs.len() as int).subset_of(known)) by {
                assert forall|d: Seq<char>|
                    children_objects(cs, cs.len() as int).contains(d) implies known.contains(d) by {
                    assert(tree_objects(t).contains(d));
                }
            }
            lemma_plan_children_empty_when_known(cs, cs.len() as int, known);
            assert(plan_digests(Seq::<BlobV>::empty()) =~= Set::<Seq<char>>::empty());
            assert(known.union(plan_digests(Seq::<BlobV>::empty())) =~= known);
            assert(tree_objects(t).contains(h));
        },
    }
}

proof fn lemma_plan_children_empty_when_known(
    cs: Seq<(String, FsTree)>,
    i: int,
    known: Set<Seq<char>>,
)
    requires
        children_objects(cs, i).subset_of(known),
    ensures
        plan_children_to(cs, i, known) == Seq::<BlobV>::empty(),
    decreases cs, i,
{
    if 0 < i <= cs.len() {
        assert(children_objects(cs, i - 1).subset_of(known)) by {
            assert forall|d: Seq<char>|
                children_objects(cs, i - 1).contains(d) implies known.contains(d) by {
                assert(children_objects(cs, i).contains(d));
            }
        }
        lemma_plan_children_empty_when_known(cs, i - 1, known);
        assert(plan_digests(Seq::<BlobV>::empty()) =~= Set::<Seq<char>>::empty());
        assert(known.union(plan_digests(Seq::<BlobV>::empty())) =~= known);
        assert(tree_objects(cs[i - 1].1).subset_of(known)) by {
            assert forall|d: Seq<char>|
                tree_objects(cs[i - 1].1).contains(d) implies known.contains(d) by {
                assert(children_objects(cs, i).contains(d));
            }
        }
        lemma_plan_empty_when_known(cs[i - 1].1, known);
        assert(plan_children_to(cs, i, known) =~= Seq::<BlobV>::empty());
    }
}

/// After an ingest, every object of the tree is either already known
/// or among the planned writes: nothing is forgotten.
pub proof fn lemma_plan_covers(t: FsTree, known: Set<Seq<char>>)
    ensures
        tree_objects(t).subset_of(known.union(plan_digests(plan_tree(t, known)))),
    decreases t, 0int,
{
    match t {
        FsTree::File { contents } => {
            let d = digest_of(contents@);
            if !known.contains(d) {
                assert(plan_tree(t, known)[0].hash == d);
                assert(plan_digests(plan_tree(t, known)).contains(d));
            }
            assert forall|x: Seq<char>| tree_objects(t).contains(x) implies known.union(
                plan_digests(plan_tree(t, known)),
            ).contains(x) by {
                assert(x == d);
            }
        },
        FsTree::Dir { children } => {
            let cs = children@;
            let sub = plan_children_to(cs, cs.len() as int, known);
            let h = digest_of_str(folder_text(cs));
            lemma_plan_children_cover(cs, cs.len() as int, known);
            if known.union(plan_digests(sub)).contains(h) {
                assert forall|x: Seq<char>| tree_objects(t).contains(x) implies known.union(
                    plan_digests(plan_tree(t, known)),
                ).contains(x) by {
                    if x != h {
                        assert(children_objects(cs, cs.len() as int).contains(x));
                    }
                }
            } else {
                let b = BlobV { hash: h, bytes: encode_utf8(folder_text(cs)) };
                assert(sub.push(b) =~= sub + seq![b]);
                lemma_plan_digests_concat(sub, seq![b]);
                assert(plan_digests(seq![b]).contains(h)) by {
                    assert(seq![b][0].hash == h);
                }
                assert forall|x: Seq<char>| tree_objects(t).contains(x) implies known.union(
                    plan_digests(plan_tree(t, known)),
                ).contains(x) by {
                    if x != h {
                        assert(children_objects(cs, cs.len() as int).contains(x));
                    }
                }
            }
        },
    }
}

proof fn lemma_plan_children_cover(cs: Seq<(String, FsTree)>, i: int, known: Set<Seq<char>>)
    ensures
        children_objects(cs, i).subset_of(
            known.union(plan_digests(plan_children_to(cs, i, known))),
        ),
    decreases cs, i,
{
    if 0 < i <= cs.len() {
        let before = plan_children_to(cs, i - 1, known);
        let k1 = known.union(plan_digests(before));
        lemma_plan_children_cover(cs, i - 1, known);
        lemma_plan_covers(cs[i - 1].1, k1);
        lemma_plan_digests_concat(before, plan_tree(cs[i - 1].1, k1));
        assert forall|x: Seq<char>| children_objects(cs, i).contains(x) implies known.union(
            plan_digests(plan_children_to(cs, i, known)),
        ).contains(x) by {
            if children_objects(cs, i - 1).contains(x) {
                assert(k1.contains(x) || plan_digests(before).contains(x));
            } else {
                assert(tree_objects(cs[i - 1].1).contains(x));
                assert(k1.union(plan_digests(plan_tree(cs[i - 1].1, k1))).contains(x));
            }
        }
    }
}

/// A sound list of planned writes against a set of known digests:
/// every blob is keyed by the digest of its own bytes, none is already
/// known, and no digest is planned twice.
pub open spec fn plan_wf(p: Seq<BlobV>, known: Set<Seq<char>>) -> bool {
    &&& forall|i: int| 0 <= i < p.len() ==> (#[trigger] p[i]).hash == digest_of(p[i].bytes)
    &&& forall|i: int| 0 <= i < p.len() ==> !known.contains((#[trigger] p[i]).hash)
    &&& forall|i: int, j: int| 0 <= i < j < p.len() ==> (#[trigger] p[i]).hash != (#[trigger] p[j]).hash
}

/// Store consistency of a planned ingest: each planned blob really has
/// the key it will be stored under, nothing already stored is written
/// again, and no key is written twice. Writing the plan in order and
/// recording each digest after its write therefore keeps the object
/// set and the persisted blobs consistent, even if a write fails part
/// way through.
pub proof fn lemma_plan_well_formed(t: FsTree, known: Set<Seq<char>>)
    ensures
        plan_wf(plan_tree(t, known), known),
    decreases t, 0int,
{
    match t {
        FsTree::File { contents } => {
        },
        FsTree::Dir { children } => {
            let cs = children@;
            let sub = plan_children_to(cs, cs.len() as int, known);
            let h = digest_of_str(folder_text(cs));
            lemma_plan_children_well_formed(cs, cs.len() as int, known);
            if !known.union(plan_digests(sub)).contains(h) {
                let p = plan_tree(t, known);
                assert(p =~= sub.push(BlobV { hash: h, bytes: encode_utf8(folder_text(cs)) }));
                assert forall|i: int, j: int| 0 <= i < j < p.len() implies (#[trigger] p[i]).hash
                    != (#[trigger] p[j]).hash by {
                    if j == p.len() - 1 {
                        assert(plan_digests(sub).contains(sub[i].hash));
                    }
                }
            }
        },
    }
}

proof fn lemma_plan_children_well_formed(
    cs: Seq<(String, FsTree)>,
    i: int,
    known: Set<Seq<char>>,
)
    ensures
        plan_wf(plan_children_to(cs, i, known), known),
    decreases cs, i,
{
    if 0 < i <= cs.len() {
        let before = plan_children_to(cs, i - 1, known);
        let k1 = known.union(plan_digests(before));
        let rest = plan_tree(cs[i - 1].1, k1);
        let p = plan_children_to(cs, i, known);
        lemma_plan_children_well_formed(cs, i - 1, known);
        lemma_plan_well_formed(cs[i - 1].1, k1);
        assert(p == before + rest);
        assert forall|a: int| 0 <= a < p.len() implies (#[trigger] p[a]).hash == digest_of(
            p[a].bytes,
        ) && !known.contains(p[a].hash) by {
            if a < before.len() {
                assert(p[a] == before[a]);
            } else {
                assert(p[a] == rest[a - before.len()]);
            }
        }
        assert forall|a: int, b: int| 0 <= a < b < p.len() implies (#[trigger] p[a]).hash
            != (#[trigger] p[b]).hash by {
            if a < before.len() && b >= before.len() {
                assert(p[a] == before[a]);
                assert(p[b] == rest[b - before.len()]);
                assert(plan_digests(before).contains(before[a].hash));
                assert(!k1.contains(rest[b - before.len()].hash));
            } else if a < before.len() {
                assert(p[a] == before[a] && p[b] == before[b]);
            } else {
                assert(p[a] == rest[a - before.len()] && p[b] == rest[b - before.len()]);
            }
        }
    }
}

/// Dedup idempotence: once a tree's planned blobs have been written
/// and recorded, ingesting the very same tree again plans no write at
/// all, so the object set does not grow.
pub proof fn lemma_ingest_idempotent(t: FsTree, known: Set<Seq<char>>)
    ensures
        plan_tree(t, known.union(plan_digests(plan_tree(t, known)))) == Seq::<BlobV>::empty(),
{
    lemma_plan_covers(t, known);
    lemma_plan_empty_when_known(t, known.union(plan_digests(plan_tree(t, known))));
}

/// Dedup idempotence at the object-set level: admitting the same
/// content twice leaves exactly what one admission left.
pub proof fn lemma_object_set_idempotent(objects: Set<Seq<char>>, contents: Seq<u8>)
    ensures
        objects.insert(digest_of(contents)).insert(digest_of(contents)) == objects.insert(
            digest_of(contents),
        ),
{
    assert(objects.insert(digest_of(contents)).insert(digest_of(contents)) =~= objects.insert(
        digest_of(contents),
    ));
}

/// Folder reproducibility: two enumerations of one directory level
/// that carry the same entries, in whatever order the medium reported
/// them, serialize to the same text and so to the same Folder digest.
pub proof fn lemma_folder_reproducible(cs1: Seq<(String, FsTree)>, cs2: Seq<(String, FsTree)>)
    requires
        tree_entries_to(cs1, cs1.len() as int).to_multiset() == tree_entries_to(
            cs2,
            cs2.len() as int,
        ).to_multiset(),
    ensures
        folder_text(cs1) == folder_text(cs2),
{
    let leq = entry_leq();
    let e1 = tree_entries_to(cs1, cs1.len() as int);
    let e2 = tree_entries_to(cs2, cs2.len() as int);
    crate::entries::lemma_entry_le_total_ordering();
    e1.lemma_sort_by_ensures(leq);
    e2.lemma_sort_by_ensures(leq);
    vstd::seq_lib::lemma_sorted_unique(e1.sort_by(leq), e2.sort_by(leq), leq);
    assert(e1.sort_by(leq) =~= e2.sort_by(leq));
}

/// A rearrangement of indices: every position below `n` is hit exactly
/// once.
pub open spec fn is_perm_map(f: Seq<int>, n: int) -> bool {
    &&& f.len() == n
    &&& forall|i: int| 0 <= i < n ==> 0 <= #[trigger] f[i] < n
    &&& forall|i: int, j: int| 0 <= i < j < n ==> f[i] != f[j]
}

/// Two trees that hold the same files and directories, with directory
/// children listed in possibly different orders at every level.
pub open spec fn tree_perm(a: FsTree, b: FsTree) -> bool
    decreases a, 0int,
    via tree_perm_decreases
{
    match (a, b) {
        (FsTree::File { contents: c1 }, FsTree::File { contents: c2 }) => c1@ == c2@,
        (FsTree::Dir { children: x }, FsTree::Dir { children: y }) => {
            &&& x@.len() == y@.len()
            &&& exists|f: Seq<int>|
                is_perm_map(f, x@.len() as int) && (forall|i: int|
                    0 <= i < x@.len() ==> x@[i].0@ == y@[#[trigger] f[i]].0@ && tree_perm(
                        x@[i].1,
                        y@[f[i]].1,
                    ))
        },
        _ => false,
    }
}

#[via_fn]
proof fn tree_perm_decreases(a: FsTree, b: FsTree) {
    match a {
        FsTree::File { contents } => {
        },
        FsTree::Dir { children } => {
            assert forall|i: int| 0 <= i < children@.len() implies decreases_to!(
                a, 0int => children@[i].1, 0int
            ) by {
                assert(decreases_to!(a => a->Dir_children));
                assert(decreases_to!(a->Dir_children => children@));
                assert(decreases_to!(children@ => children@[i]));
                assert(decreases_to!(children@[i] => children@[i].1));
            }
        },
    }
}

/// Sequences matched element for element through a rearrangement hold
/// the same multiset.
proof fn lemma_matching_multisets(x: Seq<EntryV>, y: Seq<EntryV>, f: Seq<int>)
    requires
        x.len() == y.len(),
        is_perm_map(f, x.len() as int),
        forall|i: int| 0 <= i < x.len() ==> x[i] == y[#[trigger] f[i]],
    ensures
        x.to_multiset() == y.to_multiset(),
    decreases x.len(),
{
    broadcast use vstd::seq_lib::group_to_multiset_ensures;

    if x.len() == 0 {
        assert(x =~= y);
    } else {
        let n = (x.len() - 1) as nat;
        let j = f[n as int];
        let x1 = x.drop_last();
        let y1 = y.remove(j);
        let f1 = Seq::new(n, |i: int| if f[i] < j { f[i] } else { f[i] - 1 });
        assert(is_perm_map(f1, n as int)) by {
            assert forall|i: int| 0 <= i < n implies 0 <= #[trigger] f1[i] < n by {
                assert(f[i] != j);
            }
            assert forall|i: int, k: int| 0 <= i < k < n implies f1[i] != f1[k] by {
                assert(f[i] != f[k]);
                assert(f[i] != j && f[k] != j);
            }
        }
        assert forall|i: int| 0 <= i < x1.len() implies x1[i] == y1[#[trigger] f1[i]] by {
            assert(f[i] != j);
            assert(x1[i] == x[i]);
            if f[i] < j {
                assert(y1[f1[i]] == y[f[i]]);
            } else {
                assert(y1[f1[i]] == y[f[i]]);
            }
        }
        lemma_matching_multisets(x1, y1, f1);
        assert(x =~= x1.push(x[n as int]));
        assert(x1.push(x[n as int]).to_multiset() =~= x1.to_multiset().insert(x[n as int]));
        assert(x.to_multiset() =~= x1.to_multiset().insert(x[n as int]));
        assert(y1.to_multiset() =~= y.to_multiset().remove(y[j]));
        assert(y.contains(y[j]));
        assert(y.to_multiset().count(y[j]) > 0);
        assert(x.to_multiset() =~= y.to_multiset().remove(y[j]).insert(y[j]));
        assert(x.to_multiset() =~= y.to_multiset());
    }
}

/// The entries of the first `n` children, one by one.
proof fn lemma_tree_entries_index(cs: Seq<(String, FsTree)>, n: int)
    requires
        0 <= n <= cs.len(),
    ensures
        tree_entries_to(cs, n).len() == n,
        forall|i: int| 0 <= i < n ==> tree_entries_to(cs, n)[i] == child_entry(cs[i]),
    decreases n,
{
    if n > 0 {
        lemma_tree_entries_index(cs, n - 1);
    }
}

/// Folder reproducibility over whole trees: trees with the same names
/// and the same contents yield the same typed hash, whatever order any
/// directory's children were enumerated in at any level.
pub proof fn lemma_tree_perm_same_hash(a: FsTree, b: FsTree)
    requires
        tree_perm(a, b),
    ensures
        tree_hash(a) == tree_hash(b),
    decreases a, 0int,
{
    match (a, b) {
        (FsTree::File { contents: c1 }, FsTree::File { contents: c2 }) => {
        },
        (FsTree::Dir { children: x }, FsTree::Dir { children: y }) => {
            let xs = x@;
            let ys = y@;
            let n = xs.len() as int;
            let f = choose|f: Seq<int>|
                is_perm_map(f, n) && (forall|i: int|
                    0 <= i < n ==> xs[i].0@ == ys[#[trigger] f[i]].0@ && tree_perm(
                        xs[i].1,
                        ys[f[i]].1,
                    ));
            lemma_tree_entries_index(xs, n);
            lemma_tree_entries_index(ys, n);
            let ex = tree_entries_to(xs, n);
            let ey = tree_entries_to(ys, n);
            assert forall|i: int| 0 <= i < n implies ex[i] == ey[#[trigger] f[i]] by {
                assert(decreases_to!(a, 0int => xs[i].1, 0int)) by {
                    assert(decreases_to!(a => a->Dir_children));
                    assert(decreases_to!(a->Dir_children => xs));
                    assert(decreases_to!(xs => xs[i]));
                    assert(decreases_to!(xs[i] => xs[i].1));
                }
                lemma_tree_perm_same_hash(xs[i].1, ys[f[i]].1);
            }
            lemma_matching_multisets(ex, ey, f);
            lemma_folder_reproducible(xs, ys);
        },
        _ => {
        },
    }
}

/// The outcome of binding a name: freshly bound, or left untouched
/// because the name was already taken. The latter is not an error.
#[derive(Clone, Copy, PartialEq, Eq, Structural, Debug)]
pub enum LinkResult {
    Added,
    AlreadyExists,
}

/// Binds a name to a typed hash, non-destructively: a name that is
/// already bound keeps its old target, whatever the new hash is, and
/// the caller is told so.
pub fn add_link(epname: String, hash: TypedHash, context: &mut AngoContext) -> (r: LinkResult)
    requires
        old(context).wf(),
    ensures
        final(context).wf(),
        final(context).objects == old(context).objects,
        final(context).ango_path == old(context).ango_path,
        old(context).links@.contains_key(epname@) ==> r == LinkResult::AlreadyExists
            && final(context).links@ == old(context).links@,
        !old(context).links@.contains_key(epname@) ==> r == LinkResult::Added && final(context).links@ == old(context).links@.insert(epname@, hash@),
{
    if !context.links.contains_key(&epname) {
        context.links.insert_new(epname, hash);
        LinkResult::Added
    } else {
        LinkResult::AlreadyExists
    }
}

/// Admits a byte buffer to the object store's in-memory digest set:
/// computes the content key, records it, and reports whether it was
/// new, in which case the caller owes the physical write.
pub fn add_object(contents: &[u8], context: &mut AngoContext) -> (r: (String, bool))
    requires
        old(context).wf(),
    ensures
        final(context).wf(),
        r.0@ == digest_of(contents@),
        r.1 == !old(context).objects@.contains(digest_of(contents@)),
        final(context).objects@ == old(context).objects@.insert(digest_of(contents@)),
        final(context).links == old(context).links,
        final(context).ango_path == old(context).ango_path,
{
    let h = digest(contents);
    let fresh = !context.objects.contains(&h);
    let hc = h.clone();
    context.objects.insert(hc);
    (h, fresh)
}

/// Records one digest as known, once its blob has been persisted.
/// Recording a digest that is already known changes nothing.
pub fn record_object(hash: String, context: &mut AngoContext)
    requires
        old(context).wf(),
    ensures
        final(context).wf(),
        final(context).objects@ == old(context).objects@.insert(hash@),
        old(context).objects@.contains(hash@) ==> final(context).objects@ == old(
            context,
        ).objects@,
        final(context).links == old(context).links,
        final(context).ango_path == old(context).ango_path,
{
    context.objects.insert(hash);
}

/// One ingest call: builds the tree's typed hash against the context's
/// known objects, binds the requested name to it, and returns the hash,
/// the binding outcome, and the blobs that still must be written. The
/// object set itself is only extended by `record_object`, blob by blob,
/// as the writes succeed.
pub fn add(tree: &FsTree, epname: String, context: &mut AngoContext) -> (r: (
    TypedHash,
    LinkResult,
    Vec<PendingWrite>,
))
    requires
        old(context).wf(),
    ensures
        final(context).wf(),
        r.0@ == tree_hash(*tree),
        r.2.deep_view() == plan_tree(*tree, old(context).objects@),
        final(context).objects == old(context).objects,
        final(context).ango_path == old(context).ango_path,
        old(context).links@.contains_key(epname@) ==> r.1 == LinkResult::AlreadyExists && final(context).links@ == old(context).links@,
        !old(context).links@.contains_key(epname@) ==> r.1 == LinkResult::Added && final(context).links@ == old(context).links@.insert(epname@, tree_hash(*tree)),
{
    let mut plan: Vec<PendingWrite> = Vec::new();
    proof {
        assert(plan.deep_view() =~= Seq::<BlobV>::empty());
        assert(plan_digests(Seq::<BlobV>::empty()) =~= Set::<Seq<char>>::empty());
        assert(context.objects@.union(Set::<Seq<char>>::empty()) =~= context.objects@);
    }
    let th = add_pathed(tree, &context.objects, &mut plan);
    proof {
        assert(Seq::<BlobV>::empty() + plan_tree(*tree, old(context).objects@) =~= plan_tree(
            *tree,
            old(context).objects@,
        ));
    }
    let th_out = th.clone();
    let outcome = add_link(epname, th, context);
    (th_out, outcome, plan)
}

} // verus!
