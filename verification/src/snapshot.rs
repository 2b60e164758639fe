//! The tree builder: snapshots a directory into a graph of blobs and trees.

use crate::bytes::{copy_range, equal};
use crate::codec::{envelope, object_id, store_content, StoredObject, NUL};
use crate::digest::ObjectDigest;
use crate::error::Error;
use crate::kind::ObjectKind;
use crate::transport::{deflated, DEFAULT_LEVEL};
use crate::tree::{
    distinct_names, inserted, is_valid_name, lemma_inserted_contains, lemma_inserted_distinct,
    lemma_inserted_sorted, lemma_sorted_unique, sorted, tree_bytes, EntryMode, EntryView, Tree,
    TreeEntry,
};
use vstd::prelude::*;

verus! {

/// What a directory entry is, with what it holds: the bytes of a file as
/// they are read from disk, or the entries of a subdirectory.
#[derive(Debug, PartialEq, Eq)]
pub enum Node {
    File { is_symlink: bool, permissions: u32, content: Vec<u8> },
    Directory { entries: Vec<DirEntry> },
}

/// One entry of a directory: its name and what it is.
#[derive(Debug, PartialEq, Eq)]
pub struct DirEntry {
    pub name: Vec<u8>,
    pub node: Node,
}

/// The mathematical value of a `Node`.
pub enum NodeView {
    File { is_symlink: bool, permissions: u32, content: Seq<u8> },
    Directory { entries: Seq<DirEntryView> },
}

/// The mathematical value of a `DirEntry`.
pub struct DirEntryView {
    pub name: Seq<u8>,
    pub node: NodeView,
}

/// The value of a node.
pub open spec fn node_view(node: Node) -> NodeView
    decreases node,
{
    match node {
        Node::File { is_symlink, permissions, content } => NodeView::File {
            is_symlink,
            permissions,
            content: content@,
        },
        Node::Directory { entries } => NodeView::Directory { entries: listing(entries@) },
    }
}

/// The values of the entries of a directory, in their order.
pub open spec fn listing(entries: Seq<DirEntry>) -> Seq<DirEntryView>
    decreases entries,
{
    if entries.len() == 0 {
        Seq::empty()
    } else {
        listing(entries.drop_last()).push(
            DirEntryView { name: entries.last().name@, node: node_view(entries.last().node) },
        )
    }
}

impl View for Node {
    type V = NodeView;

    open spec fn view(&self) -> NodeView {
        node_view(*self)
    }
}

impl View for DirEntry {
    type V = DirEntryView;

    open spec fn view(&self) -> DirEntryView {
        DirEntryView { name: self.name@, node: self.node@ }
    }
}

/// The outcome of a snapshot: the digest of the root tree, or none where the
/// directory yields no entry; and the objects to store, each child before
/// the tree that points at it.
#[derive(Debug, PartialEq, Eq)]
pub struct Snapshot {
    pub root: Option<ObjectDigest>,
    pub objects: Vec<StoredObject>,
}

/// The name of the metadata directory, which is never part of a tree.
pub open spec fn reserved_name() -> Seq<u8> {
    seq!['.' as u8, 'g' as u8, 'i' as u8, 't' as u8]
}

impl NodeView {
    /// The mode under which a parent tree lists this node.
    pub open spec fn mode(self) -> EntryMode {
        match self {
            NodeView::Directory { .. } => EntryMode::classified(true, false, 0),
            NodeView::File { is_symlink, permissions, .. } => EntryMode::classified(
                false,
                is_symlink,
                permissions,
            ),
        }
    }
}

/// What an entry adds to the tree of its directory: nothing for the
/// reserved name and for a subdirectory that yields no tree; else an entry
/// with the digest of the blob or of the subtree.
pub open spec fn entry_record(entry: DirEntryView) -> Option<EntryView>
    decreases entry, 0nat,
{
    if entry.name == reserved_name() {
        None
    } else {
        match entry.node {
            NodeView::File { content, .. } => Some(
                EntryView {
                    mode: entry.node.mode(),
                    name: entry.name,
                    digest: object_id(ObjectKind::Blob, content),
                },
            ),
            NodeView::Directory { entries } => match tree_id(entries) {
                None => None,
                Some(digest) => Some(
                    EntryView { mode: entry.node.mode(), name: entry.name, digest },
                ),
            },
        }
    }
}

/// The entries of the tree of a directory, in name order.
pub open spec fn tree_of(entries: Seq<DirEntryView>) -> Seq<EntryView>
    decreases entries, 0nat,
{
    if entries.len() == 0 {
        Seq::empty()
    } else {
        match entry_record(entries.last()) {
            None => tree_of(entries.drop_last()),
            Some(record) => inserted(tree_of(entries.drop_last()), record),
        }
    }
}

/// The digest of the tree of a directory, or none where the tree has no
/// entry: an empty tree is not representable.
pub open spec fn tree_id(entries: Seq<DirEntryView>) -> Option<Seq<u8>>
    decreases entries, 1nat,
{
    if tree_of(entries).len() == 0 {
        None
    } else {
        Some(object_id(ObjectKind::Tree, tree_bytes(tree_of(entries))))
    }
}

/// The envelopes of the objects that are stored for one entry, in the order
/// in which they are stored.
pub open spec fn written_by(entry: DirEntryView) -> Seq<Seq<u8>>
    decreases entry, 0nat,
{
    if entry.name == reserved_name() {
        Seq::empty()
    } else {
        match entry.node {
            NodeView::File { content, .. } => seq![envelope(ObjectKind::Blob, content)],
            NodeView::Directory { entries } => written(entries),
        }
    }
}

/// The envelopes of the objects that are stored for the entries of a
/// directory, entry after entry.
pub open spec fn written_below(entries: Seq<DirEntryView>) -> Seq<Seq<u8>>
    decreases entries, 0nat,
{
    if entries.len() == 0 {
        Seq::empty()
    } else {
        written_below(entries.drop_last()) + written_by(entries.last())
    }
}

/// The envelopes of the objects that are stored for a directory: those of
/// its entries, then that of its own tree, unless the tree has no entry.
pub open spec fn written(entries: Seq<DirEntryView>) -> Seq<Seq<u8>>
    decreases entries, 1nat,
{
    if tree_of(entries).len() == 0 {
        written_below(entries)
    } else {
        written_below(entries).push(envelope(ObjectKind::Tree, tree_bytes(tree_of(entries))))
    }
}

/// Whether an entry can be listed, with all that it holds: its name is the
/// reserved name, below which nothing is looked at, or it holds no NUL and
/// the same is true of the entries of a subdirectory.
pub open spec fn listable(entry: DirEntryView) -> bool
    decreases entry, 0nat,
{
    entry.name == reserved_name() || (!entry.name.contains(NUL) && match entry.node {
        NodeView::File { .. } => true,
        NodeView::Directory { entries } => all_listable(entries),
    })
}

/// Whether every entry of a directory can be listed.
pub open spec fn all_listable(entries: Seq<DirEntryView>) -> bool
    decreases entries, 0nat,
{
    entries.len() == 0 || (all_listable(entries.drop_last()) && listable(entries.last()))
}

/// Whether the stored objects are stored forms of the envelopes, one for
/// one and in the same order.
pub open spec fn stored_as(objects: Seq<StoredObject>, envelopes: Seq<Seq<u8>>) -> bool {
    &&& objects.len() == envelopes.len()
    &&& forall|i: int| 0 <= i < objects.len() ==> stored_form(#[trigger] objects[i], envelopes[i])
}

/// Whether the stored object is what is stored for the envelope: it carries
/// the digest of the envelope, and its bytes are the stream that the
/// compressor writes for the envelope, which inflates to it.
pub open spec fn stored_form(object: StoredObject, envelope: Seq<u8>) -> bool {
    &&& object.holds(envelope)
    &&& deflated(envelope, DEFAULT_LEVEL) == Some(object.compressed@)
}

/// Whether the compressor fails on one of the envelopes.
pub open spec fn compressor_fails(envelopes: Seq<Seq<u8>>) -> bool {
    exists|i: int|
        0 <= i < envelopes.len() && deflated(#[trigger] envelopes[i], DEFAULT_LEVEL) is None
}

/// Whether the digest that was computed, if any, is the expected one.
pub open spec fn same_digest(computed: Option<ObjectDigest>, expected: Option<Seq<u8>>) -> bool {
    match computed {
        Some(digest) => expected == Some(digest@),
        None => expected is None,
    }
}

/// Whether `name` is the reserved name of the metadata directory.
pub fn is_reserved(name: &[u8]) -> (r: bool)
    ensures
        r == (name@ == reserved_name()),
{
    let mut reserved: Vec<u8> = Vec::new();
    reserved.push('.' as u8);
    reserved.push('g' as u8);
    reserved.push('i' as u8);
    reserved.push('t' as u8);
    assert(reserved@ =~= reserved_name());
    equal(name, reserved.as_slice())
}

/// The tree of a directory is in name order.
pub proof fn lemma_tree_of_sorted(entries: Seq<DirEntryView>)
    ensures
        sorted(tree_of(entries)),
    decreases entries.len(),
{
    if entries.len() > 0 {
        lemma_tree_of_sorted(entries.drop_last());
        match entry_record(entries.last()) {
            None => {},
            Some(record) => lemma_inserted_sorted(tree_of(entries.drop_last()), record),
        }
    }
}

/// Whether a directory holds nothing but empty directories: each of its
/// entries is a directory of which, in turn, the same is true.
pub open spec fn only_empty_directories(entries: Seq<DirEntryView>) -> bool
    decreases entries,
{
    entries.len() == 0 || (only_empty_directories(entries.drop_last()) && match entries.last().node {
        NodeView::File { .. } => false,
        NodeView::Directory { entries: below } => only_empty_directories(below),
    })
}

/// A directory that holds nothing but empty directories yields no tree, at
/// any level, and nothing is stored for it.
pub proof fn lemma_empty_directories_yield_nothing(entries: Seq<DirEntryView>)
    requires
        only_empty_directories(entries),
    ensures
        tree_of(entries) == Seq::<EntryView>::empty(),
        tree_id(entries) is None,
        written(entries) == Seq::<Seq<u8>>::empty(),
    decreases entries,
{
    if entries.len() > 0 {
        lemma_empty_directories_yield_nothing(entries.drop_last());
        match entries.last().node {
            NodeView::File { .. } => {},
            NodeView::Directory { entries: below } => {
                lemma_empty_directories_yield_nothing(below);
            },
        }
        assert(entry_record(entries.last()) is None);
        assert(written_by(entries.last()) =~= Seq::<Seq<u8>>::empty());
        assert(written_below(entries) =~= Seq::<Seq<u8>>::empty());
    } else {
        assert(written_below(entries) =~= Seq::<Seq<u8>>::empty());
    }
}

/// A directory yields a tree exactly where one of its entries adds to it:
/// an entry that is not under the reserved name and is a file, or a
/// subdirectory that yields a tree itself.
pub proof fn lemma_tree_id_some(entries: Seq<DirEntryView>)
    ensures
        tree_id(entries) is Some <==> exists|i: int|
            0 <= i < entries.len() && #[trigger] entry_record(entries[i]) is Some,
    decreases entries.len(),
{
    if entries.len() > 0 {
        let front = entries.drop_last();
        lemma_tree_id_some(front);
        lemma_tree_of_sorted(front);
        if entry_record(entries.last()) is Some {
            lemma_inserted_sorted(tree_of(front), entry_record(entries.last())->Some_0);
            assert(entry_record(entries[entries.len() - 1]) is Some);
        } else if tree_id(front) is Some {
            let i = choose|i: int| 0 <= i < front.len() && #[trigger] entry_record(front[i]) is Some;
            assert(entries[i] == front[i]);
        } else {
            assert forall|i: int| 0 <= i < entries.len() implies !(#[trigger] entry_record(
                entries[i],
            ) is Some) by {
                if i < front.len() {
                    assert(entries[i] == front[i]);
                }
            }
        }
    }
}

/// Nothing is stored for a directory that yields no tree: neither a tree of
/// its own, nor anything for what lies below it.
pub proof fn lemma_nothing_stored_without_tree(entries: Seq<DirEntryView>)
    requires
        tree_id(entries) is None,
    ensures
        written(entries) == Seq::<Seq<u8>>::empty(),
    decreases entries,
{
    if entries.len() == 0 {
        assert(written_below(entries) =~= Seq::<Seq<u8>>::empty());
    } else {
        let front = entries.drop_last();
        let last = entries.last();
        lemma_tree_of_sorted(front);
        match entry_record(last) {
            Some(record) => {
                lemma_inserted_sorted(tree_of(front), record);
            },
            None => {},
        }
        assert(entry_record(last) is None);
        assert(tree_id(front) is None);
        lemma_nothing_stored_without_tree(front);
        if last.name != reserved_name() {
            match last.node {
                NodeView::File { .. } => {},
                NodeView::Directory { entries: below } => {
                    lemma_nothing_stored_without_tree(below);
                },
            }
        }
        assert(written_by(last) =~= Seq::<Seq<u8>>::empty());
        assert(written_below(entries) =~= Seq::<Seq<u8>>::empty());
    }
}

/// Whether an entry adds nothing to the tree of its directory: it stands
/// under the reserved name, or it is a subdirectory that yields no tree.
pub open spec fn adds_nothing(entry: DirEntryView) -> bool {
    entry.name == reserved_name() || match entry.node {
        NodeView::File { .. } => false,
        NodeView::Directory { entries } => tree_id(entries) is None,
    }
}

/// A directory yields no tree exactly where every one of its entries stands
/// under the reserved name or is a subdirectory that yields no tree.
pub proof fn lemma_no_root(entries: Seq<DirEntryView>)
    ensures
        tree_id(entries) is None <==> forall|i: int|
            0 <= i < entries.len() ==> adds_nothing(#[trigger] entries[i]),
{
    lemma_tree_id_some(entries);
    assert forall|i: int| 0 <= i < entries.len() implies (adds_nothing(#[trigger] entries[i])
        <==> entry_record(entries[i]) is None) by {}
    if tree_id(entries) is Some {
        let i = choose|i: int| 0 <= i < entries.len() && #[trigger] entry_record(entries[i]) is Some;
        assert(!adds_nothing(entries[i]));
    }
}

/// The compressor cannot fail for a directory that yields no tree: there
/// is nothing for it to compress.
pub proof fn lemma_nothing_to_compress(entries: Seq<DirEntryView>)
    requires
        tree_id(entries) is None,
    ensures
        !compressor_fails(written(entries)),
{
    lemma_nothing_stored_without_tree(entries);
}

/// Whether no two entries of a directory share a name.
pub open spec fn distinct_entry_names(entries: Seq<DirEntryView>) -> bool {
    forall|i: int, j: int|
        0 <= i < j < entries.len() ==> (#[trigger] entries[i]).name != (#[trigger] entries[j]).name
}

/// The tree of a directory holds what its entries add to it, and nothing
/// else.
pub proof fn lemma_tree_of_contains(entries: Seq<DirEntryView>, record: EntryView)
    ensures
        tree_of(entries).contains(record) <==> exists|i: int|
            0 <= i < entries.len() && #[trigger] entry_record(entries[i]) == Some(record),
    decreases entries.len(),
{
    if entries.len() == 0 {
        assert(!tree_of(entries).contains(record));
    } else {
        let front = entries.drop_last();
        let last = entries.last();
        lemma_tree_of_contains(front, record);
        match entry_record(last) {
            None => {},
            Some(added) => lemma_inserted_contains(tree_of(front), added, record),
        }
        if tree_of(front).contains(record) {
            let i = choose|i: int|
                0 <= i < front.len() && #[trigger] entry_record(front[i]) == Some(record);
            assert(entries[i] == front[i]);
        }
        if entry_record(last) == Some(record) {
            assert(entries[entries.len() - 1] == last);
        }
        if exists|i: int|
            0 <= i < entries.len() && #[trigger] entry_record(entries[i]) == Some(record) {
            let i = choose|i: int|
                0 <= i < entries.len() && #[trigger] entry_record(entries[i]) == Some(record);
            if i < front.len() {
                assert(front[i] == entries[i]);
            }
        }
    }
}

/// Where no two entries of a directory share a name, no two entries of its
/// tree do.
pub proof fn lemma_tree_of_distinct(entries: Seq<DirEntryView>)
    requires
        distinct_entry_names(entries),
    ensures
        distinct_names(tree_of(entries)),
    decreases entries.len(),
{
    if entries.len() > 0 {
        let front = entries.drop_last();
        let last = entries.last();
        assert(distinct_entry_names(front)) by {
            assert forall|i: int, j: int| 0 <= i < j < front.len() implies (
            #[trigger] front[i]).name != (#[trigger] front[j]).name by {
                assert(front[i] == entries[i] && front[j] == entries[j]);
            }
        }
        lemma_tree_of_distinct(front);
        match entry_record(last) {
            None => {},
            Some(added) => {
                let tree = tree_of(front);
                assert forall|k: int| 0 <= k < tree.len() implies (#[trigger] tree[k]).name
                    != added.name by {
                    assert(tree.contains(tree[k]));
                    lemma_tree_of_contains(front, tree[k]);
                    let i = choose|i: int|
                        0 <= i < front.len() && #[trigger] entry_record(front[i]) == Some(tree[k]);
                    assert(front[i] == entries[i]);
                    assert(entries[i].name != entries[entries.len() - 1].name);
                }
                lemma_inserted_distinct(tree, added);
            },
        }
    }
}

/// The order in which a directory is enumerated does not matter: two
/// enumerations of the same entries, each name once, give the same tree and
/// the same digest.
pub proof fn lemma_tree_order_independent(a: Seq<DirEntryView>, b: Seq<DirEntryView>)
    requires
        distinct_entry_names(a),
        distinct_entry_names(b),
        forall|e: DirEntryView| a.contains(e) <==> b.contains(e),
    ensures
        tree_of(a) == tree_of(b),
        tree_id(a) == tree_id(b),
{
    lemma_tree_of_sorted(a);
    lemma_tree_of_sorted(b);
    lemma_tree_of_distinct(a);
    lemma_tree_of_distinct(b);
    assert forall|r: EntryView| tree_of(a).contains(r) <==> tree_of(b).contains(r) by {
        lemma_tree_of_contains(a, r);
        lemma_tree_of_contains(b, r);
        if tree_of(a).contains(r) {
            let i = choose|i: int| 0 <= i < a.len() && #[trigger] entry_record(a[i]) == Some(r);
            assert(a.contains(a[i]));
            let j = choose|j: int| 0 <= j < b.len() && b[j] == a[i];
            assert(entry_record(b[j]) == Some(r));
        }
        if tree_of(b).contains(r) {
            let i = choose|i: int| 0 <= i < b.len() && #[trigger] entry_record(b[i]) == Some(r);
            assert(b.contains(b[i]));
            let j = choose|j: int| 0 <= j < a.len() && a[j] == b[i];
            assert(entry_record(a[j]) == Some(r));
        }
    }
    lemma_sorted_unique(tree_of(a), tree_of(b));
}

/// The values of the first entries of a directory, with one entry more.
proof fn lemma_listing_step(entries: Seq<DirEntry>, i: int)
    requires
        0 <= i < entries.len(),
    ensures
        listing(entries.take(i + 1)) == listing(entries.take(i)).push(entries[i]@),
        listing(entries.take(i + 1)).drop_last() == listing(entries.take(i)),
        listing(entries.take(i + 1)).last() == entries[i]@,
{
    assert(entries.take(i + 1).drop_last() =~= entries.take(i));
    assert(entries.take(i + 1).last() == entries[i]);
    assert(listing(entries.take(i)).push(entries[i]@).drop_last() =~= listing(entries.take(i)));
}

/// Snapshots the entries of one directory into `store`.
fn snapshot_into(entries: &Vec<DirEntry>, store: &mut Vec<StoredObject>) -> (r: Result<
    Option<ObjectDigest>,
    Error,
>)
    ensures
        match r {
            Ok(root) => {
                &&& all_listable(listing(entries@))
                &&& same_digest(root, tree_id(listing(entries@)))
                &&& final(store)@.len() == old(store)@.len() + written(listing(entries@)).len()
                &&& final(store)@.take(old(store)@.len() as int) == old(store)@
                &&& stored_as(
                    final(store)@.skip(old(store)@.len() as int),
                    written(listing(entries@)),
                )
            },
            Err(e) => (e == Error::MalformedName && !all_listable(listing(entries@))) || (e
                == Error::Compression && compressor_fails(written(listing(entries@)))),
        },
    decreases entries,
{
    let ghost before = store@;
    let mut tree = Tree::new();
    let mut i: usize = 0;
    assert(entries@.take(0) =~= Seq::<DirEntry>::empty());
    assert(store@.take(before.len() as int) =~= before);
    assert(store@.skip(before.len() as int) =~= Seq::<StoredObject>::empty());
    while i < entries.len()
        invariant
            i <= entries@.len(),
            before == old(store)@,
            all_listable(listing(entries@.take(i as int))),
            tree@ == tree_of(listing(entries@.take(i as int))),
            store@.len() == before.len() + written_below(listing(entries@.take(i as int))).len(),
            store@.take(before.len() as int) == before,
            stored_as(
                store@.skip(before.len() as int),
                written_below(listing(entries@.take(i as int))),
            ),
        decreases entries@.len() - i,
    {
        let entry = &entries[i];
        let ghost done = listing(entries@.take(i as int));
        let ghost upto = listing(entries@.take(i + 1));
        let ghost held = store@;
        proof {
            lemma_listing_step(entries@, i as int);
            if !listable(entry@) {
                assert(!all_listable(upto));
                lemma_not_listable_grows(entries@, i + 1);
            }
        }
        if !is_reserved(entry.name.as_slice()) {
            if !is_valid_name(entry.name.as_slice()) {
                assert(!listable(entry@));
                return Err(Error::MalformedName);
            }
            let name = copy_range(entry.name.as_slice(), 0, entry.name.len());
            assert(name@ =~= entry.name@);
            match &entry.node {
                Node::File { is_symlink, permissions, content } => {
                    let mode = EntryMode::classify(false, *is_symlink, *permissions);
                    let stored = match store_content(ObjectKind::Blob, content.as_slice()) {
                        Ok(stored) => stored,
                        Err(e) => {
                            proof {
                                assert(written_by(entry@)[0] == envelope(
                                    ObjectKind::Blob,
                                    content@,
                                ));
                                lemma_failure_below(entries@, i as int);
                            }
                            return Err(e);
                        },
                    };
                    match TreeEntry::new(mode, name, stored.digest) {
                        Ok(listed) => {
                            assert(entry_record(entry@) == Some(listed@));
                            tree.insert(listed);
                        },
                        Err(e) => {
                            return Err(e);
                        },
                    }
                    assert(tree@ == tree_of(upto));
                    store.push(stored);
                    proof {
                        assert(listable(entry@));
                        assert(store@.take(held.len() as int) =~= held);
                        assert(store@.skip(held.len() as int) =~= seq![stored]);
                        lemma_stored_as_extends(
                            before,
                            held,
                            store@,
                            written_below(done),
                            written_by(entry@),
                        );
                    }
                },
                Node::Directory { entries: children } => {
                    let mode = EntryMode::classify(true, false, 0);
                    match snapshot_into(children, store) {
                        Err(e) => {
                            proof {
                                if e == Error::MalformedName {
                                    assert(!listable(entry@));
                                } else {
                                    assert(written_by(entry@) == written(listing(children@)));
                                    lemma_failure_below(entries@, i as int);
                                }
                            }
                            return Err(e);
                        },
                        Ok(None) => {
                            assert(entry_record(entry@) is None);
                        },
                        Ok(Some(digest)) => {
                            match TreeEntry::new(mode, name, digest) {
                                Ok(listed) => {
                                    assert(entry_record(entry@) == Some(listed@));
                                    tree.insert(listed);
                                },
                                Err(e) => {
                                    return Err(e);
                                },
                            }
                        },
                    }
                    assert(tree@ == tree_of(upto));
                    proof {
                        assert(listable(entry@));
                        lemma_stored_as_extends(
                            before,
                            held,
                            store@,
                            written_below(done),
                            written_by(entry@),
                        );
                    }
                },
            }
        } else {
            assert(listable(entry@));
            assert(entry_record(entry@) is None);
            assert(tree@ == tree_of(upto));
            assert(written_by(entry@) =~= Seq::<Seq<u8>>::empty());
            assert(written_below(upto) =~= written_below(done) + written_by(entry@));
            assert(written_below(upto) =~= written_below(done));
        }
        i = i + 1;
    }
    assert(entries@.take(i as int) =~= entries@);
    let ghost all = listing(entries@);
    if tree.is_empty() {
        return Ok(None);
    }
    let content = tree.encode();
    let stored = match store_content(ObjectKind::Tree, content.as_slice()) {
        Ok(stored) => stored,
        Err(e) => {
            proof {
                let last = written(all).len() - 1;
                assert(written(all)[last] == envelope(ObjectKind::Tree, tree_bytes(tree_of(all))));
            }
            return Err(e);
        },
    };
    let root = stored.digest;
    let ghost held = store@;
    store.push(stored);
    proof {
        assert(store@.take(held.len() as int) =~= held);
        assert(store@.skip(held.len() as int) =~= seq![stored]);
        lemma_stored_as_extends(
            before,
            held,
            store@,
            written_below(all),
            seq![envelope(ObjectKind::Tree, tree_bytes(tree_of(all)))],
        );
        assert(written_below(all) + seq![envelope(ObjectKind::Tree, tree_bytes(tree_of(all)))]
            =~= written(all));
    }
    Ok(Some(root))
}

/// The listing of a directory has one value for each entry.
proof fn lemma_listing_len(entries: Seq<DirEntry>)
    ensures
        listing(entries).len() == entries.len(),
    decreases entries.len(),
{
    if entries.len() > 0 {
        lemma_listing_len(entries.drop_last());
    }
}

/// The values in the listing of a directory stand in the order of the
/// entries.
proof fn lemma_listing_index(entries: Seq<DirEntry>, i: int)
    requires
        0 <= i < entries.len(),
    ensures
        listing(entries).len() == entries.len(),
        listing(entries)[i] == entries[i]@,
    decreases entries.len(),
{
    let front = entries.drop_last();
    lemma_listing_len(entries);
    lemma_listing_len(front);
    if i < entries.len() - 1 {
        lemma_listing_index(front, i);
        assert(front[i] == entries[i]);
        assert(listing(entries)[i] == listing(front)[i]);
    } else {
        assert(entries.last() == entries[i]);
    }
}

/// A failure of the compressor on what is stored for one entry of a
/// directory is a failure on what is stored for the directory.
pub proof fn lemma_failure_of_entry(entries: Seq<DirEntryView>, i: int)
    requires
        0 <= i < entries.len(),
        compressor_fails(written_by(entries[i])),
    ensures
        compressor_fails(written_below(entries)),
        compressor_fails(written(entries)),
    decreases entries.len(),
{
    let front = entries.drop_last();
    let below = written_below(entries);
    if i == entries.len() - 1 {
        let part = written_by(entries[i]);
        let k = choose|k: int|
            0 <= k < part.len() && deflated(#[trigger] part[k], DEFAULT_LEVEL) is None;
        assert(below[written_below(front).len() + k] == part[k]);
    } else {
        assert(front[i] == entries[i]);
        lemma_failure_of_entry(front, i);
        let part = written_below(front);
        let k = choose|k: int|
            0 <= k < part.len() && deflated(#[trigger] part[k], DEFAULT_LEVEL) is None;
        assert(below[k] == part[k]);
    }
    let k = choose|k: int|
        0 <= k < below.len() && deflated(#[trigger] below[k], DEFAULT_LEVEL) is None;
    assert(written(entries)[k] == below[k]);
}

/// The same, for the entries as they are given.
proof fn lemma_failure_below(entries: Seq<DirEntry>, i: int)
    requires
        0 <= i < entries.len(),
        compressor_fails(written_by(entries[i]@)),
    ensures
        compressor_fails(written(listing(entries))),
{
    lemma_listing_index(entries, i);
    lemma_failure_of_entry(listing(entries), i);
}

/// A directory with an entry that cannot be listed among its first entries
/// has one among all of them.
proof fn lemma_not_listable_grows(entries: Seq<DirEntry>, upto: int)
    requires
        0 <= upto <= entries.len(),
        !all_listable(listing(entries.take(upto))),
    ensures
        !all_listable(listing(entries)),
    decreases entries.len() - upto,
{
    if upto < entries.len() {
        lemma_listing_step(entries, upto);
        lemma_not_listable_grows(entries, upto + 1);
    } else {
        assert(entries.take(upto) =~= entries);
    }
}

/// A store that held stored forms of some envelopes behind what it held
/// before, and has since got stored forms of more envelopes behind those,
/// holds stored forms of all of them.
proof fn lemma_stored_as_extends(
    before: Seq<StoredObject>,
    held: Seq<StoredObject>,
    now: Seq<StoredObject>,
    first: Seq<Seq<u8>>,
    more: Seq<Seq<u8>>,
)
    requires
        held.len() == before.len() + first.len(),
        held.take(before.len() as int) == before,
        stored_as(held.skip(before.len() as int), first),
        now.len() == held.len() + more.len(),
        now.take(held.len() as int) == held,
        stored_as(now.skip(held.len() as int), more),
    ensures
        now.len() == before.len() + (first + more).len(),
        now.take(before.len() as int) == before,
        stored_as(now.skip(before.len() as int), first + more),
{
    assert(now.take(before.len() as int) =~= held.take(before.len() as int)) by {
        assert forall|k: int| 0 <= k < before.len() implies now[k] == held[k] by {
            assert(now.take(held.len() as int)[k] == held[k]);
        }
    }
    let tail = now.skip(before.len() as int);
    assert forall|k: int| 0 <= k < tail.len() implies stored_form(
        #[trigger] tail[k],
        (first + more)[k],
    ) by {
        if k < first.len() {
            assert(now.take(held.len() as int)[before.len() + k] == held[before.len() + k]);
            assert(tail[k] == held.skip(before.len() as int)[k]);
        } else {
            assert(tail[k] == now.skip(held.len() as int)[k - first.len()]);
        }
    }
}

/// Snapshots a directory: stores every file as a blob and every
/// subdirectory as a tree, and lists them by name in the tree of the
/// directory.
///
/// The entry with the reserved name is left out, and so is a subdirectory
/// whose own tree has no entry. Where the tree of the directory has no
/// entry, nothing is stored and there is no root; else the root tree is the
/// last of the objects. A name that holds a NUL makes the snapshot fail; the
/// only other failure is one of the compressor on the envelope of one of the
/// objects. So the snapshot succeeds wherever every name can be listed and
/// the compressor writes a stream for every envelope, and always where
/// nothing is stored.
pub fn snapshot(entries: &Vec<DirEntry>) -> (r: Result<Snapshot, Error>)
    ensures
        match r {
            Ok(outcome) => {
                &&& all_listable(listing(entries@))
                &&& same_digest(outcome.root, tree_id(listing(entries@)))
                &&& stored_as(outcome.objects@, written(listing(entries@)))
                &&& sorted(tree_of(listing(entries@)))
                &&& match outcome.root {
                    Some(digest) => outcome.objects@.len() > 0 && outcome.objects@.last().digest@
                        == digest@,
                    None => outcome.objects@.len() == 0,
                }
            },
            Err(e) => (e == Error::MalformedName && !all_listable(listing(entries@))) || (e
                == Error::Compression && compressor_fails(written(listing(entries@)))),
        },
        all_listable(listing(entries@)) && !compressor_fails(written(listing(entries@))) ==> r
            is Ok,
        all_listable(listing(entries@)) && tree_id(listing(entries@)) is None ==> r is Ok,
{
    proof {
        if tree_id(listing(entries@)) is None {
            lemma_nothing_to_compress(listing(entries@));
        }
    }
    let mut objects: Vec<StoredObject> = Vec::new();
    match snapshot_into(entries, &mut objects) {
        Ok(root) => {
            proof {
                lemma_tree_of_sorted(listing(entries@));
                if root is None {
                    lemma_nothing_stored_without_tree(listing(entries@));
                }
            }
            assert(objects@.skip(0) =~= objects@);
            Ok(Snapshot { root, objects })
        },
        Err(e) => Err(e),
    }
}

} // verus!
