//! Tree objects: entries of a mode, a name and the digest of a child, kept in
//! name order and written one after another.

use crate::bytes::{append_range, copy_range, equal, find_from, lemma_first_from};
use crate::codec::{Object, ObjectView, NUL, SPACE};
use crate::digest::{ObjectDigest, DIGEST_LEN};
use crate::error::Error;
use crate::kind::ObjectKind;
use crate::order::{lemma_name_order, name_le, names_in_order};
use vstd::prelude::*;

verus! {

/// The permission bits that mark a file as executable: one for the owner,
/// one for the group, one for the others.
pub const EXECUTE_BITS: u32 = 0o111;

/// What a tree entry points at.
#[derive(Clone, Copy, Debug, PartialEq, Eq, Structural)]
pub enum EntryMode {
    RegularFile,
    ExecutableFile,
    Symlink,
    Directory,
}

impl EntryMode {
    /// The mode as it is written in a tree: `100644`, `100755`, `120000` or
    /// `40000`.
    pub open spec fn text(self) -> Seq<u8> {
        match self {
            EntryMode::RegularFile => seq![
                '1' as u8,
                '0' as u8,
                '0' as u8,
                '6' as u8,
                '4' as u8,
                '4' as u8,
            ],
            EntryMode::ExecutableFile => seq![
                '1' as u8,
                '0' as u8,
                '0' as u8,
                '7' as u8,
                '5' as u8,
                '5' as u8,
            ],
            EntryMode::Symlink => seq![
                '1' as u8,
                '2' as u8,
                '0' as u8,
                '0' as u8,
                '0' as u8,
                '0' as u8,
            ],
            EntryMode::Directory => seq!['4' as u8, '0' as u8, '0' as u8, '0' as u8, '0' as u8],
        }
    }

    /// The mode that `token` spells, if it spells one.
    pub open spec fn of_text(token: Seq<u8>) -> Option<EntryMode> {
        if token == EntryMode::RegularFile.text() {
            Some(EntryMode::RegularFile)
        } else if token == EntryMode::ExecutableFile.text() {
            Some(EntryMode::ExecutableFile)
        } else if token == EntryMode::Symlink.text() {
            Some(EntryMode::Symlink)
        } else if token == EntryMode::Directory.text() {
            Some(EntryMode::Directory)
        } else {
            None
        }
    }

    /// The mode of a directory entry: a directory, else a symlink, else a
    /// file that is executable where any execute permission bit is set.
    pub open spec fn classified(is_directory: bool, is_symlink: bool, permissions: u32) -> EntryMode {
        if is_directory {
            EntryMode::Directory
        } else if is_symlink {
            EntryMode::Symlink
        } else if permissions & EXECUTE_BITS != 0 {
            EntryMode::ExecutableFile
        } else {
            EntryMode::RegularFile
        }
    }

    /// The mode of a directory entry, from what the enumerator of a
    /// directory says of it.
    pub fn classify(is_directory: bool, is_symlink: bool, permissions: u32) -> (r: EntryMode)
        ensures
            r == EntryMode::classified(is_directory, is_symlink, permissions),
    {
        if is_directory {
            EntryMode::Directory
        } else if is_symlink {
            EntryMode::Symlink
        } else if permissions & EXECUTE_BITS != 0 {
            EntryMode::ExecutableFile
        } else {
            EntryMode::RegularFile
        }
    }

    /// Appends the text of this mode to `out`.
    pub fn write_text(&self, out: &mut Vec<u8>)
        ensures
            final(out)@ == old(out)@ + self.text(),
    {
        match self {
            EntryMode::RegularFile => {
                out.push('1' as u8);
                out.push('0' as u8);
                out.push('0' as u8);
                out.push('6' as u8);
                out.push('4' as u8);
                out.push('4' as u8);
            },
            EntryMode::ExecutableFile => {
                out.push('1' as u8);
                out.push('0' as u8);
                out.push('0' as u8);
                out.push('7' as u8);
                out.push('5' as u8);
                out.push('5' as u8);
            },
            EntryMode::Symlink => {
                out.push('1' as u8);
                out.push('2' as u8);
                out.push('0' as u8);
                out.push('0' as u8);
                out.push('0' as u8);
                out.push('0' as u8);
            },
            EntryMode::Directory => {
                out.push('4' as u8);
                out.push('0' as u8);
                out.push('0' as u8);
                out.push('0' as u8);
                out.push('0' as u8);
            },
        }
        assert(final(out)@ =~= old(out)@ + self.text());
    }

    /// Reads the text of a mode. Any token but the four texts, spelled
    /// exactly, stands for no mode.
    pub fn from_text(token: &[u8]) -> (r: Option<EntryMode>)
        ensures
            r == EntryMode::of_text(token@),
    {
        let mut text: Vec<u8> = Vec::new();
        EntryMode::RegularFile.write_text(&mut text);
        if equal(token, text.as_slice()) {
            return Some(EntryMode::RegularFile);
        }
        text.clear();
        EntryMode::ExecutableFile.write_text(&mut text);
        if equal(token, text.as_slice()) {
            return Some(EntryMode::ExecutableFile);
        }
        text.clear();
        EntryMode::Symlink.write_text(&mut text);
        if equal(token, text.as_slice()) {
            return Some(EntryMode::Symlink);
        }
        text.clear();
        EntryMode::Directory.write_text(&mut text);
        if equal(token, text.as_slice()) {
            return Some(EntryMode::Directory);
        }
        None
    }

    /// Every mode is found again under its own text, which is made of
    /// digits.
    pub proof fn lemma_of_text(self)
        ensures
            EntryMode::of_text(self.text()) == Some(self),
            self.text().len() >= 1,
            forall|i: int|
                0 <= i < self.text().len() ==> '0' as u8 <= #[trigger] self.text()[i] <= '9' as u8,
    {
        assert(EntryMode::RegularFile.text()[3] != EntryMode::ExecutableFile.text()[3]);
        assert(EntryMode::RegularFile.text()[1] != EntryMode::Symlink.text()[1]);
        assert(EntryMode::ExecutableFile.text()[1] != EntryMode::Symlink.text()[1]);
        assert(EntryMode::RegularFile.text().len() != EntryMode::Directory.text().len());
        assert(EntryMode::ExecutableFile.text().len() != EntryMode::Directory.text().len());
        assert(EntryMode::Symlink.text().len() != EntryMode::Directory.text().len());
    }
}

/// The mathematical value of a tree entry.
pub struct EntryView {
    pub mode: EntryMode,
    pub name: Seq<u8>,
    pub digest: Seq<u8>,
}

impl EntryView {
    /// Whether this is a well-formed entry: the name holds no NUL, and the
    /// digest has 20 bytes.
    pub open spec fn wf(self) -> bool {
        &&& !self.name.contains(NUL)
        &&& self.digest.len() == DIGEST_LEN
    }

    /// The bytes of this entry in a tree: the mode, a space, the name, a
    /// NUL, then the raw digest.
    pub open spec fn bytes(self) -> Seq<u8> {
        self.mode.text().push(SPACE) + self.name.push(NUL) + self.digest
    }
}

/// Whether `name` can be the name of a tree entry: it holds no NUL.
pub fn is_valid_name(name: &[u8]) -> (r: bool)
    ensures
        r == !name@.contains(NUL),
{
    let at = find_from(name, NUL, 0);
    proof {
        lemma_first_from(name@, NUL, 0);
        if at < name@.len() {
            assert(name@[at as int] == NUL);
        }
    }
    at >= name.len()
}

/// One entry of a tree: the mode, the name and the digest of a child. The
/// name never holds a NUL.
#[derive(Debug, PartialEq, Eq)]
pub struct TreeEntry {
    mode: EntryMode,
    name: Vec<u8>,
    digest: ObjectDigest,
}

impl View for TreeEntry {
    type V = EntryView;

    closed spec fn view(&self) -> EntryView {
        EntryView { mode: self.mode, name: self.name@, digest: self.digest@ }
    }
}

impl Clone for TreeEntry {
    fn clone(&self) -> (r: TreeEntry)
        ensures
            r@ == self@,
    {
        proof {
            use_type_invariant(self);
        }
        let name = copy_range(self.name.as_slice(), 0, self.name.len());
        assert(name@ =~= self.name@);
        TreeEntry { mode: self.mode, name, digest: self.digest }
    }
}

impl TreeEntry {
    #[verifier::type_invariant]
    spec fn name_holds_no_nul(self) -> bool {
        !self.name@.contains(NUL)
    }

    /// An entry of the given mode, name and digest. A name that holds a NUL
    /// is refused.
    pub fn new(mode: EntryMode, name: Vec<u8>, digest: ObjectDigest) -> (r: Result<
        TreeEntry,
        Error,
    >)
        ensures
            match r {
                Ok(entry) => !name@.contains(NUL) && entry@ == (EntryView {
                    mode,
                    name: name@,
                    digest: digest@,
                }) && entry@.wf(),
                Err(e) => name@.contains(NUL) && e == Error::MalformedName,
            },
    {
        if is_valid_name(name.as_slice()) {
            Ok(TreeEntry { mode, name, digest })
        } else {
            Err(Error::MalformedName)
        }
    }

    /// The mode of the entry.
    pub fn mode(&self) -> (r: EntryMode)
        ensures
            r == self@.mode,
    {
        self.mode
    }

    /// The name of the entry.
    pub fn name(&self) -> (r: &[u8])
        ensures
            r@ == self@.name,
            self@.wf(),
    {
        proof {
            use_type_invariant(self);
        }
        self.name.as_slice()
    }

    /// The digest of the child that the entry points at.
    pub fn digest(&self) -> (r: ObjectDigest)
        ensures
            r@ == self@.digest,
    {
        self.digest
    }

    /// Appends the bytes of this entry to `out`.
    pub fn write(&self, out: &mut Vec<u8>)
        ensures
            final(out)@ == old(out)@ + self@.bytes(),
            self@.wf(),
    {
        proof {
            use_type_invariant(self);
        }
        self.mode.write_text(out);
        out.push(SPACE);
        append_range(out, self.name.as_slice(), 0, self.name.len());
        out.push(NUL);
        append_range(out, self.digest.bytes.as_slice(), 0, DIGEST_LEN);
        assert(self.name@.subrange(0, self.name@.len() as int) =~= self.name@);
        assert(self.digest.bytes@.subrange(0, DIGEST_LEN as int) =~= self.digest@);
        assert(final(out)@ =~= old(out)@ + self@.bytes());
    }
}

/// The values of a sequence of entries.
pub open spec fn views(entries: Seq<TreeEntry>) -> Seq<EntryView> {
    entries.map_values(|e: TreeEntry| e@)
}

/// Whether every one of the entries is well-formed.
pub open spec fn all_wf(entries: Seq<EntryView>) -> bool {
    forall|i: int| 0 <= i < entries.len() ==> (#[trigger] entries[i]).wf()
}

/// Whether the entries stand in name order.
pub open spec fn sorted(entries: Seq<EntryView>) -> bool {
    forall|i: int, j: int|
        0 <= i < j < entries.len() ==> name_le(#[trigger] entries[i].name, #[trigger] entries[j].name)
}

/// Where an entry of the given name goes into a sequence: behind the last
/// entry whose name may stand before it.
pub open spec fn insertion_index(entries: Seq<EntryView>, name: Seq<u8>) -> int
    decreases entries.len(),
{
    if entries.len() == 0 {
        0
    } else if name_le(entries.last().name, name) {
        entries.len() as int
    } else {
        insertion_index(entries.drop_last(), name)
    }
}

/// The sequence with one more entry, put where its name belongs.
pub open spec fn inserted(entries: Seq<EntryView>, entry: EntryView) -> Seq<EntryView> {
    entries.insert(insertion_index(entries, entry.name), entry)
}

/// The entries in name order: each one inserted in turn, so that entries of
/// one name keep the order in which they came.
pub open spec fn sorted_entries(entries: Seq<EntryView>) -> Seq<EntryView>
    decreases entries.len(),
{
    if entries.len() == 0 {
        Seq::empty()
    } else {
        inserted(sorted_entries(entries.drop_last()), entries.last())
    }
}

/// The content of a tree object: the bytes of its entries one after another,
/// with nothing between them.
pub open spec fn tree_bytes(entries: Seq<EntryView>) -> Seq<u8>
    decreases entries.len(),
{
    if entries.len() == 0 {
        Seq::empty()
    } else {
        tree_bytes(entries.drop_last()) + entries.last().bytes()
    }
}

/// The insertion index lies within the sequence; every entry at or behind
/// it has a name that may not stand before the new one, and the entry just
/// before it has a name that may.
pub proof fn lemma_insertion_index(entries: Seq<EntryView>, name: Seq<u8>)
    ensures
        0 <= insertion_index(entries, name) <= entries.len(),
        forall|j: int|
            insertion_index(entries, name) <= j < entries.len() ==> !name_le(
                #[trigger] entries[j].name,
                name,
            ),
        insertion_index(entries, name) > 0 ==> name_le(
            entries[insertion_index(entries, name) - 1].name,
            name,
        ),
    decreases entries.len(),
{
    if entries.len() > 0 && !name_le(entries.last().name, name) {
        let front = entries.drop_last();
        lemma_insertion_index(front, name);
        assert forall|j: int| insertion_index(entries, name) <= j < entries.len() implies !name_le(
            #[trigger] entries[j].name,
            name,
        ) by {
            if j < front.len() {
                assert(entries[j] == front[j]);
            }
        }
        if insertion_index(entries, name) > 0 {
            assert(entries[insertion_index(entries, name) - 1] == front[insertion_index(
                front,
                name,
            ) - 1]);
        }
    }
}

/// Inserting into a sequence in name order leaves it in name order, with
/// one entry more.
pub proof fn lemma_inserted_sorted(entries: Seq<EntryView>, entry: EntryView)
    requires
        sorted(entries),
    ensures
        sorted(inserted(entries, entry)),
        inserted(entries, entry).len() == entries.len() + 1,
{
    let at = insertion_index(entries, entry.name);
    let after = inserted(entries, entry);
    lemma_insertion_index(entries, entry.name);
    assert forall|i: int, j: int| 0 <= i < j < after.len() implies name_le(
        #[trigger] after[i].name,
        #[trigger] after[j].name,
    ) by {
        if j < at {
            assert(after[i] == entries[i] && after[j] == entries[j]);
        } else if j == at {
            assert(after[i] == entries[i]);
            if i < at - 1 {
                lemma_name_order(entries[i].name, entries[at - 1].name, entry.name);
            }
        } else if i < at {
            assert(after[i] == entries[i] && after[j] == entries[j - 1]);
        } else if i == at {
            assert(after[j] == entries[j - 1]);
            lemma_name_order(entry.name, entries[j - 1].name, entry.name);
        } else {
            assert(after[i] == entries[i - 1] && after[j] == entries[j - 1]);
        }
    }
}

/// Sorting puts the entries in name order and keeps their number.
pub proof fn lemma_sorted_entries(entries: Seq<EntryView>)
    ensures
        sorted(sorted_entries(entries)),
        sorted_entries(entries).len() == entries.len(),
    decreases entries.len(),
{
    if entries.len() > 0 {
        lemma_sorted_entries(entries.drop_last());
        lemma_inserted_sorted(sorted_entries(entries.drop_last()), entries.last());
    }
}

/// Whether no two of the entries share a name.
pub open spec fn distinct_names(entries: Seq<EntryView>) -> bool {
    forall|i: int, j: int|
        0 <= i < j < entries.len() ==> (#[trigger] entries[i]).name != (#[trigger] entries[j]).name
}

/// Inserting adds the new entry and nothing else.
pub proof fn lemma_inserted_contains(entries: Seq<EntryView>, entry: EntryView, other: EntryView)
    ensures
        inserted(entries, entry).contains(other) <==> entries.contains(other) || other == entry,
{
    let at = insertion_index(entries, entry.name);
    let after = inserted(entries, entry);
    lemma_insertion_index(entries, entry.name);
    if entries.contains(other) {
        let i = choose|i: int| 0 <= i < entries.len() && entries[i] == other;
        if i < at {
            assert(after[i] == other);
        } else {
            assert(after[i + 1] == other);
        }
    }
    if other == entry {
        assert(after[at] == other);
    }
    if after.contains(other) {
        let k = choose|k: int| 0 <= k < after.len() && after[k] == other;
        if k < at {
            assert(entries[k] == other);
        } else if k > at {
            assert(entries[k - 1] == other);
        }
    }
}

/// Inserting an entry under a name that no entry has keeps the names
/// distinct.
pub proof fn lemma_inserted_distinct(entries: Seq<EntryView>, entry: EntryView)
    requires
        distinct_names(entries),
        forall|i: int| 0 <= i < entries.len() ==> (#[trigger] entries[i]).name != entry.name,
    ensures
        distinct_names(inserted(entries, entry)),
{
    let at = insertion_index(entries, entry.name);
    let after = inserted(entries, entry);
    lemma_insertion_index(entries, entry.name);
    assert forall|i: int, j: int| 0 <= i < j < after.len() implies (#[trigger] after[i]).name != (
    #[trigger] after[j]).name by {
        let origin_i = if i < at {
            i
        } else {
            i - 1
        };
        let origin_j = if j < at {
            j
        } else {
            j - 1
        };
        if i != at {
            assert(after[i] == entries[origin_i]);
        }
        if j != at {
            assert(after[j] == entries[origin_j]);
        }
    }
}

/// The name order leaves no choice: two sequences in name order, each
/// without a repeated name, that hold the same entries are equal.
pub proof fn lemma_sorted_unique(a: Seq<EntryView>, b: Seq<EntryView>)
    requires
        sorted(a),
        sorted(b),
        distinct_names(a),
        distinct_names(b),
        forall|e: EntryView| a.contains(e) <==> b.contains(e),
    ensures
        a == b,
    decreases a.len(),
{
    if a.len() == 0 {
        if b.len() > 0 {
            assert(b.contains(b[0]));
        }
        assert(a =~= b);
    } else if b.len() == 0 {
        assert(a.contains(a[0]));
    } else {
        assert(a.contains(a[0]));
        assert(b.contains(b[0]));
        let j = choose|j: int| 0 <= j < b.len() && b[j] == a[0];
        let i = choose|i: int| 0 <= i < a.len() && a[i] == b[0];
        if i > 0 && j > 0 {
            assert(name_le(a[0].name, a[i].name));
            assert(name_le(b[0].name, b[j].name));
            lemma_name_order(a[0].name, a[i].name, a[0].name);
        }
        assert(a[0] == b[0]);
        let a_rest = a.drop_first();
        let b_rest = b.drop_first();
        assert forall|e: EntryView| a_rest.contains(e) <==> b_rest.contains(e) by {
            if a_rest.contains(e) {
                let k = choose|k: int| 0 <= k < a_rest.len() && a_rest[k] == e;
                assert(a[k + 1] == e);
                assert(a.contains(e));
                let m = choose|m: int| 0 <= m < b.len() && b[m] == e;
                assert(m > 0) by {
                    if m == 0 {
                        assert(a[0].name == a[k + 1].name);
                    }
                }
                assert(b_rest[m - 1] == e);
            }
            if b_rest.contains(e) {
                let k = choose|k: int| 0 <= k < b_rest.len() && b_rest[k] == e;
                assert(b[k + 1] == e);
                assert(b.contains(e));
                let m = choose|m: int| 0 <= m < a.len() && a[m] == e;
                assert(m > 0) by {
                    if m == 0 {
                        assert(b[0].name == b[k + 1].name);
                    }
                }
                assert(a_rest[m - 1] == e);
            }
        }
        assert(sorted(a_rest)) by {
            assert forall|x: int, y: int| 0 <= x < y < a_rest.len() implies name_le(
                #[trigger] a_rest[x].name,
                #[trigger] a_rest[y].name,
            ) by {
                assert(a_rest[x] == a[x + 1] && a_rest[y] == a[y + 1]);
            }
        }
        assert(sorted(b_rest)) by {
            assert forall|x: int, y: int| 0 <= x < y < b_rest.len() implies name_le(
                #[trigger] b_rest[x].name,
                #[trigger] b_rest[y].name,
            ) by {
                assert(b_rest[x] == b[x + 1] && b_rest[y] == b[y + 1]);
            }
        }
        assert(distinct_names(a_rest)) by {
            assert forall|x: int, y: int| 0 <= x < y < a_rest.len() implies (
            #[trigger] a_rest[x]).name != (#[trigger] a_rest[y]).name by {
                assert(a_rest[x] == a[x + 1] && a_rest[y] == a[y + 1]);
            }
        }
        assert(distinct_names(b_rest)) by {
            assert forall|x: int, y: int| 0 <= x < y < b_rest.len() implies (
            #[trigger] b_rest[x]).name != (#[trigger] b_rest[y]).name by {
                assert(b_rest[x] == b[x + 1] && b_rest[y] == b[y + 1]);
            }
        }
        lemma_sorted_unique(a_rest, b_rest);
        assert(a =~= seq![a[0]] + a_rest);
        assert(b =~= seq![b[0]] + b_rest);
    }
}

/// The entries of a tree, kept in name order.
#[derive(Debug, PartialEq, Eq)]
pub struct Tree {
    entries: Vec<TreeEntry>,
}

impl View for Tree {
    type V = Seq<EntryView>;

    closed spec fn view(&self) -> Seq<EntryView> {
        views(self.entries@)
    }
}

impl Tree {
    #[verifier::type_invariant]
    spec fn in_name_order(self) -> bool {
        sorted(views(self.entries@)) && all_wf(views(self.entries@))
    }

    /// A tree without entries.
    pub fn new() -> (r: Tree)
        ensures
            r@ == Seq::<EntryView>::empty(),
    {
        let r = Tree { entries: Vec::new() };
        assert(r@ =~= Seq::<EntryView>::empty());
        r
    }

    /// The number of entries.
    pub fn len(&self) -> (r: usize)
        ensures
            r == self@.len(),
    {
        self.entries.len()
    }

    /// Whether the tree has no entry. Such a tree is never stored.
    pub fn is_empty(&self) -> (r: bool)
        ensures
            r == (self@.len() == 0),
    {
        self.entries.len() == 0
    }

    /// The entries, in name order.
    pub fn entries(&self) -> (r: &[TreeEntry])
        ensures
            views(r@) == self@,
            sorted(self@),
            all_wf(self@),
    {
        proof {
            use_type_invariant(self);
        }
        self.entries.as_slice()
    }

    /// Puts an entry where its name belongs: behind every entry whose name
    /// may stand before it.
    pub fn insert(&mut self, entry: TreeEntry)
        ensures
            final(self)@ == inserted(old(self)@, entry@),
            sorted(final(self)@),
    {
        proof {
            use_type_invariant(&*self);
            use_type_invariant(&entry);
        }
        let ghost before = views(self.entries@);
        let mut at: usize = self.entries.len();
        assert(before.take(at as int) =~= before);
        while at > 0 && !names_in_order(self.entries[at - 1].name(), entry.name())
            invariant
                at <= self.entries@.len(),
                before == views(self.entries@),
                insertion_index(before, entry@.name) == insertion_index(
                    before.take(at as int),
                    entry@.name,
                ),
            decreases at,
        {
            assert(before.take(at as int).drop_last() =~= before.take(at - 1));
            at = at - 1;
        }
        let mut entries: Vec<TreeEntry> = Vec::new();
        core::mem::swap(&mut self.entries, &mut entries);
        entries.insert(at, entry);
        proof {
            lemma_inserted_sorted(before, entry@);
            assert(views(entries@) =~= inserted(before, entry@));
            assert forall|k: int| 0 <= k < entries@.len() implies (#[trigger] views(
                entries@,
            )[k]).wf() by {
                if k < at {
                    assert(views(entries@)[k] == before[k]);
                } else if k > at {
                    assert(views(entries@)[k] == before[k - 1]);
                }
            }
        }
        core::mem::swap(&mut self.entries, &mut entries);
    }

    /// The tree of the given entries: sorted by name, entries of one name in
    /// the order in which they were given.
    pub fn from_entries(entries: Vec<TreeEntry>) -> (r: Tree)
        ensures
            r@ == sorted_entries(views(entries@)),
            sorted(r@),
    {
        let mut tree = Tree::new();
        let mut rest = entries;
        let mut held: Vec<TreeEntry> = Vec::new();
        // Take the entries from the back, then insert them front to back.
        while rest.len() > 0
            invariant
                rest@.len() + held@.len() == entries@.len(),
                forall|k: int| 0 <= k < rest@.len() ==> rest@[k] == entries@[k],
                forall|k: int|
                    0 <= k < held@.len() ==> held@[k] == entries@[entries@.len() - 1 - k],
            decreases rest@.len(),
        {
            match rest.pop() {
                Some(entry) => held.push(entry),
                None => {},
            }
        }
        let ghost all = views(entries@);
        assert(all.take(0) =~= Seq::<EntryView>::empty());
        while held.len() > 0
            invariant
                held@.len() <= entries@.len(),
                all == views(entries@),
                forall|k: int|
                    0 <= k < held@.len() ==> held@[k] == entries@[entries@.len() - 1 - k],
                tree@ == sorted_entries(all.take(entries@.len() - held@.len())),
                sorted(tree@),
            decreases held@.len(),
        {
            let ghost done = entries@.len() - held@.len();
            match held.pop() {
                Some(entry) => {
                    assert(entry == entries@[done]);
                    assert(all.take(done + 1).drop_last() =~= all.take(done));
                    assert(all.take(done + 1).last() == entry@);
                    tree.insert(entry);
                },
                None => {},
            }
        }
        assert(all.take(entries@.len() as int) =~= all);
        tree
    }

    /// The tree as an object of kind `tree`, or none where the tree has no
    /// entry: an empty tree is not representable.
    pub fn to_object(&self) -> (r: Option<Object>)
        ensures
            sorted(self@),
            match r {
                Some(object) => self@.len() > 0 && object@ == (ObjectView {
                    kind: ObjectKind::Tree,
                    expected_size: tree_bytes(self@).len() as u64,
                    content: tree_bytes(self@),
                }),
                None => self@.len() == 0,
            },
    {
        if self.is_empty() {
            None
        } else {
            Some(Object::with_content(ObjectKind::Tree, self.encode()))
        }
    }

    /// The content of the tree object: the bytes of the entries in name
    /// order.
    pub fn encode(&self) -> (r: Vec<u8>)
        ensures
            r@ == tree_bytes(self@),
            sorted(self@),
            all_wf(self@),
    {
        proof {
            use_type_invariant(self);
        }
        let mut out: Vec<u8> = Vec::new();
        let mut i: usize = 0;
        assert(self@.take(0) =~= Seq::<EntryView>::empty());
        while i < self.entries.len()
            invariant
                i <= self.entries@.len(),
                out@ == tree_bytes(self@.take(i as int)),
            decreases self.entries@.len() - i,
        {
            self.entries[i].write(&mut out);
            assert(self@.take(i + 1).drop_last() =~= self@.take(i as int));
            assert(self@.take(i + 1).last() == self.entries@[i as int]@);
            i = i + 1;
        }
        assert(self@.take(i as int) =~= self@);
        out
    }
}

} // verus!
