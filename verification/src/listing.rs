//! Reading the content of a tree object back into its entries.

use crate::bytes::{copy_range, find_from, first_from, lemma_first_from, lemma_first_from_is};
use crate::codec::{NUL, SPACE};
use crate::digest::{ObjectDigest, DIGEST_LEN};
use crate::error::Error;
use crate::tree::{all_wf, tree_bytes, views, EntryMode, EntryView, TreeEntry};
use vstd::prelude::*;
use vstd::slice::slice_subrange;

verus! {

/// The entries that the content of a tree object holds from `pos` on.
///
/// Each entry is a mode, up to the first space; a name, up to the first NUL
/// behind that space; and the 20 bytes that follow the NUL. Content that
/// ends within an entry, or spells a mode that is none of the four, is
/// malformed.
pub open spec fn parse_tree_from(content: Seq<u8>, pos: int) -> Result<Seq<EntryView>, Error>
    decreases content.len() - pos,
{
    let gap = first_from(content, SPACE, pos);
    let end = first_from(content, NUL, gap + 1);
    let next = end + 1 + DIGEST_LEN;
    if pos < 0 || pos >= content.len() {
        Ok(Seq::empty())
    } else if !(pos <= gap < end && next <= content.len()) {
        Err(Error::MalformedTree)
    } else {
        match (EntryMode::of_text(content.subrange(pos, gap)), parse_tree_from(content, next)) {
            (None, _) => Err(Error::MalformedTree),
            (Some(_), Err(e)) => Err(e),
            (Some(mode), Ok(rest)) => Ok(
                seq![
                    EntryView {
                        mode,
                        name: content.subrange(gap + 1, end),
                        digest: content.subrange(end + 1, next),
                    },
                ] + rest,
            ),
        }
    }
}

/// The entries that the content of a tree object holds.
pub open spec fn parse_tree(content: Seq<u8>) -> Result<Seq<EntryView>, Error> {
    parse_tree_from(content, 0)
}

/// What has been read, followed by what the rest of the content holds.
pub open spec fn followed_by(read: Seq<EntryView>, rest: Result<Seq<EntryView>, Error>) -> Result<
    Seq<EntryView>,
    Error,
> {
    match rest {
        Ok(entries) => Ok(read + entries),
        Err(e) => Err(e),
    }
}

/// Reads the entries of a tree object from its content, in the order in
/// which they are stored.
pub fn parse_entries(content: &[u8]) -> (r: Result<Vec<TreeEntry>, Error>)
    ensures
        match r {
            Ok(entries) => parse_tree(content@) == Ok::<Seq<EntryView>, Error>(views(entries@))
                && all_wf(views(entries@)),
            Err(e) => parse_tree(content@) == Err::<Seq<EntryView>, Error>(e),
        },
{
    let mut entries: Vec<TreeEntry> = Vec::new();
    let mut pos: usize = 0;
    assert(views(entries@) =~= Seq::<EntryView>::empty());
    assert(followed_by(views(entries@), parse_tree_from(content@, 0)) == parse_tree(content@)) by {
        match parse_tree_from(content@, 0) {
            Ok(all) => assert(Seq::<EntryView>::empty() + all =~= all),
            Err(_) => {},
        }
    }
    while pos < content.len()
        invariant
            pos <= content@.len(),
            all_wf(views(entries@)),
            parse_tree(content@) == followed_by(
                views(entries@),
                parse_tree_from(content@, pos as int),
            ),
        decreases content@.len() - pos,
    {
        let gap = find_from(content, SPACE, pos);
        if gap >= content.len() {
            return Err(Error::MalformedTree);
        }
        let end = find_from(content, NUL, gap + 1);
        if end >= content.len() || content.len() - end <= DIGEST_LEN {
            return Err(Error::MalformedTree);
        }
        let next: usize = end + 1 + DIGEST_LEN;
        let mode = match EntryMode::from_text(slice_subrange(content, pos, gap)) {
            Some(mode) => mode,
            None => {
                return Err(Error::MalformedTree);
            },
        };
        let name = copy_range(content, gap + 1, end);
        let mut bytes: [u8; 20] = [0u8; 20];
        let mut k: usize = 0;
        while k < DIGEST_LEN
            invariant
                k <= DIGEST_LEN,
                next == end + 1 + DIGEST_LEN,
                next <= content@.len(),
                forall|j: int| 0 <= j < k ==> bytes@[j] == content@[end + 1 + j],
            decreases DIGEST_LEN - k,
        {
            bytes[k] = content[end + 1 + k];
            k = k + 1;
        }
        let digest = ObjectDigest { bytes };
        assert(digest@ =~= content@.subrange(end + 1, next as int));
        proof {
            lemma_first_from(content@, NUL, gap + 1);
            assert forall|j: int| 0 <= j < name@.len() implies name@[j] != NUL by {
                assert(name@[j] == content@[gap + 1 + j]);
            }
        }
        let ghost before = views(entries@);
        let ghost rest = parse_tree_from(content@, next as int);
        match TreeEntry::new(mode, name, digest) {
            Ok(entry) => {
                entries.push(entry);
                proof {
                    assert(views(entries@) =~= before + seq![entry@]);
                    match rest {
                        Ok(more) => {
                            assert(before + (seq![entry@] + more) =~= (before + seq![entry@])
                                + more);
                        },
                        Err(_) => {},
                    }
                }
            },
            Err(_) => {
                return Err(Error::MalformedTree);
            },
        }
        pos = next;
    }
    proof {
        assert(views(entries@) + Seq::<EntryView>::empty() =~= views(entries@));
    }
    Ok(entries)
}

/// The content of a tree starts with the bytes of its first entry.
pub proof fn lemma_tree_bytes_front(entries: Seq<EntryView>)
    requires
        entries.len() > 0,
    ensures
        tree_bytes(entries) == entries.first().bytes() + tree_bytes(entries.drop_first()),
    decreases entries.len(),
{
    if entries.len() == 1 {
        assert(entries.drop_last() =~= Seq::<EntryView>::empty());
        assert(entries.drop_first() =~= Seq::<EntryView>::empty());
        assert(tree_bytes(entries) =~= entries.first().bytes() + tree_bytes(
            entries.drop_first(),
        ));
    } else {
        let front = entries.drop_last();
        lemma_tree_bytes_front(front);
        assert(front.drop_first() =~= entries.drop_first().drop_last());
        assert(front.first() == entries.first());
        assert(entries.drop_first().last() == entries.last());
        assert(tree_bytes(entries) =~= entries.first().bytes() + tree_bytes(
            entries.drop_first(),
        ));
    }
}

/// Where the bytes of a well-formed entry stand in a content, the first
/// space behind their start ends the mode, the first NUL behind that space
/// ends the name, and the digest follows.
pub proof fn lemma_entry_layout(prefix: Seq<u8>, entry: EntryView, suffix: Seq<u8>)
    requires
        entry.wf(),
    ensures
        ({
            let content = prefix + entry.bytes() + suffix;
            let pos = prefix.len() as int;
            let gap = pos + entry.mode.text().len();
            let end = gap + 1 + entry.name.len();
            let next = end + 1 + DIGEST_LEN;
            &&& first_from(content, SPACE, pos) == gap
            &&& first_from(content, NUL, gap + 1) == end
            &&& next == pos + entry.bytes().len()
            &&& next <= content.len()
            &&& content.subrange(pos, gap) == entry.mode.text()
            &&& content.subrange(gap + 1, end) == entry.name
            &&& content.subrange(end + 1, next) == entry.digest
        }),
{
    let record = entry.bytes();
    let content = prefix + record + suffix;
    let pos = prefix.len() as int;
    let mode = entry.mode.text();
    let gap = pos + mode.len();
    let end = gap + 1 + entry.name.len();
    let next = end + 1 + DIGEST_LEN;
    entry.mode.lemma_of_text();
    assert(record.len() == mode.len() + 1 + entry.name.len() + 1 + DIGEST_LEN);
    assert forall|j: int| pos <= j < gap implies content[j] != SPACE by {
        assert(content[j] == record[j - pos]);
        assert(record[j - pos] == mode[j - pos]);
    }
    assert(content[gap] == record[gap - pos]);
    assert(record[gap - pos] == SPACE);
    lemma_first_from_is(content, SPACE, pos, gap);
    assert forall|j: int| gap + 1 <= j < end implies content[j] != NUL by {
        assert(content[j] == record[j - pos]);
        assert(record[j - pos] == entry.name[j - gap - 1]);
        assert(entry.name.contains(entry.name[j - gap - 1]));
    }
    assert(content[end] == record[end - pos]);
    assert(record[end - pos] == NUL);
    lemma_first_from_is(content, NUL, gap + 1, end);
    assert(content.subrange(pos, gap) =~= mode) by {
        assert forall|j: int| 0 <= j < mode.len() implies content[pos + j] == mode[j] by {
            assert(content[pos + j] == record[j]);
        }
    }
    assert(content.subrange(gap + 1, end) =~= entry.name) by {
        assert forall|j: int| 0 <= j < entry.name.len() implies content[gap + 1 + j]
            == entry.name[j] by {
            assert(content[gap + 1 + j] == record[gap + 1 + j - pos]);
        }
    }
    assert(content.subrange(end + 1, next) =~= entry.digest) by {
        assert forall|j: int| 0 <= j < DIGEST_LEN implies content[end + 1 + j]
            == entry.digest[j] by {
            assert(content[end + 1 + j] == record[end + 1 + j - pos]);
        }
    }
}

/// Reading inverts writing, wherever in the content the written entries
/// start: behind any prefix, the bytes of well-formed entries are read back
/// as those entries.
pub proof fn lemma_parse_written_from(prefix: Seq<u8>, entries: Seq<EntryView>)
    requires
        all_wf(entries),
    ensures
        parse_tree_from(prefix + tree_bytes(entries), prefix.len() as int) == Ok::<
            Seq<EntryView>,
            Error,
        >(entries),
    decreases entries.len(),
{
    let content = prefix + tree_bytes(entries);
    let pos = prefix.len() as int;
    if entries.len() == 0 {
        assert(entries =~= Seq::<EntryView>::empty());
    } else {
        let e = entries.first();
        let rest = entries.drop_first();
        assert(e.wf());
        lemma_tree_bytes_front(entries);
        lemma_entry_layout(prefix, e, tree_bytes(rest));
        assert(prefix + e.bytes() + tree_bytes(rest) =~= content);
        e.mode.lemma_of_text();
        lemma_rest_wf(entries);
        lemma_parse_written_from(prefix + e.bytes(), rest);
        assert(seq![e] + rest =~= entries);
    }
}

/// The entries behind the first are well-formed where all are.
proof fn lemma_rest_wf(entries: Seq<EntryView>)
    requires
        entries.len() > 0,
        all_wf(entries),
    ensures
        all_wf(entries.drop_first()),
{
    assert forall|i: int| 0 <= i < entries.drop_first().len() implies (
    #[trigger] entries.drop_first()[i]).wf() by {
        assert(entries.drop_first()[i] == entries[i + 1]);
    }
}

/// Reading inverts writing: the content written for well-formed entries is
/// read back as those entries, in their order.
pub proof fn lemma_parse_written(entries: Seq<EntryView>)
    requires
        all_wf(entries),
    ensures
        parse_tree(tree_bytes(entries)) == Ok::<Seq<EntryView>, Error>(entries),
{
    lemma_parse_written_from(Seq::empty(), entries);
    assert(Seq::<u8>::empty() + tree_bytes(entries) =~= tree_bytes(entries));
}

} // verus!
