//! The content of commit objects. Commits are written here, never read.

use crate::bytes::append_range;
use crate::codec::{envelope, Object};
use crate::digest::{hex_text, is_hex_char, ObjectDigest};
use crate::kind::ObjectKind;
use vstd::prelude::*;
use vstd::string::*;

verus! {

/// The byte that ends a line.
pub const NEWLINE: u8 = 0x0a;

/// The bytes of a text of ASCII characters.
pub open spec fn ascii(text: Seq<char>) -> Seq<u8> {
    Seq::new(text.len(), |i: int| text[i] as u8)
}

/// One line of a commit: the label, which ends in a space, the value and a
/// newline.
pub open spec fn commit_line(label: Seq<char>, value: Seq<u8>) -> Seq<u8> {
    (ascii(label) + value).push(NEWLINE)
}

/// The content of a commit: the line of the tree, the line of the parent
/// where there is one, the lines of the author and of the committer, an
/// empty line, then the message and a newline.
pub open spec fn commit_text(
    tree: Seq<u8>,
    parent: Option<Seq<u8>>,
    author: Seq<u8>,
    committer: Seq<u8>,
    message: Seq<u8>,
) -> Seq<u8> {
    commit_line("tree "@, ascii(hex_text(tree))) + (match parent {
        Some(digest) => commit_line("parent "@, ascii(hex_text(digest))),
        None => Seq::empty(),
    }) + commit_line("author "@, author) + commit_line("committer "@, committer) + seq![NEWLINE]
        + message.push(NEWLINE)
}

/// The digest that the parent line names, if any.
pub open spec fn parent_view(parent: Option<ObjectDigest>) -> Option<Seq<u8>> {
    match parent {
        Some(digest) => Some(digest@),
        None => None,
    }
}

/// Appends the bytes of an ASCII text to `out`.
fn append_ascii(out: &mut Vec<u8>, text: &str)
    requires
        is_ascii(text),
    ensures
        final(out)@ == old(out)@ + ascii(text@),
{
    let bytes = text.as_bytes();
    assert(bytes@ =~= ascii(text@));
    append_range(out, bytes, 0, bytes.len());
    assert(bytes@.subrange(0, bytes@.len() as int) =~= bytes@);
}

/// Appends one line of a commit to `out`.
fn append_line(out: &mut Vec<u8>, label: &str, value: &[u8])
    requires
        is_ascii(label),
    ensures
        final(out)@ == old(out)@ + commit_line(label@, value@),
{
    append_ascii(out, label);
    append_range(out, value, 0, value.len());
    out.push(NEWLINE);
    assert(value@.subrange(0, value@.len() as int) =~= value@);
    assert(final(out)@ =~= old(out)@ + commit_line(label@, value@));
}

/// Appends the line that names a digest to `out`.
fn append_digest_line(out: &mut Vec<u8>, label: &str, digest: &ObjectDigest)
    requires
        is_ascii(label),
    ensures
        final(out)@ == old(out)@ + commit_line(label@, ascii(hex_text(digest@))),
{
    let hex = digest.to_hex();
    let text = hex.as_str();
    assert(is_ascii(text)) by {
        assert forall|i: int| 0 <= i < text@.len() implies '\0' <= #[trigger] text@[i]
            <= '\u{7f}' by {
            assert(is_hex_char(text@[i]));
        }
    }
    let value = text.as_bytes();
    assert(value@ =~= ascii(text@));
    append_line(out, label, value);
}

/// The content of a commit of the given tree.
///
/// `author` and `committer` are written as they are given, each behind its
/// label; so is the message, behind an empty line.
pub fn commit_content(
    tree: &ObjectDigest,
    parent: Option<ObjectDigest>,
    author: &[u8],
    committer: &[u8],
    message: &[u8],
) -> (r: Vec<u8>)
    ensures
        r@ == commit_text(tree@, parent_view(parent), author@, committer@, message@),
{
    proof {
        reveal_strlit("tree ");
        reveal_strlit("parent ");
        reveal_strlit("author ");
        reveal_strlit("committer ");
    }
    let mut out: Vec<u8> = Vec::new();
    append_digest_line(&mut out, "tree ", tree);
    match parent {
        Some(digest) => append_digest_line(&mut out, "parent ", &digest),
        None => {},
    }
    append_line(&mut out, "author ", author);
    append_line(&mut out, "committer ", committer);
    out.push(NEWLINE);
    append_range(&mut out, message, 0, message.len());
    out.push(NEWLINE);
    assert(message@.subrange(0, message@.len() as int) =~= message@);
    assert(out@ =~= commit_text(tree@, parent_view(parent), author@, committer@, message@));
    out
}

/// The commit object of the given tree: an object of kind `commit` that
/// holds exactly the content of the commit.
pub fn commit_object(
    tree: &ObjectDigest,
    parent: Option<ObjectDigest>,
    author: &[u8],
    committer: &[u8],
    message: &[u8],
) -> (r: Object)
    ensures
        r@.kind == ObjectKind::Commit,
        r@.content == commit_text(tree@, parent_view(parent), author@, committer@, message@),
        r@.expected_size == r@.content.len(),
        r@.complete(),
        r@.envelope() == envelope(ObjectKind::Commit, r@.content),
{
    Object::with_content(ObjectKind::Commit, commit_content(tree, parent, author, committer, message))
}

} // verus!
