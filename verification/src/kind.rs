//! The closed set of object kinds and their names in an envelope header.

use crate::bytes::equal;
use vstd::prelude::*;

verus! {

/// The kind of a stored object.
#[derive(Clone, Copy, Debug, PartialEq, Eq, Structural)]
pub enum ObjectKind {
    Blob,
    Tree,
    Commit,
}

impl ObjectKind {
    /// The lowercase ASCII name that stands for this kind in a header.
    pub open spec fn name(self) -> Seq<u8> {
        match self {
            ObjectKind::Blob => seq!['b' as u8, 'l' as u8, 'o' as u8, 'b' as u8],
            ObjectKind::Tree => seq!['t' as u8, 'r' as u8, 'e' as u8, 'e' as u8],
            ObjectKind::Commit => seq!['c' as u8, 'o' as u8, 'm' as u8, 'm' as u8, 'i' as u8, 't' as u8],
        }
    }

    /// Appends the name of this kind to `out`.
    pub fn write_name(&self, out: &mut Vec<u8>)
        ensures
            final(out)@ == old(out)@ + self.name(),
    {
        match self {
            ObjectKind::Blob => {
                out.push('b' as u8);
                out.push('l' as u8);
                out.push('o' as u8);
                out.push('b' as u8);
            },
            ObjectKind::Tree => {
                out.push('t' as u8);
                out.push('r' as u8);
                out.push('e' as u8);
                out.push('e' as u8);
            },
            ObjectKind::Commit => {
                out.push('c' as u8);
                out.push('o' as u8);
                out.push('m' as u8);
                out.push('m' as u8);
                out.push('i' as u8);
                out.push('t' as u8);
            },
        }
    }

/// The name of this kind as text.
    pub fn as_str(&self) -> (r: &'static str)
        ensures
            r@ == self.name().map_values(|b: u8| b as char),
    {
        match self {
            ObjectKind::Blob => {
                proof {
                    reveal_strlit("blob");
                }
                "blob"
            },
            ObjectKind::Tree => {
                proof {
                    reveal_strlit("tree");
                }
                "tree"
            },
            ObjectKind::Commit => {
                proof {
                    reveal_strlit("commit");
                }
                "commit"
            },
        }
    }

    /// The kind whose name is `token`, if there is one.
    pub open spec fn named(token: Seq<u8>) -> Option<ObjectKind> {
        if token == ObjectKind::Blob.name() {
            Some(ObjectKind::Blob)
        } else if token == ObjectKind::Tree.name() {
            Some(ObjectKind::Tree)
        } else if token == ObjectKind::Commit.name() {
            Some(ObjectKind::Commit)
        } else {
            None
        }
    }

    /// Reads the name of a kind. Any token but the three names, spelled
    /// exactly, stands for no kind.
    pub fn from_name(token: &[u8]) -> (r: Option<ObjectKind>)
        ensures
            r == ObjectKind::named(token@),
    {
        let mut name: Vec<u8> = Vec::new();
        ObjectKind::Blob.write_name(&mut name);
        if equal(token, name.as_slice()) {
            return Some(ObjectKind::Blob);
        }
        name.clear();
        ObjectKind::Tree.write_name(&mut name);
        if equal(token, name.as_slice()) {
            return Some(ObjectKind::Tree);
        }
        name.clear();
        ObjectKind::Commit.write_name(&mut name);
        if equal(token, name.as_slice()) {
            return Some(ObjectKind::Commit);
        }
        None
    }

    /// Every kind is found again under its own name.
    pub proof fn lemma_named_name(self)
        ensures
            ObjectKind::named(self.name()) == Some(self),
            self.name().len() >= 1,
            forall|i: int|
                0 <= i < self.name().len() ==> 'a' as u8 <= #[trigger] self.name()[i] <= 'z' as u8,
    {
        assert(ObjectKind::Blob.name()[0] != ObjectKind::Tree.name()[0]);
        assert(ObjectKind::Blob.name()[0] != ObjectKind::Commit.name()[0]);
        assert(ObjectKind::Tree.name()[0] != ObjectKind::Commit.name()[0]);
    }
}

} // verus!
