//! The order of the entries of a tree: names are compared byte by byte, each
//! with a trailing `0xFF` appended.

use vstd::prelude::*;

verus! {

/// The byte that is appended to every name before names are compared.
pub const SENTINEL: u8 = 0xff;

/// The bytes by which a name is ordered: the name, then the sentinel.
pub open spec fn sort_key(name: Seq<u8>) -> Seq<u8> {
    name.push(SENTINEL)
}

/// Whether `a` comes no later than `b` when the two are compared byte by
/// byte; a sequence comes before every sequence that it is a proper prefix
/// of.
pub open spec fn bytes_le(a: Seq<u8>, b: Seq<u8>) -> bool
    decreases a.len(),
{
    if a.len() == 0 {
        true
    } else if b.len() == 0 {
        false
    } else if a[0] != b[0] {
        a[0] < b[0]
    } else {
        bytes_le(a.drop_first(), b.drop_first())
    }
}

/// Whether an entry named `a` may stand before an entry named `b` in a tree.
pub open spec fn name_le(a: Seq<u8>, b: Seq<u8>) -> bool {
    bytes_le(sort_key(a), sort_key(b))
}

/// Every sequence comes no later than itself.
pub proof fn lemma_bytes_le_reflexive(a: Seq<u8>)
    ensures
        bytes_le(a, a),
    decreases a.len(),
{
    if a.len() > 0 {
        lemma_bytes_le_reflexive(a.drop_first());
    }
}

/// Of two sequences, one comes no later than the other.
pub proof fn lemma_bytes_le_total(a: Seq<u8>, b: Seq<u8>)
    ensures
        bytes_le(a, b) || bytes_le(b, a),
    decreases a.len(),
{
    if a.len() > 0 && b.len() > 0 && a[0] == b[0] {
        lemma_bytes_le_total(a.drop_first(), b.drop_first());
    }
}

/// The order is transitive.
pub proof fn lemma_bytes_le_transitive(a: Seq<u8>, b: Seq<u8>, c: Seq<u8>)
    requires
        bytes_le(a, b),
        bytes_le(b, c),
    ensures
        bytes_le(a, c),
    decreases a.len(),
{
    if a.len() > 0 && b.len() > 0 && c.len() > 0 && a[0] == b[0] && b[0] == c[0] {
        lemma_bytes_le_transitive(a.drop_first(), b.drop_first(), c.drop_first());
    }
}

/// Two sequences that each come no later than the other are equal.
pub proof fn lemma_bytes_le_antisymmetric(a: Seq<u8>, b: Seq<u8>)
    requires
        bytes_le(a, b),
        bytes_le(b, a),
    ensures
        a == b,
    decreases a.len(),
{
    if a.len() > 0 && b.len() > 0 {
        lemma_bytes_le_antisymmetric(a.drop_first(), b.drop_first());
        assert(a =~= seq![a[0]] + a.drop_first());
        assert(b =~= seq![b[0]] + b.drop_first());
    } else {
        assert(a =~= b);
    }
}

/// The order of names is total and transitive, and only equal names stand
/// on a par.
pub proof fn lemma_name_order(a: Seq<u8>, b: Seq<u8>, c: Seq<u8>)
    ensures
        name_le(a, a),
        name_le(a, b) || name_le(b, a),
        name_le(a, b) && name_le(b, c) ==> name_le(a, c),
        name_le(a, b) && name_le(b, a) ==> a == b,
{
    lemma_bytes_le_reflexive(sort_key(a));
    lemma_bytes_le_total(sort_key(a), sort_key(b));
    if name_le(a, b) && name_le(b, c) {
        lemma_bytes_le_transitive(sort_key(a), sort_key(b), sort_key(c));
    }
    if name_le(a, b) && name_le(b, a) {
        lemma_bytes_le_antisymmetric(sort_key(a), sort_key(b));
        assert(a =~= sort_key(a).drop_last());
        assert(b =~= sort_key(b).drop_last());
    }
}

/// A name that another name extends by a byte below the sentinel comes
/// after the longer one: a directory `foo` sorts after the file `foo.txt`.
pub proof fn lemma_extended_name_comes_first(name: Seq<u8>, longer: Seq<u8>)
    requires
        name.len() < longer.len(),
        longer.take(name.len() as int) == name,
        longer[name.len() as int] < SENTINEL,
    ensures
        name_le(longer, name),
        !name_le(name, longer),
    decreases name.len(),
{
    if name.len() == 0 {
        assert(sort_key(name)[0] == SENTINEL);
        assert(sort_key(longer)[0] == longer[0]);
    } else {
        assert(name[0] == longer.take(name.len() as int)[0]);
        assert(longer.drop_first().take(name.len() - 1) =~= name.drop_first());
        lemma_extended_name_comes_first(name.drop_first(), longer.drop_first());
        assert(sort_key(name).drop_first() =~= sort_key(name.drop_first()));
        assert(sort_key(longer).drop_first() =~= sort_key(longer.drop_first()));
    }
}

/// Whether an entry named `a` may stand before an entry named `b`.
pub fn names_in_order(a: &[u8], b: &[u8]) -> (r: bool)
    ensures
        r == name_le(a@, b@),
{
    let ghost ka = sort_key(a@);
    let ghost kb = sort_key(b@);
    let mut i: usize = 0;
    assert(ka.skip(0) =~= ka && kb.skip(0) =~= kb);
    loop
        invariant
            i <= a@.len(),
            i <= b@.len(),
            ka == sort_key(a@),
            kb == sort_key(b@),
            bytes_le(ka, kb) == bytes_le(ka.skip(i as int), kb.skip(i as int)),
        decreases a@.len() - i,
    {
        let x: u8 = if i < a.len() { a[i] } else { SENTINEL };
        let y: u8 = if i < b.len() { b[i] } else { SENTINEL };
        proof {
            assert(ka.skip(i as int)[0] == x);
            assert(kb.skip(i as int)[0] == y);
            assert(ka.skip(i as int).drop_first() =~= ka.skip(i + 1));
            assert(kb.skip(i as int).drop_first() =~= kb.skip(i + 1));
        }
        if x != y {
            return x < y;
        }
        if i == a.len() {
            assert(ka.skip(i + 1).len() == 0);
            assert(bytes_le(ka.skip(i + 1), kb.skip(i + 1)));
            return true;
        }
        if i == b.len() {
            assert(ka.skip(i + 1).len() > 0 && kb.skip(i + 1).len() == 0);
            assert(!bytes_le(ka.skip(i + 1), kb.skip(i + 1)));
            return false;
        }
        i = i + 1;
    }
}

} // verus!
