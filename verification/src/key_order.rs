//! The order of storage keys: byte strings compared lexicographically, as an
//! ordered key/value store walks them.

use vstd::prelude::*;

verus! {

/// Whether `a` sorts before `b`, the two agreeing on their first `from` bytes.
pub open spec fn precedes_from(a: Seq<u8>, b: Seq<u8>, from: int) -> bool
    decreases b.len() - from,
{
    if from < 0 || from >= b.len() {
        false
    } else if from >= a.len() {
        true
    } else if a[from] != b[from] {
        a[from] < b[from]
    } else {
        precedes_from(a, b, from + 1)
    }
}

/// Whether `a` sorts strictly before `b` in lexicographic byte order.
pub open spec fn precedes(a: Seq<u8>, b: Seq<u8>) -> bool {
    precedes_from(a, b, 0)
}

/// Whether `key` starts with `prefix`.
pub open spec fn has_prefix(key: Seq<u8>, prefix: Seq<u8>) -> bool {
    prefix.len() <= key.len() && key.take(prefix.len() as int) == prefix
}

/// How two keys stand to each other.
#[derive(Debug, Clone, Copy, PartialEq, Eq, Structural)]
pub enum KeyOrder {
    Before,
    Same,
    After,
}

/// Two keys that agree from `from` on up to the end of both are ordered the
/// same way from `from` as from any later place up to their first difference.
proof fn lemma_agree_then_neither(a: Seq<u8>, b: Seq<u8>, from: int)
    requires
        0 <= from,
        a.len() == b.len(),
        forall|i: int| from <= i < a.len() ==> a[i] == b[i],
    ensures
        !precedes_from(a, b, from),
    decreases b.len() - from,
{
    if from < b.len() {
        lemma_agree_then_neither(a, b, from + 1);
    }
}

/// No key sorts before itself.
pub proof fn lemma_precedes_irreflexive(a: Seq<u8>)
    ensures
        !precedes(a, a),
{
    lemma_agree_then_neither(a, a, 0);
}

proof fn lemma_trichotomy_from(a: Seq<u8>, b: Seq<u8>, from: int)
    requires
        0 <= from <= a.len(),
        from <= b.len(),
        forall|i: int| 0 <= i < from ==> a[i] == b[i],
        !precedes_from(a, b, from),
        !precedes_from(b, a, from),
    ensures
        a == b,
    decreases b.len() - from,
{
    if from >= b.len() {
        assert(a =~= b);
    } else {
        lemma_trichotomy_from(a, b, from + 1);
    }
}

/// Of two different keys one sorts before the other.
pub proof fn lemma_precedes_total(a: Seq<u8>, b: Seq<u8>)
    ensures
        a == b || precedes(a, b) || precedes(b, a),
{
    if !precedes(a, b) && !precedes(b, a) {
        lemma_trichotomy_from(a, b, 0);
    }
}

proof fn lemma_asymmetric_from(a: Seq<u8>, b: Seq<u8>, from: int)
    requires
        0 <= from,
        precedes_from(a, b, from),
    ensures
        !precedes_from(b, a, from),
    decreases b.len() - from,
{
    if from < a.len() && from < b.len() && a[from] == b[from] {
        lemma_asymmetric_from(a, b, from + 1);
    }
}

/// Of two keys at most one sorts before the other.
pub proof fn lemma_precedes_asymmetric(a: Seq<u8>, b: Seq<u8>)
    ensures
        !(precedes(a, b) && precedes(b, a)),
{
    if precedes(a, b) {
        lemma_asymmetric_from(a, b, 0);
    }
}

proof fn lemma_transitive_from(a: Seq<u8>, b: Seq<u8>, c: Seq<u8>, from: int)
    requires
        0 <= from,
        precedes_from(a, b, from),
        precedes_from(b, c, from),
    ensures
        precedes_from(a, c, from),
    decreases c.len() - from,
{
    if from < a.len() && from < b.len() && from < c.len() && a[from] == b[from] && b[from]
        == c[from] {
        lemma_transitive_from(a, b, c, from + 1);
    }
}

/// The order of keys is transitive.
pub proof fn lemma_precedes_transitive(a: Seq<u8>, b: Seq<u8>, c: Seq<u8>)
    requires
        precedes(a, b),
        precedes(b, c),
    ensures
        precedes(a, c),
{
    lemma_transitive_from(a, b, c, 0);
}

/// Compares two keys in lexicographic byte order.
pub fn compare_keys(a: &[u8], b: &[u8]) -> (order: KeyOrder)
    ensures
        order == KeyOrder::Before <==> precedes(a@, b@),
        order == KeyOrder::Same <==> a@ == b@,
        order == KeyOrder::After <==> precedes(b@, a@),
{
    let mut i: usize = 0;
    while i < a.len() && i < b.len()
        invariant
            i <= a.len(),
            i <= b.len(),
            forall|j: int| 0 <= j < i ==> a@[j] == b@[j],
            precedes(a@, b@) == precedes_from(a@, b@, i as int),
            precedes(b@, a@) == precedes_from(b@, a@, i as int),
        decreases a.len() - i,
    {
        if a[i] < b[i] {
            proof {
                lemma_asymmetric_from(a@, b@, i as int);
            }
            return KeyOrder::Before;
        }
        if a[i] > b[i] {
            proof {
                lemma_asymmetric_from(b@, a@, i as int);
            }
            return KeyOrder::After;
        }
        i += 1;
    }
    if i < b.len() {
        KeyOrder::Before
    } else if i < a.len() {
        KeyOrder::After
    } else {
        assert(a@ =~= b@);
        proof {
            lemma_precedes_irreflexive(a@);
        }
        KeyOrder::Same
    }
}

/// Whether `key` starts with `prefix`.
pub fn starts_with(key: &[u8], prefix: &[u8]) -> (yes: bool)
    ensures
        yes == has_prefix(key@, prefix@),
{
    if prefix.len() > key.len() {
        return false;
    }
    let mut i: usize = 0;
    while i < prefix.len()
        invariant
            i <= prefix.len() <= key.len(),
            forall|j: int| 0 <= j < i ==> key@[j] == prefix@[j],
        decreases prefix.len() - i,
    {
        if key[i] != prefix[i] {
            assert(key@.take(prefix@.len() as int)[i as int] != prefix@[i as int]);
            return false;
        }
        i += 1;
    }
    assert(key@.take(prefix@.len() as int) =~= prefix@);
    true
}

/// From a place behind a common prefix on, two keys are ordered as what
/// follows the prefix is.
proof fn lemma_behind_prefix(prefix: Seq<u8>, a: Seq<u8>, b: Seq<u8>, from: int)
    requires
        0 <= from,
    ensures
        precedes_from(prefix + a, prefix + b, prefix.len() + from) == precedes_from(a, b, from),
    decreases b.len() - from,
{
    if from < b.len() {
        assert((prefix + b)[prefix.len() + from] == b[from]);
        if from < a.len() {
            assert((prefix + a)[prefix.len() + from] == a[from]);
            lemma_behind_prefix(prefix, a, b, from + 1);
        }
    }
}

/// Up to the end of a common prefix, the order of two keys is not decided.
proof fn lemma_within_prefix(prefix: Seq<u8>, a: Seq<u8>, b: Seq<u8>, from: int)
    requires
        0 <= from <= prefix.len(),
    ensures
        precedes_from(prefix + a, prefix + b, from) == precedes_from(prefix + a, prefix + b, prefix.len() as int),
    decreases prefix.len() - from,
{
    if from < prefix.len() {
        assert((prefix + a)[from] == prefix[from]);
        assert((prefix + b)[from] == prefix[from]);
        lemma_within_prefix(prefix, a, b, from + 1);
    }
}

/// Two keys with a common prefix are ordered as what follows the prefix is.
pub proof fn lemma_precedes_common_prefix(prefix: Seq<u8>, a: Seq<u8>, b: Seq<u8>)
    ensures
        precedes(prefix + a, prefix + b) == precedes(a, b),
{
    lemma_within_prefix(prefix, a, b, 0);
    lemma_behind_prefix(prefix, a, b, 0);
}

/// A key with a prefix is the prefix and what follows it.
pub proof fn lemma_prefix_splits(key: Seq<u8>, prefix: Seq<u8>)
    requires
        has_prefix(key, prefix),
    ensures
        key == prefix + key.skip(prefix.len() as int),
{
    assert(key =~= key.take(prefix.len() as int) + key.skip(prefix.len() as int));
}

} // verus!
