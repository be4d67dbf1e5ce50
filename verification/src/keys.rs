//! Sort keys: variable-length sequences of integers extracted from a
//! filename's indexed prefix, ordered lexicographically with
//! shorter-prefix-first tie-breaking.

use vstd::prelude::*;

verus! {

/// Strict lexicographic order on integer sequences: at the first position
/// where the components differ the smaller component wins; a key that runs
/// out of components while the other still has one sorts first; two keys
/// with the same components are equal (not less).
pub open spec fn key_lt(a: Seq<u32>, b: Seq<u32>) -> bool
    decreases a.len(),
{
    if b.len() == 0 {
        false
    } else if a.len() == 0 {
        true
    } else if a[0] < b[0] {
        true
    } else if a[0] > b[0] {
        false
    } else {
        key_lt(a.drop_first(), b.drop_first())
    }
}

/// Non-strict companion of `key_lt`.
pub open spec fn key_le(a: Seq<u32>, b: Seq<u32>) -> bool {
    !key_lt(b, a)
}

/// `a` is a proper prefix of `b`.
pub open spec fn is_proper_prefix(a: Seq<u32>, b: Seq<u32>) -> bool {
    a.len() < b.len() && a == b.take(a.len() as int)
}

/// No key is less than itself.
pub proof fn lemma_key_lt_irreflexive(a: Seq<u32>)
    ensures
        !key_lt(a, a),
    decreases a.len(),
{
    if a.len() > 0 {
        lemma_key_lt_irreflexive(a.drop_first());
    }
}

/// At most one of `key_lt(a, b)` and `key_lt(b, a)` holds.
pub proof fn lemma_key_lt_asymmetric(a: Seq<u32>, b: Seq<u32>)
    ensures
        key_lt(a, b) ==> !key_lt(b, a),
    decreases a.len(),
{
    if a.len() > 0 && b.len() > 0 && a[0] == b[0] {
        lemma_key_lt_asymmetric(a.drop_first(), b.drop_first());
    }
}

/// Two keys neither of which is less than the other are equal.
pub proof fn lemma_key_lt_connected(a: Seq<u32>, b: Seq<u32>)
    ensures
        !key_lt(a, b) && !key_lt(b, a) ==> a == b,
    decreases a.len(),
{
    if a.len() == 0 && b.len() == 0 {
        assert(a =~= b);
    } else if a.len() > 0 && b.len() > 0 && a[0] == b[0] {
        lemma_key_lt_connected(a.drop_first(), b.drop_first());
        if !key_lt(a, b) && !key_lt(b, a) {
            assert(a.drop_first() == b.drop_first());
            assert forall|k: int| 0 <= k < a.len() implies a[k] == b[k] by {
                if k > 0 {
                    assert(a.drop_first()[k - 1] == b.drop_first()[k - 1]);
                }
            }
            assert(a =~= b);
        }
    }
}

/// `key_lt` is transitive.
pub proof fn lemma_key_lt_transitive(a: Seq<u32>, b: Seq<u32>, c: Seq<u32>)
    ensures
        key_lt(a, b) && key_lt(b, c) ==> key_lt(a, c),
    decreases a.len() + b.len() + c.len(),
{
    if key_lt(a, b) && key_lt(b, c) {
        if a.len() == 0 {
        } else if b.len() == 0 {
        } else if c.len() == 0 {
        } else if a[0] == b[0] && b[0] == c[0] {
            lemma_key_lt_transitive(a.drop_first(), b.drop_first(), c.drop_first());
        }
    }
}

/// A proper prefix sorts strictly before any extension of it: the heart of
/// the shorter-is-smaller tie-break rule.
pub proof fn lemma_proper_prefix_lt(a: Seq<u32>, b: Seq<u32>)
    requires
        is_proper_prefix(a, b),
    ensures
        key_lt(a, b),
    decreases a.len(),
{
    if a.len() > 0 {
        assert(a[0] == b[0]) by {
            assert(a == b.take(a.len() as int));
            assert(b.take(a.len() as int)[0] == b[0]);
        }
        assert(is_proper_prefix(a.drop_first(), b.drop_first())) by {
            assert(a == b.take(a.len() as int));
            assert(a.drop_first() =~= b.drop_first().take(a.drop_first().len() as int));
        }
        lemma_proper_prefix_lt(a.drop_first(), b.drop_first());
    }
}

/// Outcome of comparing two sort keys.
#[derive(PartialEq, Eq, Structural, Clone, Copy, Debug)]
pub enum KeyOrder {
    Less,
    Equal,
    Greater,
}

/// A filename whose indexed prefix has been parsed: the sequence of numeric
/// components read off the prefix, and the residual name that follows it.
pub struct IndexedFileName {
    pub indices: Vec<u32>,
    pub name: String,
}

impl IndexedFileName {
    /// Compare two parsed filenames by their numeric keys alone, walking the
    /// component sequences in step; the residual names never participate.
    pub fn cmp(&self, other: &IndexedFileName) -> (r: KeyOrder)
        ensures
            (r == KeyOrder::Less) <==> key_lt(self.indices@, other.indices@),
            (r == KeyOrder::Greater) <==> key_lt(other.indices@, self.indices@),
            (r == KeyOrder::Equal) <==> self.indices@ == other.indices@,
    {
        let a = &self.indices;
        let b = &other.indices;
        let mut i: usize = 0;
        proof {
            assert(a@.skip(0) =~= a@);
            assert(b@.skip(0) =~= b@);
        }
        loop
            invariant
                a@ == self.indices@,
                b@ == other.indices@,
                i <= a@.len(),
                i <= b@.len(),
                key_lt(a@, b@) == key_lt(a@.skip(i as int), b@.skip(i as int)),
                key_lt(b@, a@) == key_lt(b@.skip(i as int), a@.skip(i as int)),
                (a@ == b@) == (a@.skip(i as int) == b@.skip(i as int)),
            decreases a@.len() - i,
        {
            let ghost sa = a@.skip(i as int);
            let ghost sb = b@.skip(i as int);
            if i >= a.len() {
                if i >= b.len() {
                    proof {
                        assert(sa =~= sb);
                        assert(sa.len() == 0 && sb.len() == 0);
                        assert(!key_lt(sa, sb));
                        assert(!key_lt(sb, sa));
                    }
                    return KeyOrder::Equal;
                } else {
                    proof {
                        assert(sa.len() == 0 && sb.len() > 0);
                        assert(key_lt(sa, sb));
                        assert(!key_lt(sb, sa));
                        assert(sa.len() != sb.len());
                    }
                    return KeyOrder::Less;
                }
            } else if i >= b.len() {
                proof {
                    assert(sa.len() > 0 && sb.len() == 0);
                    assert(key_lt(sb, sa));
                    assert(!key_lt(sa, sb));
                    assert(sa.len() != sb.len());
                }
                return KeyOrder::Greater;
            } else {
                let x = a[i];
                let y = b[i];
                proof {
                    assert(sa[0] == a@[i as int]);
                    assert(sb[0] == b@[i as int]);
                }
                if x < y {
                    proof {
                        assert(key_lt(sa, sb));
                        lemma_key_lt_asymmetric(sa, sb);
                        lemma_key_lt_irreflexive(a@);
                    }
                    return KeyOrder::Less;
                } else if x > y {
                    proof {
                        assert(key_lt(sb, sa));
                        lemma_key_lt_asymmetric(sb, sa);
                        lemma_key_lt_irreflexive(a@);
                    }
                    return KeyOrder::Greater;
                } else {
                    proof {
                        assert(sa.drop_first() =~= a@.skip(i + 1));
                        assert(sb.drop_first() =~= b@.skip(i + 1));
                        assert(key_lt(sa, sb) == key_lt(a@.skip(i + 1), b@.skip(i + 1)));
                        assert(key_lt(sb, sa) == key_lt(b@.skip(i + 1), a@.skip(i + 1)));
                        assert((sa == sb) == (a@.skip(i + 1) == b@.skip(i + 1))) by {
                            if a@.skip(i + 1) == b@.skip(i + 1) {
                                assert(sa.len() == sb.len());
                                assert forall|k: int| 0 <= k < sa.len() implies sa[k] == sb[k] by {
                                    if k > 0 {
                                        assert(sa[k] == a@.skip(i + 1)[k - 1]);
                                        assert(sb[k] == b@.skip(i + 1)[k - 1]);
                                    }
                                }
                                assert(sa =~= sb);
                            }
                            if sa == sb {
                                assert(a@.skip(i + 1) =~= b@.skip(i + 1));
                            }
                        }
                    }
                    i = i + 1;
                }
            }
        }
    }
}

} // verus!
