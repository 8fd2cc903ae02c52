//! A strict total order on keys, used to enumerate a container's entries
//! deterministically: logical keys come first, ordered by `(counter, actor)`,
//! then string fields in lexicographic order of their characters.

use vstd::prelude::*;
use crate::types::{Key, KeyV};

verus! {

/// Strict lexicographic order on character sequences.
pub open spec fn lex_lt(a: Seq<char>, b: Seq<char>) -> bool
    decreases a.len(),
{
    if b.len() == 0 {
        false
    } else if a.len() == 0 {
        true
    } else if a[0] != b[0] {
        (a[0] as int) < (b[0] as int)
    } else {
        lex_lt(a.skip(1), b.skip(1))
    }
}

/// Strict total order on key views.
pub open spec fn key_lt(a: KeyV, b: KeyV) -> bool {
    match (a, b) {
        (KeyV::Logical { counter: c1, actor: a1 }, KeyV::Logical { counter: c2, actor: a2 }) => c1
            < c2 || (c1 == c2 && a1 < a2),
        (KeyV::Logical { .. }, KeyV::Field(_)) => true,
        (KeyV::Field(_), KeyV::Logical { .. }) => false,
        (KeyV::Field(s1), KeyV::Field(s2)) => lex_lt(s1, s2),
    }
}

/// Two character sequences are lexicographically ordered one way or the
/// other, unless they are equal.
pub proof fn lemma_lex_trichotomy(a: Seq<char>, b: Seq<char>)
    ensures
        lex_lt(a, b) || lex_lt(b, a) || a == b,
    decreases a.len(),
{
    if b.len() == 0 {
        if a.len() == 0 {
            assert(a =~= b);
        } else {
            assert(lex_lt(b, a));
        }
    } else if a.len() == 0 {
        assert(lex_lt(a, b));
    } else if a[0] != b[0] {
    } else {
        lemma_lex_trichotomy(a.skip(1), b.skip(1));
        if a.skip(1) == b.skip(1) {
            assert(a =~= b) by {
                assert(a.len() == a.skip(1).len() + 1);
                assert(forall|i: int|
                    1 <= i < a.len() ==> a[i] == a.skip(1)[i - 1] && b[i] == b.skip(1)[i - 1]);
            }
        }
    }
}

/// Lexicographic order is irreflexive.
pub proof fn lemma_lex_irrefl(a: Seq<char>)
    ensures
        !lex_lt(a, a),
    decreases a.len(),
{
    if a.len() > 0 {
        lemma_lex_irrefl(a.skip(1));
    }
}

/// Lexicographic order is transitive.
pub proof fn lemma_lex_trans(a: Seq<char>, b: Seq<char>, c: Seq<char>)
    requires
        lex_lt(a, b),
        lex_lt(b, c),
    ensures
        lex_lt(a, c),
    decreases a.len(),
{
    if a.len() == 0 {
    } else {
        // lex_lt(a, b) with a nonempty forces b nonempty; lex_lt(b, c) forces
        // c nonempty.
        if a[0] != b[0] {
            if b[0] != c[0] {
                assert((a[0] as int) < (c[0] as int));
            } else {
                assert(a[0] != c[0]);
            }
        } else {
            if b[0] != c[0] {
                assert(a[0] != c[0] || (a[0] as int) < (c[0] as int));
            } else {
                lemma_lex_trans(a.skip(1), b.skip(1), c.skip(1));
            }
        }
    }
}

/// The key order decides every pair of distinct keys.
pub proof fn lemma_key_trichotomy(a: KeyV, b: KeyV)
    ensures
        key_lt(a, b) || key_lt(b, a) || a == b,
{
    match (a, b) {
        (KeyV::Field(s1), KeyV::Field(s2)) => {
            lemma_lex_trichotomy(s1, s2);
        },
        _ => {},
    }
}

/// The key order is irreflexive.
pub proof fn lemma_key_irrefl(a: KeyV)
    ensures
        !key_lt(a, a),
{
    match a {
        KeyV::Field(s) => lemma_lex_irrefl(s),
        _ => {},
    }
}

/// The key order is transitive.
pub proof fn lemma_key_trans(a: KeyV, b: KeyV, c: KeyV)
    requires
        key_lt(a, b),
        key_lt(b, c),
    ensures
        key_lt(a, c),
{
    match (a, b, c) {
        (KeyV::Field(s1), KeyV::Field(s2), KeyV::Field(s3)) => {
            lemma_lex_trans(s1, s2, s3);
        },
        _ => {},
    }
}

/// A shared strict prefix leaves the lexicographic comparison to the tails.
proof fn lemma_lex_skip(a: Seq<char>, b: Seq<char>, i: int)
    requires
        0 <= i <= a.len(),
        i <= b.len(),
        forall|k: int| 0 <= k < i ==> a[k] == b[k],
    ensures
        lex_lt(a, b) == lex_lt(a.skip(i), b.skip(i)),
    decreases i,
{
    if i > 0 {
        // a and b agree on position 0, so the comparison recurses.
        assert(a.len() > 0 && b.len() > 0 && a[0] == b[0]);
        assert(lex_lt(a, b) == lex_lt(a.skip(1), b.skip(1)));
        lemma_lex_skip(a.skip(1), b.skip(1), i - 1);
        assert(a.skip(1).skip(i - 1) =~= a.skip(i));
        assert(b.skip(1).skip(i - 1) =~= b.skip(i));
    } else {
        assert(a.skip(0) =~= a);
        assert(b.skip(0) =~= b);
    }
}

/// Compare two strings in lexicographic order of their characters.
pub fn str_lt(a: &String, b: &String) -> (r: bool)
    ensures
        r == lex_lt(a@, b@),
{
    let la = a.as_str().unicode_len();
    let lb = b.as_str().unicode_len();
    let mut i: usize = 0;
    loop
        invariant
            i <= la,
            i <= lb,
            la == a@.len(),
            lb == b@.len(),
            forall|k: int| 0 <= k < i ==> a@[k] == b@[k],
        decreases la - i,
    {
        proof {
            lemma_lex_skip(a@, b@, i as int);
        }
        if i == la {
            // a is exhausted: a is smaller exactly when b goes on.
            return i < lb;
        }
        if i == lb {
            return false;
        }
        let ca = a.as_str().get_char(i);
        let cb = b.as_str().get_char(i);
        if ca != cb {
            return (ca as u32) < (cb as u32);
        }
        i = i + 1;
    }
}

/// Compare two keys in the crate's strict total key order.
pub fn key_lt_exec(a: &Key, b: &Key) -> (r: bool)
    ensures
        r == key_lt(a@, b@),
{
    match (a, b) {
        (Key::Logical { counter: c1, actor: a1 }, Key::Logical { counter: c2, actor: a2 }) => *c1
            < *c2 || (*c1 == *c2 && *a1 < *a2),
        (Key::Logical { .. }, Key::Field(_)) => true,
        (Key::Field(_), Key::Logical { .. }) => false,
        (Key::Field(s1), Key::Field(s2)) => str_lt(s1, s2),
    }
}

/// Whether two keys are equal.
pub fn key_eq(a: &Key, b: &Key) -> (r: bool)
    ensures
        r == (a@ == b@),
{
    match (a, b) {
        (Key::Logical { counter: c1, actor: a1 }, Key::Logical { counter: c2, actor: a2 }) => *c1
            == *c2 && *a1 == *a2,
        (Key::Field(s1), Key::Field(s2)) => s1.eq(s2),
        _ => false,
    }
}

} // verus!
