//! Keys of label entries and of keyed tables.
//!
//! A label entry in list form is written `key=value`; its key is everything
//! before the first `'='`.  Services and networks live in tables of
//! `(name, entry)` pairs looked up by their first occurrence.

use vstd::prelude::*;

verus! {

/// Position of the first `'='` in `s`, or `s.len()` when there is none.
pub open spec fn eq_pos(s: Seq<char>) -> int
    decreases s.len(),
{
    if s.len() == 0 {
        0
    } else if s[0] == '=' {
        0
    } else {
        1 + eq_pos(s.drop_first())
    }
}

/// The key of a label entry written `key=value`: the part before the first
/// `'='`, or the whole entry when it has none.
pub open spec fn label_key(s: Seq<char>) -> Seq<char> {
    s.take(eq_pos(s))
}

/// The value of a label entry written `key=value`: the part after the first
/// `'='`, or empty when it has none.
pub open spec fn entry_value(s: Seq<char>) -> Seq<char> {
    if eq_pos(s) < s.len() {
        s.skip(eq_pos(s) + 1)
    } else {
        Seq::empty()
    }
}

/// Whether `k` contains no `'='`, so that it can serve as the key of a
/// `key=value` entry.
pub open spec fn has_no_eq(k: Seq<char>) -> bool {
    forall|i: int| 0 <= i < k.len() ==> k[i] != '='
}

proof fn lemma_eq_pos_bounds(s: Seq<char>)
    ensures
        0 <= eq_pos(s) <= s.len(),
        forall|i: int| 0 <= i < eq_pos(s) ==> s[i] != '=',
        eq_pos(s) < s.len() ==> s[eq_pos(s)] == '=',
    decreases s.len(),
{
    if s.len() == 0 {
    } else if s[0] == '=' {
    } else {
        lemma_eq_pos_bounds(s.drop_first());
        assert forall|i: int| 0 <= i < eq_pos(s) implies s[i] != '=' by {
            if i > 0 {
                assert(s.drop_first()[i - 1] == s[i]);
            }
        }
        if eq_pos(s) < s.len() {
            assert(s.drop_first()[eq_pos(s) - 1] == s[eq_pos(s)]);
        }
    }
}

/// `eq_pos` is pinned by its characteristic properties.
proof fn lemma_eq_pos_is(s: Seq<char>, p: int)
    requires
        0 <= p <= s.len(),
        forall|i: int| 0 <= i < p ==> s[i] != '=',
        p < s.len() ==> s[p] == '=',
    ensures
        eq_pos(s) == p,
    decreases s.len(),
{
    if s.len() == 0 {
    } else if s[0] == '=' {
        assert(p == 0);
    } else {
        assert(p >= 1);
        let t = s.drop_first();
        assert forall|i: int| 0 <= i < p - 1 implies t[i] != '=' by {
            assert(t[i] == s[i + 1]);
        }
        if p - 1 < t.len() {
            assert(t[p - 1] == s[p]);
        }
        lemma_eq_pos_is(t, p - 1);
    }
}

/// The key of a joined `key=value` entry is the key again, as long as the key
/// itself contains no `'='`.
pub proof fn lemma_label_key_of_join(k: Seq<char>, v: Seq<char>)
    requires
        has_no_eq(k),
    ensures
        label_key(k + seq!['='] + v) == k,
        entry_value(k + seq!['='] + v) == v,
{
    let s = k + seq!['='] + v;
    assert forall|i: int| 0 <= i < k.len() implies s[i] != '=' by {
        assert(s[i] == k[i]);
    }
    assert(s[k.len() as int] == '=');
    lemma_eq_pos_is(s, k.len() as int);
    assert(s.take(k.len() as int) =~= k);
    assert(s.skip(k.len() as int + 1) =~= v);
}

/// Length in characters of the key part of a label entry.
pub fn entry_key_len(s: &str) -> (p: usize)
    ensures
        p == eq_pos(s@),
{
    let n: usize = s.unicode_len();
    let mut i: usize = 0;
    while i < n
        invariant
            i <= n,
            n == s@.len(),
            forall|j: int| 0 <= j < i ==> s@[j] != '=',
        decreases n - i,
    {
        if s.get_char(i) == '=' {
            proof {
                lemma_eq_pos_is(s@, i as int);
            }
            return i;
        }
        i = i + 1;
    }
    proof {
        lemma_eq_pos_is(s@, n as int);
    }
    n
}

/// Whether the label entry `entry` has key `key`.
pub fn entry_has_key(entry: &str, key: &str) -> (b: bool)
    ensures
        b == (label_key(entry@) == key@),
{
    proof {
        lemma_eq_pos_bounds(entry@);
    }
    let p = entry_key_len(entry);
    let kl = key.unicode_len();
    if p != kl {
        proof {
            assert(label_key(entry@).len() != key@.len());
        }
        return false;
    }
    let mut i: usize = 0;
    while i < p
        invariant
            i <= p,
            p == eq_pos(entry@),
            p <= entry@.len(),
            p == key@.len(),
            forall|j: int| 0 <= j < i ==> entry@[j] == key@[j],
        decreases p - i,
    {
        if entry.get_char(i) != key.get_char(i) {
            proof {
                assert(label_key(entry@)[i as int] == entry@[i as int]);
            }
            return false;
        }
        i = i + 1;
    }
    proof {
        assert(label_key(entry@) =~= key@);
    }
    true
}

/// Joins a key and a value into a `key=value` label entry.
pub fn make_label(key: &str, value: &str) -> (r: String)
    ensures
        r@ == key@ + seq!['='] + value@,
{
    proof {
        reveal_strlit("=");
    }
    let mut r = key.to_owned();
    r.append("=");
    r.append(value);
    proof {
        assert(r@ =~= key@ + seq!['='] + value@);
    }
    r
}

/// First index of a pair whose key is `k` in a keyed table, or -1 when there
/// is none.
pub open spec fn first_with_key<T>(s: Seq<(Seq<char>, T)>, k: Seq<char>) -> int
    decreases s.len(),
{
    if s.len() == 0 {
        -1
    } else if s[0].0 == k {
        0
    } else if first_with_key(s.drop_first(), k) == -1 {
        -1
    } else {
        1 + first_with_key(s.drop_first(), k)
    }
}

pub proof fn lemma_first_with_key_props<T>(s: Seq<(Seq<char>, T)>, k: Seq<char>)
    ensures
        first_with_key(s, k) == -1 ==> forall|q: int| 0 <= q < s.len() ==> s[q].0 != k,
        first_with_key(s, k) != -1 ==> {
            &&& 0 <= first_with_key(s, k) < s.len()
            &&& s[first_with_key(s, k)].0 == k
            &&& forall|q: int| 0 <= q < first_with_key(s, k) ==> s[q].0 != k
        },
    decreases s.len(),
{
    if s.len() == 0 {
    } else if s[0].0 == k {
    } else {
        let t = s.drop_first();
        lemma_first_with_key_props(t, k);
        let r = first_with_key(t, k);
        if r == -1 {
            assert forall|q: int| 0 <= q < s.len() implies s[q].0 != k by {
                if q > 0 {
                    assert(t[q - 1] == s[q]);
                }
            }
        } else {
            assert(s[r + 1] == t[r]);
            assert forall|q: int| 0 <= q < r + 1 implies s[q].0 != k by {
                if q > 0 {
                    assert(t[q - 1] == s[q]);
                }
            }
        }
    }
}

/// `first_with_key` is pinned by its characteristic properties.
pub proof fn lemma_first_with_key_is<T>(s: Seq<(Seq<char>, T)>, k: Seq<char>, p: int)
    requires
        0 <= p < s.len(),
        s[p].0 == k,
        forall|q: int| 0 <= q < p ==> s[q].0 != k,
    ensures
        first_with_key(s, k) == p,
{
    lemma_first_with_key_props(s, k);
    let r = first_with_key(s, k);
    if r == -1 {
    } else if r < p {
    } else if r > p {
    }
}

/// A table with no pair keyed `k` has no first index for it.
pub proof fn lemma_first_with_key_none<T>(s: Seq<(Seq<char>, T)>, k: Seq<char>)
    requires
        forall|q: int| 0 <= q < s.len() ==> s[q].0 != k,
    ensures
        first_with_key(s, k) == -1,
{
    lemma_first_with_key_props(s, k);
}

} // verus!
