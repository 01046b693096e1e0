//! Service labels and the set-if-absent merge of routing directives.

use vstd::prelude::*;

use crate::keys::{
    entry_has_key, entry_value, first_with_key, label_key, lemma_first_with_key_is,
    lemma_first_with_key_none, make_label,
};

verus! {

/// A routing directive: one key/value instruction to merge into a service's
/// labels.
#[derive(Clone, Debug, PartialEq, Eq)]
pub struct Directive {
    pub key: String,
    pub value: String,
}

impl View for Directive {
    type V = (Seq<char>, Seq<char>);

    open spec fn view(&self) -> (Seq<char>, Seq<char>) {
        (self.key@, self.value@)
    }
}

/// A service's labels: either a list of `key=value` entries or a table from
/// key to value.  Both representations occur in manifests and both are kept
/// as found.
#[derive(Clone, Debug, PartialEq, Eq)]
pub enum Labels {
    List(Vec<String>),
    Table(Vec<(String, String)>),
}

/// Mathematical view of `Labels`.
#[verifier::ext_equal]
pub enum LabelsModel {
    List(Seq<Seq<char>>),
    Table(Seq<(Seq<char>, Seq<char>)>),
}

impl View for Labels {
    type V = LabelsModel;

    open spec fn view(&self) -> LabelsModel {
        match self {
            Labels::List(v) => LabelsModel::List(v@.map_values(|s: String| s@)),
            Labels::Table(v) => LabelsModel::Table(
                v@.map_values(|p: (String, String)| (p.0@, p.1@)),
            ),
        }
    }
}

/// View of a directive sequence as key/value pairs.
pub open spec fn directives_view(s: Seq<Directive>) -> Seq<(Seq<char>, Seq<char>)> {
    s.map_values(|d: Directive| (d.key@, d.value@))
}

/// First index of a list entry whose key is `k`, or -1 when there is none.
pub open spec fn first_entry_with_key(s: Seq<Seq<char>>, k: Seq<char>) -> int
    decreases s.len(),
{
    if s.len() == 0 {
        -1
    } else if label_key(s[0]) == k {
        0
    } else if first_entry_with_key(s.drop_first(), k) == -1 {
        -1
    } else {
        1 + first_entry_with_key(s.drop_first(), k)
    }
}

pub proof fn lemma_first_entry_with_key_props(s: Seq<Seq<char>>, k: Seq<char>)
    ensures
        first_entry_with_key(s, k) == -1 ==> forall|q: int|
            0 <= q < s.len() ==> label_key(s[q]) != k,
        first_entry_with_key(s, k) != -1 ==> {
            &&& 0 <= first_entry_with_key(s, k) < s.len()
            &&& label_key(s[first_entry_with_key(s, k)]) == k
            &&& forall|q: int| 0 <= q < first_entry_with_key(s, k) ==> label_key(s[q]) != k
        },
    decreases s.len(),
{
    if s.len() == 0 {
    } else if label_key(s[0]) == k {
    } else {
        let t = s.drop_first();
        lemma_first_entry_with_key_props(t, k);
        let r = first_entry_with_key(t, k);
        if r == -1 {
            assert forall|q: int| 0 <= q < s.len() implies label_key(s[q]) != k by {
                if q > 0 {
                    assert(t[q - 1] == s[q]);
                }
            }
        } else {
            assert(s[r + 1] == t[r]);
            assert forall|q: int| 0 <= q < r + 1 implies label_key(s[q]) != k by {
                if q > 0 {
                    assert(t[q - 1] == s[q]);
                }
            }
        }
    }
}

/// `first_entry_with_key` is pinned by its characteristic properties.
pub proof fn lemma_first_entry_with_key_is(s: Seq<Seq<char>>, k: Seq<char>, p: int)
    requires
        0 <= p < s.len(),
        label_key(s[p]) == k,
        forall|q: int| 0 <= q < p ==> label_key(s[q]) != k,
    ensures
        first_entry_with_key(s, k) == p,
{
    lemma_first_entry_with_key_props(s, k);
}

/// A list with no entry keyed `k` has no first index for it.
pub proof fn lemma_first_entry_with_key_none(s: Seq<Seq<char>>, k: Seq<char>)
    requires
        forall|q: int| 0 <= q < s.len() ==> label_key(s[q]) != k,
    ensures
        first_entry_with_key(s, k) == -1,
{
    lemma_first_entry_with_key_props(s, k);
}

/// Whether the labels record some entry with key `k`.
pub open spec fn has_label_key(l: LabelsModel, k: Seq<char>) -> bool {
    match l {
        LabelsModel::List(s) => first_entry_with_key(s, k) != -1,
        LabelsModel::Table(s) => first_with_key(s, k) != -1,
    }
}

/// The value recorded for key `k`: the value of the first entry with that
/// key, or `None` when there is no such entry.
pub open spec fn label_value(l: LabelsModel, k: Seq<char>) -> Option<Seq<char>> {
    match l {
        LabelsModel::List(s) => {
            let i = first_entry_with_key(s, k);
            if i == -1 {
                None
            } else {
                Some(entry_value(s[i]))
            }
        },
        LabelsModel::Table(s) => {
            let i = first_with_key(s, k);
            if i == -1 {
                None
            } else {
                Some(s[i].1)
            }
        },
    }
}

/// One set-if-absent merge step: when some entry already has key `k`, the
/// labels are unchanged; otherwise the pair is appended.
pub open spec fn spec_add_label(l: LabelsModel, k: Seq<char>, v: Seq<char>) -> LabelsModel {
    if has_label_key(l, k) {
        l
    } else {
        match l {
            LabelsModel::List(s) => LabelsModel::List(s.push(k + seq!['='] + v)),
            LabelsModel::Table(s) => LabelsModel::Table(s.push((k, v))),
        }
    }
}

/// Merges an ordered sequence of directives, first directive first.
pub open spec fn spec_add_labels(l: LabelsModel, dirs: Seq<(Seq<char>, Seq<char>)>) -> LabelsModel
    decreases dirs.len(),
{
    if dirs.len() == 0 {
        l
    } else {
        spec_add_labels(spec_add_label(l, dirs[0].0, dirs[0].1), dirs.drop_first())
    }
}

/// Merges one directive into the labels with set-if-absent semantics: when an
/// entry with the same key exists already, the labels come back unchanged.
pub fn add_or_ignore_label(labels: Labels, key: &str, value: &str) -> (r: Labels)
    ensures
        r@ == spec_add_label(labels@, key@, value@),
{
    match labels {
        Labels::List(l) => {
            let ghost m = l@.map_values(|s: String| s@);
            proof {
                assert(labels@ == LabelsModel::List(m));
            }
            let mut l = l;
            let n = l.len();
            let mut i: usize = 0;
            while i < n
                invariant
                    i <= n,
                    n == l@.len(),
                    m == l@.map_values(|s: String| s@),
                    labels@ == LabelsModel::List(m),
                    forall|j: int| 0 <= j < i ==> label_key(m[j]) != key@,
                decreases n - i,
            {
                let e: &String = &l[i];
                if entry_has_key(e.as_str(), key) {
                    proof {
                        lemma_first_entry_with_key_is(m, key@, i as int);
                        assert(Labels::List(l)@ =~= LabelsModel::List(m));
                    }
                    return Labels::List(l);
                }
                i = i + 1;
            }
            proof {
                lemma_first_entry_with_key_none(m, key@);
            }
            let entry = make_label(key, value);
            l.push(entry);
            proof {
                assert(l@.map_values(|s: String| s@) =~= m.push(key@ + seq!['='] + value@));
            }
            Labels::List(l)
        },
        Labels::Table(t) => {
            let ghost m = t@.map_values(|p: (String, String)| (p.0@, p.1@));
            proof {
                assert(labels@ == LabelsModel::Table(m));
            }
            let mut t = t;
            let n = t.len();
            let mut i: usize = 0;
            while i < n
                invariant
                    i <= n,
                    n == t@.len(),
                    m == t@.map_values(|p: (String, String)| (p.0@, p.1@)),
                    labels@ == LabelsModel::Table(m),
                    forall|j: int| 0 <= j < i ==> m[j].0 != key@,
                decreases n - i,
            {
                let e: &(String, String) = &t[i];
                if str_eq(e.0.as_str(), key) {
                    proof {
                        lemma_first_with_key_is(m, key@, i as int);
                        assert(Labels::Table(t)@ =~= LabelsModel::Table(m));
                    }
                    return Labels::Table(t);
                }
                i = i + 1;
            }
            proof {
                lemma_first_with_key_none(m, key@);
            }
            t.push((key.to_owned(), value.to_owned()));
            proof {
                assert(t@.map_values(|p: (String, String)| (p.0@, p.1@)) =~= m.push(
                    (key@, value@),
                ));
            }
            Labels::Table(t)
        },
    }
}

/// Character-for-character equality of two string slices.
pub fn str_eq(a: &str, b: &str) -> (r: bool)
    ensures
        r == (a@ == b@),
{
    let na = a.unicode_len();
    let nb = b.unicode_len();
    if na != nb {
        return false;
    }
    let mut i: usize = 0;
    while i < na
        invariant
            i <= na,
            na == a@.len(),
            na == b@.len(),
            forall|j: int| 0 <= j < i ==> a@[j] == b@[j],
        decreases na - i,
    {
        if a.get_char(i) != b.get_char(i) {
            return false;
        }
        i = i + 1;
    }
    proof {
        assert(a@ =~= b@);
    }
    true
}

} // verus!
