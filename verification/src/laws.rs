//! Properties of the patch, stated and proved over the document model.

use vstd::prelude::*;

use crate::document::{
    attach_contains, spec_attach, spec_force_external, spec_patch, spec_upsert_network,
    AttachModel, DocModel, NetworkEntry, NetworkSettings, ServiceModel,
};
use crate::keys::{
    first_with_key, has_no_eq, label_key, lemma_first_with_key_is, lemma_first_with_key_none,
    lemma_first_with_key_props, lemma_label_key_of_join,
};
use crate::labels::{
    first_entry_with_key, has_label_key, label_value, lemma_first_entry_with_key_is,
    lemma_first_entry_with_key_none, lemma_first_entry_with_key_props, spec_add_label,
    spec_add_labels, LabelsModel,
};
use crate::PatchError;

verus! {

/// How appending an entry moves the first index of a key in a label list:
/// an index already found stays; otherwise the new entry decides.
proof fn lemma_first_entry_push(s: Seq<Seq<char>>, k: Seq<char>, e: Seq<char>)
    ensures
        first_entry_with_key(s.push(e), k) == if first_entry_with_key(s, k) != -1 {
            first_entry_with_key(s, k)
        } else if label_key(e) == k {
            s.len() as int
        } else {
            -1
        },
{
    lemma_first_entry_with_key_props(s, k);
    let p = first_entry_with_key(s, k);
    if p != -1 {
        assert(s.push(e)[p] == s[p]);
        assert forall|q: int| 0 <= q < p implies label_key(s.push(e)[q]) != k by {
            assert(s.push(e)[q] == s[q]);
        }
        lemma_first_entry_with_key_is(s.push(e), k, p);
    } else if label_key(e) == k {
        assert(s.push(e)[s.len() as int] == e);
        assert forall|q: int| 0 <= q < s.len() implies label_key(s.push(e)[q]) != k by {
            assert(s.push(e)[q] == s[q]);
        }
        lemma_first_entry_with_key_is(s.push(e), k, s.len() as int);
    } else {
        assert forall|q: int| 0 <= q < s.push(e).len() implies label_key(s.push(e)[q]) != k by {
            if q < s.len() {
                assert(s.push(e)[q] == s[q]);
            } else {
                assert(s.push(e)[q] == e);
            }
        }
        lemma_first_entry_with_key_none(s.push(e), k);
    }
}

/// The same for a keyed table of pairs.
proof fn lemma_first_with_key_push<T>(s: Seq<(Seq<char>, T)>, k: Seq<char>, e: (Seq<char>, T))
    ensures
        first_with_key(s.push(e), k) == if first_with_key(s, k) != -1 {
            first_with_key(s, k)
        } else if e.0 == k {
            s.len() as int
        } else {
            -1
        },
{
    lemma_first_with_key_props(s, k);
    let p = first_with_key(s, k);
    if p != -1 {
        assert(s.push(e)[p] == s[p]);
        assert forall|q: int| 0 <= q < p implies s.push(e)[q].0 != k by {
            assert(s.push(e)[q] == s[q]);
        }
        lemma_first_with_key_is(s.push(e), k, p);
    } else if e.0 == k {
        assert(s.push(e)[s.len() as int] == e);
        assert forall|q: int| 0 <= q < s.len() implies s.push(e)[q].0 != k by {
            assert(s.push(e)[q] == s[q]);
        }
        lemma_first_with_key_is(s.push(e), k, s.len() as int);
    } else {
        assert forall|q: int| 0 <= q < s.push(e).len() implies s.push(e)[q].0 != k by {
            if q < s.len() {
                assert(s.push(e)[q] == s[q]);
            } else {
                assert(s.push(e)[q] == e);
            }
        }
        lemma_first_with_key_none(s.push(e), k);
    }
}

/// A key stays recorded through any further merge step.
proof fn lemma_add_label_monotone(l: LabelsModel, k: Seq<char>, k2: Seq<char>, v2: Seq<char>)
    requires
        has_label_key(l, k),
    ensures
        has_label_key(spec_add_label(l, k2, v2), k),
{
    if !has_label_key(l, k2) {
        match l {
            LabelsModel::List(s) => {
                lemma_first_entry_push(s, k, k2 + seq!['='] + v2);
            },
            LabelsModel::Table(s) => {
                lemma_first_with_key_push(s, k, (k2, v2));
            },
        }
    }
}

/// Merging a directive records its key, as long as the key holds no `'='`.
proof fn lemma_add_label_records(l: LabelsModel, k: Seq<char>, v: Seq<char>)
    requires
        has_no_eq(k),
    ensures
        has_label_key(spec_add_label(l, k, v), k),
{
    if !has_label_key(l, k) {
        match l {
            LabelsModel::List(s) => {
                lemma_label_key_of_join(k, v);
                lemma_first_entry_push(s, k, k + seq!['='] + v);
            },
            LabelsModel::Table(s) => {
                lemma_first_with_key_push(s, k, (k, v));
            },
        }
    }
}

/// A key stays recorded through a whole merge.
proof fn lemma_add_labels_monotone(
    l: LabelsModel,
    dirs: Seq<(Seq<char>, Seq<char>)>,
    k: Seq<char>,
)
    requires
        has_label_key(l, k),
    ensures
        has_label_key(spec_add_labels(l, dirs), k),
    decreases dirs.len(),
{
    if dirs.len() > 0 {
        lemma_add_label_monotone(l, k, dirs[0].0, dirs[0].1);
        lemma_add_labels_monotone(spec_add_label(l, dirs[0].0, dirs[0].1), dirs.drop_first(), k);
    }
}

/// After a merge every directive key is recorded, as long as no key holds a
/// `'='`.
proof fn lemma_add_labels_records_all(l: LabelsModel, dirs: Seq<(Seq<char>, Seq<char>)>)
    requires
        forall|q: int| 0 <= q < dirs.len() ==> has_no_eq(#[trigger] dirs[q].0),
    ensures
        forall|q: int| 0 <= q < dirs.len() ==> has_label_key(
            spec_add_labels(l, dirs),
            #[trigger] dirs[q].0,
        ),
    decreases dirs.len(),
{
    if dirs.len() > 0 {
        let l1 = spec_add_label(l, dirs[0].0, dirs[0].1);
        lemma_add_label_records(l, dirs[0].0, dirs[0].1);
        lemma_add_labels_monotone(l1, dirs.drop_first(), dirs[0].0);
        lemma_add_labels_records_all(l1, dirs.drop_first());
        assert forall|q: int| 0 <= q < dirs.len() implies has_label_key(
            spec_add_labels(l, dirs),
            #[trigger] dirs[q].0,
        ) by {
            if q > 0 {
                assert(dirs.drop_first()[q - 1] == dirs[q]);
            }
        }
    }
}

/// Merging directives whose keys are all recorded already changes nothing.
proof fn lemma_add_labels_noop(l: LabelsModel, dirs: Seq<(Seq<char>, Seq<char>)>)
    requires
        forall|q: int| 0 <= q < dirs.len() ==> has_label_key(l, #[trigger] dirs[q].0),
    ensures
        spec_add_labels(l, dirs) == l,
    decreases dirs.len(),
{
    if dirs.len() > 0 {
        assert(spec_add_label(l, dirs[0].0, dirs[0].1) == l);
        assert forall|q: int| 0 <= q < dirs.drop_first().len() implies has_label_key(
            l,
            #[trigger] dirs.drop_first()[q].0,
        ) by {
            assert(dirs.drop_first()[q] == dirs[q + 1]);
        }
        lemma_add_labels_noop(l, dirs.drop_first());
    }
}

/// Merging the same directives a second time changes nothing, as long as no
/// directive key holds a `'='`.
pub proof fn lemma_add_labels_idempotent(l: LabelsModel, dirs: Seq<(Seq<char>, Seq<char>)>)
    requires
        forall|q: int| 0 <= q < dirs.len() ==> has_no_eq(#[trigger] dirs[q].0),
    ensures
        spec_add_labels(spec_add_labels(l, dirs), dirs) == spec_add_labels(l, dirs),
{
    lemma_add_labels_records_all(l, dirs);
    lemma_add_labels_noop(spec_add_labels(l, dirs), dirs);
}

/// Set-if-absent: a key that is already recorded keeps its value through any
/// merge, whatever values the directives carry for it.
pub proof fn lemma_set_if_absent(
    l: LabelsModel,
    dirs: Seq<(Seq<char>, Seq<char>)>,
    k: Seq<char>,
)
    requires
        has_label_key(l, k),
    ensures
        label_value(spec_add_labels(l, dirs), k) == label_value(l, k),
    decreases dirs.len(),
{
    if dirs.len() > 0 {
        let l1 = spec_add_label(l, dirs[0].0, dirs[0].1);
        if !has_label_key(l, dirs[0].0) {
            match l {
                LabelsModel::List(s) => {
                    let e = dirs[0].0 + seq!['='] + dirs[0].1;
                    lemma_first_entry_with_key_props(s, k);
                    lemma_first_entry_push(s, k, e);
                    assert(s.push(e)[first_entry_with_key(s, k)] == s[first_entry_with_key(
                        s,
                        k,
                    )]);
                },
                LabelsModel::Table(s) => {
                    let e = (dirs[0].0, dirs[0].1);
                    lemma_first_with_key_props(s, k);
                    lemma_first_with_key_push(s, k, e);
                    assert(s.push(e)[first_with_key(s, k)] == s[first_with_key(s, k)]);
                },
            }
        }
        assert(label_value(l1, k) == label_value(l, k));
        lemma_add_label_monotone(l, k, dirs[0].0, dirs[0].1);
        lemma_set_if_absent(l1, dirs.drop_first(), k);
    }
}

/// After an attach the network is listed.
pub proof fn lemma_attach_listed(a: AttachModel, n: Seq<char>)
    ensures
        attach_contains(spec_attach(a, n), n),
{
    broadcast use vstd::seq_lib::lemma_seq_contains_after_push;

}

/// Attachment dedup: attaching a network that is already listed changes
/// nothing, so a second attach never duplicates an entry.
pub proof fn lemma_attach_dedup(a: AttachModel, n: Seq<char>)
    requires
        attach_contains(a, n),
    ensures
        spec_attach(a, n) == a,
{
}

/// Attaching twice is attaching once.
pub proof fn lemma_attach_idempotent(a: AttachModel, n: Seq<char>)
    ensures
        spec_attach(spec_attach(a, n), n) == spec_attach(a, n),
{
    lemma_attach_listed(a, n);
    lemma_attach_dedup(spec_attach(a, n), n);
}

/// Network creation: when the document has no entry for the network, the
/// patched table gains one, marked external, built from the empty settings.
pub proof fn lemma_network_created<N>(
    nets: Seq<(Seq<char>, NetworkEntry<N>)>,
    n: Seq<char>,
    empty: N,
)
    requires
        first_with_key(nets, n) == -1,
    ensures
        ({
            let nets2 = spec_upsert_network(nets, n, empty);
            &&& first_with_key(nets2, n) == nets.len()
            &&& nets2[nets.len() as int] == (
                n,
                NetworkEntry::Settings(NetworkSettings { external: Some(true), extra: empty }),
            )
            &&& nets2.len() == nets.len() + 1
        }),
{
    let e = (n, NetworkEntry::Settings(NetworkSettings { external: Some(true), extra: empty }));
    lemma_first_with_key_push(nets, n, e);
    assert(nets.push(e)[nets.len() as int] == e);
}

/// Network preservation: on an entry already present as a settings record,
/// the patch keeps every other setting and the position, and touches the
/// `external` flag only when it was unset.
pub proof fn lemma_network_preserved<N>(
    nets: Seq<(Seq<char>, NetworkEntry<N>)>,
    n: Seq<char>,
    empty: N,
    ns: NetworkSettings<N>,
)
    requires
        first_with_key(nets, n) != -1,
        nets[first_with_key(nets, n)].1 == NetworkEntry::Settings(ns),
    ensures
        ({
            let j = first_with_key(nets, n);
            let nets2 = spec_upsert_network(nets, n, empty);
            &&& nets2.len() == nets.len()
            &&& nets2[j] == (
                n,
                NetworkEntry::Settings(
                    NetworkSettings {
                        external: if ns.external is None {
                            Some(true)
                        } else {
                            ns.external
                        },
                        extra: ns.extra,
                    },
                ),
            )
            &&& forall|q: int| 0 <= q < nets.len() && q != j ==> nets2[q] == nets[q]
        }),
{
    lemma_first_with_key_props(nets, n);
}

/// Forcing a network entry external twice is forcing it once.
proof fn lemma_upsert_idempotent<N>(
    nets: Seq<(Seq<char>, NetworkEntry<N>)>,
    n: Seq<char>,
    empty1: N,
    empty2: N,
)
    ensures
        spec_upsert_network(spec_upsert_network(nets, n, empty1), n, empty2)
            == spec_upsert_network(nets, n, empty1),
{
    let j = first_with_key(nets, n);
    lemma_first_with_key_props(nets, n);
    let nets2 = spec_upsert_network(nets, n, empty1);
    if j == -1 {
        let e = (
            n,
            NetworkEntry::Settings(NetworkSettings { external: Some(true), extra: empty1 }),
        );
        lemma_first_with_key_push(nets, n, e);
        assert(nets2[nets.len() as int] == e);
        assert(nets2.update(nets.len() as int, e) =~= nets2);
    } else {
        let f = spec_force_external(nets[j].1, empty1);
        let e = (n, NetworkEntry::Settings(f));
        assert(nets2[j] == e);
        assert forall|q: int| 0 <= q < j implies nets2[q].0 != n by {
            assert(nets2[q] == nets[q]);
        }
        lemma_first_with_key_is(nets2, n, j);
        assert(spec_force_external(nets2[j].1, empty2) == f);
        assert(nets2.update(j, e) =~= nets2);
    }
}

/// Whether every label entry records a distinct key.
pub open spec fn labels_unique(l: LabelsModel) -> bool {
    match l {
        LabelsModel::List(s) => forall|a: int, b: int|
            0 <= a < b < s.len() ==> label_key(s[a]) != label_key(s[b]),
        LabelsModel::Table(s) => forall|a: int, b: int| 0 <= a < b < s.len() ==> s[a].0 != s[b].0,
    }
}

/// Whether no network is attached twice.
pub open spec fn attach_unique(a: AttachModel) -> bool {
    match a {
        AttachModel::Simple(s) => forall|x: int, y: int| 0 <= x < y < s.len() ==> s[x] != s[y],
        AttachModel::Advanced(s) => forall|x: int, y: int| 0 <= x < y < s.len() ==> s[x] != s[y],
    }
}

/// Whether every pair of a keyed table has a distinct key.
pub open spec fn table_keys_unique<T>(s: Seq<(Seq<char>, T)>) -> bool {
    forall|x: int, y: int| 0 <= x < y < s.len() ==> s[x].0 != s[y].0
}

/// A well-formed document: distinct service names, distinct network names,
/// and within each present service distinct label keys and attachments.
pub open spec fn doc_wf<S, N>(d: DocModel<S, N>) -> bool {
    &&& table_keys_unique(d.services)
    &&& table_keys_unique(d.networks)
    &&& forall|q: int| 0 <= q < d.services.len() && #[trigger] d.services[q].1 is Some ==> {
        &&& labels_unique(d.services[q].1->Some_0.labels)
        &&& attach_unique(d.services[q].1->Some_0.networks)
    }
}

/// One merge step keeps label keys distinct, as long as the directive key
/// holds no `'='`.
proof fn lemma_add_label_unique(l: LabelsModel, k: Seq<char>, v: Seq<char>)
    requires
        labels_unique(l),
        has_no_eq(k),
    ensures
        labels_unique(spec_add_label(l, k, v)),
{
    if !has_label_key(l, k) {
        match l {
            LabelsModel::List(s) => {
                let e = k + seq!['='] + v;
                lemma_label_key_of_join(k, v);
                lemma_first_entry_with_key_props(s, k);
                assert forall|a: int, b: int| 0 <= a < b < s.push(e).len() implies label_key(
                    s.push(e)[a],
                ) != label_key(s.push(e)[b]) by {
                    if b < s.len() {
                        assert(s.push(e)[a] == s[a]);
                        assert(s.push(e)[b] == s[b]);
                    } else {
                        assert(s.push(e)[a] == s[a]);
                        assert(s.push(e)[b] == e);
                    }
                }
            },
            LabelsModel::Table(s) => {
                let e = (k, v);
                lemma_first_with_key_props(s, k);
                assert forall|a: int, b: int| 0 <= a < b < s.push(e).len() implies s.push(
                    e,
                )[a].0 != s.push(e)[b].0 by {
                    if b < s.len() {
                        assert(s.push(e)[a] == s[a]);
                        assert(s.push(e)[b] == s[b]);
                    } else {
                        assert(s.push(e)[a] == s[a]);
                        assert(s.push(e)[b] == e);
                    }
                }
            },
        }
    }
}

/// A whole merge keeps label keys distinct, as long as no directive key
/// holds a `'='`.
proof fn lemma_add_labels_unique(l: LabelsModel, dirs: Seq<(Seq<char>, Seq<char>)>)
    requires
        labels_unique(l),
        forall|q: int| 0 <= q < dirs.len() ==> has_no_eq(#[trigger] dirs[q].0),
    ensures
        labels_unique(spec_add_labels(l, dirs)),
    decreases dirs.len(),
{
    if dirs.len() > 0 {
        lemma_add_label_unique(l, dirs[0].0, dirs[0].1);
        lemma_add_labels_unique(spec_add_label(l, dirs[0].0, dirs[0].1), dirs.drop_first());
    }
}

/// An attach keeps the attachments distinct.
proof fn lemma_attach_unique(a: AttachModel, n: Seq<char>)
    requires
        attach_unique(a),
    ensures
        attach_unique(spec_attach(a, n)),
{
    if !attach_contains(a, n) {
        match a {
            AttachModel::Simple(s) => {
                assert forall|x: int, y: int| 0 <= x < y < s.push(n).len() implies s.push(
                    n,
                )[x] != s.push(n)[y] by {
                    if y < s.len() {
                        assert(s.push(n)[x] == s[x]);
                        assert(s.push(n)[y] == s[y]);
                    } else {
                        assert(s.push(n)[x] == s[x]);
                        assert(s.contains(s[x]));
                    }
                }
            },
            AttachModel::Advanced(s) => {
                assert forall|x: int, y: int| 0 <= x < y < s.push(n).len() implies s.push(
                    n,
                )[x] != s.push(n)[y] by {
                    if y < s.len() {
                        assert(s.push(n)[x] == s[x]);
                        assert(s.push(n)[y] == s[y]);
                    } else {
                        assert(s.push(n)[x] == s[x]);
                        assert(s.contains(s[x]));
                    }
                }
            },
        }
    }
}

/// The upsert keeps network names distinct.
proof fn lemma_upsert_unique<N>(nets: Seq<(Seq<char>, NetworkEntry<N>)>, n: Seq<char>, empty: N)
    requires
        table_keys_unique(nets),
    ensures
        table_keys_unique(spec_upsert_network(nets, n, empty)),
{
    let j = first_with_key(nets, n);
    lemma_first_with_key_props(nets, n);
    let nets2 = spec_upsert_network(nets, n, empty);
    if j == -1 {
        assert forall|x: int, y: int| 0 <= x < y < nets2.len() implies nets2[x].0 != nets2[y].0
            by {
            if y < nets.len() {
                assert(nets2[x] == nets[x]);
                assert(nets2[y] == nets[y]);
            } else {
                assert(nets2[x] == nets[x]);
            }
        }
    } else {
        assert(nets[j].0 == n);
        assert forall|x: int, y: int| 0 <= x < y < nets2.len() implies nets2[x].0 != nets2[y].0
            by {
            assert(nets2[x].0 == nets[x].0);
            assert(nets2[y].0 == nets[y].0);
        }
    }
}

/// The patch keeps the document well formed, as long as no directive key
/// holds a `'='`: names stay distinct, and so do the patched service's label
/// keys and attachments.
pub proof fn lemma_patch_preserves_wf<S, N>(
    d: DocModel<S, N>,
    d2: DocModel<S, N>,
    svc: Seq<char>,
    net: Seq<char>,
    dirs: Seq<(Seq<char>, Seq<char>)>,
    empty: N,
)
    requires
        doc_wf(d),
        spec_patch(d, svc, net, dirs, empty) == Ok::<DocModel<S, N>, PatchError>(d2),
        forall|q: int| 0 <= q < dirs.len() ==> has_no_eq(#[trigger] dirs[q].0),
    ensures
        doc_wf(d2),
{
    let i = first_with_key(d.services, svc);
    lemma_first_with_key_props(d.services, svc);
    let s = d.services[i].1->Some_0;
    lemma_add_labels_unique(s.labels, dirs);
    lemma_attach_unique(s.networks, net);
    lemma_upsert_unique(d.networks, net, empty);
    assert forall|x: int, y: int| 0 <= x < y < d2.services.len() implies d2.services[x].0 != d2
        .services[y].0 by {
        assert(d2.services[x].0 == d.services[x].0);
        assert(d2.services[y].0 == d.services[y].0);
    }
    assert forall|q: int| 0 <= q < d2.services.len() && #[trigger] d2.services[q].1
        is Some implies {
        &&& labels_unique(d2.services[q].1->Some_0.labels)
        &&& attach_unique(d2.services[q].1->Some_0.networks)
    } by {
        if q != i {
            assert(d2.services[q] == d.services[q]);
        }
    }
}

/// Idempotence: patching a patched document again, with the same service
/// name, network name and directives, gives the patched document back
/// unchanged, whatever empty settings the second run would create networks
/// from.  Holds as long as no directive key contains a `'='`.
pub proof fn lemma_patch_idempotent<S, N>(
    d: DocModel<S, N>,
    d2: DocModel<S, N>,
    svc: Seq<char>,
    net: Seq<char>,
    dirs: Seq<(Seq<char>, Seq<char>)>,
    empty1: N,
    empty2: N,
)
    requires
        spec_patch(d, svc, net, dirs, empty1) == Ok::<DocModel<S, N>, PatchError>(d2),
        forall|q: int| 0 <= q < dirs.len() ==> has_no_eq(#[trigger] dirs[q].0),
    ensures
        spec_patch(d2, svc, net, dirs, empty2) == Ok::<DocModel<S, N>, PatchError>(d2),
{
    let i = first_with_key(d.services, svc);
    lemma_first_with_key_props(d.services, svc);
    let s = d.services[i].1->Some_0;
    let s2 = ServiceModel {
        labels: spec_add_labels(s.labels, dirs),
        networks: spec_attach(s.networks, net),
        extra: s.extra,
    };
    assert(d2.services == d.services.update(i, (d.services[i].0, Some(s2))));
    assert(d2.networks == spec_upsert_network(d.networks, net, empty1));

    // the service is found at the same place in the patched document
    assert(d2.services[i] == (d.services[i].0, Some(s2)));
    assert forall|q: int| 0 <= q < i implies d2.services[q].0 != svc by {
        assert(d2.services[q] == d.services[q]);
    }
    lemma_first_with_key_is(d2.services, svc, i);

    // a second merge and a second attach change nothing
    lemma_add_labels_idempotent(s.labels, dirs);
    lemma_attach_idempotent(s.networks, net);
    let s3 = ServiceModel {
        labels: spec_add_labels(s2.labels, dirs),
        networks: spec_attach(s2.networks, net),
        extra: s2.extra,
    };
    assert(s3 =~= s2);
    assert(d2.services.update(i, (d2.services[i].0, Some(s3))) =~= d2.services);

    lemma_upsert_idempotent(d.networks, net, empty1, empty2);

    let r2 = spec_patch(d2, svc, net, dirs, empty2);
    assert(r2->Ok_0 =~= d2);
}

/// Set-if-absent at the document: a label key that the patched service
/// already records keeps its value through the patch, whatever values the
/// directives carry for that key.
pub proof fn lemma_patch_keeps_label_value<S, N>(
    d: DocModel<S, N>,
    d2: DocModel<S, N>,
    svc: Seq<char>,
    net: Seq<char>,
    dirs: Seq<(Seq<char>, Seq<char>)>,
    empty: N,
    k: Seq<char>,
)
    requires
        spec_patch(d, svc, net, dirs, empty) == Ok::<DocModel<S, N>, PatchError>(d2),
        has_label_key(d.services[first_with_key(d.services, svc)].1->Some_0.labels, k),
    ensures
        ({
            let before = d.services[first_with_key(d.services, svc)].1->Some_0.labels;
            let after = d2.services[first_with_key(d.services, svc)].1->Some_0.labels;
            label_value(after, k) == label_value(before, k)
        }),
{
    let i = first_with_key(d.services, svc);
    lemma_first_with_key_props(d.services, svc);
    let s = d.services[i].1->Some_0;
    assert(d2.services[i].1->Some_0.labels == spec_add_labels(s.labels, dirs));
    lemma_set_if_absent(s.labels, dirs, k);
}

/// Attachment dedup at the document: when the patched service already lists
/// the routed network, its attachments come through the patch unchanged.
pub proof fn lemma_patch_attachments_unchanged<S, N>(
    d: DocModel<S, N>,
    d2: DocModel<S, N>,
    svc: Seq<char>,
    net: Seq<char>,
    dirs: Seq<(Seq<char>, Seq<char>)>,
    empty: N,
)
    requires
        spec_patch(d, svc, net, dirs, empty) == Ok::<DocModel<S, N>, PatchError>(d2),
        attach_contains(d.services[first_with_key(d.services, svc)].1->Some_0.networks, net),
    ensures
        d2.services[first_with_key(d.services, svc)].1->Some_0.networks == d.services[
            first_with_key(d.services, svc)
        ].1->Some_0.networks,
{
    let i = first_with_key(d.services, svc);
    lemma_first_with_key_props(d.services, svc);
    let s = d.services[i].1->Some_0;
    lemma_attach_dedup(s.networks, net);
}

/// Non-interference: every service other than the patched one, and every
/// network other than the routed one, is exactly what it was before the
/// patch; the tables keep their order, and at most the routed network's entry
/// is appended.
pub proof fn lemma_patch_non_interference<S, N>(
    d: DocModel<S, N>,
    d2: DocModel<S, N>,
    svc: Seq<char>,
    net: Seq<char>,
    dirs: Seq<(Seq<char>, Seq<char>)>,
    empty: N,
)
    requires
        spec_patch(d, svc, net, dirs, empty) == Ok::<DocModel<S, N>, PatchError>(d2),
    ensures
        d2.services.len() == d.services.len(),
        forall|q: int| 0 <= q < d.services.len() && d.services[q].0 != svc ==> d2.services[q]
            == d.services[q],
        d.networks.len() <= d2.networks.len() <= d.networks.len() + 1,
        forall|q: int| 0 <= q < d.networks.len() && d.networks[q].0 != net ==> d2.networks[q]
            == d.networks[q],
{
    let i = first_with_key(d.services, svc);
    lemma_first_with_key_props(d.services, svc);
    assert forall|q: int| 0 <= q < d.services.len() && d.services[q].0 != svc implies d2.services[q]
        == d.services[q] by {
        assert(q != i);
    }
    let j = first_with_key(d.networks, net);
    lemma_first_with_key_props(d.networks, net);
    if j == -1 {
        assert forall|q: int| 0 <= q < d.networks.len() implies d2.networks[q] == d.networks[q] by {
            assert(d2.networks == d.networks.push(
                (
                    net,
                    NetworkEntry::Settings(
                        NetworkSettings { external: Some(true), extra: empty },
                    ),
                ),
            ));
        }
    } else {
        assert forall|q: int| 0 <= q < d.networks.len() && d.networks[q].0 != net implies d2
            .networks[q] == d.networks[q] by {
            assert(q != j);
        }
    }
}

} // verus!
