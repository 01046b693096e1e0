//! The manifest document and the idempotent routing patch.
//!
//! A document holds named services and named networks in the order the
//! manifest lists them.  The patch merges routing directives into one
//! service's labels (set-if-absent), makes sure the routed network exists as
//! an external network, and attaches it to the service without duplication.
//! Everything else in the document is left untouched.
//!
//! The type parameters carry what the patch never reads: `S` is the rest of a
//! service's definition, `N` the rest of a network's settings.

use vstd::prelude::*;

use crate::keys::{
    first_with_key, lemma_first_with_key_is, lemma_first_with_key_none,
};
use crate::labels::{
    add_or_ignore_label, directives_view, spec_add_label, spec_add_labels, str_eq, Directive,
    Labels, LabelsModel,
};
use crate::PatchError;

verus! {

/// How a service lists the networks it attaches to: a plain list of names or
/// a mapping keyed by name.  Both representations occur in manifests and both
/// are kept as found.
#[derive(Clone, Debug, PartialEq, Eq)]
pub enum NetworkAttachment {
    Simple(Vec<String>),
    Advanced(Vec<String>),
}

/// Mathematical view of `NetworkAttachment`.
#[verifier::ext_equal]
pub enum AttachModel {
    Simple(Seq<Seq<char>>),
    Advanced(Seq<Seq<char>>),
}

impl View for NetworkAttachment {
    type V = AttachModel;

    open spec fn view(&self) -> AttachModel {
        match self {
            NetworkAttachment::Simple(v) => AttachModel::Simple(v@.map_values(|s: String| s@)),
            NetworkAttachment::Advanced(v) => AttachModel::Advanced(
                v@.map_values(|s: String| s@),
            ),
        }
    }
}

/// Settings of a named network.  `extra` carries whatever settings the
/// document already had besides the `external` flag; the patch never reads
/// it.
#[derive(Clone, Debug, PartialEq, Eq)]
pub struct NetworkSettings<N> {
    pub external: Option<bool>,
    pub extra: N,
}

/// A named network entry: an empty placeholder or a settings record.
#[derive(Clone, Debug, PartialEq, Eq)]
pub enum NetworkEntry<N> {
    Empty,
    Settings(NetworkSettings<N>),
}

/// One deployable unit: its labels, its attached networks, and `extra`, the
/// rest of its definition, which the patch never reads.
#[derive(Clone, Debug, PartialEq, Eq)]
pub struct ServiceDefinition<S> {
    pub labels: Labels,
    pub networks: NetworkAttachment,
    pub extra: S,
}

/// Mathematical view of `ServiceDefinition`.
#[verifier::ext_equal]
pub struct ServiceModel<S> {
    pub labels: LabelsModel,
    pub networks: AttachModel,
    pub extra: S,
}

impl<S> View for ServiceDefinition<S> {
    type V = ServiceModel<S>;

    open spec fn view(&self) -> ServiceModel<S> {
        ServiceModel { labels: self.labels@, networks: self.networks@, extra: self.extra }
    }
}

/// The root document: a table of named services and a table of named
/// networks.  A service may be present only as an empty placeholder (`None`).
#[derive(Clone, Debug, PartialEq, Eq)]
pub struct ManifestDocument<S, N> {
    pub services: Vec<(String, Option<ServiceDefinition<S>>)>,
    pub networks: Vec<(String, NetworkEntry<N>)>,
}

/// Mathematical view of `ManifestDocument`.
#[verifier::ext_equal]
pub struct DocModel<S, N> {
    pub services: Seq<(Seq<char>, Option<ServiceModel<S>>)>,
    pub networks: Seq<(Seq<char>, NetworkEntry<N>)>,
}

impl<S, N> View for ManifestDocument<S, N> {
    type V = DocModel<S, N>;

    open spec fn view(&self) -> DocModel<S, N> {
        DocModel {
            services: self.services@.map_values(
                |p: (String, Option<ServiceDefinition<S>>)|
                    (
                        p.0@,
                        match p.1 {
                            Some(s) => Some(s@),
                            None => None,
                        },
                    ),
            ),
            networks: self.networks@.map_values(
                |p: (String, NetworkEntry<N>)| (p.0@, p.1),
            ),
        }
    }
}

/// Whether the attachments list the network named `n`.
pub open spec fn attach_contains(a: AttachModel, n: Seq<char>) -> bool {
    match a {
        AttachModel::Simple(s) => s.contains(n),
        AttachModel::Advanced(s) => s.contains(n),
    }
}

/// Attaches `n` when absent; an already-attached network is left alone.
pub open spec fn spec_attach(a: AttachModel, n: Seq<char>) -> AttachModel {
    if attach_contains(a, n) {
        a
    } else {
        match a {
            AttachModel::Simple(s) => AttachModel::Simple(s.push(n)),
            AttachModel::Advanced(s) => AttachModel::Advanced(s.push(n)),
        }
    }
}

/// Materializes a network entry as a settings record: a missing or empty
/// entry becomes external settings; on existing settings the `external` flag
/// is set only when previously unset, and everything else is kept.
pub open spec fn spec_force_external<N>(e: NetworkEntry<N>, empty: N) -> NetworkSettings<N> {
    match e {
        NetworkEntry::Empty => NetworkSettings { external: Some(true), extra: empty },
        NetworkEntry::Settings(ns) => NetworkSettings {
            external: if ns.external is None {
                Some(true)
            } else {
                ns.external
            },
            extra: ns.extra,
        },
    }
}

/// The networks table after the patch: the entry for `n` is created external
/// when absent, otherwise forced external in place; no other entry moves.
pub open spec fn spec_upsert_network<N>(
    nets: Seq<(Seq<char>, NetworkEntry<N>)>,
    n: Seq<char>,
    empty: N,
) -> Seq<(Seq<char>, NetworkEntry<N>)> {
    let j = first_with_key(nets, n);
    if j == -1 {
        nets.push(
            (n, NetworkEntry::Settings(NetworkSettings { external: Some(true), extra: empty })),
        )
    } else {
        nets.update(j, (n, NetworkEntry::Settings(spec_force_external(nets[j].1, empty))))
    }
}

/// Whether the document has a service named `name` that is present, not an
/// empty placeholder.
pub open spec fn service_present<S>(
    services: Seq<(Seq<char>, Option<ServiceModel<S>>)>,
    name: Seq<char>,
) -> bool {
    let i = first_with_key(services, name);
    i != -1 && services[i].1 is Some
}

/// The whole patch as a transformation of the document model.
pub open spec fn spec_patch<S, N>(
    d: DocModel<S, N>,
    svc: Seq<char>,
    net: Seq<char>,
    dirs: Seq<(Seq<char>, Seq<char>)>,
    empty: N,
) -> Result<DocModel<S, N>, PatchError> {
    let i = first_with_key(d.services, svc);
    if i == -1 {
        Err(PatchError::MissingService)
    } else {
        match d.services[i].1 {
            None => Err(PatchError::MissingService),
            Some(s) => {
                let s2 = ServiceModel {
                    labels: spec_add_labels(s.labels, dirs),
                    networks: spec_attach(s.networks, net),
                    extra: s.extra,
                };
                Ok(
                    DocModel {
                        services: d.services.update(i, (d.services[i].0, Some(s2))),
                        networks: spec_upsert_network(d.networks, net, empty),
                    },
                )
            },
        }
    }
}

/// First position in a keyed table whose name equals `name`.
fn find_name<T>(table: &Vec<(String, T)>, name: &str) -> (r: Option<usize>)
    ensures
        match r {
            Some(i) => {
                &&& i < table@.len()
                &&& table@[i as int].0@ == name@
                &&& forall|q: int| 0 <= q < i ==> table@[q].0@ != name@
            },
            None => forall|q: int| 0 <= q < table@.len() ==> table@[q].0@ != name@,
        },
{
    let n = table.len();
    let mut i: usize = 0;
    while i < n
        invariant
            i <= n,
            n == table@.len(),
            forall|q: int| 0 <= q < i ==> table@[q].0@ != name@,
        decreases n - i,
    {
        let e: &(String, T) = &table[i];
        if str_eq(e.0.as_str(), name) {
            return Some(i);
        }
        i = i + 1;
    }
    None
}

/// Attaches the named network to the service's attachments when absent; an
/// already-attached network is not listed twice.
pub fn attach_network(a: NetworkAttachment, name: &str) -> (r: NetworkAttachment)
    ensures
        r@ == spec_attach(a@, name@),
{
    match a {
        NetworkAttachment::Simple(v) => {
            let ghost m = v@.map_values(|s: String| s@);
            proof {
                assert(a@ == AttachModel::Simple(m));
            }
            let v2 = push_name_if_absent(v, name);
            proof {
                if m.contains(name@) {
                    assert(NetworkAttachment::Simple(v2)@ =~= AttachModel::Simple(m));
                } else {
                    assert(NetworkAttachment::Simple(v2)@ =~= AttachModel::Simple(m.push(name@)));
                }
            }
            NetworkAttachment::Simple(v2)
        },
        NetworkAttachment::Advanced(v) => {
            let ghost m = v@.map_values(|s: String| s@);
            proof {
                assert(a@ == AttachModel::Advanced(m));
            }
            let v2 = push_name_if_absent(v, name);
            proof {
                if m.contains(name@) {
                    assert(NetworkAttachment::Advanced(v2)@ =~= AttachModel::Advanced(m));
                } else {
                    assert(NetworkAttachment::Advanced(v2)@ =~= AttachModel::Advanced(
                        m.push(name@),
                    ));
                }
            }
            NetworkAttachment::Advanced(v2)
        },
    }
}

/// Appends `name` unless some element already equals it.
fn push_name_if_absent(v: Vec<String>, name: &str) -> (r: Vec<String>)
    ensures
        v@.map_values(|s: String| s@).contains(name@) ==> r@ == v@,
        !v@.map_values(|s: String| s@).contains(name@) ==> r@.map_values(|s: String| s@)
            == v@.map_values(|s: String| s@).push(name@),
{
    let ghost m = v@.map_values(|s: String| s@);
    let n = v.len();
    let mut i: usize = 0;
    while i < n
        invariant
            i <= n,
            n == v@.len(),
            m == v@.map_values(|s: String| s@),
            forall|j: int| 0 <= j < i ==> m[j] != name@,
        decreases n - i,
    {
        let e: &String = &v[i];
        if str_eq(e.as_str(), name) {
            proof {
                assert(m[i as int] == name@);
            }
            return v;
        }
        i = i + 1;
    }
    proof {
        assert(!m.contains(name@));
    }
    let mut v = v;
    v.push(name.to_owned());
    proof {
        assert(v@.map_values(|s: String| s@) =~= m.push(name@));
    }
    v
}

/// Forces a network entry into a settings record per `spec_force_external`.
pub fn force_external_entry<N>(e: NetworkEntry<N>, empty: N) -> (r: NetworkSettings<N>)
    ensures
        r == spec_force_external(e, empty),
{
    match e {
        NetworkEntry::Empty => NetworkSettings { external: Some(true), extra: empty },
        NetworkEntry::Settings(ns) => match ns.external {
            None => NetworkSettings { external: Some(true), extra: ns.extra },
            Some(b) => NetworkSettings { external: Some(b), extra: ns.extra },
        },
    }
}

/// Applies the routing patch to the document: merges `directives` into the
/// labels of the service named `service_name` with set-if-absent semantics,
/// makes sure the network named `network_name` exists as an external network
/// (created from `empty_settings` when absent), and attaches that network to
/// the service.  Nothing else in the document changes.  Fails with
/// `MissingService`, and changes nothing, when the named service is absent or
/// an empty placeholder.
#[verifier::loop_isolation(false)]
pub fn patch<S, N>(
    doc: ManifestDocument<S, N>,
    service_name: &str,
    network_name: &str,
    directives: &Vec<Directive>,
    empty_settings: N,
) -> (r: Result<ManifestDocument<S, N>, PatchError>)
    ensures
        match r {
            Ok(d2) => Ok::<DocModel<S, N>, PatchError>(d2@) == spec_patch(
                doc@,
                service_name@,
                network_name@,
                directives_view(directives@),
                empty_settings,
            ),
            Err(e) => Err::<DocModel<S, N>, PatchError>(e) == spec_patch(
                doc@,
                service_name@,
                network_name@,
                directives_view(directives@),
                empty_settings,
            ),
        },
        r is Ok <==> service_present(doc@.services, service_name@),
{
    let ghost dm = doc@;
    let ghost dv = directives_view(directives@);
    let mut doc = doc;
    proof {
        assert(dm.services =~= doc@.services);
    }

    let i = match find_name(&doc.services, service_name) {
        None => {
            proof {
                assert forall|q: int| 0 <= q < dm.services.len() implies dm.services[q].0
                    != service_name@ by {
                    assert(dm.services[q].0 == doc.services@[q].0@);
                }
                lemma_first_with_key_none(dm.services, service_name@);
            }
            return Err(PatchError::MissingService);
        },
        Some(i) => i,
    };
    proof {
        assert(dm.services[i as int].0 == doc.services@[i as int].0@);
        assert forall|q: int| 0 <= q < i implies dm.services[q].0 != service_name@ by {
            assert(dm.services[q].0 == doc.services@[q].0@);
        }
        lemma_first_with_key_is(dm.services, service_name@, i as int);
    }

    let ghost services0 = doc.services@;
    let (svc_name, svc_opt) = doc.services.remove(i);
    let svc = match svc_opt {
        None => {
            proof {
                assert(dm.services[i as int].1 is None);
            }
            return Err(PatchError::MissingService);
        },
        Some(s) => s,
    };
    proof {
        assert(dm.services[i as int].1 == Some(svc@));
    }

    let ServiceDefinition { labels, networks, extra } = svc;
    let ghost labels0 = labels@;
    let mut labels = labels;

    let k = directives.len();
    let mut t: usize = 0;
    while t < k
        invariant
            t <= k,
            labels@ == spec_add_labels(labels0, dv.take(t as int)),
        decreases k - t,
    {
        let d: &Directive = &directives[t];
        labels = add_or_ignore_label(labels, d.key.as_str(), d.value.as_str());
        proof {
            lemma_add_labels_take_step(labels0, dv, t as int);
        }
        t = t + 1;
    }
    proof {
        assert(dv.take(k as int) =~= dv);
    }

    let networks2 = attach_network(networks, network_name);

    let ghost networks0 = doc.networks@;
    proof {
        assert(dm.networks =~= doc@.networks);
    }
    match find_name(&doc.networks, network_name) {
        Some(j) => {
            proof {
                assert(dm.networks[j as int].0 == doc.networks@[j as int].0@);
                assert forall|q: int| 0 <= q < j implies dm.networks[q].0 != network_name@ by {
                    assert(dm.networks[q].0 == doc.networks@[q].0@);
                }
                lemma_first_with_key_is(dm.networks, network_name@, j as int);
            }
            let (_net_name, entry) = doc.networks.remove(j);
            let ns = force_external_entry(entry, empty_settings);
            doc.networks.insert(j, (network_name.to_owned(), NetworkEntry::Settings(ns)));
            proof {
                assert(doc.networks@ =~= networks0.update(
                    j as int,
                    (doc.networks@[j as int].0, NetworkEntry::Settings(ns)),
                ));
                assert(doc@.networks =~= spec_upsert_network(
                    dm.networks,
                    network_name@,
                    empty_settings,
                ));
            }
        },
        None => {
            proof {
                assert forall|q: int| 0 <= q < dm.networks.len() implies dm.networks[q].0
                    != network_name@ by {
                    assert(dm.networks[q].0 == doc.networks@[q].0@);
                }
                lemma_first_with_key_none(dm.networks, network_name@);
            }
            doc.networks.push(
                (
                    network_name.to_owned(),
                    NetworkEntry::Settings(
                        NetworkSettings { external: Some(true), extra: empty_settings },
                    ),
                ),
            );
            proof {
                assert(doc@.networks =~= spec_upsert_network(
                    dm.networks,
                    network_name@,
                    empty_settings,
                ));
            }
        },
    }

    let svc2 = ServiceDefinition { labels, networks: networks2, extra };
    let ghost s2 = svc2@;
    doc.services.insert(i, (svc_name, Some(svc2)));
    proof {
        assert(doc.services@ =~= services0.update(i as int, (doc.services@[i as int].0, Some(
            ServiceDefinition { labels, networks: networks2, extra },
        ))));
        assert(doc@.services =~= dm.services.update(
            i as int,
            (dm.services[i as int].0, Some(s2)),
        ));
        assert(doc@ =~= spec_patch(dm, service_name@, network_name@, dv, empty_settings)->Ok_0);
    }
    Ok(doc)
}

/// One more directive folded in: taking one directive more merges it into the
/// labels merged so far.
proof fn lemma_add_labels_take_step(
    l: LabelsModel,
    dirs: Seq<(Seq<char>, Seq<char>)>,
    t: int,
)
    requires
        0 <= t < dirs.len(),
    ensures
        spec_add_labels(l, dirs.take(t + 1)) == spec_add_label(
            spec_add_labels(l, dirs.take(t)),
            dirs[t].0,
            dirs[t].1,
        ),
{
    assert(dirs.take(t + 1) =~= dirs.take(t).push(dirs[t]));
    lemma_add_labels_snoc(l, dirs.take(t), dirs[t]);
}

/// Folding from the left: merging `a` then one more directive is merging
/// `a.push(d)`.
proof fn lemma_add_labels_snoc(
    l: LabelsModel,
    a: Seq<(Seq<char>, Seq<char>)>,
    d: (Seq<char>, Seq<char>),
)
    ensures
        spec_add_labels(l, a.push(d)) == spec_add_label(spec_add_labels(l, a), d.0, d.1),
    decreases a.len(),
{
    if a.len() == 0 {
        assert(a.push(d)[0] == d);
        assert(a.push(d).drop_first() =~= a);
        assert(spec_add_labels(l, a.push(d)) == spec_add_labels(
            spec_add_label(l, d.0, d.1),
            a,
        ));
        assert(spec_add_labels(spec_add_label(l, d.0, d.1), a) == spec_add_label(l, d.0, d.1));
        assert(spec_add_labels(l, a) == l);
    } else {
        assert(a.push(d)[0] == a[0]);
        assert(a.push(d).drop_first() =~= a.drop_first().push(d));
        let l1 = spec_add_label(l, a[0].0, a[0].1);
        assert(spec_add_labels(l, a.push(d)) == spec_add_labels(l1, a.drop_first().push(d)));
        lemma_add_labels_snoc(l1, a.drop_first(), d);
        assert(spec_add_labels(l, a) == spec_add_labels(l1, a.drop_first()));
    }
}

} // verus!
