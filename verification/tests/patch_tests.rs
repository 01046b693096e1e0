use eurus::document::{
    patch, ManifestDocument, NetworkAttachment, NetworkEntry, NetworkSettings, ServiceDefinition,
};
use eurus::labels::{Directive, Labels};
use eurus::PatchError;

fn directive(key: &str, value: &str) -> Directive {
    Directive { key: key.to_string(), value: value.to_string() }
}

fn list_service(labels: Vec<&str>, networks: Vec<&str>) -> ServiceDefinition<()> {
    ServiceDefinition {
        labels: Labels::List(labels.into_iter().map(|s| s.to_string()).collect()),
        networks: NetworkAttachment::Simple(networks.into_iter().map(|s| s.to_string()).collect()),
        extra: (),
    }
}

#[test]
fn patch_fills_empty_service_and_creates_network() {
    let doc: ManifestDocument<(), ()> = ManifestDocument {
        services: vec![("web".to_string(), Some(list_service(vec![], vec![])))],
        networks: vec![],
    };
    let directives = vec![directive("caddy", "example.com")];
    let out = patch(doc, "web", "edge", &directives, ()).unwrap();
    assert_eq!(
        out.services,
        vec![(
            "web".to_string(),
            Some(list_service(vec!["caddy=example.com"], vec!["edge"]))
        )]
    );
    assert_eq!(
        out.networks,
        vec![(
            "edge".to_string(),
            NetworkEntry::Settings(NetworkSettings { external: Some(true), extra: () })
        )]
    );
}

#[test]
fn patch_twice_gives_identical_document() {
    let doc: ManifestDocument<(), ()> = ManifestDocument {
        services: vec![("web".to_string(), Some(list_service(vec![], vec![])))],
        networks: vec![],
    };
    let directives = vec![directive("caddy", "example.com")];
    let once = patch(doc, "web", "edge", &directives, ()).unwrap();
    let twice = patch(once.clone(), "web", "edge", &directives, ()).unwrap();
    assert_eq!(twice, once);
}

#[test]
fn patch_missing_service_fails() {
    let doc: ManifestDocument<(), ()> = ManifestDocument {
        services: vec![("web".to_string(), Some(list_service(vec![], vec![])))],
        networks: vec![],
    };
    let directives = vec![directive("caddy", "example.com")];
    let r = patch(doc, "api", "edge", &directives, ());
    assert_eq!(r, Err(PatchError::MissingService));
}

#[test]
fn patch_empty_placeholder_service_fails() {
    let doc: ManifestDocument<(), ()> = ManifestDocument {
        services: vec![("web".to_string(), None)],
        networks: vec![],
    };
    let r = patch(doc, "web", "edge", &vec![], ());
    assert_eq!(r, Err(PatchError::MissingService));
}

#[test]
fn patch_leaves_other_services_and_networks_alone() {
    let other = list_service(vec!["x=y"], vec!["backend"]);
    let doc: ManifestDocument<(), i32> = ManifestDocument {
        services: vec![
            ("db".to_string(), Some(other.clone())),
            ("web".to_string(), Some(list_service(vec![], vec![]))),
            ("cache".to_string(), None),
        ],
        networks: vec![("backend".to_string(), NetworkEntry::Settings(NetworkSettings {
            external: None,
            extra: 7,
        }))],
    };
    let directives = vec![directive("caddy", "example.com")];
    let out = patch(doc, "web", "edge", &directives, 0).unwrap();
    assert_eq!(out.services[0], ("db".to_string(), Some(other)));
    assert_eq!(out.services[2], ("cache".to_string(), None));
    assert_eq!(
        out.networks[0],
        ("backend".to_string(), NetworkEntry::Settings(NetworkSettings {
            external: None,
            extra: 7,
        }))
    );
    assert_eq!(out.networks.len(), 2);
}

#[test]
fn patch_does_not_overwrite_existing_label_value() {
    let doc: ManifestDocument<(), ()> = ManifestDocument {
        services: vec![(
            "web".to_string(),
            Some(list_service(vec!["caddy=old.example.com"], vec![])),
        )],
        networks: vec![],
    };
    let directives = vec![directive("caddy", "new.example.com")];
    let out = patch(doc, "web", "edge", &directives, ()).unwrap();
    match &out.services[0].1.as_ref().unwrap().labels {
        Labels::List(l) => assert_eq!(l, &vec!["caddy=old.example.com".to_string()]),
        Labels::Table(_) => panic!("representation changed"),
    }
}

#[test]
fn patch_does_not_overwrite_existing_table_value() {
    let svc = ServiceDefinition {
        labels: Labels::Table(vec![("caddy".to_string(), "old.example.com".to_string())]),
        networks: NetworkAttachment::Simple(vec![]),
        extra: (),
    };
    let doc: ManifestDocument<(), ()> = ManifestDocument {
        services: vec![("web".to_string(), Some(svc))],
        networks: vec![],
    };
    let directives = vec![directive("caddy", "new.example.com")];
    let out = patch(doc, "web", "edge", &directives, ()).unwrap();
    match &out.services[0].1.as_ref().unwrap().labels {
        Labels::Table(t) => {
            assert_eq!(t, &vec![("caddy".to_string(), "old.example.com".to_string())])
        }
        Labels::List(_) => panic!("representation changed"),
    }
}

#[test]
fn patch_adds_new_directive_on_second_run() {
    let doc: ManifestDocument<(), ()> = ManifestDocument {
        services: vec![("web".to_string(), Some(list_service(vec![], vec![])))],
        networks: vec![],
    };
    let first = vec![directive("caddy", "example.com")];
    let second = vec![
        directive("caddy", "example.com"),
        directive("caddy.reverse_proxy", "{{ upstreams 8080 }}"),
    ];
    let once = patch(doc, "web", "edge", &first, ()).unwrap();
    let out = patch(once, "web", "edge", &second, ()).unwrap();
    match &out.services[0].1.as_ref().unwrap().labels {
        Labels::List(l) => assert_eq!(
            l,
            &vec![
                "caddy=example.com".to_string(),
                "caddy.reverse_proxy={{ upstreams 8080 }}".to_string()
            ]
        ),
        Labels::Table(_) => panic!("representation changed"),
    }
}

#[test]
fn first_directive_wins_when_two_share_a_key() {
    let doc: ManifestDocument<(), ()> = ManifestDocument {
        services: vec![("web".to_string(), Some(list_service(vec![], vec![])))],
        networks: vec![],
    };
    let directives = vec![directive("caddy", "first.example.com"), directive("caddy", "second.example.com")];
    let out = patch(doc, "web", "edge", &directives, ()).unwrap();
    match &out.services[0].1.as_ref().unwrap().labels {
        Labels::List(l) => assert_eq!(l, &vec!["caddy=first.example.com".to_string()]),
        Labels::Table(_) => panic!("representation changed"),
    }
}

#[test]
fn patch_preserves_network_settings_and_sets_external_only_if_unset() {
    let doc: ManifestDocument<(), String> = ManifestDocument {
        services: vec![("web".to_string(), Some(ServiceDefinition {
            labels: Labels::List(vec![]),
            networks: NetworkAttachment::Simple(vec![]),
            extra: (),
        }))],
        networks: vec![("edge".to_string(), NetworkEntry::Settings(NetworkSettings {
            external: None,
            extra: "bridge-driver".to_string(),
        }))],
    };
    let out = patch(doc, "web", "edge", &vec![], String::new()).unwrap();
    assert_eq!(
        out.networks,
        vec![("edge".to_string(), NetworkEntry::Settings(NetworkSettings {
            external: Some(true),
            extra: "bridge-driver".to_string(),
        }))]
    );
}

#[test]
fn patch_keeps_external_false_when_already_set() {
    let doc: ManifestDocument<(), ()> = ManifestDocument {
        services: vec![("web".to_string(), Some(list_service(vec![], vec![])))],
        networks: vec![(
            "edge".to_string(),
            NetworkEntry::Settings(NetworkSettings { external: Some(false), extra: () }),
        )],
    };
    let out = patch(doc, "web", "edge", &vec![], ()).unwrap();
    assert_eq!(
        out.networks,
        vec![(
            "edge".to_string(),
            NetworkEntry::Settings(NetworkSettings { external: Some(false), extra: () })
        )]
    );
}

#[test]
fn patch_materializes_empty_network_placeholder() {
    let doc: ManifestDocument<(), ()> = ManifestDocument {
        services: vec![("web".to_string(), Some(list_service(vec![], vec![])))],
        networks: vec![("edge".to_string(), NetworkEntry::Empty)],
    };
    let out = patch(doc, "web", "edge", &vec![], ()).unwrap();
    assert_eq!(
        out.networks,
        vec![(
            "edge".to_string(),
            NetworkEntry::Settings(NetworkSettings { external: Some(true), extra: () })
        )]
    );
}

#[test]
fn patch_does_not_attach_twice() {
    let doc: ManifestDocument<(), ()> = ManifestDocument {
        services: vec![("web".to_string(), Some(list_service(vec![], vec!["edge"])))],
        networks: vec![],
    };
    let out = patch(doc, "web", "edge", &vec![], ()).unwrap();
    match &out.services[0].1.as_ref().unwrap().networks {
        NetworkAttachment::Simple(v) => assert_eq!(v, &vec!["edge".to_string()]),
        NetworkAttachment::Advanced(_) => panic!("representation changed"),
    }
}

#[test]
fn patch_attaches_in_advanced_mapping_without_duplicate() {
    let svc = ServiceDefinition {
        labels: Labels::List(vec![]),
        networks: NetworkAttachment::Advanced(vec!["backend".to_string()]),
        extra: (),
    };
    let doc: ManifestDocument<(), ()> = ManifestDocument {
        services: vec![("web".to_string(), Some(svc))],
        networks: vec![],
    };
    let once = patch(doc, "web", "edge", &vec![], ()).unwrap();
    let out = patch(once, "web", "edge", &vec![], ()).unwrap();
    match &out.services[0].1.as_ref().unwrap().networks {
        NetworkAttachment::Advanced(v) => {
            assert_eq!(v, &vec!["backend".to_string(), "edge".to_string()])
        }
        NetworkAttachment::Simple(_) => panic!("representation changed"),
    }
}

#[test]
fn patch_idempotent_on_table_labels_and_existing_network() {
    let svc = ServiceDefinition {
        labels: Labels::Table(vec![("seen".to_string(), "yes".to_string())]),
        networks: NetworkAttachment::Simple(vec!["backend".to_string()]),
        extra: 5u8,
    };
    let doc: ManifestDocument<u8, u8> = ManifestDocument {
        services: vec![("web".to_string(), Some(svc))],
        networks: vec![("edge".to_string(), NetworkEntry::Empty)],
    };
    let directives = vec![directive("caddy", "example.com"), directive("caddy.tls", "internal")];
    let once = patch(doc, "web", "edge", &directives, 0).unwrap();
    let twice = patch(once.clone(), "web", "edge", &directives, 9).unwrap();
    assert_eq!(twice, once);
    assert_eq!(once.services[0].1.as_ref().unwrap().extra, 5u8);
}
