use eurus::dns::{
    default_manifest_names, new_record_request, plan_dns_update, take_api_result, ApiError,
    CloudflareError, CloudflareResponse, Config, DnsListResponse, DnsPlan, ZoneInfo,
};
use eurus::labels::{add_or_ignore_label, Labels};

fn record(name: &str, id: &str) -> DnsListResponse {
    DnsListResponse {
        name: name.to_string(),
        id: id.to_string(),
        record_type: "CNAME".to_string(),
        proxied: true,
    }
}

#[test]
fn api_result_surfaces_reported_errors() {
    let r: CloudflareResponse<u32> = CloudflareResponse {
        errors: vec![CloudflareError { code: 9109, message: "Invalid access token".to_string() }],
        result: Some(3),
    };
    let errors = r.errors.clone();
    assert_eq!(take_api_result(r), Err(ApiError::Reported(errors)));
}

#[test]
fn api_result_hands_out_the_result() {
    let r: CloudflareResponse<u32> = CloudflareResponse { errors: vec![], result: Some(3) };
    assert_eq!(take_api_result(r), Ok(3));
}

#[test]
fn api_result_rejects_missing_result() {
    let r: CloudflareResponse<u32> = CloudflareResponse { errors: vec![], result: None };
    assert_eq!(take_api_result(r), Err(ApiError::EmptyResult));
}

#[test]
fn plan_updates_first_record_with_exact_name() {
    let records = vec![
        record("a.example.com", "id-1"),
        record("b.example.com", "id-2"),
        record("b.example.com", "id-3"),
    ];
    assert_eq!(
        plan_dns_update(&records, "b.example.com"),
        DnsPlan::Update("id-2".to_string())
    );
}

#[test]
fn plan_creates_when_no_record_matches() {
    let records = vec![record("a.example.com", "id-1")];
    assert_eq!(plan_dns_update(&records, "c.example.com"), DnsPlan::Create);
    assert_eq!(plan_dns_update(&vec![], "c.example.com"), DnsPlan::Create);
}

#[test]
fn plan_requires_exact_match() {
    let records = vec![record("a.example.com", "id-1")];
    assert_eq!(plan_dns_update(&records, "a.example"), DnsPlan::Create);
    assert_eq!(plan_dns_update(&records, "a.example.com."), DnsPlan::Create);
}

#[test]
fn record_request_is_proxied_and_has_no_id() {
    let r = new_record_request(
        "sub.example.com".to_string(),
        "CNAME".to_string(),
        "example.com".to_string(),
    );
    assert_eq!(r.name, "sub.example.com");
    assert_eq!(r.id, None);
    assert_eq!(r.record_type, "CNAME");
    assert!(r.proxied);
    assert_eq!(r.content, "example.com");
}

#[test]
fn zone_display_string_shows_name_and_id() {
    let z = ZoneInfo { id: "abc123".to_string(), name: "example.com".to_string() };
    assert_eq!(z.display_string(), "example.com (abc123)");
}

#[test]
fn fresh_zone_config_holds_one_zone_and_the_key() {
    let c = Config::with_new_zone("test-api-key", "zone-1".to_string(), "example.com".to_string());
    assert_eq!(c.zones.len(), 1);
    assert_eq!(c.zones[0].id, "zone-1");
    assert_eq!(c.zones[0].name, "example.com");
    assert_eq!(c.cloudflare_key, "test-api-key");
    assert_eq!(c.caddy_network, "");
    assert!(!c.needs_zone_prompt());
}

#[test]
fn empty_zone_list_needs_prompting() {
    let c = Config {
        zones: vec![],
        cloudflare_key: "k".to_string(),
        caddy_network: "edge".to_string(),
    };
    assert!(c.needs_zone_prompt());
}

#[test]
fn default_manifest_names_in_order() {
    let names = default_manifest_names();
    assert_eq!(names, vec!["compose.yaml".to_string(), "docker-compose.yaml".to_string()]);
}

#[test]
fn label_merge_skips_present_key_in_list_form() {
    let l = Labels::List(vec!["caddy=a.example.com".to_string()]);
    let l = add_or_ignore_label(l, "caddy", "b.example.com");
    assert_eq!(l, Labels::List(vec!["caddy=a.example.com".to_string()]));
    let l = add_or_ignore_label(l, "caddy.tls", "internal");
    assert_eq!(
        l,
        Labels::List(vec![
            "caddy=a.example.com".to_string(),
            "caddy.tls=internal".to_string()
        ])
    );
}

#[test]
fn label_merge_treats_entry_without_separator_as_bare_key() {
    let l = Labels::List(vec!["caddy".to_string()]);
    let l = add_or_ignore_label(l, "caddy", "example.com");
    assert_eq!(l, Labels::List(vec!["caddy".to_string()]));
}

#[test]
fn label_merge_skips_present_key_in_table_form() {
    let l = Labels::Table(vec![("caddy".to_string(), "a.example.com".to_string())]);
    let l = add_or_ignore_label(l, "caddy", "b.example.com");
    assert_eq!(l, Labels::Table(vec![("caddy".to_string(), "a.example.com".to_string())]));
    let l = add_or_ignore_label(l, "port", "8080");
    assert_eq!(
        l,
        Labels::Table(vec![
            ("caddy".to_string(), "a.example.com".to_string()),
            ("port".to_string(), "8080".to_string())
        ])
    );
}
