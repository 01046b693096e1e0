//! The record-management flow: responses of the DNS provider's API, the
//! cached configuration, and the decisions the flow takes between calls.
//!
//! The calls themselves (HTTP, prompts, the config file) live outside the
//! library; these functions take the plain values that come back and decide
//! what happens next.

use vstd::prelude::*;

use crate::labels::str_eq;

verus! {

/// One error entry reported by the DNS provider's API.
#[derive(Clone, Debug, PartialEq, Eq)]
pub struct CloudflareError {
    pub code: i32,
    pub message: String,
}

/// An API response envelope: error entries, and a result that is present
/// only on success.
#[derive(Clone, Debug, PartialEq, Eq)]
pub struct CloudflareResponse<T> {
    pub errors: Vec<CloudflareError>,
    pub result: Option<T>,
}

/// Why an API exchange failed.
#[derive(Clone, Debug, PartialEq, Eq)]
pub enum ApiError {
    /// The response carried error entries; they are surfaced as they came.
    Reported(Vec<CloudflareError>),
    /// The response carried neither errors nor a result.
    EmptyResult,
}

/// One DNS record as listed by the API.
#[derive(Clone, Debug, PartialEq, Eq)]
pub struct DnsListResponse {
    pub name: String,
    pub id: String,
    pub record_type: String,
    pub proxied: bool,
}

/// The body of a record creation or update call.
#[derive(Clone, Debug, PartialEq, Eq)]
pub struct DnsCreateUpdate {
    pub name: String,
    pub id: Option<String>,
    pub record_type: String,
    pub proxied: bool,
    pub content: String,
}

/// A zone the operator has configured: provider-assigned id and domain name.
#[derive(Clone, Debug, PartialEq, Eq)]
pub struct ZoneInfo {
    pub id: String,
    pub name: String,
}

/// The cached local configuration: known zones, the API key, and the network
/// the reverse proxy runs on.
#[derive(Clone, Debug, PartialEq, Eq)]
pub struct Config {
    pub zones: Vec<ZoneInfo>,
    pub cloudflare_key: String,
    pub caddy_network: String,
}

/// What to do with a record once the existing records are known.
#[derive(Clone, Debug, PartialEq, Eq)]
pub enum DnsPlan {
    /// A record of that name exists: update it, through its id.
    Update(String),
    /// No record of that name exists: create one.
    Create,
}

/// Unpacks an API response: reported errors are surfaced as they came, an
/// absent result is an error of its own, and otherwise the result is handed
/// out.
pub fn take_api_result<T>(r: CloudflareResponse<T>) -> (res: Result<T, ApiError>)
    ensures
        r.errors@.len() > 0 ==> res == Err::<T, ApiError>(ApiError::Reported(r.errors)),
        r.errors@.len() == 0 && r.result is Some ==> res == Ok::<T, ApiError>(r.result->Some_0),
        r.errors@.len() == 0 && r.result is None ==> res == Err::<T, ApiError>(
            ApiError::EmptyResult,
        ),
{
    if r.errors.len() > 0 {
        return Err(ApiError::Reported(r.errors));
    }
    match r.result {
        Some(t) => Ok(t),
        None => Err(ApiError::EmptyResult),
    }
}

/// First record with exactly the given name, or -1 when there is none.
pub open spec fn first_record_named(rs: Seq<DnsListResponse>, name: Seq<char>) -> int
    decreases rs.len(),
{
    if rs.len() == 0 {
        -1
    } else if rs[0].name@ == name {
        0
    } else if first_record_named(rs.drop_first(), name) == -1 {
        -1
    } else {
        1 + first_record_named(rs.drop_first(), name)
    }
}

pub proof fn lemma_first_record_named_props(rs: Seq<DnsListResponse>, name: Seq<char>)
    ensures
        first_record_named(rs, name) == -1 ==> forall|q: int|
            0 <= q < rs.len() ==> rs[q].name@ != name,
        first_record_named(rs, name) != -1 ==> {
            &&& 0 <= first_record_named(rs, name) < rs.len()
            &&& rs[first_record_named(rs, name)].name@ == name
            &&& forall|q: int| 0 <= q < first_record_named(rs, name) ==> rs[q].name@ != name
        },
    decreases rs.len(),
{
    if rs.len() == 0 {
    } else if rs[0].name@ == name {
    } else {
        let t = rs.drop_first();
        lemma_first_record_named_props(t, name);
        let r = first_record_named(t, name);
        if r == -1 {
            assert forall|q: int| 0 <= q < rs.len() implies rs[q].name@ != name by {
                if q > 0 {
                    assert(t[q - 1] == rs[q]);
                }
            }
        } else {
            assert(rs[r + 1] == t[r]);
            assert forall|q: int| 0 <= q < r + 1 implies rs[q].name@ != name by {
                if q > 0 {
                    assert(t[q - 1] == rs[q]);
                }
            }
        }
    }
}

/// `first_record_named` is pinned by its characteristic properties.
proof fn lemma_first_record_named_is(rs: Seq<DnsListResponse>, name: Seq<char>, p: int)
    requires
        0 <= p < rs.len(),
        rs[p].name@ == name,
        forall|q: int| 0 <= q < p ==> rs[q].name@ != name,
    ensures
        first_record_named(rs, name) == p,
{
    lemma_first_record_named_props(rs, name);
}

/// Decides the record exchange: when some listed record already has exactly
/// the requested name, the plan is to update the first such record through
/// its id; otherwise the plan is to create the record.
pub fn plan_dns_update(records: &Vec<DnsListResponse>, subdomain: &str) -> (r: DnsPlan)
    ensures
        first_record_named(records@, subdomain@) == -1 ==> r == DnsPlan::Create,
        first_record_named(records@, subdomain@) != -1 ==> r == DnsPlan::Update(
            records@[first_record_named(records@, subdomain@)].id,
        ),
{
    let n = records.len();
    let mut i: usize = 0;
    while i < n
        invariant
            i <= n,
            n == records@.len(),
            forall|q: int| 0 <= q < i ==> records@[q].name@ != subdomain@,
        decreases n - i,
    {
        let rec: &DnsListResponse = &records[i];
        if str_eq(rec.name.as_str(), subdomain) {
            proof {
                lemma_first_record_named_is(records@, subdomain@, i as int);
            }
            return DnsPlan::Update(rec.id.clone());
        }
        i = i + 1;
    }
    proof {
        lemma_first_record_named_props(records@, subdomain@);
    }
    DnsPlan::Create
}

/// The body for a record creation or update: always proxied, with the id
/// left to the caller's plan.
pub fn new_record_request(subdomain: String, record_type: String, target: String) -> (r:
    DnsCreateUpdate)
    ensures
        r.name == subdomain,
        r.id is None,
        r.record_type == record_type,
        r.proxied,
        r.content == target,
{
    DnsCreateUpdate { name: subdomain, id: None, record_type, proxied: true, content: target }
}

impl ZoneInfo {
    /// The zone as shown in a selection list: the domain name with the id in
    /// parentheses.
    pub fn display_string(&self) -> (r: String)
        ensures
            r@ == self.name@ + " ("@ + self.id@ + ")"@,
    {
        let mut r = self.name.clone();
        r.append(" (");
        r.append(self.id.as_str());
        r.append(")");
        proof {
            assert(r@ =~= self.name@ + " ("@ + self.id@ + ")"@);
        }
        r
    }
}

impl Config {
    /// The configuration written after the operator enters a fresh zone: that
    /// single zone, the API key that reached it, and no proxy network yet.
    pub fn with_new_zone(api_key: &str, zone_id: String, zone_name: String) -> (r: Config)
        ensures
            r.zones@.len() == 1,
            r.zones@[0].id == zone_id,
            r.zones@[0].name == zone_name,
            r.cloudflare_key@ == api_key@,
            r.caddy_network@ == Seq::<char>::empty(),
    {
        let mut zones: Vec<ZoneInfo> = Vec::new();
        zones.push(ZoneInfo { id: zone_id, name: zone_name });
        Config { zones, cloudflare_key: api_key.to_owned(), caddy_network: String::new() }
    }

    /// Whether the record flow must prompt for a zone before going on.
    pub fn needs_zone_prompt(&self) -> (r: bool)
        ensures
            r == (self.zones@.len() == 0),
    {
        self.zones.is_empty()
    }
}

/// The file names tried, in order, when no manifest path is given.
pub fn default_manifest_names() -> (r: Vec<String>)
    ensures
        r@.len() == 2,
        r@[0]@ == "compose.yaml"@,
        r@[1]@ == "docker-compose.yaml"@,
{
    let mut r: Vec<String> = Vec::new();
    r.push(String::from_str("compose.yaml"));
    r.push(String::from_str("docker-compose.yaml"));
    r
}

} // verus!
