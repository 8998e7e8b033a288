//! The devices of a cluster as its configuration file lists them, where
//! each one reports its telemetry, and which of them answered.

use vstd::prelude::*;
use crate::text::{
    append_decimal, decimal, decimal_value, is_decimal_text, lemma_decimal_round_trip, views,
};

verus! {

/// One worker device: its name, its address, the port of its telemetry
/// endpoint and the port of its `rpc-server`.
#[derive(Debug, Clone)]
pub struct DeviceConfig {
    pub id: String,
    pub host: String,
    pub telemetry_port: u16,
    pub rpc_port: u16,
}

impl DeviceConfig {
    /// A field-for-field copy.
    pub fn duplicate(&self) -> (copy: DeviceConfig)
        ensures
            copy == *self,
    {
        DeviceConfig {
            id: self.id.clone(),
            host: self.host.clone(),
            telemetry_port: self.telemetry_port,
            rpc_port: self.rpc_port,
        }
    }
}

/// `http://<host>:<port>/telemetry`.
pub open spec fn telemetry_url_text(host: Seq<char>, port: u16) -> Seq<char> {
    "http://"@ + host + ":"@ + decimal(port as nat) + "/telemetry"@
}

/// The URL at which `device` serves its telemetry profile.
pub fn telemetry_url(device: &DeviceConfig) -> (url: String)
    ensures
        url@ == telemetry_url_text(device.host@, device.telemetry_port),
{
    let mut url = String::new();
    url.append("http://");
    url.append(device.host.as_str());
    url.append(":");
    append_decimal(&mut url, device.telemetry_port as u64);
    url.append("/telemetry");
    proof {
        assert(url@ =~= telemetry_url_text(device.host@, device.telemetry_port));
    }
    url
}

/// The telemetry URL is `http://`, the host exactly as configured, `:`,
/// decimal digits that read back as the telemetry port, and `/telemetry`.
pub proof fn lemma_telemetry_url_parts(host: Seq<char>, port: u16)
    ensures
        ({
            let url = telemetry_url_text(host, port);
            let rest = url.skip(host.len() as int + 8);
            &&& url.len() > host.len() + 18
            &&& url.take(7) == seq!['h', 't', 't', 'p', ':', '/', '/']
            &&& url.subrange(7, host.len() as int + 7) == host
            &&& url[host.len() as int + 7] == ':'
            &&& is_decimal_text(rest.take(rest.len() - 10))
            &&& decimal_value(rest.take(rest.len() - 10)) == port
            &&& rest.skip(rest.len() - 10) == seq![
                '/',
                't',
                'e',
                'l',
                'e',
                'm',
                'e',
                't',
                'r',
                'y',
            ]
        }),
{
    reveal_strlit("http://");
    reveal_strlit(":");
    reveal_strlit("/telemetry");
    let digits = decimal(port as nat);
    lemma_decimal_round_trip(port as nat);
    let scheme = seq!['h', 't', 't', 'p', ':', '/', '/'];
    let path = seq!['/', 't', 'e', 'l', 'e', 'm', 'e', 't', 'r', 'y'];
    assert("http://"@ =~= scheme);
    assert(":"@ =~= seq![':']);
    assert("/telemetry"@ =~= path);
    let url = telemetry_url_text(host, port);
    assert(url =~= scheme + host + seq![':'] + digits + path);
    let rest = url.skip(host.len() as int + 8);
    assert(rest =~= digits + path);
    assert(url.take(7) =~= scheme);
    assert(url.subrange(7, host.len() as int + 7) =~= host);
    assert(rest.take(rest.len() - 10) =~= digits);
    assert(rest.skip(rest.len() - 10) =~= path);
}

/// Whether a device's id is among `ids`.
pub open spec fn id_among(ids: Seq<Seq<char>>) -> spec_fn(DeviceConfig) -> bool {
    |d: DeviceConfig| ids.contains(d.id@)
}

fn contains_id(ids: &Vec<String>, id: &String) -> (found: bool)
    ensures
        found == views(ids@).contains(id@),
{
    let ghost all = views(ids@);
    let mut i: usize = 0;
    while i < ids.len()
        invariant
            0 <= i <= ids.len(),
            all == views(ids@),
            forall|j: int| 0 <= j < i ==> all[j] != id@,
        decreases ids.len() - i,
    {
        if ids[i] == *id {
            proof {
                assert(all[i as int] == id@);
            }
            return true;
        }
        i = i + 1;
    }
    proof {
        if all.contains(id@) {
            let j = choose|j: int| 0 <= j < all.len() && all[j] == id@;
            assert(all[j] != id@);
        }
    }
    false
}

/// The devices whose id is among `reached_ids`, in their configured order.
pub fn select_live_devices(devices: &Vec<DeviceConfig>, reached_ids: &Vec<String>) -> (live: Vec<
    DeviceConfig,
>)
    ensures
        live@ == devices@.filter(id_among(views(reached_ids@))),
{
    let ghost keep = id_among(views(reached_ids@));
    let mut live: Vec<DeviceConfig> = Vec::new();
    let mut i: usize = 0;
    while i < devices.len()
        invariant
            0 <= i <= devices.len(),
            keep == id_among(views(reached_ids@)),
            live@ == devices@.take(i as int).filter(keep),
        decreases devices.len() - i,
    {
        proof {
            assert(devices@.take(i + 1) =~= devices@.take(i as int).push(devices@[i as int]));
            devices@.take(i as int).lemma_filter_push(devices@[i as int], keep);
        }
        if contains_id(reached_ids, &devices[i].id) {
            live.push(devices[i].duplicate());
        }
        i = i + 1;
    }
    proof {
        assert(devices@.take(devices.len() as int) =~= devices@);
    }
    live
}

/// The ids of a list of devices.
pub open spec fn ids_of(devices: Seq<DeviceConfig>) -> Seq<Seq<char>> {
    devices.map_values(|d: DeviceConfig| d.id@)
}

/// No two devices share an id.
pub open spec fn distinct_ids(devices: Seq<DeviceConfig>) -> bool {
    forall|i: int, j: int|
        0 <= i < devices.len() && 0 <= j < devices.len() && i != j ==> devices[i].id@
            != devices[j].id@
}

proof fn lemma_filter_agree(
    s: Seq<DeviceConfig>,
    p: spec_fn(DeviceConfig) -> bool,
    q: spec_fn(DeviceConfig) -> bool,
)
    requires
        forall|i: int| 0 <= i < s.len() ==> p(s[i]) == q(s[i]),
    ensures
        s.filter(p) == s.filter(q),
    decreases s.len(),
{
    if s.len() > 0 {
        let init = s.drop_last();
        assert forall|i: int| 0 <= i < init.len() implies p(init[i]) == q(init[i]) by {
            assert(init[i] == s[i]);
        }
        lemma_filter_agree(init, p, q);
        assert(s =~= init.push(s.last()));
        init.lemma_filter_push(s.last(), p);
        init.lemma_filter_push(s.last(), q);
    }
}

/// Selecting the live devices by the ids of the devices that answered
/// gives back exactly the devices that answered, in configured order, when
/// the configured ids are distinct. So the `rpc-server` endpoints and the
/// layer counts built from the answered profiles line up one for one.
pub proof fn lemma_live_devices_are_the_answered(
    devices: Seq<DeviceConfig>,
    answered: spec_fn(DeviceConfig) -> bool,
)
    requires
        distinct_ids(devices),
    ensures
        devices.filter(id_among(ids_of(devices.filter(answered)))) == devices.filter(answered),
{
    let kept = devices.filter(answered);
    let ids = ids_of(kept);
    assert forall|i: int| 0 <= i < devices.len() implies id_among(ids)(devices[i]) == answered(
        devices[i],
    ) by {
        let d = devices[i];
        if answered(d) {
            devices.filter_lemma(answered);
            assert(kept.contains(d));
            let k = choose|k: int| 0 <= k < kept.len() && kept[k] == d;
            assert(ids[k] == d.id@);
        }
        if ids.contains(d.id@) {
            let k = choose|k: int| 0 <= k < ids.len() && ids[k] == d.id@;
            devices.filter_lemma(answered);
            let e = kept[k];
            assert(answered(e));
            assert(kept.contains(e));
            devices.lemma_filter_contains_rev(answered, e);
            let m = choose|m: int| 0 <= m < devices.len() && devices[m] == e;
            assert(devices[m].id@ == devices[i].id@);
            assert(m == i);
        }
    }
    lemma_filter_agree(devices, id_among(ids), answered);
}

} // verus!
