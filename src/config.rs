//! The inputs that seed and describe the pool: the start-up list of backends,
//! and the facts a cluster gives about a backend service.

use vstd::prelude::*;
use vstd::string::{StrSliceExecFns, StringExecFns, StringSliceAdditionalSpecFns};

use vstd::utf8::encode_utf8;

use crate::bytes::{parse_unsigned, split_on, unsigned_value};
use crate::text::{
    char_vec, host_port, join_host_port, range_views, split_ranges, to_upper, trim_range,
    trim_white, upper_of,
};

verus! {

/// A backend named in the start-up list. Without an endpoint its address is
/// to be resolved by its name.
pub struct BootstrapEntry {
    pub name: String,
    pub weight: u32,
    pub endpoint: Option<(String, u16)>,
}

/// The mathematical value of a [`BootstrapEntry`].
pub struct BootstrapView {
    pub name: Seq<char>,
    pub weight: u32,
    pub endpoint: Option<(Seq<char>, u16)>,
}

impl View for BootstrapEntry {
    type V = BootstrapView;

    open spec fn view(&self) -> BootstrapView {
        BootstrapView {
            name: self.name@,
            weight: self.weight,
            endpoint: match &self.endpoint {
                Some(e) => Some((e.0@, e.1)),
                None => None,
            },
        }
    }
}

/// The number that a field writes once trimmed, read from its UTF-8 bytes as
/// `u32::from_str` and its kin read them.
pub open spec fn field_number(part: Seq<char>) -> Option<nat> {
    unsigned_value(encode_utf8(trim_white(part)))
}

/// One definition of the start-up list: `name,weight` or
/// `name,weight,ip,port`, each field trimmed of white space. `None` where it
/// has fewer than two fields, or where the weight or (with four fields or
/// more) the port is not a number in range; a third field alone is ignored.
pub open spec fn definition(def: Seq<char>) -> Option<BootstrapView> {
    let parts = split_on(def, ',');
    if parts.len() < 2 {
        None
    } else {
        match field_number(parts[1]) {
            Some(w) => if w > u32::MAX {
                None
            } else if parts.len() < 4 {
                Some(BootstrapView { name: trim_white(parts[0]), weight: w as u32, endpoint: None })
            } else {
                match field_number(parts[3]) {
                    Some(p) => if p > u16::MAX {
                        None
                    } else {
                        Some(
                            BootstrapView {
                                name: trim_white(parts[0]),
                                weight: w as u32,
                                endpoint: Some((trim_white(parts[2]), p as u16)),
                            },
                        )
                    },
                    None => None,
                }
            },
            None => None,
        }
    }
}

/// The valid definitions among `defs`, in order.
pub open spec fn definitions(defs: Seq<Seq<char>>) -> Seq<BootstrapView>
    decreases defs.len(),
{
    if defs.len() == 0 {
        Seq::empty()
    } else {
        let r = definitions(defs.drop_last());
        match definition(defs.last()) {
            Some(v) => r.push(v),
            None => r,
        }
    }
}

/// The backends that a start-up list names: definitions separated by `;`.
pub open spec fn service_list(s: Seq<char>) -> Seq<BootstrapView> {
    definitions(split_on(s, ';'))
}

/// The text of `s` within the bounds, trimmed, with the trimmed bounds.
fn trimmed_field(s: &str, v: &[char], r: (usize, usize)) -> (out: String)
    requires
        v@ == s@,
        r.0 <= r.1 <= v@.len(),
    ensures
        out@ == trim_white(s@.subrange(r.0 as int, r.1 as int)),
{
    let t = trim_range(v, r.0, r.1);
    s.substring_char(t.0, t.1).to_owned()
}

/// The number that a field writes once trimmed, if it is at most `max`.
fn field_value(s: &str, v: &[char], r: (usize, usize), max: u64) -> (out: Option<u64>)
    requires
        v@ == s@,
        r.0 <= r.1 <= v@.len(),
    ensures
        match out {
            Some(n) => field_number(s@.subrange(r.0 as int, r.1 as int)) == Some(n as nat) && n
                <= max,
            None => match field_number(s@.subrange(r.0 as int, r.1 as int)) {
                Some(n) => n > max,
                None => true,
            },
        },
{
    let t = trimmed_field(s, v, r);
    parse_unsigned(t.as_str().as_bytes(), max)
}

/// Reads the definition that `v[lo..hi]` holds.
fn definition_at(s: &str, v: &[char], lo: usize, hi: usize) -> (r: Option<BootstrapEntry>)
    requires
        v@ == s@,
        lo <= hi <= v@.len(),
    ensures
        match r {
            Some(e) => definition(s@.subrange(lo as int, hi as int)) == Some(e@),
            None => definition(s@.subrange(lo as int, hi as int)) is None,
        },
{
    let ghost d = s@.subrange(lo as int, hi as int);
    let parts = split_ranges(v, lo, hi, ',');
    let ghost pv = range_views(v@, parts@);
    assert(pv.len() == parts@.len());
    if parts.len() < 2 {
        return None;
    }
    assert(pv[1] == s@.subrange(parts@[1].0 as int, parts@[1].1 as int));
    assert(pv[0] == s@.subrange(parts@[0].0 as int, parts@[0].1 as int));
    let w = match field_value(s, v, parts[1], 0xffff_ffff) {
        Some(w) => w as u32,
        None => {
            return None;
        },
    };
    let name = trimmed_field(s, v, parts[0]);
    if parts.len() < 4 {
        return Some(BootstrapEntry { name, weight: w, endpoint: None });
    }
    assert(pv[2] == s@.subrange(parts@[2].0 as int, parts@[2].1 as int));
    assert(pv[3] == s@.subrange(parts@[3].0 as int, parts@[3].1 as int));
    match field_value(s, v, parts[3], 0xffff) {
        Some(p) => {
            let ip = trimmed_field(s, v, parts[2]);
            Some(BootstrapEntry { name, weight: w, endpoint: Some((ip, p as u16)) })
        },
        None => None,
    }
}

/// Reads one definition of the start-up list (see [`definition`]).
pub fn parse_definition(def: &str) -> (r: Option<BootstrapEntry>)
    ensures
        match r {
            Some(e) => definition(def@) == Some(e@),
            None => definition(def@) is None,
        },
{
    let v = char_vec(def);
    assert(def@.subrange(0, v@.len() as int) =~= def@);
    definition_at(def, v.as_slice(), 0, v.len())
}

/// Reads the start-up list of backends: definitions separated by `;` (see
/// [`definition`]); invalid ones are skipped.
pub fn parse_service_list(s: &str) -> (r: Vec<BootstrapEntry>)
    ensures
        r@.map_values(|e: BootstrapEntry| e@) == service_list(s@),
{
    let v = char_vec(s);
    let defs = split_ranges(v.as_slice(), 0, v.len(), ';');
    assert(s@.subrange(0, v@.len() as int) =~= s@);
    let ghost d = range_views(v@, defs@);
    let mut r: Vec<BootstrapEntry> = Vec::new();
    let mut i: usize = 0;
    assert(d.take(0) =~= Seq::<Seq<char>>::empty());
    while i < defs.len()
        invariant
            i <= defs@.len(),
            v@ == s@,
            d == range_views(v@, defs@),
            d == split_on(s@, ';'),
            forall|k: int| 0 <= k < defs@.len() ==> 0 <= #[trigger] defs@[k].0 <= defs@[k].1 <= v@.len(),
            r@.map_values(|e: BootstrapEntry| e@) == definitions(d.take(i as int)),
        decreases defs.len() - i,
    {
        assert(d.take(i + 1).drop_last() =~= d.take(i as int));
        assert(d[i as int] == s@.subrange(defs@[i as int].0 as int, defs@[i as int].1 as int));
        let (lo, hi) = defs[i];
        match definition_at(s, v.as_slice(), lo, hi) {
            Some(e) => {
                r.push(e);
            },
            None => {},
        }
        assert(r@.map_values(|e: BootstrapEntry| e@) =~= definitions(d.take(i + 1)));
        i = i + 1;
    }
    assert(d.take(i as int) =~= d);
    r
}

/// The view of an optional endpoint.
pub open spec fn endpoint_view(e: Option<(String, u16)>) -> Option<(Seq<char>, u16)> {
    match e {
        Some(x) => Some((x.0@, x.1)),
        None => None,
    }
}

/// The endpoint of a registration: the given IP with the given port (8080
/// where none is given); without an IP, the environment's host, with the given
/// port where there is one.
pub open spec fn chosen_endpoint(
    ip: Option<Seq<char>>,
    port: Option<u16>,
    from_env: Option<(Seq<char>, u16)>,
) -> Option<(Seq<char>, u16)> {
    match ip {
        Some(i) => Some(
            (
                i,
                match port {
                    Some(p) => p,
                    None => 8080u16,
                },
            ),
        ),
        None => match from_env {
            Some(e) => Some(
                (
                    e.0,
                    match port {
                        Some(p) => p,
                        None => e.1,
                    },
                ),
            ),
            None => None,
        },
    }
}

/// The endpoint of a registration (see [`chosen_endpoint`]).
pub fn registration_endpoint(
    ip: Option<String>,
    port: Option<u16>,
    from_env: Option<(String, u16)>,
) -> (r: Option<(String, u16)>)
    ensures
        endpoint_view(r) == chosen_endpoint(
            match ip {
                Some(i) => Some(i@),
                None => None,
            },
            port,
            endpoint_view(from_env),
        ),
{
    match ip {
        Some(i) => Some(
            (
                i,
                match port {
                    Some(p) => p,
                    None => 8080,
                },
            ),
        ),
        None => match from_env {
            Some(e) => {
                let p = match port {
                    Some(p) => p,
                    None => e.1,
                };
                Some((e.0, p))
            },
            None => None,
        },
    }
}

/// The weight that a service's weight annotation gives: its value read as a
/// `u32`, or 1 where it is absent or not such a number.
pub open spec fn weight_of_annotation(annotation: Option<Seq<u8>>) -> u32 {
    match annotation {
        Some(a) => match unsigned_value(a) {
            Some(w) => if w <= u32::MAX {
                w as u32
            } else {
                1
            },
            None => 1,
        },
        None => 1,
    }
}

/// The weight of a service from its weight annotation (see
/// [`weight_of_annotation`]).
pub fn annotated_weight(annotation: Option<&str>) -> (r: u32)
    ensures
        r == weight_of_annotation(
            match annotation {
                Some(a) => Some(a.spec_bytes()),
                None => None,
            },
        ),
{
    match annotation {
        Some(a) => match parse_unsigned(a.as_bytes(), 0xffff_ffff) {
            Some(w) => w as u32,
            None => 1,
        },
        None => 1,
    }
}

/// The port on which a service is looked up: its first declared port, cut to
/// 16 bits as a cast does, or 8080 where it declares none.
pub fn service_port(first_port: Option<i32>) -> (r: u16)
    ensures
        r == match first_port {
            Some(p) => #[verifier::truncate] (p as u16),
            None => 8080u16,
        },
{
    match first_port {
        Some(p) => #[verifier::truncate] (p as u16),
        None => 8080,
    }
}

/// The cluster-internal DNS name of a service.
pub open spec fn cluster_host(name: Seq<char>, namespace: Seq<char>) -> Seq<char> {
    name + "."@ + namespace + ".svc.cluster.local"@
}

/// The address at which a service is looked up in the cluster's DNS:
/// `name.namespace.svc.cluster.local:port`, the namespace `default` where none
/// is given.
pub fn cluster_address(name: &str, namespace: Option<&str>, port: u16) -> (r: String)
    ensures
        r@ == host_port(
            cluster_host(
                name@,
                match namespace {
                    Some(n) => n@,
                    None => "default"@,
                },
            ),
            port,
        ),
{
    let ns = match namespace {
        Some(n) => n,
        None => "default",
    };
    let mut host = name.to_owned();
    host.append(".");
    host.append(ns);
    host.append(".svc.cluster.local");
    join_host_port(host.as_str(), port)
}

/// `s` with each `-` made `_`.
pub open spec fn dashes_to_underscores(s: Seq<char>) -> Seq<char> {
    s.map_values(|c: char| if c == '-' { '_' } else { c })
}

/// The stem of the environment variables that locate a service: its name in
/// upper case, `-` made `_`.
pub open spec fn env_stem(name: Seq<char>) -> Seq<char> {
    dashes_to_underscores(upper_of(name))
}

/// The names of the environment variables that give a service's host and
/// port: `<STEM>_SERVICE_HOST` and `<STEM>_SERVICE_PORT`.
pub fn service_env_vars(name: &str) -> (r: (String, String))
    ensures
        r.0@ == env_stem(name@) + "_SERVICE_HOST"@,
        r.1@ == env_stem(name@) + "_SERVICE_PORT"@,
{
    let upper = to_upper(name);
    let u = upper.as_str();
    let n = u.unicode_len();
    let mut stem = String::new();
    let mut i: usize = 0;
    while i < n
        invariant
            i <= n == u@.len(),
            u@ == upper_of(name@),
            stem@ == dashes_to_underscores(u@.take(i as int)),
        decreases n - i,
    {
        let c = u.get_char(i);
        if c == '-' {
            stem.append("_");
            proof {
                reveal_strlit("_");
            }
        } else {
            stem.append(u.substring_char(i, i + 1));
        }
        assert(stem@ =~= dashes_to_underscores(u@.take(i + 1)));
        i = i + 1;
    }
    assert(u@.take(n as int) =~= u@);
    let mut host = stem.clone();
    host.append("_SERVICE_HOST");
    let mut port = stem;
    port.append("_SERVICE_PORT");
    (host, port)
}

/// The endpoint that a service's environment variables give: the host
/// variable is required; the port variable, 8080 where unset, must be a port
/// number.
pub fn endpoint_from_env(host: Option<&str>, port: Option<&str>) -> (r: Option<(String, u16)>)
    ensures
        match host {
            None => r is None,
            Some(h) => match port {
                None => r matches Some(e) && e.0@ == h@ && e.1 == 8080u16,
                Some(p) => match unsigned_value(p.spec_bytes()) {
                    Some(v) => if v <= u16::MAX {
                        r matches Some(e) && e.0@ == h@ && e.1 == v
                    } else {
                        r is None
                    },
                    None => r is None,
                },
            },
        },
{
    let h = match host {
        Some(h) => h,
        None => {
            return None;
        },
    };
    match port {
        None => Some((h.to_owned(), 8080)),
        Some(p) => match parse_unsigned(p.as_bytes(), 0xffff) {
            Some(v) => Some((h.to_owned(), v as u16)),
            None => None,
        },
    }
}

} // verus!
