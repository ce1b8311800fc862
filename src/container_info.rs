//! The descriptor of one labelled container, and how it is read from the
//! runtime's inspection result.
use vstd::prelude::*;
use crate::port_mapping::{mappings_of, PortMapping};
use crate::text::{chars_of, same_chars, string_of};

verus! {

/// What the reconciliation needs to know of one labelled container.
pub struct ContainerInfo {
    pub id: String,
    pub name: String,
    pub is_running: bool,
    pub domain: String,
    pub ports: Vec<PortMapping>,
    pub ssl_ports: Vec<PortMapping>,
}

/// The value of a `ContainerInfo`.
pub struct ContainerView {
    pub id: Seq<char>,
    pub name: Seq<char>,
    pub is_running: bool,
    pub domain: Seq<char>,
    pub ports: Seq<PortMapping>,
    pub ssl_ports: Seq<PortMapping>,
}

impl View for ContainerInfo {
    type V = ContainerView;

    open spec fn view(&self) -> ContainerView {
        ContainerView {
            id: self.id@,
            name: self.name@,
            is_running: self.is_running,
            domain: self.domain@,
            ports: self.ports@,
            ssl_ports: self.ssl_ports@,
        }
    }
}

/// The values of a sequence of descriptors.
pub open spec fn descriptor_views(v: Seq<ContainerInfo>) -> Seq<ContainerView> {
    v.map_values(|c: ContainerInfo| c@)
}

/// The fields of the runtime's inspection result that a descriptor is made from.
pub struct ContainerDetails {
    pub id: Option<String>,
    pub name: Option<String>,
    /// The running flag of the state section, where there is one.
    pub running: Option<bool>,
    pub has_config: bool,
    /// The label map of the config section, where there is one.
    pub labels: Option<Vec<(String, String)>>,
}

/// Why no descriptor could be made.
#[derive(Clone, Copy, Debug, PartialEq, Eq, Structural)]
pub enum ExtractionError {
    MissingId,
    NoConfig,
    NoLabels,
}

pub open spec fn label_pairs(labels: Seq<(String, String)>) -> Seq<(Seq<char>, Seq<char>)> {
    labels.map_values(|p: (String, String)| (p.0@, p.1@))
}

/// The value of the first label named `key`.
pub open spec fn label_value(labels: Seq<(Seq<char>, Seq<char>)>, key: Seq<char>) -> Option<Seq<char>>
    decreases labels.len(),
{
    if labels.len() == 0 {
        None
    } else if labels[0].0 == key {
        Some(labels[0].1)
    } else {
        label_value(labels.drop_first(), key)
    }
}

/// `s` without its leading slashes.
pub open spec fn strip_slashes(s: Seq<char>) -> Seq<char>
    decreases s.len(),
{
    if s.len() > 0 && s[0] == '/' {
        strip_slashes(s.drop_first())
    } else {
        s
    }
}

pub open spec fn domain_key() -> Seq<char> {
    "kz.byte0.autolocalhost.domain"@
}

pub open spec fn ports_key() -> Seq<char> {
    "kz.byte0.autolocalhost.ports"@
}

pub open spec fn ssl_enabled_key() -> Seq<char> {
    "kz.byte0.autolocalhost.sslEnabled"@
}

pub open spec fn ssl_ports_key() -> Seq<char> {
    "kz.byte0.autolocalhost.sslPorts"@
}

/// The mappings of a port-list label; a missing label or a refused list gives none.
pub open spec fn ports_from_label(value: Option<Seq<char>>) -> Seq<PortMapping> {
    let text = match value {
        Some(v) => v,
        None => Seq::empty(),
    };
    match mappings_of(text) {
        Ok(ms) => ms,
        Err(_) => Seq::empty(),
    }
}

/// The descriptor that the inspection fields give, or why there is none.
pub open spec fn extracted(
    id: Option<Seq<char>>,
    name: Option<Seq<char>>,
    running: Option<bool>,
    has_config: bool,
    labels: Option<Seq<(Seq<char>, Seq<char>)>>,
) -> Result<ContainerView, ExtractionError> {
    match id {
        None => Err(ExtractionError::MissingId),
        Some(id) => if !has_config {
            Err(ExtractionError::NoConfig)
        } else {
            match labels {
                None => Err(ExtractionError::NoLabels),
                Some(ls) => Ok(
                    ContainerView {
                        id,
                        name: match name {
                            Some(n) => strip_slashes(n),
                            None => id,
                        },
                        is_running: running == Some(true),
                        domain: match label_value(ls, domain_key()) {
                            Some(d) => d,
                            None => Seq::empty(),
                        },
                        ports: ports_from_label(label_value(ls, ports_key())),
                        ssl_ports: if label_value(ls, ssl_enabled_key()) == Some("true"@) {
                            ports_from_label(label_value(ls, ssl_ports_key()))
                        } else {
                            Seq::empty()
                        },
                    },
                ),
            }
        },
    }
}

impl ContainerDetails {
    pub open spec fn spec_labels(&self) -> Option<Seq<(Seq<char>, Seq<char>)>> {
        match self.labels {
            Some(ls) => Some(label_pairs(ls@)),
            None => None,
        }
    }

    pub open spec fn spec_id(&self) -> Option<Seq<char>> {
        match self.id {
            Some(s) => Some(s@),
            None => None,
        }
    }

    pub open spec fn spec_name(&self) -> Option<Seq<char>> {
        match self.name {
            Some(s) => Some(s@),
            None => None,
        }
    }
}

/// The value of the first label named `key`.
fn find_label(labels: &Vec<(String, String)>, key: &str) -> (r: Option<String>)
    ensures
        match r {
            Some(v) => label_value(label_pairs(labels@), key@) == Some(v@),
            None => label_value(label_pairs(labels@), key@) is None,
        },
{
    let k = chars_of(key);
    let ghost all = label_pairs(labels@);
    let mut i: usize = 0;
    assert(all.subrange(0, all.len() as int) =~= all);
    while i < labels.len()
        invariant
            i <= labels.len(),
            all == label_pairs(labels@),
            k@ == key@,
            label_value(all, key@) == label_value(all.subrange(i as int, all.len() as int), key@),
        decreases labels.len() - i,
    {
        let ghost rest = all.subrange(i as int, all.len() as int);
        assert(rest.drop_first() =~= all.subrange(i + 1, all.len() as int));
        assert(rest[0] == (labels@[i as int].0@, labels@[i as int].1@));
        if same_chars(&chars_of(labels[i].0.as_str()), &k) {
            return Some(labels[i].1.clone());
        }
        i = i + 1;
    }
    None
}

/// The mappings of a port-list label, with a missing label or a refused list giving none.
fn ports_of_label(value: &Option<String>) -> (r: Vec<PortMapping>)
    ensures
        r@ == ports_from_label(
            match value {
                Some(v) => Some(v@),
                None => None,
            },
        ),
{
    let parsed = match value {
        Some(v) => PortMapping::parse_port_mappings(v.as_str()),
        None => PortMapping::parse_port_mappings(""),
    };
    proof {
        reveal_strlit("");
    }
    match parsed {
        Ok(ms) => ms,
        Err(_) => Vec::new(),
    }
}

/// `s` without its leading slashes.
fn strip_leading_slashes(s: &String) -> (r: String)
    ensures
        r@ == strip_slashes(s@),
{
    let v = chars_of(s.as_str());
    let mut i: usize = 0;
    assert(v@.subrange(0, v@.len() as int) =~= v@);
    while i < v.len() && v[i] == '/'
        invariant
            i <= v.len(),
            strip_slashes(v@) == strip_slashes(v@.subrange(i as int, v@.len() as int)),
        decreases v.len() - i,
    {
        assert(v@.subrange(i as int, v@.len() as int).drop_first() =~= v@.subrange(i + 1, v@.len() as int));
        i = i + 1;
    }
    let rest = crate::text::slice_chars(&v, i, v.len());
    assert(strip_slashes(rest@) == rest@) by {
        if rest@.len() > 0 {
            assert(rest@[0] == v@[i as int]);
        }
    }
    string_of(&rest)
}

/// A copy of `v`.
fn copy_mappings(v: &Vec<PortMapping>) -> (r: Vec<PortMapping>)
    ensures
        r@ == v@,
{
    let mut r: Vec<PortMapping> = Vec::new();
    let mut i: usize = 0;
    while i < v.len()
        invariant
            i <= v.len(),
            r@ == v@.subrange(0, i as int),
        decreases v.len() - i,
    {
        r.push(v[i]);
        i = i + 1;
        assert(r@ =~= v@.subrange(0, i as int));
    }
    assert(v@.subrange(0, i as int) =~= v@);
    r
}

impl ContainerInfo {
    /// A copy of this descriptor.
    pub fn copy(&self) -> (r: ContainerInfo)
        ensures
            r@ == self@,
    {
        ContainerInfo {
            id: self.id.clone(),
            name: self.name.clone(),
            is_running: self.is_running,
            domain: self.domain.clone(),
            ports: copy_mappings(&self.ports),
            ssl_ports: copy_mappings(&self.ssl_ports),
        }
    }

    /// The descriptor that a container's inspection result gives: the id is required, and so
    /// are the config and its label map; a missing name falls back to the id, a missing domain
    /// label to the empty domain, and a missing or refused port list to no ports.
    pub fn from_container(details: &ContainerDetails) -> (r: Result<ContainerInfo, ExtractionError>)
        ensures
            match r {
                Ok(c) => extracted(
                    details.spec_id(),
                    details.spec_name(),
                    details.running,
                    details.has_config,
                    details.spec_labels(),
                ) == Ok::<ContainerView, ExtractionError>(c@),
                Err(e) => extracted(
                    details.spec_id(),
                    details.spec_name(),
                    details.running,
                    details.has_config,
                    details.spec_labels(),
                ) == Err::<ContainerView, ExtractionError>(e),
            },
    {
        let id = match &details.id {
            None => return Err(ExtractionError::MissingId),
            Some(id) => id.clone(),
        };
        if !details.has_config {
            return Err(ExtractionError::NoConfig);
        }
        let labels = match &details.labels {
            None => return Err(ExtractionError::NoLabels),
            Some(ls) => ls,
        };
        let name = match &details.name {
            Some(n) => strip_leading_slashes(n),
            None => id.clone(),
        };
        let is_running = match details.running {
            Some(b) => b,
            None => false,
        };
        let domain = match find_label(labels, "kz.byte0.autolocalhost.domain") {
            Some(d) => d,
            None => String::new(),
        };
        let ports = ports_of_label(&find_label(labels, "kz.byte0.autolocalhost.ports"));
        let enabled = match find_label(labels, "kz.byte0.autolocalhost.sslEnabled") {
            Some(v) => same_chars(&chars_of(v.as_str()), &chars_of("true")),
            None => false,
        };
        let ssl_ports = if enabled {
            ports_of_label(&find_label(labels, "kz.byte0.autolocalhost.sslPorts"))
        } else {
            Vec::new()
        };
        let r = ContainerInfo { id, name, is_running, domain, ports, ssl_ports };
        assert(r@ =~= extracted(
            details.spec_id(),
            details.spec_name(),
            details.running,
            details.has_config,
            details.spec_labels(),
        )->Ok_0);
        Ok(r)
    }
}

} // verus!
