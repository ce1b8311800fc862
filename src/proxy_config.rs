//! What the proxy configuration is made from: the running descriptors handed to
//! the template, and the routes that the template turns into server stanzas.
use vstd::prelude::*;
use crate::container_info::{descriptor_views, ContainerInfo, ContainerView};
use crate::port_mapping::PortMapping;

verus! {

/// The value handed to the configuration template.
pub struct TemplateData {
    pub containers: Vec<ContainerInfo>,
}

/// Renders the proxy configuration for a set of descriptors from the template at a path.
pub struct ConfigGenerator {
    pub containers: Vec<ContainerInfo>,
    pub template_path: String,
}

/// One server stanza: the proxy listens on `listen` and forwards to `upstream:upstream_port`.
pub struct Route {
    pub listen: u16,
    pub tls: bool,
    pub server_name: String,
    pub upstream: String,
    pub upstream_port: u16,
}

pub struct RouteView {
    pub listen: u16,
    pub tls: bool,
    pub server_name: Seq<char>,
    pub upstream: Seq<char>,
    pub upstream_port: u16,
}

impl View for Route {
    type V = RouteView;

    open spec fn view(&self) -> RouteView {
        RouteView {
            listen: self.listen,
            tls: self.tls,
            server_name: self.server_name@,
            upstream: self.upstream@,
            upstream_port: self.upstream_port,
        }
    }
}

pub open spec fn route_views(v: Seq<Route>) -> Seq<RouteView> {
    v.map_values(|r: Route| r@)
}

/// The stanzas of one descriptor's mappings, plain or TLS.
pub open spec fn routes_for(c: ContainerView, ms: Seq<PortMapping>, tls: bool) -> Seq<RouteView> {
    ms.map_values(
        |m: PortMapping|
            RouteView {
                listen: m.external,
                tls,
                server_name: c.domain,
                upstream: c.name,
                upstream_port: m.internal,
            },
    )
}

/// Every descriptor's plain stanzas, then its TLS stanzas, descriptor by descriptor.
pub open spec fn routes_of(s: Seq<ContainerView>) -> Seq<RouteView>
    decreases s.len(),
{
    if s.len() == 0 {
        Seq::empty()
    } else {
        routes_of(s.drop_last()) + routes_for(s.last(), s.last().ports, false) + routes_for(
            s.last(),
            s.last().ssl_ports,
            true,
        )
    }
}

fn copy_all(v: &Vec<ContainerInfo>) -> (r: Vec<ContainerInfo>)
    ensures
        descriptor_views(r@) == descriptor_views(v@),
{
    let mut r: Vec<ContainerInfo> = Vec::new();
    let mut i: usize = 0;
    while i < v.len()
        invariant
            i <= v.len(),
            descriptor_views(r@) == descriptor_views(v@).subrange(0, i as int),
        decreases v.len() - i,
    {
        let ghost before = descriptor_views(r@);
        let c = v[i].copy();
        r.push(c);
        assert(descriptor_views(r@) =~= before.push(c@));
        i = i + 1;
        assert(descriptor_views(r@) =~= descriptor_views(v@).subrange(0, i as int));
    }
    assert(descriptor_views(v@).subrange(0, i as int) =~= descriptor_views(v@));
    r
}

fn push_routes(out: &mut Vec<Route>, c: &ContainerInfo, ms: &Vec<PortMapping>, tls: bool)
    ensures
        route_views(final(out)@) == route_views(old(out)@) + routes_for(c@, ms@, tls),
{
    let ghost start = route_views(out@);
    let mut i: usize = 0;
    while i < ms.len()
        invariant
            i <= ms.len(),
            route_views(out@) == start + routes_for(c@, ms@.subrange(0, i as int), tls),
        decreases ms.len() - i,
    {
        let m = ms[i];
        let ghost before = route_views(out@);
        let route = Route {
            listen: m.external,
            tls,
            server_name: c.domain.clone(),
            upstream: c.name.clone(),
            upstream_port: m.internal,
        };
        out.push(route);
        assert(route_views(out@) =~= before.push(route@));
        i = i + 1;
        assert(routes_for(c@, ms@.subrange(0, i as int), tls) =~= routes_for(
            c@,
            ms@.subrange(0, i - 1),
            tls,
        ).push(route@));
        assert(route_views(out@) =~= start + routes_for(c@, ms@.subrange(0, i as int), tls));
    }
    assert(ms@.subrange(0, i as int) =~= ms@);
}

impl ConfigGenerator {
    pub fn new(containers: &Vec<ContainerInfo>, template_path: String) -> (r: Self)
        ensures
            descriptor_views(r.containers@) == descriptor_views(containers@),
            r.template_path@ == template_path@,
    {
        ConfigGenerator { containers: copy_all(containers), template_path }
    }

    /// The value handed to the template: the descriptors, in order.
    pub fn prepare_template_data(&self) -> (r: TemplateData)
        ensures
            descriptor_views(r.containers@) == descriptor_views(self.containers@),
    {
        TemplateData { containers: copy_all(&self.containers) }
    }

    /// The server stanzas that the configuration holds: for each descriptor, one per plain
    /// mapping and then one per TLS mapping.
    pub fn routes(&self) -> (r: Vec<Route>)
        ensures
            route_views(r@) == routes_of(descriptor_views(self.containers@)),
    {
        let ghost s = descriptor_views(self.containers@);
        let mut out: Vec<Route> = Vec::new();
        let mut i: usize = 0;
        assert(route_views(out@) =~= routes_of(s.subrange(0, 0)));
        while i < self.containers.len()
            invariant
                i <= self.containers.len(),
                s == descriptor_views(self.containers@),
                route_views(out@) == routes_of(s.subrange(0, i as int)),
            decreases self.containers.len() - i,
        {
            let c = &self.containers[i];
            let ghost upto = s.subrange(0, i + 1);
            assert(upto.drop_last() =~= s.subrange(0, i as int));
            assert(upto.last() == c@);
            push_routes(&mut out, c, &c.ports, false);
            push_routes(&mut out, c, &c.ssl_ports, true);
            i = i + 1;
        }
        assert(s.subrange(0, i as int) =~= s);
        out
    }
}

} // verus!
