//! One reconciliation pass, as a plan: which descriptors are routed, which
//! hostnames are listed, which domains need certificates and which ports the
//! proxy publishes. A pass that finds two running containers with one domain
//! yields no plan at all, so nothing downstream is touched.
use vstd::prelude::*;
use crate::container_info::{descriptor_views, ContainerInfo, ContainerView};
use crate::port_mapping::PortMapping;

verus! {

/// The running descriptors of `s`, in order.
pub open spec fn running_of(s: Seq<ContainerView>) -> Seq<ContainerView>
    decreases s.len(),
{
    if s.len() == 0 {
        s
    } else if s.last().is_running {
        running_of(s.drop_last()).push(s.last())
    } else {
        running_of(s.drop_last())
    }
}

/// The non-empty domains of the running descriptors of `s`, in order.
pub open spec fn domains_of(s: Seq<ContainerView>) -> Seq<Seq<char>>
    decreases s.len(),
{
    if s.len() == 0 {
        Seq::empty()
    } else if s.last().is_running && s.last().domain.len() > 0 {
        domains_of(s.drop_last()).push(s.last().domain)
    } else {
        domains_of(s.drop_last())
    }
}

/// The domains of the running descriptors of `s` that publish TLS ports, in order.
pub open spec fn cert_domains_of(s: Seq<ContainerView>) -> Seq<Seq<char>>
    decreases s.len(),
{
    if s.len() == 0 {
        Seq::empty()
    } else if s.last().is_running && s.last().domain.len() > 0 && s.last().ssl_ports.len() > 0 {
        cert_domains_of(s.drop_last()).push(s.last().domain)
    } else {
        cert_domains_of(s.drop_last())
    }
}

pub open spec fn externals(ms: Seq<PortMapping>) -> Seq<u16> {
    ms.map_values(|m: PortMapping| m.external)
}

/// The published ports of the running descriptors of `s`, plain and TLS, repeats included.
pub open spec fn all_externals(s: Seq<ContainerView>) -> Seq<u16>
    decreases s.len(),
{
    if s.len() == 0 {
        Seq::empty()
    } else if s.last().is_running {
        all_externals(s.drop_last()) + externals(s.last().ports) + externals(s.last().ssl_ports)
    } else {
        all_externals(s.drop_last())
    }
}

/// Whether the `j`-th descriptor of `s` runs with a non-empty domain that a running
/// descriptor before it has too.
pub open spec fn repeats_domain(s: Seq<ContainerView>, j: int) -> bool {
    &&& 0 <= j < s.len()
    &&& s[j].is_running
    &&& s[j].domain.len() > 0
    &&& exists|i: int| 0 <= i < j && (#[trigger] s[i]).is_running && s[i].domain == s[j].domain
}

/// The plan of one pass.
pub struct ReconcilePlan {
    /// The running descriptors, in order: what the proxy configuration routes.
    pub running: Vec<ContainerInfo>,
    /// The hostnames for the hosts file.
    pub domains: Vec<String>,
    /// The domains that need certificate material.
    pub cert_domains: Vec<String>,
    /// The ports that the proxy publishes, each once.
    pub ports: Vec<u16>,
}

/// The running container whose domain a running container before it has already.
#[derive(Debug)]
pub struct DuplicateDomain {
    pub name: String,
    pub domain: String,
}

proof fn lemma_domains_of(s: Seq<ContainerView>, d: Seq<char>)
    requires
        d.len() > 0,
    ensures
        domains_of(s).contains(d) <==> exists|i: int|
            0 <= i < s.len() && (#[trigger] s[i]).is_running && s[i].domain == d,
    decreases s.len(),
{
    if s.len() > 0 {
        let p = s.drop_last();
        lemma_domains_of(p, d);
        if domains_of(s).contains(d) {
            if domains_of(p).contains(d) {
                let i = choose|i: int| 0 <= i < p.len() && (#[trigger] p[i]).is_running && p[i].domain == d;
                assert(s[i] == p[i]);
            } else {
                let k = choose|k: int| 0 <= k < domains_of(s).len() && domains_of(s)[k] == d;
                assert(k == domains_of(p).len());
                assert(s[s.len() - 1].is_running && s[s.len() - 1].domain == d);
            }
        }
        if exists|i: int| 0 <= i < s.len() && (#[trigger] s[i]).is_running && s[i].domain == d {
            let i = choose|i: int| 0 <= i < s.len() && (#[trigger] s[i]).is_running && s[i].domain == d;
            if i < s.len() - 1 {
                assert(p[i] == s[i]);
                assert(domains_of(p).contains(d));
                let k = choose|k: int| 0 <= k < domains_of(p).len() && domains_of(p)[k] == d;
                assert(domains_of(s)[k] == d);
            } else {
                assert(domains_of(s).last() == d);
                assert(domains_of(s)[domains_of(s).len() - 1] == d);
            }
        }
    }
}

fn contains_string(v: &Vec<String>, s: &String) -> (r: bool)
    ensures
        r == v@.map_values(|x: String| x@).contains(s@),
{
    let mut i: usize = 0;
    while i < v.len()
        invariant
            i <= v.len(),
            forall|k: int| 0 <= k < i ==> v@[k]@ != s@,
        decreases v.len() - i,
    {
        if v[i] == *s {
            assert(v@.map_values(|x: String| x@)[i as int] == s@);
            return true;
        }
        i = i + 1;
    }
    false
}

fn push_unique(ports: &mut Vec<u16>, p: u16)
    requires
        old(ports)@.no_duplicates(),
    ensures
        final(ports)@.no_duplicates(),
        forall|x: u16| #[trigger] final(ports)@.contains(x) <==> old(ports)@.contains(x) || x == p,
{
    let mut i: usize = 0;
    while i < ports.len()
        invariant
            i <= ports.len(),
            ports@ == old(ports)@,
            ports@.no_duplicates(),
            forall|k: int| 0 <= k < i ==> ports@[k] != p,
        decreases ports.len() - i,
    {
        if ports[i] == p {
            return;
        }
        i = i + 1;
    }
    let ghost before = ports@;
    ports.push(p);
    assert forall|x: u16| #[trigger] ports@.contains(x) <==> before.contains(x) || x == p by {
        if before.contains(x) {
            let k = choose|k: int| 0 <= k < before.len() && before[k] == x;
            assert(ports@[k] == x);
        }
        if x == p {
            assert(ports@[before.len() as int] == p);
        }
        if ports@.contains(x) {
            let k = choose|k: int| 0 <= k < ports@.len() && ports@[k] == x;
            if k < before.len() {
                assert(before[k] == x);
            }
        }
    }
}

fn push_externals(ports: &mut Vec<u16>, ms: &Vec<PortMapping>)
    requires
        old(ports)@.no_duplicates(),
    ensures
        final(ports)@.no_duplicates(),
        forall|x: u16| #[trigger] final(ports)@.contains(x) <==> old(ports)@.contains(x) || externals(ms@).contains(x),
{
    let ghost start = ports@;
    let mut i: usize = 0;
    while i < ms.len()
        invariant
            i <= ms.len(),
            ports@.no_duplicates(),
            forall|x: u16| #[trigger] ports@.contains(x) <==> start.contains(x) || externals(ms@.subrange(0, i as int)).contains(x),
        decreases ms.len() - i,
    {
        let ghost before = ports@;
        push_unique(ports, ms[i].external);
        let ghost upto = externals(ms@.subrange(0, i + 1));
        let ghost prev = externals(ms@.subrange(0, i as int));
        assert(upto =~= prev.push(ms@[i as int].external));
        assert forall|x: u16| upto.contains(x) <==> prev.contains(x) || x == ms@[i as int].external by {
            if upto.contains(x) {
                let k = choose|k: int| 0 <= k < upto.len() && upto[k] == x;
                if k < prev.len() {
                    assert(prev[k] == x);
                }
            }
            if prev.contains(x) {
                let k = choose|k: int| 0 <= k < prev.len() && prev[k] == x;
                assert(upto[k] == x);
            }
            if x == ms@[i as int].external {
                assert(upto[prev.len() as int] == x);
            }
        }
        i = i + 1;
    }
    assert(ms@.subrange(0, i as int) =~= ms@);
}

proof fn lemma_concat_contains(a: Seq<u16>, b: Seq<u16>, x: u16)
    ensures
        (a + b).contains(x) <==> a.contains(x) || b.contains(x),
{
    if (a + b).contains(x) {
        let k = choose|k: int| 0 <= k < (a + b).len() && (a + b)[k] == x;
        if k < a.len() {
            assert(a[k] == x);
        } else {
            assert(b[k - a.len()] == x);
        }
    }
    if a.contains(x) {
        let k = choose|k: int| 0 <= k < a.len() && a[k] == x;
        assert((a + b)[k] == x);
    }
    if b.contains(x) {
        let k = choose|k: int| 0 <= k < b.len() && b[k] == x;
        assert((a + b)[k + a.len()] == x);
    }
}

/// Whether `a` comes no later than `b` in lexicographic order of characters.
pub open spec fn text_le(a: Seq<char>, b: Seq<char>) -> bool
    decreases a.len(),
{
    if a.len() == 0 {
        true
    } else if b.len() == 0 {
        false
    } else if a[0] != b[0] {
        a[0] < b[0]
    } else {
        text_le(a.drop_first(), b.drop_first())
    }
}

/// Whether `s` is in lexicographic order.
pub open spec fn sorted_texts(s: Seq<Seq<char>>) -> bool {
    forall|i: int, j: int| 0 <= i < j < s.len() ==> text_le(#[trigger] s[i], #[trigger] s[j])
}

proof fn lemma_text_le_total(a: Seq<char>, b: Seq<char>)
    ensures
        text_le(a, b) || text_le(b, a),
    decreases a.len(),
{
    if a.len() > 0 && b.len() > 0 && a[0] == b[0] {
        lemma_text_le_total(a.drop_first(), b.drop_first());
    }
}

proof fn lemma_text_le_trans(a: Seq<char>, b: Seq<char>, c: Seq<char>)
    requires
        text_le(a, b),
        text_le(b, c),
    ensures
        text_le(a, c),
    decreases a.len(),
{
    if a.len() > 0 && b.len() > 0 && c.len() > 0 && a[0] == b[0] && b[0] == c[0] {
        lemma_text_le_trans(a.drop_first(), b.drop_first(), c.drop_first());
    }
}

fn text_le_exec(a: &Vec<char>, b: &Vec<char>) -> (r: bool)
    ensures
        r == text_le(a@, b@),
{
    let mut i: usize = 0;
    assert(a@.subrange(0, a@.len() as int) =~= a@);
    assert(b@.subrange(0, b@.len() as int) =~= b@);
    while i < a.len() && i < b.len() && a[i] == b[i]
        invariant
            i <= a.len(),
            i <= b.len(),
            text_le(a@, b@) == text_le(a@.subrange(i as int, a@.len() as int), b@.subrange(i as int, b@.len() as int)),
        decreases a.len() - i,
    {
        let ghost sa = a@.subrange(i as int, a@.len() as int);
        let ghost sb = b@.subrange(i as int, b@.len() as int);
        assert(sa.drop_first() =~= a@.subrange(i + 1, a@.len() as int));
        assert(sb.drop_first() =~= b@.subrange(i + 1, b@.len() as int));
        i = i + 1;
    }
    let ghost sa = a@.subrange(i as int, a@.len() as int);
    let ghost sb = b@.subrange(i as int, b@.len() as int);
    if i == a.len() {
        true
    } else if i == b.len() {
        false
    } else {
        assert(sa[0] == a@[i as int] && sb[0] == b@[i as int]);
        a[i] < b[i]
    }
}

/// `texts` in lexicographic order.
fn sort_texts(texts: &Vec<String>) -> (r: Vec<String>)
    ensures
        sorted_texts(r@.map_values(|d: String| d@)),
        r@.map_values(|d: String| d@).to_multiset() == texts@.map_values(|d: String| d@).to_multiset(),
{
    let ghost input = texts@.map_values(|d: String| d@);
    let mut out: Vec<String> = Vec::new();
    let mut k: usize = 0;
    assert(out@.map_values(|d: String| d@) =~= input.subrange(0, 0));
    while k < texts.len()
        invariant
            k <= texts.len(),
            input == texts@.map_values(|d: String| d@),
            sorted_texts(out@.map_values(|d: String| d@)),
            out@.map_values(|d: String| d@).to_multiset() == input.subrange(0, k as int).to_multiset(),
        decreases texts.len() - k,
    {
        let x = texts[k].clone();
        let xc = crate::text::chars_of(x.as_str());
        let ghost ov = out@.map_values(|d: String| d@);
        let mut i: usize = 0;
        while i < out.len() && text_le_exec(&crate::text::chars_of(out[i].as_str()), &xc)
            invariant
                i <= out.len(),
                xc@ == x@,
                ov == out@.map_values(|d: String| d@),
                forall|j: int| 0 <= j < i ==> text_le(#[trigger] ov[j], x@),
            decreases out.len() - i,
        {
            assert(ov[i as int] == out@[i as int]@);
            i = i + 1;
        }
        if i < out.len() {
            assert(ov[i as int] == out@[i as int]@);
            proof {
                lemma_text_le_total(ov[i as int], x@);
            }
        }
        assert forall|m: int| i <= m < ov.len() implies text_le(x@, #[trigger] ov[m]) by {
            if m > i {
                lemma_text_le_trans(x@, ov[i as int], ov[m]);
            }
        }
        out.insert(i, x);
        let ghost nv = out@.map_values(|d: String| d@);
        assert(nv =~= ov.insert(i as int, x@));
        assert(sorted_texts(nv)) by {
            assert forall|a: int, b: int| 0 <= a < b < nv.len() implies text_le(#[trigger] nv[a], #[trigger] nv[b]) by {
                if b < i {
                    assert(nv[a] == ov[a] && nv[b] == ov[b]);
                } else if b == i {
                    assert(nv[a] == ov[a]);
                } else if a == i {
                    assert(nv[b] == ov[b - 1]);
                    if b - 1 > i {
                        lemma_text_le_trans(x@, ov[i as int], ov[b - 1]);
                    }
                } else if a < i {
                    assert(nv[a] == ov[a] && nv[b] == ov[b - 1]);
                    lemma_text_le_trans(ov[a], x@, ov[b - 1]);
                } else {
                    assert(nv[a] == ov[a - 1] && nv[b] == ov[b - 1]);
                }
            }
        }
        assert(nv.remove(i as int) =~= ov);
        assert(nv.to_multiset() =~= ov.to_multiset().insert(x@)) by {
            nv.to_multiset_ensures();
            ov.to_multiset_ensures();
            assert(nv.remove(i as int).to_multiset() =~= nv.to_multiset().remove(nv[i as int]));
            assert(nv.contains(x@)) by {
                assert(nv[i as int] == x@);
            }
        }
        proof {
            input.subrange(0, k as int).to_multiset_ensures();
        }
        assert(input.subrange(0, k + 1) =~= input.subrange(0, k as int).push(input[k as int]));
        assert(input[k as int] == x@);
        k = k + 1;
    }
    assert(input.subrange(0, k as int) =~= input);
    out
}

proof fn lemma_domains_distinct(s: Seq<ContainerView>)
    requires
        forall|j: int| !#[trigger] repeats_domain(s, j),
    ensures
        domains_of(s).no_duplicates(),
    decreases s.len(),
{
    if s.len() > 0 {
        let p = s.drop_last();
        assert forall|j: int| !#[trigger] repeats_domain(p, j) by {
            if repeats_domain(p, j) {
                let i = choose|i: int| 0 <= i < j && (#[trigger] p[i]).is_running && p[i].domain == p[j].domain;
                assert(s[i] == p[i] && s[j] == p[j]);
                assert(repeats_domain(s, j));
            }
        }
        lemma_domains_distinct(p);
        let c = s.last();
        if c.is_running && c.domain.len() > 0 {
            lemma_domains_of(p, c.domain);
            assert(!domains_of(p).contains(c.domain)) by {
                if domains_of(p).contains(c.domain) {
                    let i = choose|i: int| 0 <= i < p.len() && (#[trigger] p[i]).is_running && p[i].domain == c.domain;
                    assert(s[i] == p[i]);
                    assert(repeats_domain(s, s.len() - 1));
                }
            }
            let d = domains_of(s);
            assert forall|x: int, y: int| 0 <= x < d.len() && 0 <= y < d.len() && x != y implies d[x] != d[y] by {
                if x == d.len() - 1 || y == d.len() - 1 {
                    let o = if x == d.len() - 1 { y } else { x };
                    assert(domains_of(p)[o] == d[o]);
                }
            }
        }
    }
}

/// Plans one pass over the snapshot `containers`. It fails, naming the container, at the
/// first running container whose non-empty domain a running container before it has too;
/// otherwise the plan lists the running descriptors, their non-empty domains in sorted order,
/// the domains of those with TLS ports, and every published port once.
pub fn plan_reconciliation(containers: &Vec<ContainerInfo>) -> (r: Result<ReconcilePlan, DuplicateDomain>)
    ensures
        match r {
            Err(e) => exists|j: int|
                {
                    &&& #[trigger] repeats_domain(descriptor_views(containers@), j)
                    &&& forall|k: int| 0 <= k < j ==> !#[trigger] repeats_domain(descriptor_views(containers@), k)
                    &&& e.name@ == containers@[j]@.name
                    &&& e.domain@ == containers@[j]@.domain
                },
            Ok(p) => {
                let s = descriptor_views(containers@);
                &&& forall|j: int| !#[trigger] repeats_domain(s, j)
                &&& descriptor_views(p.running@) == running_of(s)
                &&& sorted_texts(p.domains@.map_values(|d: String| d@))
                &&& p.domains@.map_values(|d: String| d@).to_multiset() == domains_of(s).to_multiset()
                &&& domains_of(s).no_duplicates()
                &&& p.cert_domains@.map_values(|d: String| d@) == cert_domains_of(s)
                &&& p.ports@.no_duplicates()
                &&& forall|x: u16| #[trigger] p.ports@.contains(x) <==> all_externals(s).contains(x)
            },
        },
{
    let ghost s = descriptor_views(containers@);
    let mut running: Vec<ContainerInfo> = Vec::new();
    let mut domains: Vec<String> = Vec::new();
    let mut cert_domains: Vec<String> = Vec::new();
    let mut ports: Vec<u16> = Vec::new();
    let mut j: usize = 0;
    assert(s.subrange(0, 0) =~= Seq::<ContainerView>::empty());
    while j < containers.len()
        invariant
            j <= containers.len(),
            s == descriptor_views(containers@),
            forall|k: int| 0 <= k < j ==> !#[trigger] repeats_domain(s, k),
            descriptor_views(running@) == running_of(s.subrange(0, j as int)),
            domains@.map_values(|d: String| d@) == domains_of(s.subrange(0, j as int)),
            cert_domains@.map_values(|d: String| d@) == cert_domains_of(s.subrange(0, j as int)),
            ports@.no_duplicates(),
            forall|x: u16| #[trigger] ports@.contains(x) <==> all_externals(s.subrange(0, j as int)).contains(x),
        decreases containers.len() - j,
    {
        let c = &containers[j];
        let ghost cv = c@;
        let ghost prefix = s.subrange(0, j as int);
        let ghost upto = s.subrange(0, j + 1);
        assert(upto.drop_last() =~= prefix);
        assert(upto.last() == cv);
        assert(s[j as int] == cv);
        if c.is_running {
            if !c.domain.as_str().is_empty() {
                proof {
                    lemma_domains_of(prefix, cv.domain);
                }
                if contains_string(&domains, &c.domain) {
                    proof {
                        let i = choose|i: int| 0 <= i < prefix.len() && (#[trigger] prefix[i]).is_running && prefix[i].domain == cv.domain;
                        assert(s[i] == prefix[i]);
                        assert(repeats_domain(s, j as int));
                    }
                    return Err(DuplicateDomain { name: c.name.clone(), domain: c.domain.clone() });
                }
                assert(!repeats_domain(s, j as int)) by {
                    if repeats_domain(s, j as int) {
                        let i = choose|i: int| 0 <= i < j && (#[trigger] s[i]).is_running && s[i].domain == s[j as int].domain;
                        assert(prefix[i] == s[i]);
                    }
                }
            }
            let ghost rb = descriptor_views(running@);
            let copy = c.copy();
            running.push(copy);
            assert(descriptor_views(running@) =~= rb.push(cv));
            if !c.domain.as_str().is_empty() {
                let ghost db = domains@.map_values(|d: String| d@);
                domains.push(c.domain.clone());
                assert(domains@.map_values(|d: String| d@) =~= db.push(cv.domain));
                if c.ssl_ports.len() > 0 {
                    let ghost cb = cert_domains@.map_values(|d: String| d@);
                    cert_domains.push(c.domain.clone());
                    assert(cert_domains@.map_values(|d: String| d@) =~= cb.push(cv.domain));
                }
            }
            let ghost pb = ports@;
            push_externals(&mut ports, &c.ports);
            let ghost pm = ports@;
            push_externals(&mut ports, &c.ssl_ports);
            assert forall|x: u16| #[trigger] ports@.contains(x) <==> all_externals(upto).contains(x) by {
                lemma_concat_contains(all_externals(prefix), externals(cv.ports), x);
                lemma_concat_contains(all_externals(prefix) + externals(cv.ports), externals(cv.ssl_ports), x);
            }
        } else {
            assert(!repeats_domain(s, j as int));
        }
        j = j + 1;
    }
    assert(s.subrange(0, j as int) =~= s);
    assert forall|k: int| !#[trigger] repeats_domain(s, k) by {
        if 0 <= k < s.len() {
            assert(k < j);
        }
    }
    proof {
        lemma_domains_distinct(s);
    }
    let domains = sort_texts(&domains);
    Ok(ReconcilePlan { running, domains, cert_domains, ports })
}

/// Two running descriptors with one non-empty domain make the pass fail, so that no plan,
/// and hence no change to hostnames, certificates or the proxy, comes of it.
pub proof fn lemma_duplicate_domains_abort(s: Seq<ContainerView>, i: int, j: int)
    requires
        0 <= i < j < s.len(),
        s[i].is_running,
        s[j].is_running,
        s[i].domain == s[j].domain,
        s[j].domain.len() > 0,
    ensures
        repeats_domain(s, j),
        !(forall|k: int| !#[trigger] repeats_domain(s, k)),
{
    assert(repeats_domain(s, j));
}

} // verus!
