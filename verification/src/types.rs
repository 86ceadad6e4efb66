use vstd::prelude::*;

verus! {

/// Liveness classification of a discovered service: a probe that managed to
/// connect yields `Open`; a refused, failed or timed-out probe yields `Closed`.
#[derive(Debug, Clone, Copy, PartialEq, Eq, Structural)]
pub enum ServiceStatus {
    Open,
    Closed,
}

/// Raw discovery result for one listening socket, before any liveness probe.
/// Every field but `port` is optional: discovery is best-effort and leaves
/// absent whatever it could not obtain.
#[derive(Debug)]
pub struct ServiceInfo {
    pub port: u16,
    pub process: Option<String>,
    pub pid: Option<u32>,
    pub user: Option<String>,
    pub protocol: Option<String>,
    pub local_address: Option<String>,
    pub fd: Option<String>,
    pub type_field: Option<String>,
    pub device: Option<String>,
    pub size_off: Option<String>,
    pub node: Option<String>,
    pub command_line: Option<String>,
    pub exe_path: Option<String>,
    pub start_time: Option<String>,
    pub ppid: Option<u32>,
}

/// A discovered service together with the outcome of its liveness probe.
/// This is the externally visible record; a snapshot is an ordered `Vec` of
/// these.
#[derive(Debug)]
pub struct Service {
    pub port: u16,
    pub status: ServiceStatus,
    pub process: Option<String>,
    pub pid: Option<u32>,
    pub user: Option<String>,
    pub protocol: Option<String>,
    pub local_address: Option<String>,
    pub fd: Option<String>,
    pub type_field: Option<String>,
    pub device: Option<String>,
    pub size_off: Option<String>,
    pub node: Option<String>,
    pub command_line: Option<String>,
    pub exe_path: Option<String>,
    pub start_time: Option<String>,
    pub ppid: Option<u32>,
}

/// Capability interface for the platform-specific discovery mechanism.
/// Implementations enumerate the sockets currently in the listening state;
/// tests may supply a fixture returning canned data.
pub trait ServiceDiscovery: Send + Sync {
    fn discover(&self) -> Vec<ServiceInfo>;
}

/// The character content of an optional string, used wherever a contract
/// compares fields by value rather than by provenance.
pub open spec fn opt_str_view(o: Option<String>) -> Option<Seq<char>> {
    match o {
        Some(s) => Some(s@),
        None => None,
    }
}

/// Full value equality of two service records: every field agrees, string
/// fields compared by their character content.
pub open spec fn service_matches(a: Service, b: Service) -> bool {
    &&& a.port == b.port
    &&& a.status == b.status
    &&& opt_str_view(a.process) == opt_str_view(b.process)
    &&& a.pid == b.pid
    &&& opt_str_view(a.user) == opt_str_view(b.user)
    &&& opt_str_view(a.protocol) == opt_str_view(b.protocol)
    &&& opt_str_view(a.local_address) == opt_str_view(b.local_address)
    &&& opt_str_view(a.fd) == opt_str_view(b.fd)
    &&& opt_str_view(a.type_field) == opt_str_view(b.type_field)
    &&& opt_str_view(a.device) == opt_str_view(b.device)
    &&& opt_str_view(a.size_off) == opt_str_view(b.size_off)
    &&& opt_str_view(a.node) == opt_str_view(b.node)
    &&& opt_str_view(a.command_line) == opt_str_view(b.command_line)
    &&& opt_str_view(a.exe_path) == opt_str_view(b.exe_path)
    &&& opt_str_view(a.start_time) == opt_str_view(b.start_time)
    &&& a.ppid == b.ppid
}

/// Two snapshots are equal iff they hold the same records in the same order;
/// a mere reordering counts as a difference.
pub open spec fn snapshot_matches(a: Seq<Service>, b: Seq<Service>) -> bool {
    &&& a.len() == b.len()
    &&& forall|i: int| 0 <= i < a.len() ==> service_matches(a[i], b[i])
}

fn clone_opt_string(o: &Option<String>) -> (r: Option<String>)
    ensures
        r == *o,
{
    match o {
        Some(s) => Some(s.clone()),
        None => None,
    }
}

impl Clone for ServiceInfo {
    fn clone(&self) -> (r: Self)
        ensures
            r == *self,
    {
        ServiceInfo {
            port: self.port,
            process: clone_opt_string(&self.process),
            pid: self.pid,
            user: clone_opt_string(&self.user),
            protocol: clone_opt_string(&self.protocol),
            local_address: clone_opt_string(&self.local_address),
            fd: clone_opt_string(&self.fd),
            type_field: clone_opt_string(&self.type_field),
            device: clone_opt_string(&self.device),
            size_off: clone_opt_string(&self.size_off),
            node: clone_opt_string(&self.node),
            command_line: clone_opt_string(&self.command_line),
            exe_path: clone_opt_string(&self.exe_path),
            start_time: clone_opt_string(&self.start_time),
            ppid: self.ppid,
        }
    }
}

impl Clone for Service {
    fn clone(&self) -> (r: Self)
        ensures
            r == *self,
    {
        Service {
            port: self.port,
            status: self.status,
            process: clone_opt_string(&self.process),
            pid: self.pid,
            user: clone_opt_string(&self.user),
            protocol: clone_opt_string(&self.protocol),
            local_address: clone_opt_string(&self.local_address),
            fd: clone_opt_string(&self.fd),
            type_field: clone_opt_string(&self.type_field),
            device: clone_opt_string(&self.device),
            size_off: clone_opt_string(&self.size_off),
            node: clone_opt_string(&self.node),
            command_line: clone_opt_string(&self.command_line),
            exe_path: clone_opt_string(&self.exe_path),
            start_time: clone_opt_string(&self.start_time),
            ppid: self.ppid,
        }
    }
}

pub(crate) fn opt_string_eq(a: &Option<String>, b: &Option<String>) -> (r: bool)
    ensures
        r == (opt_str_view(*a) == opt_str_view(*b)),
{
    match (a, b) {
        (Some(x), Some(y)) => x.eq(y),
        (None, None) => true,
        _ => false,
    }
}

/// Full value equality of two records, matching `service_matches`.
pub fn service_eq(a: &Service, b: &Service) -> (r: bool)
    ensures
        r == service_matches(*a, *b),
{
    a.port == b.port && a.status == b.status && opt_string_eq(&a.process, &b.process)
        && a.pid == b.pid && opt_string_eq(&a.user, &b.user)
        && opt_string_eq(&a.protocol, &b.protocol)
        && opt_string_eq(&a.local_address, &b.local_address) && opt_string_eq(&a.fd, &b.fd)
        && opt_string_eq(&a.type_field, &b.type_field) && opt_string_eq(&a.device, &b.device)
        && opt_string_eq(&a.size_off, &b.size_off) && opt_string_eq(&a.node, &b.node)
        && opt_string_eq(&a.command_line, &b.command_line)
        && opt_string_eq(&a.exe_path, &b.exe_path)
        && opt_string_eq(&a.start_time, &b.start_time) && a.ppid == b.ppid
}

/// Whole-snapshot equality, element-wise and order-sensitive.
pub fn snapshot_eq(a: &Vec<Service>, b: &Vec<Service>) -> (r: bool)
    ensures
        r == snapshot_matches(a@, b@),
{
    if a.len() != b.len() {
        return false;
    }
    let n = a.len();
    let mut i: usize = 0;
    while i < n
        invariant
            n == a@.len() == b@.len(),
            0 <= i <= n,
            forall|j: int| 0 <= j < i ==> service_matches(a@[j], b@[j]),
        decreases n - i,
    {
        if !service_eq(&a[i], &b[i]) {
            return false;
        }
        i = i + 1;
    }
    true
}

/// An element-wise copy of a snapshot, so that a reader's view is never
/// affected by a later overwrite of the shared slot.
pub fn clone_snapshot(v: &Vec<Service>) -> (r: Vec<Service>)
    ensures
        r@ == v@,
{
    let mut out: Vec<Service> = Vec::new();
    let n = v.len();
    let mut i: usize = 0;
    while i < n
        invariant
            n == v@.len(),
            0 <= i <= n,
            out@ == v@.subrange(0, i as int),
        decreases n - i,
    {
        out.push(v[i].clone());
        proof {
            assert(out@ =~= v@.subrange(0, i as int + 1));
        }
        i = i + 1;
    }
    proof {
        assert(v@.subrange(0, n as int) =~= v@);
    }
    out
}

} // verus!
