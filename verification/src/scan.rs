use vstd::prelude::*;

use crate::types::{Service, ServiceInfo, ServiceStatus};

verus! {

// ---------------------------------------------------------------------------
// Liveness classification. The probe itself is an outbound connection made
// by the caller; this module fixes what each probe outcome means for the
// resulting records.
// ---------------------------------------------------------------------------

/// The record that one probe outcome yields for one discovery result: every
/// discovered field kept, the status `Open` exactly when the probe
/// connected.
pub open spec fn record_of(info: ServiceInfo, open: bool) -> Service {
    Service {
        port: info.port,
        status: if open {
            ServiceStatus::Open
        } else {
            ServiceStatus::Closed
        },
        process: info.process,
        pid: info.pid,
        user: info.user,
        protocol: info.protocol,
        local_address: info.local_address,
        fd: info.fd,
        type_field: info.type_field,
        device: info.device,
        size_off: info.size_off,
        node: info.node,
        command_line: info.command_line,
        exe_path: info.exe_path,
        start_time: info.start_time,
        ppid: info.ppid,
    }
}

/// Combine one discovery result with its probe outcome.
pub fn record_from(info: &ServiceInfo, open: bool) -> (r: Service)
    ensures
        r == record_of(*info, open),
{
    let i = info.clone();
    Service {
        port: i.port,
        status: if open {
            ServiceStatus::Open
        } else {
            ServiceStatus::Closed
        },
        process: i.process,
        pid: i.pid,
        user: i.user,
        protocol: i.protocol,
        local_address: i.local_address,
        fd: i.fd,
        type_field: i.type_field,
        device: i.device,
        size_off: i.size_off,
        node: i.node,
        command_line: i.command_line,
        exe_path: i.exe_path,
        start_time: i.start_time,
        ppid: i.ppid,
    }
}

/// Combine a whole discovery batch with its probe outcomes, position by
/// position: the snapshot of one completed scan.
pub fn records_from(infos: &Vec<ServiceInfo>, open_flags: &Vec<bool>) -> (r: Vec<Service>)
    requires
        infos@.len() == open_flags@.len(),
    ensures
        r@.len() == infos@.len(),
        forall|i: int| 0 <= i < r@.len() ==> r@[i] == record_of(infos@[i], open_flags@[i]),
{
    let mut r: Vec<Service> = Vec::new();
    let n = infos.len();
    let mut i: usize = 0;
    while i < n
        invariant
            0 <= i <= n,
            n == infos@.len() == open_flags@.len(),
            r@.len() == i,
            forall|j: int| 0 <= j < i ==> r@[j] == record_of(infos@[j], open_flags@[j]),
        decreases n - i,
    {
        r.push(record_from(&infos[i], open_flags[i]));
        i = i + 1;
    }
    r
}

/// The position of the first discovery result bound to `port`, if any: the
/// record that a detail lookup concerns.
pub fn find_by_port(infos: &Vec<ServiceInfo>, port: u16) -> (r: Option<usize>)
    ensures
        match r {
            Some(i) => i < infos@.len() && infos@[i as int].port == port && forall|j: int|
                0 <= j < i ==> infos@[j].port != port,
            None => forall|j: int| 0 <= j < infos@.len() ==> infos@[j].port != port,
        },
{
    let n = infos.len();
    let mut i: usize = 0;
    while i < n
        invariant
            0 <= i <= n,
            n == infos@.len(),
            forall|j: int| 0 <= j < i ==> infos@[j].port != port,
        decreases n - i,
    {
        if infos[i].port == port {
            return Some(i);
        }
        i = i + 1;
    }
    None
}

} // verus!
