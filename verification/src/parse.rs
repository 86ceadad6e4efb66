use vstd::prelude::*;

use crate::text::{
    bytes_to_string, decoded_utf8, find_byte, find_byte_from, find_last, find_last_byte,
    lines_from, parse_u16_bytes, parse_u16_spec, parse_u32_bytes, parse_u32_spec, split_lines,
    subvec, tokenize, tokens_from, trim_byte_vec, trim_bytes,
};
use crate::types::{opt_str_view, ServiceInfo};
use vstd::string::{StrSliceExecFns, StringSliceAdditionalSpecFns};

verus! {

// ---------------------------------------------------------------------------
// Discovery-output parser. The socket-table facility produces line-oriented,
// whitespace-columned text; this module turns its raw bytes into
// `ServiceInfo` records, best-effort: malformed lines are dropped, never
// reported as an error.
// ---------------------------------------------------------------------------

/// The byte-level content of one parsed line, before field values are
/// decoded into strings.
pub struct InfoBytes {
    pub port: u16,
    pub process: Seq<u8>,
    pub pid: Option<u32>,
    pub user: Seq<u8>,
    pub fd: Seq<u8>,
    pub type_field: Seq<u8>,
    pub device: Seq<u8>,
    pub size_off: Seq<u8>,
    pub node: Seq<u8>,
    pub protocol: Option<Seq<u8>>,
    pub local_address: Option<Seq<u8>>,
}

/// What the trailing name column yields: the part before the first `/` as
/// the protocol; the rest (or, if empty, the whole token) split at its last
/// `:` into a local address and a port token, the port token read as a
/// 16-bit decimal number.
pub open spec fn parse_name_column(t: Seq<u8>) -> (Option<Seq<u8>>, Option<Seq<u8>>, Option<
    u16,
>) {
    let toks = tokens_from(t, 0);
    if toks.len() == 0 {
        (None, None, None)
    } else {
        let tok = toks[0];
        let slash = find_byte(tok, 47, 0);
        let proto = tok.subrange(0, slash);
        let rest = if slash < tok.len() {
            tok.subrange(slash + 1, tok.len() as int)
        } else {
            Seq::<u8>::empty()
        };
        let addr = if rest.len() == 0 {
            tok
        } else {
            rest
        };
        let colon = find_last(addr, 58);
        if colon < 0 {
            (Some(proto), None, None)
        } else {
            (
                Some(proto),
                Some(addr.subrange(0, colon)),
                parse_u16_spec(addr.subrange(colon + 1, addr.len() as int)),
            )
        }
    }
}

/// One line of the socket table: at least nine whitespace-separated columns,
/// fixed positions for process, pid, user and socket metadata, the
/// second-to-last column as the name column. A line with too few columns or
/// an unparsable port yields nothing.
pub open spec fn parse_line(line: Seq<u8>) -> Option<InfoBytes> {
    let toks = tokens_from(line, 0);
    if toks.len() < 9 {
        None
    } else {
        let name = toks[toks.len() - 2];
        let parsed = parse_name_column(name);
        match parsed.2 {
            Some(p) => Some(
                InfoBytes {
                    port: p,
                    process: toks[0],
                    pid: parse_u32_spec(toks[1]),
                    user: toks[2],
                    fd: toks[3],
                    type_field: toks[4],
                    device: toks[5],
                    size_off: toks[6],
                    node: toks[7],
                    protocol: parsed.0,
                    local_address: parsed.1,
                },
            ),
            None => None,
        }
    }
}

pub open spec fn parse_lines(ls: Seq<Seq<u8>>) -> Seq<InfoBytes>
    decreases ls.len(),
{
    if ls.len() == 0 {
        Seq::empty()
    } else {
        match parse_line(ls[0]) {
            Some(ib) => seq![ib] + parse_lines(ls.drop_first()),
            None => parse_lines(ls.drop_first()),
        }
    }
}

/// The whole discovery output: every line after the header, parsed
/// best-effort, in order.
pub open spec fn parse_output(out: Seq<u8>) -> Seq<InfoBytes> {
    let ls = lines_from(out, 0);
    if ls.len() <= 1 {
        Seq::empty()
    } else {
        parse_lines(ls.subrange(1, ls.len() as int))
    }
}

pub open spec fn opt_decoded(o: Option<Seq<u8>>) -> Option<Seq<char>> {
    match o {
        Some(b) => Some(decoded_utf8(b)),
        None => None,
    }
}

/// A freshly parsed record carries exactly the decoded column values; the
/// per-process detail fields are still absent.
pub open spec fn info_matches(s: ServiceInfo, ib: InfoBytes) -> bool {
    &&& s.port == ib.port
    &&& opt_str_view(s.process) == Some(decoded_utf8(ib.process))
    &&& s.pid == ib.pid
    &&& opt_str_view(s.user) == Some(decoded_utf8(ib.user))
    &&& opt_str_view(s.protocol) == opt_decoded(ib.protocol)
    &&& opt_str_view(s.local_address) == opt_decoded(ib.local_address)
    &&& opt_str_view(s.fd) == Some(decoded_utf8(ib.fd))
    &&& opt_str_view(s.type_field) == Some(decoded_utf8(ib.type_field))
    &&& opt_str_view(s.device) == Some(decoded_utf8(ib.device))
    &&& opt_str_view(s.size_off) == Some(decoded_utf8(ib.size_off))
    &&& opt_str_view(s.node) == Some(decoded_utf8(ib.node))
    &&& opt_str_view(s.command_line) == None::<Seq<char>>
    &&& opt_str_view(s.exe_path) == None::<Seq<char>>
    &&& opt_str_view(s.start_time) == None::<Seq<char>>
    &&& s.ppid == None::<u32>
}

pub open spec fn infos_match(s: Seq<ServiceInfo>, t: Seq<InfoBytes>) -> bool {
    &&& s.len() == t.len()
    &&& forall|i: int| 0 <= i < s.len() ==> info_matches(s[i], t[i])
}

proof fn lemma_deep_index(v: Vec<Vec<u8>>)
    ensures
        v.deep_view().len() == v@.len(),
        forall|k: int| 0 <= k < v@.len() ==> v.deep_view()[k] == v@[k]@,
{
    assert forall|k: int| 0 <= k < v@.len() implies v.deep_view()[k] == v@[k]@ by {
        assert(v.deep_view()[k] =~= v@[k]@);
    }
}

fn parse_name_bytes(t: &Vec<u8>) -> (r: (Option<Vec<u8>>, Option<Vec<u8>>, Option<u16>))
    ensures
        ({
            let m = parse_name_column(t@);
            &&& match (r.0, m.0) {
                (Some(v), Some(b)) => v@ == b,
                (None, None) => true,
                _ => false,
            }
            &&& match (r.1, m.1) {
                (Some(v), Some(b)) => v@ == b,
                (None, None) => true,
                _ => false,
            }
            &&& r.2 == m.2
        }),
{
    let toks = tokenize(t);
    proof {
        lemma_deep_index(toks);
    }
    if toks.len() == 0 {
        return (None, None, None);
    }
    let tok = &toks[0];
    let slash = find_byte_from(tok, 47, 0);
    let proto = subvec(tok, 0, slash);
    let rest: Vec<u8> = if slash < tok.len() {
        subvec(tok, slash + 1, tok.len())
    } else {
        Vec::new()
    };
    let addr: &Vec<u8> = if rest.len() == 0 {
        tok
    } else {
        &rest
    };
    match find_last_byte(addr, 58) {
        None => (Some(proto), None, None),
        Some(colon) => {
            let local = subvec(addr, 0, colon);
            let port_tok = subvec(addr, colon + 1, addr.len());
            let port = parse_u16_bytes(&port_tok);
            (Some(proto), Some(local), port)
        },
    }
}

/// The fallback parser for the trailing name column, e.g. `*:3000` or
/// `127.0.0.1:27017`: protocol before any `/`, then address and port around
/// the last `:`; an unparsable port yields an absent port.
pub fn parse_protocol_address_port(name: &str) -> (r: (Option<String>, Option<String>, Option<
    u16,
>))
    ensures
        ({
            let m = parse_name_column(name.spec_bytes());
            &&& opt_str_view(r.0) == opt_decoded(m.0)
            &&& opt_str_view(r.1) == opt_decoded(m.1)
            &&& r.2 == m.2
        }),
{
    let bytes = name.as_bytes_vec();
    let (proto, local, port) = parse_name_bytes(&bytes);
    let proto_s = match proto {
        Some(v) => Some(bytes_to_string(&v)),
        None => None,
    };
    let local_s = match local {
        Some(v) => Some(bytes_to_string(&v)),
        None => None,
    };
    (proto_s, local_s, port)
}

fn parse_line_exec(line: &Vec<u8>) -> (r: Option<ServiceInfo>)
    ensures
        match (r, parse_line(line@)) {
            (Some(s), Some(ib)) => info_matches(s, ib),
            (None, None) => true,
            _ => false,
        },
{
    let toks = tokenize(line);
    proof {
        lemma_deep_index(toks);
    }
    if toks.len() < 9 {
        return None;
    }
    let name = &toks[toks.len() - 2];
    let (_, _, port) = parse_name_bytes(name);
    match port {
        None => None,
        Some(p) => {
            let (proto, local, _) = parse_name_bytes(name);
            let pid = parse_u32_bytes(&toks[1]);
            Some(
                ServiceInfo {
                    port: p,
                    process: Some(bytes_to_string(&toks[0])),
                    pid,
                    user: Some(bytes_to_string(&toks[2])),
                    protocol: match proto {
                        Some(v) => Some(bytes_to_string(&v)),
                        None => None,
                    },
                    local_address: match local {
                        Some(v) => Some(bytes_to_string(&v)),
                        None => None,
                    },
                    fd: Some(bytes_to_string(&toks[3])),
                    type_field: Some(bytes_to_string(&toks[4])),
                    device: Some(bytes_to_string(&toks[5])),
                    size_off: Some(bytes_to_string(&toks[6])),
                    node: Some(bytes_to_string(&toks[7])),
                    command_line: None,
                    exe_path: None,
                    start_time: None,
                    ppid: None,
                },
            )
        },
    }
}

/// Parse a whole discovery output: skip the header line, keep every
/// well-formed line's record, drop the rest, in order.
pub fn parse_discovery_output(out: &Vec<u8>) -> (r: Vec<ServiceInfo>)
    ensures
        infos_match(r@, parse_output(out@)),
{
    let lines = split_lines(out);
    proof {
        lemma_deep_index(lines);
    }
    let mut r: Vec<ServiceInfo> = Vec::new();
    let n = lines.len();
    if n <= 1 {
        return r;
    }
    let ghost tail = lines.deep_view().subrange(1, n as int);
    let mut i: usize = 1;
    while i < n
        invariant
            1 <= i <= n,
            n == lines@.len(),
            n == lines.deep_view().len(),
            tail == lines.deep_view().subrange(1, n as int),
            forall|k: int| 0 <= k < n ==> lines.deep_view()[k] == lines@[k]@,
            infos_match(r@, parse_lines(tail.subrange(0, i - 1))),
            parse_output(out@) == parse_lines(tail),
        decreases n - i,
    {
        let parsed = parse_line_exec(&lines[i]);
        proof {
            lemma_parse_lines_snoc(tail, i - 1);
        }
        match parsed {
            Some(info) => {
                r.push(info);
            },
            None => {},
        }
        i = i + 1;
    }
    proof {
        assert(tail.subrange(0, n - 1) =~= tail);
    }
    r
}

proof fn lemma_parse_lines_snoc(ls: Seq<Seq<u8>>, i: int)
    requires
        0 <= i < ls.len(),
    ensures
        parse_lines(ls.subrange(0, i + 1)) == parse_lines(ls.subrange(0, i)) + (match parse_line(
            ls[i],
        ) {
            Some(ib) => seq![ib],
            None => Seq::<InfoBytes>::empty(),
        }),
    decreases i,
{
    let a = ls.subrange(0, i + 1);
    let b = ls.subrange(0, i);
    if i == 0 {
        assert(a.len() == 1);
        assert(a[0] == ls[0]);
        assert(a.drop_first() =~= Seq::<Seq<u8>>::empty());
        assert(b =~= Seq::<Seq<u8>>::empty());
        match parse_line(ls[0]) {
            Some(ib) => {
                assert(parse_lines(a) =~= seq![ib]);
                assert(parse_lines(b) + seq![ib] =~= seq![ib]);
            },
            None => {
                assert(parse_lines(a) =~= Seq::<InfoBytes>::empty());
            },
        }
    } else {
        lemma_parse_lines_snoc(ls.drop_first(), i - 1);
        assert(a.drop_first() =~= ls.drop_first().subrange(0, i));
        assert(b.drop_first() =~= ls.drop_first().subrange(0, i - 1));
        assert(a[0] == ls[0]);
        assert(b[0] == ls[0]);
        assert(ls.drop_first()[i - 1] == ls[i]);
        match parse_line(ls[0]) {
            Some(ib0) => {
                assert(parse_lines(a) == seq![ib0] + parse_lines(a.drop_first()));
                assert(parse_lines(b) == seq![ib0] + parse_lines(b.drop_first()));
                match parse_line(ls[i]) {
                    Some(ib) => {
                        assert(parse_lines(a) =~= parse_lines(b) + seq![ib]);
                    },
                    None => {
                        assert(parse_lines(a) =~= parse_lines(b));
                    },
                }
            },
            None => {
                assert(parse_lines(a) == parse_lines(a.drop_first()));
                assert(parse_lines(b) == parse_lines(b.drop_first()));
                match parse_line(ls[i]) {
                    Some(ib) => {
                        assert(parse_lines(a) =~= parse_lines(b) + seq![ib]);
                    },
                    None => {
                        assert(parse_lines(a) =~= parse_lines(b));
                    },
                }
            },
        }
    }
}

// ---------------------------------------------------------------------------
// Deduplication by the (process, pid, port) key, keeping the first
// occurrence and preserving order.
// ---------------------------------------------------------------------------

/// The identity under which discovered records are deduplicated.
pub type InfoKey = (Option<Seq<char>>, Option<u32>, u16);

pub open spec fn info_key(s: ServiceInfo) -> InfoKey {
    (opt_str_view(s.process), s.pid, s.port)
}

/// The keys that occur anywhere in `s`.
pub open spec fn seen_keys(s: Seq<ServiceInfo>) -> Set<InfoKey> {
    Set::new(|k: InfoKey| exists|j: int| 0 <= j < s.len() && info_key(s[j]) == k)
}

/// `s[i..]` with every record dropped whose key was already in `seen` or
/// occurred earlier in the suffix; order and first occurrences are kept.
pub open spec fn dedup_from(s: Seq<ServiceInfo>, i: int, seen: Set<InfoKey>) -> Seq<ServiceInfo>
    decreases s.len() - i when 0 <= i <= s.len()
{
    if i >= s.len() {
        Seq::empty()
    } else if seen.contains(info_key(s[i])) {
        dedup_from(s, i + 1, seen)
    } else {
        seq![s[i]] + dedup_from(s, i + 1, seen.insert(info_key(s[i])))
    }
}

pub open spec fn dedup_spec(s: Seq<ServiceInfo>) -> Seq<ServiceInfo> {
    dedup_from(s, 0, Set::empty())
}

proof fn lemma_dedup_distinct(s: Seq<ServiceInfo>, i: int, seen: Set<InfoKey>)
    requires
        0 <= i <= s.len(),
    ensures
        forall|a: int|
            0 <= a < dedup_from(s, i, seen).len() ==> !seen.contains(
                info_key(dedup_from(s, i, seen)[a]),
            ),
        forall|a: int, b: int|
            0 <= a < b < dedup_from(s, i, seen).len() ==> info_key(dedup_from(s, i, seen)[a])
                != info_key(dedup_from(s, i, seen)[b]),
    decreases s.len() - i,
{
    if i >= s.len() {
        assert(dedup_from(s, i, seen) =~= Seq::<ServiceInfo>::empty());
    } else if seen.contains(info_key(s[i])) {
        lemma_dedup_distinct(s, i + 1, seen);
        assert(dedup_from(s, i, seen) == dedup_from(s, i + 1, seen));
    } else {
        let key = info_key(s[i]);
        lemma_dedup_distinct(s, i + 1, seen.insert(key));
        let r = dedup_from(s, i, seen);
        let r2 = dedup_from(s, i + 1, seen.insert(key));
        assert(r == seq![s[i]] + r2);
        assert forall|a: int| 0 <= a < r.len() implies !seen.contains(info_key(r[a])) by {
            if a > 0 {
                assert(r[a] == r2[a - 1]);
            }
        }
        assert forall|a: int, b: int| 0 <= a < b < r.len() implies info_key(r[a]) != info_key(
            r[b],
        ) by {
            assert(r[b] == r2[b - 1]);
            if a == 0 {
                assert(!seen.insert(key).contains(info_key(r2[b - 1])));
            } else {
                assert(r[a] == r2[a - 1]);
            }
        }
    }
}

/// No two records of a deduplicated discovery result share the
/// (process, pid, port) key.
pub proof fn lemma_dedup_no_duplicate_keys(s: Seq<ServiceInfo>)
    ensures
        forall|a: int, b: int|
            0 <= a < b < dedup_spec(s).len() ==> info_key(dedup_spec(s)[a]) != info_key(
                dedup_spec(s)[b],
            ),
{
    lemma_dedup_distinct(s, 0, Set::empty());
}

fn info_key_eq(a: &ServiceInfo, b: &ServiceInfo) -> (r: bool)
    ensures
        r == (info_key(*a) == info_key(*b)),
{
    a.port == b.port && a.pid == b.pid && crate::types::opt_string_eq(&a.process, &b.process)
}

fn contains_key(v: &Vec<ServiceInfo>, x: &ServiceInfo) -> (r: bool)
    ensures
        r == seen_keys(v@).contains(info_key(*x)),
{
    let n = v.len();
    let mut i: usize = 0;
    while i < n
        invariant
            0 <= i <= n,
            n == v@.len(),
            forall|j: int| 0 <= j < i ==> info_key(v@[j]) != info_key(*x),
        decreases n - i,
    {
        if info_key_eq(&v[i], x) {
            return true;
        }
        i = i + 1;
    }
    false
}

/// Drop every record whose (process, pid, port) key occurred before,
/// keeping first occurrences in their original order. The result holds no
/// two records with an equal key.
pub fn dedup_services(v: &Vec<ServiceInfo>) -> (r: Vec<ServiceInfo>)
    ensures
        r@ == dedup_spec(v@),
        forall|a: int, b: int|
            0 <= a < b < r@.len() ==> info_key(r@[a]) != info_key(r@[b]),
{
    let mut out: Vec<ServiceInfo> = Vec::new();
    let n = v.len();
    let mut i: usize = 0;
    proof {
        assert(seen_keys(out@) =~= Set::<InfoKey>::empty());
    }
    while i < n
        invariant
            0 <= i <= n,
            n == v@.len(),
            dedup_spec(v@) == out@ + dedup_from(v@, i as int, seen_keys(out@)),
        decreases n - i,
    {
        let ghost prev = out@;
        let present = contains_key(&out, &v[i]);
        if !present {
            out.push(v[i].clone());
            proof {
                let key = info_key(v@[i as int]);
                assert(out@ == prev.push(v@[i as int]));
                assert forall|k: InfoKey| #[trigger] seen_keys(out@).contains(k) implies seen_keys(
                    prev,
                ).insert(key).contains(k) by {
                    let j = choose|j: int| 0 <= j < out@.len() && info_key(out@[j]) == k;
                    if j < prev.len() {
                        assert(0 <= j < prev.len() && info_key(prev[j]) == k);
                    }
                }
                assert forall|k: InfoKey| #[trigger] seen_keys(prev).insert(key).contains(
                    k,
                ) implies seen_keys(out@).contains(k) by {
                    if seen_keys(prev).contains(k) {
                        let j = choose|j: int| 0 <= j < prev.len() && info_key(prev[j]) == k;
                        assert(0 <= j < out@.len() && info_key(out@[j]) == k);
                    } else {
                        assert(info_key(out@[prev.len() as int]) == k);
                    }
                }
                assert(seen_keys(out@) =~= seen_keys(prev).insert(info_key(v@[i as int])));
                assert(dedup_from(v@, i as int, seen_keys(prev)) == seq![v@[i as int]]
                    + dedup_from(v@, i + 1, seen_keys(prev).insert(info_key(v@[i as int]))));
                assert(out@ + dedup_from(v@, i + 1, seen_keys(out@)) =~= prev + dedup_from(
                    v@,
                    i as int,
                    seen_keys(prev),
                ));
            }
        } else {
            proof {
                assert(dedup_from(v@, i as int, seen_keys(prev)) == dedup_from(
                    v@,
                    i + 1,
                    seen_keys(prev),
                ));
            }
        }
        i = i + 1;
    }
    proof {
        assert(dedup_from(v@, n as int, seen_keys(out@)) =~= Seq::<ServiceInfo>::empty());
        assert(out@ =~= dedup_spec(v@));
        lemma_dedup_distinct(v@, 0, Set::empty());
    }
    out
}

// ---------------------------------------------------------------------------
// Per-process detail values and their attachment.
// ---------------------------------------------------------------------------

/// A single-line detail value from the process-detail facility, with
/// surrounding whitespace removed.
pub fn trim_value(s: &str) -> (r: String)
    ensures
        r@ == decoded_utf8(trim_bytes(s.spec_bytes())),
{
    let bytes = s.as_bytes_vec();
    let trimmed = trim_byte_vec(&bytes);
    bytes_to_string(&trimmed)
}

/// A process id read from a detail line: trimmed, then parsed as the
/// standard unsigned 32-bit decimal parse.
pub fn parse_pid_value(s: &str) -> (r: Option<u32>)
    ensures
        r == parse_u32_spec(trim_bytes(s.spec_bytes())),
{
    let bytes = s.as_bytes_vec();
    let trimmed = trim_byte_vec(&bytes);
    parse_u32_bytes(&trimmed)
}

/// A record enriched with the secondary per-process details; every other
/// field is kept as discovered.
pub fn attach_details(
    info: ServiceInfo,
    command_line: Option<String>,
    exe_path: Option<String>,
    start_time: Option<String>,
    ppid: Option<u32>,
) -> (r: ServiceInfo)
    ensures
        r == (ServiceInfo { command_line, exe_path, start_time, ppid, ..info }),
{
    ServiceInfo { command_line, exe_path, start_time, ppid, ..info }
}

} // verus!
