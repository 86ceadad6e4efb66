use vstd::prelude::*;

use crate::types::{clone_snapshot, opt_str_view, Service, ServiceStatus};
use vstd::pervasive::VecAdditionalExecFns;
use vstd::string::StrSliceExecFns;

verus! {

// ---------------------------------------------------------------------------
// Query engine: deterministic sorting and pagination over a snapshot.
// ---------------------------------------------------------------------------

/// The record fields a client may sort by.
#[derive(Debug, Clone, Copy, PartialEq, Eq, Structural)]
pub enum SortField {
    Port,
    Status,
    Process,
    Pid,
    User,
    Protocol,
    LocalAddress,
    Fd,
    TypeField,
    Device,
    SizeOff,
    Node,
    CommandLine,
    ExePath,
    StartTime,
    Ppid,
}

#[derive(Debug, Clone, Copy, PartialEq, Eq, Structural)]
pub enum SortOrder {
    Asc,
    Desc,
}

/// Strict lexicographic order on character sequences, by code point; a
/// proper prefix sorts first.
pub open spec fn seq_char_lt(a: Seq<char>, b: Seq<char>) -> bool
    decreases a.len(),
{
    if b.len() == 0 {
        false
    } else if a.len() == 0 {
        true
    } else if (a[0] as u32) == (b[0] as u32) {
        seq_char_lt(a.drop_first(), b.drop_first())
    } else {
        (a[0] as u32) < (b[0] as u32)
    }
}

/// Code-point-wise equality of character sequences.
pub open spec fn chars_eqv(a: Seq<char>, b: Seq<char>) -> bool
    decreases a.len(),
{
    if a.len() == 0 || b.len() == 0 {
        a.len() == b.len()
    } else {
        (a[0] as u32) == (b[0] as u32) && chars_eqv(a.drop_first(), b.drop_first())
    }
}

/// Order on optional strings: an absent value sorts as the minimal value.
pub open spec fn opt_chars_lt(a: Option<Seq<char>>, b: Option<Seq<char>>) -> bool {
    match (a, b) {
        (None, Some(_)) => true,
        (Some(x), Some(y)) => seq_char_lt(x, y),
        _ => false,
    }
}

pub open spec fn opt_chars_eqv(a: Option<Seq<char>>, b: Option<Seq<char>>) -> bool {
    match (a, b) {
        (None, None) => true,
        (Some(x), Some(y)) => chars_eqv(x, y),
        _ => false,
    }
}

/// Order on optional numbers: an absent value sorts as the minimal value.
pub open spec fn opt_u32_lt(a: Option<u32>, b: Option<u32>) -> bool {
    match (a, b) {
        (None, Some(_)) => true,
        (Some(x), Some(y)) => x < y,
        _ => false,
    }
}

/// Statuses are ordered `Open` before `Closed`.
pub open spec fn status_lt(a: ServiceStatus, b: ServiceStatus) -> bool {
    a is Open && b is Closed
}

/// Strict order of two records under one sort field.
pub open spec fn field_lt(f: SortField, a: Service, b: Service) -> bool {
    match f {
        SortField::Port => a.port < b.port,
        SortField::Status => status_lt(a.status, b.status),
        SortField::Process => opt_chars_lt(opt_str_view(a.process), opt_str_view(b.process)),
        SortField::Pid => opt_u32_lt(a.pid, b.pid),
        SortField::User => opt_chars_lt(opt_str_view(a.user), opt_str_view(b.user)),
        SortField::Protocol => opt_chars_lt(opt_str_view(a.protocol), opt_str_view(b.protocol)),
        SortField::LocalAddress => opt_chars_lt(
            opt_str_view(a.local_address),
            opt_str_view(b.local_address),
        ),
        SortField::Fd => opt_chars_lt(opt_str_view(a.fd), opt_str_view(b.fd)),
        SortField::TypeField => opt_chars_lt(opt_str_view(a.type_field), opt_str_view(b.type_field)),
        SortField::Device => opt_chars_lt(opt_str_view(a.device), opt_str_view(b.device)),
        SortField::SizeOff => opt_chars_lt(opt_str_view(a.size_off), opt_str_view(b.size_off)),
        SortField::Node => opt_chars_lt(opt_str_view(a.node), opt_str_view(b.node)),
        SortField::CommandLine => opt_chars_lt(
            opt_str_view(a.command_line),
            opt_str_view(b.command_line),
        ),
        SortField::ExePath => opt_chars_lt(opt_str_view(a.exe_path), opt_str_view(b.exe_path)),
        SortField::StartTime => opt_chars_lt(opt_str_view(a.start_time), opt_str_view(b.start_time)),
        SortField::Ppid => opt_u32_lt(a.ppid, b.ppid),
    }
}

/// Equality of two records' values under one sort field.
pub open spec fn field_eqv(f: SortField, a: Service, b: Service) -> bool {
    match f {
        SortField::Port => a.port == b.port,
        SortField::Status => a.status == b.status,
        SortField::Process => opt_chars_eqv(opt_str_view(a.process), opt_str_view(b.process)),
        SortField::Pid => a.pid == b.pid,
        SortField::User => opt_chars_eqv(opt_str_view(a.user), opt_str_view(b.user)),
        SortField::Protocol => opt_chars_eqv(opt_str_view(a.protocol), opt_str_view(b.protocol)),
        SortField::LocalAddress => opt_chars_eqv(
            opt_str_view(a.local_address),
            opt_str_view(b.local_address),
        ),
        SortField::Fd => opt_chars_eqv(opt_str_view(a.fd), opt_str_view(b.fd)),
        SortField::TypeField => opt_chars_eqv(
            opt_str_view(a.type_field),
            opt_str_view(b.type_field),
        ),
        SortField::Device => opt_chars_eqv(opt_str_view(a.device), opt_str_view(b.device)),
        SortField::SizeOff => opt_chars_eqv(opt_str_view(a.size_off), opt_str_view(b.size_off)),
        SortField::Node => opt_chars_eqv(opt_str_view(a.node), opt_str_view(b.node)),
        SortField::CommandLine => opt_chars_eqv(
            opt_str_view(a.command_line),
            opt_str_view(b.command_line),
        ),
        SortField::ExePath => opt_chars_eqv(opt_str_view(a.exe_path), opt_str_view(b.exe_path)),
        SortField::StartTime => opt_chars_eqv(
            opt_str_view(a.start_time),
            opt_str_view(b.start_time),
        ),
        SortField::Ppid => a.ppid == b.ppid,
    }
}

/// The comparator the sort uses: not-after, under the requested field and
/// direction. Descending reverses the strict comparison, never the equal
/// case, so equal keys keep their original order either way.
pub open spec fn key_le(f: SortField, ord: SortOrder, a: Service, b: Service) -> bool {
    field_eqv(f, a, b) || (match ord {
        SortOrder::Asc => field_lt(f, a, b),
        SortOrder::Desc => field_lt(f, b, a),
    })
}

// ---------------------------------------------------------------------------
// Totality and transitivity of the comparator, field by field.
// ---------------------------------------------------------------------------

proof fn lemma_chars_total(a: Seq<char>, b: Seq<char>)
    ensures
        seq_char_lt(a, b) || seq_char_lt(b, a) || chars_eqv(a, b),
    decreases a.len(),
{
    if a.len() > 0 && b.len() > 0 && (a[0] as u32) == (b[0] as u32) {
        lemma_chars_total(a.drop_first(), b.drop_first());
    }
}

proof fn lemma_chars_eqv_sym(a: Seq<char>, b: Seq<char>)
    ensures
        chars_eqv(a, b) == chars_eqv(b, a),
    decreases a.len(),
{
    if a.len() > 0 && b.len() > 0 {
        lemma_chars_eqv_sym(a.drop_first(), b.drop_first());
    }
}

proof fn lemma_chars_lt_trans(a: Seq<char>, b: Seq<char>, c: Seq<char>)
    requires
        seq_char_lt(a, b),
        seq_char_lt(b, c),
    ensures
        seq_char_lt(a, c),
    decreases a.len(),
{
    if a.len() > 0 && b.len() > 0 && c.len() > 0 {
        if (a[0] as u32) == (b[0] as u32) && (b[0] as u32) == (c[0] as u32) {
            lemma_chars_lt_trans(a.drop_first(), b.drop_first(), c.drop_first());
        }
    }
}

proof fn lemma_chars_lt_eqv_right(a: Seq<char>, b: Seq<char>, c: Seq<char>)
    requires
        seq_char_lt(a, b),
        chars_eqv(b, c),
    ensures
        seq_char_lt(a, c),
    decreases a.len(),
{
    if a.len() > 0 && b.len() > 0 && c.len() > 0 {
        if (a[0] as u32) == (b[0] as u32) {
            lemma_chars_lt_eqv_right(a.drop_first(), b.drop_first(), c.drop_first());
        }
    }
}

proof fn lemma_chars_eqv_left_lt(a: Seq<char>, b: Seq<char>, c: Seq<char>)
    requires
        chars_eqv(a, b),
        seq_char_lt(b, c),
    ensures
        seq_char_lt(a, c),
    decreases a.len(),
{
    if a.len() > 0 && b.len() > 0 && c.len() > 0 {
        if (b[0] as u32) == (c[0] as u32) {
            lemma_chars_eqv_left_lt(a.drop_first(), b.drop_first(), c.drop_first());
        }
    }
}

proof fn lemma_chars_eqv_trans(a: Seq<char>, b: Seq<char>, c: Seq<char>)
    requires
        chars_eqv(a, b),
        chars_eqv(b, c),
    ensures
        chars_eqv(a, c),
    decreases a.len(),
{
    if a.len() > 0 && b.len() > 0 && c.len() > 0 {
        lemma_chars_eqv_trans(a.drop_first(), b.drop_first(), c.drop_first());
    }
}

/// The comparator is total: of any two records, at least one is not-after
/// the other.
pub proof fn lemma_key_le_total(f: SortField, ord: SortOrder, a: Service, b: Service)
    ensures
        key_le(f, ord, a, b) || key_le(f, ord, b, a),
{
    match f {
        SortField::Process => lemma_opt_total(opt_str_view(a.process), opt_str_view(b.process)),
        SortField::User => lemma_opt_total(opt_str_view(a.user), opt_str_view(b.user)),
        SortField::Protocol => lemma_opt_total(opt_str_view(a.protocol), opt_str_view(b.protocol)),
        SortField::LocalAddress => lemma_opt_total(
            opt_str_view(a.local_address),
            opt_str_view(b.local_address),
        ),
        SortField::Fd => lemma_opt_total(opt_str_view(a.fd), opt_str_view(b.fd)),
        SortField::TypeField => lemma_opt_total(
            opt_str_view(a.type_field),
            opt_str_view(b.type_field),
        ),
        SortField::Device => lemma_opt_total(opt_str_view(a.device), opt_str_view(b.device)),
        SortField::SizeOff => lemma_opt_total(opt_str_view(a.size_off), opt_str_view(b.size_off)),
        SortField::Node => lemma_opt_total(opt_str_view(a.node), opt_str_view(b.node)),
        SortField::CommandLine => lemma_opt_total(
            opt_str_view(a.command_line),
            opt_str_view(b.command_line),
        ),
        SortField::ExePath => lemma_opt_total(opt_str_view(a.exe_path), opt_str_view(b.exe_path)),
        SortField::StartTime => lemma_opt_total(
            opt_str_view(a.start_time),
            opt_str_view(b.start_time),
        ),
        _ => {},
    }
}

proof fn lemma_opt_total(a: Option<Seq<char>>, b: Option<Seq<char>>)
    ensures
        opt_chars_lt(a, b) || opt_chars_lt(b, a) || opt_chars_eqv(a, b),
        opt_chars_eqv(a, b) == opt_chars_eqv(b, a),
{
    match (a, b) {
        (Some(x), Some(y)) => {
            lemma_chars_total(x, y);
            lemma_chars_eqv_sym(x, y);
        },
        _ => {},
    }
}

proof fn lemma_opt_trans(a: Option<Seq<char>>, b: Option<Seq<char>>, c: Option<Seq<char>>)
    ensures
        opt_chars_lt(a, b) && opt_chars_lt(b, c) ==> opt_chars_lt(a, c),
        opt_chars_lt(a, b) && opt_chars_eqv(b, c) ==> opt_chars_lt(a, c),
        opt_chars_eqv(a, b) && opt_chars_lt(b, c) ==> opt_chars_lt(a, c),
        opt_chars_eqv(a, b) && opt_chars_eqv(b, c) ==> opt_chars_eqv(a, c),
{
    match (a, b, c) {
        (Some(x), Some(y), Some(z)) => {
            if seq_char_lt(x, y) && seq_char_lt(y, z) {
                lemma_chars_lt_trans(x, y, z);
            }
            if seq_char_lt(x, y) && chars_eqv(y, z) {
                lemma_chars_lt_eqv_right(x, y, z);
            }
            if chars_eqv(x, y) && seq_char_lt(y, z) {
                lemma_chars_eqv_left_lt(x, y, z);
            }
            if chars_eqv(x, y) && chars_eqv(y, z) {
                lemma_chars_eqv_trans(x, y, z);
            }
        },
        _ => {},
    }
}

/// The comparator is transitive.
pub proof fn lemma_key_le_trans(f: SortField, ord: SortOrder, a: Service, b: Service, c: Service)
    requires
        key_le(f, ord, a, b),
        key_le(f, ord, b, c),
    ensures
        key_le(f, ord, a, c),
{
    match f {
        SortField::Process => lemma_opt_trans3(
            ord,
            opt_str_view(a.process),
            opt_str_view(b.process),
            opt_str_view(c.process),
        ),
        SortField::User => lemma_opt_trans3(
            ord,
            opt_str_view(a.user),
            opt_str_view(b.user),
            opt_str_view(c.user),
        ),
        SortField::Protocol => lemma_opt_trans3(
            ord,
            opt_str_view(a.protocol),
            opt_str_view(b.protocol),
            opt_str_view(c.protocol),
        ),
        SortField::LocalAddress => lemma_opt_trans3(
            ord,
            opt_str_view(a.local_address),
            opt_str_view(b.local_address),
            opt_str_view(c.local_address),
        ),
        SortField::Fd => lemma_opt_trans3(
            ord,
            opt_str_view(a.fd),
            opt_str_view(b.fd),
            opt_str_view(c.fd),
        ),
        SortField::TypeField => lemma_opt_trans3(
            ord,
            opt_str_view(a.type_field),
            opt_str_view(b.type_field),
            opt_str_view(c.type_field),
        ),
        SortField::Device => lemma_opt_trans3(
            ord,
            opt_str_view(a.device),
            opt_str_view(b.device),
            opt_str_view(c.device),
        ),
        SortField::SizeOff => lemma_opt_trans3(
            ord,
            opt_str_view(a.size_off),
            opt_str_view(b.size_off),
            opt_str_view(c.size_off),
        ),
        SortField::Node => lemma_opt_trans3(
            ord,
            opt_str_view(a.node),
            opt_str_view(b.node),
            opt_str_view(c.node),
        ),
        SortField::CommandLine => lemma_opt_trans3(
            ord,
            opt_str_view(a.command_line),
            opt_str_view(b.command_line),
            opt_str_view(c.command_line),
        ),
        SortField::ExePath => lemma_opt_trans3(
            ord,
            opt_str_view(a.exe_path),
            opt_str_view(b.exe_path),
            opt_str_view(c.exe_path),
        ),
        SortField::StartTime => lemma_opt_trans3(
            ord,
            opt_str_view(a.start_time),
            opt_str_view(b.start_time),
            opt_str_view(c.start_time),
        ),
        _ => {},
    }
}

proof fn lemma_opt_trans3(
    ord: SortOrder,
    a: Option<Seq<char>>,
    b: Option<Seq<char>>,
    c: Option<Seq<char>>,
)
    ensures
        (opt_chars_eqv(a, b) || (ord is Asc && opt_chars_lt(a, b)) || (ord is Desc && opt_chars_lt(
            b,
            a,
        ))) && (opt_chars_eqv(b, c) || (ord is Asc && opt_chars_lt(b, c)) || (ord is Desc
            && opt_chars_lt(c, b))) ==> (opt_chars_eqv(a, c) || (ord is Asc && opt_chars_lt(a, c))
            || (ord is Desc && opt_chars_lt(c, a))),
{
    lemma_opt_trans(a, b, c);
    lemma_opt_trans(c, b, a);
    lemma_opt_total(a, b);
    lemma_opt_total(b, c);
    lemma_opt_total(a, c);
}

// ---------------------------------------------------------------------------
// Executable comparators.
// ---------------------------------------------------------------------------

fn str_order(a: &str, b: &str) -> (r: (bool, bool))
    ensures
        r.0 == seq_char_lt(a@, b@),
        r.1 == chars_eqv(a@, b@),
{
    let na = a.unicode_len();
    let nb = b.unicode_len();
    let mut i: usize = 0;
    proof {
        assert(a@.subrange(0, na as int) =~= a@);
        assert(b@.subrange(0, nb as int) =~= b@);
    }
    while i < na && i < nb
        invariant
            i <= na,
            i <= nb,
            na == a@.len(),
            nb == b@.len(),
            seq_char_lt(a@, b@) == seq_char_lt(
                a@.subrange(i as int, na as int),
                b@.subrange(i as int, nb as int),
            ),
            chars_eqv(a@, b@) == chars_eqv(
                a@.subrange(i as int, na as int),
                b@.subrange(i as int, nb as int),
            ),
        decreases na - i,
    {
        let ca = a.get_char(i) as u32;
        let cb = b.get_char(i) as u32;
        let ghost sa = a@.subrange(i as int, na as int);
        let ghost sb = b@.subrange(i as int, nb as int);
        proof {
            assert(sa[0] == a@[i as int]);
            assert(sb[0] == b@[i as int]);
            assert(sa.drop_first() =~= a@.subrange(i as int + 1, na as int));
            assert(sb.drop_first() =~= b@.subrange(i as int + 1, nb as int));
        }
        if ca < cb {
            return (true, false);
        }
        if ca > cb {
            return (false, false);
        }
        i = i + 1;
    }
    proof {
        let sa = a@.subrange(i as int, na as int);
        let sb = b@.subrange(i as int, nb as int);
        assert(sa.len() == na - i);
        assert(sb.len() == nb - i);
    }
    if na < nb {
        (true, false)
    } else if na > nb {
        (false, false)
    } else {
        (false, true)
    }
}

fn opt_str_order(a: &Option<String>, b: &Option<String>) -> (r: (bool, bool))
    ensures
        r.0 == opt_chars_lt(opt_str_view(*a), opt_str_view(*b)),
        r.1 == opt_chars_eqv(opt_str_view(*a), opt_str_view(*b)),
{
    match (a, b) {
        (None, None) => (false, true),
        (None, Some(_)) => (true, false),
        (Some(_), None) => (false, false),
        (Some(x), Some(y)) => str_order(x.as_str(), y.as_str()),
    }
}

fn opt_u32_order(a: &Option<u32>, b: &Option<u32>) -> (r: (bool, bool))
    ensures
        r.0 == opt_u32_lt(*a, *b),
        r.1 == (*a == *b),
{
    match (a, b) {
        (None, None) => (false, true),
        (None, Some(_)) => (true, false),
        (Some(_), None) => (false, false),
        (Some(x), Some(y)) => (*x < *y, *x == *y),
    }
}

fn field_order(f: SortField, a: &Service, b: &Service) -> (r: (bool, bool))
    ensures
        r.0 == field_lt(f, *a, *b),
        r.1 == field_eqv(f, *a, *b),
{
    match f {
        SortField::Port => (a.port < b.port, a.port == b.port),
        SortField::Status => (
            matches!(a.status, ServiceStatus::Open) && matches!(b.status, ServiceStatus::Closed),
            a.status == b.status,
        ),
        SortField::Process => opt_str_order(&a.process, &b.process),
        SortField::Pid => opt_u32_order(&a.pid, &b.pid),
        SortField::User => opt_str_order(&a.user, &b.user),
        SortField::Protocol => opt_str_order(&a.protocol, &b.protocol),
        SortField::LocalAddress => opt_str_order(&a.local_address, &b.local_address),
        SortField::Fd => opt_str_order(&a.fd, &b.fd),
        SortField::TypeField => opt_str_order(&a.type_field, &b.type_field),
        SortField::Device => opt_str_order(&a.device, &b.device),
        SortField::SizeOff => opt_str_order(&a.size_off, &b.size_off),
        SortField::Node => opt_str_order(&a.node, &b.node),
        SortField::CommandLine => opt_str_order(&a.command_line, &b.command_line),
        SortField::ExePath => opt_str_order(&a.exe_path, &b.exe_path),
        SortField::StartTime => opt_str_order(&a.start_time, &b.start_time),
        SortField::Ppid => opt_u32_order(&a.ppid, &b.ppid),
    }
}

fn key_le_exec(f: SortField, ord: SortOrder, a: &Service, b: &Service) -> (r: bool)
    ensures
        r == key_le(f, ord, *a, *b),
{
    let (lt_ab, eq_ab) = field_order(f, a, b);
    if eq_ab {
        true
    } else {
        match ord {
            SortOrder::Asc => lt_ab,
            SortOrder::Desc => {
                let (lt_ba, _) = field_order(f, b, a);
                lt_ba
            },
        }
    }
}

// ---------------------------------------------------------------------------
// Stable sort, pinned to one canonical result.
// ---------------------------------------------------------------------------

/// Insert `x` behind every element that is not-after it: a later-arriving
/// record never overtakes an equal one, which makes the sort stable.
pub open spec fn insert_sorted(f: SortField, ord: SortOrder, x: Service, t: Seq<Service>) -> Seq<
    Service,
>
    decreases t.len(),
{
    if t.len() == 0 {
        seq![x]
    } else if key_le(f, ord, t.last(), x) {
        t.push(x)
    } else {
        insert_sorted(f, ord, x, t.drop_last()).push(t.last())
    }
}

/// The canonical stable sort of a snapshot under one field and direction.
pub open spec fn sort_spec(f: SortField, ord: SortOrder, s: Seq<Service>) -> Seq<Service>
    decreases s.len(),
{
    if s.len() == 0 {
        s
    } else {
        insert_sorted(f, ord, s.last(), sort_spec(f, ord, s.drop_last()))
    }
}

/// Non-decreasing under the comparator.
pub open spec fn sorted_by(f: SortField, ord: SortOrder, s: Seq<Service>) -> bool {
    forall|i: int, j: int| 0 <= i < j < s.len() ==> key_le(f, ord, s[i], s[j])
}

proof fn lemma_insert_position(f: SortField, ord: SortOrder, x: Service, s: Seq<Service>, p: int)
    requires
        0 <= p <= s.len(),
        forall|k: int| p <= k < s.len() ==> !key_le(f, ord, s[k], x),
        p > 0 ==> key_le(f, ord, s[p - 1], x),
    ensures
        insert_sorted(f, ord, x, s) == s.subrange(0, p) + seq![x] + s.subrange(p, s.len() as int),
    decreases s.len(),
{
    if s.len() == 0 {
        assert(insert_sorted(f, ord, x, s) =~= s.subrange(0, p) + seq![x] + s.subrange(
            p,
            s.len() as int,
        ));
    } else if p == s.len() {
        assert(key_le(f, ord, s.last(), x));
        assert(insert_sorted(f, ord, x, s) == s.push(x));
        assert(s.subrange(0, p) =~= s);
        assert(s.subrange(p, s.len() as int) =~= Seq::<Service>::empty());
        assert(s.push(x) =~= s.subrange(0, p) + seq![x] + s.subrange(p, s.len() as int));
    } else {
        assert(!key_le(f, ord, s.last(), x));
        let dl = s.drop_last();
        lemma_insert_position(f, ord, x, dl, p);
        assert(dl.subrange(0, p) =~= s.subrange(0, p));
        assert(insert_sorted(f, ord, x, s) == insert_sorted(f, ord, x, dl).push(s.last()));
        assert((dl.subrange(0, p) + seq![x] + dl.subrange(p, dl.len() as int)).push(s.last()) =~= s
            .subrange(0, p) + seq![x] + s.subrange(p, s.len() as int));
    }
}

proof fn lemma_insert_sorted_elems(f: SortField, ord: SortOrder, x: Service, t: Seq<Service>)
    ensures
        insert_sorted(f, ord, x, t).len() == t.len() + 1,
        forall|k: int|
            0 <= k < insert_sorted(f, ord, x, t).len() ==> insert_sorted(f, ord, x, t)[k] == x
                || exists|m: int| 0 <= m < t.len() && insert_sorted(f, ord, x, t)[k] == t[m],
    decreases t.len(),
{
    let r = insert_sorted(f, ord, x, t);
    if t.len() == 0 {
    } else if key_le(f, ord, t.last(), x) {
        assert forall|k: int| 0 <= k < r.len() implies r[k] == x || exists|m: int|
            0 <= m < t.len() && r[k] == t[m] by {
            if k < t.len() {
                assert(r[k] == t[k]);
            }
        }
    } else {
        let dl = t.drop_last();
        lemma_insert_sorted_elems(f, ord, x, dl);
        let r2 = insert_sorted(f, ord, x, dl);
        assert(r == r2.push(t.last()));
        assert forall|k: int| 0 <= k < r.len() implies r[k] == x || exists|m: int|
            0 <= m < t.len() && r[k] == t[m] by {
            if k == r.len() - 1 {
                assert(r[k] == t[t.len() - 1]);
            } else {
                assert(r[k] == r2[k]);
                if r2[k] != x {
                    let m = choose|m: int| 0 <= m < dl.len() && r2[k] == dl[m];
                    assert(r[k] == t[m]);
                }
            }
        }
    }
}

proof fn lemma_insert_sorted_sorted(f: SortField, ord: SortOrder, x: Service, t: Seq<Service>)
    requires
        sorted_by(f, ord, t),
    ensures
        sorted_by(f, ord, insert_sorted(f, ord, x, t)),
    decreases t.len(),
{
    let r = insert_sorted(f, ord, x, t);
    if t.len() == 0 {
    } else if key_le(f, ord, t.last(), x) {
        assert forall|i: int, j: int| 0 <= i < j < r.len() implies key_le(f, ord, r[i], r[j]) by {
            if j == r.len() - 1 {
                assert(r[i] == t[i]);
                if i < t.len() - 1 {
                    assert(key_le(f, ord, t[i], t[t.len() - 1]));
                    lemma_key_le_trans(f, ord, t[i], t[t.len() - 1], x);
                }
            } else {
                assert(r[i] == t[i] && r[j] == t[j]);
            }
        }
    } else {
        let dl = t.drop_last();
        assert(sorted_by(f, ord, dl));
        lemma_insert_sorted_sorted(f, ord, x, dl);
        lemma_insert_sorted_elems(f, ord, x, dl);
        let r2 = insert_sorted(f, ord, x, dl);
        assert(r == r2.push(t.last()));
        lemma_key_le_total(f, ord, t.last(), x);
        assert forall|i: int, j: int| 0 <= i < j < r.len() implies key_le(f, ord, r[i], r[j]) by {
            if j == r.len() - 1 {
                assert(r[i] == r2[i]);
                if r2[i] == x {
                    assert(key_le(f, ord, x, t.last()));
                } else {
                    let m = choose|m: int| 0 <= m < dl.len() && r2[i] == dl[m];
                    assert(key_le(f, ord, t[m], t[t.len() - 1]));
                }
            } else {
                assert(r[i] == r2[i] && r[j] == r2[j]);
            }
        }
    }
}

/// The canonical sort keeps the length and is non-decreasing under the
/// requested comparator: ascending order gives a non-decreasing run of the
/// field's values, and descending order a non-increasing one.
pub proof fn lemma_sort_spec_sorted(f: SortField, ord: SortOrder, s: Seq<Service>)
    ensures
        sort_spec(f, ord, s).len() == s.len(),
        sorted_by(f, ord, sort_spec(f, ord, s)),
    decreases s.len(),
{
    if s.len() > 0 {
        lemma_sort_spec_sorted(f, ord, s.drop_last());
        lemma_insert_sorted_sorted(f, ord, s.last(), sort_spec(f, ord, s.drop_last()));
        lemma_insert_sorted_elems(f, ord, s.last(), sort_spec(f, ord, s.drop_last()));
    }
}

/// Sort the snapshot in place into the canonical stable order.
pub fn sort_services(f: SortField, ord: SortOrder, v: &mut Vec<Service>)
    ensures
        final(v)@ == sort_spec(f, ord, old(v)@),
{
    let n = v.len();
    if n <= 1 {
        proof {
            if n == 1 {
                assert(v@.drop_last() =~= Seq::<Service>::empty());
                assert(sort_spec(f, ord, v@.drop_last()) =~= Seq::<Service>::empty());
                assert(insert_sorted(f, ord, v@.last(), Seq::<Service>::empty()) =~= seq![
                    v@.last()
                ]);
                assert(sort_spec(f, ord, v@) =~= v@);
            }
        }
        return;
    }
    let mut i: usize = 1;
    proof {
        let s1 = old(v)@.subrange(0, 1);
        assert(s1.len() == 1);
        assert(s1.drop_last() =~= Seq::<Service>::empty());
        assert(sort_spec(f, ord, s1.drop_last()) =~= Seq::<Service>::empty());
        assert(sort_spec(f, ord, s1) == insert_sorted(
            f,
            ord,
            s1.last(),
            sort_spec(f, ord, s1.drop_last()),
        ));
        assert(insert_sorted(f, ord, s1.last(), sort_spec(f, ord, s1.drop_last())) =~= seq![
            s1.last()
        ]);
        assert(sort_spec(f, ord, s1) =~= s1);
        assert(v@.subrange(0, 1) =~= s1);
    }
    while i < n
        invariant
            1 <= i <= n,
            n == v@.len() == old(v)@.len(),
            v@.subrange(i as int, n as int) == old(v)@.subrange(i as int, n as int),
            v@.subrange(0, i as int) == sort_spec(f, ord, old(v)@.subrange(0, i as int)),
        decreases n - i,
    {
        let ghost pre = v@;
        let ghost x = pre[i as int];
        let ghost s_pref = pre.subrange(0, i as int);
        let mut j: usize = i;
        while j > 0 && !key_le_exec(f, ord, &v[j - 1], &v[j])
            invariant
                0 <= j <= i < n,
                n == v@.len(),
                pre.len() == n,
                v@[j as int] == x,
                v@.subrange(0, j as int) == pre.subrange(0, j as int),
                forall|k: int| j < k <= i ==> v@[k] == pre[k - 1],
                v@.subrange(i as int + 1, n as int) == pre.subrange(i as int + 1, n as int),
                forall|k: int| j < k <= i ==> !key_le(f, ord, v@[k], x),
            decreases j,
        {
            let a = v[j - 1].clone();
            let b = v[j].clone();
            let ghost mid = v@;
            v.set(j - 1, b);
            v.set(j, a);
            proof {
                assert(v@ =~= mid.update(j as int - 1, mid[j as int]).update(
                    j as int,
                    mid[j as int - 1],
                ));
                assert(v@.subrange(0, j as int - 1) =~= pre.subrange(0, j as int - 1));
                assert(mid[j as int - 1] == mid.subrange(0, j as int)[j as int - 1]);
                assert(pre[j as int - 1] == pre.subrange(0, j as int)[j as int - 1]);
                assert(v@[j as int] == pre[j as int - 1]);
            }
            j = j - 1;
        }
        proof {
            // the exit condition names the insertion point
            assert(j == 0 || key_le(f, ord, v@[j as int - 1], x));
            assert forall|k: int| j <= k < i implies !key_le(f, ord, s_pref[k], x) by {
                assert(v@[k + 1] == pre[k]);
            }
            if j > 0 {
                assert(s_pref[j as int - 1] == pre[j as int - 1]);
                assert(pre[j as int - 1] == v@[j as int - 1]);
            }
            lemma_insert_position(f, ord, x, s_pref, j as int);
            assert(v@.subrange(0, i as int + 1) =~= s_pref.subrange(0, j as int) + seq![x]
                + s_pref.subrange(j as int, i as int));
            // fold one step of the canonical sort
            let next = old(v)@.subrange(0, i as int + 1);
            assert(next.drop_last() =~= old(v)@.subrange(0, i as int));
            assert(pre[i as int] == pre.subrange(i as int, n as int)[0]);
            assert(old(v)@[i as int] == old(v)@.subrange(i as int, n as int)[0]);
            assert(pre[i as int] == old(v)@[i as int]);
            assert(next.last() == x);
            assert(sort_spec(f, ord, next) == insert_sorted(f, ord, x, s_pref));
            assert forall|k: int| i + 1 <= k < n implies v@[k] == old(v)@[k] by {
                assert(v@[k] == v@.subrange(i as int + 1, n as int)[k - i - 1]);
                assert(pre[k] == pre.subrange(i as int + 1, n as int)[k - i - 1]);
                assert(pre[k] == pre.subrange(i as int, n as int)[k - i as int]);
                assert(old(v)@[k] == old(v)@.subrange(i as int, n as int)[k - i as int]);
            }
            assert(v@.subrange(i as int + 1, n as int) =~= old(v)@.subrange(
                i as int + 1,
                n as int,
            ));
        }
        i = i + 1;
    }
    proof {
        assert(v@.subrange(0, n as int) =~= v@);
        assert(old(v)@.subrange(0, n as int) =~= old(v)@);
    }
}

// ---------------------------------------------------------------------------
// Descending is the exact reverse of ascending when the sort field's values
// are pairwise distinct. (With ties this fails by design: stability keeps
// equal keys in discovery order under either direction.)
// ---------------------------------------------------------------------------

/// No two records share the sort field's value.
pub open spec fn distinct_field_values(f: SortField, s: Seq<Service>) -> bool {
    forall|i: int, j: int| 0 <= i < j < s.len() ==> !field_eqv(f, s[i], s[j])
}

proof fn lemma_chars_eqv_refl(a: Seq<char>)
    ensures
        chars_eqv(a, a),
    decreases a.len(),
{
    if a.len() > 0 {
        lemma_chars_eqv_refl(a.drop_first());
    }
}

proof fn lemma_chars_excl(a: Seq<char>, b: Seq<char>)
    ensures
        !(seq_char_lt(a, b) && seq_char_lt(b, a)),
        !(seq_char_lt(a, b) && chars_eqv(a, b)),
    decreases a.len(),
{
    if a.len() > 0 && b.len() > 0 && (a[0] as u32) == (b[0] as u32) {
        lemma_chars_excl(a.drop_first(), b.drop_first());
    }
}

proof fn lemma_opt_excl(a: Option<Seq<char>>, b: Option<Seq<char>>)
    ensures
        !(opt_chars_lt(a, b) && opt_chars_lt(b, a)),
        !(opt_chars_lt(a, b) && opt_chars_eqv(a, b)),
{
    match (a, b) {
        (Some(x), Some(y)) => lemma_chars_excl(x, y),
        _ => {},
    }
}

proof fn lemma_opt_eqv_refl(a: Option<Seq<char>>)
    ensures
        opt_chars_eqv(a, a),
{
    match a {
        Some(x) => lemma_chars_eqv_refl(x),
        None => {},
    }
}

/// Field values are reflexively equal under the field's own equality.
proof fn lemma_field_eqv_refl(f: SortField, a: Service)
    ensures
        field_eqv(f, a, a),
{
    match f {
        SortField::Process => lemma_opt_eqv_refl(opt_str_view(a.process)),
        SortField::User => lemma_opt_eqv_refl(opt_str_view(a.user)),
        SortField::Protocol => lemma_opt_eqv_refl(opt_str_view(a.protocol)),
        SortField::LocalAddress => lemma_opt_eqv_refl(opt_str_view(a.local_address)),
        SortField::Fd => lemma_opt_eqv_refl(opt_str_view(a.fd)),
        SortField::TypeField => lemma_opt_eqv_refl(opt_str_view(a.type_field)),
        SortField::Device => lemma_opt_eqv_refl(opt_str_view(a.device)),
        SortField::SizeOff => lemma_opt_eqv_refl(opt_str_view(a.size_off)),
        SortField::Node => lemma_opt_eqv_refl(opt_str_view(a.node)),
        SortField::CommandLine => lemma_opt_eqv_refl(opt_str_view(a.command_line)),
        SortField::ExePath => lemma_opt_eqv_refl(opt_str_view(a.exe_path)),
        SortField::StartTime => lemma_opt_eqv_refl(opt_str_view(a.start_time)),
        _ => {},
    }
}

/// Strict order, equality and their interplay: mutually exclusive, and
/// equality is symmetric.
proof fn lemma_field_excl(f: SortField, a: Service, b: Service)
    ensures
        !(field_lt(f, a, b) && field_lt(f, b, a)),
        !(field_lt(f, a, b) && field_eqv(f, a, b)),
        !(field_lt(f, b, a) && field_eqv(f, a, b)),
        field_eqv(f, a, b) == field_eqv(f, b, a),
{
    match f {
        SortField::Process => {
            lemma_opt_excl(opt_str_view(a.process), opt_str_view(b.process));
            lemma_opt_excl(opt_str_view(b.process), opt_str_view(a.process));
            lemma_opt_total(opt_str_view(a.process), opt_str_view(b.process));
        },
        SortField::User => {
            lemma_opt_excl(opt_str_view(a.user), opt_str_view(b.user));
            lemma_opt_excl(opt_str_view(b.user), opt_str_view(a.user));
            lemma_opt_total(opt_str_view(a.user), opt_str_view(b.user));
        },
        SortField::Protocol => {
            lemma_opt_excl(opt_str_view(a.protocol), opt_str_view(b.protocol));
            lemma_opt_excl(opt_str_view(b.protocol), opt_str_view(a.protocol));
            lemma_opt_total(opt_str_view(a.protocol), opt_str_view(b.protocol));
        },
        SortField::LocalAddress => {
            lemma_opt_excl(opt_str_view(a.local_address), opt_str_view(b.local_address));
            lemma_opt_excl(opt_str_view(b.local_address), opt_str_view(a.local_address));
            lemma_opt_total(opt_str_view(a.local_address), opt_str_view(b.local_address));
        },
        SortField::Fd => {
            lemma_opt_excl(opt_str_view(a.fd), opt_str_view(b.fd));
            lemma_opt_excl(opt_str_view(b.fd), opt_str_view(a.fd));
            lemma_opt_total(opt_str_view(a.fd), opt_str_view(b.fd));
        },
        SortField::TypeField => {
            lemma_opt_excl(opt_str_view(a.type_field), opt_str_view(b.type_field));
            lemma_opt_excl(opt_str_view(b.type_field), opt_str_view(a.type_field));
            lemma_opt_total(opt_str_view(a.type_field), opt_str_view(b.type_field));
        },
        SortField::Device => {
            lemma_opt_excl(opt_str_view(a.device), opt_str_view(b.device));
            lemma_opt_excl(opt_str_view(b.device), opt_str_view(a.device));
            lemma_opt_total(opt_str_view(a.device), opt_str_view(b.device));
        },
        SortField::SizeOff => {
            lemma_opt_excl(opt_str_view(a.size_off), opt_str_view(b.size_off));
            lemma_opt_excl(opt_str_view(b.size_off), opt_str_view(a.size_off));
            lemma_opt_total(opt_str_view(a.size_off), opt_str_view(b.size_off));
        },
        SortField::Node => {
            lemma_opt_excl(opt_str_view(a.node), opt_str_view(b.node));
            lemma_opt_excl(opt_str_view(b.node), opt_str_view(a.node));
            lemma_opt_total(opt_str_view(a.node), opt_str_view(b.node));
        },
        SortField::CommandLine => {
            lemma_opt_excl(opt_str_view(a.command_line), opt_str_view(b.command_line));
            lemma_opt_excl(opt_str_view(b.command_line), opt_str_view(a.command_line));
            lemma_opt_total(opt_str_view(a.command_line), opt_str_view(b.command_line));
        },
        SortField::ExePath => {
            lemma_opt_excl(opt_str_view(a.exe_path), opt_str_view(b.exe_path));
            lemma_opt_excl(opt_str_view(b.exe_path), opt_str_view(a.exe_path));
            lemma_opt_total(opt_str_view(a.exe_path), opt_str_view(b.exe_path));
        },
        SortField::StartTime => {
            lemma_opt_excl(opt_str_view(a.start_time), opt_str_view(b.start_time));
            lemma_opt_excl(opt_str_view(b.start_time), opt_str_view(a.start_time));
            lemma_opt_total(opt_str_view(a.start_time), opt_str_view(b.start_time));
        },
        _ => {},
    }
}

proof fn lemma_field_lt_trans(f: SortField, a: Service, b: Service, c: Service)
    requires
        field_lt(f, a, b),
        field_lt(f, b, c),
    ensures
        field_lt(f, a, c),
{
    match f {
        SortField::Process => lemma_opt_trans(
            opt_str_view(a.process),
            opt_str_view(b.process),
            opt_str_view(c.process),
        ),
        SortField::User => lemma_opt_trans(
            opt_str_view(a.user),
            opt_str_view(b.user),
            opt_str_view(c.user),
        ),
        SortField::Protocol => lemma_opt_trans(
            opt_str_view(a.protocol),
            opt_str_view(b.protocol),
            opt_str_view(c.protocol),
        ),
        SortField::LocalAddress => lemma_opt_trans(
            opt_str_view(a.local_address),
            opt_str_view(b.local_address),
            opt_str_view(c.local_address),
        ),
        SortField::Fd => lemma_opt_trans(
            opt_str_view(a.fd),
            opt_str_view(b.fd),
            opt_str_view(c.fd),
        ),
        SortField::TypeField => lemma_opt_trans(
            opt_str_view(a.type_field),
            opt_str_view(b.type_field),
            opt_str_view(c.type_field),
        ),
        SortField::Device => lemma_opt_trans(
            opt_str_view(a.device),
            opt_str_view(b.device),
            opt_str_view(c.device),
        ),
        SortField::SizeOff => lemma_opt_trans(
            opt_str_view(a.size_off),
            opt_str_view(b.size_off),
            opt_str_view(c.size_off),
        ),
        SortField::Node => lemma_opt_trans(
            opt_str_view(a.node),
            opt_str_view(b.node),
            opt_str_view(c.node),
        ),
        SortField::CommandLine => lemma_opt_trans(
            opt_str_view(a.command_line),
            opt_str_view(b.command_line),
            opt_str_view(c.command_line),
        ),
        SortField::ExePath => lemma_opt_trans(
            opt_str_view(a.exe_path),
            opt_str_view(b.exe_path),
            opt_str_view(c.exe_path),
        ),
        SortField::StartTime => lemma_opt_trans(
            opt_str_view(a.start_time),
            opt_str_view(b.start_time),
            opt_str_view(c.start_time),
        ),
        _ => {},
    }
}

proof fn lemma_insert_multiset(f: SortField, ord: SortOrder, x: Service, t: Seq<Service>)
    ensures
        insert_sorted(f, ord, x, t).to_multiset() == t.to_multiset().insert(x),
    decreases t.len(),
{
    broadcast use vstd::seq_lib::group_to_multiset_ensures;

    if t.len() == 0 {
        assert(seq![x] =~= Seq::<Service>::empty().push(x));
        assert(seq![x].to_multiset() =~= t.to_multiset().insert(x));
    } else if key_le(f, ord, t.last(), x) {
    } else {
        let dl = t.drop_last();
        lemma_insert_multiset(f, ord, x, dl);
        let r2 = insert_sorted(f, ord, x, dl);
        assert(insert_sorted(f, ord, x, t) == r2.push(t.last()));
        assert(t =~= dl.push(t.last()));
        assert(t.to_multiset() =~= dl.to_multiset().insert(t.last()));
        assert(r2.push(t.last()).to_multiset() =~= r2.to_multiset().insert(t.last()));
        assert(dl.to_multiset().insert(x).insert(t.last()) =~= dl.to_multiset().insert(
            t.last(),
        ).insert(x));
        assert(insert_sorted(f, ord, x, t).to_multiset() =~= t.to_multiset().insert(x));
    }
}

/// The sort is a permutation: no record appears or disappears.
pub proof fn lemma_sort_spec_multiset(f: SortField, ord: SortOrder, s: Seq<Service>)
    ensures
        sort_spec(f, ord, s).to_multiset() == s.to_multiset(),
    decreases s.len(),
{
    broadcast use vstd::seq_lib::group_to_multiset_ensures;

    if s.len() > 0 {
        let dl = s.drop_last();
        lemma_sort_spec_multiset(f, ord, dl);
        lemma_insert_multiset(f, ord, s.last(), sort_spec(f, ord, dl));
        assert(s =~= dl.push(s.last()));
        assert(s.to_multiset() =~= dl.to_multiset().insert(s.last()));
    }
}

proof fn lemma_insert_skip_first(f: SortField, ord: SortOrder, x: Service, u: Seq<Service>)
    requires
        u.len() > 0,
        key_le(f, ord, u[0], x),
    ensures
        insert_sorted(f, ord, x, u) == seq![u[0]] + insert_sorted(f, ord, x, u.drop_first()),
    decreases u.len(),
{
    if u.len() == 1 {
        assert(u.last() == u[0]);
        assert(insert_sorted(f, ord, x, u) == u.push(x));
        assert(u.drop_first() =~= Seq::<Service>::empty());
        assert(insert_sorted(f, ord, x, u.drop_first()) =~= seq![x]);
        assert(u.push(x) =~= seq![u[0]] + seq![x]);
    } else {
        let df = u.drop_first();
        if key_le(f, ord, u.last(), x) {
            assert(insert_sorted(f, ord, x, u) == u.push(x));
            assert(df.last() == u.last());
            assert(insert_sorted(f, ord, x, df) == df.push(x));
            assert(u.push(x) =~= seq![u[0]] + df.push(x));
        } else {
            let dl = u.drop_last();
            assert(dl.len() > 0);
            assert(dl[0] == u[0]);
            lemma_insert_skip_first(f, ord, x, dl);
            assert(df.last() == u.last());
            assert(insert_sorted(f, ord, x, u) == insert_sorted(f, ord, x, dl).push(u.last()));
            assert(insert_sorted(f, ord, x, df) == insert_sorted(f, ord, x, df.drop_last()).push(
                u.last(),
            ));
            assert(dl.drop_first() =~= df.drop_last());
            assert((seq![u[0]] + insert_sorted(f, ord, x, dl.drop_first())).push(u.last()) =~= seq![
                u[0]
            ] + insert_sorted(f, ord, x, df.drop_last()).push(u.last()));
        }
    }
}

proof fn lemma_insert_desc_reverse(f: SortField, x: Service, v: Seq<Service>)
    requires
        sorted_by(f, SortOrder::Desc, v),
        forall|k: int| 0 <= k < v.len() ==> !field_eqv(f, v[k], x),
        forall|i: int, j: int| 0 <= i < j < v.len() ==> !field_eqv(f, v[i], v[j]),
    ensures
        insert_sorted(f, SortOrder::Desc, x, v) == insert_sorted(
            f,
            SortOrder::Asc,
            x,
            v.reverse(),
        ).reverse(),
    decreases v.len(),
{
    let u = v.reverse();
    assert(u.len() == v.len());
    if v.len() == 0 {
        assert(u =~= Seq::<Service>::empty());
        assert(insert_sorted(f, SortOrder::Desc, x, v) == seq![x]);
        assert(insert_sorted(f, SortOrder::Asc, x, u) == seq![x]);
        assert(seq![x].reverse() =~= seq![x]);
    } else if key_le(f, SortOrder::Desc, v.last(), x) {
        // here the new record is strictly smaller than everything in `v`
        lemma_field_excl(f, v.last(), x);
        assert(field_lt(f, x, v.last()));
        assert forall|k: int| 0 <= k < u.len() implies !key_le(f, SortOrder::Asc, u[k], x) by {
            assert(u[k] == v[v.len() - 1 - k]);
            assert(!field_eqv(f, v[v.len() - 1 - k], x));
            lemma_field_excl(f, v[v.len() - 1 - k], x);
            if field_lt(f, u[k], x) {
                if v.len() - 1 - k == v.len() - 1 {
                    lemma_field_excl(f, x, v.last());
                    assert(false);
                } else {
                    assert(key_le(f, SortOrder::Desc, v[v.len() - 1 - k], v[v.len() - 1]));
                    lemma_field_excl(f, v[v.len() - 1 - k], v[v.len() - 1]);
                    assert(field_lt(f, v.last(), u[k]));
                    lemma_field_lt_trans(f, u[k], x, v.last());
                    lemma_field_excl(f, u[k], v.last());
                    assert(false);
                }
            }
        }
        lemma_insert_position(f, SortOrder::Asc, x, u, 0);
        assert(insert_sorted(f, SortOrder::Asc, x, u) =~= seq![x] + u);
        assert((seq![x] + u).reverse() =~= u.reverse().push(x));
        assert(u.reverse() =~= v);
        assert(insert_sorted(f, SortOrder::Desc, x, v) == v.push(x));
    } else {
        lemma_key_le_total(f, SortOrder::Desc, v.last(), x);
        assert(key_le(f, SortOrder::Desc, x, v.last()));
        lemma_field_excl(f, x, v.last());
        assert(field_lt(f, v.last(), x));
        let vp = v.drop_last();
        assert(sorted_by(f, SortOrder::Desc, vp));
        assert forall|k: int| 0 <= k < vp.len() implies !field_eqv(f, vp[k], x) by {
            assert(vp[k] == v[k]);
        }
        lemma_insert_desc_reverse(f, x, vp);
        assert(u[0] == v.last());
        assert(key_le(f, SortOrder::Asc, u[0], x));
        lemma_insert_skip_first(f, SortOrder::Asc, x, u);
        assert(u.drop_first() =~= vp.reverse());
        let inner = insert_sorted(f, SortOrder::Asc, x, vp.reverse());
        assert(insert_sorted(f, SortOrder::Asc, x, u) == seq![v.last()] + inner);
        assert((seq![v.last()] + inner).reverse() =~= inner.reverse().push(v.last()));
        assert(inner.reverse() == insert_sorted(f, SortOrder::Desc, x, vp));
        assert(insert_sorted(f, SortOrder::Desc, x, v) == insert_sorted(
            f,
            SortOrder::Desc,
            x,
            vp,
        ).push(v.last()));
    }
}

/// Sorting descending yields exactly the reverse of sorting ascending,
/// provided no two records share the sort field's value. (With ties the two
/// directions are not mirror images: stability keeps equal keys in
/// discovery order either way.)
pub proof fn lemma_desc_reverses_asc(f: SortField, s: Seq<Service>)
    requires
        distinct_field_values(f, s),
    ensures
        sort_spec(f, SortOrder::Desc, s) == sort_spec(f, SortOrder::Asc, s).reverse(),
    decreases s.len(),
{
    broadcast use vstd::seq_lib::group_to_multiset_ensures;

    if s.len() == 0 {
        assert(sort_spec(f, SortOrder::Asc, s).reverse() =~= s);
    } else {
        let t = s.drop_last();
        let x = s.last();
        assert forall|i: int, j: int| 0 <= i < j < t.len() implies !field_eqv(f, t[i], t[j]) by {
            assert(t[i] == s[i] && t[j] == s[j]);
        }
        lemma_desc_reverses_asc(f, t);
        let sa = sort_spec(f, SortOrder::Asc, t);
        let sd = sort_spec(f, SortOrder::Desc, t);
        lemma_sort_spec_sorted(f, SortOrder::Desc, t);
        lemma_sort_spec_multiset(f, SortOrder::Desc, t);
        // records of the sorted suffix are records of `t`, pairwise distinct
        // and distinct from the one being inserted
        assert forall|a: int, b: int| 0 <= a < b < t.len() implies t[a] != t[b] by {
            if t[a] == t[b] {
                lemma_field_eqv_refl(f, t[a]);
                assert(false);
            }
        }
        assert(t.no_duplicates());
        t.lemma_multiset_has_no_duplicates();
        assert forall|e: Service| sd.to_multiset().contains(e) implies sd.to_multiset().count(e)
            == 1 by {
            assert(t.to_multiset().contains(e));
        }
        sd.lemma_multiset_has_no_duplicates_conv();
        assert forall|k: int| 0 <= k < sd.len() implies !field_eqv(f, sd[k], x) by {
            assert(sd.contains(sd[k]));
            assert(sd.to_multiset().count(sd[k]) > 0);
            assert(t.to_multiset().count(sd[k]) > 0);
            assert(t.contains(sd[k]));
            let m = choose|m: int| 0 <= m < t.len() && t[m] == sd[k];
            assert(t[m] == s[m]);
            assert(!field_eqv(f, s[m], s[s.len() - 1]));
        }
        assert forall|i: int, j: int| 0 <= i < j < sd.len() implies !field_eqv(f, sd[i], sd[j]) by {
            assert(sd[i] != sd[j]);
            assert(sd.contains(sd[i]));
            assert(sd.to_multiset().count(sd[i]) > 0);
            assert(t.to_multiset().count(sd[i]) > 0);
            assert(t.contains(sd[i]));
            assert(sd.contains(sd[j]));
            assert(sd.to_multiset().count(sd[j]) > 0);
            assert(t.to_multiset().count(sd[j]) > 0);
            assert(t.contains(sd[j]));
            let m = choose|m: int| 0 <= m < t.len() && t[m] == sd[i];
            let k2 = choose|k2: int| 0 <= k2 < t.len() && t[k2] == sd[j];
            assert(m != k2);
            if m < k2 {
                assert(!field_eqv(f, t[m], t[k2]));
            } else {
                assert(!field_eqv(f, t[k2], t[m]));
                lemma_field_excl(f, t[m], t[k2]);
            }
        }
        lemma_insert_desc_reverse(f, x, sd);
        assert(sd.reverse() == sa.reverse().reverse());
        assert(sa.reverse().reverse() =~= sa);
        assert(sort_spec(f, SortOrder::Desc, s) == insert_sorted(f, SortOrder::Desc, x, sd));
        assert(sort_spec(f, SortOrder::Asc, s) == insert_sorted(f, SortOrder::Asc, x, sa));
    }
}

// ---------------------------------------------------------------------------
// Client parameters and the query itself.
// ---------------------------------------------------------------------------

/// The sort field a client named, if it is one of the record's fields; any
/// other name (and an absent one) means no sorting at all.
pub open spec fn field_of_name(s: Seq<char>) -> Option<SortField> {
    if s == "port"@ {
        Some(SortField::Port)
    } else if s == "status"@ {
        Some(SortField::Status)
    } else if s == "process"@ {
        Some(SortField::Process)
    } else if s == "pid"@ {
        Some(SortField::Pid)
    } else if s == "user"@ {
        Some(SortField::User)
    } else if s == "protocol"@ {
        Some(SortField::Protocol)
    } else if s == "local_address"@ {
        Some(SortField::LocalAddress)
    } else if s == "fd"@ {
        Some(SortField::Fd)
    } else if s == "type_field"@ {
        Some(SortField::TypeField)
    } else if s == "device"@ {
        Some(SortField::Device)
    } else if s == "size_off"@ {
        Some(SortField::SizeOff)
    } else if s == "node"@ {
        Some(SortField::Node)
    } else if s == "command_line"@ {
        Some(SortField::CommandLine)
    } else if s == "exe_path"@ {
        Some(SortField::ExePath)
    } else if s == "start_time"@ {
        Some(SortField::StartTime)
    } else if s == "ppid"@ {
        Some(SortField::Ppid)
    } else {
        None
    }
}

/// Descending only on an explicit `desc`; anything else is ascending.
pub open spec fn order_of_name(o: Option<Seq<char>>) -> SortOrder {
    if o == Some("desc"@) {
        SortOrder::Desc
    } else {
        SortOrder::Asc
    }
}

fn str_is(a: &str, lit: &str) -> (r: bool)
    ensures
        r == (a@ == lit@),
{
    let sa = a.to_owned();
    let sb = lit.to_owned();
    sa.eq(&sb)
}

/// Resolve a client-supplied sort field name.
pub fn parse_sort_field(s: &str) -> (r: Option<SortField>)
    ensures
        r == field_of_name(s@),
{
    if str_is(s, "port") {
        Some(SortField::Port)
    } else if str_is(s, "status") {
        Some(SortField::Status)
    } else if str_is(s, "process") {
        Some(SortField::Process)
    } else if str_is(s, "pid") {
        Some(SortField::Pid)
    } else if str_is(s, "user") {
        Some(SortField::User)
    } else if str_is(s, "protocol") {
        Some(SortField::Protocol)
    } else if str_is(s, "local_address") {
        Some(SortField::LocalAddress)
    } else if str_is(s, "fd") {
        Some(SortField::Fd)
    } else if str_is(s, "type_field") {
        Some(SortField::TypeField)
    } else if str_is(s, "device") {
        Some(SortField::Device)
    } else if str_is(s, "size_off") {
        Some(SortField::SizeOff)
    } else if str_is(s, "node") {
        Some(SortField::Node)
    } else if str_is(s, "command_line") {
        Some(SortField::CommandLine)
    } else if str_is(s, "exe_path") {
        Some(SortField::ExePath)
    } else if str_is(s, "start_time") {
        Some(SortField::StartTime)
    } else if str_is(s, "ppid") {
        Some(SortField::Ppid)
    } else {
        None
    }
}

/// Client-supplied listing parameters, all optional.
pub struct QueryParams {
    pub sort_by: Option<String>,
    pub sort_order: Option<String>,
    pub page: Option<usize>,
    pub page_size: Option<usize>,
}

/// One deterministic page of a snapshot, with the totals a client needs to
/// page further.
pub struct QueryResult {
    pub data: Vec<Service>,
    pub total: usize,
    pub page: usize,
    pub page_size: usize,
}

/// Page size defaults to 20 and is clamped to at most 100.
pub open spec fn eff_page_size(o: Option<usize>) -> usize {
    match o {
        Some(v) => if v > 100 {
            100
        } else {
            v
        },
        None => 20,
    }
}

/// Page number defaults to 1 and is clamped to at least 1.
pub open spec fn eff_page(o: Option<usize>) -> usize {
    match o {
        Some(v) => if v < 1 {
            1
        } else {
            v
        },
        None => 1,
    }
}

/// The sub-sequence at offset `(page - 1) * psize` of length at most
/// `psize`; empty once the offset passes the end.
pub open spec fn page_slice(s: Seq<Service>, page: int, psize: int) -> Seq<Service>
    recommends
        page >= 1,
        psize >= 0,
{
    let offset = (page - 1) * psize;
    if offset >= s.len() {
        Seq::empty()
    } else if offset + psize <= s.len() {
        s.subrange(offset, offset + psize)
    } else {
        s.subrange(offset, s.len() as int)
    }
}

/// The snapshot in the order the client asked for: canonically sorted when
/// a valid field was named, otherwise in discovery order.
pub open spec fn sorted_snapshot(
    s: Seq<Service>,
    sort_by: Option<Seq<char>>,
    sort_order: Option<Seq<char>>,
) -> Seq<Service> {
    match sort_by {
        Some(name) => match field_of_name(name) {
            Some(f) => sort_spec(f, order_of_name(sort_order), s),
            None => s,
        },
        None => s,
    }
}

/// The page of records one query returns.
pub open spec fn query_data(
    s: Seq<Service>,
    sort_by: Option<Seq<char>>,
    sort_order: Option<Seq<char>>,
    page: Option<usize>,
    page_size: Option<usize>,
) -> Seq<Service> {
    page_slice(
        sorted_snapshot(s, sort_by, sort_order),
        eff_page(page) as int,
        eff_page_size(page_size) as int,
    )
}

/// Answer one listing query over a snapshot: sort (or keep discovery
/// order), then cut the requested page. The total always reflects the whole
/// snapshot, never the page.
pub fn query(snapshot: &Vec<Service>, params: &QueryParams) -> (r: QueryResult)
    ensures
        r.total == snapshot@.len(),
        r.page == eff_page(params.page),
        r.page_size == eff_page_size(params.page_size),
        r.data@ == query_data(
            snapshot@,
            opt_str_view(params.sort_by),
            opt_str_view(params.sort_order),
            params.page,
            params.page_size,
        ),
        r.data@.len() <= eff_page_size(params.page_size),
        eff_page_size(params.page_size) <= 100,
{
    let mut working = clone_snapshot(snapshot);
    let total = working.len();
    match &params.sort_by {
        Some(name) => {
            match parse_sort_field(name.as_str()) {
                Some(f) => {
                    let ord = match &params.sort_order {
                        Some(o) => if str_is(o.as_str(), "desc") {
                            SortOrder::Desc
                        } else {
                            SortOrder::Asc
                        },
                        None => SortOrder::Asc,
                    };
                    proof {
                        assert(ord == order_of_name(opt_str_view(params.sort_order)));
                        lemma_sort_spec_sorted(f, ord, snapshot@);
                    }
                    sort_services(f, ord, &mut working);
                },
                None => {},
            }
        },
        None => {},
    }
    let ghost sorted = sorted_snapshot(
        snapshot@,
        opt_str_view(params.sort_by),
        opt_str_view(params.sort_order),
    );
    proof {
        assert(working@ == sorted);
        assert(sorted.len() == total);
    }
    let page: usize = match params.page {
        Some(v) => if v < 1 {
            1
        } else {
            v
        },
        None => 1,
    };
    let psize: usize = match params.page_size {
        Some(v) => if v > 100 {
            100
        } else {
            v
        },
        None => 20,
    };
    let page_less: u128 = page as u128 - 1;
    proof {
        assert(page_less * (psize as u128) < 0xFFFF_FFFF_FFFF_FFFF_FFFF_FFFF_FFFF_FFFFu128)
            by (nonlinear_arith)
            requires
                page_less <= 0xFFFF_FFFF_FFFF_FFFFu128,
                psize as u128 <= 100,
        ;
    }
    let offset_wide: u128 = page_less * (psize as u128);
    let mut data: Vec<Service> = Vec::new();
    if offset_wide < total as u128 {
        let off = offset_wide as usize;
        let end: usize = if total - off < psize {
            total
        } else {
            off + psize
        };
        let mut k: usize = off;
        while k < end
            invariant
                off <= k <= end <= total,
                total == working@.len(),
                data@ == working@.subrange(off as int, k as int),
            decreases end - k,
        {
            data.push(working[k].clone());
            proof {
                assert(data@ =~= working@.subrange(off as int, k as int + 1));
            }
            k = k + 1;
        }
        proof {
            assert((page - 1) as int * psize as int == off as int);
            assert(data@ == page_slice(sorted, page as int, psize as int));
        }
    } else {
        proof {
            assert((page - 1) as int * psize as int >= sorted.len());
            assert(page_slice(sorted, page as int, psize as int) =~= Seq::<Service>::empty());
        }
    }
    QueryResult { data, total, page, page_size: psize }
}

/// Querying is a pure function of the snapshot and the parameters: any two
/// results that meet the query contract for identical arguments agree in
/// page content, total, page and page size.
pub proof fn lemma_query_idempotent(
    s: Seq<Service>,
    sort_by: Option<Seq<char>>,
    sort_order: Option<Seq<char>>,
    page: Option<usize>,
    page_size: Option<usize>,
    r1: QueryResult,
    r2: QueryResult,
)
    requires
        r1.data@ == query_data(s, sort_by, sort_order, page, page_size),
        r1.total == s.len(),
        r1.page == eff_page(page),
        r1.page_size == eff_page_size(page_size),
        r2.data@ == query_data(s, sort_by, sort_order, page, page_size),
        r2.total == s.len(),
        r2.page == eff_page(page),
        r2.page_size == eff_page_size(page_size),
    ensures
        r1.data@ == r2.data@,
        r1.total == r2.total,
        r1.page == r2.page,
        r1.page_size == r2.page_size,
{
}

/// The status the detail endpoint answers with: success when a service is
/// currently discoverable at the port, and not-found — a normal outcome,
/// not a failure — when none is.
pub fn detail_status_code(found: bool) -> (c: u16)
    ensures
        c == if found {
            200u16
        } else {
            404u16
        },
{
    if found {
        200
    } else {
        404
    }
}

} // verus!
