use vstd::prelude::*;

verus! {

// ---------------------------------------------------------------------------
// Byte-level text model. The discovery facility hands the parser raw bytes;
// every structural decision (lines, columns, numbers) is made on bytes, and
// only the final field values are decoded to character strings.
// ---------------------------------------------------------------------------

/// ASCII whitespace as the column separators of the socket-table output.
pub open spec fn is_ws(b: u8) -> bool {
    b == 32 || b == 9 || b == 10 || b == 13
}

pub open spec fn is_digit(b: u8) -> bool {
    48 <= b <= 57
}

/// Index of the first occurrence of `t` at or after `i`, or `s.len()`.
pub open spec fn find_byte(s: Seq<u8>, t: u8, i: int) -> int
    decreases s.len() - i when 0 <= i <= s.len()
{
    if i >= s.len() {
        s.len() as int
    } else if s[i] == t {
        i
    } else {
        find_byte(s, t, i + 1)
    }
}

/// Index of the first non-whitespace byte at or after `i`, or `s.len()`.
pub open spec fn skip_ws(s: Seq<u8>, i: int) -> int
    decreases s.len() - i when 0 <= i <= s.len()
{
    if i >= s.len() {
        s.len() as int
    } else if is_ws(s[i]) {
        skip_ws(s, i + 1)
    } else {
        i
    }
}

/// Index of the first whitespace byte at or after `i`, or `s.len()`.
pub open spec fn token_end(s: Seq<u8>, i: int) -> int
    decreases s.len() - i when 0 <= i <= s.len()
{
    if i >= s.len() {
        s.len() as int
    } else if is_ws(s[i]) {
        i
    } else {
        token_end(s, i + 1)
    }
}

pub proof fn lemma_find_byte(s: Seq<u8>, t: u8, i: int)
    requires
        0 <= i <= s.len(),
    ensures
        i <= find_byte(s, t, i) <= s.len(),
        find_byte(s, t, i) < s.len() ==> s[find_byte(s, t, i)] == t,
        forall|j: int| i <= j < find_byte(s, t, i) ==> s[j] != t,
    decreases s.len() - i,
{
    if i < s.len() && s[i] != t {
        lemma_find_byte(s, t, i + 1);
    }
}

pub proof fn lemma_skip_ws(s: Seq<u8>, i: int)
    requires
        0 <= i <= s.len(),
    ensures
        i <= skip_ws(s, i) <= s.len(),
        skip_ws(s, i) < s.len() ==> !is_ws(s[skip_ws(s, i)]),
        forall|j: int| i <= j < skip_ws(s, i) ==> is_ws(s[j]),
    decreases s.len() - i,
{
    if i < s.len() && is_ws(s[i]) {
        lemma_skip_ws(s, i + 1);
    }
}

pub proof fn lemma_token_end(s: Seq<u8>, i: int)
    requires
        0 <= i <= s.len(),
    ensures
        i <= token_end(s, i) <= s.len(),
        token_end(s, i) < s.len() ==> is_ws(s[token_end(s, i)]),
        forall|j: int| i <= j < token_end(s, i) ==> !is_ws(s[j]),
        i < s.len() && !is_ws(s[i]) ==> token_end(s, i) > i,
    decreases s.len() - i,
{
    if i < s.len() && !is_ws(s[i]) {
        lemma_token_end(s, i + 1);
    }
}

/// The whitespace-separated columns of `s`, scanning from `i`.
pub open spec fn tokens_from(s: Seq<u8>, i: int) -> Seq<Seq<u8>>
    decreases s.len() - i when 0 <= i <= s.len()
    via tokens_from_decreases
{
    if skip_ws(s, i) >= s.len() {
        Seq::empty()
    } else {
        seq![s.subrange(skip_ws(s, i), token_end(s, skip_ws(s, i)))] + tokens_from(
            s,
            token_end(s, skip_ws(s, i)),
        )
    }
}

#[via_fn]
proof fn tokens_from_decreases(s: Seq<u8>, i: int) {
    lemma_skip_ws(s, i);
    if skip_ws(s, i) < s.len() {
        lemma_token_end(s, skip_ws(s, i));
    }
}

/// The lines of `s`, separated by newline bytes; a trailing newline does not
/// open an extra empty line.
pub open spec fn lines_from(s: Seq<u8>, i: int) -> Seq<Seq<u8>>
    decreases s.len() - i when 0 <= i <= s.len()
    via lines_from_decreases
{
    if i >= s.len() {
        Seq::empty()
    } else {
        let j = find_byte(s, 10, i);
        if j >= s.len() {
            seq![s.subrange(i, j)]
        } else {
            seq![s.subrange(i, j)] + lines_from(s, j + 1)
        }
    }
}

#[via_fn]
proof fn lines_from_decreases(s: Seq<u8>, i: int) {
    if 0 <= i < s.len() {
        lemma_find_byte(s, 10, i);
    }
}

/// Last index at which `t` occurs in `s`, or `-1`.
pub open spec fn find_last(s: Seq<u8>, t: u8) -> int
    decreases s.len(),
{
    if s.len() == 0 {
        -1
    } else if s[s.len() - 1] == t {
        s.len() - 1
    } else {
        find_last(s.drop_last(), t)
    }
}

/// Accumulating decimal parse of `s[i..]`: fails on a non-digit byte or when
/// the value would exceed `u32::MAX`, exactly as the standard decimal parse
/// of an unsigned integer does.
pub open spec fn parse_u32_digits(s: Seq<u8>, i: int, acc: u32) -> Option<u32>
    decreases s.len() - i when 0 <= i <= s.len()
{
    if i >= s.len() {
        Some(acc)
    } else if !is_digit(s[i]) {
        None
    } else if acc as int * 10 + (s[i] as int - 48) > u32::MAX as int {
        None
    } else {
        parse_u32_digits(s, i + 1, (acc as int * 10 + (s[i] as int - 48)) as u32)
    }
}

/// Decimal parse of a whole token, with the optional leading `+` that the
/// standard unsigned parse accepts; empty or sign-only input fails.
pub open spec fn parse_u32_spec(s: Seq<u8>) -> Option<u32> {
    if s.len() == 0 {
        None
    } else if s[0] == 43 {
        if s.len() == 1 {
            None
        } else {
            parse_u32_digits(s, 1, 0)
        }
    } else {
        parse_u32_digits(s, 0, 0)
    }
}

/// Decimal parse into the 16-bit port range; any value above `u16::MAX`
/// (and any overflow further up) fails.
pub open spec fn parse_u16_spec(s: Seq<u8>) -> Option<u16> {
    match parse_u32_spec(s) {
        Some(v) => if v <= 0xFFFF {
            Some(v as u16)
        } else {
            None
        },
        None => None,
    }
}

/// Index one past the last non-whitespace byte strictly before `i`, or `0`.
pub open spec fn trim_end_idx(s: Seq<u8>, i: int) -> int
    decreases i when 0 <= i <= s.len()
{
    if i <= 0 {
        0
    } else if is_ws(s[i - 1]) {
        trim_end_idx(s, i - 1)
    } else {
        i
    }
}

/// `s` with leading and trailing ASCII whitespace removed.
pub open spec fn trim_bytes(s: Seq<u8>) -> Seq<u8> {
    let a = skip_ws(s, 0);
    let b = trim_end_idx(s, s.len() as int);
    if a >= b {
        Seq::empty()
    } else {
        s.subrange(a, b)
    }
}

/// The character content that lossy UTF-8 decoding assigns to a byte string.
pub uninterp spec fn decoded_utf8(bytes: Seq<u8>) -> Seq<char>;

/// Relies on String::from_utf8_lossy: the decoding is a function of the bytes
/// alone, and ASCII bytes decode to exactly their own characters.
#[verifier::external_body]
pub(crate) fn bytes_to_string(v: &Vec<u8>) -> (r: String)
    ensures
        r@ == decoded_utf8(v@),
        (forall|i: int| 0 <= i < v@.len() ==> v@[i] < 128) ==> r@ == v@.map_values(
            |b: u8| b as char,
        ),
{
    String::from_utf8_lossy(v).into_owned()
}

// ---------------------------------------------------------------------------
// Executable counterparts.
// ---------------------------------------------------------------------------

/// The bytes `s[from..to]` as a fresh vector.
pub fn subvec(s: &Vec<u8>, from: usize, to: usize) -> (r: Vec<u8>)
    requires
        from <= to <= s@.len(),
    ensures
        r@ == s@.subrange(from as int, to as int),
{
    let mut r: Vec<u8> = Vec::new();
    let mut i: usize = from;
    while i < to
        invariant
            from <= i <= to <= s@.len(),
            r@ == s@.subrange(from as int, i as int),
        decreases to - i,
    {
        r.push(s[i]);
        proof {
            assert(r@ =~= s@.subrange(from as int, i as int + 1));
        }
        i = i + 1;
    }
    r
}

pub fn find_byte_from(s: &Vec<u8>, t: u8, from: usize) -> (r: usize)
    requires
        from <= s@.len(),
    ensures
        r as int == find_byte(s@, t, from as int),
        from <= r <= s@.len(),
{
    let n = s.len();
    let mut i: usize = from;
    while i < n && s[i] != t
        invariant
            from <= i <= n,
            n == s@.len(),
            find_byte(s@, t, from as int) == find_byte(s@, t, i as int),
        decreases n - i,
    {
        proof {
            assert(find_byte(s@, t, i as int) == find_byte(s@, t, i as int + 1));
        }
        i = i + 1;
    }
    proof {
        assert(find_byte(s@, t, i as int) == i as int);
    }
    i
}

pub fn skip_ws_from(s: &Vec<u8>, from: usize) -> (r: usize)
    requires
        from <= s@.len(),
    ensures
        r as int == skip_ws(s@, from as int),
        from <= r <= s@.len(),
{
    let n = s.len();
    let mut i: usize = from;
    while i < n && (s[i] == 32 || s[i] == 9 || s[i] == 10 || s[i] == 13)
        invariant
            from <= i <= n,
            n == s@.len(),
            skip_ws(s@, from as int) == skip_ws(s@, i as int),
        decreases n - i,
    {
        proof {
            assert(skip_ws(s@, i as int) == skip_ws(s@, i as int + 1));
        }
        i = i + 1;
    }
    proof {
        assert(skip_ws(s@, i as int) == i as int);
    }
    i
}

pub fn token_end_from(s: &Vec<u8>, from: usize) -> (r: usize)
    requires
        from <= s@.len(),
    ensures
        r as int == token_end(s@, from as int),
        from <= r <= s@.len(),
{
    let n = s.len();
    let mut i: usize = from;
    while i < n && !(s[i] == 32 || s[i] == 9 || s[i] == 10 || s[i] == 13)
        invariant
            from <= i <= n,
            n == s@.len(),
            token_end(s@, from as int) == token_end(s@, i as int),
        decreases n - i,
    {
        proof {
            assert(token_end(s@, i as int) == token_end(s@, i as int + 1));
        }
        i = i + 1;
    }
    proof {
        assert(token_end(s@, i as int) == i as int);
    }
    i
}

/// The whitespace-separated columns of `s`, in order.
pub fn tokenize(s: &Vec<u8>) -> (r: Vec<Vec<u8>>)
    ensures
        r.deep_view() == tokens_from(s@, 0),
{
    let n = s.len();
    let mut out: Vec<Vec<u8>> = Vec::new();
    let mut i: usize = 0;
    loop
        invariant
            i <= n,
            n == s@.len(),
            tokens_from(s@, 0) == out.deep_view() + tokens_from(s@, i as int),
        decreases n - i,
    {
        let j = skip_ws_from(s, i);
        if j >= n {
            proof {
                assert(tokens_from(s@, i as int) =~= Seq::<Seq<u8>>::empty());
                assert(tokens_from(s@, 0) =~= out.deep_view());
            }
            return out;
        }
        let k = token_end_from(s, j);
        proof {
            lemma_token_end(s@, j as int);
        }
        let tok = subvec(s, j, k);
        let ghost old_dv = out.deep_view();
        out.push(tok);
        proof {
            assert(out.deep_view() =~~= old_dv.push(tok@));
            assert(tokens_from(s@, i as int) == seq![s@.subrange(j as int, k as int)]
                + tokens_from(s@, k as int));
            assert(out.deep_view() + tokens_from(s@, k as int) =~= old_dv + tokens_from(
                s@,
                i as int,
            ));
        }
        i = k;
    }
}

/// The newline-separated lines of `s`, in order.
pub fn split_lines(s: &Vec<u8>) -> (r: Vec<Vec<u8>>)
    ensures
        r.deep_view() == lines_from(s@, 0),
{
    let n = s.len();
    let mut out: Vec<Vec<u8>> = Vec::new();
    let mut i: usize = 0;
    loop
        invariant
            i <= n,
            n == s@.len(),
            lines_from(s@, 0) == out.deep_view() + lines_from(s@, i as int),
        decreases n + 1 - i,
    {
        if i >= n {
            proof {
                assert(lines_from(s@, i as int) =~= Seq::<Seq<u8>>::empty());
                assert(lines_from(s@, 0) =~= out.deep_view());
            }
            return out;
        }
        let j = find_byte_from(s, 10, i);
        let line = subvec(s, i, j);
        let ghost old_dv = out.deep_view();
        out.push(line);
        proof {
            assert(out.deep_view() =~~= old_dv.push(line@));
            if j as int >= s@.len() {
                assert(lines_from(s@, i as int) == seq![s@.subrange(i as int, j as int)]);
                assert(out.deep_view() + Seq::<Seq<u8>>::empty() =~= old_dv + lines_from(
                    s@,
                    i as int,
                ));
            } else {
                assert(lines_from(s@, i as int) == seq![s@.subrange(i as int, j as int)]
                    + lines_from(s@, j as int + 1));
                assert(out.deep_view() + lines_from(s@, j as int + 1) =~= old_dv + lines_from(
                    s@,
                    i as int,
                ));
            }
        }
        if j >= n {
            proof {
                assert(lines_from(s@, 0) =~= out.deep_view());
            }
            return out;
        }
        i = j + 1;
    }
}

pub fn find_last_byte(s: &Vec<u8>, t: u8) -> (r: Option<usize>)
    ensures
        match r {
            Some(k) => find_last(s@, t) == k as int && k < s@.len(),
            None => find_last(s@, t) == -1,
        },
{
    let mut i: usize = s.len();
    proof {
        assert(s@.subrange(0, s@.len() as int) =~= s@);
    }
    while i > 0
        invariant
            i <= s@.len(),
            find_last(s@, t) == find_last(s@.subrange(0, i as int), t),
        decreases i,
    {
        if s[i - 1] == t {
            proof {
                let p = s@.subrange(0, i as int);
                assert(p[p.len() - 1] == t);
                assert(find_last(p, t) == i - 1);
            }
            return Some(i - 1);
        }
        proof {
            let p = s@.subrange(0, i as int);
            assert(p[p.len() - 1] != t);
            assert(p.drop_last() =~= s@.subrange(0, i as int - 1));
            assert(find_last(p, t) == find_last(s@.subrange(0, i as int - 1), t));
        }
        i = i - 1;
    }
    proof {
        assert(s@.subrange(0, 0).len() == 0);
    }
    None
}

/// Decimal parse of a byte token, as the standard unsigned 32-bit parse.
pub fn parse_u32_bytes(s: &Vec<u8>) -> (r: Option<u32>)
    ensures
        r == parse_u32_spec(s@),
{
    let n = s.len();
    if n == 0 {
        return None;
    }
    let start: usize = if s[0] == 43 {
        1
    } else {
        0
    };
    if start == 1 && n == 1 {
        return None;
    }
    let mut acc: u32 = 0;
    let mut i: usize = start;
    proof {
        assert(parse_u32_spec(s@) == parse_u32_digits(s@, start as int, 0));
    }
    while i < n
        invariant
            start <= i <= n,
            n == s@.len(),
            parse_u32_spec(s@) == parse_u32_digits(s@, i as int, acc),
        decreases n - i,
    {
        let b = s[i];
        if b < 48 || b > 57 {
            proof {
                assert(parse_u32_digits(s@, i as int, acc) == None::<u32>);
            }
            return None;
        }
        let wide: u64 = (acc as u64) * 10 + ((b - 48) as u64);
        if wide > 0xFFFF_FFFF {
            proof {
                assert(parse_u32_digits(s@, i as int, acc) == None::<u32>);
            }
            return None;
        }
        proof {
            assert(parse_u32_digits(s@, i as int, acc) == parse_u32_digits(
                s@,
                i as int + 1,
                (acc as int * 10 + (s@[i as int] as int - 48)) as u32,
            ));
        }
        acc = wide as u32;
        i = i + 1;
    }
    Some(acc)
}

/// Decimal parse of a byte token into the port range.
pub fn parse_u16_bytes(s: &Vec<u8>) -> (r: Option<u16>)
    ensures
        r == parse_u16_spec(s@),
{
    match parse_u32_bytes(s) {
        Some(v) => if v <= 0xFFFF {
            Some(v as u16)
        } else {
            None
        },
        None => None,
    }
}

fn trim_bounds(s: &Vec<u8>) -> (r: (usize, usize))
    ensures
        r.0 as int == skip_ws(s@, 0),
        r.1 as int == trim_end_idx(s@, s@.len() as int),
        r.0 <= s@.len(),
        r.1 <= s@.len(),
{
    let a = skip_ws_from(s, 0);
    let n = s.len();
    let mut i: usize = n;
    while i > 0 && (s[i - 1] == 32 || s[i - 1] == 9 || s[i - 1] == 10 || s[i - 1] == 13)
        invariant
            i <= n,
            n == s@.len(),
            trim_end_idx(s@, n as int) == trim_end_idx(s@, i as int),
        decreases i,
    {
        proof {
            assert(trim_end_idx(s@, i as int) == trim_end_idx(s@, i as int - 1));
        }
        i = i - 1;
    }
    proof {
        assert(trim_end_idx(s@, i as int) == i as int);
    }
    (a, i)
}

/// The byte content of `s` with surrounding whitespace removed.
pub fn trim_byte_vec(s: &Vec<u8>) -> (r: Vec<u8>)
    ensures
        r@ == trim_bytes(s@),
{
    let (a, b) = trim_bounds(s);
    if a >= b {
        proof {
            assert(trim_bytes(s@) =~= Seq::<u8>::empty());
        }
        Vec::new()
    } else {
        subvec(s, a, b)
    }
}

} // verus!
