//! DNS service discovery: service and resolver configuration, the resolver
//! pick of each round, and turning resolved addresses into a backend set.
use rand::Rng;
use vstd::prelude::*;
use vstd::string::{StrSliceExecFns, StringExecFns};

use crate::backend::{
    address_identity, all_digits, digits_value, find_last, find_last_colon, host_part, last_colon,
    is_digit, last_index_of,
    parse_digits, port_part, valid_address, valid_port, Backend,
};
use crate::error::LbError;
use crate::pool::{has_identity, inserted, lemma_inserted_members, BackendSet, HealthMap};

verus! {

broadcast use vstd::std_specs::hash::group_hash_axioms;

/// Port of a service named without one.
pub const DEFAULT_SERVICE_PORT: u16 = 80;

/// Index of the first `c` in `s` at or after `from`, or `s.len()` when there is none.
pub open spec fn next_index_of(s: Seq<char>, from: int, c: char) -> int
    decreases s.len() - from,
{
    if from >= s.len() {
        s.len() as int
    } else if s[from] == c {
        from
    } else {
        next_index_of(s, from + 1, c)
    }
}

/// One to three digits, without a leading zero, naming a value up to 255.
pub open spec fn valid_octet(p: Seq<char>) -> bool {
    1 <= p.len() <= 3 && all_digits(p) && digits_value(p) <= 255 && (p.len() > 1 ==> p[0] != '0')
}

/// The positions of the three dots of a dotted quad.
pub open spec fn dot1(h: Seq<char>) -> int {
    next_index_of(h, 0, '.')
}

pub open spec fn dot2(h: Seq<char>) -> int {
    next_index_of(h, dot1(h) + 1, '.')
}

pub open spec fn dot3(h: Seq<char>) -> int {
    next_index_of(h, dot2(h) + 1, '.')
}

/// The four dot-separated parts of `h`, when it has three dots.
pub open spec fn quad_parts(h: Seq<char>) -> Seq<Seq<char>> {
    seq![
        h.subrange(0, dot1(h)),
        h.subrange(dot1(h) + 1, dot2(h)),
        h.subrange(dot2(h) + 1, dot3(h)),
        h.subrange(dot3(h) + 1, h.len() as int),
    ]
}

/// `h` is an IPv4 address in dotted-quad form.
pub open spec fn valid_ipv4(h: Seq<char>) -> bool {
    dot3(h) < h.len() && next_index_of(h, dot3(h) + 1, '.') == h.len() && forall|i: int|
        0 <= i < 4 ==> valid_octet(#[trigger] quad_parts(h)[i])
}

/// `s` is `ip:port`: `a.b.c.d:port`, or `[ipv6]:port`.
pub open spec fn valid_resolver(s: Seq<char>) -> bool {
    last_colon(s) > 0 && valid_port(port_part(s)) && (valid_ipv4(host_part(s))
        || valid_bracketed_ipv6(host_part(s)))
}

/// The IP of a DNS resolver: the four octets of an IPv4 address, or the
/// text of an IPv6 address (without brackets).
#[derive(Debug, PartialEq, Eq)]
pub enum ResolverHost {
    V4([u8; 4]),
    V6(String),
}

/// The address of a DNS resolver.
#[derive(Debug, PartialEq, Eq)]
pub struct ResolverAddr {
    pub host: ResolverHost,
    pub port: u16,
}

impl Clone for ResolverHost {
    fn clone(&self) -> (r: Self)
        ensures
            r == *self,
    {
        match self {
            ResolverHost::V4(ip) => ResolverHost::V4(*ip),
            ResolverHost::V6(t) => ResolverHost::V6(t.clone()),
        }
    }
}

impl Clone for ResolverAddr {
    fn clone(&self) -> (r: Self)
        ensures
            r == *self,
    {
        ResolverAddr { host: self.host.clone(), port: self.port }
    }
}

/// `r` is the resolver that the text `s` names.
pub open spec fn resolver_of(s: Seq<char>, r: ResolverAddr) -> bool {
    &&& r.port as nat == digits_value(port_part(s))
    &&& match r.host {
        ResolverHost::V4(ip) => valid_ipv4(host_part(s)) && forall|i: int|
            0 <= i < 4 ==> ip@[i] as nat == digits_value(
                #[trigger] quad_parts(host_part(s))[i],
            ),
        ResolverHost::V6(t) => valid_bracketed_ipv6(host_part(s)) && t@ == host_part(s).subrange(
            1,
            host_part(s).len() - 1,
        ),
    }
}

/// The fields of `s` separated by `c`, from position `from` on.
pub open spec fn split_from(s: Seq<char>, from: int, c: char) -> Seq<Seq<char>>
    decreases s.len() - from,
{
    let e = next_index_of(s, from, c);
    if from < 0 || e >= s.len() || e < from {
        seq![s.subrange(from, s.len() as int)]
    } else {
        seq![s.subrange(from, e)] + split_from(s, e + 1, c)
    }
}

pub open spec fn comma_fields(s: Seq<char>) -> Seq<Seq<char>> {
    split_from(s, 0, ',')
}

/// A service is `host` or `host:port` with a non-empty host.
pub open spec fn valid_service(s: Seq<char>) -> bool {
    s.len() > 0 && (last_colon(s) == -1 || (last_colon(s) > 0 && valid_port(port_part(s))))
}

pub open spec fn service_host(s: Seq<char>) -> Seq<char> {
    if last_colon(s) == -1 {
        s
    } else {
        host_part(s)
    }
}

pub open spec fn service_port(s: Seq<char>) -> nat {
    if last_colon(s) == -1 {
        DEFAULT_SERVICE_PORT as nat
    } else {
        digits_value(port_part(s))
    }
}

/// The error of configuring a service from the text `s`, if any.
pub open spec fn service_error(s: Seq<char>) -> Option<LbError> {
    if s.len() == 0 {
        Some(LbError::EmptyService)
    } else if !valid_service(s) {
        Some(LbError::InvalidAddress)
    } else {
        None
    }
}

pub open spec fn decimal_digit(d: nat) -> char {
    if d == 0 {
        '0'
    } else if d == 1 {
        '1'
    } else if d == 2 {
        '2'
    } else if d == 3 {
        '3'
    } else if d == 4 {
        '4'
    } else if d == 5 {
        '5'
    } else if d == 6 {
        '6'
    } else if d == 7 {
        '7'
    } else if d == 8 {
        '8'
    } else {
        '9'
    }
}

/// The decimal text of `n`, without leading zeros.
pub open spec fn decimal(n: nat) -> Seq<char>
    decreases n,
{
    if n < 10 {
        seq![decimal_digit(n)]
    } else {
        decimal(n / 10).push(decimal_digit(n % 10))
    }
}

/// The host under which a resolved IP stands in a backend address: an IPv6
/// address (one that holds `:`) in brackets, any other as it is.
pub open spec fn answer_host(ip: Seq<char>) -> Seq<char> {
    if last_index_of(ip, ':') == -1 {
        ip
    } else {
        seq!['['] + ip + seq![']']
    }
}

/// The backend address that a resolved IP gives on `port`.
pub open spec fn answer_address(ip: Seq<char>, port: u16) -> Seq<char> {
    answer_host(ip) + seq![':'] + decimal(port as nat)
}

proof fn lemma_no_char_last_index(s: Seq<char>, t: Seq<char>, c: char)
    requires
        forall|i: int| 0 <= i < t.len() ==> t[i] != c,
    ensures
        last_index_of(s + t, c) == last_index_of(s, c),
    decreases t.len(),
{
    if t.len() > 0 {
        assert((s + t).drop_last() =~= s + t.drop_last());
        assert((s + t).last() == t.last());
        lemma_no_char_last_index(s, t.drop_last(), c);
    } else {
        assert(s + t =~= s);
    }
}

proof fn lemma_decimal_digit(d: nat)
    requires
        d < 10,
    ensures
        ((decimal_digit(d) as u32) - ('0' as u32)) as nat == d,
{
}

proof fn lemma_decimal(n: nat)
    ensures
        decimal(n).len() >= 1,
        all_digits(decimal(n)),
        digits_value(decimal(n)) == n,
        forall|i: int| 0 <= i < decimal(n).len() ==> decimal(n)[i] != ':',
        n < 10 ==> decimal(n).len() == 1,
        n >= 10 ==> decimal(n).len() == decimal(n / 10).len() + 1,
    decreases n,
{
    if n < 10 {
        lemma_decimal_digit(n);
        assert(seq![decimal_digit(n)].drop_last() =~= Seq::<char>::empty());
        assert(digits_value(Seq::<char>::empty()) == 0);
    } else {
        lemma_decimal_digit(n % 10);
        assert(n == (n / 10) * 10 + n % 10);
        lemma_decimal(n / 10);
        let s = decimal(n / 10);
        let d = decimal(n);
        assert(d.drop_last() =~= s);
        assert(d.last() == decimal_digit(n % 10));
        assert forall|i: int| 0 <= i < d.len() implies is_digit(#[trigger] d[i]) && d[i] != ':' by {
            if i < s.len() {
                assert(d[i] == s[i]);
            }
        }
    }
}

proof fn lemma_decimal_short(n: nat)
    requires
        n <= 65535,
    ensures
        decimal(n).len() <= 5,
{
    lemma_decimal(n);
    if n >= 10 {
        lemma_decimal(n / 10);
        if n / 10 >= 10 {
            lemma_decimal(n / 100);
            if n / 100 >= 10 {
                lemma_decimal(n / 1000);
                if n / 1000 >= 10 {
                    lemma_decimal(n / 10000);
                    assert(n / 10000 < 10);
                    assert(n / 10 / 10 == n / 100);
                    assert(n / 100 / 10 == n / 1000);
                    assert(n / 1000 / 10 == n / 10000);
                }
            }
        }
    }
}

/// A resolved address makes a valid backend address on every port exactly
/// when it is not empty: its host is written bare, or in brackets when it
/// holds `:`, and the port is written in decimal.
pub proof fn answer_address_is_valid(ip: Seq<char>, port: u16)
    ensures
        valid_address(answer_address(ip, port)) <==> ip.len() > 0,
{
    let h = answer_host(ip);
    let d = decimal(port as nat);
    let a = answer_address(ip, port);
    lemma_decimal(port as nat);
    lemma_decimal_short(port as nat);
    let hc = h + seq![':'];
    assert(hc.drop_last() =~= h);
    assert(a =~= hc + d);
    lemma_no_char_last_index(hc, d, ':');
    assert(last_colon(a) == h.len());
    assert(host_part(a) =~= h);
    assert(port_part(a) =~= d);
    if last_index_of(ip, ':') != -1 {
        assert(ip.len() > 0);
        let b = seq!['['] + ip + seq![']'];
        assert(b.last() == ']');
        assert(b[0] == '[');
        assert(b.drop_last() =~= seq!['['] + ip);
        lemma_last_index_shift(ip, ':');
        assert(last_index_of(b, ':') != -1);
    } else {
        assert(h == ip);
        if ip.len() == 0 {
            assert(h.len() == 0);
        }
    }
}

proof fn lemma_last_index_shift(ip: Seq<char>, c: char)
    requires
        last_index_of(ip, c) != -1,
    ensures
        last_index_of(seq!['['] + ip, c) != -1,
    decreases ip.len(),
{
    if ip.len() > 0 && ip.last() != c {
        assert((seq!['['] + ip).drop_last() =~= seq!['['] + ip.drop_last());
        lemma_last_index_shift(ip.drop_last(), c);
    } else if ip.len() > 0 {
        assert((seq!['['] + ip).last() == c);
    }
}

/// The text of one decimal digit.
fn digit_text(d: u32) -> (r: &'static str)
    requires
        d < 10,
    ensures
        r@ == seq![decimal_digit(d as nat)],
{
    match d {
        0 => {
            proof {
                reveal_strlit("0");
            }
            assert("0"@ =~= seq![decimal_digit(0)]);
            "0"
        },
        1 => {
            proof {
                reveal_strlit("1");
            }
            assert("1"@ =~= seq![decimal_digit(1)]);
            "1"
        },
        2 => {
            proof {
                reveal_strlit("2");
            }
            assert("2"@ =~= seq![decimal_digit(2)]);
            "2"
        },
        3 => {
            proof {
                reveal_strlit("3");
            }
            assert("3"@ =~= seq![decimal_digit(3)]);
            "3"
        },
        4 => {
            proof {
                reveal_strlit("4");
            }
            assert("4"@ =~= seq![decimal_digit(4)]);
            "4"
        },
        5 => {
            proof {
                reveal_strlit("5");
            }
            assert("5"@ =~= seq![decimal_digit(5)]);
            "5"
        },
        6 => {
            proof {
                reveal_strlit("6");
            }
            assert("6"@ =~= seq![decimal_digit(6)]);
            "6"
        },
        7 => {
            proof {
                reveal_strlit("7");
            }
            assert("7"@ =~= seq![decimal_digit(7)]);
            "7"
        },
        8 => {
            proof {
                reveal_strlit("8");
            }
            assert("8"@ =~= seq![decimal_digit(8)]);
            "8"
        },
        _ => {
            proof {
                reveal_strlit("9");
            }
            assert("9"@ =~= seq![decimal_digit(9)]);
            "9"
        },
    }
}

/// The decimal text of `n`.
fn decimal_text(n: u32) -> (r: String)
    ensures
        r@ == decimal(n as nat),
    decreases n,
{
    if n < 10 {
        String::from_str(digit_text(n))
    } else {
        let head = decimal_text(n / 10);
        let r = head.concat(digit_text(n % 10));
        assert(r@ =~= decimal(n as nat));
        r
    }
}

/// Relies on rand's `Rng::gen_range` on the thread generator: a value in `0..n`.
/// It panics on an empty range, which `n > 0` rules out.
#[verifier::external_body]
fn random_index(n: usize) -> (r: usize)
    requires
        n > 0,
    ensures
        r < n,
{
    rand::thread_rng().gen_range(0..n)
}

/// Finds the first `c` in `s` at or after `from`.
pub fn find_char(s: &str, from: usize, c: char) -> (r: usize)
    requires
        from <= s@.len(),
    ensures
        r == next_index_of(s@, from as int, c),
        from <= r <= s@.len(),
{
    let n = s.unicode_len();
    let mut i: usize = from;
    while i < n
        invariant
            from <= i <= n,
            n == s@.len(),
            next_index_of(s@, from as int, c) == next_index_of(s@, i as int, c),
        decreases n - i,
    {
        if s.get_char(i) == c {
            return i;
        }
        i = i + 1;
    }
    i
}

/// Reads the characters `from..to` of `s` as an octet of a dotted quad.
pub fn parse_octet(s: &str, from: usize, to: usize) -> (r: Option<u8>)
    requires
        from <= to <= s@.len(),
    ensures
        r is Some <==> valid_octet(s@.subrange(from as int, to as int)),
        r matches Some(v) ==> v as nat == digits_value(s@.subrange(from as int, to as int)),
{
    if to - from > 3 {
        return None;
    }
    match parse_digits(s, from, to) {
        None => None,
        Some(v) => {
            if v > 255 {
                return None;
            }
            if to - from > 1 && s.get_char(from) == '0' {
                return None;
            }
            Some(v as u8)
        },
    }
}

/// Reads `a.b.c.d` from the whole of `h`.
pub fn parse_ipv4(h: &str) -> (r: Option<[u8; 4]>)
    ensures
        r is Some <==> valid_ipv4(h@),
        r matches Some(ip) ==> forall|i: int|
            0 <= i < 4 ==> ip@[i] as nat == digits_value(#[trigger] quad_parts(h@)[i]),
{
    let n = h.unicode_len();
    let d1 = find_char(h, 0, '.');
    if d1 >= n {
        return None;
    }
    let d2 = find_char(h, d1 + 1, '.');
    if d2 >= n {
        return None;
    }
    let d3 = find_char(h, d2 + 1, '.');
    if d3 >= n {
        return None;
    }
    let d4 = find_char(h, d3 + 1, '.');
    if d4 < n {
        return None;
    }
    let ghost parts = quad_parts(h@);
    let a = match parse_octet(h, 0, d1) {
        Some(v) => v,
        None => {
            assert(!valid_octet(parts[0]));
            return None;
        },
    };
    let b = match parse_octet(h, d1 + 1, d2) {
        Some(v) => v,
        None => {
            assert(!valid_octet(parts[1]));
            return None;
        },
    };
    let c = match parse_octet(h, d2 + 1, d3) {
        Some(v) => v,
        None => {
            assert(!valid_octet(parts[2]));
            return None;
        },
    };
    let d = match parse_octet(h, d3 + 1, n) {
        Some(v) => v,
        None => {
            assert(!valid_octet(parts[3]));
            return None;
        },
    };
    let ip = [a, b, c, d];
    proof {
        assert(parts[0] == h@.subrange(0, d1 as int));
        assert(parts[1] == h@.subrange(d1 + 1, d2 as int));
        assert(parts[2] == h@.subrange(d2 + 1, d3 as int));
        assert(parts[3] == h@.subrange(d3 + 1, n as int));
        assert(ip@[0] == a && ip@[1] == b && ip@[2] == c && ip@[3] == d);
    }
    Some(ip)
}

pub open spec fn is_hex(c: char) -> bool {
    ('0' <= c && c <= '9') || ('a' <= c && c <= 'f') || ('A' <= c && c <= 'F')
}

/// An empty group (part of a `::`), or one to four hex digits.
pub open spec fn group_ok(p: Seq<char>) -> bool {
    p.len() == 0 || (p.len() <= 4 && forall|i: int| 0 <= i < p.len() ==> is_hex(#[trigger] p[i]))
}

/// `h` is an IPv6 address written as colon-separated groups of hex digits,
/// with at most one `::` standing for one or more zero groups.
pub open spec fn valid_ipv6(h: Seq<char>) -> bool {
    ipv6_groups_valid(split_from(h, 0, ':'))
}

/// The groups `g` of an IPv6 address: each one well formed, and either eight
/// full groups or one `::` (empty groups at the start, the end, or one in between).
pub open spec fn ipv6_groups_valid(g: Seq<Seq<char>>) -> bool {
    let n = g.len();
    &&& forall|i: int| 0 <= i < n ==> group_ok(#[trigger] g[i])
    &&& {
        ||| (n == 8 && forall|i: int| 0 <= i < n ==> (#[trigger] g[i]).len() > 0)
        ||| (n == 3 && forall|i: int| 0 <= i < n ==> (#[trigger] g[i]).len() == 0)
        ||| (3 <= n <= 9 && g[0].len() == 0 && g[1].len() == 0 && forall|i: int|
            2 <= i < n ==> (#[trigger] g[i]).len() > 0)
        ||| (3 <= n <= 9 && g[n - 2].len() == 0 && g[n - 1].len() == 0 && forall|i: int|
            0 <= i < n - 2 ==> (#[trigger] g[i]).len() > 0)
        ||| (n <= 8 && exists|z: int|
            0 < z < n - 1 && g[z].len() == 0 && forall|i: int|
                0 <= i < n && i != z ==> (#[trigger] g[i]).len() > 0)
    }
}

/// `h` is `[` an IPv6 address `]`.
pub open spec fn valid_bracketed_ipv6(h: Seq<char>) -> bool {
    h.len() >= 2 && h[0] == '[' && h.last() == ']' && valid_ipv6(h.subrange(1, h.len() - 1))
}

/// Whether the characters `from..to` of `s` form a group of an IPv6 address.
fn check_group(s: &str, from: usize, to: usize) -> (r: bool)
    requires
        from <= to <= s@.len(),
    ensures
        r == group_ok(s@.subrange(from as int, to as int)),
{
    let ghost p = s@.subrange(from as int, to as int);
    if to - from > 4 {
        return false;
    }
    let mut k: usize = from;
    while k < to
        invariant
            from <= k <= to <= s@.len(),
            p == s@.subrange(from as int, to as int),
            forall|i: int| 0 <= i < k - from ==> is_hex(#[trigger] p[i]),
        decreases to - k,
    {
        let c = s.get_char(k);
        assert(p[k - from] == c);
        if !(('0' <= c && c <= '9') || ('a' <= c && c <= 'f') || ('A' <= c && c <= 'F')) {
            return false;
        }
        k = k + 1;
    }
    true
}

/// Whether every length in `lens[from..to]` is positive.
fn all_positive(lens: &Vec<usize>, from: usize, to: usize) -> (r: bool)
    requires
        from <= to <= lens@.len(),
    ensures
        r == forall|i: int| from <= i < to ==> #[trigger] lens@[i] > 0,
{
    let mut k: usize = from;
    while k < to
        invariant
            from <= k <= to <= lens@.len(),
            forall|i: int| from <= i < k ==> #[trigger] lens@[i] > 0,
        decreases to - k,
    {
        if lens[k] == 0 {
            return false;
        }
        k = k + 1;
    }
    true
}

/// Whether groups of the lengths `lens` (each one well formed) make an IPv6 address.
fn groups_shape_ok(lens: &Vec<usize>, g: Ghost<Seq<Seq<char>>>) -> (r: bool)
    requires
        lens@.len() == g@.len(),
        forall|i: int| 0 <= i < g@.len() ==> lens@[i] == (#[trigger] g@[i]).len(),
        forall|i: int| 0 <= i < g@.len() ==> group_ok(#[trigger] g@[i]),
    ensures
        r == ipv6_groups_valid(g@),
{
    let ghost g = g@;
    let m = lens.len();
    assert(forall|i: int| 0 <= i < m ==> #[trigger] lens@[i] == g[i].len());
    if m == 8 && all_positive(lens, 0, 8) {
        return true;
    }
    if m == 3 && lens[0] == 0 && lens[1] == 0 && lens[2] == 0 {
        assert(forall|i: int| 0 <= i < 3 ==> (#[trigger] g[i]).len() == 0);
        return true;
    }
    if 3 <= m && m <= 9 && lens[0] == 0 && lens[1] == 0 && all_positive(lens, 2, m) {
        return true;
    }
    if 3 <= m && m <= 9 && lens[m - 2] == 0 && lens[m - 1] == 0 && all_positive(lens, 0, m - 2) {
        return true;
    }
    let mut z: usize = 0;
    while z < m && lens[z] > 0
        invariant
            z <= m,
            m == lens@.len(),
            forall|i: int| 0 <= i < z ==> #[trigger] lens@[i] > 0,
        decreases m - z,
    {
        z = z + 1;
    }
    let middle = m <= 8 && 0 < z && z + 1 < m && all_positive(lens, z + 1, m);
    proof {
        if middle {
            assert(g[z as int].len() == 0);
            assert forall|i: int| 0 <= i < m && i != z implies (#[trigger] g[i]).len() > 0 by {
                assert(lens@[i] == g[i].len());
            }
        }
        if !middle && m <= 8 && exists|y: int|
            0 < y < m - 1 && g[y].len() == 0 && forall|i: int|
                0 <= i < m && i != y ==> (#[trigger] g[i]).len() > 0 {
            let y = choose|y: int|
                0 < y < m - 1 && g[y].len() == 0 && forall|i: int|
                    0 <= i < m && i != y ==> (#[trigger] g[i]).len() > 0;
            assert(lens@[y] == 0);
            if z < y {
                assert(lens@[z as int] == g[z as int].len());
            }
            assert(z == y);
        }
    }
    middle
}

/// Whether `h` is an IPv6 address in colon-separated hex groups.
pub fn parse_ipv6(h: &str) -> (r: bool)
    ensures
        r == valid_ipv6(h@),
{
    let n = h.unicode_len();
    let mut lens: Vec<usize> = Vec::new();
    let mut start: usize = 0;
    let ghost done: Seq<Seq<char>> = Seq::empty();
    loop
        invariant
            start <= n,
            n == h@.len(),
            split_from(h@, 0, ':') == done + split_from(h@, start as int, ':'),
            lens@.len() == done.len(),
            forall|i: int| 0 <= i < done.len() ==> lens@[i] == (#[trigger] done[i]).len(),
            forall|i: int| 0 <= i < done.len() ==> group_ok(#[trigger] done[i]),
        decreases n - start,
    {
        let e = find_char(h, start, ':');
        let ghost rest = split_from(h@, start as int, ':');
        let ghost field = h@.subrange(start as int, e as int);
        proof {
            if e >= n {
                assert(rest == seq![field]);
            } else {
                assert(rest == seq![field] + split_from(h@, e + 1, ':'));
            }
            assert(split_from(h@, 0, ':')[done.len() as int] == field);
        }
        if !check_group(h, start, e) {
            return false;
        }
        lens.push(e - start);
        proof {
            let d2 = done.push(field);
            assert forall|i: int| 0 <= i < d2.len() implies lens@[i] == (#[trigger] d2[i]).len()
                && group_ok(d2[i]) by {
                if i < done.len() {
                    assert(d2[i] == done[i]);
                }
            }
            if e < n {
                assert(split_from(h@, 0, ':') =~= d2 + split_from(h@, e + 1, ':'));
            } else {
                assert(split_from(h@, 0, ':') =~= d2);
            }
            done = d2;
        }
        if e >= n {
            return groups_shape_ok(&lens, Ghost(done));
        }
        start = e + 1;
    }
}

/// Reads a resolver address `a.b.c.d:port` or `[ipv6]:port`.
pub fn parse_resolver(s: &str) -> (r: Result<ResolverAddr, LbError>)
    ensures
        r is Ok <==> valid_resolver(s@),
        r is Err ==> r == Err::<ResolverAddr, LbError>(LbError::InvalidResolverAddress),
        r matches Ok(a) ==> resolver_of(s@, a),
{
    let c = match find_last_colon(s) {
        Some(c) => c,
        None => {
            return Err(LbError::InvalidResolverAddress);
        },
    };
    if c == 0 {
        return Err(LbError::InvalidResolverAddress);
    }
    let n = s.unicode_len();
    let port = match crate::backend::parse_port(s, c + 1, n) {
        Some(p) => p,
        None => {
            return Err(LbError::InvalidResolverAddress);
        },
    };
    let host = s.substring_char(0, c);
    if let Some(ip) = parse_ipv4(host) {
        return Ok(ResolverAddr { host: ResolverHost::V4(ip), port });
    }
    let hn = host.unicode_len();
    if hn >= 2 && host.get_char(0) == '[' && host.get_char(hn - 1) == ']' {
        let inner = host.substring_char(1, hn - 1);
        if parse_ipv6(inner) {
            return Ok(ResolverAddr { host: ResolverHost::V6(String::from_str(inner)), port });
        }
    }
    Err(LbError::InvalidResolverAddress)
}

/// Every field names a resolver.
pub open spec fn all_valid_resolvers(fields: Seq<Seq<char>>) -> bool {
    forall|i: int| 0 <= i < fields.len() ==> valid_resolver(#[trigger] fields[i])
}

/// `rs` are the resolvers that `fields` name, in order.
pub open spec fn resolvers_of(fields: Seq<Seq<char>>, rs: Seq<ResolverAddr>) -> bool {
    rs.len() == fields.len() && forall|i: int|
        0 <= i < fields.len() ==> resolver_of(#[trigger] fields[i], rs[i])
}

/// The public resolver used when none is configured: 8.8.8.8:53.
pub open spec fn is_fallback_resolver(r: ResolverAddr) -> bool {
    r.host matches ResolverHost::V4(ip) && ip@ == seq![8u8, 8u8, 8u8, 8u8] && r.port == 53
}

/// A resolver list was given, and it is not empty.
pub open spec fn env_given(e: Option<&str>) -> bool {
    match e {
        Some(t) => t@.len() > 0,
        None => false,
    }
}

pub open spec fn env_text(e: Option<&str>) -> Seq<char> {
    match e {
        Some(t) => t@,
        None => Seq::empty(),
    }
}

/// Reads a comma-separated list of resolver addresses.
pub fn parse_resolver_list(text: &str) -> (r: Result<Vec<ResolverAddr>, LbError>)
    ensures
        r is Ok <==> all_valid_resolvers(comma_fields(text@)),
        r is Err ==> r == Err::<Vec<ResolverAddr>, LbError>(LbError::InvalidResolverAddress),
        r matches Ok(v) ==> resolvers_of(comma_fields(text@), v@),
{
    let n = text.unicode_len();
    let mut out: Vec<ResolverAddr> = Vec::new();
    let mut start: usize = 0;
    let ghost done: Seq<Seq<char>> = Seq::empty();
    loop
        invariant
            start <= n,
            n == text@.len(),
            comma_fields(text@) == done + split_from(text@, start as int, ','),
            all_valid_resolvers(done),
            resolvers_of(done, out@),
        decreases n - start,
    {
        let e = find_char(text, start, ',');
        let field = text.substring_char(start, e);
        let ghost rest = split_from(text@, start as int, ',');
        proof {
            if e >= n {
                assert(rest == seq![text@.subrange(start as int, n as int)]);
            } else {
                assert(rest == seq![text@.subrange(start as int, e as int)] + split_from(
                    text@,
                    e + 1,
                    ',',
                ));
            }
            assert(comma_fields(text@)[done.len() as int] == field@);
        }
        match parse_resolver(field) {
            Ok(a) => {
                out.push(a);
            },
            Err(_) => {
                return Err(LbError::InvalidResolverAddress);
            },
        }
        proof {
            let d2 = done.push(field@);
            assert(resolvers_of(d2, out@)) by {
                assert forall|i: int| 0 <= i < d2.len() implies resolver_of(
                    #[trigger] d2[i],
                    out@[i],
                ) by {
                    if i < done.len() {
                        assert(d2[i] == done[i]);
                    }
                }
            }
            assert(all_valid_resolvers(d2)) by {
                assert forall|i: int| 0 <= i < d2.len() implies valid_resolver(#[trigger] d2[i]) by {
                    if i < done.len() {
                        assert(d2[i] == done[i]);
                    }
                }
            }
            if e < n {
                assert(comma_fields(text@) =~= d2 + split_from(text@, e + 1, ','));
            } else {
                assert(comma_fields(text@) =~= d2);
            }
            done = d2;
        }
        if e >= n {
            return Ok(out);
        }
        start = e + 1;
    }
}

/// Splits a service into its host and port, the port defaulting to 80.
pub fn parse_service(service: &str) -> (r: Result<(String, u16), LbError>)
    ensures
        match service_error(service@) {
            Some(e) => r == Err::<(String, u16), LbError>(e),
            None => r matches Ok(hp) && hp.0@ == service_host(service@) && hp.1 as nat
                == service_port(service@),
        },
{
    if service.unicode_len() == 0 {
        return Err(LbError::EmptyService);
    }
    match find_last_colon(service) {
        None => Ok((String::from_str(service), DEFAULT_SERVICE_PORT)),
        Some(c) => {
            if c == 0 {
                return Err(LbError::InvalidAddress);
            }
            let n = service.unicode_len();
            match crate::backend::parse_port(service, c + 1, n) {
                Some(p) => Ok((String::from_str(service.substring_char(0, c)), p)),
                None => Err(LbError::InvalidAddress),
            }
        },
    }
}

/// DNS discovery of one service: the host to resolve, the port its
/// backends listen on, and the resolvers to ask.
pub struct DNS {
    domain: String,
    resolver: Vec<ResolverAddr>,
    port: u16,
}

impl DNS {
    pub closed spec fn spec_domain(&self) -> Seq<char> {
        self.domain@
    }

    pub closed spec fn spec_resolvers(&self) -> Seq<ResolverAddr> {
        self.resolver@
    }

    pub closed spec fn spec_port(&self) -> u16 {
        self.port
    }

    pub open spec fn wf(&self) -> bool {
        self.spec_resolvers().len() > 0
    }

    /// Configures discovery of `service` (`host` or `host:port`, port 80 by
    /// default) with the resolvers of `resolver_env`, a comma-separated list
    /// of `a.b.c.d:port`; when that is absent or empty, with 8.8.8.8:53.
    pub fn new(service: &str, resolver_env: Option<&str>) -> (r: Result<DNS, LbError>)
        ensures
            service@.len() == 0 ==> r == Err::<DNS, LbError>(LbError::EmptyService),
            service@.len() > 0 && env_given(resolver_env) && !all_valid_resolvers(
                comma_fields(env_text(resolver_env)),
            ) ==> r == Err::<DNS, LbError>(LbError::InvalidResolverAddress),
            service@.len() > 0 && (env_given(resolver_env) ==> all_valid_resolvers(
                comma_fields(env_text(resolver_env)),
            )) && !valid_service(service@) ==> r == Err::<DNS, LbError>(LbError::InvalidAddress),
            r is Ok <==> valid_service(service@) && (env_given(resolver_env) ==> all_valid_resolvers(
                comma_fields(env_text(resolver_env)),
            )),
            r matches Ok(d) ==> d.wf() && d.spec_domain() == service_host(service@)
                && d.spec_port() as nat == service_port(service@) && (if env_given(resolver_env) {
                resolvers_of(comma_fields(env_text(resolver_env)), d.spec_resolvers())
            } else {
                d.spec_resolvers().len() == 1 && is_fallback_resolver(d.spec_resolvers()[0])
            }),
    {
        if service.unicode_len() == 0 {
            return Err(LbError::EmptyService);
        }
        let resolver = match resolver_env {
            Some(t) => {
                if t.unicode_len() == 0 {
                    fallback_resolvers()
                } else {
                    match parse_resolver_list(t) {
                        Ok(v) => {
                            proof {
                                assert(split_from(t@, 0, ',').len() >= 1);
                            }
                            v
                        },
                        Err(e) => {
                            return Err(e);
                        },
                    }
                }
            },
            None => fallback_resolvers(),
        };
        match parse_service(service) {
            Ok((domain, port)) => Ok(DNS { domain, resolver, port }),
            Err(e) => Err(e),
        }
    }

    /// Configures discovery of `service` with an explicit, non-empty list of
    /// resolver addresses `a.b.c.d:port`.
    pub fn new_with_resolve(service: &str, resolver: Vec<String>) -> (r: Result<DNS, LbError>)
        ensures
            service@.len() == 0 ==> r == Err::<DNS, LbError>(LbError::EmptyService),
            service@.len() > 0 && resolver@.len() == 0 ==> r == Err::<DNS, LbError>(
                LbError::EmptyResolverList,
            ),
            service@.len() > 0 && resolver@.len() > 0 && (exists|i: int|
                0 <= i < resolver@.len() && !valid_resolver(#[trigger] resolver@[i]@)) ==> r
                == Err::<DNS, LbError>(LbError::InvalidResolverAddress),
            service@.len() > 0 && resolver@.len() > 0 && (forall|i: int|
                0 <= i < resolver@.len() ==> valid_resolver(#[trigger] resolver@[i]@))
                && !valid_service(service@) ==> r == Err::<DNS, LbError>(LbError::InvalidAddress),
            r is Ok <==> valid_service(service@) && resolver@.len() > 0 && forall|i: int|
                0 <= i < resolver@.len() ==> valid_resolver(#[trigger] resolver@[i]@),
            r matches Ok(d) ==> d.wf() && d.spec_domain() == service_host(service@)
                && d.spec_port() as nat == service_port(service@) && d.spec_resolvers().len()
                == resolver@.len() && forall|i: int|
                0 <= i < resolver@.len() ==> resolver_of(
                    #[trigger] resolver@[i]@,
                    d.spec_resolvers()[i],
                ),
    {
        if service.unicode_len() == 0 {
            return Err(LbError::EmptyService);
        }
        if resolver.len() == 0 {
            return Err(LbError::EmptyResolverList);
        }
        let mut parsed: Vec<ResolverAddr> = Vec::new();
        let mut i: usize = 0;
        while i < resolver.len()
            invariant
                service@.len() > 0,
                resolver@.len() > 0,
                i <= resolver@.len(),
                parsed@.len() == i,
                forall|j: int| 0 <= j < i ==> valid_resolver(#[trigger] resolver@[j]@),
                forall|j: int| 0 <= j < i ==> resolver_of(#[trigger] resolver@[j]@, parsed@[j]),
            decreases resolver@.len() - i,
        {
            match parse_resolver(resolver[i].as_str()) {
                Ok(a) => {
                    parsed.push(a);
                },
                Err(e) => {
                    return Err(e);
                },
            }
            i = i + 1;
        }
        match parse_service(service) {
            Ok((domain, port)) => Ok(DNS { domain, resolver: parsed, port }),
            Err(e) => Err(e),
        }
    }

    pub fn domain(&self) -> (r: &str)
        ensures
            r@ == self.spec_domain(),
    {
        self.domain.as_str()
    }

    pub fn port(&self) -> (r: u16)
        ensures
            r == self.spec_port(),
    {
        self.port
    }

    pub fn resolvers(&self) -> (r: &Vec<ResolverAddr>)
        ensures
            r@ == self.spec_resolvers(),
    {
        &self.resolver
    }

    /// The resolver to ask in this round: drawn uniformly at random when
    /// there are several, the only one otherwise.
    pub fn pick_resolver(&self) -> (r: ResolverAddr)
        requires
            self.wf(),
        ensures
            self.spec_resolvers().contains(r),
            self.spec_resolvers().len() == 1 ==> r == self.spec_resolvers()[0],
    {
        let n = self.resolver.len();
        let index = if n > 1 {
            random_index(n)
        } else {
            0
        };
        let r = self.resolver[index].clone();
        assert(self.spec_resolvers()[index as int] == r);
        r
    }
}

/// `x` was built, with weight 1, from one of the first `k` resolved addresses on `port`.
pub open spec fn from_answers(x: Backend, answers: Seq<String>, k: int, port: u16) -> bool {
    x.wf() && x.weight == 1 && exists|i: int|
        0 <= i < k && x.address@ == answer_address(#[trigger] answers[i]@, port)
}

/// The health map of a discovery result: every discovered backend healthy.
pub open spec fn all_healthy(s: Seq<Backend>) -> Map<u64, bool> {
    Map::new(|id: u64| has_identity(s, id), |id: u64| true)
}

impl DNS {
    /// Adds the backend at `ip` on the service port, healthy; an address
    /// that does not make a valid backend is skipped.
    fn insert_item(&self, ip: &str, health: &mut HealthMap, tree: &mut BackendSet)
        requires
            old(tree).wf(),
        ensures
            final(tree).wf(),
            valid_address(answer_address(ip@, self.spec_port())) ==> exists|b: Backend|
                b.wf() && b.address@ == answer_address(ip@, self.spec_port()) && b.weight == 1
                    && inserted(old(tree)@, final(tree)@, b) && final(health)@ == old(
                    health,
                )@.insert(b.identity, true),
            !valid_address(answer_address(ip@, self.spec_port())) ==> final(tree)@ == old(tree)@
                && final(health)@ == old(health)@,
    {
        let text = match find_last(ip, ':') {
            None => String::from_str(ip),
            Some(_) => String::from_str("[").concat(ip).concat("]"),
        };
        let text = text.concat(":");
        let port = decimal_text(self.port as u32);
        let text = text.concat(port.as_str());
        proof {
            reveal_strlit(":");
            reveal_strlit("[");
            reveal_strlit("]");
            assert(text@ =~= answer_address(ip@, self.spec_port()));
        }
        match Backend::new(text.as_str()) {
            Ok(b) => {
                health.mark_health(b.identity, true);
                tree.insert(b);
            },
            Err(_) => {},
        }
    }

    /// The backend set and health map of one round, from the addresses the
    /// resolver answered with (A and AAAA records, as text): each becomes
    /// `ip:port` on the service port (`[ip]:port` for IPv6), healthy; those
    /// that do not make a valid backend address are skipped.
    pub fn discovered(&self, answers: &Vec<String>) -> (r: (BackendSet, HealthMap))
        ensures
            r.0.wf(),
            forall|i: int|
                0 <= i < answers@.len() && valid_address(
                    answer_address(#[trigger] answers@[i]@, self.spec_port()),
                ) ==> has_identity(
                    r.0@,
                    address_identity(answer_address(answers@[i]@, self.spec_port())),
                ),
            forall|x: Backend|
                #[trigger] r.0@.contains(x) ==> from_answers(
                    x,
                    answers@,
                    answers@.len() as int,
                    self.spec_port(),
                ),
            r.1@ == all_healthy(r.0@),
            forall|i: int|
                0 <= i < answers@.len() && (#[trigger] answers@[i])@.len() > 0 ==> has_identity(
                    r.0@,
                    address_identity(answer_address(answers@[i]@, self.spec_port())),
                ),
    {
        let mut tree = BackendSet::new();
        let mut health = HealthMap::new();
        let mut k: usize = 0;
        assert(health@ =~= all_healthy(tree@));
        while k < answers.len()
            invariant
                k <= answers@.len(),
                tree.wf(),
                health@ == all_healthy(tree@),
                forall|i: int|
                    0 <= i < k && valid_address(
                        answer_address(#[trigger] answers@[i]@, self.spec_port()),
                    ) ==> has_identity(
                        tree@,
                        address_identity(answer_address(answers@[i]@, self.spec_port())),
                    ),
                forall|x: Backend|
                    #[trigger] tree@.contains(x) ==> from_answers(
                        x,
                        answers@,
                        k as int,
                        self.spec_port(),
                    ),
            decreases answers@.len() - k,
        {
            let ghost t0 = tree@;
            let ghost h0 = health@;
            self.insert_item(answers[k].as_str(), &mut health, &mut tree);
            proof {
                let a = answer_address(answers@[k as int]@, self.spec_port());
                if valid_address(a) {
                    let b = choose|b: Backend|
                        b.wf() && b.address@ == a && b.weight == 1 && inserted(t0, tree@, b)
                            && health@ == h0.insert(b.identity, true);
                    lemma_inserted_members(t0, tree@, b);
                    assert(health@ =~= all_healthy(tree@));
                    assert forall|x: Backend| #[trigger] tree@.contains(x) implies from_answers(
                        x,
                        answers@,
                        k + 1,
                        self.spec_port(),
                    ) by {
                        if x == b {
                            assert(x.address@ == answer_address(answers@[k as int]@, self.spec_port()));
                        } else {
                            assert(t0.contains(x));
                            assert(from_answers(x, answers@, k as int, self.spec_port()));
                        }
                    }
                } else {
                    assert forall|x: Backend| #[trigger] tree@.contains(x) implies from_answers(
                        x,
                        answers@,
                        k + 1,
                        self.spec_port(),
                    ) by {
                        assert(from_answers(x, answers@, k as int, self.spec_port()));
                    }
                }
            }
            k = k + 1;
        }
        proof {
            assert forall|i: int|
                0 <= i < answers@.len() && (#[trigger] answers@[i])@.len() > 0 implies has_identity(
                tree@,
                address_identity(answer_address(answers@[i]@, self.spec_port())),
            ) by {
                answer_address_is_valid(answers@[i]@, self.spec_port());
            }
        }
        (tree, health)
    }

    /// The outcome of one round: the discovered set when the query was
    /// answered, a discovery error when it failed.
    pub fn discover_from(&self, answers: Option<Vec<String>>) -> (r: Result<
        (BackendSet, HealthMap),
        LbError,
    >)
        ensures
            answers is None ==> r == Err::<(BackendSet, HealthMap), LbError>(
                LbError::DiscoveryError,
            ),
            answers matches Some(v) ==> r matches Ok(d) && d.0.wf() && d.1@ == all_healthy(d.0@)
                && (forall|i: int|
                0 <= i < v@.len() && valid_address(
                    answer_address(#[trigger] v@[i]@, self.spec_port()),
                ) ==> has_identity(
                    d.0@,
                    address_identity(answer_address(v@[i]@, self.spec_port())),
                )) && (forall|x: Backend|
                #[trigger] d.0@.contains(x) ==> from_answers(
                    x,
                    v@,
                    v@.len() as int,
                    self.spec_port(),
                )) && (forall|i: int|
                0 <= i < v@.len() && (#[trigger] v@[i])@.len() > 0 ==> has_identity(
                    d.0@,
                    address_identity(answer_address(v@[i]@, self.spec_port())),
                )),
    {
        match answers {
            Some(v) => Ok(self.discovered(&v)),
            None => Err(LbError::DiscoveryError),
        }
    }
}

fn fallback_resolvers() -> (r: Vec<ResolverAddr>)
    ensures
        r@.len() == 1,
        is_fallback_resolver(r@[0]),
{
    let mut v: Vec<ResolverAddr> = Vec::new();
    let ip: [u8; 4] = [8, 8, 8, 8];
    assert(ip@ =~= seq![8u8, 8u8, 8u8, 8u8]);
    let a = ResolverAddr { host: ResolverHost::V4(ip), port: 53 };
    v.push(a);
    v
}

} // verus!
