//! Upstream endpoints (`Backend`) and the address grammar they are built from.
use std::collections::hash_map::DefaultHasher;
use std::hash::Hasher;
use vstd::prelude::*;
use vstd::std_specs::hash::DefaultHasherAdditionalSpecFns;
use vstd::string::StrSliceExecFns;
use vstd::utf8::encode_utf8;

use crate::error::LbError;

verus! {

pub open spec fn is_digit(c: char) -> bool {
    '0' <= c && c <= '9'
}

pub open spec fn all_digits(s: Seq<char>) -> bool {
    forall|i: int| 0 <= i < s.len() ==> is_digit(#[trigger] s[i])
}

/// The number written by a string of decimal digits.
pub open spec fn digits_value(s: Seq<char>) -> nat
    decreases s.len(),
{
    if s.len() == 0 {
        0
    } else {
        digits_value(s.drop_last()) * 10 + ((s.last() as u32) - ('0' as u32)) as nat
    }
}

pub open spec fn pow10(n: nat) -> nat
    decreases n,
{
    if n == 0 {
        1
    } else {
        10 * pow10((n - 1) as nat)
    }
}

/// Index of the last `c` in `s`, or -1 when `s` holds none.
pub open spec fn last_index_of(s: Seq<char>, c: char) -> int
    decreases s.len(),
{
    if s.len() == 0 {
        -1
    } else if s.last() == c {
        s.len() - 1
    } else {
        last_index_of(s.drop_last(), c)
    }
}

/// Index of the last `:` in `s`, or -1 when `s` holds none.
pub open spec fn last_colon(s: Seq<char>) -> int {
    last_index_of(s, ':')
}

pub open spec fn host_part(s: Seq<char>) -> Seq<char> {
    s.subrange(0, last_colon(s))
}

pub open spec fn port_part(s: Seq<char>) -> Seq<char> {
    s.subrange(last_colon(s) + 1, s.len() as int)
}

/// One to five decimal digits naming a value that fits in 16 bits.
pub open spec fn valid_port(p: Seq<char>) -> bool {
    1 <= p.len() <= 5 && all_digits(p) && digits_value(p) <= 65535
}

/// A non-empty host that holds no `:`, or a bracketed one such as `[::1]`.
pub open spec fn valid_host(h: Seq<char>) -> bool {
    h.len() > 0 && (last_index_of(h, ':') == -1 || (h.len() > 2 && h[0] == '[' && h.last()
        == ']'))
}

/// `host:port`: the port follows the last `:`, and a host that holds `:`
/// (an IPv6 address) is written in brackets.
pub open spec fn valid_address(s: Seq<char>) -> bool {
    last_colon(s) > 0 && valid_host(host_part(s)) && valid_port(port_part(s))
}

/// The stable identity of an address: the default hasher fed its UTF-8 bytes once.
pub open spec fn address_identity(a: Seq<char>) -> u64 {
    DefaultHasher::spec_finish(Seq::<Seq<u8>>::empty().push(encode_utf8(a)))
}

/// One upstream endpoint and its routing weight.
pub struct Backend {
    pub address: String,
    pub weight: u32,
    pub identity: u64,
}

impl Backend {
    /// A backend is well formed when its address parses and its identity is that of the address.
    pub open spec fn wf(&self) -> bool {
        valid_address(self.address@) && self.identity == address_identity(self.address@)
    }

    /// Builds a backend of weight 1 from a `host:port` address.
    pub fn new(address: &str) -> (r: Result<Backend, LbError>)
        ensures
            r is Ok <==> valid_address(address@),
            r is Err ==> r == Err::<Backend, LbError>(LbError::InvalidAddress),
            r matches Ok(b) ==> b.wf() && b.address@ == address@ && b.weight == 1
                && b.identity == address_identity(address@),
    {
        Backend::new_with_weight(address, 1)
    }

    /// Builds a backend of the given weight from a `host:port` address.
    pub fn new_with_weight(address: &str, weight: u32) -> (r: Result<Backend, LbError>)
        ensures
            r is Ok <==> valid_address(address@),
            r is Err ==> r == Err::<Backend, LbError>(LbError::InvalidAddress),
            r matches Ok(b) ==> b.wf() && b.address@ == address@ && b.weight == weight
                && b.identity == address_identity(address@),
    {
        if !is_valid_address(address) {
            return Err(LbError::InvalidAddress);
        }
        let identity = identity_of(address);
        Ok(Backend { address: address.to_owned(), weight, identity })
    }

    pub fn address(&self) -> (r: &str)
        ensures
            r@ == self.address@,
    {
        self.address.as_str()
    }

    pub fn weight(&self) -> (r: u32)
        ensures
            r == self.weight,
    {
        self.weight
    }

    pub fn identity(&self) -> (r: u64)
        ensures
            r == self.identity,
    {
        self.identity
    }
}

/// A backend's identity is a function of its address alone: two well-formed
/// backends with the same address have the same identity, whatever their weights.
pub proof fn identity_depends_on_address_only(a: Backend, b: Backend)
    requires
        a.wf(),
        b.wf(),
        a.address@ == b.address@,
    ensures
        a.identity == b.identity,
        a.identity == address_identity(a.address@),
{
}

impl Clone for Backend {
    fn clone(&self) -> (r: Self)
        ensures
            r == *self,
    {
        Backend { address: self.address.clone(), weight: self.weight, identity: self.identity }
    }
}

/// Hashes the UTF-8 bytes of an address with the default hasher.
pub fn identity_of(address: &str) -> (r: u64)
    ensures
        r == address_identity(address@),
{
    let mut h = DefaultHasher::new();
    h.write(address.as_bytes());
    h.finish()
}

/// Finds the last `c` in `s`.
pub fn find_last(s: &str, c: char) -> (r: Option<usize>)
    ensures
        match r {
            Some(i) => i == last_index_of(s@, c) && i < s@.len(),
            None => last_index_of(s@, c) == -1,
        },
{
    let mut i: usize = s.unicode_len();
    assert(s@.subrange(0, s@.len() as int) =~= s@);
    while i > 0
        invariant
            i <= s@.len(),
            last_index_of(s@, c) == last_index_of(s@.subrange(0, i as int), c),
        decreases i,
    {
        let d = s.get_char(i - 1);
        assert(s@.subrange(0, i as int).drop_last() =~= s@.subrange(0, i - 1));
        if d == c {
            return Some(i - 1);
        }
        i = i - 1;
    }
    assert(s@.subrange(0, 0) =~= Seq::<char>::empty());
    None
}

/// Finds the last `:` in `s`.
pub fn find_last_colon(s: &str) -> (r: Option<usize>)
    ensures
        match r {
            Some(i) => i == last_colon(s@) && i < s@.len(),
            None => last_colon(s@) == -1,
        },
{
    find_last(s, ':')
}

proof fn lemma_pow10_small(n: nat)
    requires
        n <= 4,
    ensures
        pow10(n) <= 10000,
{
    reveal_with_fuel(pow10, 5);
}

/// Reads the characters `from..to` of `s`, one to five of them, as a decimal number.
pub fn parse_digits(s: &str, from: usize, to: usize) -> (r: Option<u32>)
    requires
        from <= to <= s@.len(),
    ensures
        r is Some <==> (1 <= to - from <= 5 && all_digits(s@.subrange(from as int, to as int))),
        r matches Some(v) ==> v as nat == digits_value(s@.subrange(from as int, to as int)),
{
    let ghost p = s@.subrange(from as int, to as int);
    if to - from == 0 || to - from > 5 {
        return None;
    }
    let mut v: u32 = 0;
    let mut k: usize = from;
    while k < to
        invariant
            from <= k <= to <= s@.len(),
            to - from <= 5,
            p == s@.subrange(from as int, to as int),
            all_digits(s@.subrange(from as int, k as int)),
            v as nat == digits_value(s@.subrange(from as int, k as int)),
            v < pow10((k - from) as nat),
        decreases to - k,
    {
        let c = s.get_char(k);
        if !('0' <= c && c <= '9') {
            assert(p[k - from] == c);
            return None;
        }
        proof {
            lemma_pow10_small((k - from) as nat);
            let q = s@.subrange(from as int, k + 1);
            assert(q.drop_last() =~= s@.subrange(from as int, k as int));
            assert(q.last() == c);
            assert forall|i: int| 0 <= i < q.len() implies is_digit(#[trigger] q[i]) by {
                if i < q.len() - 1 {
                    assert(q[i] == s@.subrange(from as int, k as int)[i]);
                }
            }
        }
        v = v * 10 + ((c as u32) - ('0' as u32));
        k = k + 1;
    }
    assert(s@.subrange(from as int, k as int) =~= p);
    Some(v)
}

/// Reads the characters `from..to` of `s` as a port number.
pub fn parse_port(s: &str, from: usize, to: usize) -> (r: Option<u16>)
    requires
        from <= to <= s@.len(),
    ensures
        r is Some <==> valid_port(s@.subrange(from as int, to as int)),
        r matches Some(v) ==> v as nat == digits_value(s@.subrange(from as int, to as int)),
{
    match parse_digits(s, from, to) {
        None => None,
        Some(v) => {
            if v > 65535 {
                return None;
            }
            Some(v as u16)
        },
    }
}

/// Whether `h` is a host of an address.
pub fn is_valid_host(h: &str) -> (r: bool)
    ensures
        r == valid_host(h@),
{
    let n = h.unicode_len();
    if n == 0 {
        return false;
    }
    match find_last(h, ':') {
        None => true,
        Some(_) => n > 2 && h.get_char(0) == '[' && h.get_char(n - 1) == ']',
    }
}

/// Whether `address` is `host:port` with a valid host and port.
pub fn is_valid_address(address: &str) -> (r: bool)
    ensures
        r == valid_address(address@),
{
    match find_last_colon(address) {
        None => false,
        Some(c) => {
            if c == 0 {
                return false;
            }
            let n = address.unicode_len();
            parse_port(address, c + 1, n).is_some() && is_valid_host(address.substring_char(0, c))
        },
    }
}

} // verus!
