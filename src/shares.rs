//! Share names: common names (`NAME`) and full names (`ADDR[:PORT]/NAME`).
//!
//! A full name addresses a share of another host by its IPv4 address, an
//! optional port and the share's common name. The default protocol port is
//! canonical: `IP:29284/NAME` parses to the same value as `IP/NAME`.

use vstd::prelude::*;
use vstd::string::StringExecFns;

verus! {

/// Longest common share name, in bytes of its UTF-8 encoding.
pub const MAX_SHARE_NAME_LENGTH: usize = 60;

/// Default TCP port of the peer protocol (the bytes "rd", big-endian).
pub const NETWORK_PORT: u16 = 29284;

// ---------------------------------------------------------------------------
// Text model
// ---------------------------------------------------------------------------

/// Number of UTF-8 bytes that encode `s`.
pub open spec fn utf8_len(s: Seq<char>) -> nat {
    vstd::utf8::encode_utf8(s).len()
}

/// A common name is non-empty and at most 60 bytes long.
pub open spec fn valid_common_name(s: Seq<char>) -> bool {
    0 < s.len() && utf8_len(s) <= MAX_SHARE_NAME_LENGTH
}

pub open spec fn is_digit(c: char) -> bool {
    '0' <= c && c <= '9'
}

pub open spec fn digit_value(c: char) -> nat {
    (c as u32 - '0' as u32) as nat
}

pub open spec fn digit_char(d: nat) -> char {
    if d == 0 { '0' }
    else if d == 1 { '1' }
    else if d == 2 { '2' }
    else if d == 3 { '3' }
    else if d == 4 { '4' }
    else if d == 5 { '5' }
    else if d == 6 { '6' }
    else if d == 7 { '7' }
    else if d == 8 { '8' }
    else { '9' }
}

pub open spec fn all_digits(s: Seq<char>) -> bool {
    forall|i: int| 0 <= i < s.len() ==> is_digit(#[trigger] s[i])
}

/// Value of a string of decimal digits, most significant first.
pub open spec fn decimal_value(s: Seq<char>) -> nat
    decreases s.len(),
{
    if s.len() == 0 {
        0
    } else {
        decimal_value(s.drop_last()) * 10 + digit_value(s.last())
    }
}

/// Shortest decimal text of `n`.
pub open spec fn decimal_text(n: nat) -> Seq<char>
    decreases n,
{
    if n < 10 {
        seq![digit_char(n)]
    } else {
        decimal_text(n / 10).push(digit_char(n % 10))
    }
}

/// Digits without a superfluous leading zero, at most `max_len` of them.
pub open spec fn canonical_decimal(s: Seq<char>, max_len: nat) -> bool {
    &&& 1 <= s.len() <= max_len
    &&& all_digits(s)
    &&& (s.len() == 1 || s[0] != '0')
}

pub open spec fn octet_of(s: Seq<char>) -> Option<u8> {
    if canonical_decimal(s, 3) && decimal_value(s) <= 255 {
        Some(decimal_value(s) as u8)
    } else {
        None
    }
}

/// The digits of a port: the text without one leading `+`.
pub open spec fn port_digits(s: Seq<char>) -> Seq<char> {
    if s.len() > 0 && s[0] == '+' { s.drop_first() } else { s }
}

/// A port as `u16::from_str` reads it: an optional `+`, then at least one
/// decimal digit (leading zeros allowed), with a value that fits.
pub open spec fn port_of(s: Seq<char>) -> Option<u16> {
    let d = port_digits(s);
    if d.len() >= 1 && all_digits(d) && decimal_value(d) <= 65535 {
        Some(decimal_value(d) as u16)
    } else {
        None
    }
}

/// Splits `s` at the first occurrence of `c`.
pub open spec fn split_first(s: Seq<char>, c: char) -> Option<(Seq<char>, Seq<char>)>
    decreases s.len(),
{
    if s.len() == 0 {
        None
    } else if s[0] == c {
        Some((Seq::empty(), s.drop_first()))
    } else {
        match split_first(s.drop_first(), c) {
            Some((a, b)) => Some((seq![s[0]] + a, b)),
            None => None,
        }
    }
}

/// Dotted-quad IPv4 address, four canonical decimal octets.
pub open spec fn ipv4_of(s: Seq<char>) -> Option<Ipv4Addr> {
    match split_first(s, '.') {
        Some((f0, r0)) => match split_first(r0, '.') {
            Some((f1, r1)) => match split_first(r1, '.') {
                Some((f2, f3)) => match (octet_of(f0), octet_of(f1), octet_of(f2), octet_of(f3)) {
                    (Some(a), Some(b), Some(c), Some(d)) => Some(Ipv4Addr(a, b, c, d)),
                    _ => None,
                },
                None => None,
            },
            None => None,
        },
        None => None,
    }
}

pub open spec fn ipv4_text(ip: Ipv4Addr) -> Seq<char> {
    decimal_text(ip.0 as nat) + seq!['.'] + decimal_text(ip.1 as nat) + seq!['.']
        + decimal_text(ip.2 as nat) + seq!['.'] + decimal_text(ip.3 as nat)
}

/// The default port is canonically left out.
pub open spec fn canonical_port(port: u16) -> Option<u16> {
    if port == NETWORK_PORT { None } else { Some(port) }
}

pub open spec fn remote_addr_of(s: Seq<char>) -> Result<RemotePeerAddr, RemotePeerAddrParseError> {
    match split_first(s, ':') {
        Some((a, p)) => match ipv4_of(a) {
            None => Err(RemotePeerAddrParseError::InvalidAddress),
            Some(ip) => match port_of(p) {
                None => Err(RemotePeerAddrParseError::PortNumber),
                Some(port) => Ok(RemotePeerAddr { addr: ip, port: canonical_port(port) }),
            },
        },
        None => match ipv4_of(s) {
            None => Err(RemotePeerAddrParseError::InvalidAddress),
            Some(ip) => Ok(RemotePeerAddr { addr: ip, port: None }),
        },
    }
}

pub open spec fn remote_addr_text(a: RemotePeerAddr) -> Seq<char> {
    match a.port {
        None => ipv4_text(a.addr),
        Some(p) => ipv4_text(a.addr) + seq![':'] + decimal_text(p as nat),
    }
}

pub open spec fn common_name_of(s: Seq<char>) -> Result<Seq<char>, CommonShareNameParseError> {
    if s.len() == 0 {
        Err(CommonShareNameParseError::EmptyName)
    } else if utf8_len(s) > MAX_SHARE_NAME_LENGTH {
        Err(CommonShareNameParseError::NameTooLong)
    } else {
        Ok(s)
    }
}

/// The parse of `ADDR[:PORT]/NAME`, as the address and the name's text.
pub open spec fn full_name_of(s: Seq<char>) -> Result<(RemotePeerAddr, Seq<char>), FullShareNameParseError> {
    match split_first(s, '/') {
        None => Err(FullShareNameParseError::NoSeparator),
        Some((a, n)) => match remote_addr_of(a) {
            Err(e) => Err(FullShareNameParseError::InvalidAddress(e)),
            Ok(addr) => match common_name_of(n) {
                Err(e) => Err(FullShareNameParseError::InvalidCommonShareName(e)),
                Ok(name) => Ok((addr, name)),
            },
        },
    }
}

pub open spec fn full_name_text(addr: RemotePeerAddr, name: Seq<char>) -> Seq<char> {
    remote_addr_text(addr) + seq!['/'] + name
}

// ---------------------------------------------------------------------------
// Types
// ---------------------------------------------------------------------------

/// An IPv4 address, octets in network order.
#[derive(Clone, Copy, Debug, PartialEq, Eq, Structural, PartialOrd, Ord, Hash)]
pub struct Ipv4Addr(pub u8, pub u8, pub u8, pub u8);

impl Ipv4Addr {
    pub fn from_octets(o: [u8; 4]) -> (r: Ipv4Addr)
        ensures
            r == Ipv4Addr(o@[0], o@[1], o@[2], o@[3]),
    {
        Ipv4Addr(o[0], o[1], o[2], o[3])
    }

    pub fn octets(&self) -> (r: [u8; 4])
        ensures
            r@ == seq![self.0, self.1, self.2, self.3],
    {
        let r = [self.0, self.1, self.2, self.3];
        proof {
            assert(r@ =~= seq![self.0, self.1, self.2, self.3]);
        }
        r
    }
}

/// Address of a remote peer as written in a full share name. A port equal
/// to the default is kept as `None`.
#[derive(Clone, Copy, Debug, PartialEq, Eq, Structural, PartialOrd, Ord, Hash)]
pub struct RemotePeerAddr {
    pub addr: Ipv4Addr,
    pub port: Option<u16>,
}

impl RemotePeerAddr {
    /// The port is canonical: the default is never spelled out.
    pub open spec fn wf(&self) -> bool {
        self.port != Some(NETWORK_PORT)
    }

    /// The port to connect to.
    pub fn socket_port(&self) -> (r: u16)
        ensures
            r == match self.port { Some(p) => p, None => NETWORK_PORT },
    {
        match self.port {
            Some(p) => p,
            None => NETWORK_PORT,
        }
    }

    pub fn from_str(s: &str) -> (r: Result<RemotePeerAddr, RemotePeerAddrParseError>)
        ensures
            match r {
                Ok(a) => remote_addr_of(s@) == Ok::<RemotePeerAddr, RemotePeerAddrParseError>(a),
                Err(e) => remote_addr_of(s@) == Err::<RemotePeerAddr, RemotePeerAddrParseError>(e),
            },
    {
        match split_once_char(s, ':') {
            Some((a, p)) => {
                proof { lemma_split_first_found(s@, ':', a@, p@); }
                let ip = match parse_ipv4(a) {
                    Some(ip) => ip,
                    None => return Err(RemotePeerAddrParseError::InvalidAddress),
                };
                let port = match parse_port(p) {
                    Some(v) => v,
                    None => return Err(RemotePeerAddrParseError::PortNumber),
                };
                let port = if port == NETWORK_PORT { None } else { Some(port) };
                Ok(RemotePeerAddr { addr: ip, port })
            },
            None => {
                proof { lemma_split_first_absent(s@, ':'); }
                match parse_ipv4(s) {
                    Some(ip) => Ok(RemotePeerAddr { addr: ip, port: None }),
                    None => Err(RemotePeerAddrParseError::InvalidAddress),
                }
            },
        }
    }

    /// Text form, `a.b.c.d` or `a.b.c.d:port`.
    pub fn to_string(&self) -> (r: String)
        ensures
            r@ == remote_addr_text(*self),
    {
        let mut r = String::new();
        push_decimal(&mut r, self.addr.0 as u32);
        push_char(&mut r, '.');
        push_decimal(&mut r, self.addr.1 as u32);
        push_char(&mut r, '.');
        push_decimal(&mut r, self.addr.2 as u32);
        push_char(&mut r, '.');
        push_decimal(&mut r, self.addr.3 as u32);
        proof {
            assert(r@ =~= ipv4_text(self.addr));
        }
        match self.port {
            Some(p) => {
                push_char(&mut r, ':');
                push_decimal(&mut r, p as u32);
            },
            None => {},
        }
        r
    }
}

#[derive(Clone, Copy, Debug, PartialEq, Eq, Structural)]
pub enum RemotePeerAddrParseError {
    InvalidAddress,
    PortNumber,
}

impl RemotePeerAddrParseError {
    pub fn is_invalid_address(&self) -> (r: bool)
        ensures
            r == (*self is InvalidAddress),
    {
        matches!(self, RemotePeerAddrParseError::InvalidAddress)
    }

    pub fn is_port_number(&self) -> (r: bool)
        ensures
            r == (*self is PortNumber),
    {
        matches!(self, RemotePeerAddrParseError::PortNumber)
    }
}

/// Name of a share within one host: 1 to 60 bytes of UTF-8.
#[derive(Clone, Debug)]
pub struct CommonShareName(String);

impl View for CommonShareName {
    type V = Seq<char>;

    closed spec fn view(&self) -> Seq<char> {
        self.0@
    }
}

#[derive(Clone, Copy, Debug, PartialEq, Eq, Structural)]
pub enum CommonShareNameParseError {
    EmptyName,
    NameTooLong,
}

impl CommonShareNameParseError {
    pub fn is_empty_name(&self) -> (r: bool)
        ensures
            r == (*self is EmptyName),
    {
        matches!(self, CommonShareNameParseError::EmptyName)
    }

    pub fn is_name_too_long(&self) -> (r: bool)
        ensures
            r == (*self is NameTooLong),
    {
        matches!(self, CommonShareNameParseError::NameTooLong)
    }
}

impl CommonShareName {
    pub closed spec fn wf(&self) -> bool {
        valid_common_name(self@)
    }

    pub fn from_str(s: &str) -> (r: Result<CommonShareName, CommonShareNameParseError>)
        ensures
            match r {
                Ok(n) => common_name_of(s@) == Ok::<Seq<char>, CommonShareNameParseError>(n@) && n.wf(),
                Err(e) => common_name_of(s@) == Err::<Seq<char>, CommonShareNameParseError>(e),
            },
    {
        if s.is_empty() {
            return Err(CommonShareNameParseError::EmptyName);
        }
        if s.as_bytes().len() > MAX_SHARE_NAME_LENGTH {
            return Err(CommonShareNameParseError::NameTooLong);
        }
        Ok(CommonShareName(s.to_owned()))
    }

    /// An equal copy of this name.
    pub fn duplicate(&self) -> (r: CommonShareName)
        ensures
            r@ == self@,
            r.wf() == self.wf(),
    {
        CommonShareName(self.0.clone())
    }

    /// Whether two names are equal.
    pub fn same(&self, other: &CommonShareName) -> (r: bool)
        ensures
            r == (self@ == other@),
    {
        self.0 == other.0
    }

    pub fn as_str(&self) -> (r: &str)
        ensures
            r@ == self@,
    {
        self.0.as_str()
    }

    pub fn to_string(&self) -> (r: String)
        ensures
            r@ == self@,
    {
        self.0.clone()
    }
}

#[derive(Clone, Copy, Debug, PartialEq, Eq, Structural)]
pub enum FullShareNameParseError {
    InvalidAddress(RemotePeerAddrParseError),
    InvalidCommonShareName(CommonShareNameParseError),
    NoSeparator,
}

impl FullShareNameParseError {
    pub fn is_invalid_address(&self) -> (r: bool)
        ensures
            r == (*self is InvalidAddress),
    {
        matches!(self, FullShareNameParseError::InvalidAddress(_))
    }

    pub fn is_invalid_common_share_name(&self) -> (r: bool)
        ensures
            r == (*self is InvalidCommonShareName),
    {
        matches!(self, FullShareNameParseError::InvalidCommonShareName(_))
    }

    pub fn is_no_separator(&self) -> (r: bool)
        ensures
            r == (*self is NoSeparator),
    {
        matches!(self, FullShareNameParseError::NoSeparator)
    }
}

/// A share of another host: `ADDR[:PORT]/NAME`.
#[derive(Clone, Debug)]
pub struct FullShareName {
    pub addr: RemotePeerAddr,
    pub name: CommonShareName,
}

impl View for FullShareName {
    type V = (RemotePeerAddr, Seq<char>);

    open spec fn view(&self) -> (RemotePeerAddr, Seq<char>) {
        (self.addr, self.name@)
    }
}

/// A full name that parses: canonical port and a valid common name.
pub open spec fn valid_full_name(v: (RemotePeerAddr, Seq<char>)) -> bool {
    v.0.wf() && valid_common_name(v.1)
}

impl FullShareName {
    pub open spec fn wf(&self) -> bool {
        valid_full_name(self@)
    }

    pub fn from_str(s: &str) -> (r: Result<FullShareName, FullShareNameParseError>)
        ensures
            match r {
                Ok(n) => full_name_of(s@) == Ok::<(RemotePeerAddr, Seq<char>), FullShareNameParseError>(n@),
                Err(e) => full_name_of(s@) == Err::<(RemotePeerAddr, Seq<char>), FullShareNameParseError>(e),
            },
    {
        match split_once_char(s, '/') {
            None => {
                proof { lemma_split_first_absent(s@, '/'); }
                Err(FullShareNameParseError::NoSeparator)
            },
            Some((a, n)) => {
                proof { lemma_split_first_found(s@, '/', a@, n@); }
                let addr = match RemotePeerAddr::from_str(a) {
                    Ok(addr) => addr,
                    Err(e) => return Err(FullShareNameParseError::InvalidAddress(e)),
                };
                let name = match CommonShareName::from_str(n) {
                    Ok(name) => name,
                    Err(e) => return Err(FullShareNameParseError::InvalidCommonShareName(e)),
                };
                Ok(FullShareName { addr, name })
            },
        }
    }

    /// An equal copy of this name.
    pub fn duplicate(&self) -> (r: FullShareName)
        ensures
            r@ == self@,
    {
        FullShareName { addr: self.addr, name: self.name.duplicate() }
    }

    /// Whether two names are equal.
    pub fn same(&self, other: &FullShareName) -> (r: bool)
        ensures
            r == (self@ == other@),
    {
        self.addr == other.addr && self.name.same(&other.name)
    }

    /// Text form, `ADDR[:PORT]/NAME`.
    pub fn to_string(&self) -> (r: String)
        ensures
            r@ == full_name_text(self.addr, self.name@),
    {
        let mut r = self.addr.to_string();
        push_char(&mut r, '/');
        r.append(self.name.as_str());
        r
    }
}

/// A share name as a user writes it: common, or full.
#[derive(Clone, Debug)]
pub enum ShareName {
    Common(CommonShareName),
    Full(FullShareName),
}

#[derive(Clone, Copy, Debug, PartialEq, Eq, Structural)]
pub enum ShareNameParseError {
    FailedToParseAsAny(FullShareNameParseError),
}

impl ShareName {
    pub fn is_common(&self) -> (r: bool)
        ensures
            r == (*self is Common),
    {
        matches!(self, ShareName::Common(_))
    }

    pub fn is_full(&self) -> (r: bool)
        ensures
            r == (*self is Full),
    {
        matches!(self, ShareName::Full(_))
    }

    /// A full name where the text is one, else a common name.
    pub fn from_str(s: &str) -> (r: Result<ShareName, ShareNameParseError>)
        ensures
            match r {
                Ok(ShareName::Full(n)) => full_name_of(s@) == Ok::<(RemotePeerAddr, Seq<char>), FullShareNameParseError>(n@),
                Ok(ShareName::Common(n)) => full_name_of(s@) is Err && common_name_of(s@) == Ok::<Seq<char>, CommonShareNameParseError>(n@),
                Err(ShareNameParseError::FailedToParseAsAny(e)) => full_name_of(s@) == Err::<(RemotePeerAddr, Seq<char>), FullShareNameParseError>(e)
                    && common_name_of(s@) is Err,
            },
    {
        let full_err = match FullShareName::from_str(s) {
            Ok(n) => return Ok(ShareName::Full(n)),
            Err(e) => e,
        };
        match CommonShareName::from_str(s) {
            Ok(n) => Ok(ShareName::Common(n)),
            Err(_) => Err(ShareNameParseError::FailedToParseAsAny(full_err)),
        }
    }
}

// ---------------------------------------------------------------------------
// Text helpers
// ---------------------------------------------------------------------------

/// Relies on str::split_once: the text before and after the first `c`.
#[verifier::external_body]
fn split_once_char<'a>(s: &'a str, c: char) -> (r: Option<(&'a str, &'a str)>)
    ensures
        match r {
            None => !s@.contains(c),
            Some((a, b)) => s@ == a@ + seq![c] + b@ && !a@.contains(c),
        },
{
    s.split_once(c)
}

/// Relies on String::push: appends one char.
#[verifier::external_body]
fn push_char(s: &mut String, c: char)
    ensures
        final(s)@ == old(s)@.push(c),
{
    s.push(c)
}

fn digit_to_char(d: u32) -> (c: char)
    requires
        d < 10,
    ensures
        c == digit_char(d as nat),
{
    if d == 0 { '0' }
    else if d == 1 { '1' }
    else if d == 2 { '2' }
    else if d == 3 { '3' }
    else if d == 4 { '4' }
    else if d == 5 { '5' }
    else if d == 6 { '6' }
    else if d == 7 { '7' }
    else if d == 8 { '8' }
    else { '9' }
}

/// Appends the shortest decimal text of `n`.
fn push_decimal(s: &mut String, n: u32)
    ensures
        final(s)@ == old(s)@ + decimal_text(n as nat),
    decreases n,
{
    if n < 10 {
        push_char(s, digit_to_char(n));
        proof { assert(old(s)@.push(digit_char(n as nat)) =~= old(s)@ + decimal_text(n as nat)); }
    } else {
        push_decimal(s, n / 10);
        push_char(s, digit_to_char(n % 10));
        proof {
            assert(final(s)@ =~= old(s)@ + decimal_text(n as nat));
        }
    }
}

pub open spec fn pow10(n: nat) -> nat
    decreases n,
{
    if n == 0 { 1 } else { 10 * pow10((n - 1) as nat) }
}

/// Reads a canonical decimal of at most `max_len` digits.
fn parse_decimal(s: &str, max_len: usize) -> (r: Option<u32>)
    requires
        1 <= max_len <= 5,
    ensures
        match r {
            Some(v) => canonical_decimal(s@, max_len as nat) && v as nat == decimal_value(s@),
            None => !canonical_decimal(s@, max_len as nat),
        },
{
    let mut acc: u32 = 0;
    let mut first: char = ' ';
    let mut count: usize = 0;
    for c in it: s.chars()
        invariant
            it.seq() == s@,
            count == it.index(),
            count <= max_len <= 5,
            all_digits(s@.take(count as int)),
            acc as nat == decimal_value(s@.take(count as int)),
            acc < pow10(count as nat),
            count > 0 ==> first == s@[0],
    {
        if count == max_len {
            return None;
        }
        if !('0' <= c && c <= '9') {
            proof { assert(!is_digit(s@[count as int])); }
            return None;
        }
        if count == 0 {
            first = c;
        }
        proof {
            let p = s@.take(count as int);
            let q = s@.take(count + 1);
            assert(q.drop_last() =~= p);
            assert(q.last() == c);
            assert(pow10((count + 1) as nat) == 10 * pow10(count as nat));
            assert(pow10(count as nat) <= 10000) by {
                reveal_with_fuel(pow10, 5);
            }
        }
        acc = acc * 10 + (c as u32 - '0' as u32);
        count = count + 1;
    }
    proof { assert(s@.take(s@.len() as int) =~= s@); }
    if count == 0 || (count > 1 && first == '0') {
        return None;
    }
    Some(acc)
}

/// Reads a port as `u16::from_str` does.
fn parse_port(s: &str) -> (r: Option<u16>)
    ensures
        r == port_of(s@),
{
    let mut acc: u32 = 0;
    let mut over = false;
    let mut any = false;
    let mut start = true;
    let ghost mut seen: int = 0;
    for c in it: s.chars()
        invariant
            it.seq() == s@,
            start == (it.index() == 0),
            seen == it.index(),
            any == (port_digits(s@.take(seen)).len() > 0),
            all_digits(port_digits(s@.take(seen))),
            over ==> decimal_value(port_digits(s@.take(seen))) > 65535,
            !over ==> acc as nat == decimal_value(port_digits(s@.take(seen))) && acc <= 65535,
    {
        let ghost k = seen;
        let ghost t = s@.take(k);
        let ghost t2 = s@.take(k + 1);
        proof {
            assert(t2 =~= t.push(c));
            assert(c == s@[k]);
            if k > 0 {
                assert(t2[0] == t[0]);
                assert(t2.drop_first() =~= t.drop_first().push(c));
            }
        }
        if start && c == '+' {
            proof {
                assert(port_digits(t2) =~= Seq::<char>::empty());
                assert(port_digits(t) =~= Seq::<char>::empty());
            }
        } else if '0' <= c && c <= '9' {
            let ghost pd = port_digits(t);
            proof {
                assert(port_digits(t2) =~= pd.push(c));
                assert(pd.push(c).drop_last() =~= pd);
                assert(decimal_value(pd.push(c)) == decimal_value(pd) * 10 + digit_value(c));
                assert forall|j: int| 0 <= j < pd.push(c).len() implies is_digit(#[trigger] pd.push(c)[j]) by {
                    if j < pd.len() {
                        assert(pd.push(c)[j] == pd[j]);
                    }
                }
            }
            if !over {
                let v = acc * 10 + (c as u32 - '0' as u32);
                if v > 65535 {
                    over = true;
                } else {
                    acc = v;
                }
            }
            any = true;
        } else {
            proof {
                let d = port_digits(s@);
                if s@[0] == '+' {
                    assert(k > 0);
                    assert(d[k - 1] == c);
                } else {
                    assert(d[k] == c);
                }
                assert(!all_digits(d));
            }
            return None;
        }
        start = false;
        proof {
            seen = seen + 1;
        }
    }
    proof {
        assert(s@.take(seen) =~= s@);
    }
    if !any || over {
        None
    } else {
        Some(acc as u16)
    }
}

fn parse_octet(s: &str) -> (r: Option<u8>)
    ensures
        r == octet_of(s@),
{
    match parse_decimal(s, 3) {
        Some(v) if v <= 255 => Some(v as u8),
        _ => None,
    }
}

fn parse_ipv4(s: &str) -> (r: Option<Ipv4Addr>)
    ensures
        r == ipv4_of(s@),
{
    let (f0, r0) = match split_once_char(s, '.') {
        Some(p) => p,
        None => {
            proof { lemma_split_first_absent(s@, '.'); }
            return None;
        },
    };
    proof { lemma_split_first_found(s@, '.', f0@, r0@); }
    let (f1, r1) = match split_once_char(r0, '.') {
        Some(p) => p,
        None => {
            proof { lemma_split_first_absent(r0@, '.'); }
            return None;
        },
    };
    proof { lemma_split_first_found(r0@, '.', f1@, r1@); }
    let (f2, f3) = match split_once_char(r1, '.') {
        Some(p) => p,
        None => {
            proof { lemma_split_first_absent(r1@, '.'); }
            return None;
        },
    };
    proof { lemma_split_first_found(r1@, '.', f2@, f3@); }
    match (parse_octet(f0), parse_octet(f1), parse_octet(f2), parse_octet(f3)) {
        (Some(a), Some(b), Some(c), Some(d)) => Some(Ipv4Addr(a, b, c, d)),
        _ => None,
    }
}

// ---------------------------------------------------------------------------
// Lemmas
// ---------------------------------------------------------------------------

pub proof fn lemma_split_first_absent(s: Seq<char>, c: char)
    requires
        !s.contains(c),
    ensures
        split_first(s, c) is None,
    decreases s.len(),
{
    if s.len() > 0 {
        assert(s[0] != c);
        assert forall|i: int| 0 <= i < s.drop_first().len() implies s.drop_first()[i] != c by {
            assert(s.drop_first()[i] == s[i + 1]);
        }
        lemma_split_first_absent(s.drop_first(), c);
    }
}

pub proof fn lemma_split_first_found(s: Seq<char>, c: char, a: Seq<char>, b: Seq<char>)
    requires
        s == a + seq![c] + b,
        !a.contains(c),
    ensures
        split_first(s, c) == Some((a, b)),
    decreases a.len(),
{
    if a.len() == 0 {
        assert(s[0] == c);
        assert(s.drop_first() =~= b);
    } else {
        assert(s[0] == a[0]);
        assert(a[0] != c);
        let a2 = a.drop_first();
        assert(s.drop_first() =~= a2 + seq![c] + b);
        assert forall|i: int| 0 <= i < a2.len() implies a2[i] != c by {
            assert(a2[i] == a[i + 1]);
        }
        lemma_split_first_found(s.drop_first(), c, a2, b);
        assert(seq![s[0]] + a2 =~= a);
    }
}

proof fn lemma_digit_char(d: nat)
    requires
        d < 10,
    ensures
        is_digit(digit_char(d)),
        digit_value(digit_char(d)) == d,
        digit_char(d) == '0' <==> d == 0,
{
}

/// Facts on the shortest decimal text of `n`.
pub proof fn lemma_decimal_text(n: nat)
    ensures
        decimal_text(n).len() >= 1,
        all_digits(decimal_text(n)),
        decimal_value(decimal_text(n)) == n,
        n > 0 ==> decimal_text(n)[0] != '0',
        forall|k: nat| 1 <= k && n < pow10(k) ==> decimal_text(n).len() <= k,
    decreases n,
{
    if n < 10 {
        lemma_digit_char(n);
        let t = decimal_text(n);
        assert(t.drop_last() =~= Seq::<char>::empty());
        assert(decimal_value(t) == decimal_value(t.drop_last()) * 10 + digit_value(t.last()));
        assert(decimal_value(Seq::<char>::empty()) == 0);
        assert forall|k: nat| 1 <= k && n < pow10(k) implies decimal_text(n).len() <= k by {}
    } else {
        lemma_decimal_text(n / 10);
        lemma_digit_char(n % 10);
        let p = decimal_text(n / 10);
        let t = decimal_text(n);
        assert(t == p.push(digit_char(n % 10)));
        assert(t.drop_last() =~= p);
        assert(t[0] == p[0]);
        assert(n == (n / 10) * 10 + n % 10);
        assert(t.last() == digit_char(n % 10));
        assert(decimal_value(t) == decimal_value(p) * 10 + digit_value(digit_char(n % 10)));
        assert forall|i: int| 0 <= i < t.len() implies is_digit(#[trigger] t[i]) by {
            if i < p.len() {
                assert(t[i] == p[i]);
            }
        }
        assert forall|k: nat| 1 <= k && n < pow10(k) implies decimal_text(n).len() <= k by {
            assert(k >= 2) by {
                reveal_with_fuel(pow10, 2);
            }
            let k1 = (k - 1) as nat;
            assert(pow10(k) == 10 * pow10(k1));
            assert(n / 10 < pow10(k1)) by (nonlinear_arith)
                requires
                    n < 10 * pow10(k1),
            {}
        }
    }
}

proof fn lemma_digits_exclude(s: Seq<char>, c: char)
    requires
        all_digits(s),
        !is_digit(c),
    ensures
        !s.contains(c),
{
    assert forall|i: int| 0 <= i < s.len() implies s[i] != c by {
        assert(is_digit(s[i]));
    }
}

proof fn lemma_octet_round_trip(o: u8)
    ensures
        octet_of(decimal_text(o as nat)) == Some(o),
        all_digits(decimal_text(o as nat)),
{
    lemma_decimal_text(o as nat);
    assert(pow10(3) == 1000) by {
        reveal_with_fuel(pow10, 4);
    }
}

/// Characters that may occur in the text of an address.
pub open spec fn address_char(c: char) -> bool {
    is_digit(c) || c == '.' || c == ':'
}

proof fn lemma_ipv4_round_trip(ip: Ipv4Addr)
    ensures
        ipv4_of(ipv4_text(ip)) == Some(ip),
        forall|i: int| 0 <= i < ipv4_text(ip).len() ==> is_digit(#[trigger] ipv4_text(ip)[i]) || ipv4_text(ip)[i] == '.',
{
    let d0 = decimal_text(ip.0 as nat);
    let d1 = decimal_text(ip.1 as nat);
    let d2 = decimal_text(ip.2 as nat);
    let d3 = decimal_text(ip.3 as nat);
    lemma_octet_round_trip(ip.0);
    lemma_octet_round_trip(ip.1);
    lemma_octet_round_trip(ip.2);
    lemma_octet_round_trip(ip.3);
    lemma_digits_exclude(d0, '.');
    lemma_digits_exclude(d1, '.');
    lemma_digits_exclude(d2, '.');
    let t = ipv4_text(ip);
    let r0 = d1 + seq!['.'] + d2 + seq!['.'] + d3;
    let r1 = d2 + seq!['.'] + d3;
    assert(t =~= d0 + seq!['.'] + r0);
    lemma_split_first_found(t, '.', d0, r0);
    assert(r0 =~= d1 + seq!['.'] + r1);
    lemma_split_first_found(r0, '.', d1, r1);
    lemma_split_first_found(r1, '.', d2, d3);
    assert forall|i: int| 0 <= i < t.len() implies is_digit(#[trigger] t[i]) || t[i] == '.' by {
        let a = d0.len() as int;
        let b = a + 1 + d1.len();
        let c = b + 1 + d2.len();
        if i < a {
            assert(t[i] == d0[i]);
        } else if i == a {
        } else if i < b {
            assert(t[i] == d1[i - a - 1]);
        } else if i == b {
        } else if i < c {
            assert(t[i] == d2[i - b - 1]);
        } else if i == c {
        } else {
            assert(t[i] == d3[i - c - 1]);
        }
    }
}

proof fn lemma_remote_addr_round_trip(a: RemotePeerAddr)
    requires
        a.wf(),
    ensures
        remote_addr_of(remote_addr_text(a)) == Ok::<RemotePeerAddr, RemotePeerAddrParseError>(a),
        forall|i: int| 0 <= i < remote_addr_text(a).len() ==> address_char(#[trigger] remote_addr_text(a)[i]),
{
    lemma_ipv4_round_trip(a.addr);
    let t = ipv4_text(a.addr);
    assert(!t.contains(':')) by {
        assert forall|i: int| 0 <= i < t.len() implies t[i] != ':' by {
            assert(is_digit(t[i]) || t[i] == '.');
        }
    }
    match a.port {
        None => {
            lemma_split_first_absent(t, ':');
        },
        Some(p) => {
            let d = decimal_text(p as nat);
            lemma_decimal_text(p as nat);
            lemma_split_first_found(t + seq![':'] + d, ':', t, d);
            assert(is_digit(d[0]));
            assert(port_digits(d) == d);
            assert(port_of(d) == Some(p));
            let u = remote_addr_text(a);
            assert forall|i: int| 0 <= i < u.len() implies address_char(#[trigger] u[i]) by {
                if i < t.len() {
                    assert(u[i] == t[i]);
                } else if i > t.len() {
                    assert(u[i] == d[i - t.len() - 1]);
                }
            }
        },
    }
}

/// Formatting a valid full name and parsing the text gives the name back.
pub proof fn lemma_full_name_round_trip(v: (RemotePeerAddr, Seq<char>))
    requires
        valid_full_name(v),
    ensures
        full_name_of(full_name_text(v.0, v.1)) == Ok::<(RemotePeerAddr, Seq<char>), FullShareNameParseError>(v),
{
    lemma_remote_addr_round_trip(v.0);
    let t = remote_addr_text(v.0);
    assert(!t.contains('/')) by {
        assert forall|i: int| 0 <= i < t.len() implies t[i] != '/' by {
            assert(address_char(t[i]));
        }
    }
    lemma_split_first_found(full_name_text(v.0, v.1), '/', t, v.1);
}

/// Parsing is stable under formatting: for every text `s` that parses as a
/// full name, the formatted result parses to the same value.
pub proof fn lemma_full_name_parse_format_parse(s: Seq<char>)
    requires
        full_name_of(s) is Ok,
    ensures
        full_name_of(full_name_text(full_name_of(s)->Ok_0.0, full_name_of(s)->Ok_0.1)) == full_name_of(s),
{
    let v = full_name_of(s)->Ok_0;
    let (a, n) = split_first(s, '/')->Some_0;
    assert(valid_full_name(v)) by {
        if split_first(a, ':') is Some {
            let p = split_first(a, ':')->Some_0.1;
            let port = port_of(p)->Some_0;
            assert(v.0.port == canonical_port(port));
        }
    }
    lemma_full_name_round_trip(v);
}

/// A valid common name that is not also a full name parses as a common
/// name, and its text is the name itself.
pub proof fn lemma_common_name_round_trip(c: Seq<char>)
    requires
        valid_common_name(c),
        full_name_of(c) is Err,
    ensures
        common_name_of(c) == Ok::<Seq<char>, CommonShareNameParseError>(c),
{
}

} // verus!
