use vstd::prelude::*;

verus! {

/// Why a value was refused by a validator.
#[derive(Debug, Clone, Copy, PartialEq, Eq)]
pub enum ValidationError {
    /// The named field is empty or not provided.
    EmptyValue(&'static str),
    /// The named field has an unexpected shape; the second value says why.
    InvalidFormat(&'static str, &'static str),
}

/// A value that can check its own fields before any state is touched.
pub trait Validated {
    /// What `validate` returns, as a function of the value alone.
    spec fn validation(&self) -> Result<(), ValidationError>;

    /// Validates itself, resulting in a `ValidationError` whenever a validation rule fails.
    fn validate(&self) -> (r: Result<(), ValidationError>)
        ensures
            r == self.validation(),
    ;
}

pub const HOSTNAME_TOO_LONG: &'static str = "Hostname is longer than 253 characters";

pub const LABEL_LENGTH: &'static str = "A label is empty or longer than 63 characters";

pub const LABEL_CHARACTER: &'static str =
    "Invalid character in label or label starts/ends with a hyphen";

pub const INVALID_PORT: &'static str = "Invalid port number";

pub const PORT_FIELD: &'static str = "Port";

pub const INVALID_PORT_VALUE: &'static str = "Invalid Port number";

pub const INVALID_IP: &'static str = "Invalid IP address";

pub const INVALID_CIDR: &'static str = "Invalid IP network CIDR";

pub const INVALID_KEY_LENGTH: &'static str = "Invalid key length (32)";

pub const INVALID_BASE64: &'static str = "Invalid base64";

pub const INTERFACE_TOO_LONG: &'static str = "Invalid interface length (16 max)";

pub const INTERFACE_CHARACTER: &'static str = "Interface name contains invalid characters";

// ---------------------------------------------------------------------------
// Outside parsers, each named by what it decides.
/// Whether std's `IpAddr` parser accepts the text as an IPv4 or IPv6 address.
pub uninterp spec fn is_ip_address(s: Seq<char>) -> bool;

/// Whether ipnet's `IpNet` parser accepts the text as an IP network in CIDR notation.
pub uninterp spec fn is_ip_network(s: Seq<char>) -> bool;

/// The bytes that the standard base64 alphabet (with padding) decodes the text to,
/// or `None` where the text is not valid base64.
pub uninterp spec fn base64_decoded(s: Seq<char>) -> Option<Seq<u8>>;

/// Relies on `core::net::IpAddr`'s `FromStr`: whether the text parses as an address.
#[verifier::external_body]
pub(crate) fn parses_as_ip_address(s: &str) -> (r: bool)
    ensures
        r == is_ip_address(s@),
{
    s.parse::<core::net::IpAddr>().is_ok()
}

/// Relies on `ipnet::IpNet`'s `FromStr`: whether the text parses as an IP network.
#[verifier::external_body]
fn parses_as_ip_network(s: &str) -> (r: bool)
    ensures
        r == is_ip_network(s@),
{
    s.parse::<ipnet::IpNet>().is_ok()
}

/// Relies on `base64::Engine::decode` with the `STANDARD` engine: the decoded bytes, if any.
#[verifier::external_body]
pub(crate) fn base64_decode(s: &str) -> (r: Option<Vec<u8>>)
    ensures
        r is Some == base64_decoded(s@) is Some,
        r is Some ==> r->0@ == base64_decoded(s@)->0,
{
    base64::Engine::decode(&base64::engine::general_purpose::STANDARD, s).ok()
}

// ---------------------------------------------------------------------------
// Characters and decimal numbers.
pub open spec fn is_ascii_alnum(c: char) -> bool {
    ('a' <= c && c <= 'z') || ('A' <= c && c <= 'Z') || ('0' <= c && c <= '9')
}

pub open spec fn is_label_char(c: char) -> bool {
    is_ascii_alnum(c) || c == '-'
}

pub open spec fn is_interface_char(c: char) -> bool {
    is_ascii_alnum(c) || c == '_'
}

pub open spec fn is_digit(c: char) -> bool {
    '0' <= c && c <= '9'
}

pub open spec fn digit_value(c: char) -> int {
    c as int - '0' as int
}

/// The value of a sequence of decimal digits, most significant first.
pub open spec fn digits_value(d: Seq<char>) -> int
    decreases d.len(),
{
    if d.len() == 0 {
        0
    } else {
        digits_value(d.drop_last()) * 10 + digit_value(d.last())
    }
}

/// The digits of an unsigned decimal, after an optional leading `+`.
pub open spec fn unsigned_digits(p: Seq<char>) -> Seq<char> {
    if p.len() > 0 && p[0] == '+' {
        p.drop_first()
    } else {
        p
    }
}

/// Whether the text is an unsigned decimal of at most `max`, as std's integer parsing reads it.
pub open spec fn is_decimal_at_most(p: Seq<char>, max: int) -> bool {
    let d = unsigned_digits(p);
    &&& d.len() > 0
    &&& forall|i: int| 0 <= i < d.len() ==> is_digit(#[trigger] d[i])
    &&& digits_value(d) <= max
}

pub open spec fn decimal_value(p: Seq<char>) -> int {
    digits_value(unsigned_digits(p))
}

/// A port: a decimal from 1 to 65535.
pub open spec fn is_port(p: Seq<char>) -> bool {
    is_decimal_at_most(p, 65535) && decimal_value(p) != 0
}

// ---------------------------------------------------------------------------
// Splitting text.
/// Index of the last `c` in `s`, or -1.
pub open spec fn last_index_of(s: Seq<char>, c: char) -> int
    decreases s.len(),
{
    if s.len() == 0 {
        -1
    } else if s.last() == c {
        s.len() - 1
    } else {
        last_index_of(s.drop_last(), c)
    }
}

/// Index of the first `c` in `s`, or -1.
pub open spec fn first_index_of(s: Seq<char>, c: char) -> int
    decreases s.len(),
{
    if s.len() == 0 {
        -1
    } else if s[0] == c {
        0
    } else if first_index_of(s.drop_first(), c) < 0 {
        -1
    } else {
        first_index_of(s.drop_first(), c) + 1
    }
}

/// What comes before the last `:`, or the whole text where it holds none.
pub open spec fn host_part(s: Seq<char>) -> Seq<char> {
    if last_index_of(s, ':') >= 0 {
        s.take(last_index_of(s, ':'))
    } else {
        s
    }
}

/// What comes after the last `:`, where there is one.
pub open spec fn port_part(s: Seq<char>) -> Option<Seq<char>> {
    if last_index_of(s, ':') >= 0 {
        Some(s.skip(last_index_of(s, ':') + 1))
    } else {
        None
    }
}

/// The `.`-separated labels of a hostname, in order.
pub open spec fn split_labels(s: Seq<char>) -> Seq<Seq<char>>
    decreases s.len(),
{
    let k = first_index_of(s, '.');
    if 0 <= k < s.len() {
        seq![s.take(k)] + split_labels(s.skip(k + 1))
    } else {
        seq![s]
    }
}

// ---------------------------------------------------------------------------
// What each validator returns.
pub open spec fn label_check(name: &'static str, l: Seq<char>) -> Result<(), ValidationError> {
    if l.len() == 0 || l.len() > 63 {
        Err(ValidationError::InvalidFormat(name, LABEL_LENGTH))
    } else if !(forall|i: int| 0 <= i < l.len() ==> is_label_char(#[trigger] l[i])) || l[0] == '-'
        || l.last() == '-' {
        Err(ValidationError::InvalidFormat(name, LABEL_CHARACTER))
    } else {
        Ok(())
    }
}

/// The verdict on the first label that fails, or `Ok`.
pub open spec fn labels_check(name: &'static str, ls: Seq<Seq<char>>) -> Result<
    (),
    ValidationError,
>
    decreases ls.len(),
{
    if ls.len() == 0 {
        Ok(())
    } else if label_check(name, ls[0]) is Err {
        label_check(name, ls[0])
    } else {
        labels_check(name, ls.drop_first())
    }
}

pub open spec fn hostname_check(name: &'static str, s: Seq<char>) -> Result<(), ValidationError> {
    let host = host_part(s);
    if host.len() > 253 {
        Err(ValidationError::InvalidFormat(name, HOSTNAME_TOO_LONG))
    } else if labels_check(name, split_labels(host)) is Err {
        labels_check(name, split_labels(host))
    } else if port_part(s) is Some && !is_port(port_part(s)->0) {
        Err(ValidationError::InvalidFormat(name, INVALID_PORT))
    } else {
        Ok(())
    }
}

pub open spec fn port_check(p: Seq<char>) -> Result<(), ValidationError> {
    if is_port(p) {
        Ok(())
    } else {
        Err(ValidationError::InvalidFormat(PORT_FIELD, INVALID_PORT_VALUE))
    }
}

pub open spec fn ip_check(name: &'static str, s: Seq<char>) -> Result<(), ValidationError> {
    if is_ip_address(s) {
        Ok(())
    } else if !is_ip_address(host_part(s)) {
        Err(ValidationError::InvalidFormat(name, INVALID_IP))
    } else if port_part(s) is Some && !is_port(port_part(s)->0) {
        Err(ValidationError::InvalidFormat(name, INVALID_PORT))
    } else {
        Ok(())
    }
}

pub open spec fn hostname_or_ip_check(name: &'static str, s: Seq<char>) -> Result<
    (),
    ValidationError,
> {
    if s.len() == 0 {
        Err(ValidationError::EmptyValue(name))
    } else if hostname_check(name, s) is Err && ip_check(name, s) is Err {
        hostname_check(name, s)
    } else {
        Ok(())
    }
}

pub open spec fn cidr_check(name: &'static str, s: Seq<char>) -> Result<(), ValidationError> {
    if s.len() == 0 {
        Err(ValidationError::EmptyValue(name))
    } else if !is_ip_network(s) {
        Err(ValidationError::InvalidFormat(name, INVALID_CIDR))
    } else {
        Ok(())
    }
}

pub open spec fn wg_key_check(name: &'static str, s: Seq<char>) -> Result<(), ValidationError> {
    if s.len() == 0 {
        Err(ValidationError::EmptyValue(name))
    } else if base64_decoded(s) is None {
        Err(ValidationError::InvalidFormat(name, INVALID_BASE64))
    } else if base64_decoded(s)->0.len() != 32 {
        Err(ValidationError::InvalidFormat(name, INVALID_KEY_LENGTH))
    } else {
        Ok(())
    }
}

pub open spec fn interface_name_check(name: &'static str, s: Seq<char>) -> Result<
    (),
    ValidationError,
> {
    if s.len() == 0 {
        Err(ValidationError::EmptyValue(name))
    } else if s.len() > 15 {
        Err(ValidationError::InvalidFormat(name, INTERFACE_TOO_LONG))
    } else if !(forall|i: int| 0 <= i < s.len() ==> is_interface_char(#[trigger] s[i])) {
        Err(ValidationError::InvalidFormat(name, INTERFACE_CHARACTER))
    } else {
        Ok(())
    }
}

// ---------------------------------------------------------------------------
// Lemmas.
pub(crate) proof fn lemma_last_index_step(s: Seq<char>, i: int, c: char)
    requires
        0 < i <= s.len(),
    ensures
        last_index_of(s.take(i), c) == if s[i - 1] == c {
            i - 1
        } else {
            last_index_of(s.take(i - 1), c)
        },
{
    assert(s.take(i).drop_last() =~= s.take(i - 1));
}

pub(crate) proof fn lemma_last_index_bounds(s: Seq<char>, c: char)
    ensures
        -1 <= last_index_of(s, c) < s.len(),
        last_index_of(s, c) >= 0 ==> s[last_index_of(s, c)] == c,
    decreases s.len(),
{
    if s.len() > 0 && s.last() != c {
        lemma_last_index_bounds(s.drop_last(), c);
    }
}

/// Where `s` holds no `c` before `m` and `c` at `m`, its first `c` is at `m`;
/// where it holds no `c` at all, there is none.
pub(crate) proof fn lemma_first_index(s: Seq<char>, c: char, m: int)
    requires
        0 <= m <= s.len(),
        forall|j: int| 0 <= j < m ==> s[j] != c,
    ensures
        m < s.len() && s[m] == c ==> first_index_of(s, c) == m,
        m == s.len() ==> first_index_of(s, c) == -1,
    decreases m,
{
    if m > 0 {
        lemma_first_index(s.drop_first(), c, m - 1);
    }
}

pub(crate) proof fn lemma_digits_nonneg(d: Seq<char>)
    requires
        forall|i: int| 0 <= i < d.len() ==> is_digit(#[trigger] d[i]),
    ensures
        digits_value(d) >= 0,
    decreases d.len(),
{
    if d.len() > 0 {
        lemma_digits_nonneg(d.drop_last());
    }
}

// ---------------------------------------------------------------------------
// Executable checks.
/// The characters of `s`, one per element.
pub fn chars_of(s: &str) -> (r: Vec<char>)
    ensures
        r@ == s@,
{
    let n = s.unicode_len();
    let mut v: Vec<char> = Vec::new();
    let mut i: usize = 0;
    while i < n
        invariant
            i <= n,
            n == s@.len(),
            v@ == s@.take(i as int),
        decreases n - i,
    {
        v.push(s.get_char(i));
        i += 1;
        assert(v@ =~= s@.take(i as int));
    }
    assert(v@ =~= s@);
    v
}

/// Index of the last `:` in `v`, or `None`.
pub(crate) fn last_colon(v: &Vec<char>) -> (r: Option<usize>)
    ensures
        r is Some <==> last_index_of(v@, ':') >= 0,
        r is Some ==> r->0 == last_index_of(v@, ':'),
{
    let mut i: usize = v.len();
    assert(v@.take(i as int) =~= v@);
    while i > 0
        invariant
            i <= v.len(),
            last_index_of(v@, ':') == last_index_of(v@.take(i as int), ':'),
        decreases i,
    {
        proof {
            lemma_last_index_step(v@, i as int, ':');
        }
        if v[i - 1] == ':' {
            return Some(i - 1);
        }
        i -= 1;
    }
    None
}

/// Parses `v[lo..hi]` as an unsigned decimal of at most `max`, as std's integer parsing does.
pub(crate) fn parse_decimal(v: &Vec<char>, lo: usize, hi: usize, max: u64) -> (r: Option<u64>)
    requires
        lo <= hi <= v.len(),
        max <= u32::MAX,
    ensures
        r is Some <==> is_decimal_at_most(v@.subrange(lo as int, hi as int), max as int),
        r is Some ==> r->0 == decimal_value(v@.subrange(lo as int, hi as int)),
{
    let ghost p = v@.subrange(lo as int, hi as int);
    let mut start = lo;
    if lo < hi && v[lo] == '+' {
        start = lo + 1;
    }
    let ghost d = unsigned_digits(p);
    assert(d =~= v@.subrange(start as int, hi as int));
    if start == hi {
        assert(d.len() == 0);
        return None;
    }
    let mut acc: u64 = 0;
    let mut i: usize = start;
    while i < hi
        invariant
            start <= i <= hi <= v.len(),
            max <= u32::MAX,
            d == v@.subrange(start as int, hi as int),
            p == v@.subrange(lo as int, hi as int),
            d == unsigned_digits(p),
            forall|j: int| 0 <= j < i - start ==> is_digit(#[trigger] d[j]),
            digits_value(d.take(i - start)) <= max ==> acc == digits_value(d.take(i - start)),
            digits_value(d.take(i - start)) > max ==> acc > max,
            acc <= max * 10 + 9,
        decreases hi - i,
    {
        let c = v[i];
        if !('0' <= c && c <= '9') {
            assert(!is_digit(d[i - start]));
            assert(!(forall|j: int| 0 <= j < d.len() ==> is_digit(#[trigger] d[j])));
            return None;
        }
        let ghost k = i - start;
        let dv = (c as u64) - ('0' as u64);
        proof {
            assert(d.take(k + 1).drop_last() =~= d.take(k));
            assert(forall|j: int| 0 <= j < d.take(k).len() ==> is_digit(#[trigger] d.take(k)[j]));
            lemma_digits_nonneg(d.take(k));
            assert(digits_value(d.take(k + 1)) == digits_value(d.take(k)) * 10 + dv);
            assert(digits_value(d.take(k)) * 10 >= digits_value(d.take(k))) by (nonlinear_arith)
                requires
                    digits_value(d.take(k)) >= 0,
            ;
        }
        if acc <= max {
            proof {
                assert(acc * 10 + dv <= max * 10 + 9) by (nonlinear_arith)
                    requires
                        acc <= max,
                        dv <= 9,
                ;
            }
            acc = acc * 10 + dv;
        }
        i += 1;
    }
    assert(d.take(hi - start) =~= d);
    if acc <= max {
        Some(acc)
    } else {
        None
    }
}

/// Checks the label `v[lo..hi]`.
fn check_label(name: &'static str, v: &Vec<char>, lo: usize, hi: usize) -> (r: Result<
    (),
    ValidationError,
>)
    requires
        lo <= hi <= v.len(),
    ensures
        r == label_check(name, v@.subrange(lo as int, hi as int)),
{
    let ghost l = v@.subrange(lo as int, hi as int);
    if hi - lo == 0 || hi - lo > 63 {
        return Err(ValidationError::InvalidFormat(name, LABEL_LENGTH));
    }
    let mut j: usize = lo;
    while j < hi
        invariant
            lo <= j <= hi <= v.len(),
            1 <= hi - lo <= 63,
            l == v@.subrange(lo as int, hi as int),
            forall|k: int| 0 <= k < j - lo ==> is_label_char(#[trigger] l[k]),
        decreases hi - j,
    {
        let c = v[j];
        if !(('a' <= c && c <= 'z') || ('A' <= c && c <= 'Z') || ('0' <= c && c <= '9') || c
            == '-') {
            assert(!is_label_char(l[j - lo]));
            assert(!(forall|k: int| 0 <= k < l.len() ==> is_label_char(#[trigger] l[k])));
            return Err(ValidationError::InvalidFormat(name, LABEL_CHARACTER));
        }
        j += 1;
    }
    if v[lo] == '-' || v[hi - 1] == '-' {
        return Err(ValidationError::InvalidFormat(name, LABEL_CHARACTER));
    }
    Ok(())
}

/// Checks every `.`-separated label of `v[0..hi]`, reporting the first that fails.
fn check_labels(name: &'static str, v: &Vec<char>, hi: usize) -> (r: Result<(), ValidationError>)
    requires
        hi <= v.len(),
    ensures
        r == labels_check(name, split_labels(v@.take(hi as int))),
{
    let ghost host = v@.take(hi as int);
    let mut start: usize = 0;
    let mut i: usize = 0;
    assert(host.skip(0) =~= host);
    while i < hi
        invariant
            start <= i <= hi <= v.len(),
            host == v@.take(hi as int),
            labels_check(name, split_labels(host)) == labels_check(
                name,
                split_labels(host.skip(start as int)),
            ),
            forall|j: int| start <= j < i ==> host[j] != '.',
        decreases hi - i,
    {
        if v[i] == '.' {
            let ghost rest = host.skip(start as int);
            proof {
                lemma_first_index(rest, '.', i - start);
                assert(rest.take(i - start) =~= v@.subrange(start as int, i as int));
                assert(rest.skip(i - start + 1) =~= host.skip(i + 1));
                assert(split_labels(rest)[0] == rest.take(i - start));
                assert(split_labels(rest).drop_first() =~= split_labels(host.skip(i + 1)));
            }
            let c = check_label(name, v, start, i);
            if c.is_err() {
                return c;
            }
            start = i + 1;
        }
        i += 1;
    }
    let ghost rest = host.skip(start as int);
    proof {
        lemma_first_index(rest, '.', rest.len() as int);
        assert(rest =~= v@.subrange(start as int, hi as int));
        assert(split_labels(rest) == seq![rest]);
        assert(split_labels(rest).drop_first() =~= Seq::<Seq<char>>::empty());
        assert(labels_check(name, Seq::<Seq<char>>::empty()) == Ok::<(), ValidationError>(()));
    }
    check_label(name, v, start, hi)
}

/// Checks that the text is a port number from 1 to 65535.
pub fn validate_port(port_str: &str) -> (r: Result<(), ValidationError>)
    ensures
        r == port_check(port_str@),
{
    let v = chars_of(port_str);
    assert(v@.subrange(0, v@.len() as int) =~= v@);
    match parse_decimal(&v, 0, v.len(), 65535) {
        Some(port) => {
            if port == 0 {
                Err(ValidationError::InvalidFormat(PORT_FIELD, INVALID_PORT_VALUE))
            } else {
                Ok(())
            }
        },
        None => Err(ValidationError::InvalidFormat(PORT_FIELD, INVALID_PORT_VALUE)),
    }
}

/// Whether the text after the last `:` of `v`, at `k`, is a port.
fn port_after(v: &Vec<char>, k: usize) -> (r: bool)
    requires
        k < v.len(),
    ensures
        r == is_port(v@.skip(k + 1)),
{
    assert(v@.subrange(k + 1, v@.len() as int) =~= v@.skip(k + 1));
    match parse_decimal(v, k + 1, v.len(), 65535) {
        Some(port) => port != 0,
        None => false,
    }
}

/// Checks a hostname (labels of `[A-Za-z0-9-]`), with an optional trailing `:port`.
pub fn validate_hostname(name: &'static str, hostname: &str) -> (r: Result<(), ValidationError>)
    ensures
        r == hostname_check(name, hostname@),
{
    let v = chars_of(hostname);
    let colon = last_colon(&v);
    proof {
        lemma_last_index_bounds(v@, ':');
    }
    let host_len = match colon {
        Some(k) => k,
        None => v.len(),
    };
    assert(host_part(v@) =~= v@.take(host_len as int));
    if host_len > 253 {
        return Err(ValidationError::InvalidFormat(name, HOSTNAME_TOO_LONG));
    }
    let labels = check_labels(name, &v, host_len);
    if labels.is_err() {
        return labels;
    }
    match colon {
        Some(k) => {
            if !port_after(&v, k) {
                return Err(ValidationError::InvalidFormat(name, INVALID_PORT));
            }
        },
        None => {},
    }
    Ok(())
}

/// Checks an IPv4 or IPv6 address, with an optional trailing `:port` where the whole text is
/// not an address itself.
pub fn validate_ip(name: &'static str, ip: &str) -> (r: Result<(), ValidationError>)
    ensures
        r == ip_check(name, ip@),
{
    if parses_as_ip_address(ip) {
        return Ok(());
    }
    let v = chars_of(ip);
    let colon = last_colon(&v);
    proof {
        lemma_last_index_bounds(v@, ':');
    }
    let n = ip.unicode_len();
    let host = match colon {
        Some(k) => ip.substring_char(0, k),
        None => ip.substring_char(0, n),
    };
    assert(host@ =~= host_part(ip@));
    if !parses_as_ip_address(host) {
        return Err(ValidationError::InvalidFormat(name, INVALID_IP));
    }
    match colon {
        Some(k) => {
            if !port_after(&v, k) {
                return Err(ValidationError::InvalidFormat(name, INVALID_PORT));
            }
        },
        None => {},
    }
    Ok(())
}

/// Checks a value that must be a hostname or an IP address, each with an optional port.
pub fn validate_hostname_or_ip(name: &'static str, hostname_or_ip: &str) -> (r: Result<
    (),
    ValidationError,
>)
    ensures
        r == hostname_or_ip_check(name, hostname_or_ip@),
{
    if hostname_or_ip.is_empty() {
        return Err(ValidationError::EmptyValue(name));
    }
    let hostname_result = validate_hostname(name, hostname_or_ip);
    let ip_result = validate_ip(name, hostname_or_ip);
    if hostname_result.is_err() && ip_result.is_err() {
        return hostname_result;
    }
    Ok(())
}

/// Checks an IP network in CIDR notation.
pub fn validate_cidr(name: &'static str, address: &str) -> (r: Result<(), ValidationError>)
    ensures
        r == cidr_check(name, address@),
{
    if address.is_empty() {
        return Err(ValidationError::EmptyValue(name));
    }
    if !parses_as_ip_network(address) {
        return Err(ValidationError::InvalidFormat(name, INVALID_CIDR));
    }
    Ok(())
}

/// Checks a WireGuard key: base64 of exactly 32 bytes.
pub fn validate_wg_key(name: &'static str, key: &str) -> (r: Result<(), ValidationError>)
    ensures
        r == wg_key_check(name, key@),
{
    if key.is_empty() {
        return Err(ValidationError::EmptyValue(name));
    }
    match base64_decode(key) {
        Some(decoded) => {
            if decoded.len() == 32 {
                Ok(())
            } else {
                Err(ValidationError::InvalidFormat(name, INVALID_KEY_LENGTH))
            }
        },
        None => Err(ValidationError::InvalidFormat(name, INVALID_BASE64)),
    }
}

/// Checks a network interface name: 1 to 15 characters of `[A-Za-z0-9_]`.
pub fn validate_interface_name(name: &'static str, interface: &str) -> (r: Result<
    (),
    ValidationError,
>)
    ensures
        r == interface_name_check(name, interface@),
{
    if interface.is_empty() {
        return Err(ValidationError::EmptyValue(name));
    }
    let v = chars_of(interface);
    if v.len() > 15 {
        return Err(ValidationError::InvalidFormat(name, INTERFACE_TOO_LONG));
    }
    let mut i: usize = 0;
    while i < v.len()
        invariant
            i <= v.len(),
            1 <= v.len() <= 15,
            v@ == interface@,
            forall|k: int| 0 <= k < i ==> is_interface_char(#[trigger] v@[k]),
        decreases v.len() - i,
    {
        let c = v[i];
        if !(('a' <= c && c <= 'z') || ('A' <= c && c <= 'Z') || ('0' <= c && c <= '9') || c
            == '_') {
            assert(!is_interface_char(interface@[i as int]));
            assert(!(forall|k: int|
                0 <= k < interface@.len() ==> is_interface_char(#[trigger] interface@[k])));
            return Err(ValidationError::InvalidFormat(name, INTERFACE_CHARACTER));
        }
        i += 1;
    }
    Ok(())
}

} // verus!
