use vstd::prelude::*;

use crate::peer_pair::{seq_lt, str_lt, PeerPair};
use crate::state::{find_node, has_node, is_canonical, unique_hostnames, unique_pairs, LeaseView, LighthouseState, NodeLease, PresharedKey};
use crate::text::{decimal, digit_char, push_char, push_decimal};
use crate::timestamp::{lemma_parse_time_line, lemma_rfc3339_round_trip, parse_time_line, push_rfc3339, rfc3339, time_line_at, MAX_TIMESTAMP};
use crate::validation::{chars_of, digit_value, digits_value, first_index_of, is_digit, lemma_first_index};

verus! {

// ---------------------------------------------------------------------------
// The persisted document, a TOML file:
//
//     last_modified = 2023-11-14T22:13:20Z
//
//     [nodes."alpha"]
//     endpoint = "10.0.0.1"
//     ...
//
//     [[preshared_keys]]
//     peers = ["alpha", "bravo"]
//     key = "..."
/// What a snapshot holds: the time of the last change, the leases, the keys by pair.
pub struct StateData {
    pub last_modified: u64,
    pub nodes: Seq<LeaseView>,
    pub keys: Seq<((Seq<char>, Seq<char>), Seq<char>)>,
}

pub open spec fn is_control(c: char) -> bool {
    (c as u32) < 32 || (c as u32) == 127
}

pub open spec fn hex_upper(n: nat) -> char {
    seq!['0', '1', '2', '3', '4', '5', '6', '7', '8', '9', 'A', 'B', 'C', 'D', 'E', 'F'][n as int]
}

/// The value of an uppercase hexadecimal digit.
pub open spec fn hex_value(c: char) -> Option<nat> {
    if '0' <= c && c <= '9' {
        Some((c as u32 - '0' as u32) as nat)
    } else if 'A' <= c && c <= 'F' {
        Some((c as u32 - 'A' as u32 + 10) as nat)
    } else {
        None
    }
}

/// A character inside a TOML basic string: `"` and `\` escaped, control characters as `\u00XX`.
pub open spec fn escape_char(c: char) -> Seq<char> {
    if c == '"' {
        seq!['\\', '"']
    } else if c == '\\' {
        seq!['\\', '\\']
    } else if is_control(c) {
        seq!['\\', 'u', '0', '0', hex_upper((c as u32 / 16) as nat), hex_upper((c as u32 % 16) as nat)]
    } else {
        seq![c]
    }
}

pub open spec fn escape(s: Seq<char>) -> Seq<char>
    decreases s.len(),
{
    if s.len() == 0 {
        seq![]
    } else {
        escape_char(s[0]) + escape(s.drop_first())
    }
}

/// A TOML basic string.
pub open spec fn quoted(s: Seq<char>) -> Seq<char> {
    seq!['"'] + escape(s) + seq!['"']
}

/// Reads the inside of a basic string up to its closing quote: the text and how many
/// characters were read, the quote included.
pub open spec fn string_body(t: Seq<char>) -> Option<(Seq<char>, int)>
    decreases t.len(),
{
    if t.len() == 0 {
        None
    } else if t[0] == '"' {
        Some((seq![], 1))
    } else if t[0] == '\\' {
        if t.len() >= 2 && (t[1] == '"' || t[1] == '\\') {
            match string_body(t.skip(2)) {
                Some((v, n)) => Some((seq![t[1]] + v, n + 2)),
                None => None,
            }
        } else if t.len() >= 6 && t[1] == 'u' && t[2] == '0' && t[3] == '0' && hex_value(t[4]) is Some
            && hex_value(t[5]) is Some && is_control(
            ((hex_value(t[4])->0 * 16 + hex_value(t[5])->0) as u8) as char,
        ) && hex_value(t[4])->0 * 16 + hex_value(t[5])->0 < 128 {
            match string_body(t.skip(6)) {
                Some((v, n)) => Some(
                    (
                        seq![((hex_value(t[4])->0 * 16 + hex_value(t[5])->0) as u8) as char] + v,
                        n + 6,
                    ),
                ),
                None => None,
            }
        } else {
            None
        }
    } else if is_control(t[0]) {
        None
    } else {
        match string_body(t.skip(1)) {
            Some((v, n)) => Some((seq![t[0]] + v, n + 1)),
            None => None,
        }
    }
}

// ---------------------------------------------------------------------------
// Reading at a position.
/// The position after `lit` where the text holds it at `p`.
pub open spec fn expect(t: Seq<char>, p: int, lit: Seq<char>) -> Option<int> {
    if 0 <= p && p + lit.len() <= t.len() && t.subrange(p, p + lit.len()) == lit {
        Some(p + lit.len())
    } else {
        None
    }
}

pub open spec fn parse_quoted(t: Seq<char>, p: int) -> Option<(Seq<char>, int)> {
    if 0 <= p < t.len() && t[p] == '"' {
        match string_body(t.skip(p + 1)) {
            Some((v, n)) => Some((v, p + 1 + n)),
            None => None,
        }
    } else {
        None
    }
}

/// A decimal of at most `max` ending with a newline.
pub open spec fn parse_number_line(t: Seq<char>, p: int, max: nat) -> Option<(nat, int)> {
    if 0 <= p <= t.len() {
        let k = first_index_of(t.skip(p), '\n');
        let d = t.subrange(p, p + k);
        if k >= 1 && (forall|i: int| 0 <= i < d.len() ==> is_digit(#[trigger] d[i]))
            && digits_value(d) <= max {
            Some((digits_value(d) as nat, p + k + 1))
        } else {
            None
        }
    } else {
        None
    }
}

proof fn lemma_ascii_char(c: char)
    requires
        (c as u32) < 128,
    ensures
        (((c as u32) as u8) as char) == c,
{
}

/// A string reads back from its escaped form followed by the closing quote.
pub proof fn lemma_string_body(s: Seq<char>, rest: Seq<char>)
    ensures
        string_body(escape(s) + seq!['"'] + rest) == Some((s, escape(s).len() + 1 as int)),
    decreases s.len(),
{
    let t = escape(s) + seq!['"'] + rest;
    if s.len() == 0 {
        assert(escape(s) =~= Seq::<char>::empty());
        assert(t[0] == '"');
    } else {
        let c = s[0];
        let d = s.drop_first();
        lemma_string_body(d, rest);
        let tail = escape(d) + seq!['"'] + rest;
        let e = escape_char(c);
        assert(t =~= e + tail);
        assert(s =~= seq![c] + d);
        if c == '"' || c == '\\' {
            assert(t.skip(2) =~= tail);
        } else if is_control(c) {
            let code = c as u32;
            assert(code < 128);
            assert(hex_value(hex_upper((code / 16) as nat)) == Some((code / 16) as nat));
            assert(hex_value(hex_upper((code % 16) as nat)) == Some((code % 16) as nat));
            assert((code / 16) as nat * 16 + (code % 16) as nat == code);
            lemma_ascii_char(c);
            assert(t.skip(6) =~= tail);
        } else {
            assert(t.skip(1) =~= tail);
        }
    }
}

/// A quoted string at `p` reads back.
pub proof fn lemma_parse_quoted(t: Seq<char>, p: int, s: Seq<char>)
    requires
        0 <= p,
        p + quoted(s).len() <= t.len(),
        t.subrange(p, p + quoted(s).len()) == quoted(s),
    ensures
        parse_quoted(t, p) == Some((s, p + quoted(s).len() as int)),
{
    let q = quoted(s);
    assert(t[p] == q[0]);
    lemma_string_body(s, t.skip(p + q.len()));
    assert(t.skip(p + 1) =~= escape(s) + seq!['"'] + t.skip(p + q.len())) by {
        assert forall|i: int| 0 <= i < t.skip(p + 1).len() implies #[trigger] t.skip(p + 1)[i] == (escape(s)
            + seq!['"'] + t.skip(p + q.len()))[i] by {
            if i < escape(s).len() + 1 {
                assert(t[p + 1 + i] == t.subrange(p, p + q.len())[1 + i]);
            }
        }
    }
}

/// The digits of a decimal are digits and read back as the number.
pub proof fn lemma_decimal_digits(n: nat)
    ensures
        decimal(n).len() >= 1,
        forall|i: int| 0 <= i < decimal(n).len() ==> is_digit(#[trigger] decimal(n)[i]),
        digits_value(decimal(n)) == n,
    decreases n,
{
    let d = decimal(n);
    assert(digit_value(digit_char(n % 10)) == n % 10);
    assert(is_digit(digit_char(n % 10)));
    if n >= 10 {
        lemma_decimal_digits(n / 10);
        assert(d.drop_last() =~= decimal(n / 10));
        assert(d.last() == digit_char(n % 10));
        assert((n / 10) * 10 + n % 10 == n);
        assert(digits_value(d) == digits_value(d.drop_last()) * 10 + digit_value(d.last()));
        assert(digits_value(d.drop_last()) == n / 10);
        assert forall|i: int| 0 <= i < d.len() implies is_digit(#[trigger] d[i]) by {
            if i < d.len() - 1 {
                assert(d[i] == decimal(n / 10)[i]);
            }
        }
    } else {
        assert(n % 10 == n);
        assert(d.drop_last() =~= Seq::<char>::empty());
        assert(digits_value(d) == digits_value(d.drop_last()) * 10 + digit_value(d.last()));
    }
}

/// A decimal followed by a newline at `p` reads back.
pub proof fn lemma_parse_number_line(t: Seq<char>, p: int, n: nat, max: nat)
    requires
        0 <= p,
        n <= max,
        p + decimal(n).len() + 1 <= t.len(),
        t.subrange(p, p + decimal(n).len() + 1) == decimal(n) + seq!['\n'],
    ensures
        parse_number_line(t, p, max) == Some((n, p + decimal(n).len() as int + 1)),
{
    let d = decimal(n);
    lemma_decimal_digits(n);
    let u = t.skip(p);
    assert forall|j: int| 0 <= j < d.len() implies u[j] != '\n' by {
        assert(u[j] == t.subrange(p, p + d.len() + 1)[j]);
    }
    assert(u[d.len() as int] == t.subrange(p, p + d.len() + 1)[d.len() as int]);
    lemma_first_index(u, '\n', d.len() as int);
    assert(t.subrange(p, p + d.len()) =~= d);
}

// ---------------------------------------------------------------------------
// The document.
pub open spec fn bool_text(b: bool) -> Seq<char> {
    if b {
        "true"@
    } else {
        "false"@
    }
}

/// The items of a list of strings, separated by `, `.
pub open spec fn list_items(ss: Seq<Seq<char>>) -> Seq<char>
    decreases ss.len(),
{
    if ss.len() == 0 {
        seq![]
    } else if ss.len() == 1 {
        quoted(ss[0])
    } else {
        quoted(ss[0]) + (", "@ + list_items(ss.drop_first()))
    }
}

pub open spec fn number_line(n: nat) -> Seq<char> {
    decimal(n) + "\n"@
}

/// `lit` followed by a quoted string.
pub open spec fn field_text(lit: Seq<char>, v: Seq<char>) -> Seq<char> {
    lit + quoted(v)
}

/// `lit` followed by a decimal and a newline.
pub open spec fn number_text(lit: Seq<char>, n: nat) -> Seq<char> {
    lit + number_line(n)
}

/// The head of a `[nodes."<hostname>"]` table: hostname, endpoint, public key.
pub open spec fn node_head(l: LeaseView) -> Seq<char> {
    field_text("\n[nodes."@, l.hostname) + (field_text("]\nendpoint = "@, l.endpoint)
        + field_text("\npublic_key = "@, l.public_key))
}

/// The ports of a `[nodes."<hostname>"]` table.
pub open spec fn node_ports(l: LeaseView) -> Seq<char> {
    number_text("\nlisten_port = "@, l.listen_port as nat) + number_text(
        "persistent_keepalive = "@,
        l.persistent_keepalive as nat,
    )
}

/// The networks of a `[nodes."<hostname>"]` table.
pub open spec fn node_routes(l: LeaseView) -> Seq<char> {
    "allowed_ips = ["@ + (list_items(l.allowed_ips) + ("]\nroute_allowed_ips = "@ + bool_text(
        l.route_allowed_ips,
    )))
}

/// The times of a `[nodes."<hostname>"]` table.
pub open spec fn node_times(l: LeaseView) -> Seq<char> {
    number_text("\nlast_seen = "@, l.last_seen as nat) + number_text(
        "last_rotation = "@,
        l.last_rotation as nat,
    )
}

/// One `[nodes."<hostname>"]` table.
#[verifier::opaque]
pub open spec fn node_block(l: LeaseView) -> Seq<char> {
    node_head(l) + (node_ports(l) + (node_routes(l) + node_times(l)))
}

/// One `[[preshared_keys]]` table.
#[verifier::opaque]
pub open spec fn key_block(k: ((Seq<char>, Seq<char>), Seq<char>)) -> Seq<char> {
    field_text("\n[[preshared_keys]]\npeers = ["@, k.0.0) + (field_text(", "@, k.0.1) + (field_text(
        "]\nkey = "@,
        k.1,
    ) + "\n"@))
}

pub open spec fn nodes_text(ls: Seq<LeaseView>) -> Seq<char>
    decreases ls.len(),
{
    if ls.len() == 0 {
        seq![]
    } else {
        node_block(ls[0]) + nodes_text(ls.drop_first())
    }
}

pub open spec fn keys_text(ks: Seq<((Seq<char>, Seq<char>), Seq<char>)>) -> Seq<char>
    decreases ks.len(),
{
    if ks.len() == 0 {
        seq![]
    } else {
        key_block(ks[0]) + keys_text(ks.drop_first())
    }
}

/// The time of the last change, an RFC 3339 date-time.
pub open spec fn time_field(n: nat) -> Seq<char> {
    "last_modified = "@ + (rfc3339(n) + "\n"@)
}

/// The snapshot of a state.
pub open spec fn encode(d: StateData) -> Seq<char> {
    time_field(d.last_modified as nat) + (nodes_text(d.nodes) + keys_text(
        d.keys,
    ))
}

pub open spec fn parse_bool(t: Seq<char>, p: int) -> Option<(bool, int)> {
    if expect(t, p, "true"@) is Some {
        Some((true, expect(t, p, "true"@)->0))
    } else if expect(t, p, "false"@) is Some {
        Some((false, expect(t, p, "false"@)->0))
    } else {
        None
    }
}

/// Reads quoted strings separated by `, ` up to (not over) the closing `]`.
pub open spec fn parse_items(t: Seq<char>, p: int) -> Option<(Seq<Seq<char>>, int)>
    decreases t.len() - p,
{
    if 0 <= p < t.len() && t[p] == ']' {
        Some((seq![], p))
    } else {
        match parse_quoted(t, p) {
            Some((v, p1)) => match expect(t, p1, ", "@) {
                Some(p2) => if p < p2 <= t.len() {
                    match parse_items(t, p2) {
                        Some((vs, p3)) => Some((seq![v] + vs, p3)),
                        None => None,
                    }
                } else {
                    None
                },
                None => Some((seq![v], p1)),
            },
            None => None,
        }
    }
}

/// A literal, then a quoted string.
pub open spec fn field_str(t: Seq<char>, p: int, lit: Seq<char>) -> Option<(Seq<char>, int)> {
    match expect(t, p, lit) {
        Some(p1) => parse_quoted(t, p1),
        None => None,
    }
}

/// A literal, then a decimal of at most `max` and a newline.
pub open spec fn field_number(t: Seq<char>, p: int, lit: Seq<char>, max: nat) -> Option<(nat, int)> {
    match expect(t, p, lit) {
        Some(p1) => parse_number_line(t, p1, max),
        None => None,
    }
}

pub open spec fn parse_node_head(t: Seq<char>, p: int) -> Option<(Seq<char>, Seq<char>, Seq<char>, int)> {
    match field_str(t, p, "\n[nodes."@) {
        None => None,
        Some((h, p1)) => match field_str(t, p1, "]\nendpoint = "@) {
            None => None,
            Some((e, p2)) => match field_str(t, p2, "\npublic_key = "@) {
                None => None,
                Some((k, p3)) => Some((h, e, k, p3)),
            },
        },
    }
}

pub open spec fn parse_node_ports(t: Seq<char>, p: int) -> Option<(u32, u32, int)> {
    match field_number(t, p, "\nlisten_port = "@, u32::MAX as nat) {
        None => None,
        Some((lp, p1)) => match field_number(t, p1, "persistent_keepalive = "@, u32::MAX as nat) {
            None => None,
            Some((ka, p2)) => Some((lp as u32, ka as u32, p2)),
        },
    }
}

pub open spec fn parse_node_routes(t: Seq<char>, p: int) -> Option<(Seq<Seq<char>>, bool, int)> {
    match expect(t, p, "allowed_ips = ["@) {
        None => None,
        Some(p1) => match parse_items(t, p1) {
            None => None,
            Some((ips, p2)) => match expect(t, p2, "]\nroute_allowed_ips = "@) {
                None => None,
                Some(p3) => match parse_bool(t, p3) {
                    None => None,
                    Some((r, p4)) => Some((ips, r, p4)),
                },
            },
        },
    }
}

pub open spec fn parse_node_times(t: Seq<char>, p: int) -> Option<(u64, u64, int)> {
    match field_number(t, p, "\nlast_seen = "@, u64::MAX as nat) {
        None => None,
        Some((ls, p1)) => match field_number(t, p1, "last_rotation = "@, u64::MAX as nat) {
            None => None,
            Some((lr, p2)) => Some((ls as u64, lr as u64, p2)),
        },
    }
}

#[verifier::opaque]
pub open spec fn parse_node(t: Seq<char>, p: int) -> Option<(LeaseView, int)> {
    match parse_node_head(t, p) {
        None => None,
        Some((hostname, endpoint, public_key, p1)) => match parse_node_ports(t, p1) {
            None => None,
            Some((listen_port, persistent_keepalive, p2)) => match parse_node_routes(t, p2) {
                None => None,
                Some((allowed_ips, route_allowed_ips, p3)) => match parse_node_times(t, p3) {
                    None => None,
                    Some((last_seen, last_rotation, p4)) => Some(
                        (
                            LeaseView {
                                hostname,
                                endpoint,
                                public_key,
                                listen_port,
                                persistent_keepalive,
                                allowed_ips,
                                route_allowed_ips,
                                last_seen,
                                last_rotation,
                            },
                            p4,
                        ),
                    ),
                },
            },
        },
    }
}

#[verifier::opaque]
pub open spec fn parse_key(t: Seq<char>, p: int) -> Option<(((Seq<char>, Seq<char>), Seq<char>), int)> {
    match field_str(t, p, "\n[[preshared_keys]]\npeers = ["@) {
        None => None,
        Some((a, p1)) => match field_str(t, p1, ", "@) {
            None => None,
            Some((b, p2)) => match field_str(t, p2, "]\nkey = "@) {
                None => None,
                Some((key, p3)) => match expect(t, p3, "\n"@) {
                    None => None,
                    Some(p4) => Some((((a, b), key), p4)),
                },
            },
        },
    }
}

/// Reads `[nodes."<hostname>"]` tables while they come.
pub open spec fn parse_nodes(t: Seq<char>, p: int) -> (Seq<LeaseView>, int)
    decreases t.len() - p,
{
    match parse_node(t, p) {
        Some((l, p2)) => if p < p2 <= t.len() {
            let rest = parse_nodes(t, p2);
            (seq![l] + rest.0, rest.1)
        } else {
            (seq![], p)
        },
        None => (seq![], p),
    }
}

/// Reads `[[preshared_keys]]` tables while they come.
pub open spec fn parse_keys(t: Seq<char>, p: int) -> (Seq<((Seq<char>, Seq<char>), Seq<char>)>, int)
    decreases t.len() - p,
{
    match parse_key(t, p) {
        Some((k, p2)) => if p < p2 <= t.len() {
            let rest = parse_keys(t, p2);
            (seq![k] + rest.0, rest.1)
        } else {
            (seq![], p)
        },
        None => (seq![], p),
    }
}

/// The time of the last change at the start of a snapshot document.
pub open spec fn decode_head(t: Seq<char>) -> Option<(nat, int)> {
    match expect(t, 0, "last_modified = "@) {
        None => None,
        Some(p) => parse_time_line(t, p),
    }
}

/// What a snapshot document reads back as, if it is one.
pub open spec fn decode(t: Seq<char>) -> Option<StateData> {
    match decode_head(t) {
        None => None,
        Some((last_modified, p)) => {
            let nodes = parse_nodes(t, p);
            let keys = parse_keys(t, nodes.1);
            if keys.1 == t.len() {
                Some(StateData { last_modified: last_modified as u64, nodes: nodes.0, keys: keys.0 })
            } else {
                None
            }
        },
    }
}

// ---------------------------------------------------------------------------
// Reading back what was written.
proof fn lemma_split(t: Seq<char>, p: int, a: Seq<char>, b: Seq<char>)
    requires
        0 <= p,
        p + a.len() + b.len() <= t.len(),
        t.subrange(p, p + a.len() + b.len()) == a + b,
    ensures
        t.subrange(p, p + a.len()) == a,
        t.subrange(p + a.len(), p + a.len() + b.len()) == b,
{
    assert(t.subrange(p, p + a.len()) =~= (a + b).subrange(0, a.len() as int));
    assert(t.subrange(p + a.len(), p + a.len() + b.len()) =~= (a + b).subrange(
        a.len() as int,
        a.len() + b.len() as int,
    ));
    assert((a + b).subrange(0, a.len() as int) =~= a);
    assert((a + b).subrange(a.len() as int, a.len() + b.len() as int) =~= b);
}

proof fn lemma_field_str(t: Seq<char>, p: int, lit: Seq<char>, v: Seq<char>)
    requires
        0 <= p,
        p + lit.len() + quoted(v).len() <= t.len(),
        t.subrange(p, p + lit.len() + quoted(v).len()) == lit + quoted(v),
    ensures
        field_str(t, p, lit) == Some((v, p + lit.len() + quoted(v).len())),
{
    lemma_split(t, p, lit, quoted(v));
    lemma_parse_quoted(t, p + lit.len(), v);
}

proof fn lemma_field_number(t: Seq<char>, p: int, lit: Seq<char>, n: nat, max: nat)
    requires
        0 <= p,
        n <= max,
        p + lit.len() + number_line(n).len() <= t.len(),
        t.subrange(p, p + lit.len() + number_line(n).len()) == lit + number_line(n),
    ensures
        field_number(t, p, lit, max) == Some((n, p + lit.len() + number_line(n).len())),
{
    reveal_strlit("\n");
    assert(number_line(n) =~= decimal(n) + seq!['\n']);
    lemma_split(t, p, lit, number_line(n));
    lemma_parse_number_line(t, p + lit.len(), n, max);
}

proof fn lemma_parse_bool(t: Seq<char>, p: int, b: bool)
    requires
        0 <= p,
        p + bool_text(b).len() <= t.len(),
        t.subrange(p, p + bool_text(b).len()) == bool_text(b),
    ensures
        parse_bool(t, p) == Some((b, p + bool_text(b).len())),
{
    reveal_strlit("true");
    reveal_strlit("false");
    if !b {
        assert(t[p] == t.subrange(p, p + 5)[0]);
        assert(t[p] == 'f');
        if expect(t, p, "true"@) is Some {
            assert(t.subrange(p, p + 4)[0] == 't');
        }
    }
}

proof fn lemma_parse_items(t: Seq<char>, p: int, ss: Seq<Seq<char>>)
    requires
        0 <= p,
        p + list_items(ss).len() < t.len(),
        t.subrange(p, p + list_items(ss).len()) == list_items(ss),
        t[p + list_items(ss).len()] == ']',
    ensures
        parse_items(t, p) == Some((ss, p + list_items(ss).len())),
    decreases ss.len(),
{
    reveal_strlit(", ");
    let l = list_items(ss);
    if ss.len() == 0 {
        assert(ss =~= Seq::<Seq<char>>::empty());
    } else {
        let q = quoted(ss[0]);
        assert(t[p] == l[0]);
        assert(l[0] == q[0]);
        if ss.len() == 1 {
            lemma_parse_quoted(t, p, ss[0]);
            assert(ss =~= seq![ss[0]]);
            let p1: int = p + q.len();
            if expect(t, p1, ", "@) is Some {
                assert(t.subrange(p1, p1 + 2)[0] == ',');
            }
        } else {
            let rest = ss.drop_first();
            lemma_split(t, p, q, ", "@ + list_items(rest));
            lemma_parse_quoted(t, p, ss[0]);
            lemma_split(t, p + q.len(), ", "@, list_items(rest));
            let p2: int = p + q.len() + 2;
            assert(t[p2 + list_items(rest).len()] == ']');
            lemma_parse_items(t, p2, rest);
            assert(ss =~= seq![ss[0]] + rest);
        }
    }
}

proof fn lemma_parse_node_head(t: Seq<char>, p: int, l: LeaseView)
    requires
        0 <= p,
        p + node_head(l).len() <= t.len(),
        t.subrange(p, p + node_head(l).len()) == node_head(l),
    ensures
        parse_node_head(t, p) == Some((l.hostname, l.endpoint, l.public_key, p + node_head(l).len())),
{
    let a1 = field_text("\n[nodes."@, l.hostname);
    let a2 = field_text("]\nendpoint = "@, l.endpoint);
    let a3 = field_text("\npublic_key = "@, l.public_key);
    lemma_split(t, p, a1, a2 + a3);
    lemma_split(t, p + a1.len(), a2, a3);
    lemma_field_str(t, p, "\n[nodes."@, l.hostname);
    lemma_field_str(t, p + a1.len(), "]\nendpoint = "@, l.endpoint);
    lemma_field_str(t, p + a1.len() + a2.len(), "\npublic_key = "@, l.public_key);
}

proof fn lemma_parse_node_ports(t: Seq<char>, p: int, l: LeaseView)
    requires
        0 <= p,
        p + node_ports(l).len() <= t.len(),
        t.subrange(p, p + node_ports(l).len()) == node_ports(l),
    ensures
        parse_node_ports(t, p) == Some((l.listen_port, l.persistent_keepalive, p + node_ports(l).len())),
{
    let b1 = number_text("\nlisten_port = "@, l.listen_port as nat);
    let b2 = number_text("persistent_keepalive = "@, l.persistent_keepalive as nat);
    lemma_split(t, p, b1, b2);
    lemma_field_number(t, p, "\nlisten_port = "@, l.listen_port as nat, u32::MAX as nat);
    lemma_field_number(
        t,
        p + b1.len(),
        "persistent_keepalive = "@,
        l.persistent_keepalive as nat,
        u32::MAX as nat,
    );
}

proof fn lemma_parse_node_routes(t: Seq<char>, p: int, l: LeaseView)
    requires
        0 <= p,
        p + node_routes(l).len() <= t.len(),
        t.subrange(p, p + node_routes(l).len()) == node_routes(l),
    ensures
        parse_node_routes(t, p) == Some((l.allowed_ips, l.route_allowed_ips, p + node_routes(l).len())),
{
    let c1 = "allowed_ips = ["@;
    let c2 = list_items(l.allowed_ips);
    let c3 = "]\nroute_allowed_ips = "@;
    let c4 = bool_text(l.route_allowed_ips);
    lemma_split(t, p, c1, c2 + (c3 + c4));
    lemma_split(t, p + c1.len(), c2, c3 + c4);
    lemma_split(t, p + c1.len() + c2.len(), c3, c4);
    reveal_strlit("]\nroute_allowed_ips = ");
    let q: int = p + c1.len() + c2.len();
    assert(t[q] == t.subrange(q, q + c3.len())[0]);
    lemma_parse_items(t, p + c1.len(), l.allowed_ips);
    lemma_parse_bool(t, q + c3.len(), l.route_allowed_ips);
}

proof fn lemma_parse_node_times(t: Seq<char>, p: int, l: LeaseView)
    requires
        0 <= p,
        p + node_times(l).len() <= t.len(),
        t.subrange(p, p + node_times(l).len()) == node_times(l),
    ensures
        parse_node_times(t, p) == Some((l.last_seen, l.last_rotation, p + node_times(l).len())),
{
    let d1 = number_text("\nlast_seen = "@, l.last_seen as nat);
    let d2 = number_text("last_rotation = "@, l.last_rotation as nat);
    lemma_split(t, p, d1, d2);
    lemma_field_number(t, p, "\nlast_seen = "@, l.last_seen as nat, u64::MAX as nat);
    lemma_field_number(t, p + d1.len(), "last_rotation = "@, l.last_rotation as nat, u64::MAX as nat);
}

proof fn lemma_parse_node(t: Seq<char>, p: int, l: LeaseView)
    requires
        0 <= p,
        p + node_block(l).len() <= t.len(),
        t.subrange(p, p + node_block(l).len()) == node_block(l),
    ensures
        parse_node(t, p) == Some((l, p + node_block(l).len())),
{
    reveal(parse_node);
    reveal(node_block);
    let h = node_head(l);
    let po = node_ports(l);
    let ro = node_routes(l);
    let ti = node_times(l);
    lemma_split(t, p, h, po + (ro + ti));
    lemma_split(t, p + h.len(), po, ro + ti);
    lemma_split(t, p + h.len() + po.len(), ro, ti);
    lemma_parse_node_head(t, p, l);
    lemma_parse_node_ports(t, p + h.len(), l);
    lemma_parse_node_routes(t, p + h.len() + po.len(), l);
    lemma_parse_node_times(t, p + h.len() + po.len() + ro.len(), l);
}

proof fn lemma_parse_key(t: Seq<char>, p: int, k: ((Seq<char>, Seq<char>), Seq<char>))
    requires
        0 <= p,
        p + key_block(k).len() <= t.len(),
        t.subrange(p, p + key_block(k).len()) == key_block(k),
    ensures
        parse_key(t, p) == Some((k, p + key_block(k).len())),
{
    reveal(parse_key);
    reveal(key_block);
    let a1 = field_text("\n[[preshared_keys]]\npeers = ["@, k.0.0);
    let a2 = field_text(", "@, k.0.1);
    let a3 = field_text("]\nkey = "@, k.1);
    let a4 = "\n"@;
    lemma_split(t, p, a1, a2 + (a3 + a4));
    lemma_split(t, p + a1.len(), a2, a3 + a4);
    lemma_split(t, p + a1.len() + a2.len(), a3, a4);
    lemma_field_str(t, p, "\n[[preshared_keys]]\npeers = ["@, k.0.0);
    lemma_field_str(t, p + a1.len(), ", "@, k.0.1);
    lemma_field_str(t, p + a1.len() + a2.len(), "]\nkey = "@, k.1);
}

/// No `[nodes."<hostname>"]` table starts where a `[[preshared_keys]]` table does.
proof fn lemma_key_block_is_no_node(t: Seq<char>, p: int, k: ((Seq<char>, Seq<char>), Seq<char>))
    requires
        0 <= p,
        p + key_block(k).len() <= t.len(),
        t.subrange(p, p + key_block(k).len()) == key_block(k),
    ensures
        parse_node(t, p) is None,
{
    reveal(parse_node);
    reveal(key_block);
    reveal_strlit("\n[nodes.");
    reveal_strlit("\n[[preshared_keys]]\npeers = [");
    let kb = key_block(k);
    assert(kb[2] == '[');
    assert(t[p + 2] == t.subrange(p, p + kb.len())[2]);
    if expect(t, p, "\n[nodes."@) is Some {
        assert(t[p + 2] == t.subrange(p, p + 8)[2]);
    }
}

proof fn lemma_block_lengths(l: LeaseView, k: ((Seq<char>, Seq<char>), Seq<char>))
    ensures
        node_block(l).len() > 0,
        key_block(k).len() > 0,
{
    reveal(node_block);
    reveal(key_block);
    reveal_strlit("\n[nodes.");
    reveal_strlit("\n[[preshared_keys]]\npeers = [");
}

proof fn lemma_parse_nodes(t: Seq<char>, p: int, ls: Seq<LeaseView>)
    requires
        0 <= p,
        p + nodes_text(ls).len() <= t.len(),
        t.subrange(p, p + nodes_text(ls).len()) == nodes_text(ls),
        parse_node(t, p + nodes_text(ls).len()) is None,
    ensures
        parse_nodes(t, p) == (ls, p + nodes_text(ls).len()),
    decreases ls.len(),
{
    if ls.len() == 0 {
        assert(ls =~= Seq::<LeaseView>::empty());
    } else {
        let b = node_block(ls[0]);
        let rest = ls.drop_first();
        lemma_split(t, p, b, nodes_text(rest));
        lemma_parse_node(t, p, ls[0]);
        lemma_block_lengths(ls[0], ((ls[0].hostname, ls[0].hostname), ls[0].hostname));
        lemma_parse_nodes(t, p + b.len(), rest);
        assert(ls =~= seq![ls[0]] + rest);
    }
}

proof fn lemma_parse_keys(t: Seq<char>, p: int, ks: Seq<((Seq<char>, Seq<char>), Seq<char>)>)
    requires
        0 <= p,
        p + keys_text(ks).len() <= t.len(),
        t.subrange(p, p + keys_text(ks).len()) == keys_text(ks),
        parse_key(t, p + keys_text(ks).len()) is None,
    ensures
        parse_keys(t, p) == (ks, p + keys_text(ks).len()),
    decreases ks.len(),
{
    if ks.len() == 0 {
        assert(ks =~= Seq::<((Seq<char>, Seq<char>), Seq<char>)>::empty());
    } else {
        let b = key_block(ks[0]);
        let rest = ks.drop_first();
        lemma_split(t, p, b, keys_text(rest));
        lemma_parse_key(t, p, ks[0]);
        lemma_block_lengths(
            LeaseView {
                hostname: seq![],
                endpoint: seq![],
                public_key: seq![],
                listen_port: 0,
                persistent_keepalive: 0,
                allowed_ips: seq![],
                route_allowed_ips: false,
                last_seen: 0,
                last_rotation: 0,
            },
            ks[0],
        );
        lemma_parse_keys(t, p + b.len(), rest);
        assert(ks =~= seq![ks[0]] + rest);
    }
}

/// No table starts at the end of the text.
proof fn lemma_nothing_at_end(t: Seq<char>)
    ensures
        parse_node(t, t.len() as int) is None,
        parse_key(t, t.len() as int) is None,
{
    reveal(parse_node);
    reveal(parse_key);
    reveal_strlit("\n[nodes.");
    reveal_strlit("\n[[preshared_keys]]\npeers = [");
}

proof fn proof_time_line(t: Seq<char>, n: nat)
    requires
        n <= MAX_TIMESTAMP,
        time_field(n).len() <= t.len(),
        t.subrange(0, time_field(n).len() as int) == time_field(n),
    ensures
        decode_head(t) == Some((n, time_field(n).len() as int)),
{
    reveal_strlit("\n");
    lemma_rfc3339_round_trip(n);
    let lit = "last_modified = "@;
    let rest = rfc3339(n) + "\n"@;
    lemma_split(t, 0, lit, rest);
    assert(rest =~= rfc3339(n) + seq!['\n']);
    lemma_parse_time_line(t, lit.len() as int, n);
}

/// Snapshot round trip: a snapshot document reads back as exactly what was written.
pub proof fn lemma_snapshot_round_trip(d: StateData)
    requires
        d.last_modified <= MAX_TIMESTAMP,
    ensures
        decode(encode(d)) == Some(d),
{
    let t = encode(d);
    let h = time_field(d.last_modified as nat);
    let nt = nodes_text(d.nodes);
    let kt = keys_text(d.keys);
    assert(t.subrange(0, t.len() as int) =~= t);
    lemma_split(t, 0, h, nt + kt);
    lemma_split(t, h.len() as int, nt, kt);
    lemma_split(t, 0, "last_modified = "@, rfc3339(d.last_modified as nat) + "\n"@);
    proof_time_line(t, d.last_modified as nat);
    let p1: int = h.len() as int;
    let p2: int = p1 + nt.len();
    lemma_nothing_at_end(t);
    assert(p2 + kt.len() == t.len());
    if d.keys.len() > 0 {
        lemma_split(t, p2, key_block(d.keys[0]), keys_text(d.keys.drop_first()));
        lemma_key_block_is_no_node(t, p2, d.keys[0]);
    }
    lemma_parse_nodes(t, p1, d.nodes);
    lemma_parse_keys(t, p2, d.keys);
}

// ---------------------------------------------------------------------------
// Writing.
proof fn lemma_escape_push(s: Seq<char>, c: char)
    ensures
        escape(s.push(c)) == escape(s) + escape_char(c),
    decreases s.len(),
{
    if s.len() == 0 {
        assert(s.push(c).drop_first() =~= Seq::<char>::empty());
        assert(escape(Seq::<char>::empty()) =~= Seq::<char>::empty());
        assert(escape(s.push(c)) =~= escape(s) + escape_char(c));
    } else {
        lemma_escape_push(s.drop_first(), c);
        assert(s.push(c).drop_first() =~= s.drop_first().push(c));
        assert(escape(s.push(c)) =~= escape(s) + escape_char(c));
    }
}

proof fn lemma_list_items_push(ss: Seq<Seq<char>>, v: Seq<char>)
    ensures
        list_items(ss.push(v)) == if ss.len() == 0 {
            quoted(v)
        } else {
            list_items(ss) + (", "@ + quoted(v))
        },
    decreases ss.len(),
{
    if ss.len() == 1 {
        assert(ss.push(v).drop_first() =~= seq![v]);
        assert(list_items(seq![v]) == quoted(v));
    } else if ss.len() > 1 {
        lemma_list_items_push(ss.drop_first(), v);
        assert(ss.push(v).drop_first() =~= ss.drop_first().push(v));
    }
}

proof fn lemma_nodes_text_push(ls: Seq<LeaseView>, l: LeaseView)
    ensures
        nodes_text(ls.push(l)) == nodes_text(ls) + node_block(l),
    decreases ls.len(),
{
    assert(ls.push(l)[0] == if ls.len() == 0 { l } else { ls[0] });
    if ls.len() == 0 {
        assert(ls.push(l).drop_first() =~= Seq::<LeaseView>::empty());
        assert(nodes_text(Seq::<LeaseView>::empty()) =~= Seq::<char>::empty());
    } else {
        lemma_nodes_text_push(ls.drop_first(), l);
        assert(ls.push(l).drop_first() =~= ls.drop_first().push(l));
    }
    assert(nodes_text(ls.push(l)) =~= nodes_text(ls) + node_block(l));
}

proof fn lemma_keys_text_push(ks: Seq<((Seq<char>, Seq<char>), Seq<char>)>, k: ((Seq<char>, Seq<char>), Seq<char>))
    ensures
        keys_text(ks.push(k)) == keys_text(ks) + key_block(k),
    decreases ks.len(),
{
    assert(ks.push(k)[0] == if ks.len() == 0 { k } else { ks[0] });
    if ks.len() == 0 {
        assert(ks.push(k).drop_first() =~= Seq::<((Seq<char>, Seq<char>), Seq<char>)>::empty());
        assert(keys_text(Seq::<((Seq<char>, Seq<char>), Seq<char>)>::empty()) =~= Seq::<char>::empty());
    } else {
        lemma_keys_text_push(ks.drop_first(), k);
        assert(ks.push(k).drop_first() =~= ks.drop_first().push(k));
    }
    assert(keys_text(ks.push(k)) =~= keys_text(ks) + key_block(k));
}

/// Appends `s` as a TOML basic string.
fn push_quoted(out: &mut String, s: &str)
    ensures
        final(out)@ == old(out)@ + quoted(s@),
{
    let v = chars_of(s);
    let hex = "0123456789ABCDEF";
    proof {
        reveal_strlit("0123456789ABCDEF");
        reveal_strlit("\"");
        reveal_strlit("\\\"");
        reveal_strlit("\\\\");
        reveal_strlit("\\u00");
    }
    out.append("\"");
    let ghost start = out@;
    let mut i: usize = 0;
    assert(v@.take(0) =~= Seq::<char>::empty());
    assert(escape(Seq::<char>::empty()) =~= Seq::<char>::empty());
    while i < v.len()
        invariant
            i <= v.len(),
            v@ == s@,
            hex@ == seq!['0', '1', '2', '3', '4', '5', '6', '7', '8', '9', 'A', 'B', 'C', 'D', 'E', 'F'],
            out@ == start + escape(v@.take(i as int)),
        decreases v.len() - i,
    {
        let c = v[i];
        let ghost before = out@;
        proof {
            reveal_strlit("\\\"");
            reveal_strlit("\\\\");
            reveal_strlit("\\u00");
        }
        if c == '"' {
            out.append("\\\"");
        } else if c == '\\' {
            out.append("\\\\");
        } else if (c as u32) < 32 || (c as u32) == 127 {
            out.append("\\u00");
            let hi = (c as u32 / 16) as usize;
            let lo = (c as u32 % 16) as usize;
            out.append(hex.substring_char(hi, hi + 1));
            out.append(hex.substring_char(lo, lo + 1));
        } else {
            let one = s.substring_char(i, i + 1);
            assert(one@ =~= seq![c]);
            out.append(one);
        }
        assert(out@ =~= before + escape_char(c));
        proof {
            lemma_escape_push(v@.take(i as int), c);
            assert(v@.take(i + 1) =~= v@.take(i as int).push(c));
        }
        i += 1;
    }
    assert(v@.take(i as int) =~= v@);
    out.append("\"");
    assert(final(out)@ =~= old(out)@ + quoted(s@));
}

/// Appends a decimal and a newline.
fn push_number_line(out: &mut String, n: u64)
    ensures
        final(out)@ == old(out)@ + number_line(n as nat),
{
    push_decimal(out, n);
    out.append("\n");
    assert(final(out)@ =~= old(out)@ + number_line(n as nat));
}

/// Appends the items of a list of strings.
fn push_list_items(out: &mut String, ss: &Vec<String>)
    ensures
        final(out)@ == old(out)@ + list_items(crate::messages::strings_view(ss@)),
{
    let ghost all = crate::messages::strings_view(ss@);
    let ghost start = out@;
    let mut i: usize = 0;
    assert(all.take(0) =~= Seq::<Seq<char>>::empty());
    while i < ss.len()
        invariant
            i <= ss.len(),
            all == crate::messages::strings_view(ss@),
            out@ == start + list_items(all.take(i as int)),
        decreases ss.len() - i,
    {
        let ghost before = out@;
        proof {
            lemma_list_items_push(all.take(i as int), all[i as int]);
            assert(all.take(i + 1) =~= all.take(i as int).push(all[i as int]));
        }
        if i > 0 {
            out.append(", ");
        }
        push_quoted(out, ss[i].as_str());
        assert(out@ =~= start + list_items(all.take(i + 1)));
        i += 1;
    }
    assert(all.take(i as int) =~= all);
}

/// What a state holds, as a snapshot records it.
pub open spec fn state_data(s: LighthouseState) -> StateData {
    StateData {
        last_modified: s.last_modified,
        nodes: s.nodes@.map_values(|l: NodeLease| l@),
        keys: s.preshared_keys@.map_values(|k: PresharedKey| (k.peers@, k.key@)),
    }
}

fn push_node_head(out: &mut String, l: &NodeLease)
    ensures
        final(out)@ == old(out)@ + node_head(l@),
{
    out.append("\n[nodes.");
    push_quoted(out, l.hostname.as_str());
    out.append("]\nendpoint = ");
    push_quoted(out, l.endpoint.as_str());
    out.append("\npublic_key = ");
    push_quoted(out, l.public_key.as_str());
    assert(final(out)@ =~= old(out)@ + node_head(l@));
}

fn push_node_ports(out: &mut String, l: &NodeLease)
    ensures
        final(out)@ == old(out)@ + node_ports(l@),
{
    out.append("\nlisten_port = ");
    push_number_line(out, l.listen_port as u64);
    out.append("persistent_keepalive = ");
    push_number_line(out, l.persistent_keepalive as u64);
    assert(final(out)@ =~= old(out)@ + node_ports(l@));
}

fn push_node_routes(out: &mut String, l: &NodeLease)
    ensures
        final(out)@ == old(out)@ + node_routes(l@),
{
    out.append("allowed_ips = [");
    push_list_items(out, &l.allowed_ips);
    out.append("]\nroute_allowed_ips = ");
    if l.route_allowed_ips {
        out.append("true");
    } else {
        out.append("false");
    }
    assert(final(out)@ =~= old(out)@ + node_routes(l@));
}

fn push_node_times(out: &mut String, l: &NodeLease)
    ensures
        final(out)@ == old(out)@ + node_times(l@),
{
    out.append("\nlast_seen = ");
    push_number_line(out, l.last_seen);
    out.append("last_rotation = ");
    push_number_line(out, l.last_rotation);
    assert(final(out)@ =~= old(out)@ + node_times(l@));
}

/// Appends one `[nodes."<hostname>"]` table.
fn push_node_block(out: &mut String, l: &NodeLease)
    ensures
        final(out)@ == old(out)@ + node_block(l@),
{
    reveal(node_block);
    push_node_head(out, l);
    push_node_ports(out, l);
    push_node_routes(out, l);
    push_node_times(out, l);
    assert(final(out)@ =~= old(out)@ + node_block(l@));
}

/// Appends one `[[preshared_keys]]` table.
fn push_key_block(out: &mut String, k: &PresharedKey)
    ensures
        final(out)@ == old(out)@ + key_block((k.peers@, k.key@)),
{
    reveal(key_block);
    out.append("\n[[preshared_keys]]\npeers = [");
    push_quoted(out, k.peers.first().as_str());
    out.append(", ");
    push_quoted(out, k.peers.second().as_str());
    out.append("]\nkey = ");
    push_quoted(out, k.key.as_str());
    out.append("\n");
    assert(final(out)@ =~= old(out)@ + key_block((k.peers@, k.key@)));
}

impl LighthouseState {
    /// The snapshot document of the state.
    pub fn save_snapshot(&self) -> (r: String)
        requires
            self.last_modified <= MAX_TIMESTAMP,
        ensures
            r@ == encode(state_data(*self)),
    {
        let ghost d = state_data(*self);
        let mut out = String::new();
        out.append("last_modified = ");
        push_rfc3339(&mut out, self.last_modified);
        out.append("\n");
        assert(out@ =~= time_field(self.last_modified as nat));
        let ghost head = out@;
        let mut i: usize = 0;
        assert(d.nodes.take(0) =~= Seq::<LeaseView>::empty());
        while i < self.nodes.len()
            invariant
                i <= self.nodes.len(),
                d == state_data(*self),
                out@ == head + nodes_text(d.nodes.take(i as int)),
            decreases self.nodes.len() - i,
        {
            push_node_block(&mut out, &self.nodes[i]);
            proof {
                lemma_nodes_text_push(d.nodes.take(i as int), d.nodes[i as int]);
                assert(d.nodes.take(i + 1) =~= d.nodes.take(i as int).push(d.nodes[i as int]));
            }
            i += 1;
            assert(out@ =~= head + nodes_text(d.nodes.take(i as int)));
        }
        assert(d.nodes.take(i as int) =~= d.nodes);
        let ghost mid = out@;
        let mut j: usize = 0;
        assert(d.keys.take(0) =~= Seq::<((Seq<char>, Seq<char>), Seq<char>)>::empty());
        while j < self.preshared_keys.len()
            invariant
                j <= self.preshared_keys.len(),
                d == state_data(*self),
                out@ == mid + keys_text(d.keys.take(j as int)),
            decreases self.preshared_keys.len() - j,
        {
            push_key_block(&mut out, &self.preshared_keys[j]);
            proof {
                lemma_keys_text_push(d.keys.take(j as int), d.keys[j as int]);
                assert(d.keys.take(j + 1) =~= d.keys.take(j as int).push(d.keys[j as int]));
            }
            j += 1;
            assert(out@ =~= mid + keys_text(d.keys.take(j as int)));
        }
        assert(d.keys.take(j as int) =~= d.keys);
        assert(out@ =~= encode(d));
        out
    }
}

// ---------------------------------------------------------------------------
// Reading.
/// Where `lit` stands at `p`, the position after it.
fn expect_at(t: &Vec<char>, p: usize, lit: &str) -> (r: Option<usize>)
    ensures
        r is Some <==> expect(t@, p as int, lit@) is Some,
        r is Some ==> r->0 == expect(t@, p as int, lit@)->0,
{
    let l = chars_of(lit);
    if l.len() > t.len() || p > t.len() - l.len() {
        return None;
    }
    let mut i: usize = 0;
    while i < l.len()
        invariant
            i <= l.len(),
            p + l.len() <= t.len(),
            l@ == lit@,
            forall|j: int| 0 <= j < i ==> t@[p + j] == l@[j],
        decreases l.len() - i,
    {
        if t[p + i] != l[i] {
            assert(t@.subrange(p as int, p + l.len())[i as int] != lit@[i as int]);
            return None;
        }
        i += 1;
    }
    assert(t@.subrange(p as int, p + l.len()) =~= lit@);
    Some(p + l.len())
}

fn hex_val(c: char) -> (r: Option<u32>)
    ensures
        r is Some <==> hex_value(c) is Some,
        r is Some ==> r->0 as nat == hex_value(c)->0,
        r is Some ==> r->0 < 16,
{
    if '0' <= c && c <= '9' {
        Some(c as u32 - '0' as u32)
    } else if 'A' <= c && c <= 'F' {
        Some(c as u32 - 'A' as u32 + 10)
    } else {
        None
    }
}

pub open spec fn prefixed(
    acc: Seq<char>,
    off: int,
    r: Option<(Seq<char>, int)>,
) -> Option<(Seq<char>, int)> {
    match r {
        Some((v, n)) => Some((acc + v, off + n)),
        None => None,
    }
}

/// Reads the quoted string at `p`.
fn quoted_at(t: &Vec<char>, p: usize) -> (r: Option<(String, usize)>)
    ensures
        match r {
            Some((v, q)) => parse_quoted(t@, p as int) == Some((v@, q as int)),
            None => parse_quoted(t@, p as int) is None,
        },
{
    if p >= t.len() || t[p] != '"' {
        return None;
    }
    let mut acc = String::new();
    let mut i: usize = p + 1;
    assert(acc@ + Seq::<char>::empty() =~= acc@);
    loop
        invariant
            p + 1 <= i <= t.len(),
            p < t.len(),
            t@[p as int] == '"',
            string_body(t@.skip(p + 1)) == prefixed(
                acc@,
                i - (p + 1),
                string_body(t@.skip(i as int)),
            ),
        decreases t.len() - i,
    {
        if i == t.len() {
            assert(t@.skip(i as int).len() == 0);
            return None;
        }
        let ghost u = t@.skip(i as int);
        assert(u[0] == t@[i as int]);
        let c = t[i];
        if c == '"' {
            assert(acc@ + Seq::<char>::empty() =~= acc@);
            return Some((acc, i + 1));
        }
        if c == '\\' {
            if i + 1 < t.len() && (t[i + 1] == '"' || t[i + 1] == '\\') {
                assert(u[1] == t@[i + 1]);
                assert(u.skip(2) =~= t@.skip(i + 2));
                let ghost before = acc@;
                push_char(&mut acc, t[i + 1]);
                assert(forall|v: Seq<char>| before + (seq![t@[i + 1]] + v) =~= acc@ + v);
                i += 2;
                continue;
            }
            if t.len() - i > 5 && t[i + 1] == 'u' && t[i + 2] == '0' && t[i + 3] == '0' {
                assert(u[1] == t@[i + 1] && u[2] == t@[i + 2] && u[3] == t@[i + 3]);
                assert(u[4] == t@[i + 4] && u[5] == t@[i + 5]);
                let hi = hex_val(t[i + 4]);
                let lo = hex_val(t[i + 5]);
                if hi.is_some() && lo.is_some() {
                    let v = hi.unwrap() * 16 + lo.unwrap();
                    if v < 128 {
                        let ch = (v as u8) as char;
                        if (ch as u32) < 32 || (ch as u32) == 127 {
                            assert(u.skip(6) =~= t@.skip(i + 6));
                            let ghost before = acc@;
                            push_char(&mut acc, ch);
                            assert(forall|w: Seq<char>| before + (seq![ch] + w) =~= acc@ + w);
                            i += 6;
                            continue;
                        }
                    }
                }
            }
            return None;
        }
        if (c as u32) < 32 || (c as u32) == 127 {
            return None;
        }
        assert(u.skip(1) =~= t@.skip(i + 1));
        let ghost before = acc@;
        push_char(&mut acc, c);
        assert(forall|w: Seq<char>| before + (seq![c] + w) =~= acc@ + w);
        i += 1;
    }
}

/// Every prefix of a run of digits has a value no larger than the run's.
pub(crate) proof fn lemma_digits_monotone(d: Seq<char>, j: int)
    requires
        0 <= j <= d.len(),
        forall|i: int| 0 <= i < d.len() ==> is_digit(#[trigger] d[i]),
    ensures
        digits_value(d.take(j)) <= digits_value(d),
        digits_value(d.take(j)) >= 0,
    decreases d.len(),
{
    if j < d.len() {
        let e = d.drop_last();
        assert(forall|i: int| 0 <= i < e.len() ==> is_digit(#[trigger] e[i]) && e[i] == d[i]);
        lemma_digits_monotone(e, j);
        assert(e.take(j) =~= d.take(j));
        crate::validation::lemma_digits_nonneg(e);
        assert(digits_value(e) * 10 >= digits_value(e)) by (nonlinear_arith)
            requires
                digits_value(e) >= 0,
        ;
    } else {
        assert(d.take(j) =~= d);
        crate::validation::lemma_digits_nonneg(d);
    }
}

/// Reads a decimal of at most `max` and its newline at `p`.
fn number_line_at(t: &Vec<char>, p: usize, max: u64) -> (r: Option<(u64, usize)>)
    ensures
        match r {
            Some((v, q)) => parse_number_line(t@, p as int, max as nat) == Some((v as nat, q as int)),
            None => parse_number_line(t@, p as int, max as nat) is None,
        },
{
    if p > t.len() {
        return None;
    }
    let mut i: usize = p;
    while i < t.len() && t[i] != '\n'
        invariant
            p <= i <= t.len(),
            forall|j: int| p <= j < i ==> t@[j] != '\n',
        decreases t.len() - i,
    {
        i += 1;
    }
    let ghost u = t@.skip(p as int);
    proof {
        assert forall|j: int| 0 <= j < i - p implies u[j] != '\n' by {
            assert(u[j] == t@[p + j]);
        }
        if i < t.len() {
            assert(u[i - p] == t@[i as int]);
        }
        lemma_first_index(u, '\n', i - p);
    }
    if i == t.len() || i == p {
        return None;
    }
    let ghost d = t@.subrange(p as int, i as int);
    let mut acc: u64 = 0;
    let mut j: usize = p;
    assert(d.take(0) =~= Seq::<char>::empty());
    while j < i
        invariant
            p <= j <= i < t.len(),
            i > p,
            first_index_of(t@.skip(p as int), '\n') == i - p,
            d == t@.subrange(p as int, i as int),
            forall|k: int| 0 <= k < j - p ==> is_digit(#[trigger] d[k]),
            acc as int == digits_value(d.take(j - p)),
            acc <= max,
        decreases i - j,
    {
        let c = t[j];
        assert(d[j - p] == c);
        if !('0' <= c && c <= '9') {
            assert(!is_digit(d[j - p]));
            return None;
        }
        let dv = (c as u32 - '0' as u32) as u64;
        assert(d.take(j - p + 1).drop_last() =~= d.take(j - p));
        assert(digits_value(d.take(j - p + 1)) == acc * 10 + dv);
        if dv > max || acc > (max - dv) / 10 {
            proof {
                assert(acc * 10 + dv > max) by (nonlinear_arith)
                    requires
                        dv > max || acc > (max - dv) / 10,
                        dv <= 9,
                ;
                if forall|k: int| 0 <= k < d.len() ==> is_digit(#[trigger] d[k]) {
                    lemma_digits_monotone(d, j - p + 1);
                }
            }
            return None;
        }
        proof {
            assert(acc * 10 + dv <= max) by (nonlinear_arith)
                requires
                    acc <= (max - dv) / 10,
                    dv <= max,
            ;
        }
        acc = acc * 10 + dv;
        j += 1;
    }
    assert(d.take(i - p) =~= d);
    Some((acc, i + 1))
}

fn bool_at(t: &Vec<char>, p: usize) -> (r: Option<(bool, usize)>)
    ensures
        match r {
            Some((b, q)) => parse_bool(t@, p as int) == Some((b, q as int)),
            None => parse_bool(t@, p as int) is None,
        },
{
    match expect_at(t, p, "true") {
        Some(q) => Some((true, q)),
        None => match expect_at(t, p, "false") {
            Some(q) => Some((false, q)),
            None => None,
        },
    }
}

pub open spec fn prefixed_items(
    acc: Seq<Seq<char>>,
    r: Option<(Seq<Seq<char>>, int)>,
) -> Option<(Seq<Seq<char>>, int)> {
    match r {
        Some((vs, n)) => Some((acc + vs, n)),
        None => None,
    }
}

/// Reads the items of a list of strings at `p`, up to the closing `]`.
fn items_at(t: &Vec<char>, p: usize) -> (r: Option<(Vec<String>, usize)>)
    ensures
        match r {
            Some((vs, q)) => parse_items(t@, p as int) == Some(
                (crate::messages::strings_view(vs@), q as int),
            ),
            None => parse_items(t@, p as int) is None,
        },
{
    let mut acc: Vec<String> = Vec::new();
    let mut q: usize = p;
    assert(crate::messages::strings_view(acc@) =~= Seq::<Seq<char>>::empty());
    assert(forall|vs: Seq<Seq<char>>| Seq::<Seq<char>>::empty() + vs =~= vs);
    loop
        invariant
            p <= q,
            parse_items(t@, p as int) == prefixed_items(
                crate::messages::strings_view(acc@),
                parse_items(t@, q as int),
            ),
        decreases t.len() - q,
    {
        if q < t.len() && t[q] == ']' {
            assert(crate::messages::strings_view(acc@) + Seq::<Seq<char>>::empty()
                =~= crate::messages::strings_view(acc@));
            return Some((acc, q));
        }
        match quoted_at(t, q) {
            None => {
                return None;
            },
            Some((v, q1)) => {
                let ghost before = crate::messages::strings_view(acc@);
                match expect_at(t, q1, ", ") {
                    Some(q2) => {
                        if !(q < q2 && q2 <= t.len()) {
                            return None;
                        }
                        acc.push(v);
                        assert(crate::messages::strings_view(acc@) =~= before.push(v@));
                        assert(forall|vs: Seq<Seq<char>>|
                            before + (seq![v@] + vs) =~= before.push(v@) + vs);
                        q = q2;
                    },
                    None => {
                        acc.push(v);
                        assert(crate::messages::strings_view(acc@) =~= before + seq![v@]);
                        return Some((acc, q1));
                    },
                }
            },
        }
    }
}

fn field_str_at(t: &Vec<char>, p: usize, lit: &str) -> (r: Option<(String, usize)>)
    ensures
        match r {
            Some((v, q)) => field_str(t@, p as int, lit@) == Some((v@, q as int)),
            None => field_str(t@, p as int, lit@) is None,
        },
{
    match expect_at(t, p, lit) {
        Some(q) => quoted_at(t, q),
        None => None,
    }
}

fn field_number_at(t: &Vec<char>, p: usize, lit: &str, max: u64) -> (r: Option<(u64, usize)>)
    ensures
        match r {
            Some((v, q)) => field_number(t@, p as int, lit@, max as nat) == Some((v as nat, q as int)),
            None => field_number(t@, p as int, lit@, max as nat) is None,
        },
{
    match expect_at(t, p, lit) {
        Some(q) => number_line_at(t, q, max),
        None => None,
    }
}

/// Reads one `[nodes."<hostname>"]` table at `p`.
fn node_at(t: &Vec<char>, p: usize) -> (r: Option<(NodeLease, usize)>)
    ensures
        match r {
            Some((l, q)) => parse_node(t@, p as int) == Some((l@, q as int)),
            None => parse_node(t@, p as int) is None,
        },
{
    reveal(parse_node);
    let (hostname, p1) = match field_str_at(t, p, "\n[nodes.") {
        Some(x) => x,
        None => {
            return None;
        },
    };
    let (endpoint, p2) = match field_str_at(t, p1, "]\nendpoint = ") {
        Some(x) => x,
        None => {
            return None;
        },
    };
    let (public_key, p3) = match field_str_at(t, p2, "\npublic_key = ") {
        Some(x) => x,
        None => {
            return None;
        },
    };
    let (listen_port, p4) = match field_number_at(t, p3, "\nlisten_port = ", 4294967295) {
        Some(x) => x,
        None => {
            return None;
        },
    };
    let (persistent_keepalive, p5) = match field_number_at(
        t,
        p4,
        "persistent_keepalive = ",
        4294967295,
    ) {
        Some(x) => x,
        None => {
            return None;
        },
    };
    let p6 = match expect_at(t, p5, "allowed_ips = [") {
        Some(x) => x,
        None => {
            return None;
        },
    };
    let (allowed_ips, p7) = match items_at(t, p6) {
        Some(x) => x,
        None => {
            return None;
        },
    };
    let p8 = match expect_at(t, p7, "]\nroute_allowed_ips = ") {
        Some(x) => x,
        None => {
            return None;
        },
    };
    let (route_allowed_ips, p9) = match bool_at(t, p8) {
        Some(x) => x,
        None => {
            return None;
        },
    };
    let (last_seen, p10) = match field_number_at(t, p9, "\nlast_seen = ", 18446744073709551615) {
        Some(x) => x,
        None => {
            return None;
        },
    };
    let (last_rotation, p11) = match field_number_at(
        t,
        p10,
        "last_rotation = ",
        18446744073709551615,
    ) {
        Some(x) => x,
        None => {
            return None;
        },
    };
    let lease = NodeLease {
        hostname,
        endpoint,
        public_key,
        listen_port: listen_port as u32,
        persistent_keepalive: persistent_keepalive as u32,
        allowed_ips,
        route_allowed_ips,
        last_seen,
        last_rotation,
    };
    Some((lease, p11))
}

/// Reads one `[[preshared_keys]]` table at `p`: the two hostnames and the key.
fn key_at(t: &Vec<char>, p: usize) -> (r: Option<((String, String, String), usize)>)
    ensures
        match r {
            Some((k, q)) => parse_key(t@, p as int) == Some((((k.0@, k.1@), k.2@), q as int)),
            None => parse_key(t@, p as int) is None,
        },
{
    reveal(parse_key);
    let (a, p1) = match field_str_at(t, p, "\n[[preshared_keys]]\npeers = [") {
        Some(x) => x,
        None => {
            return None;
        },
    };
    let (b, p2) = match field_str_at(t, p1, ", ") {
        Some(x) => x,
        None => {
            return None;
        },
    };
    let (key, p3) = match field_str_at(t, p2, "]\nkey = ") {
        Some(x) => x,
        None => {
            return None;
        },
    };
    let p4 = match expect_at(t, p3, "\n") {
        Some(x) => x,
        None => {
            return None;
        },
    };
    Some(((a, b, key), p4))
}

/// Reads `[nodes."<hostname>"]` tables from `p` while they come.
fn nodes_at(t: &Vec<char>, p: usize) -> (r: (Vec<NodeLease>, usize))
    ensures
        parse_nodes(t@, p as int) == (r.0@.map_values(|l: NodeLease| l@), r.1 as int),
{
    let mut acc: Vec<NodeLease> = Vec::new();
    let mut q: usize = p;
    assert(forall|vs: Seq<LeaseView>| Seq::<LeaseView>::empty() + vs =~= vs);
    loop
        invariant
            parse_nodes(t@, p as int) == (
                acc@.map_values(|l: NodeLease| l@) + parse_nodes(t@, q as int).0,
                parse_nodes(t@, q as int).1,
            ),
        decreases t.len() - q,
    {
        match node_at(t, q) {
            Some((l, q2)) => {
                if !(q < q2 && q2 <= t.len()) {
                    assert(acc@.map_values(|l: NodeLease| l@) + Seq::<LeaseView>::empty()
                        =~= acc@.map_values(|l: NodeLease| l@));
                    return (acc, q);
                }
                let ghost before = acc@.map_values(|l: NodeLease| l@);
                acc.push(l);
                assert(acc@.map_values(|l: NodeLease| l@) =~= before.push(l@));
                assert(forall|vs: Seq<LeaseView>| before + (seq![l@] + vs) =~= before.push(l@) + vs);
                q = q2;
            },
            None => {
                assert(acc@.map_values(|l: NodeLease| l@) + Seq::<LeaseView>::empty()
                    =~= acc@.map_values(|l: NodeLease| l@));
                return (acc, q);
            },
        }
    }
}

pub open spec fn key_view(k: (String, String, String)) -> ((Seq<char>, Seq<char>), Seq<char>) {
    ((k.0@, k.1@), k.2@)
}

/// Reads `[[preshared_keys]]` tables from `p` while they come.
fn keys_at(t: &Vec<char>, p: usize) -> (r: (Vec<(String, String, String)>, usize))
    ensures
        parse_keys(t@, p as int) == (r.0@.map_values(|k: (String, String, String)| key_view(k)), r.1 as int),
{
    let mut acc: Vec<(String, String, String)> = Vec::new();
    let mut q: usize = p;
    assert(forall|vs: Seq<((Seq<char>, Seq<char>), Seq<char>)>|
        Seq::<((Seq<char>, Seq<char>), Seq<char>)>::empty() + vs =~= vs);
    loop
        invariant
            parse_keys(t@, p as int) == (
                acc@.map_values(|k: (String, String, String)| key_view(k)) + parse_keys(t@, q as int).0,
                parse_keys(t@, q as int).1,
            ),
        decreases t.len() - q,
    {
        match key_at(t, q) {
            Some((k, q2)) => {
                if !(q < q2 && q2 <= t.len()) {
                    assert(acc@.map_values(|k: (String, String, String)| key_view(k))
                        + Seq::<((Seq<char>, Seq<char>), Seq<char>)>::empty()
                        =~= acc@.map_values(|k: (String, String, String)| key_view(k)));
                    return (acc, q);
                }
                let ghost before = acc@.map_values(|k: (String, String, String)| key_view(k));
                let ghost kv = key_view(k);
                acc.push(k);
                assert(acc@.map_values(|k: (String, String, String)| key_view(k)) =~= before.push(kv));
                assert(forall|vs: Seq<((Seq<char>, Seq<char>), Seq<char>)>|
                    before + (seq![kv] + vs) =~= before.push(kv) + vs);
                q = q2;
            },
            None => {
                assert(acc@.map_values(|k: (String, String, String)| key_view(k))
                    + Seq::<((Seq<char>, Seq<char>), Seq<char>)>::empty()
                    =~= acc@.map_values(|k: (String, String, String)| key_view(k)));
                return (acc, q);
            },
        }
    }
}

/// Why a snapshot could not be loaded.
#[derive(Debug, Clone, Copy, PartialEq, Eq)]
pub enum SnapshotError {
    /// The text is not a snapshot document, or what it holds breaks the state's invariants.
    Malformed,
}

/// Whether snapshot data describes a well-formed state: hostnames unique, pairs unique,
/// each pair sorted, of two distinct registered hostnames.
pub open spec fn data_ok(d: StateData) -> bool {
    &&& forall|i: int, j: int|
        0 <= i < d.nodes.len() && 0 <= j < d.nodes.len() && i != j ==> (#[trigger] d.nodes[i]).hostname
            != (#[trigger] d.nodes[j]).hostname
    &&& forall|i: int, j: int|
        0 <= i < d.keys.len() && 0 <= j < d.keys.len() && i != j ==> (#[trigger] d.keys[i]).0 != (
        #[trigger] d.keys[j]).0
    &&& forall|i: int|
        0 <= i < d.keys.len() ==> {
            let p = (#[trigger] d.keys[i]).0;
            &&& p.0 != p.1
            &&& seq_lt(p.0, p.1)
            &&& exists|n: int| 0 <= n < d.nodes.len() && (#[trigger] d.nodes[n]).hostname == p.0
            &&& exists|n: int| 0 <= n < d.nodes.len() && (#[trigger] d.nodes[n]).hostname == p.1
        }
}

/// Snapshot round trip of a state: the snapshot of a well-formed state reads back as the same
/// leases, keys and time of last change, which again form a well-formed state.
pub proof fn lemma_state_snapshot_round_trip(s: LighthouseState)
    requires
        s.wf(),
        s.last_modified <= MAX_TIMESTAMP,
    ensures
        decode(encode(state_data(s))) == Some(state_data(s)),
        data_ok(state_data(s)),
{
    lemma_snapshot_round_trip(state_data(s));
    let d = state_data(s);
    assert forall|i: int| 0 <= i < d.keys.len() implies {
        let p = (#[trigger] d.keys[i]).0;
        &&& p.0 != p.1
        &&& seq_lt(p.0, p.1)
        &&& exists|n: int| 0 <= n < d.nodes.len() && (#[trigger] d.nodes[n]).hostname == p.0
        &&& exists|n: int| 0 <= n < d.nodes.len() && (#[trigger] d.nodes[n]).hostname == p.1
    } by {
        let p = s.preshared_keys@[i].peers@;
        assert(d.keys[i].0 == p);
        crate::peer_pair::lemma_seq_lt_total(p.0, p.1);
        let a = choose|a: int| 0 <= a < s.nodes@.len() && (#[trigger] s.nodes@[a]).hostname@ == p.0;
        let b = choose|b: int| 0 <= b < s.nodes@.len() && (#[trigger] s.nodes@[b]).hostname@ == p.1;
        assert(d.nodes[a].hostname == p.0);
        assert(d.nodes[b].hostname == p.1);
    }
    assert forall|i: int, j: int|
        0 <= i < d.nodes.len() && 0 <= j < d.nodes.len() && i != j implies (#[trigger] d.nodes[i]).hostname
            != (#[trigger] d.nodes[j]).hostname by {
        assert(d.nodes[i] == s.nodes@[i]@ && d.nodes[j] == s.nodes@[j]@);
    }
    assert forall|i: int, j: int|
        0 <= i < d.keys.len() && 0 <= j < d.keys.len() && i != j implies (#[trigger] d.keys[i]).0 != (
        #[trigger] d.keys[j]).0 by {
        assert(d.keys[i].0 == s.preshared_keys@[i].peers@ && d.keys[j].0 == s.preshared_keys@[j].peers@);
    }
}

/// Builds the keys of a snapshot, each pair sorted and of two distinct hostnames.
fn build_keys(keys: Vec<(String, String, String)>) -> (r: Result<Vec<PresharedKey>, SnapshotError>)
    ensures
        match r {
            Ok(ks) => ks@.map_values(|k: PresharedKey| (k.peers@, k.key@)) == keys@.map_values(
                |k: (String, String, String)| key_view(k),
            ) && forall|i: int|
                0 <= i < ks@.len() ==> {
                    let p = (#[trigger] ks@[i]).peers@;
                    p.0 != p.1 && seq_lt(p.0, p.1)
                },
            Err(_) => exists|i: int|
                0 <= i < keys@.len() && !((#[trigger] keys@[i]).0@ != keys@[i].1@ && seq_lt(
                    keys@[i].0@,
                    keys@[i].1@,
                )),
        },
{
    let ghost orig = keys@;
    let mut rest = keys;
    let mut out: Vec<PresharedKey> = Vec::new();
    let ghost mut i: int = 0;
    while rest.len() > 0
        invariant
            0 <= i <= orig.len(),
            rest@ == orig.skip(i),
            out@.map_values(|k: PresharedKey| (k.peers@, k.key@)) == orig.take(i).map_values(
                |k: (String, String, String)| key_view(k),
            ),
            orig == keys@,
            forall|k: int|
                0 <= k < out@.len() ==> {
                    let p = (#[trigger] out@[k]).peers@;
                    p.0 != p.1 && seq_lt(p.0, p.1)
                },
        decreases rest.len(),
    {
        assert(rest@[0] == orig[i]);
        let (a, b, key) = rest.remove(0);
        assert(rest@ =~= orig.skip(i + 1));
        if a == b || !str_lt(a.as_str(), b.as_str()) {
            assert(orig[i].0@ == a@ && orig[i].1@ == b@);
            assert(!(orig[i].0@ != orig[i].1@ && seq_lt(orig[i].0@, orig[i].1@)));
            return Err(SnapshotError::Malformed);
        }
        let ghost kv = ((a@, b@), key@);
        let ghost before = out@.map_values(|k: PresharedKey| (k.peers@, k.key@));
        let peers = PeerPair::new(a, b);
        out.push(PresharedKey { peers, key });
        assert(out@.map_values(|k: PresharedKey| (k.peers@, k.key@)) =~= before.push(kv));
        assert(orig.take(i + 1).map_values(|k: (String, String, String)| key_view(k)) =~= orig.take(
            i,
        ).map_values(|k: (String, String, String)| key_view(k)).push(kv));
        proof {
            i = i + 1;
        }
    }
    assert(orig.take(i) =~= orig);
    Ok(out)
}

impl LighthouseState {
    /// Reads a snapshot document back into a state, refusing text that is not a snapshot
    /// and data that breaks the state's invariants.
    pub fn load_snapshot(text: &str) -> (r: Result<LighthouseState, SnapshotError>)
        ensures
            decode(text@) is None ==> r is Err,
            decode(text@) is Some ==> (r is Ok <==> data_ok(decode(text@)->0)),
            r is Ok ==> state_data(r->Ok_0) == decode(text@)->0 && r->Ok_0.wf(),
    {
        let t = chars_of(text);
        let p1 = match expect_at(&t, 0, "last_modified = ") {
            Some(p) => p,
            None => {
                return Err(SnapshotError::Malformed);
            },
        };
        let (last_modified, p2) = match time_line_at(&t, p1) {
            Some(x) => x,
            None => {
                return Err(SnapshotError::Malformed);
            },
        };
        let (nodes, p3) = nodes_at(&t, p2);
        let (keys, p4) = keys_at(&t, p3);
        if p4 != t.len() {
            return Err(SnapshotError::Malformed);
        }
        let ghost d = decode(text@)->0;
        assert(d.nodes == nodes@.map_values(|l: NodeLease| l@));
        let ghost kviews = keys@.map_values(|k: (String, String, String)| key_view(k));
        assert(d.keys == kviews);
        let preshared_keys = match build_keys(keys) {
            Ok(ks) => ks,
            Err(e) => {
                proof {
                    let i = choose|i: int|
                        0 <= i < keys@.len() && !((#[trigger] keys@[i]).0@ != keys@[i].1@ && seq_lt(
                            keys@[i].0@,
                            keys@[i].1@,
                        ));
                    assert(d.keys[i] == key_view(keys@[i]));
                }
                return Err(e);
            },
        };
        let state = LighthouseState { nodes, preshared_keys, last_modified };
        assert(state_data(state) =~= d);
        if !state.check_wf() {
            return Err(SnapshotError::Malformed);
        }
        Ok(state)
    }

    /// Whether the state is well formed, given that its pairs are sorted and distinct.
    fn check_wf(&self) -> (r: bool)
        requires
            forall|i: int|
                0 <= i < self.preshared_keys@.len() ==> {
                    let p = (#[trigger] self.preshared_keys@[i]).peers@;
                    p.0 != p.1 && seq_lt(p.0, p.1)
                },
        ensures
            r == data_ok(state_data(*self)),
            r ==> self.wf(),
    {
        let ghost d = state_data(*self);
        let n = self.nodes.len();
        let mut i: usize = 0;
        while i < n
            invariant
                i <= n == self.nodes@.len(),
                d == state_data(*self),
                forall|a: int, b: int|
                    0 <= a < i && 0 <= b < n && a != b ==> (#[trigger] self.nodes@[a]).hostname@
                        != (#[trigger] self.nodes@[b]).hostname@,
            decreases n - i,
        {
            let mut j: usize = 0;
            while j < n
                invariant
                    i < n == self.nodes@.len(),
                    j <= n,
                    d == state_data(*self),
                    forall|a: int, b: int|
                        0 <= a < i && 0 <= b < n && a != b ==> (#[trigger] self.nodes@[a]).hostname@
                            != (#[trigger] self.nodes@[b]).hostname@,
                    forall|b: int|
                        0 <= b < j && b != i ==> self.nodes@[i as int].hostname@ != (
                        #[trigger] self.nodes@[b]).hostname@,
                decreases n - j,
            {
                if j != i && self.nodes[i].hostname == self.nodes[j].hostname {
                    assert(d.nodes[i as int].hostname == d.nodes[j as int].hostname);
                    return false;
                }
                j += 1;
            }
            i += 1;
        }
        assert(unique_hostnames(self.nodes@));
        let m = self.preshared_keys.len();
        let mut i: usize = 0;
        while i < m
            invariant
                i <= m == self.preshared_keys@.len(),
                d == state_data(*self),
                unique_hostnames(self.nodes@),
                forall|a: int, b: int|
                    0 <= a < i && 0 <= b < m && a != b ==> (#[trigger] self.preshared_keys@[a]).peers@
                        != (#[trigger] self.preshared_keys@[b]).peers@,
                forall|a: int|
                    0 <= a < i ==> has_node(self.nodes@, (#[trigger] self.preshared_keys@[a]).peers@.0)
                        && has_node(self.nodes@, self.preshared_keys@[a].peers@.1),
            decreases m - i,
        {
            let mut j: usize = 0;
            while j < m
                invariant
                    i < m == self.preshared_keys@.len(),
                    j <= m,
                    d == state_data(*self),
                    forall|a: int, b: int|
                        0 <= a < i && 0 <= b < m && a != b ==> (#[trigger] self.preshared_keys@[a]).peers@
                            != (#[trigger] self.preshared_keys@[b]).peers@,
                    forall|b: int|
                        0 <= b < j && b != i ==> self.preshared_keys@[i as int].peers@ != (
                        #[trigger] self.preshared_keys@[b]).peers@,
                decreases m - j,
            {
                if j != i && self.preshared_keys[i].peers == self.preshared_keys[j].peers {
                    assert(d.keys[i as int].0 == d.keys[j as int].0);
                    return false;
                }
                j += 1;
            }
            let pair = &self.preshared_keys[i].peers;
            let a = find_node(&self.nodes, pair.first().as_str());
            let b = find_node(&self.nodes, pair.second().as_str());
            if a.is_none() || b.is_none() {
                proof {
                    let p = d.keys[i as int].0;
                    if a.is_none() {
                        if exists|x: int| 0 <= x < d.nodes.len() && (#[trigger] d.nodes[x]).hostname == p.0 {
                            let x = choose|x: int| 0 <= x < d.nodes.len() && (#[trigger] d.nodes[x]).hostname == p.0;
                            assert(self.nodes@[x].hostname@ == p.0);
                        }
                    } else {
                        if exists|x: int| 0 <= x < d.nodes.len() && (#[trigger] d.nodes[x]).hostname == p.1 {
                            let x = choose|x: int| 0 <= x < d.nodes.len() && (#[trigger] d.nodes[x]).hostname == p.1;
                            assert(self.nodes@[x].hostname@ == p.1);
                        }
                    }
                }
                return false;
            }
            i += 1;
        }
        proof {
            assert forall|k: int| 0 <= k < m implies is_canonical((#[trigger] self.preshared_keys@[k]).peers@) by {
                let p = self.preshared_keys@[k].peers@;
                crate::peer_pair::lemma_seq_lt_total(p.0, p.1);
            }
            assert forall|k: int| 0 <= k < d.keys.len() implies {
                let p = (#[trigger] d.keys[k]).0;
                &&& exists|x: int| 0 <= x < d.nodes.len() && (#[trigger] d.nodes[x]).hostname == p.0
                &&& exists|x: int| 0 <= x < d.nodes.len() && (#[trigger] d.nodes[x]).hostname == p.1
            } by {
                let p = self.preshared_keys@[k].peers@;
                let x = choose|x: int| 0 <= x < self.nodes@.len() && (#[trigger] self.nodes@[x]).hostname@ == p.0;
                let y = choose|y: int| 0 <= y < self.nodes@.len() && (#[trigger] self.nodes@[y]).hostname@ == p.1;
                assert(d.nodes[x].hostname == p.0);
                assert(d.nodes[y].hostname == p.1);
            }
            assert forall|a: int, b: int|
                0 <= a < d.nodes.len() && 0 <= b < d.nodes.len() && a != b implies (#[trigger] d.nodes[a]).hostname
                    != (#[trigger] d.nodes[b]).hostname by {
                assert(d.nodes[a] == self.nodes@[a]@ && d.nodes[b] == self.nodes@[b]@);
            }
            assert forall|a: int, b: int|
                0 <= a < d.keys.len() && 0 <= b < d.keys.len() && a != b implies (#[trigger] d.keys[a]).0 != (
                #[trigger] d.keys[b]).0 by {
                assert(d.keys[a].0 == self.preshared_keys@[a].peers@);
                assert(d.keys[b].0 == self.preshared_keys@[b].peers@);
            }
        }
        true
    }
}

} // verus!
