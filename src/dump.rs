use vstd::prelude::*;

use crate::node::{PeerInfo, WireguardInfo};
use crate::validation::{decimal_value, digits_value, is_decimal_at_most, is_digit, unsigned_digits};

verus! {

/// Whether the character is white space, as `char::is_whitespace` decides (Unicode
/// `White_Space`).
pub open spec fn is_whitespace(c: char) -> bool {
    c == ' ' || ('\t' <= c && c <= '\r') || c == '\u{85}' || c == '\u{a0}' || c == '\u{1680}' || (
    '\u{2000}' <= c && c <= '\u{200a}') || c == '\u{2028}' || c == '\u{2029}' || c == '\u{202f}'
        || c == '\u{205f}' || c == '\u{3000}'
}

/// The words of a text: its maximal runs of characters that are not white space.
pub open spec fn words(s: Seq<char>) -> Seq<Seq<char>>
    decreases s.len(),
{
    if s.len() == 0 {
        seq![]
    } else {
        let w = words(s.drop_last());
        let c = s.last();
        if is_whitespace(c) {
            w
        } else if s.len() >= 2 && !is_whitespace(s[s.len() - 2]) {
            w.update(w.len() - 1, w.last().push(c))
        } else {
            w.push(seq![c])
        }
    }
}

/// The lines of a text, each with its line ending: a line ends after each `\n`.
pub open spec fn line_pieces(s: Seq<char>) -> Seq<Seq<char>>
    decreases s.len(),
{
    if s.len() == 0 {
        seq![]
    } else {
        let p = line_pieces(s.drop_last());
        let c = s.last();
        if s.len() == 1 || s[s.len() - 2] == '\n' {
            p.push(seq![c])
        } else {
            p.update(p.len() - 1, p.last().push(c))
        }
    }
}

/// The words of each line.
pub open spec fn line_words(s: Seq<char>) -> Seq<Seq<Seq<char>>> {
    line_pieces(s).map_values(|p: Seq<char>| words(p))
}

proof fn lemma_words_nonempty(s: Seq<char>)
    requires
        s.len() > 0,
        !is_whitespace(s.last()),
    ensures
        words(s).len() > 0,
    decreases s.len(),
{
    if s.len() >= 2 && !is_whitespace(s[s.len() - 2]) {
        assert(s.drop_last().last() == s[s.len() - 2]);
        lemma_words_nonempty(s.drop_last());
    }
}

proof fn lemma_pieces_last(s: Seq<char>)
    requires
        s.len() > 0,
    ensures
        line_pieces(s).len() > 0,
        line_pieces(s).last().len() > 0,
        line_pieces(s).last().last() == s.last(),
    decreases s.len(),
{
    if s.len() > 1 {
        lemma_pieces_last(s.drop_last());
    }
}

/// Why a WireGuard dump could not be read.
#[derive(Debug, Clone, Copy, PartialEq, Eq)]
pub enum DumpError {
    /// A line has fewer fields than its kind needs.
    MissingField,
    /// A numeric field is not a number of its type.
    BadNumber,
}

pub open spec fn words_view(l: Seq<String>) -> Seq<Seq<char>> {
    l.map_values(|w: String| w@)
}

pub open spec fn lines_view(ls: Seq<Vec<String>>) -> Seq<Seq<Seq<char>>> {
    ls.map_values(|l: Vec<String>| words_view(l@))
}

fn is_ws(c: char) -> (r: bool)
    ensures
        r == is_whitespace(c),
{
    c == ' ' || ('\t' <= c && c <= '\r') || c == '\u{85}' || c == '\u{a0}' || c == '\u{1680}' || (
    '\u{2000}' <= c && c <= '\u{200a}') || c == '\u{2028}' || c == '\u{2029}' || c == '\u{202f}'
        || c == '\u{205f}' || c == '\u{3000}'
}

/// The words of each line of the text.
pub fn split_lines_words(text: &str) -> (r: Vec<Vec<String>>)
    ensures
        lines_view(r@) == line_words(text@),
{
    let s = crate::validation::chars_of(text);
    let mut lines: Vec<Vec<String>> = Vec::new();
    let mut i: usize = 0;
    assert(s@.take(0) =~= Seq::<char>::empty());
    assert(lines_view(lines@) =~= line_words(s@.take(0)));
    while i < s.len()
        invariant
            i <= s.len(),
            s@ == text@,
            lines_view(lines@) == line_words(s@.take(i as int)),
        decreases s.len() - i,
    {
        let c = s[i];
        let ghost t = s@.take(i + 1);
        let ghost before = lines_view(lines@);
        assert(t.drop_last() =~= s@.take(i as int));
        assert(t.last() == c);
        if i == 0 || s[i - 1] == '\n' {
            let mut line: Vec<String> = Vec::new();
            if !is_ws(c) {
                let mut w = String::new();
                crate::text::push_char(&mut w, c);
                assert(w@ =~= seq![c]);
                line.push(w);
            }
            proof {
                let one = seq![c];
                assert(one.drop_last() =~= Seq::<char>::empty());
                assert(words(Seq::<char>::empty()) =~= Seq::<Seq<char>>::empty());
                assert(one.last() == c);
                if !is_whitespace(c) {
                    assert(line@[0]@ =~= one);
                    assert(words(one) =~= seq![one]);
                } else {
                    assert(line@.len() == 0);
                }
                assert(words(one) =~= words_view(line@));
                assert(line_pieces(t) == line_pieces(s@.take(i as int)).push(one));
            }
            let ghost lv = words_view(line@);
            lines.push(line);
            assert(lines_view(lines@) =~= before.push(lv));
            assert(line_words(t) =~= before.push(words(seq![c])));
        } else {
            proof {
                lemma_pieces_last(s@.take(i as int));
                assert(s@.take(i as int).last() == s@[i - 1]);
            }
            let ghost p = line_pieces(s@.take(i as int)).last();
            let ghost q = p.push(c);
            assert(q.drop_last() =~= p);
            assert(line_pieces(t) == line_pieces(s@.take(i as int)).update(
                line_pieces(s@.take(i as int)).len() - 1,
                q,
            ));
            assert(before.last() == words(p));
            assert(line_words(t) =~= before.update(before.len() - 1, words(q)));
            if !is_ws(c) {
                let mut line = lines.pop().unwrap();
                if !is_ws(s[i - 1]) {
                    proof {
                        lemma_words_nonempty(p);
                    }
                    assert(words_view(line@) == words(p));
                    let mut w = line.pop().unwrap();
                    let ghost wl = line@;
                    crate::text::push_char(&mut w, c);
                    line.push(w);
                    assert(words_view(line@) =~= words(p).update(words(p).len() - 1, words(p).last().push(c)));
                } else {
                    let mut w = String::new();
                    crate::text::push_char(&mut w, c);
                    line.push(w);
                    assert(words_view(line@) =~= words(p).push(seq![c]));
                }
                assert(words_view(line@) == words(q));
                let ghost lv = words_view(line@);
                assert(lines_view(lines@) =~= before.drop_last());
                lines.push(line);
                assert(lines_view(lines@) =~= before.drop_last().push(lv));
                assert(lines_view(lines@) =~= line_words(t));
            } else {
                assert(words(q) == words(p));
                assert(lines_view(lines@) =~= line_words(t));
            }
        }
        i += 1;
    }
    assert(s@.take(i as int) =~= s@);
    lines
}

/// Whether the text is an `i64` as std's integer parsing reads it: an optional sign, then digits.
pub open spec fn is_signed_decimal(p: Seq<char>) -> bool {
    if p.len() > 0 && p[0] == '-' {
        let d = p.drop_first();
        &&& d.len() > 0
        &&& forall|i: int| 0 <= i < d.len() ==> is_digit(#[trigger] d[i])
        &&& digits_value(d) <= 9223372036854775808
    } else {
        is_decimal_at_most(p, 9223372036854775807)
    }
}

pub open spec fn signed_value(p: Seq<char>) -> int {
    if p.len() > 0 && p[0] == '-' {
        -digits_value(p.drop_first())
    } else {
        decimal_value(p)
    }
}

/// Reads `v[lo..hi]` as digits of a value of at most `max`.
fn parse_digits(v: &Vec<char>, lo: usize, hi: usize, max: u64) -> (r: Option<u64>)
    requires
        lo <= hi <= v.len(),
    ensures
        ({
            let d = v@.subrange(lo as int, hi as int);
            &&& r is Some <==> (d.len() > 0 && (forall|i: int| 0 <= i < d.len() ==> is_digit(#[trigger] d[i]))
                && digits_value(d) <= max)
            &&& r is Some ==> r->0 == digits_value(d)
        }),
{
    let ghost d = v@.subrange(lo as int, hi as int);
    if lo == hi {
        return None;
    }
    let mut acc: u64 = 0;
    let mut j: usize = lo;
    assert(d.take(0) =~= Seq::<char>::empty());
    while j < hi
        invariant
            lo <= j <= hi <= v.len(),
            d == v@.subrange(lo as int, hi as int),
            forall|k: int| 0 <= k < j - lo ==> is_digit(#[trigger] d[k]),
            acc as int == digits_value(d.take(j - lo)),
            acc <= max,
        decreases hi - j,
    {
        let c = v[j];
        assert(d[j - lo] == c);
        if !('0' <= c && c <= '9') {
            assert(!is_digit(d[j - lo]));
            return None;
        }
        let dv = (c as u32 - '0' as u32) as u64;
        assert(d.take(j - lo + 1).drop_last() =~= d.take(j - lo));
        assert(digits_value(d.take(j - lo + 1)) == acc * 10 + dv);
        if dv > max || acc > (max - dv) / 10 {
            proof {
                assert(acc * 10 + dv > max) by (nonlinear_arith)
                    requires
                        dv > max || acc > (max - dv) / 10,
                        dv <= 9,
                ;
                if forall|k: int| 0 <= k < d.len() ==> is_digit(#[trigger] d[k]) {
                    crate::snapshot::lemma_digits_monotone(d, j - lo + 1);
                }
            }
            return None;
        }
        proof {
            assert(acc * 10 + dv <= max) by (nonlinear_arith)
                requires
                    acc <= (max - dv) / 10,
                    dv <= max,
            ;
        }
        acc = acc * 10 + dv;
        j += 1;
    }
    assert(d.take(hi - lo) =~= d);
    Some(acc)
}

/// Reads an unsigned decimal of at most `max`, with an optional leading `+`.
pub(crate) fn parse_unsigned(s: &str, max: u64) -> (r: Option<u64>)
    ensures
        r is Some <==> is_decimal_at_most(s@, max as int),
        r is Some ==> r->0 == decimal_value(s@),
{
    let v = crate::validation::chars_of(s);
    let start: usize = if v.len() > 0 && v[0] == '+' { 1 } else { 0 };
    assert(unsigned_digits(s@) =~= v@.subrange(start as int, v@.len() as int));
    parse_digits(&v, start, v.len(), max)
}

/// Reads an `i64`: an optional sign, then digits.
fn parse_signed(s: &str) -> (r: Option<i64>)
    ensures
        r is Some <==> is_signed_decimal(s@),
        r is Some ==> r->0 == signed_value(s@),
{
    let v = crate::validation::chars_of(s);
    if v.len() > 0 && v[0] == '-' {
        assert(s@.drop_first() =~= v@.subrange(1, v@.len() as int));
        match parse_digits(&v, 1, v.len(), 9223372036854775808) {
            Some(m) => {
                if m == 9223372036854775808 {
                    Some(i64::MIN)
                } else {
                    Some(-(m as i64))
                }
            },
            None => None,
        }
    } else {
        match parse_unsigned(s, 9223372036854775807) {
            Some(m) => Some(m as i64),
            None => None,
        }
    }
}

pub open spec fn peer_line_check(l: Seq<Seq<char>>) -> Result<(), DumpError> {
    if l.len() < 9 {
        Err(DumpError::MissingField)
    } else if !is_decimal_at_most(l[5], u64::MAX as int) || !is_signed_decimal(l[6])
        || !is_signed_decimal(l[7]) || !is_signed_decimal(l[8]) {
        Err(DumpError::BadNumber)
    } else {
        Ok(())
    }
}

/// The verdict on the first peer line that fails, or `Ok`.
pub open spec fn peer_lines_check(ls: Seq<Seq<Seq<char>>>) -> Result<(), DumpError>
    decreases ls.len(),
{
    if ls.len() == 0 {
        Ok(())
    } else if peer_line_check(ls[0]) is Err {
        peer_line_check(ls[0])
    } else {
        peer_lines_check(ls.drop_first())
    }
}

pub open spec fn interface_line_check(l: Seq<Seq<char>>) -> Result<(), DumpError> {
    if l.len() < 4 {
        Err(DumpError::MissingField)
    } else if !is_decimal_at_most(l[3], 65535) {
        Err(DumpError::BadNumber)
    } else {
        Ok(())
    }
}

/// What reading a dump yields before its values: the peer lines are read first, then the
/// interface line.
pub open spec fn dump_check(ls: Seq<Seq<Seq<char>>>) -> Result<(), DumpError> {
    if peer_lines_check(ls.drop_first()) is Err {
        peer_lines_check(ls.drop_first())
    } else {
        interface_line_check(ls[0])
    }
}

/// A peer as its dump line gives it.
pub open spec fn peer_from_line(p: PeerInfo, l: Seq<Seq<char>>) -> bool {
    &&& p.interface@ == l[0]
    &&& p.public_key@ == l[1]
    &&& p.private_key@ == l[2]
    &&& p.endpoint@ == l[3]
    &&& p.allowed_ips@ == l[4]
    &&& p.latest_handshake == decimal_value(l[5])
    &&& p.transfer_rx == signed_value(l[6])
    &&& p.transfer_tx == signed_value(l[7])
    &&& p.persistent_keepalive == signed_value(l[8])
}

fn peer_from_words(l: &Vec<String>) -> (r: Result<PeerInfo, DumpError>)
    ensures
        match r {
            Ok(p) => peer_line_check(words_view(l@)) is Ok && peer_from_line(p, words_view(l@)),
            Err(e) => peer_line_check(words_view(l@)) == Err::<(), DumpError>(e),
        },
{
    let ghost w = words_view(l@);
    if l.len() < 9 {
        return Err(DumpError::MissingField);
    }
    assert(forall|k: int| 0 <= k < 9 ==> w[k] == l@[k]@);
    let latest_handshake = parse_unsigned(l[5].as_str(), u64::MAX);
    let transfer_rx = parse_signed(l[6].as_str());
    let transfer_tx = parse_signed(l[7].as_str());
    let persistent_keepalive = parse_signed(l[8].as_str());
    match (latest_handshake, transfer_rx, transfer_tx, persistent_keepalive) {
        (Some(latest_handshake), Some(transfer_rx), Some(transfer_tx), Some(persistent_keepalive)) => {
            Ok(
                PeerInfo {
                    interface: l[0].clone(),
                    public_key: l[1].clone(),
                    private_key: l[2].clone(),
                    endpoint: l[3].clone(),
                    allowed_ips: l[4].clone(),
                    latest_handshake,
                    transfer_rx,
                    transfer_tx,
                    persistent_keepalive,
                },
            )
        },
        _ => Err(DumpError::BadNumber),
    }
}

/// Reads the output of `wg show all dump`: no lines is no interface; else the first line
/// describes the interface and each further line a peer.
pub fn parse_dump(stdout: &str) -> (r: Result<Option<WireguardInfo>, DumpError>)
    ensures
        ({
            let ls = line_words(stdout@);
            if ls.len() == 0 {
                r == Ok::<Option<WireguardInfo>, DumpError>(None)
            } else if dump_check(ls) is Err {
                r == Err::<Option<WireguardInfo>, DumpError>(dump_check(ls)->Err_0)
            } else {
                &&& r is Ok
                &&& r->Ok_0 is Some
                &&& {
                    let info = r->Ok_0->0;
                    &&& info.interface@ == ls[0][0]
                    &&& info.public_key@ == ls[0][1]
                    &&& info.private_key@ == ls[0][2]
                    &&& info.listening_port == decimal_value(ls[0][3])
                    &&& info.peers@.len() == ls.len() - 1
                    &&& forall|k: int|
                        0 <= k < info.peers@.len() ==> peer_from_line(
                            #[trigger] info.peers@[k],
                            ls[k + 1],
                        )
                }
            }
        }),
{
    let lines = split_lines_words(stdout);
    let ghost ls = line_words(stdout@);
    if lines.len() == 0 {
        return Ok(None);
    }
    assert(forall|k: int| 0 <= k < lines@.len() ==> ls[k] == words_view(#[trigger] lines@[k]@));
    let ghost rest = ls.drop_first();
    let mut peers: Vec<PeerInfo> = Vec::new();
    let mut k: usize = 1;
    assert(rest.skip(0) =~= rest);
    while k < lines.len()
        invariant
            1 <= k <= lines.len(),
            ls == lines_view(lines@),
            ls == line_words(stdout@),
            rest == ls.drop_first(),
            peer_lines_check(rest) == peer_lines_check(rest.skip(k - 1)),
            peers@.len() == k - 1,
            forall|j: int| 0 <= j < k - 1 ==> peer_from_line(#[trigger] peers@[j], ls[j + 1]),
        decreases lines.len() - k,
    {
        assert(rest.skip(k - 1).drop_first() =~= rest.skip(k as int));
        assert(rest.skip(k - 1)[0] == ls[k as int]);
        assert(ls[k as int] == words_view(lines@[k as int]@));
        match peer_from_words(&lines[k]) {
            Ok(p) => {
                peers.push(p);
            },
            Err(e) => {
                assert(rest.skip(k - 1).len() > 0);
                assert(peer_lines_check(rest.skip(k - 1)) == Err::<(), DumpError>(e));
                return Err(e);
            },
        }
        k += 1;
    }
    assert(rest.skip(k - 1).len() == 0);
    let first = &lines[0];
    assert(ls[0] == words_view(first@));
    if first.len() < 4 {
        return Err(DumpError::MissingField);
    }
    assert(forall|j: int| 0 <= j < 4 ==> ls[0][j] == first@[j]@);
    let listening_port = match parse_unsigned(first[3].as_str(), 65535) {
        Some(p) => p as u16,
        None => {
            return Err(DumpError::BadNumber);
        },
    };
    Ok(
        Some(
            WireguardInfo {
                interface: first[0].clone(),
                public_key: first[1].clone(),
                private_key: first[2].clone(),
                listening_port,
                peers,
            },
        ),
    )
}

} // verus!
