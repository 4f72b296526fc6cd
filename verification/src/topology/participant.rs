//! The parties of a topology, and the text that lists them.
//!
//! The text has the number of parties on its first line and the IPv4
//! address of one party on each line after it, in the order of the ids.
//! Party `i` listens on the port `base_port + i`.

use vstd::prelude::*;
use vstd::string::*;
use crate::Id;

verus! {

/// Where a party listens: an IPv4 address, as its four numbers, and a
/// port.
#[derive(Debug, Clone, Copy, PartialEq, Eq)]
pub struct Address {
    pub octets: [u8; 4],
    pub port: u16,
}

/// A party of the topology.
#[derive(Debug, Clone, Copy, PartialEq, Eq)]
pub struct Participant {
    /// The id of the party: its place in the list.
    pub id: Id,
    /// Where the party listens.
    pub address: Address,
}

/// Why a text lists no parties.
#[derive(Debug, Clone, Copy, PartialEq, Eq, Structural)]
pub enum ParseError {
    /// The first line is not the number of parties.
    Count,
    /// The line of the party `index` is not an IPv4 address.
    Address { index: usize },
    /// The party `index` would listen on a port above 65535.
    Port { index: usize },
}

/// `String::pop` takes the last character off a string and returns it, and
/// returns `None` and leaves the string alone where it is empty.
pub assume_specification[ String::pop ](s: &mut String) -> (r: Option<char>)
    ensures
        old(s)@.len() == 0 ==> r is None && final(s)@ == old(s)@,
        old(s)@.len() > 0 ==> r == Some(old(s)@.last()) && final(s)@ == old(s)@.drop_last(),
;

/// `str::ends_with`, with a character as its pattern, says whether the
/// string ends with that character.
#[verifier::external_body]
fn ends_with_char(s: &String, c: char) -> (r: bool)
    ensures
        r == (s@.len() > 0 && s@.last() == c),
{
    s.ends_with(c)
}

/// A line without the line feed at its end, and without the carriage
/// return before that line feed.
pub open spec fn trimmed(s: Seq<char>) -> Seq<char> {
    if s.len() > 0 && s.last() == '\n' {
        let t = s.drop_last();
        if t.len() > 0 && t.last() == '\r' {
            t.drop_last()
        } else {
            t
        }
    } else {
        s
    }
}

/// Takes the end of the line off a line as it was read: a line feed, or a
/// carriage return and a line feed.
pub fn trim_end(buf: &mut String) -> (r: &str)
    ensures
        final(buf)@ == trimmed(old(buf)@),
        r@ == trimmed(old(buf)@),
{
    if ends_with_char(buf, '\n') {
        buf.pop();
        if ends_with_char(buf, '\r') {
            buf.pop();
        }
    }
    buf.as_str()
}

/// The ASCII code of `+`.
const PLUS: u8 = 43;

/// The ASCII code of `.`.
const DOT: u8 = 46;

/// The ASCII code of `0`.
const ZERO: u8 = 48;

/// The ASCII code of `9`.
const NINE: u8 = 57;

/// Whether `c` is a decimal digit.
pub open spec fn is_digit(c: char) -> bool {
    '0' <= c <= '9'
}

/// Whether `s` consists of decimal digits.
pub open spec fn all_digits(s: Seq<char>) -> bool {
    forall|i: int| 0 <= i < s.len() ==> is_digit(#[trigger] s[i])
}

/// The number that the digits `s` write.
pub open spec fn decimal(s: Seq<char>) -> nat
    decreases s.len(),
{
    if s.len() == 0 {
        0
    } else {
        (decimal(s.drop_last()) * 10 + (s.last() as nat - '0' as nat)) as nat
    }
}

/// The number of parties that a line states: one digit or more, after a
/// plus sign or without one, which write a number that the machine can
/// hold.
pub open spec fn count_of(s: Seq<char>) -> Option<usize> {
    let digits = if s.len() > 0 && s[0] == '+' {
        s.skip(1)
    } else {
        s
    };
    if digits.len() > 0 && all_digits(digits) && decimal(digits) <= usize::MAX {
        Some(decimal(digits) as usize)
    } else {
        None
    }
}

/// One of the four numbers of an address: one to three digits that write a
/// number up to 255, with no zero before another digit.
pub open spec fn octet_of(s: Seq<char>) -> Option<u8> {
    if 1 <= s.len() <= 3 && all_digits(s) && (s.len() == 1 || s[0] != '0') && decimal(s) <= 255 {
        Some(decimal(s) as u8)
    } else {
        None
    }
}

/// Where the field that begins at `from` ends: at the next dot, or at the
/// end of the line.
pub open spec fn field_end(s: Seq<char>, from: int) -> int
    decreases s.len() - from,
{
    if from < 0 || from >= s.len() {
        s.len() as int
    } else if s[from] == '.' {
        from
    } else {
        field_end(s, from + 1)
    }
}

/// The address that a line states: four numbers with a dot between each
/// two of them, and nothing else.
pub open spec fn ipv4_of(s: Seq<char>) -> Option<[u8; 4]> {
    let e0 = field_end(s, 0);
    let e1 = field_end(s, e0 + 1);
    let e2 = field_end(s, e1 + 1);
    let e3 = field_end(s, e2 + 1);
    if e0 < s.len() && e1 < s.len() && e2 < s.len() && e3 == s.len() {
        let a = octet_of(s.subrange(0, e0));
        let b = octet_of(s.subrange(e0 + 1, e1));
        let c = octet_of(s.subrange(e1 + 1, e2));
        let d = octet_of(s.subrange(e2 + 1, e3));
        if a is Some && b is Some && c is Some && d is Some {
            Some([a->Some_0, b->Some_0, c->Some_0, d->Some_0])
        } else {
            None
        }
    } else {
        None
    }
}

/// A number does not get smaller as digits are added to it.
proof fn lemma_decimal_grows(s: Seq<char>, i: int)
    requires
        0 <= i <= s.len(),
        all_digits(s),
    ensures
        decimal(s.take(i)) <= decimal(s),
    decreases s.len() - i,
{
    if i < s.len() {
        let t = s.take(i + 1);
        assert(t.drop_last() =~= s.take(i));
        assert(is_digit(s[i]));
        assert(t.last() == s[i]);
        lemma_decimal_grows(s, i + 1);
    } else {
        assert(s.take(i) =~= s);
    }
}

/// Reads the digits of `text` from `from` to `to`, as long as the number
/// that they write is at most `limit`.
fn read_number(text: &str, from: usize, to: usize, limit: usize) -> (r: Option<usize>)
    requires
        text.is_ascii(),
        from <= to <= text@.len(),
    ensures
        r == if all_digits(text@.subrange(from as int, to as int)) && decimal(
            text@.subrange(from as int, to as int),
        ) <= limit {
            Some(decimal(text@.subrange(from as int, to as int)) as usize)
        } else {
            None
        },
{
    let ghost digits = text@.subrange(from as int, to as int);
    let mut value: usize = 0;
    let mut i: usize = from;
    while i < to
        invariant
            text.is_ascii(),
            from <= i <= to <= text@.len(),
            digits == text@.subrange(from as int, to as int),
            all_digits(digits.take(i - from)),
            value == decimal(digits.take(i - from)),
            value <= limit,
        decreases to - i,
    {
        let b = text.get_ascii(i);
        let ghost k = i - from;
        proof {
            assert(digits[k] == text@[i as int]);
            assert(digits.take(k + 1).drop_last() =~= digits.take(k));
            assert(digits.take(k + 1).last() == digits[k]);
        }
        if b < ZERO || b > NINE {
            proof {
                assert(!is_digit(digits[k]));
            }
            return None;
        }
        assert(is_digit(digits[k]));
        let next = match value.checked_mul(10) {
            Some(tens) => tens.checked_add((b - ZERO) as usize),
            None => None,
        };
        match next {
            Some(more) if more <= limit => {
                value = more;
            },
            _ => {
                proof {
                    if all_digits(digits) {
                        lemma_decimal_grows(digits, k + 1);
                    }
                }
                return None;
            },
        }
        proof {
            assert forall|j: int| 0 <= j < k + 1 implies is_digit(#[trigger] digits.take(k + 1)[j]) by {
                if j < k {
                    assert(digits.take(k)[j] == digits.take(k + 1)[j]);
                }
            }
        }
        i = i + 1;
    }
    proof {
        assert(digits.take(to - from) =~= digits);
    }
    Some(value)
}

/// The party `i` of a group on this machine, whose first party listens on
/// `base_port`.
pub open spec fn local_party(i: nat, base_port: u16) -> Participant {
    Participant {
        id: i as Id,
        address: Address { octets: [127u8, 0u8, 0u8, 1u8], port: (base_port + i) as u16 },
    }
}

/// The number of characters of a text without characters beyond ASCII.
fn ascii_len(text: &str) -> (n: usize)
    requires
        text.is_ascii(),
    ensures
        n == text@.len(),
{
    proof {
        is_ascii_spec_bytes(text);
    }
    text.as_bytes().len()
}

/// Reads the number of parties off a line.
pub fn parse_count(text: &str) -> (r: Option<usize>)
    ensures
        r == count_of(text@),
{
    if !text.is_ascii() {
        proof {
            let s = text@;
            let digits = if s.len() > 0 && s[0] == '+' {
                s.skip(1)
            } else {
                s
            };
            if all_digits(digits) {
                assert forall|i: int| 0 <= i < s.len() implies '\0' <= #[trigger] s[i] <= '\u{7f}' by {
                    if digits.len() == s.len() {
                        assert(is_digit(digits[i]));
                    } else if i > 0 {
                        assert(is_digit(digits[i - 1]));
                    }
                }
            }
        }
        return None;
    }
    let n = ascii_len(text);
    let from: usize = if n > 0 && text.get_ascii(0) == PLUS {
        1
    } else {
        0
    };
    proof {
        let s = text@;
        if from == 1 {
            assert(s.skip(1) =~= s.subrange(1, n as int));
        } else {
            assert(s =~= s.subrange(0, n as int));
        }
    }
    if from == n {
        return None;
    }
    read_number(text, from, n, usize::MAX)
}

/// A field ends within the line, and before the end of the line at a dot.
proof fn lemma_field_end(s: Seq<char>, from: int)
    requires
        0 <= from <= s.len(),
    ensures
        from <= field_end(s, from) <= s.len(),
        field_end(s, from) < s.len() ==> s[field_end(s, from)] == '.',
    decreases s.len() - from,
{
    if from < s.len() && s[from] != '.' {
        lemma_field_end(s, from + 1);
    }
}

/// A line that states an address holds digits and dots, and so no
/// character beyond ASCII.
proof fn lemma_address_is_ascii(s: Seq<char>)
    requires
        ipv4_of(s) is Some,
    ensures
        vstd::utf8::is_ascii_chars(s),
{
    let e0 = field_end(s, 0);
    let e1 = field_end(s, e0 + 1);
    let e2 = field_end(s, e1 + 1);
    let e3 = field_end(s, e2 + 1);
    lemma_field_end(s, 0);
    lemma_field_end(s, e0 + 1);
    lemma_field_end(s, e1 + 1);
    lemma_field_end(s, e2 + 1);
    let a = s.subrange(0, e0);
    let b = s.subrange(e0 + 1, e1);
    let c = s.subrange(e1 + 1, e2);
    let d = s.subrange(e2 + 1, e3);
    assert forall|i: int| 0 <= i < s.len() implies '\0' <= #[trigger] s[i] <= '\u{7f}' by {
        if i < e0 {
            assert(is_digit(a[i]));
        } else if e0 < i < e1 {
            assert(is_digit(b[i - e0 - 1]));
        } else if e1 < i < e2 {
            assert(is_digit(c[i - e1 - 1]));
        } else if e2 < i {
            assert(is_digit(d[i - e2 - 1]));
        }
    }
}

/// Finds the end of the field that begins at `from`.
fn find_field_end(text: &str, from: usize) -> (e: usize)
    requires
        text.is_ascii(),
        from <= text@.len(),
    ensures
        e == field_end(text@, from as int),
        from <= e <= text@.len(),
{
    let n = ascii_len(text);
    let mut e: usize = from;
    while e < n && text.get_ascii(e) != DOT
        invariant
            text.is_ascii(),
            n == text@.len(),
            from <= e <= n,
            field_end(text@, from as int) == field_end(text@, e as int),
        decreases n - e,
    {
        e = e + 1;
    }
    e
}

/// Reads one of the four numbers of an address off the field from `from`
/// to `to`.
fn parse_octet(text: &str, from: usize, to: usize) -> (r: Option<u8>)
    requires
        text.is_ascii(),
        from <= to <= text@.len(),
    ensures
        r == octet_of(text@.subrange(from as int, to as int)),
{
    let len = to - from;
    if len == 0 || len > 3 {
        return None;
    }
    if len > 1 && text.get_ascii(from) == ZERO {
        assert(text@.subrange(from as int, to as int)[0] == text@[from as int]);
        return None;
    }
    assert(text@.subrange(from as int, to as int)[0] == text@[from as int]);
    match read_number(text, from, to, 255) {
        Some(value) => Some(value as u8),
        None => None,
    }
}

/// Reads an address off a line.
pub fn parse_ipv4(text: &str) -> (r: Option<[u8; 4]>)
    ensures
        r == ipv4_of(text@),
{
    if !text.is_ascii() {
        proof {
            if ipv4_of(text@) is Some {
                lemma_address_is_ascii(text@);
            }
        }
        return None;
    }
    let n = ascii_len(text);
    let e0 = find_field_end(text, 0);
    if e0 >= n {
        return None;
    }
    let e1 = find_field_end(text, e0 + 1);
    if e1 >= n {
        return None;
    }
    let e2 = find_field_end(text, e1 + 1);
    if e2 >= n {
        return None;
    }
    let e3 = find_field_end(text, e2 + 1);
    if e3 != n {
        return None;
    }
    let a = parse_octet(text, 0, e0);
    let b = parse_octet(text, e0 + 1, e1);
    let c = parse_octet(text, e1 + 1, e2);
    let d = parse_octet(text, e2 + 1, e3);
    match (a, b, c, d) {
        (Some(a), Some(b), Some(c), Some(d)) => Some([a, b, c, d]),
        _ => None,
    }
}

/// The line `i` of a text without the end of the line, where the text has
/// that many lines, and the empty line where it ends before.
pub open spec fn line_of(lines: Seq<String>, i: int) -> Seq<char> {
    if 0 <= i < lines.len() {
        trimmed(lines[i]@)
    } else {
        Seq::empty()
    }
}

/// The party `i` that a text lists: the line after the first `i + 1` lines
/// states its address, and its port is `base_port + i`.
pub open spec fn listed_party(lines: Seq<String>, base_port: u16, i: nat) -> Result<
    Participant,
    ParseError,
> {
    match ipv4_of(line_of(lines, i as int + 1)) {
        None => Err(ParseError::Address { index: i as usize }),
        Some(octets) => if base_port + i > u16::MAX {
            Err(ParseError::Port { index: i as usize })
        } else {
            Ok(
                Participant {
                    id: i as Id,
                    address: Address { octets, port: (base_port + i) as u16 },
                },
            )
        },
    }
}

/// The first `n` parties that a text lists, or what is wrong with the
/// first of them that is not listed well.
pub open spec fn listed_parties(lines: Seq<String>, base_port: u16, n: nat) -> Result<
    Seq<Participant>,
    ParseError,
>
    decreases n,
{
    if n == 0 {
        Ok(Seq::empty())
    } else {
        match listed_parties(lines, base_port, (n - 1) as nat) {
            Err(e) => Err(e),
            Ok(parties) => match listed_party(lines, base_port, (n - 1) as nat) {
                Err(e) => Err(e),
                Ok(party) => Ok(parties.push(party)),
            },
        }
    }
}

/// The parties that a text lists: as many as its first line states.
pub open spec fn listed(lines: Seq<String>, base_port: u16) -> Result<
    Seq<Participant>,
    ParseError,
> {
    match count_of(line_of(lines, 0)) {
        None => Err(ParseError::Count),
        Some(n) => listed_parties(lines, base_port, n as nat),
    }
}

/// The party that is not listed well stands in the way of all after it.
proof fn lemma_first_error(lines: Seq<String>, base_port: u16, i: nat, n: nat)
    requires
        i < n,
        listed_parties(lines, base_port, i) is Ok,
        listed_party(lines, base_port, i) is Err,
    ensures
        listed_parties(lines, base_port, n) == Err::<Seq<Participant>, ParseError>(
            listed_party(lines, base_port, i)->Err_0,
        ),
    decreases n,
{
    if n > i + 1 {
        lemma_first_error(lines, base_port, i, (n - 1) as nat);
    }
}

/// The line `i` of a text, or the empty line where the text ends before.
fn take_line(lines: &Vec<String>, i: usize) -> (line: String)
    ensures
        trimmed(line@) == line_of(lines@, i as int),
{
    if i < lines.len() {
        lines[i].clone()
    } else {
        String::new()
    }
}

impl Participant {
    /// Reads the parties off the lines of a text. Each line is as it was
    /// read, with the end of the line or without.
    pub fn from_lines(lines: &Vec<String>, base_port: u16) -> (r: Result<
        Vec<Participant>,
        ParseError,
    >)
        ensures
            match r {
                Ok(parties) => listed(lines@, base_port) == Ok::<Seq<Participant>, ParseError>(
                    parties@,
                ),
                Err(e) => listed(lines@, base_port) == Err::<Seq<Participant>, ParseError>(e),
            },
    {
        let mut line = take_line(lines, 0);
        let count = match parse_count(trim_end(&mut line)) {
            Some(count) => count,
            None => {
                return Err(ParseError::Count);
            },
        };
        let mut parties: Vec<Participant> = Vec::new();
        let mut i: usize = 0;
        while i < count
            invariant
                i <= count,
                count_of(line_of(lines@, 0)) == Some(count),
                listed_parties(lines@, base_port, i as nat) == Ok::<Seq<Participant>, ParseError>(
                    parties@,
                ),
            decreases count - i,
        {
            let mut line = if i < usize::MAX {
                take_line(lines, i + 1)
            } else {
                String::new()
            };
            let octets = match parse_ipv4(trim_end(&mut line)) {
                Some(octets) => octets,
                None => {
                    proof {
                        lemma_first_error(lines@, base_port, i as nat, count as nat);
                    }
                    return Err(ParseError::Address { index: i });
                },
            };
            if i > (u16::MAX - base_port) as usize {
                proof {
                    lemma_first_error(lines@, base_port, i as nat, count as nat);
                }
                return Err(ParseError::Port { index: i });
            }
            let port = base_port + (i as u16);
            parties.push(Participant { id: i as Id, address: Address { octets, port } });
            i = i + 1;
        }
        Ok(parties)
    }

    /// `count` parties on this machine, party `i` on the port
    /// `base_port + i`.
    pub fn from_default(count: usize, base_port: u16) -> (r: Vec<Participant>)
        requires
            count == 0 || base_port + (count - 1) <= u16::MAX,
        ensures
            r@.len() == count,
            forall|i: int| 0 <= i < count ==> #[trigger] r@[i] == local_party(i as nat, base_port),
    {
        let mut parties: Vec<Participant> = Vec::new();
        let mut i: usize = 0;
        while i < count
            invariant
                i <= count,
                count == 0 || base_port + (count - 1) <= u16::MAX,
                parties@.len() == i,
                forall|k: int| 0 <= k < i ==> #[trigger] parties@[k] == local_party(k as nat, base_port),
            decreases count - i,
        {
            let port = base_port + (i as u16);
            parties.push(
                Participant { id: i as Id, address: Address { octets: [127, 0, 0, 1], port } },
            );
            i = i + 1;
        }
        parties
    }
}

} // verus!
