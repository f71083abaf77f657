use vstd::prelude::*;
use crate::v6::{groups_string, groups_text, lemma_v6_round_trip, parse_v6, v6_groups};

verus! {

/// The character for a decimal digit.
pub open spec fn digit_char(d: nat) -> char {
    if d == 0 { '0' } else if d == 1 { '1' } else if d == 2 { '2' } else if d == 3 { '3' }
    else if d == 4 { '4' } else if d == 5 { '5' } else if d == 6 { '6' } else if d == 7 { '7' }
    else if d == 8 { '8' } else { '9' }
}

pub open spec fn is_digit(c: char) -> bool {
    '0' <= c <= '9'
}

pub open spec fn digit_value(c: char) -> nat {
    (c as nat - '0' as nat) as nat
}

/// The shortest decimal text of `n`.
pub open spec fn dec_text(n: nat) -> Seq<char>
    decreases n,
{
    if n < 10 {
        seq![digit_char(n)]
    } else {
        dec_text(n / 10) + seq![digit_char(n % 10)]
    }
}

/// The value of a string of decimal digits.
pub open spec fn digits_value(s: Seq<char>) -> nat
    decreases s.len(),
{
    if s.len() == 0 {
        0
    } else {
        digits_value(s.drop_last()) * 10 + digit_value(s.last())
    }
}

proof fn lemma_digit_char(d: nat)
    requires
        d < 10,
    ensures
        is_digit(digit_char(d)),
        digit_value(digit_char(d)) == d,
        digit_char(d) != '.',
        d != 0 ==> digit_char(d) != '0',
{
}

proof fn lemma_digit_value(c: char)
    requires
        is_digit(c),
    ensures
        digit_value(c) < 10,
        digit_char(digit_value(c)) == c,
{
    if c == '0' {} else if c == '1' {} else if c == '2' {} else if c == '3' {} else if c == '4' {
    } else if c == '5' {} else if c == '6' {} else if c == '7' {} else if c == '8' {} else {}
}

proof fn lemma_dec_text(n: nat)
    ensures
        dec_text(n).len() >= 1,
        forall|i: int| 0 <= i < dec_text(n).len() ==> is_digit(#[trigger] dec_text(n)[i]),
        digits_value(dec_text(n)) == n,
        dec_text(n).len() > 1 ==> dec_text(n)[0] != '0',
        n < 100 ==> dec_text(n).len() <= 2,
        n < 1000 ==> dec_text(n).len() <= 3,
        n < 10 <==> dec_text(n).len() == 1,
    decreases n,
{
    lemma_digit_char(n % 10);
    if n >= 10 {
        lemma_dec_text(n / 10);
        let t = dec_text(n);
        let h = dec_text(n / 10);
        assert(t == h + seq![digit_char(n % 10)]);
        assert(t.drop_last() =~= h);
        assert(t.last() == digit_char(n % 10));
        assert(digits_value(t) == digits_value(h) * 10 + digit_value(t.last()));
        assert(t[0] == h[0]);
        if n / 10 < 10 {
            lemma_digit_char(n / 10);
        }
        assert forall|i: int| 0 <= i < t.len() implies is_digit(#[trigger] t[i]) by {
            if i < h.len() {
                assert(t[i] == h[i]);
            }
        }
    } else {
        lemma_digit_char(n);
        assert(digits_value(dec_text(n)) == digits_value(dec_text(n).drop_last()) * 10
            + digit_value(dec_text(n).last()));
        assert(dec_text(n).drop_last().len() == 0);
    }
}

/// A string of digits without a leading zero is the decimal text of its value.
proof fn lemma_canonical_digits(s: Seq<char>)
    requires
        s.len() >= 1,
        forall|i: int| 0 <= i < s.len() ==> is_digit(#[trigger] s[i]),
        s.len() > 1 ==> s[0] != '0',
    ensures
        s == dec_text(digits_value(s)),
    decreases s.len(),
{
    let v = digits_value(s);
    let last = s.last();
    let p = s.drop_last();
    lemma_digit_value(last);
    assert(v == digits_value(p) * 10 + digit_value(last));
    if s.len() == 1 {
        assert(digits_value(p) == 0);
        assert(s =~= seq![last]);
    } else {
        assert(p[0] == s[0]);
        assert forall|i: int| 0 <= i < p.len() implies is_digit(#[trigger] p[i]) by {
            assert(p[i] == s[i]);
        }
        lemma_canonical_digits(p);
        lemma_dec_text(0);
        assert(digits_value(p) != 0);
        assert(v / 10 == digits_value(p));
        assert(v % 10 == digit_value(last));
        assert(v >= 10);
        assert(s =~= dec_text(v / 10) + seq![digit_char(v % 10)]);
    }
}

/// An IP address: version 4 by its four octets, version 6 by its eight
/// groups.
#[derive(Clone, Copy, Debug, PartialEq, Eq, Structural, Hash)]
pub enum IpAddress {
    V4(u8, u8, u8, u8),
    V6(u16, u16, u16, u16, u16, u16, u16, u16),
}

/// The characters of a string, one by one.
pub fn text_chars(s: &str) -> (r: Vec<char>)
    ensures
        r@ == s@,
{
    let mut out: Vec<char> = Vec::new();
    for c in it: s.chars()
        invariant
            it.seq() == s@,
            out@ == s@.take(it.index() as int),
    {
        out.push(c);
    }
    assert(out@ =~= s@.take(s@.len() as int));
    out
}

/// The dotted decimal text of a version 4 address.
pub open spec fn v4_text(a: u8, b: u8, c: u8, d: u8) -> Seq<char> {
    dec_text(a as nat) + seq!['.'] + dec_text(b as nat) + seq!['.'] + dec_text(c as nat)
        + seq!['.'] + dec_text(d as nat)
}

pub(crate) proof fn lemma_v4_text_shape(a: u8, b: u8, c: u8, d: u8)
    ensures
        ({
            let t = v4_text(a, b, c, d);
            let p1 = dec_text(a as nat).len() as int;
            let p2 = p1 + 1 + dec_text(b as nat).len();
            let p3 = p2 + 1 + dec_text(c as nat).len();
            &&& t.len() == p3 + 1 + dec_text(d as nat).len()
            &&& t[p1] == '.' && t[p2] == '.' && t[p3] == '.'
            &&& forall|i: int|
                0 <= i < t.len() && i != p1 && i != p2 && i != p3 ==> is_digit(#[trigger] t[i])
            &&& t.subrange(0, p1) == dec_text(a as nat)
            &&& t.subrange(p1 + 1, p2) == dec_text(b as nat)
            &&& t.subrange(p2 + 1, p3) == dec_text(c as nat)
            &&& t.subrange(p3 + 1, t.len() as int) == dec_text(d as nat)
        }),
{
    let (ta, tb, tc, td) = (dec_text(a as nat), dec_text(b as nat), dec_text(c as nat), dec_text(d as nat));
    lemma_dec_text(a as nat);
    lemma_dec_text(b as nat);
    lemma_dec_text(c as nat);
    lemma_dec_text(d as nat);
    let t = v4_text(a, b, c, d);
    let p1 = ta.len() as int;
    let p2 = p1 + 1 + tb.len();
    let p3 = p2 + 1 + tc.len();
    assert(t.subrange(0, p1) =~= ta);
    assert(t.subrange(p1 + 1, p2) =~= tb);
    assert(t.subrange(p2 + 1, p3) =~= tc);
    assert(t.subrange(p3 + 1, t.len() as int) =~= td);
    assert forall|i: int|
        0 <= i < t.len() && i != p1 && i != p2 && i != p3 implies is_digit(#[trigger] t[i]) by {
        if i < p1 {
            assert(t[i] == ta[i]);
        } else if i < p2 {
            assert(t[i] == tb[i - p1 - 1]);
        } else if i < p3 {
            assert(t[i] == tc[i - p2 - 1]);
        } else {
            assert(t[i] == td[i - p3 - 1]);
        }
    }
}

/// The first position at or after `from` that holds a dot, or the length.
fn find_dot(cs: &Vec<char>, from: usize) -> (r: usize)
    requires
        from <= cs.len(),
    ensures
        from <= r <= cs.len(),
        r < cs.len() ==> cs@[r as int] == '.',
        forall|j: int| from <= j < r ==> cs@[j] != '.',
{
    let mut i = from;
    while i < cs.len()
        invariant
            from <= i <= cs.len(),
            forall|j: int| from <= j < i ==> cs@[j] != '.',
        decreases cs.len() - i,
    {
        if cs[i] == '.' {
            return i;
        }
        i = i + 1;
    }
    i
}

/// Reads the octet written in `cs[lo..hi]`, in its shortest decimal form.
fn read_octet(cs: &Vec<char>, lo: usize, hi: usize) -> (r: Option<u8>)
    requires
        lo <= hi <= cs.len(),
    ensures
        match r {
            Some(v) => cs@.subrange(lo as int, hi as int) == dec_text(v as nat),
            None => forall|v: u8| cs@.subrange(lo as int, hi as int) != dec_text(v as nat),
        },
{
    let ghost piece = cs@.subrange(lo as int, hi as int);
    proof {
        assert forall|v: u8| #[trigger] dec_text(v as nat) == piece implies {
            &&& 1 <= piece.len() <= 3
            &&& (piece.len() > 1 ==> piece[0] != '0')
            &&& forall|i: int| 0 <= i < piece.len() ==> is_digit(#[trigger] piece[i])
            &&& digits_value(piece) == v
        } by {
            lemma_dec_text(v as nat);
        }
    }
    if hi - lo == 0 || hi - lo > 3 {
        return None;
    }
    if hi - lo > 1 && cs[lo] == '0' {
        return None;
    }
    let mut val: u32 = 0;
    let mut i = lo;
    while i < hi
        invariant
            lo <= i <= hi <= cs.len(),
            hi - lo <= 3,
            piece == cs@.subrange(lo as int, hi as int),
            forall|j: int| 0 <= j < i - lo ==> is_digit(#[trigger] piece[j]),
            val == digits_value(piece.subrange(0, i - lo)),
            i - lo <= 1 ==> val < 10,
            i - lo <= 2 ==> val < 100,
            val < 1000,
        decreases hi - i,
    {
        let c = cs[i];
        if !('0' <= c && c <= '9') {
            assert(piece[i - lo] == c);
            assert forall|v: u8| piece != dec_text(v as nat) by {
                lemma_dec_text(v as nat);
                if piece == dec_text(v as nat) {
                    assert(is_digit(piece[i - lo]));
                }
            }
            return None;
        }
        proof {
            let q = piece.subrange(0, i - lo + 1);
            assert(q.drop_last() =~= piece.subrange(0, i - lo));
            assert(q.last() == c);
            lemma_digit_value(c);
        }
        val = val * 10 + (c as u32 - '0' as u32);
        i = i + 1;
    }
    assert(piece.subrange(0, piece.len() as int) =~= piece);
    if val > 255 {
        return None;
    }
    proof {
        lemma_canonical_digits(piece);
    }
    Some(val as u8)
}

/// Reads a version 4 address in dotted decimal form.
pub(crate) fn parse_v4(cs: &Vec<char>) -> (r: Option<IpAddress>)
    ensures
        match r {
            Some(IpAddress::V4(a, b, c, d)) => cs@ == v4_text(a, b, c, d),
            Some(IpAddress::V6(..)) => false,
            None => forall|a: u8, b: u8, c: u8, d: u8| cs@ != #[trigger] v4_text(a, b, c, d),
        },
{
    let n = cs.len();
    let d1 = find_dot(cs, 0);
    let d2 = if d1 < n { find_dot(cs, d1 + 1) } else { n };
    let d3 = if d2 < n { find_dot(cs, d2 + 1) } else { n };
    let d4 = if d3 < n { find_dot(cs, d3 + 1) } else { n };
    let ghost shaped = d1 < n && d2 < n && d3 < n && d4 == n;
    proof {
        assert forall|a: u8, b: u8, c: u8, d: u8| cs@ == #[trigger] v4_text(a, b, c, d) implies {
            &&& shaped
            &&& cs@.subrange(0, d1 as int) == dec_text(a as nat)
            &&& cs@.subrange(d1 + 1, d2 as int) == dec_text(b as nat)
            &&& cs@.subrange(d2 + 1, d3 as int) == dec_text(c as nat)
            &&& cs@.subrange(d3 + 1, n as int) == dec_text(d as nat)
        } by {
            lemma_v4_text_shape(a, b, c, d);
            let p1 = dec_text(a as nat).len() as int;
            let p2 = p1 + 1 + dec_text(b as nat).len();
            let p3 = p2 + 1 + dec_text(c as nat).len();
            assert(d1 == p1) by {
                if d1 < p1 {
                    assert(is_digit(cs@[d1 as int]));
                }
            }
            assert(d2 == p2) by {
                if d2 < p2 {
                    assert(is_digit(cs@[d2 as int]));
                }
            }
            assert(d3 == p3) by {
                if d3 < p3 {
                    assert(is_digit(cs@[d3 as int]));
                }
            }
            assert(d4 == n) by {
                if d4 < n {
                    assert(is_digit(cs@[d4 as int]));
                }
            }
        }
    }
    if !(d1 < n && d2 < n && d3 < n && d4 == n) {
        return None;
    }
    let a = read_octet(cs, 0, d1);
    let b = read_octet(cs, d1 + 1, d2);
    let c = read_octet(cs, d2 + 1, d3);
    let d = read_octet(cs, d3 + 1, n);
    match (a, b, c, d) {
        (Some(a), Some(b), Some(c), Some(d)) => {
            assert(cs@ =~= v4_text(a, b, c, d));
            Some(IpAddress::V4(a, b, c, d))
        },
        _ => None,
    }
}

/// The eight groups of a version 6 address, in order.
pub open spec fn v6_seq(g0: u16, g1: u16, g2: u16, g3: u16, g4: u16, g5: u16, g6: u16, g7: u16) -> Seq<u16> {
    seq![g0, g1, g2, g3, g4, g5, g6, g7]
}

/// The text of an address: dotted decimal for version 4, the eight groups
/// in lower-case hexadecimal with colons between them for version 6.
pub open spec fn ip_text(a: IpAddress) -> Seq<char> {
    match a {
        IpAddress::V4(x, y, z, w) => v4_text(x, y, z, w),
        IpAddress::V6(g0, g1, g2, g3, g4, g5, g6, g7) => groups_text(v6_seq(g0, g1, g2, g3, g4, g5, g6, g7)),
    }
}

/// Whether `s` is the dotted decimal text of some version 4 address.
pub open spec fn is_v4_text(s: Seq<char>) -> bool {
    exists|a: u8, b: u8, c: u8, d: u8| v4_text(a, b, c, d) == s
}

/// The address that `s` writes, if it writes one: dotted decimal for
/// version 4, colon form for version 6.
pub open spec fn address_of(s: Seq<char>) -> Option<IpAddress> {
    if is_v4_text(s) {
        let (a, b, c, d) = choose|a: u8, b: u8, c: u8, d: u8| v4_text(a, b, c, d) == s;
        Some(IpAddress::V4(a, b, c, d))
    } else {
        match v6_groups(s) {
            Some(g) => Some(IpAddress::V6(g[0], g[1], g[2], g[3], g[4], g[5], g[6], g[7])),
            None => None,
        }
    }
}

/// Two version 4 addresses never share a text.
pub(crate) proof fn lemma_v4_text_injective(a0: u8, a1: u8, a2: u8, a3: u8, b0: u8, b1: u8, b2: u8, b3: u8)
    requires
        v4_text(a0, a1, a2, a3) == v4_text(b0, b1, b2, b3),
    ensures
        a0 == b0 && a1 == b1 && a2 == b2 && a3 == b3,
{
    let t = v4_text(a0, a1, a2, a3);
    lemma_v4_text_shape(a0, a1, a2, a3);
    lemma_v4_text_shape(b0, b1, b2, b3);
    let p1 = dec_text(a0 as nat).len() as int;
    let p2 = p1 + 1 + dec_text(a1 as nat).len();
    let p3 = p2 + 1 + dec_text(a2 as nat).len();
    let q1 = dec_text(b0 as nat).len() as int;
    let q2 = q1 + 1 + dec_text(b1 as nat).len();
    let q3 = q2 + 1 + dec_text(b2 as nat).len();
    assert(!is_digit('.'));
    assert(p1 == q1) by {
        if p1 < q1 { assert(is_digit(t[p1])); }
        if q1 < p1 { assert(is_digit(t[q1])); }
    }
    assert(p2 == q2) by {
        if p2 < q2 { assert(is_digit(t[p2])); }
        if q2 < p2 { assert(is_digit(t[q2])); }
    }
    assert(p3 == q3) by {
        if p3 < q3 { assert(is_digit(t[p3])); }
        if q3 < p3 { assert(is_digit(t[q3])); }
    }
    lemma_dec_text(a0 as nat);
    lemma_dec_text(a1 as nat);
    lemma_dec_text(a2 as nat);
    lemma_dec_text(a3 as nat);
    lemma_dec_text(b0 as nat);
    lemma_dec_text(b1 as nat);
    lemma_dec_text(b2 as nat);
    lemma_dec_text(b3 as nat);
}

/// A dotted decimal text has no colon.
proof fn lemma_v4_text_no_colon(a: u8, b: u8, c: u8, d: u8)
    ensures
        forall|i: int| 0 <= i < v4_text(a, b, c, d).len() ==> #[trigger] v4_text(a, b, c, d)[i] != ':',
{
    lemma_v4_text_shape(a, b, c, d);
    let t = v4_text(a, b, c, d);
    assert forall|i: int| 0 <= i < t.len() implies #[trigger] t[i] != ':' by {
        assert(!is_digit(':'));
    }
}

/// The text of an address is read back as that address.
pub proof fn lemma_address_of_text(a: IpAddress)
    ensures
        address_of(ip_text(a)) == Some(a),
{
    match a {
        IpAddress::V4(x, y, z, w) => {
            assert(v4_text(x, y, z, w) == ip_text(a));
            assert(is_v4_text(ip_text(a)));
            let (p, q, r, s) = choose|p: u8, q: u8, r: u8, s: u8| v4_text(p, q, r, s) == ip_text(a);
            lemma_v4_text_injective(x, y, z, w, p, q, r, s);
        },
        IpAddress::V6(g0, g1, g2, g3, g4, g5, g6, g7) => {
            let gs = v6_seq(g0, g1, g2, g3, g4, g5, g6, g7);
            lemma_v6_round_trip(gs);
            let t = ip_text(a);
            let i = choose|i: int| 0 <= i < t.len() && t[i] == ':';
            assert(!is_v4_text(t)) by {
                if is_v4_text(t) {
                    let (p, q, r, s) = choose|p: u8, q: u8, r: u8, s: u8| v4_text(p, q, r, s) == t;
                    lemma_v4_text_no_colon(p, q, r, s);
                    assert(t[i] != ':');
                }
            }
        },
    }
}

/// The decimal text of `n`.
fn dec_string(n: u8) -> (r: String)
    ensures
        r@ == dec_text(n as nat),
{
    let mut out = String::new();
    if n >= 100 {
        push_char(&mut out, digit_of(n / 100));
    }
    if n >= 10 {
        push_char(&mut out, digit_of(n / 10 % 10));
    }
    push_char(&mut out, digit_of(n % 10));
    proof {
        if n >= 10 {
            assert(dec_text(n as nat) == dec_text(n as nat / 10) + seq![digit_char(n as nat % 10)]);
            if n >= 100 {
                assert(dec_text(n as nat / 10) == dec_text(n as nat / 100) + seq![digit_char(n as nat / 10 % 10)]);
            }
        }
    }
    out
}

/// The character of the decimal digit `d`.
fn digit_of(d: u8) -> (r: char)
    requires
        d < 10,
    ensures
        r == digit_char(d as nat),
{
    if d == 0 { '0' } else if d == 1 { '1' } else if d == 2 { '2' } else if d == 3 { '3' }
    else if d == 4 { '4' } else if d == 5 { '5' } else if d == 6 { '6' } else if d == 7 { '7' }
    else if d == 8 { '8' } else { '9' }
}

/// Relies on String::push: appends one character.
#[verifier::external_body]
pub(crate) fn push_char(s: &mut String, c: char)
    ensures
        final(s)@ == old(s)@.push(c),
{
    s.push(c);
}

/// Relies on String::push_str: appends a string.
#[verifier::external_body]
pub(crate) fn push_text(s: &mut String, t: &str)
    ensures
        final(s)@ == old(s)@ + t@,
{
    s.push_str(t);
}

impl IpAddress {
    /// Reads an address from its text; `None` where `s` writes no address.
    pub fn parse(s: &str) -> (r: Option<IpAddress>)
        ensures
            r == address_of(s@),
    {
        let cs = text_chars(s);
        match parse_v4(&cs) {
            Some(a) => {
                proof {
                    lemma_address_of_text(a);
                }
                Some(a)
            },
            None => {
                assert(!is_v4_text(s@));
                match parse_v6(&cs) {
                    Some(g) => Some(IpAddress::V6(g[0], g[1], g[2], g[3], g[4], g[5], g[6], g[7])),
                    None => None,
                }
            },
        }
    }

    /// The text of the address.
    pub fn to_text(&self) -> (r: String)
        ensures
            r@ == ip_text(*self),
    {
        match *self {
            IpAddress::V4(a, b, c, d) => {
                let mut out = dec_string(a);
                push_char(&mut out, '.');
                let t = dec_string(b);
                push_text(&mut out, t.as_str());
                push_char(&mut out, '.');
                let t = dec_string(c);
                push_text(&mut out, t.as_str());
                push_char(&mut out, '.');
                let t = dec_string(d);
                push_text(&mut out, t.as_str());
                out
            },
            IpAddress::V6(g0, g1, g2, g3, g4, g5, g6, g7) => {
                let gs: Vec<u16> = vec![g0, g1, g2, g3, g4, g5, g6, g7];
                assert(gs@ =~= v6_seq(g0, g1, g2, g3, g4, g5, g6, g7));
                groups_string(&gs)
            },
        }
    }
}

} // verus!
