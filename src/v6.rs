use vstd::prelude::*;
use crate::address::{IpAddress, is_v4_text, lemma_v4_text_injective, lemma_v4_text_shape, parse_v4, push_char, push_text, v4_text};

verus! {

/// The value of a hexadecimal digit, in either case.
pub open spec fn hex_digit_value(c: char) -> Option<nat> {
    if '0' <= c <= '9' {
        Some((c as nat - '0' as nat) as nat)
    } else if 'a' <= c <= 'f' {
        Some((c as nat - 'a' as nat + 10) as nat)
    } else if 'A' <= c <= 'F' {
        Some((c as nat - 'A' as nat + 10) as nat)
    } else {
        None
    }
}

/// The value of a string of hexadecimal digits.
pub open spec fn hex_value(t: Seq<char>) -> Option<nat>
    decreases t.len(),
{
    if t.len() == 0 {
        Some(0)
    } else {
        match (hex_value(t.drop_last()), hex_digit_value(t.last())) {
            (Some(v), Some(d)) => Some(v * 16 + d),
            _ => None,
        }
    }
}

/// The group written by one to four hexadecimal digits.
pub open spec fn hex_group(t: Seq<char>) -> Option<u16> {
    if 1 <= t.len() <= 4 {
        match hex_value(t) {
            Some(v) => Some(v as u16),
            None => None,
        }
    } else {
        None
    }
}

/// The pieces of `s` between colons, as `str::split(':')` gives them.
pub open spec fn colon_split(s: Seq<char>) -> Seq<Seq<char>>
    decreases s.len(),
{
    if s.len() == 0 {
        seq![Seq::empty()]
    } else {
        let p = colon_split(s.drop_last());
        if s.last() == ':' {
            p.push(Seq::empty())
        } else {
            p.update(p.len() - 1, p.last().push(s.last()))
        }
    }
}

/// The groups written by a sequence of pieces, each one to four hexadecimal
/// digits.
pub open spec fn groups_of(ps: Seq<Seq<char>>) -> Option<Seq<u16>>
    decreases ps.len(),
{
    if ps.len() == 0 {
        Some(Seq::empty())
    } else {
        match (groups_of(ps.drop_last()), hex_group(ps.last())) {
            (Some(g), Some(x)) => Some(g.push(x)),
            _ => None,
        }
    }
}

/// `n` zero groups.
pub open spec fn zero_groups(n: nat) -> Seq<u16> {
    Seq::new(n, |i: int| 0u16)
}

/// The two groups that a dotted decimal text stands for.
pub open spec fn v4_groups(t: Seq<char>) -> Seq<u16> {
    let (a, b, c, d) = choose|a: u8, b: u8, c: u8, d: u8| v4_text(a, b, c, d) == t;
    seq![(a as nat * 256 + b as nat) as u16, (c as nat * 256 + d as nat) as u16]
}

/// The groups written by the pieces at the end of an address: groups, the
/// last of which may be a dotted decimal text that stands for two.
pub open spec fn tail_groups(ps: Seq<Seq<char>>) -> Option<Seq<u16>> {
    if ps.len() >= 1 && is_v4_text(ps.last()) {
        match groups_of(ps.drop_last()) {
            Some(g) => Some(g + v4_groups(ps.last())),
            None => None,
        }
    } else {
        groups_of(ps)
    }
}

/// Whether the pieces open with the empty pair that a leading `::` leaves.
pub open spec fn lead_gap(ps: Seq<Seq<char>>) -> bool {
    ps.len() >= 2 && ps[0].len() == 0 && ps[1].len() == 0
}

/// The pieces without the extra empty piece of a leading or trailing `::`.
pub open spec fn core_pieces(ps: Seq<Seq<char>>) -> Seq<Seq<char>> {
    let lo: int = if lead_gap(ps) { 1 } else { 0 };
    let q = ps.subrange(lo, ps.len() as int);
    if trail_gap(q) { q.drop_last() } else { q }
}

/// Whether the pieces close with the empty pair that a trailing `::` leaves.
pub open spec fn trail_gap(q: Seq<Seq<char>>) -> bool {
    q.len() >= 2 && q[q.len() - 1].len() == 0 && q[q.len() - 2].len() == 0
}

/// The eight groups of a version 6 address in colon form: eight groups, or
/// fewer with one `::` that stands for at least one zero group; the last
/// two groups may be written as a dotted decimal text.
pub open spec fn v6_groups(s: Seq<char>) -> Option<Seq<u16>> {
    let ps = colon_split(s);
    let lead = lead_gap(ps);
    let trail = trail_gap(if lead { ps.drop_first() } else { ps });
    let r = core_pieces(ps);
    if exists|k: int| 0 <= k < r.len() && r[k].len() == 0 {
        let k = choose|k: int| 0 <= k < r.len() && r[k].len() == 0;
        if (k == 0 ==> lead) && (k == r.len() - 1 ==> trail) {
            match (groups_of(r.take(k)), tail_groups(r.skip(k + 1))) {
                (Some(h), Some(t)) => if h.len() + t.len() <= 7 {
                    Some(h + zero_groups((8 - h.len() - t.len()) as nat) + t)
                } else {
                    None
                },
                _ => None,
            }
        } else {
            None
        }
    } else {
        match tail_groups(r) {
            Some(g) => if g.len() == 8 { Some(g) } else { None },
            None => None,
        }
    }
}

/// Each range lies within a text of length `len`.
pub open spec fn ranges_ok(len: nat, ranges: Seq<(usize, usize)>) -> bool {
    forall|i: int| 0 <= i < ranges.len() ==> (#[trigger] ranges[i]).0 <= ranges[i].1 <= len
}

/// The pieces that `ranges` cut out of `cs`.
pub open spec fn pieces_at(cs: Seq<char>, ranges: Seq<(usize, usize)>) -> Seq<Seq<char>> {
    ranges.map_values(|r: (usize, usize)| cs.subrange(r.0 as int, r.1 as int))
}

/// Cuts `cs` at its colons: the bounds of each piece.
fn split_colons(cs: &Vec<char>) -> (r: Vec<(usize, usize)>)
    ensures
        pieces_at(cs@, r@) == colon_split(cs@),
        ranges_ok(cs@.len(), r@),
{
    let mut out: Vec<(usize, usize)> = Vec::new();
    let mut start: usize = 0;
    let mut i: usize = 0;
    assert(cs@.take(0) =~= Seq::<char>::empty());
    assert(pieces_at(cs@, out@).push(cs@.subrange(0, 0)) =~= seq![Seq::<char>::empty()]);
    while i < cs.len()
        invariant
            start <= i <= cs@.len(),
            ranges_ok(cs@.len(), out@),
            pieces_at(cs@, out@).push(cs@.subrange(start as int, i as int)) == colon_split(cs@.take(i as int)),
        decreases cs.len() - i,
    {
        let ghost t = cs@.take(i + 1);
        assert(t.drop_last() =~= cs@.take(i as int));
        if cs[i] == ':' {
            let ghost before = out@;
            out.push((start, i));
            assert forall|j: int| 0 <= j < out@.len() implies (#[trigger] out@[j]).0 <= out@[j].1 <= cs@.len() by {
                if j < before.len() {
                    assert(out@[j] == before[j]);
                }
            }
            start = i + 1;
            assert(pieces_at(cs@, out@) =~= colon_split(cs@.take(i as int)));
            assert(cs@.subrange(start as int, i + 1) =~= Seq::<char>::empty());
        } else {
            assert(cs@.subrange(start as int, i + 1) =~= cs@.subrange(start as int, i as int).push(cs@[i as int]));
        }
        i = i + 1;
        assert(pieces_at(cs@, out@).push(cs@.subrange(start as int, i as int)) =~= colon_split(cs@.take(i as int)));
    }
    out.push((start, i));
    assert(cs@.take(i as int) =~= cs@);
    assert(pieces_at(cs@, out@) =~= colon_split(cs@));
    out
}

/// The value of a hexadecimal digit.
fn hex_digit(c: char) -> (r: Option<u32>)
    ensures
        match r {
            Some(v) => hex_digit_value(c) == Some(v as nat) && v < 16,
            None => hex_digit_value(c) is None,
        },
{
    if '0' <= c && c <= '9' {
        Some(c as u32 - '0' as u32)
    } else if 'a' <= c && c <= 'f' {
        Some(c as u32 - 'a' as u32 + 10)
    } else if 'A' <= c && c <= 'F' {
        Some(c as u32 - 'A' as u32 + 10)
    } else {
        None
    }
}

/// Reads the group written in `cs[lo..hi]`.
fn read_group(cs: &Vec<char>, lo: usize, hi: usize) -> (r: Option<u16>)
    requires
        lo <= hi <= cs.len(),
    ensures
        r == hex_group(cs@.subrange(lo as int, hi as int)),
{
    let ghost piece = cs@.subrange(lo as int, hi as int);
    if hi - lo == 0 || hi - lo > 4 {
        return None;
    }
    let mut val: u32 = 0;
    let mut i = lo;
    while i < hi
        invariant
            lo <= i <= hi <= cs.len(),
            hi - lo <= 4,
            piece == cs@.subrange(lo as int, hi as int),
            hex_value(piece.subrange(0, i - lo)) == Some(val as nat),
            i - lo <= 1 ==> val < 16,
            i - lo <= 2 ==> val < 256,
            i - lo <= 3 ==> val < 4096,
            val < 65536,
        decreases hi - i,
    {
        let ghost q = piece.subrange(0, i - lo + 1);
        assert(q.drop_last() =~= piece.subrange(0, i - lo));
        assert(q.last() == cs@[i as int]);
        match hex_digit(cs[i]) {
            Some(d) => {
                val = val * 16 + d;
            },
            None => {
                proof {
                    lemma_hex_value_prefix(piece, i - lo + 1);
                }
                return None;
            },
        }
        i = i + 1;
    }
    assert(piece.subrange(0, piece.len() as int) =~= piece);
    Some(val as u16)
}

/// A text with a prefix that has no hexadecimal value has none itself.
proof fn lemma_hex_value_prefix(t: Seq<char>, k: int)
    requires
        0 <= k <= t.len(),
        hex_value(t.subrange(0, k)) is None,
    ensures
        hex_value(t) is None,
    decreases t.len() - k,
{
    if k < t.len() {
        let q = t.subrange(0, k + 1);
        assert(q.drop_last() =~= t.subrange(0, k));
        lemma_hex_value_prefix(t, k + 1);
    } else {
        assert(t.subrange(0, k) =~= t);
    }
}

/// Every piece of a sequence that writes groups is non-empty, and each
/// piece writes one group.
proof fn lemma_groups_nonempty(ps: Seq<Seq<char>>)
    requires
        groups_of(ps) is Some,
    ensures
        forall|i: int| 0 <= i < ps.len() ==> (#[trigger] ps[i]).len() >= 1,
        groups_of(ps)->Some_0.len() == ps.len(),
    decreases ps.len(),
{
    if ps.len() > 0 {
        lemma_groups_nonempty(ps.drop_last());
        assert forall|i: int| 0 <= i < ps.len() implies (#[trigger] ps[i]).len() >= 1 by {
            if i < ps.len() - 1 {
                assert(ps[i] == ps.drop_last()[i]);
            }
        }
    }
}

/// Reads the groups written by the pieces `from..to`.
fn read_groups(cs: &Vec<char>, ranges: &Vec<(usize, usize)>, from: usize, to: usize) -> (r: Option<Vec<u16>>)
    requires
        from <= to <= ranges@.len(),
        ranges_ok(cs@.len(), ranges@),
    ensures
        match r {
            Some(g) => groups_of(pieces_at(cs@, ranges@).subrange(from as int, to as int)) == Some(g@)
                && g@.len() == to - from,
            None => groups_of(pieces_at(cs@, ranges@).subrange(from as int, to as int)) is None,
        },
{
    let ghost ps = pieces_at(cs@, ranges@);
    let mut out: Vec<u16> = Vec::new();
    let mut i = from;
    assert(ps.subrange(from as int, from as int) =~= Seq::<Seq<char>>::empty());
    while i < to
        invariant
            from <= i <= to <= ranges@.len(),
            ps == pieces_at(cs@, ranges@),
            ranges_ok(cs@.len(), ranges@),
            groups_of(ps.subrange(from as int, i as int)) == Some(out@),
        decreases to - i,
    {
        let ghost q = ps.subrange(from as int, i + 1);
        assert(q.drop_last() =~= ps.subrange(from as int, i as int));
        assert(q.last() == cs@.subrange(ranges@[i as int].0 as int, ranges@[i as int].1 as int));
        let (lo, hi) = ranges[i];
        match read_group(cs, lo, hi) {
            Some(g) => {
                out.push(g);
            },
            None => {
                proof {
                    lemma_groups_prefix(ps.subrange(from as int, to as int), i - from + 1);
                    assert(ps.subrange(from as int, to as int).subrange(0, i - from + 1) =~= q);
                }
                return None;
            },
        }
        i = i + 1;
    }
    proof {
        lemma_groups_nonempty(ps.subrange(from as int, to as int));
    }
    Some(out)
}

/// A sequence of pieces with a prefix that writes no groups writes no groups.
proof fn lemma_groups_prefix(ps: Seq<Seq<char>>, k: int)
    requires
        0 <= k <= ps.len(),
        groups_of(ps.subrange(0, k)) is None,
    ensures
        groups_of(ps) is None,
    decreases ps.len() - k,
{
    if k < ps.len() {
        let q = ps.subrange(0, k + 1);
        assert(q.drop_last() =~= ps.subrange(0, k));
        lemma_groups_prefix(ps, k + 1);
    } else {
        assert(ps.subrange(0, k) =~= ps);
    }
}

/// Every piece of a sequence that writes tail groups is non-empty.
proof fn lemma_tail_nonempty(ps: Seq<Seq<char>>)
    requires
        tail_groups(ps) is Some,
    ensures
        forall|i: int| 0 <= i < ps.len() ==> (#[trigger] ps[i]).len() >= 1,
{
    if ps.len() >= 1 && is_v4_text(ps.last()) {
        let p = ps.drop_last();
        lemma_groups_nonempty(p);
        let (a, b, c, d) = choose|a: u8, b: u8, c: u8, d: u8| v4_text(a, b, c, d) == ps.last();
        lemma_v4_text_shape(a, b, c, d);
        assert forall|i: int| 0 <= i < ps.len() implies (#[trigger] ps[i]).len() >= 1 by {
            if i < p.len() {
                assert(ps[i] == p[i]);
            }
        }
    } else {
        lemma_groups_nonempty(ps);
    }
}

/// The characters of `cs[lo..hi]`.
fn chars_between(cs: &Vec<char>, lo: usize, hi: usize) -> (r: Vec<char>)
    requires
        lo <= hi <= cs@.len(),
    ensures
        r@ == cs@.subrange(lo as int, hi as int),
{
    let mut out: Vec<char> = Vec::new();
    let mut i = lo;
    while i < hi
        invariant
            lo <= i <= hi <= cs@.len(),
            out@ == cs@.subrange(lo as int, i as int),
        decreases hi - i,
    {
        out.push(cs[i]);
        assert(cs@.subrange(lo as int, i + 1) =~= cs@.subrange(lo as int, i as int).push(cs@[i as int]));
        i = i + 1;
    }
    out
}

/// Reads the groups at the end of an address, written by the pieces `from..to`.
fn read_tail_groups(cs: &Vec<char>, ranges: &Vec<(usize, usize)>, from: usize, to: usize) -> (r: Option<Vec<u16>>)
    requires
        from <= to <= ranges@.len(),
        ranges_ok(cs@.len(), ranges@),
    ensures
        match r {
            Some(g) => tail_groups(pieces_at(cs@, ranges@).subrange(from as int, to as int)) == Some(g@)
                && g@.len() <= to - from + 1,
            None => tail_groups(pieces_at(cs@, ranges@).subrange(from as int, to as int)) is None,
        },
{
    let ghost ps = pieces_at(cs@, ranges@).subrange(from as int, to as int);
    if to > from {
        let (lo, hi) = ranges[to - 1];
        let piece = chars_between(cs, lo, hi);
        assert(piece@ == ps.last());
        assert(ps.drop_last() =~= pieces_at(cs@, ranges@).subrange(from as int, to - 1));
        match parse_v4(&piece) {
            Some(IpAddress::V4(a, b, c, d)) => {
                proof {
                    assert(is_v4_text(ps.last()));
                    let (p, q, r, s) = choose|p: u8, q: u8, r: u8, s: u8| v4_text(p, q, r, s) == ps.last();
                    lemma_v4_text_injective(a, b, c, d, p, q, r, s);
                }
                match read_groups(cs, ranges, from, to - 1) {
                    Some(g) => {
                        let mut g = g;
                        let ghost g0 = g@;
                        g.push((a as u16) * 256 + b as u16);
                        g.push((c as u16) * 256 + d as u16);
                        assert(g@ =~= g0 + v4_groups(ps.last()));
                        Some(g)
                    },
                    None => None,
                }
            },
            _ => {
                assert(!is_v4_text(ps.last()));
                read_groups(cs, ranges, from, to)
            },
        }
    } else {
        read_groups(cs, ranges, from, to)
    }
}

/// With two empty pieces, whichever is taken for the gap, the other leaves
/// its side unreadable.
proof fn lemma_two_gaps(r: Seq<Seq<char>>, e1: int, e2: int, k: int)
    requires
        0 <= e1 < e2 < r.len(),
        r[e1].len() == 0,
        r[e2].len() == 0,
        0 <= k < r.len(),
    ensures
        groups_of(r.take(k)) is None || tail_groups(r.skip(k + 1)) is None,
{
    let e = if e1 != k { e1 } else { e2 };
    if e < k {
        if groups_of(r.take(k)) is Some {
            lemma_groups_nonempty(r.take(k));
            assert(r.take(k)[e] == r[e]);
        }
    } else {
        if tail_groups(r.skip(k + 1)) is Some {
            lemma_tail_nonempty(r.skip(k + 1));
            assert(r.skip(k + 1)[e - k - 1] == r[e]);
        }
    }
}

/// `h`, then zero groups up to eight in all, then `t`.
fn fill_gap(h: Vec<u16>, t: &Vec<u16>) -> (r: Vec<u16>)
    requires
        h@.len() + t@.len() <= 7,
    ensures
        r@ == h@ + zero_groups((8 - h@.len() - t@.len()) as nat) + t@,
{
    let ghost zs = zero_groups((8 - h@.len() - t@.len()) as nat);
    let mut out = h;
    let ghost h0 = out@;
    let fill = 8 - out.len() - t.len();
    let mut z: usize = 0;
    while z < fill
        invariant
            z <= fill,
            fill == zs.len(),
            zs == zero_groups(fill as nat),
            out@ == h0 + zs.take(z as int),
        decreases fill - z,
    {
        out.push(0);
        assert(zs[z as int] == 0u16);
        assert(zs.take(z + 1) =~= zs.take(z as int).push(0u16));
        z = z + 1;
    }
    assert(zs.take(z as int) =~= zs);
    let ghost mid = out@;
    let mut j: usize = 0;
    while j < t.len()
        invariant
            j <= t@.len(),
            out@ == mid + t@.take(j as int),
        decreases t.len() - j,
    {
        out.push(t[j]);
        assert(t@.take(j + 1) =~= t@.take(j as int).push(t@[j as int]));
        j = j + 1;
    }
    assert(t@.take(j as int) =~= t@);
    assert(out@ =~= h0 + zs + t@);
    out
}

/// The first empty piece among `from..to`, or `to`.
fn find_gap(ranges: &Vec<(usize, usize)>, from: usize, to: usize) -> (k: usize)
    requires
        from <= to <= ranges@.len(),
    ensures
        from <= k <= to,
        k < to ==> ranges@[k as int].0 == ranges@[k as int].1,
        forall|j: int| from <= j < k ==> (#[trigger] ranges@[j]).0 != ranges@[j].1,
{
    let mut k = from;
    while k < to && ranges[k].0 != ranges[k].1
        invariant
            from <= k <= to <= ranges@.len(),
            forall|j: int| from <= j < k ==> (#[trigger] ranges@[j]).0 != ranges@[j].1,
        decreases to - k,
    {
        k = k + 1;
    }
    k
}

/// The groups of the pieces before and after the gap at `k`, with zero
/// groups between them up to eight in all.
fn join_around_gap(cs: &Vec<char>, ranges: &Vec<(usize, usize)>, lo: usize, k: usize, hi: usize) -> (r: Option<Vec<u16>>)
    requires
        lo <= k < hi <= ranges@.len(),
        ranges_ok(cs@.len(), ranges@),
    ensures
        match r {
            Some(g) => Some(g@) == join_spec(pieces_at(cs@, ranges@), lo as int, k as int, hi as int),
            None => join_spec(pieces_at(cs@, ranges@), lo as int, k as int, hi as int) is None,
        },
{
    let head = read_groups(cs, ranges, lo, k);
    let tail = read_tail_groups(cs, ranges, k + 1, hi);
    match (head, tail) {
        (Some(h), Some(t)) => {
            if h.len() + t.len() > 7 {
                None
            } else {
                Some(fill_gap(h, &t))
            }
        },
        _ => None,
    }
}

/// The groups around the gap at `k` among the pieces `lo..hi`.
pub open spec fn join_spec(ps: Seq<Seq<char>>, lo: int, k: int, hi: int) -> Option<Seq<u16>> {
    match (groups_of(ps.subrange(lo, k)), tail_groups(ps.subrange(k + 1, hi))) {
        (Some(h), Some(t)) => if h.len() + t.len() <= 7 {
            Some(h + zero_groups((8 - h.len() - t.len()) as nat) + t)
        } else {
            None
        },
        _ => None,
    }
}

/// Reads the eight groups of a version 6 address in colon form.
pub(crate) fn parse_v6(cs: &Vec<char>) -> (r: Option<Vec<u16>>)
    ensures
        match r {
            Some(g) => v6_groups(cs@) == Some(g@) && g@.len() == 8,
            None => v6_groups(cs@) is None,
        },
{
    let ranges = split_colons(cs);
    let ghost ps = pieces_at(cs@, ranges@);
    let n = ranges.len();
    assert forall|i: int| 0 <= i < n implies ((#[trigger] ps[i]).len() == 0 <==> ranges@[i].0 == ranges@[i].1) by {
        assert(ps[i].len() == ranges@[i].1 - ranges@[i].0);
    }
    let lead = n >= 2 && ranges[0].0 == ranges[0].1 && ranges[1].0 == ranges[1].1;
    let lo: usize = if lead { 1 } else { 0 };
    let trail = n >= lo + 2 && ranges[n - 1].0 == ranges[n - 1].1 && ranges[n - 2].0 == ranges[n - 2].1;
    let hi: usize = if trail { n - 1 } else { n };
    let ghost r = ps.subrange(lo as int, hi as int);
    proof {
        assert(lead == lead_gap(ps));
        let q = if lead { ps.drop_first() } else { ps };
        assert(q =~= ps.subrange(lo as int, n as int));
        assert(trail == trail_gap(q));
        assert(core_pieces(ps) =~= r);
    }
    let k = find_gap(&ranges, lo, hi);
    if k < hi {
        let m = find_gap(&ranges, k + 1, hi);
        if m < hi {
            proof {
                assert(r[k - lo].len() == 0);
                assert(r[m - lo].len() == 0);
                let kc = choose|kc: int| 0 <= kc < r.len() && r[kc].len() == 0;
                lemma_two_gaps(r, k - lo, m - lo, kc);
            }
            return None;
        }
        proof {
            assert(r[k - lo].len() == 0);
            let kc = choose|kc: int| 0 <= kc < r.len() && r[kc].len() == 0;
            assert(kc == k - lo) by {
                if kc != k - lo {
                    assert(ranges@[lo + kc].0 != ranges@[lo + kc].1);
                }
            }
            assert(r.take(k - lo) =~= ps.subrange(lo as int, k as int));
            assert(r.skip(k - lo + 1) =~= ps.subrange(k + 1, hi as int));
        }
        if (k == lo && !lead) || (k == hi - 1 && !trail) {
            return None;
        }
        join_around_gap(cs, &ranges, lo, k, hi)
    } else {
        proof {
            assert forall|kc: int| 0 <= kc < r.len() implies r[kc].len() != 0 by {
                assert(ranges@[lo + kc].0 != ranges@[lo + kc].1);
            }
        }
        match read_tail_groups(cs, &ranges, lo, hi) {
            Some(g) => if g.len() == 8 { Some(g) } else { None },
            None => None,
        }
    }
}

/// The lower-case character of the hexadecimal digit `d`.
pub open spec fn hex_char(d: nat) -> char {
    if d == 0 { '0' } else if d == 1 { '1' } else if d == 2 { '2' } else if d == 3 { '3' }
    else if d == 4 { '4' } else if d == 5 { '5' } else if d == 6 { '6' } else if d == 7 { '7' }
    else if d == 8 { '8' } else if d == 9 { '9' } else if d == 10 { 'a' } else if d == 11 { 'b' }
    else if d == 12 { 'c' } else if d == 13 { 'd' } else if d == 14 { 'e' } else { 'f' }
}

/// The shortest lower-case hexadecimal text of `n`.
pub open spec fn hex_text(n: nat) -> Seq<char>
    decreases n,
{
    if n < 16 {
        seq![hex_char(n)]
    } else {
        hex_text(n / 16) + seq![hex_char(n % 16)]
    }
}

/// The groups written in full, with colons between them.
pub open spec fn groups_text(gs: Seq<u16>) -> Seq<char>
    decreases gs.len(),
{
    if gs.len() <= 1 {
        if gs.len() == 0 { Seq::empty() } else { hex_text(gs[0] as nat) }
    } else {
        groups_text(gs.drop_last()) + seq![':'] + hex_text(gs.last() as nat)
    }
}

proof fn lemma_hex_char(d: nat)
    requires
        d < 16,
    ensures
        hex_digit_value(hex_char(d)) == Some(d),
        hex_char(d) != ':',
        hex_char(d) != '.',
{
}

proof fn lemma_hex_text(n: nat)
    ensures
        1 <= hex_text(n).len(),
        n < 65536 ==> hex_text(n).len() <= 4,
        n < 4096 ==> hex_text(n).len() <= 3,
        n < 256 ==> hex_text(n).len() <= 2,
        hex_value(hex_text(n)) == Some(n),
        forall|i: int| 0 <= i < hex_text(n).len() ==> #[trigger] hex_text(n)[i] != ':' && hex_text(n)[i] != '.',
    decreases n,
{
    lemma_hex_char(n % 16);
    let t = hex_text(n);
    if n >= 16 {
        lemma_hex_text(n / 16);
        let h = hex_text(n / 16);
        assert(t.drop_last() =~= h);
        assert(t.last() == hex_char(n % 16));
        assert(hex_value(t) == Some((n / 16) * 16 + n % 16));
        assert forall|i: int| 0 <= i < t.len() implies #[trigger] t[i] != ':' && t[i] != '.' by {
            if i < h.len() {
                assert(t[i] == h[i]);
            }
        }
    } else {
        lemma_hex_char(n);
        assert(t.drop_last() =~= Seq::<char>::empty());
        assert(t.last() == hex_char(n));
        assert(hex_value(t.drop_last()) == Some(0nat));
    }
}

/// Splitting gives at least one piece.
proof fn lemma_colon_split_len(s: Seq<char>)
    ensures
        colon_split(s).len() >= 1,
    decreases s.len(),
{
    if s.len() > 0 {
        lemma_colon_split_len(s.drop_last());
    }
}

/// A text without colons is one piece.
proof fn lemma_colon_split_plain(s: Seq<char>)
    requires
        forall|i: int| 0 <= i < s.len() ==> #[trigger] s[i] != ':',
    ensures
        colon_split(s) == seq![s],
    decreases s.len(),
{
    if s.len() > 0 {
        let p = s.drop_last();
        lemma_colon_split_plain(p);
        assert(s.last() == s[s.len() - 1]);
        assert(p.push(s.last()) =~= s);
        assert(seq![p].update(0, p.push(s.last())) =~= seq![s]);
    } else {
        assert(s =~= Seq::<char>::empty());
    }
}

/// Splitting at a colon splits the pieces there.
proof fn lemma_colon_split_join(a: Seq<char>, b: Seq<char>)
    ensures
        colon_split(a + seq![':'] + b) == colon_split(a) + colon_split(b),
    decreases b.len(),
{
    let s = a + seq![':'] + b;
    if b.len() == 0 {
        assert(s.drop_last() =~= a);
        assert(colon_split(a).push(Seq::empty()) =~= colon_split(a) + seq![Seq::<char>::empty()]);
    } else {
        let b0 = b.drop_last();
        lemma_colon_split_join(a, b0);
        lemma_colon_split_len(b0);
        assert(s.drop_last() =~= a + seq![':'] + b0);
        assert(s.last() == b.last());
        let pa = colon_split(a);
        let pb = colon_split(b0);
        if b.last() == ':' {
            assert((pa + pb).push(Seq::empty()) =~= pa + pb.push(Seq::empty()));
        } else {
            assert((pa + pb).update((pa + pb).len() - 1, (pa + pb).last().push(b.last()))
                =~= pa + pb.update(pb.len() - 1, pb.last().push(b.last())));
        }
    }
}

/// The full text of groups splits into their texts.
proof fn lemma_split_groups_text(gs: Seq<u16>)
    requires
        gs.len() >= 1,
    ensures
        colon_split(groups_text(gs)) == gs.map_values(|g: u16| hex_text(g as nat)),
    decreases gs.len(),
{
    let last = hex_text(gs.last() as nat);
    lemma_hex_text(gs.last() as nat);
    lemma_colon_split_plain(last);
    if gs.len() == 1 {
        lemma_hex_text(gs[0] as nat);
        lemma_colon_split_plain(hex_text(gs[0] as nat));
        assert(gs.map_values(|g: u16| hex_text(g as nat)) =~= seq![hex_text(gs[0] as nat)]);
    } else {
        let p = gs.drop_last();
        lemma_split_groups_text(p);
        lemma_colon_split_join(groups_text(p), last);
        assert(gs.map_values(|g: u16| hex_text(g as nat)) =~= p.map_values(|g: u16| hex_text(g as nat)).push(last));
    }
}

/// The texts of groups read back as those groups.
proof fn lemma_groups_of_texts(gs: Seq<u16>)
    ensures
        groups_of(gs.map_values(|g: u16| hex_text(g as nat))) == Some(gs),
    decreases gs.len(),
{
    let ps = gs.map_values(|g: u16| hex_text(g as nat));
    if gs.len() > 0 {
        let p = gs.drop_last();
        lemma_groups_of_texts(p);
        assert(ps.drop_last() =~= p.map_values(|g: u16| hex_text(g as nat)));
        lemma_hex_text(gs.last() as nat);
        assert(gs.last() as nat as u16 == gs.last());
        assert(p.push(gs.last()) =~= gs);
    } else {
        assert(gs =~= Seq::<u16>::empty());
    }
}

/// The full text of eight groups reads back as those groups.
pub proof fn lemma_v6_round_trip(gs: Seq<u16>)
    requires
        gs.len() == 8,
    ensures
        v6_groups(groups_text(gs)) == Some(gs),
        exists|i: int| 0 <= i < groups_text(gs).len() && groups_text(gs)[i] == ':',
{
    let ps = gs.map_values(|g: u16| hex_text(g as nat));
    lemma_split_groups_text(gs);
    lemma_groups_of_texts(gs);
    assert forall|i: int| 0 <= i < ps.len() implies (#[trigger] ps[i]).len() >= 1 by {
        lemma_hex_text(gs[i] as nat);
    }
    assert(!lead_gap(ps));
    assert(!trail_gap(ps));
    assert(!is_v4_text(ps.last())) by {
        if is_v4_text(ps.last()) {
            let (a, b, c, d) = choose|a: u8, b: u8, c: u8, d: u8| v4_text(a, b, c, d) == ps.last();
            lemma_v4_text_shape(a, b, c, d);
            lemma_hex_text(gs.last() as nat);
            assert(ps.last() == hex_text(gs.last() as nat));
            let p1 = crate::address::dec_text(a as nat).len() as int;
            assert(ps.last()[p1] == '.');
        }
    }
    assert(core_pieces(ps) =~= ps);
    let t = groups_text(gs);
    let a = groups_text(gs.drop_last());
    assert(t == a + seq![':'] + hex_text(gs.last() as nat));
    assert(t[a.len() as int] == ':');
}

/// The character of the hexadecimal digit `d`.
fn hex_digit_char(d: u16) -> (r: char)
    requires
        d < 16,
    ensures
        r == hex_char(d as nat),
{
    if d == 0 { '0' } else if d == 1 { '1' } else if d == 2 { '2' } else if d == 3 { '3' }
    else if d == 4 { '4' } else if d == 5 { '5' } else if d == 6 { '6' } else if d == 7 { '7' }
    else if d == 8 { '8' } else if d == 9 { '9' } else if d == 10 { 'a' } else if d == 11 { 'b' }
    else if d == 12 { 'c' } else if d == 13 { 'd' } else if d == 14 { 'e' } else { 'f' }
}

/// The hexadecimal text of one group.
fn hex_string(n: u16) -> (r: String)
    ensures
        r@ == hex_text(n as nat),
{
    let mut out = String::new();
    if n >= 4096 {
        push_char(&mut out, hex_digit_char(n / 4096));
    }
    if n >= 256 {
        push_char(&mut out, hex_digit_char(n / 256 % 16));
    }
    if n >= 16 {
        push_char(&mut out, hex_digit_char(n / 16 % 16));
    }
    push_char(&mut out, hex_digit_char(n % 16));
    proof {
        let m = n as nat;
        if m >= 16 {
            assert(hex_text(m) == hex_text(m / 16) + seq![hex_char(m % 16)]);
            if m >= 256 {
                assert(hex_text(m / 16) == hex_text(m / 256) + seq![hex_char(m / 16 % 16)]);
                if m >= 4096 {
                    assert(hex_text(m / 256) == hex_text(m / 4096) + seq![hex_char(m / 256 % 16)]);
                }
            }
        }
    }
    out
}

/// The groups written in full, with colons between them.
pub(crate) fn groups_string(gs: &Vec<u16>) -> (r: String)
    requires
        gs@.len() >= 1,
    ensures
        r@ == groups_text(gs@),
{
    let mut out = hex_string(gs[0]);
    assert(gs@.take(1) =~= seq![gs@[0]]);
    let mut i: usize = 1;
    while i < gs.len()
        invariant
            1 <= i <= gs@.len(),
            out@ == groups_text(gs@.take(i as int)),
        decreases gs.len() - i,
    {
        push_char(&mut out, ':');
        let t = hex_string(gs[i]);
        push_text(&mut out, t.as_str());
        let ghost q = gs@.take(i + 1);
        assert(q.drop_last() =~= gs@.take(i as int));
        assert(q.last() == gs@[i as int]);
        i = i + 1;
    }
    assert(gs@.take(i as int) =~= gs@);
    out
}

} // verus!
