use vstd::prelude::*;

verus! {

use crate::record::IpAddress;
use crate::text::{all_digits, ascii_len, decimal_value, digit_value, is_digit};

/// The pieces of `s` between occurrences of `sep`: one more than there are
/// separators, empty pieces included.
pub open spec fn split_on(s: Seq<char>, sep: char) -> Seq<Seq<char>>
    decreases s.len(),
{
    if s.len() == 0 {
        seq![Seq::empty()]
    } else {
        let rest = split_on(s.drop_last(), sep);
        if s.last() == sep {
            rest.push(Seq::empty())
        } else {
            rest.update(rest.len() - 1, rest.last().push(s.last()))
        }
    }
}

pub open spec fn is_hex_digit(c: char) -> bool {
    is_digit(c) || ('a' <= c && c <= 'f') || ('A' <= c && c <= 'F')
}

pub open spec fn hex_digit_value(c: char) -> int {
    if is_digit(c) {
        digit_value(c)
    } else if 'a' <= c && c <= 'f' {
        c as int - 'a' as int + 10
    } else {
        c as int - 'A' as int + 10
    }
}

/// The value of a string of hexadecimal digits, most significant first.
pub open spec fn hex_value(s: Seq<char>) -> int
    decreases s.len(),
{
    if s.len() == 0 {
        0
    } else {
        hex_value(s.drop_last()) * 16 + hex_digit_value(s.last())
    }
}

/// One part of a dotted IPv4 address: one to three digits, no leading zero
/// before another digit, at most 255.
pub open spec fn octet_of(s: Seq<char>) -> Option<u32> {
    if 1 <= s.len() <= 3 && all_digits(s) && (s.len() == 1 || s[0] != '0') && decimal_value(s)
        <= 255 {
        Some(decimal_value(s) as u32)
    } else {
        None
    }
}

/// One group of an IPv6 address: one to four hexadecimal digits.
pub open spec fn hex_group_of(s: Seq<char>) -> Option<u32> {
    if 1 <= s.len() <= 4 && forall|i: int| 0 <= i < s.len() ==> is_hex_digit(#[trigger] s[i]) {
        Some(hex_value(s) as u32)
    } else {
        None
    }
}

/// The 32-bit value of a dotted IPv4 address: four octets split by dots.
pub open spec fn ipv4_of(s: Seq<char>) -> Option<u32> {
    let p = split_on(s, '.');
    if p.len() == 4 {
        match (octet_of(p[0]), octet_of(p[1]), octet_of(p[2]), octet_of(p[3])) {
            (Some(a), Some(b), Some(c), Some(d)) => Some(
                (a * 0x100_0000 + b * 0x1_0000 + c * 0x100 + d) as u32,
            ),
            _ => None,
        }
    } else {
        None
    }
}

/// The 16-bit groups that one piece of an IPv6 address stands for: one for a
/// hexadecimal group, two for an embedded IPv4 address where `v4_ok`.
pub open spec fn piece_groups(p: Seq<char>, v4_ok: bool) -> Option<Seq<u32>> {
    match hex_group_of(p) {
        Some(g) => Some(seq![g]),
        None => if v4_ok {
            match ipv4_of(p) {
                Some(a) => Some(seq![a / 0x1_0000, a % 0x1_0000]),
                None => None,
            }
        } else {
            None
        },
    }
}

/// The groups of a run of pieces; only the last may be an IPv4 address, and
/// only where `v4_last`.
pub open spec fn pieces_groups(ps: Seq<Seq<char>>, v4_last: bool) -> Option<Seq<u32>>
    decreases ps.len(),
{
    if ps.len() == 0 {
        Some(Seq::empty())
    } else {
        match (pieces_groups(ps.drop_last(), false), piece_groups(ps.last(), v4_last)) {
            (Some(a), Some(b)) => Some(a + b),
            _ => None,
        }
    }
}

/// The eight groups of an address written with `::`: the groups before it,
/// zeros for at least one group, the groups after it.
pub open spec fn fill_zeros(head: Option<Seq<u32>>, tail: Option<Seq<u32>>) -> Option<Seq<u32>> {
    match (head, tail) {
        (Some(h), Some(t)) => if h.len() + t.len() <= 7 {
            Some(h + Seq::new((8 - h.len() - t.len()) as nat, |i: int| 0u32) + t)
        } else {
            None
        },
        _ => None,
    }
}

/// The index of the first empty piece, or the number of pieces.
pub open spec fn first_empty(ps: Seq<Seq<char>>) -> int
    decreases ps.len(),
{
    if ps.len() == 0 {
        0
    } else if ps[0].len() == 0 {
        0
    } else {
        1 + first_empty(ps.drop_first())
    }
}

/// The eight 16-bit groups of an IPv6 address.
pub open spec fn ipv6_groups(s: Seq<char>) -> Option<Seq<u32>> {
    let g = split_on(s, ':');
    let n = g.len() as int;
    let k = first_empty(g);
    if n >= 3 && g[0].len() == 0 && g[1].len() == 0 {
        if n == 3 && g[2].len() == 0 {
            fill_zeros(Some(Seq::empty()), Some(Seq::empty()))
        } else {
            fill_zeros(Some(Seq::empty()), pieces_groups(g.subrange(2, n), true))
        }
    } else if n >= 3 && g[n - 1].len() == 0 && g[n - 2].len() == 0 {
        fill_zeros(pieces_groups(g.subrange(0, n - 2), false), Some(Seq::empty()))
    } else if 0 < k < n - 1 {
        fill_zeros(pieces_groups(g.subrange(0, k), false), pieces_groups(g.subrange(k + 1, n), true))
    } else {
        match pieces_groups(g, true) {
            Some(v) => if v.len() == 8 {
                Some(v)
            } else {
                None
            },
            None => None,
        }
    }
}

/// The number that a sequence of 16-bit groups spells, most significant first.
pub open spec fn groups_value(gs: Seq<u32>) -> int
    decreases gs.len(),
{
    if gs.len() == 0 {
        0
    } else {
        groups_value(gs.drop_last()) * 0x1_0000 + gs.last()
    }
}

/// The address that `s` denotes, as Rust reads an IP address: a dotted IPv4
/// address, or else an IPv6 address.
pub open spec fn ip_of_text(s: Seq<char>) -> Option<IpAddress> {
    if !vstd::utf8::is_ascii_chars(s) {
        None
    } else {
        match ipv4_of(s) {
            Some(a) => Some(IpAddress::V4(a)),
            None => match ipv6_groups(s) {
                Some(gs) => Some(IpAddress::V6(groups_value(gs) as u128)),
                None => None,
            },
        }
    }
}

/// The pieces of `cs` that `ranges` mark out.
pub open spec fn ranges_view(cs: Seq<char>, ranges: Seq<(usize, usize)>) -> Seq<Seq<char>> {
    Seq::new(ranges.len(), |k: int| cs.subrange(ranges[k].0 as int, ranges[k].1 as int))
}

pub open spec fn ranges_within(ranges: Seq<(usize, usize)>, lo: int, hi: int) -> bool {
    forall|k: int|
        0 <= k < ranges.len() ==> lo <= (#[trigger] ranges[k]).0 <= ranges[k].1 <= hi
}

/// The characters of an ASCII string.
fn ascii_chars(s: &str) -> (r: Vec<char>)
    requires
        s.is_ascii(),
    ensures
        r@ == s@,
{
    let n = ascii_len(s);
    let mut r: Vec<char> = Vec::new();
    let mut i: usize = 0;
    while i < n
        invariant
            n == s@.len(),
            i <= n,
            r@ == s@.subrange(0, i as int),
        decreases n - i,
    {
        r.push(s.get_char(i));
        i = i + 1;
        assert(r@ =~= s@.subrange(0, i as int));
    }
    assert(r@ =~= s@);
    r
}

/// Where the pieces of `cs[lo..hi]` between occurrences of `sep` lie.
fn split_ranges(cs: &Vec<char>, lo: usize, hi: usize, sep: char) -> (r: Vec<(usize, usize)>)
    requires
        lo <= hi <= cs@.len(),
    ensures
        ranges_within(r@, lo as int, hi as int),
        ranges_view(cs@, r@) == split_on(cs@.subrange(lo as int, hi as int), sep),
{
    let mut r: Vec<(usize, usize)> = Vec::new();
    let mut start = lo;
    let mut i = lo;
    assert(cs@.subrange(lo as int, lo as int) =~= Seq::<char>::empty());
    assert(ranges_view(cs@, r@).push(cs@.subrange(start as int, i as int)) =~= seq![Seq::<char>::empty()]);
    while i < hi
        invariant
            lo <= start <= i <= hi <= cs@.len(),
            ranges_within(r@, lo as int, i as int),
            split_on(cs@.subrange(lo as int, i as int), sep) == ranges_view(cs@, r@).push(
                cs@.subrange(start as int, i as int),
            ),
        decreases hi - i,
    {
        let ghost before = split_on(cs@.subrange(lo as int, i as int), sep);
        let ghost old_r = r@;
        let ghost next = cs@.subrange(lo as int, i + 1);
        assert(next.drop_last() =~= cs@.subrange(lo as int, i as int));
        assert(next.last() == cs@[i as int]);
        if cs[i] == sep {
            r.push((start, i));
            start = i + 1;
            assert(ranges_view(cs@, r@) =~= ranges_view(cs@, old_r).push(cs@.subrange(r@.last().0 as int, i as int)));
            assert(cs@.subrange(start as int, i + 1) =~= Seq::<char>::empty());
            assert(split_on(next, sep) =~= ranges_view(cs@, r@).push(cs@.subrange(start as int, i + 1)));
        } else {
            assert(cs@.subrange(start as int, i + 1) =~= cs@.subrange(start as int, i as int).push(cs@[i as int]));
            assert(split_on(next, sep) =~= ranges_view(cs@, r@).push(cs@.subrange(start as int, i + 1)));
        }
        i = i + 1;
    }
    let ghost old_r = r@;
    r.push((start, hi));
    assert(ranges_view(cs@, r@) =~= ranges_view(cs@, old_r).push(cs@.subrange(start as int, hi as int)));
    r
}

/// The value of a hexadecimal digit, if `c` is one.
fn hex_digit(c: char) -> (r: Option<u32>)
    ensures
        r is Some <==> is_hex_digit(c),
        r matches Some(v) ==> v == hex_digit_value(c) && v < 16,
{
    if '0' <= c && c <= '9' {
        Some(c as u32 - '0' as u32)
    } else if 'a' <= c && c <= 'f' {
        Some(c as u32 - 'a' as u32 + 10)
    } else if 'A' <= c && c <= 'F' {
        Some(c as u32 - 'A' as u32 + 10)
    } else {
        None
    }
}

/// The octet that `cs[a..b]` spells.
fn octet_in(cs: &Vec<char>, a: usize, b: usize) -> (r: Option<u32>)
    requires
        a <= b <= cs@.len(),
    ensures
        r == octet_of(cs@.subrange(a as int, b as int)),
        r matches Some(v) ==> v <= 255,
{
    let ghost s = cs@.subrange(a as int, b as int);
    if b - a < 1 || b - a > 3 {
        return None;
    }
    if b - a > 1 && cs[a] == '0' {
        assert(s[0] == '0');
        return None;
    }
    let mut v: u32 = 0;
    let mut i = a;
    assert(cs@.subrange(a as int, a as int) =~= Seq::<char>::empty());
    while i < b
        invariant
            a <= i <= b <= cs@.len(),
            b - a <= 3,
            s == cs@.subrange(a as int, b as int),
            all_digits(cs@.subrange(a as int, i as int)),
            v == decimal_value(cs@.subrange(a as int, i as int)),
            i - a == 0 ==> v == 0,
            i - a == 1 ==> v <= 9,
            i - a == 2 ==> v <= 99,
            v <= 999,
        decreases b - i,
    {
        let c = cs[i];
        if !('0' <= c && c <= '9') {
            assert(s[i - a] == c);
            return None;
        }
        let ghost p = cs@.subrange(a as int, i + 1);
        assert(p.drop_last() =~= cs@.subrange(a as int, i as int));
        assert(p.last() == c);
        v = v * 10 + (c as u32 - '0' as u32);
        i = i + 1;
    }
    assert(cs@.subrange(a as int, b as int) =~= s);
    if v > 255 {
        None
    } else {
        Some(v)
    }
}

/// The IPv6 group that `cs[a..b]` spells.
fn hex_group_in(cs: &Vec<char>, a: usize, b: usize) -> (r: Option<u32>)
    requires
        a <= b <= cs@.len(),
    ensures
        r == hex_group_of(cs@.subrange(a as int, b as int)),
        r matches Some(v) ==> v <= 0xffff,
{
    let ghost s = cs@.subrange(a as int, b as int);
    if b - a < 1 || b - a > 4 {
        return None;
    }
    let mut v: u32 = 0;
    let mut i = a;
    while i < b
        invariant
            a <= i <= b <= cs@.len(),
            b - a <= 4,
            s == cs@.subrange(a as int, b as int),
            forall|j: int| a <= j < i ==> is_hex_digit(#[trigger] cs@[j]),
            v == hex_value(cs@.subrange(a as int, i as int)),
            i - a == 0 ==> v == 0,
            i - a == 1 ==> v <= 0xf,
            i - a == 2 ==> v <= 0xff,
            i - a == 3 ==> v <= 0xfff,
            v <= 0xffff,
        decreases b - i,
    {
        let c = cs[i];
        match hex_digit(c) {
            None => {
                assert(s[i - a] == c);
                return None;
            },
            Some(d) => {
                let ghost p = cs@.subrange(a as int, i + 1);
                assert(p.drop_last() =~= cs@.subrange(a as int, i as int));
                assert(p.last() == c);
                v = v * 16 + d;
                i = i + 1;
            },
        }
    }
    assert(cs@.subrange(a as int, b as int) =~= s);
    assert forall|j: int| 0 <= j < s.len() implies is_hex_digit(#[trigger] s[j]) by {
        assert(s[j] == cs@[a + j]);
    }
    Some(v)
}

/// The IPv4 address that `cs[a..b]` spells.
fn ipv4_in(cs: &Vec<char>, a: usize, b: usize) -> (r: Option<u32>)
    requires
        a <= b <= cs@.len(),
    ensures
        r == ipv4_of(cs@.subrange(a as int, b as int)),
{
    let rs = split_ranges(cs, a, b, '.');
    if rs.len() != 4 {
        return None;
    }
    let ghost p = split_on(cs@.subrange(a as int, b as int), '.');
    assert(p[0] == cs@.subrange(rs@[0].0 as int, rs@[0].1 as int));
    assert(p[1] == cs@.subrange(rs@[1].0 as int, rs@[1].1 as int));
    assert(p[2] == cs@.subrange(rs@[2].0 as int, rs@[2].1 as int));
    assert(p[3] == cs@.subrange(rs@[3].0 as int, rs@[3].1 as int));
    let o0 = octet_in(cs, rs[0].0, rs[0].1);
    let o1 = octet_in(cs, rs[1].0, rs[1].1);
    let o2 = octet_in(cs, rs[2].0, rs[2].1);
    let o3 = octet_in(cs, rs[3].0, rs[3].1);
    match (o0, o1, o2, o3) {
        (Some(x0), Some(x1), Some(x2), Some(x3)) => Some(
            x0 * 0x100_0000 + x1 * 0x1_0000 + x2 * 0x100 + x3,
        ),
        _ => None,
    }
}

/// Appends the groups of the piece `cs[a..b]` to `out`; false where it has none.
fn piece_groups_in(cs: &Vec<char>, a: usize, b: usize, v4_ok: bool, out: &mut Vec<u32>) -> (ok: bool)
    requires
        a <= b <= cs@.len(),
    ensures
        ok == piece_groups(cs@.subrange(a as int, b as int), v4_ok) is Some,
        ok ==> final(out)@ == old(out)@ + piece_groups(cs@.subrange(a as int, b as int), v4_ok)->Some_0,
        ok ==> forall|j: int|
            old(out)@.len() <= j < final(out)@.len() ==> #[trigger] final(out)@[j] <= 0xffff,
{
    match hex_group_in(cs, a, b) {
        Some(g) => {
            out.push(g);
            true
        },
        None => {
            if !v4_ok {
                return false;
            }
            match ipv4_in(cs, a, b) {
                Some(v) => {
                    out.push(v / 0x1_0000);
                    out.push(v % 0x1_0000);
                    true
                },
                None => false,
            }
        },
    }
}

/// Appends the groups of the pieces `rs[from..to]` of `cs` to `out`; false
/// where they have none.
fn pieces_groups_in(
    cs: &Vec<char>,
    rs: &Vec<(usize, usize)>,
    from: usize,
    to: usize,
    v4_last: bool,
    out: &mut Vec<u32>,
) -> (ok: bool)
    requires
        from <= to <= rs@.len(),
        ranges_within(rs@, 0, cs@.len() as int),
    ensures
        ok == pieces_groups(ranges_view(cs@, rs@).subrange(from as int, to as int), v4_last) is Some,
        ok ==> final(out)@ == old(out)@ + pieces_groups(
            ranges_view(cs@, rs@).subrange(from as int, to as int),
            v4_last,
        )->Some_0,
        ok ==> forall|j: int|
            old(out)@.len() <= j < final(out)@.len() ==> #[trigger] final(out)@[j] <= 0xffff,
{
    let ghost ps = ranges_view(cs@, rs@);
    let ghost start = out@;
    if from == to {
        assert(ps.subrange(from as int, to as int) =~= Seq::<Seq<char>>::empty());
        assert(out@ =~= start + Seq::<u32>::empty());
        return true;
    }
    let mut j = from;
    assert(ps.subrange(from as int, from as int) =~= Seq::<Seq<char>>::empty());
    assert(out@ =~= start + Seq::<u32>::empty());
    while j + 1 < to
        invariant
            from <= j < to <= rs@.len(),
            ranges_within(rs@, 0, cs@.len() as int),
            ps == ranges_view(cs@, rs@),
            pieces_groups(ps.subrange(from as int, j as int), false) is Some,
            out@ == start + pieces_groups(ps.subrange(from as int, j as int), false)->Some_0,
            forall|i: int| start.len() <= i < out@.len() ==> #[trigger] out@[i] <= 0xffff,
        decreases to - j,
    {
        let ghost q = ps.subrange(from as int, j + 1);
        assert(q.drop_last() =~= ps.subrange(from as int, j as int));
        assert(q.last() == cs@.subrange(rs@[j as int].0 as int, rs@[j as int].1 as int));
        let ghost before = out@;
        if !piece_groups_in(cs, rs[j].0, rs[j].1, false, out) {
            proof {
                lemma_pieces_groups_prefix(ps.subrange(from as int, to as int), (j + 1 - from) as int, v4_last);
                assert(ps.subrange(from as int, to as int).subrange(0, j + 1 - from) =~= q);
            }
            return false;
        }
        assert(out@ =~= start + pieces_groups(q, false)->Some_0);
        j = j + 1;
    }
    let ghost q = ps.subrange(from as int, to as int);
    assert(q.drop_last() =~= ps.subrange(from as int, j as int));
    assert(q.last() == cs@.subrange(rs@[j as int].0 as int, rs@[j as int].1 as int));
    let ok = piece_groups_in(cs, rs[j].0, rs[j].1, v4_last, out);
    if ok {
        assert(out@ =~= start + pieces_groups(q, v4_last)->Some_0);
    }
    ok
}

/// Where a run of pieces has no groups, no longer run that starts with it has.
proof fn lemma_pieces_groups_prefix(ps: Seq<Seq<char>>, k: int, v4_last: bool)
    requires
        0 < k < ps.len(),
        pieces_groups(ps.subrange(0, k), false) is None,
    ensures
        pieces_groups(ps, v4_last) is None,
    decreases ps.len(),
{
    if k < ps.len() - 1 {
        assert(ps.drop_last().subrange(0, k) =~= ps.subrange(0, k));
        lemma_pieces_groups_prefix(ps.drop_last(), k, false);
    } else {
        assert(ps.subrange(0, k) =~= ps.drop_last());
    }
}

/// The eight groups of `head`, zeros, then `tail`, where they fit.
fn fill_zeros_in(head: Vec<u32>, tail: &Vec<u32>) -> (r: Option<Vec<u32>>)
    ensures
        r matches Some(v) ==> fill_zeros(Some(head@), Some(tail@)) == Some(v@),
        r is None ==> fill_zeros(Some(head@), Some(tail@)) is None,
{
    if head.len() > 7 || tail.len() > 7 - head.len() {
        return None;
    }
    let zeros = 8 - head.len() - tail.len();
    let ghost z = Seq::new(zeros as nat, |i: int| 0u32);
    let mut out = head;
    let mut i: usize = 0;
    while i < zeros
        invariant
            i <= zeros,
            z == Seq::new(zeros as nat, |i: int| 0u32),
            out@ == head@ + z.subrange(0, i as int),
        decreases zeros - i,
    {
        out.push(0);
        i = i + 1;
        assert(out@ =~= head@ + z.subrange(0, i as int));
    }
    let mut j: usize = 0;
    assert(z.subrange(0, zeros as int) =~= z);
    assert(out@ =~= head@ + z + tail@.subrange(0, 0));
    while j < tail.len()
        invariant
            j <= tail@.len(),
            out@ == head@ + z + tail@.subrange(0, j as int),
        decreases tail@.len() - j,
    {
        out.push(tail[j]);
        j = j + 1;
        assert(out@ =~= head@ + z + tail@.subrange(0, j as int));
    }
    assert(tail@.subrange(0, tail@.len() as int) =~= tail@);
    Some(out)
}

proof fn lemma_first_empty(ps: Seq<Seq<char>>, k: int)
    requires
        0 <= k <= ps.len(),
        forall|j: int| 0 <= j < k ==> (#[trigger] ps[j]).len() > 0,
        k == ps.len() || ps[k].len() == 0,
    ensures
        first_empty(ps) == k,
    decreases k,
{
    if k > 0 {
        lemma_first_empty(ps.drop_first(), k - 1);
    }
}

/// The eight groups of the IPv6 address that `cs` spells.
fn ipv6_in(cs: &Vec<char>) -> (r: Option<Vec<u32>>)
    ensures
        r matches Some(v) ==> ipv6_groups(cs@) == Some(v@),
        r is None ==> ipv6_groups(cs@) is None,
        r matches Some(v) ==> forall|j: int| 0 <= j < v@.len() ==> #[trigger] v@[j] <= 0xffff,
{
    let rs = split_ranges(cs, 0, cs.len(), ':');
    let ghost g = ranges_view(cs@, rs@);
    assert(cs@.subrange(0, cs@.len() as int) =~= cs@);
    let m = rs.len();
    assert(forall|k: int| 0 <= k < m ==> (#[trigger] g[k]).len() == rs@[k].1 - rs@[k].0);
    assert(g.subrange(0, m as int) =~= g);
    if m >= 3 && rs[0].0 == rs[0].1 && rs[1].0 == rs[1].1 {
        if m == 3 && rs[2].0 == rs[2].1 {
            return fill_zeros_in(Vec::new(), &Vec::new());
        }
        let mut tail = Vec::new();
        if !pieces_groups_in(cs, &rs, 2, m, true, &mut tail) {
            return None;
        }
        assert(tail@ =~= Seq::<u32>::empty() + tail@);
        return fill_zeros_in(Vec::new(), &tail);
    }
    if m >= 3 && rs[m - 1].0 == rs[m - 1].1 && rs[m - 2].0 == rs[m - 2].1 {
        let mut head = Vec::new();
        if !pieces_groups_in(cs, &rs, 0, m - 2, false, &mut head) {
            return None;
        }
        assert(head@ =~= Seq::<u32>::empty() + head@);
        return fill_zeros_in(head, &Vec::new());
    }
    let mut k: usize = 0;
    while k < m && rs[k].0 != rs[k].1
        invariant
            k <= m == rs@.len(),
            g == ranges_view(cs@, rs@),
            forall|j: int| 0 <= j < m ==> (#[trigger] g[j]).len() == rs@[j].1 - rs@[j].0,
            forall|j: int| 0 <= j < k ==> (#[trigger] g[j]).len() > 0,
        decreases m - k,
    {
        k = k + 1;
    }
    proof {
        lemma_first_empty(g, k as int);
    }
    if 0 < k && k < m && m - k > 1 {
        let mut head = Vec::new();
        if !pieces_groups_in(cs, &rs, 0, k, false, &mut head) {
            return None;
        }
        let mut tail = Vec::new();
        if !pieces_groups_in(cs, &rs, k + 1, m, true, &mut tail) {
            return None;
        }
        assert(head@ =~= Seq::<u32>::empty() + head@);
        assert(tail@ =~= Seq::<u32>::empty() + tail@);
        return fill_zeros_in(head, &tail);
    }
    let mut all = Vec::new();
    if !pieces_groups_in(cs, &rs, 0, m, true, &mut all) {
        return None;
    }
    assert(all@ =~= Seq::<u32>::empty() + all@);
    if all.len() == 8 {
        Some(all)
    } else {
        None
    }
}

/// The first number that `i` groups cannot reach.
spec fn groups_bound(i: nat) -> int
    decreases i,
{
    if i == 0 {
        1
    } else {
        groups_bound((i - 1) as nat) * 0x1_0000
    }
}

proof fn lemma_groups_bound(i: nat)
    requires
        i <= 8,
    ensures
        0 < groups_bound(i) <= 0x1_0000_0000_0000_0000_0000_0000_0000_0000,
    decreases 8 - i,
{
    reveal_with_fuel(groups_bound, 9);
    if i < 8 {
        lemma_groups_bound(i + 1);
        assert(groups_bound(i + 1) == groups_bound(i) * 0x1_0000);
    }
}

/// The 128-bit number that eight 16-bit groups spell.
fn groups_to_u128(gs: &Vec<u32>) -> (r: u128)
    requires
        gs@.len() == 8,
        forall|j: int| 0 <= j < gs@.len() ==> #[trigger] gs@[j] <= 0xffff,
    ensures
        r == groups_value(gs@),
{
    let mut v: u128 = 0;
    let mut i: usize = 0;
    assert(gs@.subrange(0, 0) =~= Seq::<u32>::empty());
    while i < 8
        invariant
            i <= 8,
            gs@.len() == 8,
            forall|j: int| 0 <= j < gs@.len() ==> #[trigger] gs@[j] <= 0xffff,
            v == groups_value(gs@.subrange(0, i as int)),
            v < groups_bound(i as nat),
        decreases 8 - i,
    {
        let ghost p = gs@.subrange(0, i + 1);
        assert(p.drop_last() =~= gs@.subrange(0, i as int));
        let g = gs[i];
        let ghost b = groups_bound(i as nat);
        proof {
            lemma_groups_bound((i + 1) as nat);
            assert(groups_bound((i + 1) as nat) == b * 0x1_0000);
            assert(v * 0x1_0000 + g < b * 0x1_0000) by (nonlinear_arith)
                requires
                    v < b,
                    g <= 0xffff,
            ;
        }
        v = v * 0x1_0000 + g as u128;
        i = i + 1;
    }
    assert(gs@.subrange(0, 8) =~= gs@);
    v
}

/// Reads `s` as an IPv4 or an IPv6 address.
pub fn parse_ip(s: &str) -> (r: Option<IpAddress>)
    ensures
        r == ip_of_text(s@),
{
    if !s.is_ascii() {
        return None;
    }
    let cs = ascii_chars(s);
    assert(cs@.subrange(0, cs@.len() as int) =~= cs@);
    if let Some(a) = ipv4_in(&cs, 0, cs.len()) {
        return Some(IpAddress::V4(a));
    }
    match ipv6_in(&cs) {
        Some(gs) => Some(IpAddress::V6(groups_to_u128(&gs))),
        None => None,
    }
}

} // verus!
