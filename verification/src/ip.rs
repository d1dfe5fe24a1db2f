//! Plain models of IP addresses and socket addresses.
//!
//! The library holds addresses as plain numeric fields; the code around it
//! converts them to the operating system's own address types.

use vstd::prelude::*;

verus! {

/// An IPv4 address as its four octets.
#[derive(Clone, Copy, Debug, PartialEq, Eq, Structural)]
pub struct IpV4 {
    pub o0: u8,
    pub o1: u8,
    pub o2: u8,
    pub o3: u8,
}

/// An IPv6 address as its eight 16-bit groups.
#[derive(Clone, Copy, Debug, PartialEq, Eq, Structural)]
pub struct IpV6 {
    pub g0: u16,
    pub g1: u16,
    pub g2: u16,
    pub g3: u16,
    pub g4: u16,
    pub g5: u16,
    pub g6: u16,
    pub g7: u16,
}

/// An IP address of either family.
#[derive(Clone, Copy, Debug, PartialEq, Eq, Structural)]
pub enum IpAddress {
    V4(IpV4),
    V6(IpV6),
}

/// An IP address with a port.
#[derive(Clone, Copy, Debug, PartialEq, Eq, Structural)]
pub struct SocketAddress {
    pub ip: IpAddress,
    pub port: u16,
}

} // verus!

verus! {

/// A decimal octet of a dotted quad: one to three digits, no leading zero
/// unless it is `0` itself, at most 255.
pub open spec fn spec_octet(p: Seq<char>) -> Option<u8> {
    if 1 <= p.len() <= 3 && (forall|i: int| 0 <= i < p.len() ==> crate::text::digit_char(
        #[trigger] p[i],
    )) && (p.len() > 1 ==> p[0] != '0') && crate::text::int_val(p) <= 255 {
        Some(crate::text::int_val(p) as u8)
    } else {
        None
    }
}

/// The dotted-quad IPv4 grammar: four octets joined by dots.
pub open spec fn spec_parse_ipv4(s: Seq<char>) -> Option<IpV4> {
    let ps = crate::text::split_on(s, '.');
    if ps.len() == 4 && spec_octet(ps[0]) is Some && spec_octet(ps[1]) is Some && spec_octet(
        ps[2],
    ) is Some && spec_octet(ps[3]) is Some {
        Some(
            IpV4 {
                o0: spec_octet(ps[0])->0,
                o1: spec_octet(ps[1])->0,
                o2: spec_octet(ps[2])->0,
                o3: spec_octet(ps[3])->0,
            },
        )
    } else {
        None
    }
}

/// The value of a hexadecimal digit, or 16 for any other character.
pub open spec fn hex_digit_val(c: char) -> int {
    if 48 <= c as u32 <= 57 {
        c as u32 - 48
    } else if 97 <= c as u32 <= 102 {
        c as u32 - 87
    } else if 65 <= c as u32 <= 70 {
        c as u32 - 55
    } else {
        16
    }
}

/// A hexadecimal digit.
pub open spec fn hex_char(c: char) -> bool {
    hex_digit_val(c) < 16
}

/// The value of a hex digit string, most significant digit first.
pub open spec fn hex_val(p: Seq<char>) -> int
    decreases p.len(),
{
    if p.len() == 0 {
        0
    } else {
        hex_val(p.drop_last()) * 16 + hex_digit_val(p.last())
    }
}

/// A 16-bit group of an IPv6 address: one to four hex digits.
pub open spec fn spec_group(p: Seq<char>) -> Option<u16> {
    if 1 <= p.len() <= 4 && (forall|i: int| 0 <= i < p.len() ==> hex_char(#[trigger] p[i])) {
        Some(hex_val(p) as u16)
    } else {
        None
    }
}

/// The groups of the pieces, in order; fails on any piece that is not a
/// group, an empty piece included.
pub open spec fn spec_groups(ps: Seq<Seq<char>>) -> Option<Seq<u16>>
    decreases ps.len(),
{
    if ps.len() == 0 {
        Some(seq![])
    } else {
        match spec_group(ps[0]) {
            None => None,
            Some(g) => match spec_groups(ps.drop_first()) {
                None => None,
                Some(gs) => Some(seq![g] + gs),
            },
        }
    }
}

/// An address from its eight groups.
pub open spec fn ipv6_of(gs: Seq<u16>) -> IpV6 {
    IpV6 {
        g0: gs[0],
        g1: gs[1],
        g2: gs[2],
        g3: gs[3],
        g4: gs[4],
        g5: gs[5],
        g6: gs[6],
        g7: gs[7],
    }
}

/// Eight groups from a left part, zeros, and a right part.
pub open spec fn expand_groups(l: Seq<u16>, r: Seq<u16>) -> Seq<u16> {
    l + Seq::new((8 - l.len() - r.len()) as nat, |i: int| 0u16) + r
}

/// The IPv6 grammar of the library: colon-separated groups of one to four
/// hex digits, eight of them, or fewer with one `::` standing for the
/// missing zero groups (at least one). Embedded dotted-quad tails and zone
/// suffixes are not part of this grammar.
pub open spec fn spec_parse_ipv6(s: Seq<char>) -> Option<IpV6> {
    let ps = crate::text::split_on(s, ':');
    if ps.len() == 3 && ps[0].len() == 0 && ps[1].len() == 0 && ps[2].len() == 0 {
        Some(ipv6_of(expand_groups(seq![], seq![])))
    } else if ps.len() >= 3 && ps[0].len() == 0 && ps[1].len() == 0 {
        match spec_groups(ps.skip(2)) {
            Some(g) => if g.len() <= 7 {
                Some(ipv6_of(expand_groups(seq![], g)))
            } else {
                None
            },
            None => None,
        }
    } else if ps.len() >= 3 && ps[ps.len() - 1].len() == 0 && ps[ps.len() - 2].len() == 0 {
        match spec_groups(ps.take(ps.len() - 2)) {
            Some(g) => if g.len() <= 7 {
                Some(ipv6_of(expand_groups(g, seq![])))
            } else {
                None
            },
            None => None,
        }
    } else if exists|k: int| 1 <= k < ps.len() - 1 && (#[trigger] ps[k]).len() == 0 {
        let k = choose|k: int| 1 <= k < ps.len() - 1 && (#[trigger] ps[k]).len() == 0;
        match (spec_groups(ps.take(k)), spec_groups(ps.skip(k + 1))) {
            (Some(l), Some(r)) => if l.len() + r.len() <= 7 {
                Some(ipv6_of(expand_groups(l, r)))
            } else {
                None
            },
            _ => None,
        }
    } else {
        match spec_groups(ps) {
            Some(g) => if g.len() == 8 {
                Some(ipv6_of(g))
            } else {
                None
            },
            None => None,
        }
    }
}

/// An IP address of either family: the dotted quad first, else IPv6.
pub open spec fn spec_parse_ip(s: Seq<char>) -> Option<IpAddress> {
    match spec_parse_ipv4(s) {
        Some(v4) => Some(IpAddress::V4(v4)),
        None => match spec_parse_ipv6(s) {
            Some(v6) => Some(IpAddress::V6(v6)),
            None => None,
        },
    }
}

/// A port: decimal digits valuing at most 65535.
pub open spec fn spec_port(p: Seq<char>) -> Option<u16> {
    if p.len() >= 1 && (forall|i: int| 0 <= i < p.len() ==> crate::text::digit_char(
        #[trigger] p[i],
    )) && crate::text::int_val(p) <= 65535 {
        Some(crate::text::int_val(p) as u16)
    } else {
        None
    }
}

/// A socket address: `v4:port`, or `[v6]:port`.
pub open spec fn spec_parse_socket(s: Seq<char>) -> Option<SocketAddress> {
    if s.len() > 0 && s[0] == '[' {
        let k = crate::text::head_until(s, ']') as int;
        if k < s.len() && k + 1 < s.len() && s[k + 1] == ':' {
            match (spec_parse_ipv6(s.subrange(1, k)), spec_port(s.skip(k + 2))) {
                (Some(v6), Some(port)) => Some(
                    SocketAddress { ip: IpAddress::V6(v6), port },
                ),
                _ => None,
            }
        } else {
            None
        }
    } else {
        let ps = crate::text::split_on(s, ':');
        if ps.len() == 2 {
            match (spec_parse_ipv4(ps[0]), spec_port(ps[1])) {
                (Some(v4), Some(port)) => Some(
                    SocketAddress { ip: IpAddress::V4(v4), port },
                ),
                _ => None,
            }
        } else {
            None
        }
    }
}

} // verus!

verus! {

/// Parse one decimal octet.
fn parse_octet(p: &Vec<char>) -> (r: Option<u8>)
    ensures
        r == spec_octet(p@),
{
    let n = p.len();
    if n < 1 || n > 3 {
        return None;
    }
    let mut i: usize = 0;
    while i < n
        invariant
            i <= n,
            n == p@.len(),
            forall|k: int| 0 <= k < i ==> crate::text::digit_char(#[trigger] p@[k]),
        decreases n - i,
    {
        let c = p[i];
        if !((c as u32) >= 48 && (c as u32) <= 57) {
            return None;
        }
        i = i + 1;
    }
    if n > 1 && p[0] == '0' {
        return None;
    }
    match crate::text::parse_digits(p, 0, n) {
        Some(v) => {
            proof {
                assert(p@.subrange(0, n as int) =~= p@);
            }
            if v <= 255 {
                Some(v as u8)
            } else {
                None
            }
        },
        None => {
            proof {
                assert(p@.subrange(0, n as int) =~= p@);
            }
            None
        },
    }
}

/// Parse the dotted-quad IPv4 grammar.
pub fn parse_ipv4(s: &str) -> (r: Option<IpV4>)
    ensures
        r == spec_parse_ipv4(s@),
{
    let v = crate::text::string_to_chars(s);
    let pieces = crate::text::split_chars(&v, '.');
    let ghost ps = crate::text::split_on(s@, '.');
    proof {
        assert(pieces@.map_values(|p: Vec<char>| p@) == ps);
    }
    if pieces.len() != 4 {
        return None;
    }
    proof {
        assert(pieces@[0]@ == ps[0] && pieces@[1]@ == ps[1] && pieces@[2]@ == ps[2]
            && pieces@[3]@ == ps[3]);
    }
    let o0 = match parse_octet(&pieces[0]) {
        Some(v) => v,
        None => {
            return None;
        },
    };
    let o1 = match parse_octet(&pieces[1]) {
        Some(v) => v,
        None => {
            return None;
        },
    };
    let o2 = match parse_octet(&pieces[2]) {
        Some(v) => v,
        None => {
            return None;
        },
    };
    let o3 = match parse_octet(&pieces[3]) {
        Some(v) => v,
        None => {
            return None;
        },
    };
    Some(IpV4 { o0, o1, o2, o3 })
}

/// Sixteen to at most the fourth.
proof fn lemma_hex_val_bound(p: Seq<char>)
    requires
        p.len() <= 4,
        forall|i: int| 0 <= i < p.len() ==> hex_char(#[trigger] p[i]),
    ensures
        0 <= hex_val(p) < 65536,
    decreases p.len(),
{
    if p.len() > 0 {
        lemma_hex_val_bound(p.drop_last());
        assert(hex_val(p.drop_last()) < 4096) by {
            lemma_hex_val_small(p.drop_last());
        }
    }
}

proof fn lemma_hex_val_small(p: Seq<char>)
    requires
        p.len() <= 3,
        forall|i: int| 0 <= i < p.len() ==> hex_char(#[trigger] p[i]),
    ensures
        0 <= hex_val(p) < 4096,
    decreases p.len(),
{
    if p.len() > 0 {
        lemma_hex_val_small(p.drop_last());
        assert(hex_val(p.drop_last()) < 256) by {
            lemma_hex_val_tiny(p.drop_last());
        }
    }
}

proof fn lemma_hex_val_tiny(p: Seq<char>)
    requires
        p.len() <= 2,
        forall|i: int| 0 <= i < p.len() ==> hex_char(#[trigger] p[i]),
    ensures
        0 <= hex_val(p) < 256,
{
    if p.len() > 0 {
        lemma_hex_val_one(p.drop_last());
    }
}

proof fn lemma_hex_val_one(p: Seq<char>)
    requires
        p.len() <= 1,
        forall|i: int| 0 <= i < p.len() ==> hex_char(#[trigger] p[i]),
    ensures
        0 <= hex_val(p) < 16,
{
    if p.len() > 0 {
        assert(hex_val(p.drop_last()) == 0);
    }
}

/// Parse one 16-bit hex group.
#[verifier::loop_isolation(false)]
fn parse_group(p: &Vec<char>) -> (r: Option<u16>)
    ensures
        r == spec_group(p@),
{
    let n = p.len();
    if n < 1 || n > 4 {
        return None;
    }
    let mut acc: u32 = 0;
    let mut i: usize = 0;
    while i < n
        invariant
            i <= n,
            forall|k: int| 0 <= k < i ==> hex_char(#[trigger] p@[k]),
            acc == hex_val(p@.take(i as int)),
            acc < 65536,
        decreases n - i,
    {
        let c = p[i];
        let cu = c as u32;
        let d: u32 = if cu >= 48 && cu <= 57 {
            cu - 48
        } else if cu >= 97 && cu <= 102 {
            cu - 87
        } else if cu >= 65 && cu <= 70 {
            cu - 55
        } else {
            return None;
        };
        proof {
            assert(hex_char(p@[i as int]));
            assert(d == hex_digit_val(p@[i as int]));
            assert(p@.take(i + 1).drop_last() =~= p@.take(i as int));
            assert(p@.take(i + 1).last() == p@[i as int]);
            assert(p@.take(i as int).len() <= 3);
            assert forall|k: int| 0 <= k < i + 1 implies hex_char(
                #[trigger] p@.take(i + 1)[k],
            ) by {
                assert(p@.take(i + 1)[k] == p@[k]);
            }
            lemma_hex_val_bound(p@.take(i + 1));
        }
        acc = acc * 16 + d;
        i = i + 1;
    }
    proof {
        assert(p@.take(n as int) =~= p@);
    }
    Some(acc as u16)
}

/// No empty piece yields a group list.
proof fn lemma_groups_empty_piece(ps: Seq<Seq<char>>, i: int)
    requires
        0 <= i < ps.len(),
        ps[i].len() == 0,
    ensures
        spec_groups(ps) is None,
    decreases ps.len(),
{
    if i > 0 {
        lemma_groups_empty_piece(ps.drop_first(), i - 1);
        assert(ps.drop_first()[i - 1] == ps[i]);
    }
}

/// Parse the pieces `ps[from..to]` as hex groups.
#[verifier::loop_isolation(false)]
fn parse_groups(pieces: &Vec<Vec<char>>, from: usize, to: usize) -> (r: Option<Vec<u16>>)
    requires
        from <= to <= pieces@.len(),
    ensures
        ({
            let sub = pieces@.map_values(|p: Vec<char>| p@).subrange(from as int, to as int);
            match r {
                Some(g) => spec_groups(sub) == Some(g@),
                None => spec_groups(sub) is None,
            }
        }),
{
    let ghost sub = pieces@.map_values(|p: Vec<char>| p@).subrange(from as int, to as int);
    let mut out: Vec<u16> = Vec::new();
    let mut i: usize = from;
    proof {
        assert(sub.skip(0) =~= sub);
        if spec_groups(sub) is Some {
            assert(Seq::<u16>::empty() + spec_groups(sub)->0 =~= spec_groups(sub)->0);
        }
    }
    while i < to
        invariant
            from <= i <= to,
            spec_groups(sub) == (match spec_groups(sub.skip(i - from)) {
                Option::None => Option::<Seq<u16>>::None,
                Option::Some(g) => Option::Some(out@ + g),
            }),
        decreases to - i,
    {
        let ghost cur = sub.skip(i - from);
        proof {
            assert(cur[0] == sub[i - from]);
            assert(sub[i - from] == pieces@[i as int]@);
            assert(cur.drop_first() =~= sub.skip(i - from + 1));
        }
        match parse_group(&pieces[i]) {
            Some(g) => {
                let ghost out0 = out@;
                out.push(g);
                proof {
                    let tail = sub.skip(i - from + 1);
                    if spec_groups(tail) is Some {
                        let gs = spec_groups(tail)->0;
                        assert(out0 + (seq![g] + gs) =~= out@ + gs);
                    }
                }
            },
            None => {
                return None;
            },
        }
        i = i + 1;
    }
    proof {
        assert(sub.skip(to - from) =~= Seq::<Seq<char>>::empty());
        assert(out@ + Seq::<u16>::empty() =~= out@);
    }
    Some(out)
}

} // verus!

verus! {

/// Eight groups from a left and a right part, zeros between.
fn assemble(l: &Vec<u16>, r: &Vec<u16>) -> (a: IpV6)
    requires
        l@.len() + r@.len() <= 8,
    ensures
        a == ipv6_of(expand_groups(l@, r@)),
{
    let ghost gs = expand_groups(l@, r@);
    let mut v: Vec<u16> = Vec::new();
    let mut i: usize = 0;
    while i < l.len()
        invariant
            i <= l@.len(),
            v@ =~= l@.take(i as int),
        decreases l@.len() - i,
    {
        v.push(l[i]);
        i = i + 1;
    }
    let zeros = 8 - l.len() - r.len();
    let mut z: usize = 0;
    while z < zeros
        invariant
            z <= zeros,
            zeros == 8 - l@.len() - r@.len(),
            v@ =~= l@ + Seq::new(z as nat, |k: int| 0u16),
        decreases zeros - z,
    {
        v.push(0);
        proof {
            assert(v@ =~= l@ + Seq::new((z + 1) as nat, |k: int| 0u16));
        }
        z = z + 1;
    }
    let mut j: usize = 0;
    while j < r.len()
        invariant
            j <= r@.len(),
            v@ =~= l@ + Seq::new((8 - l@.len() - r@.len()) as nat, |k: int| 0u16) + r@.take(
                j as int,
            ),
        decreases r@.len() - j,
    {
        v.push(r[j]);
        j = j + 1;
    }
    proof {
        assert(v@ =~= gs);
        assert(gs.len() == 8);
    }
    IpV6 {
        g0: v[0],
        g1: v[1],
        g2: v[2],
        g3: v[3],
        g4: v[4],
        g5: v[5],
        g6: v[6],
        g7: v[7],
    }
}

/// Parse the library's IPv6 grammar.
#[verifier::loop_isolation(false)]
#[verifier::rlimit(100)]
pub fn parse_ipv6(s: &str) -> (r: Option<IpV6>)
    ensures
        r == spec_parse_ipv6(s@),
{
    let v = crate::text::string_to_chars(s);
    let pieces = crate::text::split_chars(&v, ':');
    let ghost ps = crate::text::split_on(s@, ':');
    proof {
        assert(pieces@.map_values(|p: Vec<char>| p@) == ps);
        assert(ps.len() >= 1);
    }
    let n = pieces.len();
    proof {
        assert(forall|i: int| 0 <= i < n ==> ps[i] == (#[trigger] pieces@[i])@);
    }
    if n == 3 && pieces[0].len() == 0 && pieces[1].len() == 0 && pieces[2].len() == 0 {
        let l: Vec<u16> = Vec::new();
        let rr: Vec<u16> = Vec::new();
        let a = assemble(&l, &rr);
        proof {
            assert(l@ =~= Seq::<u16>::empty());
            assert(rr@ =~= Seq::<u16>::empty());
        }
        return Some(a);
    }
    if n >= 3 && pieces[0].len() == 0 && pieces[1].len() == 0 {
        let ghost tail = ps.skip(2);
        proof {
            assert(tail =~= ps.subrange(2, n as int));
        }
        match parse_groups(&pieces, 2, n) {
            Some(g) => {
                if g.len() <= 7 {
                    let l: Vec<u16> = Vec::new();
                    let a = assemble(&l, &g);
                    proof {
                        assert(l@ =~= Seq::<u16>::empty());
                    }
                    return Some(a);
                } else {
                    return None;
                }
            },
            None => {
                return None;
            },
        }
    }
    if n >= 3 && pieces[n - 1].len() == 0 && pieces[n - 2].len() == 0 {
        let ghost head = ps.take(n - 2);
        proof {
            assert(head =~= ps.subrange(0, n - 2));
        }
        match parse_groups(&pieces, 0, n - 2) {
            Some(g) => {
                if g.len() <= 7 {
                    let rr: Vec<u16> = Vec::new();
                    let a = assemble(&g, &rr);
                    proof {
                        assert(rr@ =~= Seq::<u16>::empty());
                    }
                    return Some(a);
                } else {
                    return None;
                }
            },
            None => {
                return None;
            },
        }
    }
    // a lone `::` in the middle
    let mut k: usize = 1;
    let mut found = false;
    if n >= 3 {
        while k < n - 1 && !found
            invariant
                3 <= n,
                1 <= k <= n - 1,
                n == ps.len(),
                !found ==> forall|i: int| 1 <= i < k ==> (#[trigger] ps[i]).len() != 0,
                found ==> 1 <= k < n - 1 && ps[k as int].len() == 0 && (forall|i: int|
                    1 <= i < k ==> (#[trigger] ps[i]).len() != 0),
            decreases n - k - (if found {
                1int
            } else {
                0int
            }),
        {
            if pieces[k].len() == 0 {
                found = true;
            } else {
                k = k + 1;
            }
        }
    }
    if !found {
        proof {
            assert(forall|i: int| 1 <= i < n - 1 ==> (#[trigger] ps[i]).len() != 0);
            assert(!(exists|i: int| 1 <= i < ps.len() - 1 && (#[trigger] ps[i]).len() == 0));
            assert(ps.subrange(0, n as int) =~= ps);
        }
        match parse_groups(&pieces, 0, n) {
            Some(g) => {
                if g.len() == 8 {
                    let rr: Vec<u16> = Vec::new();
                    let a = assemble(&g, &rr);
                    proof {
                        assert(rr@ =~= Seq::<u16>::empty());
                        assert(expand_groups(g@, rr@) =~= g@);
                    }
                    return Some(a);
                } else {
                    return None;
                }
            },
            None => {
                return None;
            },
        }
    }
    // `found`: ps[k] is the lone candidate; any further empty piece fails
    proof {
        assert(1 <= (k as int) && (k as int) < ps.len() - 1 && ps[k as int].len() == 0);
        assert(exists|i: int| 1 <= i < ps.len() - 1 && (#[trigger] ps[i]).len() == 0);
    }
    let ghost kk = choose|i: int| 1 <= i < ps.len() - 1 && (#[trigger] ps[i]).len() == 0;
    let ghost left = ps.take(kk);
    let ghost right = ps.skip(kk + 1);
    proof {
        assert(k <= kk) by {
            if kk < k {
                assert(ps[kk].len() != 0);
            }
        }
    }
    let lg = match parse_groups(&pieces, 0, k) {
        Some(g) => g,
        None => {
            proof {
                assert(ps.subrange(0, k as int) =~= ps.take(k as int));
                if kk > k {
                    lemma_groups_empty_piece(ps.take(kk), k as int);
                } else {
                    assert(kk == k);
                }
            }
            return None;
        },
    };
    let rg = match parse_groups(&pieces, k + 1, n) {
        Some(g) => g,
        None => {
            proof {
                assert(ps.subrange(k + 1, n as int) =~= ps.skip(k + 1));
                if kk > k {
                    assert(ps.take(kk)[k as int] == ps[k as int]);
                    lemma_groups_empty_piece(ps.take(kk), k as int);
                }
            }
            return None;
        },
    };
    proof {
        assert(ps.subrange(0, k as int) =~= ps.take(k as int));
        assert(ps.subrange(k + 1, n as int) =~= ps.skip(k + 1));
        assert(kk == k) by {
            if kk > k {
                assert(ps.skip(k + 1)[kk - k - 1] == ps[kk]);
                lemma_groups_empty_piece(ps.skip(k + 1), kk - k - 1);
            }
        }
    }
    if lg.len() <= 7 && rg.len() <= 7 - lg.len() {
        let a = assemble(&lg, &rg);
        Some(a)
    } else {
        None
    }
}

/// Parse an IP address of either family: the dotted quad first, else IPv6.
pub fn parse_ip(s: &str) -> (r: Option<IpAddress>)
    ensures
        r == spec_parse_ip(s@),
{
    match parse_ipv4(s) {
        Some(v4) => Some(IpAddress::V4(v4)),
        None => match parse_ipv6(s) {
            Some(v6) => Some(IpAddress::V6(v6)),
            None => None,
        },
    }
}

/// Parse a port number.
fn parse_port(p: &Vec<char>) -> (r: Option<u16>)
    ensures
        r == spec_port(p@),
{
    let n = p.len();
    if n < 1 {
        return None;
    }
    let mut i: usize = 0;
    while i < n
        invariant
            i <= n,
            n == p@.len(),
            forall|k: int| 0 <= k < i ==> crate::text::digit_char(#[trigger] p@[k]),
        decreases n - i,
    {
        let c = p[i];
        if !((c as u32) >= 48 && (c as u32) <= 57) {
            return None;
        }
        i = i + 1;
    }
    match crate::text::parse_digits(p, 0, n) {
        Some(v) => {
            proof {
                assert(p@.subrange(0, n as int) =~= p@);
            }
            if v <= 65535 {
                Some(v as u16)
            } else {
                None
            }
        },
        None => {
            proof {
                assert(p@.subrange(0, n as int) =~= p@);
            }
            None
        },
    }
}

/// Parse a socket address: `v4:port` or `[v6]:port`.
#[verifier::loop_isolation(false)]
#[verifier::rlimit(60)]
pub fn parse_socket(s: &str) -> (r: Option<SocketAddress>)
    ensures
        r == spec_parse_socket(s@),
{
    let v = crate::text::string_to_chars(s);
    if v.len() > 0 && v[0] == '[' {
        // [v6]:port
        let mut k: usize = 0;
        while k < v.len() && v[k] != ']'
            invariant
                k <= s@.len(),
                forall|i: int| 0 <= i < k ==> s@[i] != ']',
            decreases s@.len() - k,
        {
            k = k + 1;
        }
        proof {
            if k < s@.len() {
                assert(s@[k as int] == ']');
            }
            crate::text::lemma_head_until_eq(s@, ']', k as int);
        }
        if k >= v.len() || k + 1 >= v.len() {
            return None;
        }
        if v[k + 1] != ':' {
            return None;
        }
        let inner = s.substring_char(1, k);
        proof {
            assert(inner@ == s@.subrange(1, k as int));
        }
        let v6 = match parse_ipv6(inner) {
            Some(a) => a,
            None => {
                return None;
            },
        };
        let mut port_chars: Vec<char> = Vec::new();
        let mut t = k + 2;
        while t < v.len()
            invariant
                k + 2 <= t <= s@.len(),
                port_chars@ =~= s@.subrange(k + 2, t as int),
            decreases s@.len() - t,
        {
            port_chars.push(v[t]);
            t = t + 1;
        }
        proof {
            assert(port_chars@ =~= s@.skip(k + 2));
        }
        match parse_port(&port_chars) {
            Some(port) => Some(SocketAddress { ip: IpAddress::V6(v6), port }),
            None => None,
        }
    } else {
        let pieces = crate::text::split_chars(&v, ':');
        let ghost ps = crate::text::split_on(s@, ':');
        proof {
            assert(pieces@.map_values(|p: Vec<char>| p@) == ps);
        }
        if pieces.len() != 2 {
            return None;
        }
        proof {
            assert(pieces@[0]@ == ps[0] && pieces@[1]@ == ps[1]);
        }
        let ip_str = crate::text::chars_to_string(&pieces[0]);
        let v4 = match parse_ipv4(ip_str.as_str()) {
            Some(a) => a,
            None => {
                return None;
            },
        };
        match parse_port(&pieces[1]) {
            Some(port) => Some(SocketAddress { ip: IpAddress::V4(v4), port }),
            None => None,
        }
    }
}

} // verus!
