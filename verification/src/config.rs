//! The configuration dialect: duration grammar, line diagnostics, the host
//! table, and the merged configuration record.

use vstd::prelude::*;
use crate::ip::{IpAddress, SocketAddress};
use crate::matcher::{Matcher, SpecMatcher, matcher_matches, spec_matcher_of};
use crate::text::{digit_char, digit_val, int_val, lemma_int_val_mono, parse_digits, string_to_chars};

verus! {

/// A character of the numeric prefix of a duration: a digit or a dot.
pub open spec fn num_char(c: char) -> bool {
    digit_char(c) || c == '.'
}

/// The number of leading numeric characters of `s`.
pub open spec fn num_prefix_len(s: Seq<char>) -> nat
    decreases s.len(),
{
    if s.len() == 0 {
        0
    } else if !num_char(s[0]) {
        0
    } else {
        1 + num_prefix_len(s.drop_first())
    }
}

/// The prefix of `s` stops being numeric exactly at `k`.
pub proof fn lemma_num_prefix_len_eq(s: Seq<char>, k: int)
    requires
        0 <= k <= s.len(),
        forall|i: int| 0 <= i < k ==> num_char(s[i]),
        k == s.len() || !num_char(s[k]),
    ensures
        num_prefix_len(s) == k,
    decreases s.len(),
{
    if s.len() != 0 && num_char(s[0]) {
        assert forall|i: int| 0 <= i < k - 1 implies num_char(s.drop_first()[i]) by {
            assert(num_char(s[i + 1]));
        }
        lemma_num_prefix_len_eq(s.drop_first(), k - 1);
    }
}

/// Ten to the `k`.
pub open spec fn pow10(k: nat) -> int
    decreases k,
{
    if k == 0 {
        1
    } else {
        10 * pow10((k - 1) as nat)
    }
}

/// The unit suffix of a duration, in milliseconds.
pub open spec fn spec_unit_ms(u: Seq<char>) -> Option<u64> {
    if u.len() == 2 && u[0] == 'm' && u[1] == 's' {
        Some(1u64)
    } else if u.len() == 1 && u[0] == 's' {
        Some(1000u64)
    } else if u.len() == 1 && u[0] == 'm' {
        Some(60000u64)
    } else if u.len() == 1 && u[0] == 'h' {
        Some(3600000u64)
    } else if u.len() == 1 && u[0] == 'd' {
        Some(86400000u64)
    } else {
        None
    }
}

/// The duration grammar: a decimal number, then a unit suffix. The whole
/// and fractional digit strings are scaled by the unit and truncated to
/// whole milliseconds; only the first nine fractional digits can matter
/// and further ones are ignored; a value over `u64::MAX` saturates.
/// Zero milliseconds is a failure, as is a missing number or unit.
pub open spec fn spec_parse_duration(s: Seq<char>) -> Option<u64> {
    let n = num_prefix_len(s) as int;
    if n == 0 || n == s.len() {
        None
    } else {
        match spec_unit_ms(s.skip(n)) {
            None => None,
            Some(u) => {
                let num = s.take(n);
                let fd = crate::qname::head_label_len(num) as int;
                if fd == num.len() {
                    // no dot: all digits
                    dur_of(num, seq![], u)
                } else {
                    let frac = num.skip(fd + 1);
                    if crate::qname::head_label_len(frac) != frac.len() {
                        None  // a second dot
                    } else {
                        dur_of(num.take(fd), frac, u)
                    }
                }
            },
        }
    }
}

/// Milliseconds of `whole.frac` scaled by unit `u`, truncated, saturated.
pub open spec fn dur_of(whole: Seq<char>, frac: Seq<char>, u: u64) -> Option<u64> {
    if whole.len() + frac.len() == 0 {
        None
    } else {
        let frac9 = frac.take(if frac.len() <= 9 {
            frac.len() as int
        } else {
            9
        });
        let exact = int_val(whole) * u + int_val(frac9) * u / pow10(frac9.len());
        let ms: u64 = if exact > u64::MAX {
            u64::MAX
        } else {
            exact as u64
        };
        if ms == 0 {
            None
        } else {
            Some(ms)
        }
    }
}

} // verus!

verus! {

/// Ten to the `k`, computed.
fn pow10_u128(k: usize) -> (r: u128)
    requires
        k <= 9,
    ensures
        r == pow10(k as nat),
        r >= 1,
{
    let mut r: u128 = 1;
    let mut i: usize = 0;
    while i < k
        invariant
            i <= k <= 9,
            r == pow10(i as nat),
        decreases k - i,
    {
        proof {
            lemma_pow10_le9(i as nat);
        }
        i = i + 1;
        r = r * 10;
    }
    proof {
        lemma_pow10_pos(k as nat);
    }
    r
}

/// Ten to at most the ninth stays within ten digits.
proof fn lemma_pow10_le9(k: nat)
    requires
        k <= 9,
    ensures
        1 <= pow10(k) <= 1000000000,
{
    assert(pow10(0) == 1);
    assert(pow10(1) == 10);
    assert(pow10(2) == 100);
    assert(pow10(3) == 1000);
    assert(pow10(4) == 10000);
    assert(pow10(5) == 100000);
    assert(pow10(6) == 1000000);
    assert(pow10(7) == 10000000);
    assert(pow10(8) == 100000000);
    assert(pow10(9) == 1000000000);
}

/// Parse the duration grammar: a decimal number then a unit among
/// `ms`, `s`, `m`, `h` and `d`, yielding whole milliseconds.
#[verifier::loop_isolation(false)]
#[verifier::rlimit(100)]
pub fn try_parse_duration(text: &str) -> (r: Result<u64, ()>)
    ensures
        r is Ok <==> spec_parse_duration(text@) is Some,
        r is Ok ==> r->Ok_0 == spec_parse_duration(text@)->0,
{
    let chars = string_to_chars(text);
    let ghost s = text@;
    // the numeric prefix
    let mut n: usize = 0;
    while n < chars.len() && (chars[n] == '.' || (chars[n] as u32 >= 48 && chars[n] as u32 <= 57))
        invariant
            n <= s.len(),
            forall|i: int| 0 <= i < n ==> num_char(#[trigger] s[i]),
        decreases s.len() - n,
    {
        n = n + 1;
    }
    proof {
        lemma_num_prefix_len_eq(s, n as int);
    }
    if n == 0 || n == chars.len() {
        return Err(());
    }
    // the unit
    let ulen = chars.len() - n;
    let ghost useq = s.skip(n as int);
    let u: u64 = if ulen == 1 && chars[n] == 's' {
        proof {
            assert(useq.len() == 1 && useq[0] == 's');
            assert(spec_unit_ms(useq) == Some(1000u64));
        }
        1000
    } else if ulen == 1 && chars[n] == 'm' {
        proof {
            assert(useq.len() == 1 && useq[0] == 'm');
            assert(spec_unit_ms(useq) == Some(60000u64));
        }
        60000
    } else if ulen == 1 && chars[n] == 'h' {
        proof {
            assert(useq.len() == 1 && useq[0] == 'h');
            assert(spec_unit_ms(useq) == Some(3600000u64));
        }
        3600000
    } else if ulen == 1 && chars[n] == 'd' {
        proof {
            assert(useq.len() == 1 && useq[0] == 'd');
            assert(spec_unit_ms(useq) == Some(86400000u64));
        }
        86400000
    } else if ulen == 2 && chars[n] == 'm' && chars[n + 1] == 's' {
        proof {
            assert(useq.len() == 2 && useq[0] == 'm' && useq[1] == 's');
            assert(spec_unit_ms(useq) == Some(1u64));
        }
        1
    } else {
        proof {
            assert(spec_unit_ms(useq) is None) by {
                if ulen == 1 {
                    assert(useq[0] == s[n as int]);
                } else if ulen == 2 {
                    assert(useq[0] == s[n as int] && useq[1] == s[n + 1]);
                }
            }
        }
        return Err(());
    };
    proof {
        assert(spec_unit_ms(useq) == Some(u));
    }
    // the dot, if any
    let ghost num = s.take(n as int);
    let mut fd: usize = 0;
    while fd < n && chars[fd] != '.'
        invariant
            fd <= n,
            forall|i: int| 0 <= i < fd ==> s[i] != '.',
        decreases n - fd,
    {
        fd = fd + 1;
    }
    proof {
        assert forall|i: int| 0 <= i < fd implies num[i] != '.' by {
            assert(num[i] == s[i]);
        }
        if fd < n {
            assert(num[fd as int] == s[fd as int]);
        }
        crate::qname::lemma_head_label_len_eq(num, fd as int);
    }
    // the fractional digits, which must hold no second dot
    let mut fstart: usize = n;
    let mut fend: usize = n;
    if fd < n {
        fstart = fd + 1;
        let mut j = fstart;
        while j < n && chars[j] != '.'
            invariant
                fstart <= j <= n,
                forall|i: int| fstart <= i < j ==> s[i] != '.',
            decreases n - j,
        {
            j = j + 1;
        }
        let ghost frac = num.skip(fd + 1);
        proof {
            assert forall|i: int| 0 <= i < j - fstart implies frac[i] != '.' by {
                assert(frac[i] == s[fstart + i]);
            }
            if j < n {
                assert(frac[j - fstart] == s[j as int]);
            }
            crate::qname::lemma_head_label_len_eq(frac, j - fstart as int);
        }
        if j < n {
            return Err(());
        }
        fend = n;
    }
    let ghost whole = num.take(fd as int);
    let ghost frac = if fd < n {
        num.skip(fd + 1)
    } else {
        Seq::<char>::empty()
    };
    proof {
        if fd == n {
            assert(frac =~= seq![]);
            assert(whole =~= num);
        }
        assert(spec_parse_duration(s) == dur_of(whole, frac, u));
        assert(whole =~= s.subrange(0, fd as int));
        assert(frac =~= s.subrange(fstart as int, fend as int));
        assert forall|i: int| 0 <= i < fd implies digit_char(#[trigger] s[i]) by {
            assert(num_char(s[i]) && s[i] != '.');
        }
        assert forall|i: int| fstart <= i < fend implies digit_char(#[trigger] s[i]) by {
            assert(num_char(s[i]));
            assert(frac[i - fstart] == s[i]);
            assert(crate::qname::head_label_len(frac) == frac.len());
            crate::qname::lemma_head_label_len(frac);
        }
    }
    if fd == 0 && fstart == fend {
        return Err(());
    }
    // digits to milliseconds
    let k = if fend - fstart <= 9 {
        fend - fstart
    } else {
        9
    };
    let ghost frac9 = frac.take(k as int);
    proof {
        assert(frac9 =~= s.subrange(fstart as int, (fstart + k) as int));
        assert forall|i: int| 0 <= i < frac9.len() implies digit_char(#[trigger] frac9[i]) by {
            assert(frac9[i] == s[fstart + i]);
        }
    }
    let fval = match parse_digits(&chars, fstart, fstart + k) {
        Some(v) => v,
        None => {
            proof {
                assert(int_val(frac9) <= u64::MAX) by {
                    lemma_int_val_bound(frac9);
                }
            }
            0  // unreachable: at most nine digits
        },
    };
    proof {
        lemma_int_val_bound(frac9);
    }
    let exact: u128 = match parse_digits(&chars, 0, fd) {
        Some(w) => {
            proof {
                assert((w as u128) * (u as u128) <= 0xFFFFFFFFFFFFFFFFu128 * 86400000u128)
                    by (nonlinear_arith)
                    requires
                        w <= u64::MAX,
                        u <= 86400000,
                ;
                assert((fval as u128) * (u as u128) <= 1000000000u128 * 86400000u128)
                    by (nonlinear_arith)
                    requires
                        fval < 1000000000,
                        u <= 86400000,
                ;
            }
            (w as u128) * (u as u128) + (fval as u128) * (u as u128) / pow10_u128(k)
        },
        None => {
            proof {
                assert(int_val(whole) > u64::MAX);
                assert(int_val(whole) * u >= int_val(whole)) by (nonlinear_arith)
                    requires
                        u >= 1,
                        int_val(whole) > 0,
                ;
                lemma_int_val_bound(frac9);
                assert(int_val(frac9) * u / pow10(frac9.len()) >= 0) by {
                    assert(int_val(frac9) >= 0);
                    assert(int_val(frac9) * u >= 0) by (nonlinear_arith)
                        requires
                            int_val(frac9) >= 0,
                            u >= 1,
                    ;
                    assert(pow10(frac9.len()) >= 1) by {
                        lemma_pow10_pos(frac9.len());
                    }
                };
            }
            return Ok(u64::MAX);
        },
    };
    proof {
        assert(exact == int_val(whole) * u + int_val(frac9) * u / pow10(frac9.len()));
    }
    let ms: u64 = if exact > u64::MAX as u128 {
        u64::MAX
    } else {
        exact as u64
    };
    if ms == 0 {
        Err(())
    } else {
        Ok(ms)
    }
}

/// Nine digits stay under `u64::MAX`.
proof fn lemma_int_val_bound(s: Seq<char>)
    requires
        s.len() <= 9,
        forall|i: int| 0 <= i < s.len() ==> digit_char(#[trigger] s[i]),
    ensures
        0 <= int_val(s) < 1000000000,
{
    lemma_int_val_small(s);
    lemma_pow10_le9(s.len());
}

/// The value of `k` digits is under ten to the `k`.
proof fn lemma_int_val_small(s: Seq<char>)
    requires
        forall|i: int| 0 <= i < s.len() ==> digit_char(#[trigger] s[i]),
    ensures
        0 <= int_val(s) < pow10(s.len()),
    decreases s.len(),
{
    if s.len() > 0 {
        lemma_int_val_small(s.drop_last());
        assert(int_val(s) == int_val(s.drop_last()) * 10 + digit_val(s.last()));
        assert(int_val(s.drop_last()) * 10 <= (pow10((s.len() - 1) as nat) - 1) * 10)
            by (nonlinear_arith)
            requires
                int_val(s.drop_last()) <= pow10((s.len() - 1) as nat) - 1,
        ;
    }
}

proof fn lemma_pow10_pos(k: nat)
    ensures
        pow10(k) >= 1,
    decreases k,
{
    if k > 0 {
        lemma_pow10_pos((k - 1) as nat);
    }
}

} // verus!

verus! {

/// The kind of a configuration-line diagnostic.
#[derive(Clone, Copy, Debug, PartialEq, Eq, Structural)]
pub enum InvalidType {
    Regex,
    SocketAddr,
    IpAddr,
    Timeout,
    Other,
}

impl InvalidType {
    /// A short description of the diagnostic kind.
    pub fn description(&self) -> (r: &str)
        ensures
            self is SocketAddr ==> r@ == "Cannot parse socket address"@,
            self is IpAddr ==> r@ == "Cannot parse ip address"@,
            self is Regex ==> r@ == "Cannot parse regular expression"@,
            self is Timeout ==> r@ == "Cannot parse timeout"@,
            self is Other ==> r@ == "Invalid line"@,
    {
        match self {
            InvalidType::SocketAddr => "Cannot parse socket address",
            InvalidType::IpAddr => "Cannot parse ip address",
            InvalidType::Regex => "Cannot parse regular expression",
            InvalidType::Timeout => "Cannot parse timeout",
            InvalidType::Other => "Invalid line",
        }
    }
}

/// A non-fatal parse diagnostic: the 1-based line, its text, and the kind.
#[derive(Clone, Debug)]
pub struct Invalid {
    pub line: usize,
    pub source: String,
    pub kind: InvalidType,
}

/// The host table at the spec level: matchers with addresses, in insertion
/// order.
pub type SpecHosts = Seq<(SpecMatcher, IpAddress)>;

/// The address of the first entry whose matcher matches the domain.
pub open spec fn spec_lookup(s: SpecHosts, d: Seq<char>) -> Option<IpAddress>
    decreases s.len(),
{
    if s.len() == 0 {
        None
    } else if matcher_matches(s[0].0, d) {
        Some(s[0].1)
    } else {
        spec_lookup(s.drop_first(), d)
    }
}

/// The insertion-ordered table of host-override rules.
#[derive(Debug)]
pub struct Hosts {
    record: Vec<(Matcher, IpAddress)>,
}

impl View for Hosts {
    type V = SpecHosts;

    closed spec fn view(&self) -> SpecHosts {
        self.record@.map_values(|p: (Matcher, IpAddress)| (p.0@, p.1))
    }
}

impl Hosts {
    /// An empty table.
    pub fn new() -> (r: Hosts)
        ensures
            r@ == Seq::<(SpecMatcher, IpAddress)>::empty(),
    {
        let r = Hosts { record: Vec::new() };
        proof {
            assert(r@ =~= Seq::<(SpecMatcher, IpAddress)>::empty());
        }
        r
    }

    /// Append one rule.
    pub fn push(&mut self, record: (Matcher, IpAddress))
        ensures
            final(self)@ == old(self)@.push((record.0@, record.1)),
    {
        let ghost m = record.0@;
        let ghost ip = record.1;
        self.record.push(record);
        proof {
            assert(self@ =~= old(self)@.push((m, ip)));
        }
    }

    /// Append another table, keeping both orders.
    #[verifier::loop_isolation(false)]
    pub fn extend(&mut self, hosts: Hosts)
        ensures
            final(self)@ == old(self)@ + hosts@,
    {
        let ghost sv = hosts@;
        let ghost rv = hosts.record@;
        let mut rest = hosts.record;
        let ghost mut k: int = 0;
        proof {
            assert(rv.skip(0) =~= rv);
            assert(self.record@ + rv.take(0) =~= self.record@);
        }
        while rest.len() > 0
            invariant
                0 <= k <= rv.len(),
                rest@ == rv.skip(k),
                self.record@ == old(self).record@ + rv.take(k),
            decreases rest@.len(),
        {
            let x = rest.remove(0);
            proof {
                assert(rv.skip(k)[0] == rv[k]);
            }
            self.record.push(x);
            proof {
                assert(rv.skip(k).remove(0) =~= rv.skip(k + 1));
                assert((old(self).record@ + rv.take(k)).push(rv[k]) =~= old(self).record@
                    + rv.take(k + 1));
                k = k + 1;
            }
        }
        proof {
            assert(rv.take(k) =~= rv);
            assert(self@ =~= old(self)@ + sv);
        }
    }

    /// The rules, in insertion order.
    pub fn iter(&self) -> (r: &Vec<(Matcher, IpAddress)>)
        ensures
            r@.map_values(|p: (Matcher, IpAddress)| (p.0@, p.1)) == self@,
    {
        &self.record
    }

    /// The address of the first rule that matches, if any.
    pub fn get(&self, domain: &str) -> (r: Option<IpAddress>)
        ensures
            r == spec_lookup(self@, domain@),
    {
        let ghost s = self@;
        let mut i: usize = 0;
        proof {
            assert(s.skip(0) =~= s);
        }
        while i < self.record.len()
            invariant
                i <= s.len(),
                s.len() == self.record@.len(),
                self@ == s,
                spec_lookup(s, domain@) == spec_lookup(s.skip(i as int), domain@),
            decreases s.len() - i,
        {
            proof {
                assert(s.skip(i as int)[0] == s[i as int]);
                assert(s[i as int] == (self.record@[i as int].0@, self.record@[i as int].1));
                assert(s.skip(i as int).drop_first() =~= s.skip(i + 1));
            }
            if self.record[i].0.is_match(domain) {
                return Some(self.record[i].1);
            }
            i = i + 1;
        }
        proof {
            assert(s.skip(i as int) =~= Seq::<(SpecMatcher, IpAddress)>::empty());
        }
        None
    }
}

/// The first matching rule wins the lookup.
pub proof fn lemma_first_match_wins(s: SpecHosts, d: Seq<char>, i: int)
    requires
        0 <= i < s.len(),
        matcher_matches(s[i].0, d),
        forall|j: int| 0 <= j < i ==> !matcher_matches((#[trigger] s[j]).0, d),
    ensures
        spec_lookup(s, d) == Some(s[i].1),
    decreases i,
{
    if i > 0 {
        lemma_first_match_wins(s.drop_first(), d, i - 1);
        assert forall|j: int| 0 <= j < i - 1 implies !matcher_matches(
            (#[trigger] s.drop_first()[j]).0,
            d,
        ) by {
            assert(s.drop_first()[j] == s[j + 1]);
        }
        assert(s.drop_first()[i - 1] == s[i]);
    }
}

/// Removing the winning rule exposes the next matching one: the lookup then
/// continues among the rules after it.
pub proof fn lemma_remove_exposes_next(s: SpecHosts, d: Seq<char>, i: int)
    requires
        0 <= i < s.len(),
        forall|j: int| 0 <= j < i ==> !matcher_matches((#[trigger] s[j]).0, d),
    ensures
        spec_lookup(s.remove(i), d) == spec_lookup(s.skip(i + 1), d),
    decreases i,
{
    if i == 0 {
        assert(s.remove(0) =~= s.skip(1));
    } else {
        lemma_remove_exposes_next(s.drop_first(), d, i - 1);
        assert forall|j: int| 0 <= j < i - 1 implies !matcher_matches(
            (#[trigger] s.drop_first()[j]).0,
            d,
        ) by {
            assert(s.drop_first()[j] == s[j + 1]);
        }
        assert(s.remove(i).drop_first() =~= s.drop_first().remove(i - 1));
        assert(s.remove(i)[0] == s[0]);
        assert(s.drop_first().skip(i) =~= s.skip(i + 1));
    }
}

/// A parsed configuration: bind and upstream addresses, the host table,
/// an optional timeout in milliseconds, and the line diagnostics.
#[derive(Debug)]
pub struct Config {
    pub bind: Vec<SocketAddress>,
    pub proxy: Vec<SocketAddress>,
    pub hosts: Hosts,
    pub timeout: Option<u64>,
    pub invalid: Vec<Invalid>,
}

impl Config {
    /// An empty configuration.
    pub fn new() -> (r: Config)
        ensures
            r.bind@ == Seq::<SocketAddress>::empty(),
            r.proxy@ == Seq::<SocketAddress>::empty(),
            r.hosts@ == Seq::<(SpecMatcher, IpAddress)>::empty(),
            r.timeout is None,
            r.invalid@ == Seq::<Invalid>::empty(),
    {
        Config {
            hosts: Hosts::new(),
            bind: Vec::new(),
            proxy: Vec::new(),
            invalid: Vec::new(),
            timeout: None,
        }
    }

    /// Merge another configuration after this one: its addresses, rules and
    /// diagnostics follow the ones already here in order, and its timeout,
    /// when it has one, wins.
    pub fn extend(&mut self, other: Config)
        ensures
            final(self).bind@ == old(self).bind@ + other.bind@,
            final(self).proxy@ == old(self).proxy@ + other.proxy@,
            final(self).hosts@ == old(self).hosts@ + other.hosts@,
            final(self).invalid@ == old(self).invalid@ + other.invalid@,
            final(self).timeout == (if other.timeout is Some {
                other.timeout
            } else {
                old(self).timeout
            }),
    {
        let Config { bind, proxy, hosts, timeout, invalid } = other;
        append_all(&mut self.bind, bind);
        append_all(&mut self.proxy, proxy);
        self.hosts.extend(hosts);
        append_all(&mut self.invalid, invalid);
        if timeout.is_some() {
            self.timeout = timeout;
        }
    }
}

/// Move every element of `src` onto the end of `dst`.
#[verifier::loop_isolation(false)]
fn append_all<T>(dst: &mut Vec<T>, src: Vec<T>)
    ensures
        final(dst)@ == old(dst)@ + src@,
{
    let ghost sv = src@;
    let mut src = src;
    let ghost mut k: int = 0;
    proof {
        assert(sv.skip(0) =~= sv);
        assert(dst@ + sv.take(0) =~= dst@);
    }
    while src.len() > 0
        invariant
            0 <= k <= sv.len(),
            src@ == sv.skip(k),
            dst@ == old(dst)@ + sv.take(k),
        decreases src@.len(),
    {
        let x = src.remove(0);
        proof {
            assert(sv.skip(k)[0] == sv[k]);
        }
        dst.push(x);
        proof {
            assert(sv.skip(k).remove(0) =~= sv.skip(k + 1));
            assert((old(dst)@ + sv.take(k)).push(sv[k]) =~= old(dst)@ + sv.take(k + 1));
            k = k + 1;
        }
    }
    proof {
        assert(sv.take(k) =~= sv);
    }
}

} // verus!

verus! {

/// An ASCII whitespace character.
pub open spec fn ws_char(c: char) -> bool {
    c == ' ' || c == '\t' || c == '\n' || c == '\r' || c == '\u{c}'
}

/// The leading whitespace of `s`.
pub open spec fn ws_prefix(s: Seq<char>) -> nat
    decreases s.len(),
{
    if s.len() == 0 {
        0
    } else if ws_char(s[0]) {
        1 + ws_prefix(s.drop_first())
    } else {
        0
    }
}

pub proof fn lemma_ws_prefix_eq(s: Seq<char>, k: int)
    requires
        0 <= k <= s.len(),
        forall|i: int| 0 <= i < k ==> ws_char(s[i]),
        k == s.len() || !ws_char(s[k]),
    ensures
        ws_prefix(s) == k,
    decreases s.len(),
{
    if s.len() != 0 && ws_char(s[0]) {
        assert forall|i: int| 0 <= i < k - 1 implies ws_char(s.drop_first()[i]) by {
            assert(ws_char(s[i + 1]));
        }
        lemma_ws_prefix_eq(s.drop_first(), k - 1);
    }
}

/// `s` without its trailing whitespace.
pub open spec fn trim_end(s: Seq<char>) -> Seq<char>
    decreases s.len(),
{
    if s.len() > 0 && ws_char(s.last()) {
        trim_end(s.drop_last())
    } else {
        s
    }
}

pub proof fn lemma_trim_end_eq(s: Seq<char>, e: int)
    requires
        0 <= e <= s.len(),
        forall|i: int| e <= i < s.len() ==> ws_char(s[i]),
        e == 0 || !ws_char(s[e - 1]),
    ensures
        trim_end(s) == s.take(e),
    decreases s.len(),
{
    if s.len() > 0 && ws_char(s.last()) {
        assert(e < s.len());
        lemma_trim_end_eq(s.drop_last(), e);
        assert(s.drop_last().take(e) =~= s.take(e));
    } else {
        assert(e == s.len());
        assert(s.take(e) =~= s);
    }
}

/// The comment stripped and surrounding whitespace trimmed.
pub open spec fn trimmed_line(line: Seq<char>) -> Seq<char> {
    let uncommented = line.take(crate::text::head_until(line, '#') as int);
    trim_end(uncommented.skip(ws_prefix(uncommented) as int))
}

/// The leading run of non-whitespace of `s`.
pub open spec fn token_len(s: Seq<char>) -> nat
    decreases s.len(),
{
    if s.len() == 0 {
        0
    } else if !ws_char(s[0]) {
        1 + token_len(s.drop_first())
    } else {
        0
    }
}

pub proof fn lemma_token_len_eq(s: Seq<char>, k: int)
    requires
        0 <= k <= s.len(),
        forall|i: int| 0 <= i < k ==> !ws_char(s[i]),
        k == s.len() || ws_char(s[k]),
    ensures
        token_len(s) == k,
    decreases s.len(),
{
    if s.len() != 0 && !ws_char(s[0]) {
        assert forall|i: int| 0 <= i < k - 1 implies !ws_char(s.drop_first()[i]) by {
            assert(!ws_char(s[i + 1]));
        }
        lemma_token_len_eq(s.drop_first(), k - 1);
    }
}

/// The two whitespace-separated tokens of a trimmed nonempty line, if it
/// has exactly two.
pub open spec fn spec_two_tokens(t: Seq<char>) -> Option<(Seq<char>, Seq<char>)> {
    let k1 = token_len(t) as int;
    let mid = t.skip(k1);
    let w = ws_prefix(mid) as int;
    let rest = mid.skip(w);
    let k2 = token_len(rest) as int;
    if k1 == t.len() || w == mid.len() || k2 < rest.len() {
        None
    } else {
        Some((t.take(k1), rest))
    }
}

/// A configuration line, parsed.
pub enum SpecLine {
    Skip,
    Bind(SocketAddress),
    Proxy(SocketAddress),
    Timeout(u64),
    Import(Seq<char>),
    Host(SpecMatcher, IpAddress),
    Bad(InvalidType),
}

pub open spec fn is_word_bind(t: Seq<char>) -> bool {
    t.len() == 4 && t[0] == 'b' && t[1] == 'i' && t[2] == 'n' && t[3] == 'd'
}

pub open spec fn is_word_proxy(t: Seq<char>) -> bool {
    t.len() == 5 && t[0] == 'p' && t[1] == 'r' && t[2] == 'o' && t[3] == 'x' && t[4] == 'y'
}

pub open spec fn is_word_timeout(t: Seq<char>) -> bool {
    t.len() == 7 && t[0] == 't' && t[1] == 'i' && t[2] == 'm' && t[3] == 'e' && t[4] == 'o'
        && t[5] == 'u' && t[6] == 't'
}

pub open spec fn is_word_import(t: Seq<char>) -> bool {
    t.len() == 6 && t[0] == 'i' && t[1] == 'm' && t[2] == 'p' && t[3] == 'o' && t[4] == 'r'
        && t[5] == 't'
}

/// A host-record line: the address on either side of the pattern; a pattern
/// whose regular expression does not compile is a diagnostic.
pub open spec fn spec_host_record(key: Seq<char>, value: Seq<char>) -> SpecLine {
    if crate::ip::spec_parse_ip(value) is Some {
        match spec_matcher_of(key) {
            SpecMatcher::Regex(p) => if crate::matcher::regex_accepts(p) {
                SpecLine::Host(spec_matcher_of(key), crate::ip::spec_parse_ip(value)->0)
            } else {
                SpecLine::Bad(InvalidType::Regex)
            },
            _ => SpecLine::Host(spec_matcher_of(key), crate::ip::spec_parse_ip(value)->0),
        }
    } else if crate::ip::spec_parse_ip(key) is Some {
        match spec_matcher_of(value) {
            SpecMatcher::Regex(p) => if crate::matcher::regex_accepts(p) {
                SpecLine::Host(spec_matcher_of(value), crate::ip::spec_parse_ip(key)->0)
            } else {
                SpecLine::Bad(InvalidType::Regex)
            },
            _ => SpecLine::Host(spec_matcher_of(value), crate::ip::spec_parse_ip(key)->0),
        }
    } else {
        SpecLine::Bad(InvalidType::IpAddr)
    }
}

/// Two tokens dispatched on the directive word.
pub open spec fn spec_dispatch(key: Seq<char>, value: Seq<char>) -> SpecLine {
    if is_word_bind(key) {
        match crate::ip::spec_parse_socket(value) {
            Some(a) => SpecLine::Bind(a),
            None => SpecLine::Bad(InvalidType::SocketAddr),
        }
    } else if is_word_proxy(key) {
        match crate::ip::spec_parse_socket(value) {
            Some(a) => SpecLine::Proxy(a),
            None => SpecLine::Bad(InvalidType::SocketAddr),
        }
    } else if is_word_timeout(key) {
        match spec_parse_duration(value) {
            Some(ms) => SpecLine::Timeout(ms),
            None => SpecLine::Bad(InvalidType::Timeout),
        }
    } else if is_word_import(key) {
        SpecLine::Import(value)
    } else {
        spec_host_record(key, value)
    }
}

/// One line of the configuration dialect: comments stripped, blank lines
/// skipped, two tokens dispatched on the directive word.
pub open spec fn spec_parse_line(line: Seq<char>) -> SpecLine {
    let t = trimmed_line(line);
    if t.len() == 0 {
        SpecLine::Skip
    } else {
        match spec_two_tokens(t) {
            None => SpecLine::Bad(InvalidType::Other),
            Some((key, value)) => spec_dispatch(key, value),
        }
    }
}

} // verus!

verus! {

/// A diagnostic at the spec level.
#[verifier::ext_equal]
pub struct SpecInvalid {
    pub line: int,
    pub source: Seq<char>,
    pub kind: InvalidType,
}

impl View for Invalid {
    type V = SpecInvalid;

    open spec fn view(&self) -> SpecInvalid {
        SpecInvalid { line: self.line as int, source: self.source@, kind: self.kind }
    }
}

/// The views of a diagnostic list.
pub open spec fn invalid_views(v: Seq<Invalid>) -> Seq<SpecInvalid> {
    v.map_values(|x: Invalid| x@)
}

/// One parsed configuration line, with its compiled matcher.
#[derive(Debug)]
pub enum LineOutcome {
    Skip,
    Bind(SocketAddress),
    Proxy(SocketAddress),
    Timeout(u64),
    Import(String),
    Host(Matcher, IpAddress),
    Bad(InvalidType),
}

impl View for LineOutcome {
    type V = SpecLine;

    open spec fn view(&self) -> SpecLine {
        match self {
            LineOutcome::Skip => SpecLine::Skip,
            LineOutcome::Bind(a) => SpecLine::Bind(*a),
            LineOutcome::Proxy(a) => SpecLine::Proxy(*a),
            LineOutcome::Timeout(ms) => SpecLine::Timeout(*ms),
            LineOutcome::Import(p) => SpecLine::Import(p@),
            LineOutcome::Host(m, ip) => SpecLine::Host(m@, *ip),
            LineOutcome::Bad(k) => SpecLine::Bad(*k),
        }
    }
}

/// Whether a character is ASCII whitespace.
fn ws_exec(c: char) -> (r: bool)
    ensures
        r == ws_char(c),
{
    c == ' ' || c == '\t' || c == '\n' || c == '\r' || c == '\u{c}'
}

/// Dispatch a two-token line on its directive word.
#[verifier::loop_isolation(false)]
#[verifier::rlimit(100)]
fn line_dispatch(key_str: &str, value_str: &str) -> (r: LineOutcome)
    ensures
        r@ == spec_dispatch(key_str@, value_str@),
{
    let key = crate::text::string_to_chars(key_str);
    let ghost kv = key_str@;
    let klen = key.len();
    let is_bind = klen == 4 && key[0] == 'b' && key[1] == 'i' && key[2] == 'n' && key[3] == 'd';
    let is_proxy = klen == 5 && key[0] == 'p' && key[1] == 'r' && key[2] == 'o' && key[3] == 'x'
        && key[4] == 'y';
    let is_timeout = klen == 7 && key[0] == 't' && key[1] == 'i' && key[2] == 'm' && key[3] == 'e'
        && key[4] == 'o' && key[5] == 'u' && key[6] == 't';
    let is_import = klen == 6 && key[0] == 'i' && key[1] == 'm' && key[2] == 'p' && key[3] == 'o'
        && key[4] == 'r' && key[5] == 't';
    proof {
        assert(is_bind == is_word_bind(kv));
        assert(is_proxy == is_word_proxy(kv));
        assert(is_timeout == is_word_timeout(kv));
        assert(is_import == is_word_import(kv));
    }
    if is_bind {
        match crate::ip::parse_socket(value_str) {
            Some(addr) => LineOutcome::Bind(addr),
            None => LineOutcome::Bad(InvalidType::SocketAddr),
        }
    } else if is_proxy {
        match crate::ip::parse_socket(value_str) {
            Some(addr) => LineOutcome::Proxy(addr),
            None => LineOutcome::Bad(InvalidType::SocketAddr),
        }
    } else if is_timeout {
        match try_parse_duration(value_str) {
            Ok(ms) => LineOutcome::Timeout(ms),
            Err(_) => LineOutcome::Bad(InvalidType::Timeout),
        }
    } else if is_import {
        LineOutcome::Import(value_str.to_owned())
    } else {
        match crate::ip::parse_ip(value_str) {
            Some(ip) => match Matcher::new(key_str) {
                Ok(host) => LineOutcome::Host(host, ip),
                Err(_) => LineOutcome::Bad(InvalidType::Regex),
            },
            None => match crate::ip::parse_ip(key_str) {
                Some(ip) => match Matcher::new(value_str) {
                    Ok(host) => LineOutcome::Host(host, ip),
                    Err(_) => LineOutcome::Bad(InvalidType::Regex),
                },
                None => LineOutcome::Bad(InvalidType::IpAddr),
            },
        }
    }
}

/// Parse one line of the dialect, yielding the outcome and the trimmed
/// line text for diagnostics.
#[verifier::loop_isolation(false)]
#[verifier::rlimit(100)]
pub fn parse_line(line: &str) -> (r: (LineOutcome, String))
    ensures
        r.0@ == spec_parse_line(line@),
        r.1@ == trimmed_line(line@),
{
    let v = crate::text::string_to_chars(line);
    let ghost lv = line@;
    // strip the comment
    let mut c: usize = 0;
    while c < v.len() && v[c] != '#'
        invariant
            c <= lv.len(),
            forall|i: int| 0 <= i < c ==> lv[i] != '#',
        decreases lv.len() - c,
    {
        c = c + 1;
    }
    proof {
        if c < lv.len() {
            assert(lv[c as int] == '#');
        }
        crate::text::lemma_head_until_eq(lv, '#', c as int);
    }
    let ghost uncommented = lv.take(c as int);
    // trim leading whitespace
    let mut a: usize = 0;
    while a < c && ws_exec(v[a])
        invariant
            a <= c <= lv.len(),
            forall|i: int| 0 <= i < a ==> ws_char(lv[i]),
        decreases c - a,
    {
        a = a + 1;
    }
    proof {
        assert forall|i: int| 0 <= i < a implies ws_char(uncommented[i]) by {
            assert(uncommented[i] == lv[i]);
        }
        if a < c {
            assert(uncommented[a as int] == lv[a as int]);
        }
        lemma_ws_prefix_eq(uncommented, a as int);
    }
    // trim trailing whitespace
    let mut e: usize = c;
    while e > a && ws_exec(v[e - 1])
        invariant
            a <= e <= c,
            forall|i: int| e <= i < c ==> ws_char(lv[i]),
        decreases e,
    {
        e = e - 1;
    }
    let ghost mid0 = uncommented.skip(a as int);
    proof {
        assert forall|i: int| e - a <= i < mid0.len() implies ws_char(mid0[i]) by {
            assert(mid0[i] == lv[a + i]);
        }
        if e > a {
            assert(mid0[e - a - 1] == lv[e - 1]);
        }
        lemma_trim_end_eq(mid0, e - a);
        assert(mid0.take(e - a) =~= lv.subrange(a as int, e as int));
        assert(trimmed_line(lv) == lv.subrange(a as int, e as int));
    }
    let ghost t = trimmed_line(lv);
    let trimmed = line.substring_char(a, e).to_owned();
    proof {
        assert(trimmed@ == t);
    }
    if a == e {
        proof {
            assert(t.len() == 0);
        }
        return (LineOutcome::Skip, trimmed);
    }
    // the first token
    let mut k1 = a;
    while k1 < e && !ws_exec(v[k1])
        invariant
            a <= k1 <= e,
            forall|i: int| a <= i < k1 ==> !ws_char(lv[i]),
        decreases e - k1,
    {
        k1 = k1 + 1;
    }
    proof {
        assert forall|i: int| 0 <= i < k1 - a implies !ws_char(t[i]) by {
            assert(t[i] == lv[a + i]);
        }
        if k1 < e {
            assert(t[k1 - a] == lv[k1 as int]);
        }
        lemma_token_len_eq(t, k1 - a);
    }
    if k1 == e {
        proof {
            assert(spec_two_tokens(t) is None);
        }
        return (LineOutcome::Bad(InvalidType::Other), trimmed);
    }
    // the whitespace between the tokens
    let ghost mid = t.skip(k1 - a);
    let mut m = k1;
    while m < e && ws_exec(v[m])
        invariant
            k1 <= m <= e,
            forall|i: int| k1 <= i < m ==> ws_char(lv[i]),
        decreases e - m,
    {
        m = m + 1;
    }
    proof {
        assert forall|i: int| 0 <= i < m - k1 implies ws_char(mid[i]) by {
            assert(mid[i] == lv[k1 + i]);
        }
        if m < e {
            assert(mid[m - k1] == lv[m as int]);
        }
        lemma_ws_prefix_eq(mid, m - k1);
    }
    if m == e {
        proof {
            assert(spec_two_tokens(t) is None);
        }
        return (LineOutcome::Bad(InvalidType::Other), trimmed);
    }
    // the second token must reach the end
    let ghost rest = mid.skip(m - k1);
    let mut k2 = m;
    while k2 < e && !ws_exec(v[k2])
        invariant
            m <= k2 <= e,
            forall|i: int| m <= i < k2 ==> !ws_char(lv[i]),
        decreases e - k2,
    {
        k2 = k2 + 1;
    }
    proof {
        assert forall|i: int| 0 <= i < k2 - m implies !ws_char(rest[i]) by {
            assert(rest[i] == lv[m + i]);
        }
        if k2 < e {
            assert(rest[k2 - m] == lv[k2 as int]);
        }
        lemma_token_len_eq(rest, k2 - m);
    }
    if k2 < e {
        proof {
            assert(spec_two_tokens(t) is None);
        }
        return (LineOutcome::Bad(InvalidType::Other), trimmed);
    }
    let ghost key = t.take(k1 - a);
    proof {
        assert(spec_two_tokens(t) == Some((key, rest)));
        assert(key =~= lv.subrange(a as int, k1 as int));
        assert(rest =~= lv.subrange(m as int, e as int));
    }
    let key_str = line.substring_char(a, k1);
    let value_str = line.substring_char(m, e);
    proof {
        assert(key_str@ == key);
        assert(value_str@ == rest);
    }
    let outcome = line_dispatch(key_str, value_str);
    (outcome, trimmed)
}

impl Config {
    /// Apply one configuration line: append an address or a rule, overwrite
    /// the timeout, record a diagnostic, or hand back an import path.
    pub fn apply_line(&mut self, number: usize, line: &str) -> (r: Option<String>)
        ensures
            (match spec_parse_line(line@) {
                SpecLine::Skip => *final(self) == *old(self) && r is None,
                SpecLine::Bind(a) => r is None && final(self).bind@ == old(self).bind@.push(a)
                    && final(self).proxy@ == old(self).proxy@
                    && final(self).hosts@ == old(self).hosts@
                    && final(self).timeout == old(self).timeout
                    && final(self).invalid@ == old(self).invalid@,
                SpecLine::Proxy(a) => r is None && final(self).proxy@ == old(self).proxy@.push(a)
                    && final(self).bind@ == old(self).bind@
                    && final(self).hosts@ == old(self).hosts@
                    && final(self).timeout == old(self).timeout
                    && final(self).invalid@ == old(self).invalid@,
                SpecLine::Timeout(ms) => r is None && final(self).timeout == Some(ms)
                    && final(self).bind@ == old(self).bind@
                    && final(self).proxy@ == old(self).proxy@
                    && final(self).hosts@ == old(self).hosts@
                    && final(self).invalid@ == old(self).invalid@,
                SpecLine::Import(p) => *final(self) == *old(self) && r is Some && r->0@ == p,
                SpecLine::Host(m, ip) => r is None
                    && final(self).hosts@ == old(self).hosts@.push((m, ip))
                    && final(self).bind@ == old(self).bind@
                    && final(self).proxy@ == old(self).proxy@
                    && final(self).timeout == old(self).timeout
                    && final(self).invalid@ == old(self).invalid@,
                SpecLine::Bad(k) => r is None
                    && invalid_views(final(self).invalid@) == invalid_views(old(self).invalid@).push(
                    (SpecInvalid { line: number as int, source: trimmed_line(line@), kind: k }),
                )
                    && final(self).bind@ == old(self).bind@
                    && final(self).proxy@ == old(self).proxy@
                    && final(self).hosts@ == old(self).hosts@
                    && final(self).timeout == old(self).timeout,
            }),
    {
        let (outcome, trimmed) = parse_line(line);
        match outcome {
            LineOutcome::Skip => None,
            LineOutcome::Bind(addr) => {
                self.bind.push(addr);
                None
            },
            LineOutcome::Proxy(addr) => {
                self.proxy.push(addr);
                None
            },
            LineOutcome::Timeout(ms) => {
                self.timeout = Some(ms);
                None
            },
            LineOutcome::Import(p) => Some(p),
            LineOutcome::Host(host, ip) => {
                self.hosts.push((host, ip));
                None
            },
            LineOutcome::Bad(kind) => {
                let ghost old_invalid = self.invalid@;
                self.invalid.push(Invalid { line: number, source: trimmed, kind });
                proof {
                    assert(invalid_views(self.invalid@) =~= invalid_views(old_invalid).push(
                        self.invalid@.last()@,
                    ));
                }
                None
            },
        }
    }
}

} // verus!

verus! {

/// A configuration at the spec level.
#[verifier::ext_equal]
pub struct SpecConfig {
    pub bind: Seq<SocketAddress>,
    pub proxy: Seq<SocketAddress>,
    pub hosts: SpecHosts,
    pub timeout: Option<u64>,
    pub invalid: Seq<SpecInvalid>,
}

impl View for Config {
    type V = SpecConfig;

    open spec fn view(&self) -> SpecConfig {
        SpecConfig {
            bind: self.bind@,
            proxy: self.proxy@,
            hosts: self.hosts@,
            timeout: self.timeout,
            invalid: invalid_views(self.invalid@),
        }
    }
}

/// The empty configuration.
pub open spec fn empty_config() -> SpecConfig {
    SpecConfig {
        bind: seq![],
        proxy: seq![],
        hosts: seq![],
        timeout: None,
        invalid: seq![],
    }
}

/// One line applied to a configuration; an import line changes nothing.
pub open spec fn spec_apply_line(c: SpecConfig, number: int, line: Seq<char>) -> SpecConfig {
    match spec_parse_line(line) {
        SpecLine::Skip => c,
        SpecLine::Bind(a) => SpecConfig { bind: c.bind.push(a), ..c },
        SpecLine::Proxy(a) => SpecConfig { proxy: c.proxy.push(a), ..c },
        SpecLine::Timeout(ms) => SpecConfig { timeout: Some(ms), ..c },
        SpecLine::Import(p) => c,
        SpecLine::Host(m, ip) => SpecConfig { hosts: c.hosts.push((m, ip)), ..c },
        SpecLine::Bad(k) => SpecConfig {
            invalid: c.invalid.push(
                SpecInvalid { line: number, source: trimmed_line(line), kind: k },
            ),
            ..c
        },
    }
}

/// The import-merge order: in a merged configuration every entry of the
/// importing file up to the `import` line keeps its place, and the imported
/// file's entries follow it in their own order, before anything the
/// importing file adds later.
pub proof fn lemma_import_merge_order(parent: SpecConfig, child: SpecConfig)
    ensures
        spec_extend(parent, child).hosts.len() == parent.hosts.len() + child.hosts.len(),
        forall|i: int| 0 <= i < parent.hosts.len() ==> spec_extend(parent, child).hosts[i]
            == parent.hosts[i],
        forall|j: int| 0 <= j < child.hosts.len() ==> spec_extend(parent, child).hosts[
            parent.hosts.len() + j
        ] == child.hosts[j],
        spec_extend(parent, child).bind == parent.bind + child.bind,
        spec_extend(parent, child).proxy == parent.proxy + child.proxy,
        spec_extend(parent, child).invalid == parent.invalid + child.invalid,
{
}

/// A configuration merged after another, as `Config::extend` does it.
pub open spec fn spec_extend(a: SpecConfig, b: SpecConfig) -> SpecConfig {
    SpecConfig {
        bind: a.bind + b.bind,
        proxy: a.proxy + b.proxy,
        hosts: a.hosts + b.hosts,
        timeout: if b.timeout is Some {
            b.timeout
        } else {
            a.timeout
        },
        invalid: a.invalid + b.invalid,
    }
}

} // verus!
