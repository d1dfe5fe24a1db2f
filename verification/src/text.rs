//! Helpers between `String`/`&str` and character vectors.
//!
//! The library's logic works on `Vec<char>`; these functions move values
//! between that form and the string types of the public interface.

use vstd::prelude::*;

verus! {

/// The characters of `s`, in order.
pub fn string_to_chars(s: &str) -> (r: Vec<char>)
    ensures
        r@ == s@,
{
    let mut out: Vec<char> = Vec::new();
    for c in it: s.chars()
        invariant
            it.seq() == s@,
            out@ =~= it.seq().take(it.index() as int),
    {
        out.push(c);
    }
    proof {
        assert(out@ =~= s@);
    }
    out
}

/// Relies on `String: FromIterator<char>`: collecting characters yields the
/// string whose characters they are, in order.
#[verifier::external_body]
pub fn chars_to_string(chars: &Vec<char>) -> (r: String)
    ensures
        r@ == chars@,
{
    chars.iter().collect()
}

/// Whether two strings hold the same characters.
pub fn str_eq(a: &str, b: &str) -> (r: bool)
    ensures
        r == (a@ == b@),
{
    let av = string_to_chars(a);
    let bv = string_to_chars(b);
    if av.len() != bv.len() {
        proof {
            assert(a@ != b@);
        }
        return false;
    }
    let mut i: usize = 0;
    while i < av.len()
        invariant
            i <= av@.len(),
            av@ == a@,
            bv@ == b@,
            av@.len() == bv@.len(),
            forall|k: int| 0 <= k < i ==> av@[k] == bv@[k],
        decreases av@.len() - i,
    {
        if av[i] != bv[i] {
            proof {
                assert(a@ != b@);
            }
            return false;
        }
        i = i + 1;
    }
    proof {
        assert(a@ =~= b@);
    }
    true
}

/// The ASCII-lowercase image of byte `b` as a character.
pub open spec fn lower_spec(b: u8) -> char {
    if 65 <= b <= 90 {
        ((b + 32) as u8) as char
    } else {
        b as char
    }
}

/// Map a name byte to its ASCII-lowercase character.
pub fn lower_char(b: u8) -> (c: char)
    ensures
        c == lower_spec(b),
{
    if 65 <= b && b <= 90 {
        (b + 32) as char
    } else {
        b as char
    }
}

} // verus!

verus! {

/// A decimal digit.
pub open spec fn digit_char(c: char) -> bool {
    48 <= c as u32 <= 57
}

/// The value of a digit character.
pub open spec fn digit_val(c: char) -> int {
    c as u32 - 48
}

/// The value of a digit string, most significant digit first.
pub open spec fn int_val(s: Seq<char>) -> int
    decreases s.len(),
{
    if s.len() == 0 {
        0
    } else {
        int_val(s.drop_last()) * 10 + digit_val(s.last())
    }
}

/// A digit string's value never shrinks as digits are appended.
pub proof fn lemma_int_val_mono(s: Seq<char>, k: int)
    requires
        0 <= k <= s.len(),
        forall|i: int| 0 <= i < s.len() ==> digit_char(#[trigger] s[i]),
    ensures
        int_val(s) >= int_val(s.take(k)),
        int_val(s) >= 0,
    decreases s.len(),
{
    if s.len() > 0 {
        lemma_int_val_mono(s.drop_last(), if k <= s.len() - 1 {
            k
        } else {
            s.len() - 1
        });
        if k == s.len() {
            assert(s.take(k) =~= s);
        } else {
            assert(s.drop_last().take(k) =~= s.take(k));
        }
        assert(digit_val(s.last()) >= 0);
    }
}

/// Parse the decimal digits `s[from..to]`, saturating above `u64::MAX`.
#[verifier::loop_isolation(false)]
pub fn parse_digits(s: &Vec<char>, from: usize, to: usize) -> (r: Option<u64>)
    requires
        from <= to <= s@.len(),
        forall|i: int| from <= i < to ==> digit_char(#[trigger] s@[i]),
    ensures
        r is Some ==> int_val(s@.subrange(from as int, to as int)) == r->0,
        r is None ==> int_val(s@.subrange(from as int, to as int)) > u64::MAX,
{
    let ghost ds = s@.subrange(from as int, to as int);
    let mut acc: u128 = 0;
    let mut i: usize = from;
    while i < to
        invariant
            from <= i <= to,
            acc == int_val(ds.take(i - from)),
            acc <= u64::MAX,
        decreases to - i,
    {
        let c = s[i];
        let d = (c as u32) - 48;
        proof {
            assert(ds[i - from] == s@[i as int]);
            assert(ds.take(i - from + 1).drop_last() =~= ds.take(i - from));
            assert(ds.take(i - from + 1).last() == ds[i - from]);
        }
        let na: u128 = acc * 10 + (d as u128);
        if na > u64::MAX as u128 {
            proof {
                assert(int_val(ds.take(i - from + 1)) == na);
                assert forall|k: int| 0 <= k < ds.len() implies digit_char(#[trigger] ds[k]) by {
                    assert(ds[k] == s@[from + k]);
                }
                lemma_int_val_mono(ds, i - from + 1);
            }
            return None;
        }
        acc = na;
        i = i + 1;
    }
    proof {
        assert(ds.take(to - from) =~= ds);
    }
    Some(acc as u64)
}

/// The number of characters of `s` before the first `sep` (all if none).
pub open spec fn head_until(s: Seq<char>, sep: char) -> nat
    decreases s.len(),
{
    if s.len() == 0 {
        0
    } else if s[0] == sep {
        0
    } else {
        1 + head_until(s.drop_first(), sep)
    }
}

pub proof fn lemma_head_until(s: Seq<char>, sep: char)
    ensures
        head_until(s, sep) <= s.len(),
        forall|i: int| 0 <= i < head_until(s, sep) ==> s[i] != sep,
        head_until(s, sep) < s.len() ==> s[head_until(s, sep) as int] == sep,
    decreases s.len(),
{
    if s.len() != 0 && s[0] != sep {
        lemma_head_until(s.drop_first(), sep);
        assert forall|i: int| 0 <= i < head_until(s, sep) implies s[i] != sep by {
            if i > 0 {
                assert(s.drop_first()[i - 1] != sep);
            }
        }
    }
}

/// The first `sep` of `s` stands exactly at `k`, or `k` is the end.
pub proof fn lemma_head_until_eq(s: Seq<char>, sep: char, k: int)
    requires
        0 <= k <= s.len(),
        forall|i: int| 0 <= i < k ==> s[i] != sep,
        k == s.len() || s[k] == sep,
    ensures
        head_until(s, sep) == k,
    decreases s.len(),
{
    if s.len() != 0 && s[0] != sep {
        assert forall|i: int| 0 <= i < k - 1 implies s.drop_first()[i] != sep by {
            assert(s[i + 1] != sep);
        }
        lemma_head_until_eq(s.drop_first(), sep, k - 1);
    }
}

/// `s` split on `sep`, empty pieces kept; always at least one piece.
pub open spec fn split_on(s: Seq<char>, sep: char) -> Seq<Seq<char>>
    decreases s.len(),
    via split_on_dec
{
    let h = head_until(s, sep) as int;
    if h == s.len() {
        seq![s]
    } else {
        seq![s.take(h)] + split_on(s.skip(h + 1), sep)
    }
}

#[via_fn]
proof fn split_on_dec(s: Seq<char>, sep: char) {
    lemma_head_until(s, sep);
}

/// Split the characters of `v` on `sep`, empty pieces kept.
#[verifier::loop_isolation(false)]
#[verifier::rlimit(60)]
pub fn split_chars(v: &Vec<char>, sep: char) -> (r: Vec<Vec<char>>)
    ensures
        r@.map_values(|p: Vec<char>| p@) == split_on(v@, sep),
{
    let ghost n = v@;
    let ghost pieces = split_on(n, sep);
    let mut out: Vec<Vec<char>> = Vec::new();
    let mut start: usize = 0;
    let ghost mut k: int = 0;
    proof {
        assert(n.skip(0) =~= n);
        assert(split_on(n, sep).skip(0) =~= split_on(n, sep));
        assert(out@.map_values(|p: Vec<char>| p@) =~= pieces.take(0));
    }
    let mut done = false;
    while !done
        invariant
            0 <= start <= n.len(),
            !done ==> 0 <= k < pieces.len() && split_on(n.skip(start as int), sep)
                == pieces.skip(k),
            done ==> k == pieces.len(),
            out@.map_values(|p: Vec<char>| p@) == pieces.take(k),
        decreases
                (if done {
                    0int
                } else {
                    1int
                }),
                n.len() - start,
    {
        let ghost suffix = n.skip(start as int);
        let mut j = start;
        while j < v.len() && v[j] != sep
            invariant
                start <= j <= n.len(),
                forall|i: int| start <= i < j ==> n[i] != sep,
            decreases n.len() - j,
        {
            j = j + 1;
        }
        proof {
            assert forall|i: int| 0 <= i < j - start implies suffix[i] != sep by {
                assert(suffix[i] == n[start + i]);
            }
            if j < n.len() {
                assert(suffix[j - start] == n[j as int]);
            }
            lemma_head_until_eq(suffix, sep, j - start);
        }
        let ghost h = (j - start) as int;
        let mut piece: Vec<char> = Vec::new();
        let mut t = start;
        while t < j
            invariant
                start <= t <= j <= n.len(),
                piece@ =~= n.subrange(start as int, t as int),
            decreases j - t,
        {
            piece.push(v[t]);
            t = t + 1;
        }
        proof {
            assert(piece@ =~= n.subrange(start as int, j as int));
            assert(pieces.skip(k)[0] == pieces[k]);
            if h == suffix.len() {
                assert(split_on(suffix, sep) == seq![suffix]);
                assert(pieces[k] == suffix);
                assert(suffix =~= n.subrange(start as int, j as int));
            } else {
                assert(split_on(suffix, sep) == seq![suffix.take(h)] + split_on(
                    suffix.skip(h + 1),
                    sep,
                ));
                assert(pieces[k] == suffix.take(h));
                assert(suffix.take(h) =~= n.subrange(start as int, j as int));
            }
        }
        out.push(piece);
        proof {
            assert(out@.map_values(|p: Vec<char>| p@) =~= pieces.take(k).push(pieces[k]));
            assert(pieces.take(k).push(pieces[k]) =~= pieces.take(k + 1));
            if h == suffix.len() {
                assert(split_on(suffix, sep).len() == 1);
                assert(k + 1 == pieces.len());
            } else {
                let tail = split_on(suffix.skip(h + 1), sep);
                assert((seq![suffix.take(h)] + tail).drop_first() =~= tail);
                assert(pieces.skip(k).drop_first() =~= pieces.skip(k + 1));
                assert(suffix.skip(h + 1) =~= n.skip(start + h + 1));
                assert(split_on(n.skip(start + h + 1), sep) == pieces.skip(k + 1));
            }
            k = k + 1;
        }
        if j == v.len() {
            done = true;
        } else {
            start = j + 1;
        }
    }
    proof {
        assert(pieces.take(k) =~= pieces);
    }
    out
}

} // verus!
