//! Wire encoding and decoding of DNS names.
//!
//! A name is written as length-prefixed labels with a zero terminator; the
//! reader also follows compression pointers, capped at five hops.

use vstd::prelude::*;
use crate::DnsError;
use crate::buffer::BytePacketBuffer;
use crate::text::{chars_to_string, lower_char, lower_spec, string_to_chars};

verus! {

/// The number of characters before the first `'.'` of `n` (all if none).
pub open spec fn head_label_len(n: Seq<char>) -> nat
    decreases n.len(),
{
    if n.len() == 0 {
        0
    } else if n[0] == '.' {
        0
    } else {
        1 + head_label_len(n.drop_first())
    }
}

pub proof fn lemma_head_label_len(n: Seq<char>)
    ensures
        head_label_len(n) <= n.len(),
        forall|i: int| 0 <= i < head_label_len(n) ==> n[i] != '.',
        head_label_len(n) < n.len() ==> n[head_label_len(n) as int] == '.',
    decreases n.len(),
{
    if n.len() != 0 && n[0] != '.' {
        lemma_head_label_len(n.drop_first());
        assert forall|i: int| 0 <= i < head_label_len(n) implies n[i] != '.' by {
            if i > 0 {
                assert(n.drop_first()[i - 1] != '.');
            }
        }
    }
}

/// The first characters of `n` are exactly its head label when `k` marks the
/// first `'.'` or the end.
pub proof fn lemma_head_label_len_eq(n: Seq<char>, k: int)
    requires
        0 <= k <= n.len(),
        forall|i: int| 0 <= i < k ==> n[i] != '.',
        k == n.len() || n[k] == '.',
    ensures
        head_label_len(n) == k,
    decreases n.len(),
{
    if n.len() != 0 && n[0] != '.' {
        assert forall|i: int| 0 <= i < k - 1 implies n.drop_first()[i] != '.' by {
            assert(n[i + 1] != '.');
        }
        lemma_head_label_len_eq(n.drop_first(), k - 1);
    }
}

/// The labels of a dotted name: the pieces between the `'.'` characters,
/// empty pieces kept.
pub open spec fn labels_of(n: Seq<char>) -> Seq<Seq<char>>
    decreases n.len(),
    via labels_of_dec
{
    let h = head_label_len(n) as int;
    if h == n.len() {
        seq![n]
    } else {
        seq![n.take(h)] + labels_of(n.skip(h + 1))
    }
}

#[via_fn]
proof fn labels_of_dec(n: Seq<char>) {
    lemma_head_label_len(n);
}

pub proof fn lemma_labels_of_len(n: Seq<char>)
    ensures
        labels_of(n).len() >= 1,
{
    lemma_head_label_len(n);
}

/// The wire bytes of one label: its length, then its characters as bytes.
pub open spec fn label_bytes(l: Seq<char>) -> Seq<u8> {
    seq![l.len() as u8] + l.map_values(|c: char| c as u8)
}

/// The wire bytes of a list of labels.
pub open spec fn labels_bytes(ls: Seq<Seq<char>>) -> Seq<u8>
    decreases ls.len(),
{
    if ls.len() == 0 {
        seq![]
    } else {
        label_bytes(ls[0]) + labels_bytes(ls.drop_first())
    }
}

/// The wire encoding of a dotted name: its labels, then a zero terminator.
pub open spec fn qname_bytes(n: Seq<char>) -> Seq<u8> {
    labels_bytes(labels_of(n)) + seq![0u8]
}

/// A name of `k` characters encodes to exactly `k + 2` bytes.
pub proof fn lemma_qname_bytes_len(n: Seq<char>)
    ensures
        qname_bytes(n).len() == n.len() + 2,
    decreases n.len(),
{
    lemma_head_label_len(n);
    let h = head_label_len(n) as int;
    if h == n.len() {
        assert(labels_of(n) == seq![n]);
        assert(seq![n].drop_first() =~= Seq::<Seq<char>>::empty());
        assert(labels_bytes(seq![n]) == label_bytes(n) + labels_bytes(
            Seq::<Seq<char>>::empty(),
        ));
        assert(labels_bytes(Seq::<Seq<char>>::empty()) == Seq::<u8>::empty());
        assert(label_bytes(n).len() == 1 + n.len());
    } else {
        lemma_qname_bytes_len(n.skip(h + 1));
        let tail = labels_of(n.skip(h + 1));
        assert(labels_of(n) == seq![n.take(h)] + tail);
        assert((seq![n.take(h)] + tail).drop_first() =~= tail);
        assert(labels_bytes(labels_of(n)) == label_bytes(n.take(h)) + labels_bytes(tail));
        assert(label_bytes(n.take(h)).len() == 1 + h);
        assert(labels_bytes(tail).len() == n.skip(h + 1).len() + 1);
    }
}

/// Every label of `n` fits the 63-byte label limit, so the writer accepts it.
pub open spec fn labels_fit(n: Seq<char>) -> bool {
    forall|i: int| 0 <= i < labels_of(n).len() ==> (#[trigger] labels_of(n)[i]).len() <= 63
}

/// A character the name codec reads back unchanged: one byte wide, not an
/// ASCII capital (reading lowercases), and no label separator.
pub open spec fn valid_name_char(c: char) -> bool {
    (c as u32) < 256 && !(65 <= c as u32 <= 90) && c != '.'
}

/// A label the codec round-trips: nonempty, within the 63-byte limit, and
/// made of characters the codec reads back unchanged.
pub open spec fn valid_label(l: Seq<char>) -> bool {
    1 <= l.len() <= 63 && (forall|i: int| 0 <= i < l.len() ==> valid_name_char(#[trigger] l[i]))
}

/// A name the codec round-trips: every label of it is valid.
pub open spec fn valid_qname(n: Seq<char>) -> bool {
    forall|i: int| 0 <= i < labels_of(n).len() ==> valid_label(#[trigger] labels_of(n)[i])
}

/// `b` with `w` written over its bytes from `pos` on.
pub open spec fn spliced(b: Seq<u8>, pos: int, w: Seq<u8>) -> Seq<u8> {
    b.take(pos) + w + b.skip(pos + w.len())
}

pub proof fn lemma_spliced_empty(b: Seq<u8>, pos: int)
    requires
        0 <= pos <= b.len(),
    ensures
        spliced(b, pos, seq![]) == b,
{
    assert(spliced(b, pos, seq![]) =~= b);
}

pub proof fn lemma_spliced_push(b: Seq<u8>, pos: int, w: Seq<u8>, v: u8)
    requires
        0 <= pos,
        pos + w.len() < b.len(),
    ensures
        spliced(b, pos, w).update(pos + w.len(), v) == spliced(b, pos, w.push(v)),
{
    assert(spliced(b, pos, w).update(pos + w.len(), v) =~= spliced(b, pos, w.push(v)));
}

/// Splitting a label list splits its bytes.
pub proof fn lemma_labels_bytes_split(ls: Seq<Seq<char>>, k: int)
    requires
        0 <= k <= ls.len(),
    ensures
        labels_bytes(ls) == labels_bytes(ls.take(k)) + labels_bytes(ls.skip(k)),
    decreases k,
{
    if k == 0 {
        assert(ls.take(0) =~= Seq::<Seq<char>>::empty());
        assert(ls.skip(0) =~= ls);
        assert(labels_bytes(ls) =~= labels_bytes(ls.take(0)) + labels_bytes(ls.skip(0)));
    } else {
        lemma_labels_bytes_split(ls.drop_first(), k - 1);
        assert(ls.take(k).drop_first() =~= ls.drop_first().take(k - 1));
        assert(ls.skip(k) =~= ls.drop_first().skip(k - 1));
        assert(ls.take(k)[0] == ls[0]);
        assert(labels_bytes(ls.take(k)) == label_bytes(ls[0]) + labels_bytes(
            ls.drop_first().take(k - 1),
        ));
        assert(labels_bytes(ls) == labels_bytes(ls.take(k)) + labels_bytes(ls.skip(k)))
            by {
            assert(labels_bytes(ls) == label_bytes(ls[0]) + labels_bytes(ls.drop_first()));
            assert(labels_bytes(ls.drop_first()) == labels_bytes(ls.drop_first().take(k - 1))
                + labels_bytes(ls.drop_first().skip(k - 1)));
            assert(labels_bytes(ls) =~= labels_bytes(ls.take(k)) + labels_bytes(ls.skip(k)));
        }
    }
}

/// Appending one label appends its bytes.
pub proof fn lemma_labels_bytes_take_step(ls: Seq<Seq<char>>, k: int)
    requires
        0 <= k < ls.len(),
    ensures
        labels_bytes(ls.take(k + 1)) == labels_bytes(ls.take(k)) + label_bytes(ls[k]),
{
    lemma_labels_bytes_split(ls.take(k + 1), k);
    assert(ls.take(k + 1).take(k) =~= ls.take(k));
    assert(ls.take(k + 1).skip(k) =~= seq![ls[k]]);
    assert(labels_bytes(seq![ls[k]]) == label_bytes(ls[k]) + labels_bytes(
        Seq::<Seq<char>>::empty(),
    )) by {
        assert(seq![ls[k]].drop_first() =~= Seq::<Seq<char>>::empty());
    }
    assert(labels_bytes(ls.take(k + 1)) =~= labels_bytes(ls.take(k)) + label_bytes(ls[k]));
}

/// The bytes of a label list are at least one per label plus its length.
pub proof fn lemma_labels_bytes_len(ls: Seq<Seq<char>>)
    ensures
        labels_bytes(ls).len() >= ls.len(),
    decreases ls.len(),
{
    if ls.len() > 0 {
        lemma_labels_bytes_len(ls.drop_first());
    }
}

impl BytePacketBuffer {
    /// Write the labels of `qname` with a zero terminator at the cursor.
    ///
    /// Succeeds exactly when every label fits 63 bytes and the encoding fits
    /// the buffer; the bytes written are `qname_bytes` of the name.
    #[verifier::loop_isolation(false)]
    #[verifier::rlimit(60)]
    pub fn write_qname(&mut self, qname: &str) -> (r: Result<(), DnsError>)
        requires
            old(self).wf(),
        ensures
            final(self).wf(),
            r is Ok <==> labels_fit(qname@) && old(self).position() + qname_bytes(
                qname@,
            ).len() <= 512,
            r is Ok ==> final(self).data() == spliced(
                old(self).data(),
                old(self).position(),
                qname_bytes(qname@),
            ) && final(self).position() == old(self).position() + qname_bytes(qname@).len(),
            r is Err ==> r->Err_0 == DnsError::LabelTooLong || r->Err_0 == DnsError::EndOfBuffer,
            r is Err && labels_fit(qname@) ==> r->Err_0 == DnsError::EndOfBuffer,
    {
        let ghost n = qname@;
        let ghost b0 = old(self).data();
        let ghost pos0 = old(self).position();
        let chars = string_to_chars(qname);
        proof {
            old(self).lemma_wf();
            lemma_qname_bytes_len(n);
        }
        if chars.len() > 510 {
            return Err(DnsError::EndOfBuffer);
        }
        let mut start: usize = 0;
        let ghost mut k: int = 0;
        proof {
            assert(n.skip(0) =~= n);
            assert(labels_of(n).skip(0) =~= labels_of(n));
            assert(labels_of(n).take(0) =~= Seq::<Seq<char>>::empty());
            lemma_spliced_empty(b0, pos0);
            lemma_labels_of_len(n);
        }
        while start <= chars.len()
            invariant
                self.wf(),
                0 <= start <= n.len() + 1,
                start <= n.len() ==> 0 <= k < labels_of(n).len() && labels_of(n.skip(start as int))
                    == labels_of(n).skip(k),
                start == n.len() + 1 ==> k == labels_of(n).len(),
                forall|i: int| 0 <= i < k ==> (#[trigger] labels_of(n)[i]).len() <= 63,
                self.position() == pos0 + labels_bytes(labels_of(n).take(k)).len(),
                self.position() <= 512,
                self.data() == spliced(b0, pos0, labels_bytes(labels_of(n).take(k))),
            decreases n.len() + 1 - start,
        {
            let ghost suffix = n.skip(start as int);
            // scan to the end of the current label
            let mut j = start;
            while j < chars.len() && chars[j] != '.'
                invariant
                    start <= j <= n.len(),
                    forall|i: int| start <= i < j ==> n[i] != '.',
                decreases n.len() - j,
            {
                j = j + 1;
            }
            proof {
                assert forall|i: int| 0 <= i < j - start implies suffix[i] != '.' by {
                    assert(suffix[i] == n[start + i]);
                }
                if j < n.len() {
                    assert(suffix[j - start] == n[j as int]);
                }
                lemma_head_label_len_eq(suffix, j - start);
                // the current label is labels_of(n)[k]
                lemma_labels_of_len(n);
            }
            let ghost h = (j - start) as int;
            let ghost label = labels_of(n)[k];
            proof {
                assert(labels_of(n)[k] == labels_of(n).skip(k)[0]);
                if h == suffix.len() {
                    assert(labels_of(suffix) == seq![suffix]);
                } else {
                    assert(labels_of(suffix) == seq![suffix.take(h)] + labels_of(
                        suffix.skip(h + 1),
                    ));
                }
                assert(label == if h == suffix.len() {
                    suffix
                } else {
                    suffix.take(h)
                });
                assert(label =~= n.subrange(start as int, j as int));
            }
            let llen = j - start;
            if llen > 63 {
                proof {
                    assert(labels_of(n)[k].len() > 63);
                    assert(!labels_fit(n));
                }
                return Err(DnsError::LabelTooLong);
            }
            // write the length byte, then the label characters
            let ghost wk = labels_bytes(labels_of(n).take(k));
            proof {
                lemma_labels_bytes_take_step(labels_of(n), k);
                lemma_labels_bytes_split(labels_of(n), k + 1);
                lemma_labels_bytes_len(labels_of(n).skip(k + 1));
                assert(label_bytes(label).len() == 1 + label.len());
                // bound on the whole encoding for the error case
                assert(qname_bytes(n).len() >= labels_bytes(labels_of(n).take(k + 1)).len() + 1);
            }
            match self.write_u8(llen as u8) {
                Ok(_) => {
                    proof {
                        lemma_spliced_push(b0, pos0, wk, llen as u8);
                    }
                },
                Err(_) => {
                    proof {
                        assert(pos0 + qname_bytes(n).len() > 512);
                    }
                    return Err(DnsError::EndOfBuffer);
                },
            }
            let mut t = start;
            while t < j
                invariant
                    start <= t <= j,
                    self.wf(),
                    self.position() == pos0 + wk.len() + 1 + (t - start),
                    self.position() <= 512,
                    self.data() == spliced(
                        b0,
                        pos0,
                        wk.push(llen as u8) + label.take(t - start).map_values(|c: char| c as u8),
                    ),
                decreases j - t,
            {
                let ghost wt = wk.push(llen as u8) + label.take(t - start).map_values(
                    |c: char| c as u8,
                );
                let c = chars[t];
                proof {
                    assert(label[t - start] == n[t as int]);
                }
                match self.write_u8(#[verifier::truncate] (c as u8)) {
                    Ok(_) => {
                        proof {
                            lemma_spliced_push(b0, pos0, wt, #[verifier::truncate] (c as u8));
                            assert(wt.push(#[verifier::truncate] (c as u8)) =~= wk.push(llen as u8) + label.take(
                                t + 1 - start,
                            ).map_values(|cc: char| cc as u8));
                        }
                    },
                    Err(_) => {
                        proof {
                            assert(pos0 + qname_bytes(n).len() > 512);
                        }
                        return Err(DnsError::EndOfBuffer);
                    },
                }
                t = t + 1;
            }
            proof {
                assert(label.take(j - start) =~= label);
                assert(wk.push(llen as u8) + label.map_values(|c: char| c as u8) =~= wk
                    + label_bytes(label));
                assert(self.data() == spliced(b0, pos0, labels_bytes(labels_of(n).take(k + 1))));
                assert(self.position() == pos0 + labels_bytes(labels_of(n).take(k + 1)).len());
            }
            proof {
                if h == suffix.len() {
                    assert(labels_of(suffix) == seq![suffix]);
                    assert(labels_of(n).skip(k).len() == 1);
                    assert(k + 1 == labels_of(n).len());
                } else {
                    assert(labels_of(suffix) == seq![suffix.take(h)] + labels_of(
                        suffix.skip(h + 1),
                    ));
                    let tail = labels_of(suffix.skip(h + 1));
                    assert((seq![suffix.take(h)] + tail).drop_first() =~= tail);
                    assert(labels_of(n).skip(k).drop_first() =~= labels_of(n).skip(k + 1));
                    assert(suffix.skip(h + 1) =~= n.skip(j + 1));
                    assert(labels_of(n.skip(j + 1)) == labels_of(n).skip(k + 1));
                    assert(labels_of(n).skip(k).len() >= 2) by {
                        lemma_labels_of_len(suffix.skip(h + 1));
                    }
                }
                k = k + 1;
            }
            start = j + 1;
        }
        proof {
            assert(labels_of(n).take(k) =~= labels_of(n));
            assert(labels_fit(n));
        }
        // terminator
        proof {
            assert(labels_of(n).take(k) =~= labels_of(n));
        }
        match self.write_u8(0u8) {
            Ok(_) => {
                proof {
                    lemma_spliced_push(b0, pos0, labels_bytes(labels_of(n)), 0u8);
                    assert(labels_bytes(labels_of(n)).push(0u8) =~= qname_bytes(n));
                }
                Ok(())
            },
            Err(_) => {
                proof {
                    assert(pos0 + qname_bytes(n).len() > 512);
                }
                Err(DnsError::EndOfBuffer)
            },
        }
    }
}

} // verus!

verus! {

/// The outcome of the name reader from `pos` of `b`: follows length-prefixed
/// labels, lowercasing bytes, and compression pointers up to five hops.
/// Yields the name and the cursor position after the name: past the
/// terminator, or past the first pointer when one was followed.
pub open spec fn spec_read_qname(b: Seq<u8>, pos: int) -> Result<(Seq<char>, int), DnsError> {
    spec_read_qname_rec(b, pos, 0, false, 0, seq![])
}

/// One step of the name reader. `jumps` pointers were followed so far;
/// `cur` is the cursor to report once `jumped`; `acc` the name so far.
pub open spec fn spec_read_qname_rec(
    b: Seq<u8>,
    pos: int,
    jumps: nat,
    jumped: bool,
    cur: int,
    acc: Seq<char>,
) -> Result<(Seq<char>, int), DnsError>
    decreases 5 - jumps, 512 - (if 0 <= pos <= 512 { pos } else { 512 }),
{
    if !(0 <= pos < 512) {
        Err(DnsError::EndOfBuffer)
    } else {
        let len = b[pos];
        if len >= 0xC0 {
            if jumps >= 5 {
                Err(DnsError::LimitsExceeded)
            } else if pos + 1 >= 512 {
                Err(DnsError::EndOfBuffer)
            } else {
                let target = (len - 0xC0) * 256 + b[pos + 1];
                spec_read_qname_rec(
                    b,
                    target as int,
                    jumps + 1,
                    true,
                    if jumped {
                        cur
                    } else {
                        pos + 2
                    },
                    acc,
                )
            }
        } else if len == 0 {
            Ok(
                (
                    acc,
                    if jumped {
                        cur
                    } else {
                        pos + 1
                    },
                ),
            )
        } else if pos + len >= 512 {
            Err(DnsError::EndOfBuffer)
        } else {
            let label = Seq::new(len as nat, |j: int| lower_spec(b[pos + 1 + j]));
            spec_read_qname_rec(
                b,
                pos + 1 + len,
                jumps,
                jumped,
                cur,
                if acc.len() == 0 {
                    label
                } else {
                    acc + seq!['.'] + label
                },
            )
        }
    }
}

impl BytePacketBuffer {
    /// Read a name at the cursor, following compression pointers.
    ///
    /// The result and the final cursor are exactly those of
    /// `spec_read_qname` on the buffer contents at the starting position.
    #[verifier::loop_isolation(false)]
    #[verifier::rlimit(60)]
    pub fn read_qname(&mut self) -> (r: Result<String, DnsError>)
        requires
            old(self).wf(),
        ensures
            final(self).wf(),
            final(self).data() == old(self).data(),
            match spec_read_qname(old(self).data(), old(self).position()) {
                Ok(res) => r is Ok && r->Ok_0@ == res.0 && final(self).position() == res.1,
                Err(e) => r is Err && r->Err_0 == e,
            },
    {
        proof {
            old(self).lemma_wf();
        }
        let ghost b = self.data();
        let ghost p0 = self.position();
        let mut pos = self.pos();
        let mut jumped = false;
        let mut jumps: usize = 0;
        let mut out: Vec<char> = Vec::new();
        let ghost mut gcur: int = 0;
        let mut done = false;
        while !done
            invariant
                self.wf(),
                self.data() == b,
                pos <= 17000,
                jumps <= 5,
                jumped ==> self.position() == gcur,
                !jumped && !done ==> self.position() == p0 && gcur == 0,
                !done ==> spec_read_qname(b, p0) == spec_read_qname_rec(
                    b,
                    pos as int,
                    jumps as nat,
                    jumped,
                    gcur,
                    out@,
                ),
                done ==> spec_read_qname(b, p0) == Ok::<(Seq<char>, int), DnsError>(
                    (out@, self.position()),
                ),
            decreases
                    (if done {
                        0int
                    } else {
                        1int
                    }),
                    5 - jumps,
                    512 - (if pos <= 512 {
                        pos as int
                    } else {
                        512int
                    }),
        {
            let len = match self.get(pos) {
                Ok(v) => v,
                Err(e) => {
                    return Err(e);
                },
            };
            if len >= 0xC0 {
                if jumps >= 5 {
                    return Err(DnsError::LimitsExceeded);
                }
                let b2 = match self.get(pos + 1) {
                    Ok(v) => v,
                    Err(e) => {
                        return Err(e);
                    },
                };
                if !jumped {
                    match self.seek(pos + 2) {
                        Ok(_) => {},
                        Err(e) => {
                            return Err(e);
                        },
                    }
                    jumped = true;
                    proof {
                        gcur = pos + 2;
                    }
                }
                pos = (len as usize - 0xC0) * 256 + (b2 as usize);
                jumps = jumps + 1;
            } else {
                let ghost oldpos = pos as int;
                let ghost oldacc = out@;
                pos = pos + 1;
                if len == 0 {
                    if !jumped {
                        match self.seek(pos) {
                            Ok(_) => {},
                            Err(e) => {
                                return Err(e);
                            },
                        }
                    }
                    done = true;
                } else {
                    if !out.is_empty() {
                        out.push('.');
                    }
                    let ghost base = out@;
                    let mut t: usize = 0;
                    while t < len as usize
                        invariant
                            t <= len as usize,
                            out@ == base + Seq::new(t as nat, |j: int| lower_spec(b[oldpos + 1 + j])),
                        decreases len as usize - t,
                    {
                        let byte = match self.get(pos + t) {
                            Ok(v) => v,
                            Err(e) => {
                                proof {
                                    assert(oldpos + len >= 512);
                                }
                                return Err(e);
                            },
                        };
                        out.push(lower_char(byte));
                        proof {
                            assert(out@ =~= base + Seq::new(
                                (t + 1) as nat,
                                |j: int| lower_spec(b[oldpos + 1 + j]),
                            ));
                        }
                        t = t + 1;
                    }
                    pos = pos + len as usize;
                    proof {
                        let label = Seq::new(len as nat, |j: int| lower_spec(b[oldpos + 1 + j]));
                        assert(out@ =~= (if oldacc.len() == 0 {
                            label
                        } else {
                            oldacc + seq!['.'] + label
                        }));
                    }
                }
            }
        }
        Ok(chars_to_string(&out))
    }
}

} // verus!

verus! {

/// A character the codec round-trips is read back unchanged.
proof fn lemma_valid_char_roundtrip(c: char)
    requires
        valid_name_char(c),
    ensures
        lower_spec(#[verifier::truncate] (c as u8)) == c,
{
    vstd::utf8::char_u32_cast(c, c as u32);
}

/// Reading continues through one valid name laid out at `pos`.
proof fn lemma_qname_read_rec(
    b: Seq<u8>,
    pos: int,
    jumps: nat,
    jumped: bool,
    cur: int,
    acc: Seq<char>,
    n: Seq<char>,
)
    requires
        valid_qname(n),
        b.len() == 512,
        0 <= pos,
        pos + qname_bytes(n).len() <= 512,
        b.subrange(pos, pos + qname_bytes(n).len()) == qname_bytes(n),
        jumps <= 5,
    ensures
        spec_read_qname_rec(b, pos, jumps, jumped, cur, acc) == Ok::<(Seq<char>, int), DnsError>(
            (
                if acc.len() == 0 {
                    n
                } else {
                    acc + seq!['.'] + n
                },
                if jumped {
                    cur
                } else {
                    pos + qname_bytes(n).len()
                },
            ),
        ),
    decreases n.len(),
{
    lemma_head_label_len(n);
    lemma_qname_bytes_len(n);
    let h = head_label_len(n) as int;
    let enc = qname_bytes(n);
    lemma_labels_of_len(n);
    let label = labels_of(n)[0];
    assert(valid_label(label));
    if h == n.len() {
        // a single label, then the terminator
        assert(labels_of(n) == seq![n]);
        assert(label == n);
        assert(seq![n].drop_first() =~= Seq::<Seq<char>>::empty());
        assert(labels_bytes(labels_of(n)) == label_bytes(n) + labels_bytes(
            Seq::<Seq<char>>::empty(),
        ));
        assert(enc =~= label_bytes(n) + seq![0u8]);
        assert(b[pos] == enc[0]);
        assert(enc[0] == n.len() as u8);
        assert(1 <= n.len() <= 63);
        // the label branch of the reader applies
        assert forall|j: int| 0 <= j < n.len() implies lower_spec(b[pos + 1 + j]) == n[j] by {
            assert(b[pos + 1 + j] == enc[1 + j]);
            assert(enc[1 + j] == label_bytes(n)[1 + j]);
            assert(label_bytes(n)[1 + j] == n.map_values(|c: char| c as u8)[j]);
            lemma_valid_char_roundtrip(n[j]);
        }
        let lab = Seq::new(n.len() as nat, |j: int| lower_spec(b[pos + 1 + j]));
        assert(lab =~= n);
        let acc2 = if acc.len() == 0 {
            lab
        } else {
            acc + seq!['.'] + lab
        };
        let pos2 = pos + 1 + n.len();
        assert(b[pos2] == enc[1 + n.len() as int]);
        assert(enc[1 + n.len() as int] == 0u8);
        assert(spec_read_qname_rec(b, pos, jumps, jumped, cur, acc) == spec_read_qname_rec(
            b,
            pos2,
            jumps,
            jumped,
            cur,
            acc2,
        ));
        assert(spec_read_qname_rec(b, pos2, jumps, jumped, cur, acc2) == Ok::<
            (Seq<char>, int),
            DnsError,
        >(
            (
                acc2,
                if jumped {
                    cur
                } else {
                    pos2 + 1
                },
            ),
        ));
    } else {
        // the head label, then the rest of the name
        let rest = n.skip(h + 1);
        assert(labels_of(n) == seq![n.take(h)] + labels_of(rest));
        assert(label == n.take(h));
        assert((seq![n.take(h)] + labels_of(rest)).drop_first() =~= labels_of(rest));
        assert(labels_bytes(labels_of(n)) == label_bytes(label) + labels_bytes(labels_of(rest)));
        assert(enc =~= label_bytes(label) + qname_bytes(rest));
        assert(valid_qname(rest)) by {
            assert forall|i: int| 0 <= i < labels_of(rest).len() implies valid_label(
                #[trigger] labels_of(rest)[i],
            ) by {
                assert(labels_of(rest)[i] == labels_of(n)[i + 1]);
            }
        }
        assert(b[pos] == enc[0]);
        assert(enc[0] == label.len() as u8);
        assert(1 <= label.len() <= 63);
        assert forall|j: int| 0 <= j < h implies lower_spec(b[pos + 1 + j]) == label[j] by {
            assert(b[pos + 1 + j] == enc[1 + j]);
            assert(enc[1 + j] == label_bytes(label)[1 + j]);
            assert(label_bytes(label)[1 + j] == label.map_values(|c: char| c as u8)[j]);
            lemma_valid_char_roundtrip(label[j]);
        }
        let lab = Seq::new(h as nat, |j: int| lower_spec(b[pos + 1 + j]));
        assert(lab =~= label);
        let acc2 = if acc.len() == 0 {
            lab
        } else {
            acc + seq!['.'] + lab
        };
        let pos2 = pos + 1 + h;
        assert(spec_read_qname_rec(b, pos, jumps, jumped, cur, acc) == spec_read_qname_rec(
            b,
            pos2,
            jumps,
            jumped,
            cur,
            acc2,
        ));
        lemma_qname_bytes_len(rest);
        assert(b.subrange(pos2, pos2 + qname_bytes(rest).len()) =~= qname_bytes(rest)) by {
            assert forall|i: int| 0 <= i < qname_bytes(rest).len() implies b[pos2 + i]
                == qname_bytes(rest)[i] by {
                assert(b[pos2 + i] == enc[1 + h + i]);
                assert(enc[1 + h + i] == qname_bytes(rest)[i]);
            }
        }
        lemma_qname_read_rec(b, pos2, jumps, jumped, cur, acc2, rest);
        assert(acc2.len() > 0);
        assert(acc2 + seq!['.'] + rest =~= (if acc.len() == 0 {
            n
        } else {
            acc + seq!['.'] + n
        })) by {
            assert(n =~= label + seq!['.'] + rest);
        }
        assert(pos2 + qname_bytes(rest).len() == pos + qname_bytes(n).len());
    }
}

/// A name written by the encoder reads back unchanged, with the cursor just
/// past its terminator.
pub proof fn lemma_qname_roundtrip(b: Seq<u8>, pos: int, n: Seq<char>)
    requires
        valid_qname(n),
        b.len() == 512,
        0 <= pos,
        pos + qname_bytes(n).len() <= 512,
        b.subrange(pos, pos + qname_bytes(n).len()) == qname_bytes(n),
    ensures
        spec_read_qname(b, pos) == Ok::<(Seq<char>, int), DnsError>(
            (n, pos + qname_bytes(n).len()),
        ),
{
    lemma_qname_read_rec(b, pos, 0, false, 0, seq![], n);
}

proof fn lemma_self_pointer_rec(b: Seq<u8>, pos: int, jumps: nat, jumped: bool, cur: int, acc: Seq<char>)
    requires
        b.len() == 512,
        0 <= pos,
        pos + 1 < 512,
        b[pos] >= 0xC0,
        (b[pos] - 0xC0) * 256 + b[pos + 1] == pos,
        jumps <= 5,
    ensures
        spec_read_qname_rec(b, pos, jumps, jumped, cur, acc) == Err::<(Seq<char>, int), DnsError>(
            DnsError::LimitsExceeded,
        ),
    decreases 5 - jumps,
{
    if jumps < 5 {
        lemma_self_pointer_rec(
            b,
            pos,
            jumps + 1,
            true,
            if jumped {
                cur
            } else {
                pos + 2
            },
            acc,
        );
    }
}

/// A datagram whose name pointer targets its own position is rejected with
/// the hop-cap error instead of being followed forever.
pub proof fn lemma_self_pointer_rejected(b: Seq<u8>, pos: int)
    requires
        b.len() == 512,
        0 <= pos,
        pos + 1 < 512,
        b[pos] >= 0xC0,
        (b[pos] - 0xC0) * 256 + b[pos + 1] == pos,
    ensures
        spec_read_qname(b, pos) == Err::<(Seq<char>, int), DnsError>(DnsError::LimitsExceeded),
{
    lemma_self_pointer_rec(b, pos, 0, false, 0, seq![]);
}

} // verus!
