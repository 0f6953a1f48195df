//! The on-disk snapshot document and its codec.
//!
//! A snapshot is the byte string `{"rows_written":W,"rows_read":R}` where `W`
//! and `R` are the two counters as decimal numerals. The persistence loop
//! rewrites this document on every tick; reopening a database parses it back.
//! Any byte string that does not have this shape (or whose numerals do not
//! fit the counter type) is treated as corrupt and decodes to `None`.

use vstd::arithmetic::div_mod::lemma_fundamental_div_mod;
use vstd::prelude::*;

verus! {

/// A byte holding an ASCII decimal digit.
pub open spec fn is_digit_byte(b: u8) -> bool {
    48 <= b <= 57
}

/// Every byte of `s` is an ASCII decimal digit.
pub open spec fn all_digit_bytes(s: Seq<u8>) -> bool {
    forall|i: int| 0 <= i < s.len() ==> is_digit_byte(s[i])
}

/// The decimal numeral of `n`, most significant digit first, no leading
/// zeros (`0` itself is the single byte `48`).
pub open spec fn spec_digits(n: nat) -> Seq<u8>
    decreases n,
{
    if n < 10 {
        seq![(n + 48) as u8]
    } else {
        spec_digits(n / 10).push((n % 10 + 48) as u8)
    }
}

/// The number a digit string denotes (leading zeros allowed).
pub open spec fn digits_value(s: Seq<u8>) -> int
    decreases s.len(),
{
    if s.len() == 0 {
        0
    } else {
        digits_value(s.drop_last()) * 10 + (s.last() - 48)
    }
}

/// The bytes of `{"rows_written":`, everything before the first numeral.
pub open spec fn prefix_bytes() -> Seq<u8> {
    seq![123u8, 34u8, 114u8, 111u8, 119u8, 115u8, 95u8, 119u8, 114u8, 105u8, 116u8, 116u8, 101u8, 110u8, 34u8, 58u8]
}

/// The bytes of `,"rows_read":`, between the two numerals.
pub open spec fn mid_bytes() -> Seq<u8> {
    seq![44u8, 34u8, 114u8, 111u8, 119u8, 115u8, 95u8, 114u8, 101u8, 97u8, 100u8, 34u8, 58u8]
}

/// The snapshot document for counter values `w` (rows written) and `r`
/// (rows read).
pub open spec fn spec_encode(w: nat, r: nat) -> Seq<u8> {
    prefix_bytes() + spec_digits(w) + mid_bytes() + spec_digits(r) + seq![125u8]
}

fn prefix_vec() -> (v: Vec<u8>)
    ensures
        v@ == prefix_bytes(),
{
    let mut v: Vec<u8> = Vec::new();
    v.push(123);
    v.push(34);
    v.push(114);
    v.push(111);
    v.push(119);
    v.push(115);
    v.push(95);
    v.push(119);
    v.push(114);
    v.push(105);
    v.push(116);
    v.push(116);
    v.push(101);
    v.push(110);
    v.push(34);
    v.push(58);
    assert(v@ =~= prefix_bytes());
    v
}

fn mid_vec() -> (v: Vec<u8>)
    ensures
        v@ == mid_bytes(),
{
    let mut v: Vec<u8> = Vec::new();
    v.push(44);
    v.push(34);
    v.push(114);
    v.push(111);
    v.push(119);
    v.push(115);
    v.push(95);
    v.push(114);
    v.push(101);
    v.push(97);
    v.push(100);
    v.push(34);
    v.push(58);
    assert(v@ =~= mid_bytes());
    v
}

/// Appends the decimal numeral of `n` to `out`.
fn push_digits(n: usize, out: &mut Vec<u8>)
    ensures
        final(out)@ == old(out)@ + spec_digits(n as nat),
    decreases n,
{
    if n < 10 {
        out.push((n as u8) + 48);
        assert(out@ =~= old(out)@ + spec_digits(n as nat));
    } else {
        push_digits(n / 10, out);
        out.push(((n % 10) as u8) + 48);
        assert(out@ =~= old(out)@ + spec_digits(n as nat));
    }
}

/// A numeral is at least one byte long, holds only digits, and denotes the
/// number it was built from.
proof fn lemma_spec_digits(n: nat)
    ensures
        spec_digits(n).len() >= 1,
        all_digit_bytes(spec_digits(n)),
        digits_value(spec_digits(n)) == n,
    decreases n,
{
    if n < 10 {
        let s = spec_digits(n);
        assert(s =~= seq![(n + 48) as u8]);
        assert(s.drop_last() =~= Seq::<u8>::empty());
        assert(digits_value(Seq::<u8>::empty()) == 0);
        assert(digits_value(s) == n);
    } else {
        lemma_spec_digits(n / 10);
        let t = spec_digits(n / 10);
        let s = spec_digits(n);
        assert(s == t.push((n % 10 + 48) as u8));
        assert forall|i: int| 0 <= i < s.len() implies is_digit_byte(s[i]) by {
            if i < t.len() {
                assert(s[i] == t[i]);
            }
        }
        assert(s.drop_last() =~= t);
        assert(s.last() == (n % 10 + 48) as u8);
        lemma_fundamental_div_mod(n as int, 10);
        assert(digits_value(s) == (n / 10) * 10 + n % 10);
    }
}

/// Index of the first byte at or after `i` that is not a decimal digit, or
/// the end of `s` when digits run to the end.
pub open spec fn digit_run_end(s: Seq<u8>, i: int) -> int
    recommends
        0 <= i <= s.len(),
    decreases s.len() - i,
{
    if i < 0 || i >= s.len() {
        i
    } else if is_digit_byte(s[i]) {
        digit_run_end(s, i + 1)
    } else {
        i
    }
}

/// What a byte string decodes to: the two counter values exactly when the
/// bytes are one well-formed snapshot document (prefix, a rows-written
/// numeral, separator, a rows-read numeral, closing brace, nothing after it)
/// whose numerals fit in `usize`; `None` on every other byte string.
pub open spec fn spec_decode(s: Seq<u8>) -> Option<(usize, usize)> {
    if s.len() < 16 || s.subrange(0, 16) != prefix_bytes() {
        None
    } else {
        let j = digit_run_end(s, 16);
        if j == 16 {
            None
        } else {
            let w = digits_value(s.subrange(16, j));
            if w > usize::MAX {
                None
            } else if s.len() < j + 13 || s.subrange(j, j + 13) != mid_bytes() {
                None
            } else {
                let k = digit_run_end(s, j + 13);
                if k == j + 13 {
                    None
                } else {
                    let r = digits_value(s.subrange(j + 13, k));
                    if r > usize::MAX {
                        None
                    } else if k == s.len() - 1 && s[k] == 125 {
                        Some(((w as usize), (r as usize)))
                    } else {
                        None
                    }
                }
            }
        }
    }
}

/// The digit run starting at `i` stays inside `s`, holds only digits, and
/// stops at the end or at a non-digit byte.
proof fn lemma_digit_run_end(s: Seq<u8>, i: int)
    requires
        0 <= i <= s.len(),
    ensures
        i <= digit_run_end(s, i) <= s.len(),
        forall|k: int| i <= k < digit_run_end(s, i) ==> is_digit_byte(s[k]),
        digit_run_end(s, i) == s.len() || !is_digit_byte(s[digit_run_end(s, i)]),
    decreases s.len() - i,
{
    if i < s.len() && is_digit_byte(s[i]) {
        lemma_digit_run_end(s, i + 1);
    }
}

/// The digit run starting at `a` ends exactly at `b` when the bytes of
/// `[a, b)` are digits and `b` is the end or a non-digit.
proof fn lemma_digit_run_end_is(s: Seq<u8>, a: int, b: int)
    requires
        0 <= a <= b <= s.len(),
        forall|k: int| a <= k < b ==> is_digit_byte(s[k]),
        b == s.len() || !is_digit_byte(s[b]),
    ensures
        digit_run_end(s, a) == b,
    decreases b - a,
{
    if a < b {
        lemma_digit_run_end_is(s, a + 1, b);
    }
}

/// A digit string's value is never negative.
proof fn lemma_digits_value_nonneg(s: Seq<u8>)
    requires
        all_digit_bytes(s),
    ensures
        digits_value(s) >= 0,
    decreases s.len(),
{
    if s.len() > 0 {
        assert(all_digit_bytes(s.drop_last()));
        lemma_digits_value_nonneg(s.drop_last());
    }
}

/// Reading more digits never shrinks the value: the numeral `t[..p]` denotes
/// at most what the longer numeral `t[..q]` denotes.
proof fn lemma_digits_value_prefix_le(t: Seq<u8>, p: int, q: int)
    requires
        all_digit_bytes(t),
        0 <= p <= q <= t.len(),
    ensures
        digits_value(t.subrange(0, p)) <= digits_value(t.subrange(0, q)),
    decreases q - p,
{
    if p < q {
        lemma_digits_value_prefix_le(t, p, q - 1);
        let u = t.subrange(0, q);
        assert(u.drop_last() =~= t.subrange(0, q - 1));
        assert(all_digit_bytes(t.subrange(0, q - 1)));
        lemma_digits_value_nonneg(t.subrange(0, q - 1));
        assert(is_digit_byte(u.last()));
    }
}

/// First position at or after `from` holding a non-digit byte (or the end of
/// `bytes`).
fn scan_digits(bytes: &[u8], from: usize) -> (j: usize)
    requires
        from <= bytes@.len(),
    ensures
        from <= j <= bytes@.len(),
        j == digit_run_end(bytes@, from as int),
{
    let mut j: usize = from;
    loop
        invariant
            from <= j <= bytes@.len(),
            digit_run_end(bytes@, from as int) == digit_run_end(bytes@, j as int),
        ensures
            from <= j <= bytes@.len(),
            j == digit_run_end(bytes@, from as int),
        decreases bytes@.len() - j,
    {
        if j == bytes.len() {
            assert(digit_run_end(bytes@, j as int) == j as int);
            break;
        }
        let b = bytes[j];
        if !(48 <= b && b <= 57) {
            assert(digit_run_end(bytes@, j as int) == j as int);
            break;
        }
        assert(is_digit_byte(bytes@[j as int]));
        assert(digit_run_end(bytes@, j as int) == digit_run_end(bytes@, j + 1 as int));
        j = j + 1;
    }
    j
}

/// Parses the digit bytes `bytes[from..to]` as a decimal number; `None` when
/// the value does not fit in `usize`.
fn parse_digits(bytes: &[u8], from: usize, to: usize) -> (r: Option<usize>)
    requires
        from <= to <= bytes@.len(),
        all_digit_bytes(bytes@.subrange(from as int, to as int)),
    ensures
        (match r {
            Some(v) => v == digits_value(bytes@.subrange(from as int, to as int)),
            None => digits_value(bytes@.subrange(from as int, to as int)) > usize::MAX,
        }),
{
    let ghost t = bytes@.subrange(from as int, to as int);
    let mut acc: usize = 0;
    let mut i: usize = from;
    while i < to
        invariant
            from <= i <= to <= bytes@.len(),
            t == bytes@.subrange(from as int, to as int),
            all_digit_bytes(t),
            acc == digits_value(t.subrange(0, i - from)),
        decreases to - i,
    {
        let b = bytes[i];
        assert(t[i - from] == b);
        assert(is_digit_byte(b));
        let d: usize = (b - 48) as usize;
        proof {
            lemma_fundamental_div_mod(usize::MAX - d, 10);
            assert(t.subrange(0, i - from + 1).drop_last() =~= t.subrange(0, i - from));
            assert(t.subrange(0, i - from + 1).last() == t[i - from]);
            assert(digits_value(t.subrange(0, i - from + 1)) == acc * 10 + d);
        }
        if acc > (usize::MAX - d) / 10 {
            proof {
                assert(digits_value(t.subrange(0, i - from + 1)) > usize::MAX);
                lemma_digits_value_prefix_le(t, i - from + 1, t.len() as int);
                assert(t.subrange(0, t.len() as int) =~= t);
            }
            return None;
        }
        acc = acc * 10 + d;
        i = i + 1;
    }
    assert(t.subrange(0, (to - from) as int) =~= t);
    Some(acc)
}

/// Does `bytes[at..]` start with `pat`?
fn bytes_match_at(bytes: &[u8], at: usize, pat: &Vec<u8>) -> (r: bool)
    requires
        at <= bytes@.len(),
    ensures
        r == (at + pat@.len() <= bytes@.len() && bytes@.subrange(
            at as int,
            at as int + pat@.len() as int,
        ) == pat@),
{
    let n: usize = bytes.len();
    if n - at < pat.len() {
        return false;
    }
    let ghost sub = bytes@.subrange(at as int, at as int + pat@.len() as int);
    let mut i: usize = 0;
    while i < pat.len()
        invariant
            bytes@.len() == n,
            at + pat@.len() <= bytes@.len(),
            i <= pat@.len(),
            sub == bytes@.subrange(at as int, at as int + pat@.len() as int),
            forall|k: int| 0 <= k < i ==> bytes@[at + k] == pat@[k],
        decreases pat@.len() - i,
    {
        if bytes[at + i] != pat[i] {
            assert(sub[i as int] == bytes@[at + i]);
            assert(sub != pat@);
            return false;
        }
        i = i + 1;
    }
    assert(sub =~= pat@);
    true
}

/// Parses a snapshot document: the two counter values exactly when the bytes
/// are well formed and the numerals fit in `usize`, `None` otherwise.
pub fn decode_snapshot(bytes: &[u8]) -> (r: Option<(usize, usize)>)
    ensures
        r == spec_decode(bytes@),
{
    let pre: Vec<u8> = prefix_vec();
    if !bytes_match_at(bytes, 0, &pre) {
        return None;
    }
    assert(bytes@.subrange(0, 16) == prefix_bytes());
    let j = scan_digits(bytes, 16);
    if j == 16 {
        return None;
    }
    proof {
        lemma_digit_run_end(bytes@, 16);
        assert(all_digit_bytes(bytes@.subrange(16, j as int)));
    }
    let w = match parse_digits(bytes, 16, j) {
        Some(w) => w,
        None => {
            return None;
        },
    };
    let mid: Vec<u8> = mid_vec();
    if !bytes_match_at(bytes, j, &mid) {
        return None;
    }
    let n: usize = bytes.len();
    assert(j + 13 <= n);
    let m: usize = j + 13;
    assert(bytes@.subrange(j as int, m as int) == mid_bytes());
    let k = scan_digits(bytes, m);
    if k == m {
        return None;
    }
    proof {
        lemma_digit_run_end(bytes@, m as int);
        assert(all_digit_bytes(bytes@.subrange(m as int, k as int)));
    }
    let r = match parse_digits(bytes, m, k) {
        Some(r) => r,
        None => {
            return None;
        },
    };
    if k == bytes.len() - 1 && bytes[k] == 125 {
        Some((w, r))
    } else {
        None
    }
}

/// Serializes one snapshot document for the given counter values.
pub fn encode_snapshot(rows_written: usize, rows_read: usize) -> (out: Vec<u8>)
    ensures
        out@ == spec_encode(rows_written as nat, rows_read as nat),
{
    let mut out: Vec<u8> = prefix_vec();
    push_digits(rows_written, &mut out);
    let mut mid: Vec<u8> = mid_vec();
    out.append(&mut mid);
    push_digits(rows_read, &mut out);
    out.push(125);
    assert(out@ =~= spec_encode(rows_written as nat, rows_read as nat));
    out
}

/// Law: the codec round-trips. Every pair of counter values decodes back
/// from its own snapshot document, so a reopened database sees exactly the
/// totals that the last completed persistence tick wrote.
pub proof fn lemma_snapshot_round_trip(w: usize, r: usize)
    ensures
        spec_decode(spec_encode(w as nat, r as nat)) == Some((w, r)),
{
    lemma_spec_digits(w as nat);
    lemma_spec_digits(r as nat);
    let dw = spec_digits(w as nat);
    let dr = spec_digits(r as nat);
    let s = spec_encode(w as nat, r as nat);
    let j = 16 + dw.len() as int;
    let m = j + 13;
    let k = m + dr.len() as int;
    assert(s.len() == k + 1);
    assert(s.subrange(0, 16) =~= prefix_bytes());
    assert forall|t: int| 16 <= t < j implies is_digit_byte(s[t]) by {
        assert(s[t] == dw[t - 16]);
    }
    assert(s[j] == 44) by {
        assert(s[j] == mid_bytes()[0]);
    }
    lemma_digit_run_end_is(s, 16, j);
    assert(s.subrange(16, j) =~= dw);
    assert(s.subrange(j, m) =~= mid_bytes());
    assert forall|t: int| m <= t < k implies is_digit_byte(s[t]) by {
        assert(s[t] == dr[t - m]);
    }
    assert(s[k] == 125);
    lemma_digit_run_end_is(s, m, k);
    assert(s.subrange(m, k) =~= dr);
    assert(spec_decode(s) == Some((w, r)));
}

} // verus!
