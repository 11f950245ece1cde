//! The line-oriented codec for the persisted store file.
//!
//! Each entry is one line, "<absolute-path> <unix-seconds>".  Parsing is
//! tolerant: the first space-delimited token of a line is the path, the
//! second is the timestamp, and a missing or malformed timestamp reads as 0.

use vstd::prelude::*;

verus! {

use crate::store::GrantEntry;
use crate::store::store_view;

/// The field separator byte, ' '.
pub const SPACE: u8 = 32;

/// The line terminator byte, '\n'.
pub const NEWLINE: u8 = 10;

/// The first index at or after `i` holding byte `b`, or the end of `s`.
pub open spec fn spec_scan_to(s: Seq<u8>, i: int, b: u8) -> int
    decreases s.len() - i,
{
    if i < 0 || i >= s.len() || s[i] == b {
        i
    } else {
        spec_scan_to(s, i + 1, b)
    }
}

pub proof fn lemma_scan_bounds(s: Seq<u8>, i: int, b: u8)
    requires
        0 <= i <= s.len(),
    ensures
        i <= spec_scan_to(s, i, b) <= s.len(),
    decreases s.len() - i,
{
    if !(i >= s.len() || s[i] == b) {
        lemma_scan_bounds(s, i + 1, b);
    }
}

/// Every byte of a nonempty `s` is a decimal digit.
pub open spec fn all_digits(s: Seq<u8>) -> bool {
    forall|i: int| 0 <= i < s.len() ==> 48 <= #[trigger] s[i] <= 57
}

/// The numeric value of a digit string, most significant digit first.
pub open spec fn spec_digits_val(s: Seq<u8>) -> int
    decreases s.len(),
{
    if s.len() == 0 {
        0
    } else {
        spec_digits_val(s.drop_last()) * 10 + (s.last() - 48)
    }
}

/// What a timestamp field reads as: its numeric value when it is a plain
/// decimal number that fits in a u64, and 0 otherwise (missing, malformed,
/// or out of range).
pub open spec fn spec_parse_ts(s: Seq<u8>) -> u64 {
    if s.len() > 0 && all_digits(s) && spec_digits_val(s) <= u64::MAX {
        spec_digits_val(s) as u64
    } else {
        0
    }
}

/// A digit string's value is nonnegative and only grows with its prefixes.
pub proof fn lemma_digits_val_mono(s: Seq<u8>, i: int)
    requires
        0 <= i <= s.len(),
        all_digits(s),
    ensures
        0 <= spec_digits_val(s.take(i)) <= spec_digits_val(s),
    decreases s.len() - i,
{
    if i == s.len() {
        assert(s.take(i) =~= s);
        lemma_digits_val_nonneg(s);
    } else {
        lemma_digits_val_mono(s, i + 1);
        let t = s.take(i + 1);
        assert(t.drop_last() =~= s.take(i));
        assert(48 <= s[i] <= 57);
        assert(t.last() == s[i]);
        lemma_digits_val_nonneg(s.take(i));
        assert(spec_digits_val(s.take(i)) * 10 >= spec_digits_val(s.take(i))) by (nonlinear_arith)
            requires
                spec_digits_val(s.take(i)) >= 0,
        ;
    }
}

pub proof fn lemma_digits_val_nonneg(s: Seq<u8>)
    requires
        all_digits(s),
    ensures
        spec_digits_val(s) >= 0,
    decreases s.len(),
{
    if s.len() > 0 {
        assert(all_digits(s.drop_last()));
        lemma_digits_val_nonneg(s.drop_last());
        assert(48 <= s[s.len() - 1] <= 57);
        assert(spec_digits_val(s.drop_last()) * 10 >= 0) by (nonlinear_arith)
            requires
                spec_digits_val(s.drop_last()) >= 0,
        ;
    }
}

/// The decimal digits of `n`, most significant first.
pub open spec fn spec_dec(n: nat) -> Seq<u8>
    decreases n,
{
    if n < 10 {
        seq![(48 + n) as u8]
    } else {
        spec_dec(n / 10).push((48 + n % 10) as u8)
    }
}

/// Decimal rendering yields digits only, and at least one.
pub proof fn lemma_dec_digits(n: nat)
    ensures
        spec_dec(n).len() > 0,
        all_digits(spec_dec(n)),
    decreases n,
{
    if n >= 10 {
        lemma_dec_digits(n / 10);
        let s = spec_dec(n / 10).push((48 + n % 10) as u8);
        assert forall|i: int| 0 <= i < s.len() implies 48 <= #[trigger] s[i] <= 57 by {
            if i < s.len() - 1 {
                assert(s[i] == spec_dec(n / 10)[i]);
            }
        }
    }
}

/// Rendering then reading a number gives the number back.
pub proof fn lemma_dec_val(n: nat)
    ensures
        spec_digits_val(spec_dec(n)) == n,
    decreases n,
{
    if n < 10 {
        let s = spec_dec(n);
        assert(s =~= seq![(48 + n) as u8]);
        assert(s.drop_last() =~= Seq::<u8>::empty());
        assert(spec_digits_val(Seq::<u8>::empty()) == 0);
        assert(s.last() == (48 + n) as u8);
        assert((48 + n) as u8 == 48 + n);
        assert(spec_digits_val(s) == spec_digits_val(s.drop_last()) * 10 + (s.last() - 48));
    } else {
        lemma_dec_val(n / 10);
        let s = spec_dec(n / 10).push((48 + n % 10) as u8);
        assert(spec_dec(n) == s);
        assert(s.drop_last() =~= spec_dec(n / 10));
        assert(s.last() == (48 + n % 10) as u8);
        assert((48 + n % 10) as u8 == 48 + n % 10);
        assert(spec_digits_val(s) == spec_digits_val(s.drop_last()) * 10 + (s.last() - 48));
        assert(n / 10 * 10 + n % 10 == n) by (nonlinear_arith);
    }
}

/// Reading back a rendered u64 recovers it exactly.
pub proof fn lemma_dec_roundtrip(n: u64)
    ensures
        spec_parse_ts(spec_dec(n as nat)) == n,
{
    lemma_dec_digits(n as nat);
    lemma_dec_val(n as nat);
}

/// A fresh copy of `src[from..to]`.
pub fn sub_bytes(src: &Vec<u8>, from: usize, to: usize) -> (r: Vec<u8>)
    requires
        from <= to <= src@.len(),
    ensures
        r@ == src@.subrange(from as int, to as int),
{
    let mut out: Vec<u8> = Vec::new();
    let mut i: usize = from;
    proof {
        assert(out@ =~= src@.subrange(from as int, from as int));
    }
    while i < to
        invariant
            from <= i <= to <= src@.len(),
            out@ == src@.subrange(from as int, i as int),
        decreases to - i,
    {
        out.push(src[i]);
        proof {
            assert(src@.subrange(from as int, i + 1 as int) =~= src@.subrange(
                from as int,
                i as int,
            ).push(src@[i as int]));
        }
        i += 1;
    }
    out
}

/// Appends `src` to `dst`.
pub fn append_bytes(dst: &mut Vec<u8>, src: &Vec<u8>)
    ensures
        final(dst)@ == old(dst)@ + src@,
{
    let mut k: usize = 0;
    proof {
        assert(dst@ + src@.subrange(0, 0) =~= dst@);
    }
    while k < src.len()
        invariant
            k <= src@.len(),
            dst@ == old(dst)@ + src@.subrange(0, k as int),
        decreases src@.len() - k,
    {
        dst.push(src[k]);
        proof {
            assert(old(dst)@ + src@.subrange(0, k + 1 as int) =~= (old(dst)@ + src@.subrange(
                0,
                k as int,
            )).push(src@[k as int]));
        }
        k += 1;
    }
    proof {
        assert(src@.subrange(0, src@.len() as int) =~= src@);
    }
}

/// The timestamp field's value: the decimal number it spells, or 0 when it
/// is empty, malformed, or too large for a u64.
pub fn parse_u64(s: &Vec<u8>) -> (r: u64)
    ensures
        r == spec_parse_ts(s@),
{
    let mut acc: u64 = 0;
    let mut i: usize = 0;
    proof {
        assert(s@.take(0) =~= Seq::<u8>::empty());
    }
    while i < s.len()
        invariant
            i <= s@.len(),
            all_digits(s@.take(i as int)),
            acc == spec_digits_val(s@.take(i as int)),
        decreases s@.len() - i,
    {
        let c = s[i];
        if c < 48 || c > 57 {
            proof {
                assert(!all_digits(s@));
            }
            return 0;
        }
        let d = (c - 48) as u64;
        let wide: u128 = acc as u128 * 10 + d as u128;
        proof {
            assert(acc as u128 * 10 + d as u128 <= 0xffff_ffff_ffff_ffff_u128 * 10 + 9)
                by (nonlinear_arith)
                requires
                    acc <= u64::MAX,
                    d <= 9,
            ;
            assert(s@.take(i + 1 as int).drop_last() =~= s@.take(i as int));
            assert(s@.take(i + 1 as int).last() == s@[i as int]);
            assert(spec_digits_val(s@.take(i + 1 as int)) == acc * 10 + d);
        }
        if wide > u64::MAX as u128 {
            proof {
                if all_digits(s@) {
                    lemma_digits_val_mono(s@, i + 1);
                    assert(spec_digits_val(s@) > u64::MAX);
                }
            }
            return 0;
        }
        acc = wide as u64;
        i += 1;
    }
    proof {
        assert(s@.take(s@.len() as int) =~= s@);
    }
    acc
}

/// The decimal digits of `n`, most significant first.
pub fn render_u64(n: u64) -> (r: Vec<u8>)
    ensures
        r@ == spec_dec(n as nat),
{
    let mut digits: Vec<u8> = Vec::new();
    let mut m: u64 = n;
    loop
        invariant_except_break
            digits@.len() == 0 ==> m == n,
            digits@.len() > 0 ==> m != 0 && spec_dec(n as nat) == spec_dec(m as nat)
                + digits@.reverse(),
        ensures
            spec_dec(n as nat) == digits@.reverse(),
        decreases m,
    {
        let d = 48 + (m % 10) as u8;
        let ghost prev = digits@;
        digits.push(d);
        let m2 = m / 10;
        proof {
            assert(digits@.reverse() =~= seq![d] + prev.reverse());
            if prev.len() == 0 {
                if m < 10 {
                    assert(spec_dec(n as nat) =~= digits@.reverse());
                } else {
                    assert(spec_dec(m2 as nat).push(d) =~= spec_dec(m2 as nat)
                        + digits@.reverse());
                }
            } else {
                if m < 10 {
                    assert(spec_dec(m as nat) =~= seq![d]);
                    assert(spec_dec(m as nat) + prev.reverse() =~= digits@.reverse());
                } else {
                    assert(spec_dec(m as nat) =~= spec_dec(m2 as nat).push(d));
                    assert(spec_dec(m2 as nat).push(d) + prev.reverse() =~= spec_dec(m2 as nat)
                        + digits@.reverse());
                }
            }
        }
        m = m2;
        if m == 0 {
            break ;
        }
    }
    let mut out: Vec<u8> = Vec::new();
    let mut k: usize = digits.len();
    proof {
        assert(out@ =~= digits@.reverse().take(0));
    }
    while k > 0
        invariant
            k <= digits@.len(),
            spec_dec(n as nat) == digits@.reverse(),
            out@ == digits@.reverse().take((digits@.len() - k) as int),
        decreases k,
    {
        out.push(digits[k - 1]);
        proof {
            assert(digits@.reverse().take((digits@.len() - (k - 1)) as int) =~= digits@.reverse()
                .take((digits@.len() - k) as int).push(digits@[k - 1]));
        }
        k -= 1;
    }
    proof {
        assert(digits@.reverse().take(digits@.len() as int) =~= digits@.reverse());
    }
    out
}

/// What one line reads as: the bytes before the first space are the path,
/// the token after it is the timestamp (0 when missing).
pub open spec fn spec_parse_line(line: Seq<u8>) -> (Seq<u8>, u64) {
    let e1 = spec_scan_to(line, 0, SPACE);
    (
        line.subrange(0, e1),
        if e1 >= line.len() {
            0u64
        } else {
            spec_parse_ts(line.subrange(e1 + 1, spec_scan_to(line, e1 + 1, SPACE)))
        },
    )
}

/// The lines of a file: segments between newline bytes; a trailing newline
/// ends the last line rather than opening an empty one.
pub open spec fn spec_lines(data: Seq<u8>) -> Seq<Seq<u8>>
    decreases data.len(),
    via spec_lines_decreases
{
    if data.len() == 0 {
        Seq::empty()
    } else {
        let e = spec_scan_to(data, 0, NEWLINE);
        if e >= data.len() {
            seq![data]
        } else {
            seq![data.subrange(0, e)] + spec_lines(data.subrange(e + 1, data.len() as int))
        }
    }
}

#[via_fn]
proof fn spec_lines_decreases(data: Seq<u8>) {
    if data.len() > 0 {
        lemma_scan_bounds(data, 0, NEWLINE);
    }
}

/// What a whole store file reads as: one entry per line, in order.
pub open spec fn spec_parse_store(data: Seq<u8>) -> Seq<(Seq<u8>, u64)> {
    spec_lines(data).map_values(|l: Seq<u8>| spec_parse_line(l))
}

/// One step of reading a store file: the first line, then the rest.
pub proof fn lemma_parse_store_unfold(s: Seq<u8>)
    ensures
        s.len() == 0 ==> spec_parse_store(s) == Seq::<(Seq<u8>, u64)>::empty(),
        s.len() > 0 && spec_scan_to(s, 0, NEWLINE) >= s.len() ==> spec_parse_store(s) == seq![
            spec_parse_line(s),
        ],
        s.len() > 0 && spec_scan_to(s, 0, NEWLINE) < s.len() ==> spec_parse_store(s) == seq![
            spec_parse_line(s.subrange(0, spec_scan_to(s, 0, NEWLINE))),
        ] + spec_parse_store(s.subrange(spec_scan_to(s, 0, NEWLINE) + 1, s.len() as int)),
{
    if s.len() == 0 {
        assert(spec_parse_store(s) =~= Seq::<(Seq<u8>, u64)>::empty());
    } else {
        let e = spec_scan_to(s, 0, NEWLINE);
        lemma_scan_bounds(s, 0, NEWLINE);
        if e >= s.len() {
            assert(spec_lines(s) == seq![s]);
            assert(spec_parse_store(s) =~= seq![spec_parse_line(s)]);
        } else {
            let rest = s.subrange(e + 1, s.len() as int);
            assert(spec_lines(s) == seq![s.subrange(0, e)] + spec_lines(rest));
            assert(spec_parse_store(s) =~= seq![spec_parse_line(s.subrange(0, e))]
                + spec_parse_store(rest));
        }
    }
}

/// One line read back: path, then timestamp.
pub fn parse_line(line: &Vec<u8>) -> (r: GrantEntry)
    ensures
        r@ == spec_parse_line(line@),
{
    let mut e1: usize = 0;
    while e1 < line.len() && line[e1] != SPACE
        invariant
            e1 <= line@.len(),
            spec_scan_to(line@, 0, SPACE) == spec_scan_to(line@, e1 as int, SPACE),
        decreases line@.len() - e1,
    {
        e1 += 1;
    }
    proof {
        assert(spec_scan_to(line@, e1 as int, SPACE) == e1);
    }
    let path = sub_bytes(line, 0, e1);
    let ts: u64;
    if e1 >= line.len() {
        ts = 0;
    } else {
        let mut e2: usize = e1 + 1;
        while e2 < line.len() && line[e2] != SPACE
            invariant
                e1 + 1 <= e2 <= line@.len(),
                spec_scan_to(line@, e1 + 1 as int, SPACE) == spec_scan_to(line@, e2 as int, SPACE),
            decreases line@.len() - e2,
        {
            e2 += 1;
        }
        proof {
            assert(spec_scan_to(line@, e2 as int, SPACE) == e2);
        }
        let field = sub_bytes(line, e1 + 1, e2);
        ts = parse_u64(&field);
    }
    GrantEntry { rc_path: path, granted_at: ts }
}

/// A whole store file read back, one entry per line.
pub fn parse_store(data: &Vec<u8>) -> (r: Vec<GrantEntry>)
    ensures
        store_view(r@) == spec_parse_store(data@),
{
    let ghost whole = data@;
    let mut out: Vec<GrantEntry> = Vec::new();
    let mut pos: usize = 0;
    proof {
        assert(whole.subrange(0, whole.len() as int) =~= whole);
        assert(store_view(out@) + spec_parse_store(whole) =~= spec_parse_store(whole));
    }
    while pos < data.len()
        invariant
            pos <= data@.len(),
            whole == data@,
            spec_parse_store(whole) == store_view(out@) + spec_parse_store(
                whole.subrange(pos as int, whole.len() as int),
            ),
        decreases data@.len() - pos,
    {
        let ghost suf = whole.subrange(pos as int, whole.len() as int);
        let mut j: usize = pos;
        while j < data.len() && data[j] != NEWLINE
            invariant
                pos <= j <= data@.len(),
                whole == data@,
                suf == whole.subrange(pos as int, whole.len() as int),
                spec_scan_to(suf, 0, NEWLINE) == spec_scan_to(suf, j - pos, NEWLINE),
            decreases data@.len() - j,
        {
            proof {
                assert(suf[j - pos] == whole[j as int]);
            }
            j += 1;
        }
        proof {
            if j < data@.len() {
                assert(suf[j - pos] == whole[j as int]);
            }
            assert(spec_scan_to(suf, j - pos, NEWLINE) == j - pos);
            lemma_parse_store_unfold(suf);
        }
        let line = sub_bytes(data, pos, j);
        proof {
            assert(line@ =~= suf.subrange(0, (j - pos) as int));
            if j >= data@.len() {
                assert(line@ =~= suf);
            }
        }
        let entry = parse_line(&line);
        let ghost prev = out@;
        out.push(entry);
        proof {
            crate::store::lemma_store_view_push(prev, entry);
        }
        if j >= data.len() {
            pos = data.len();
            proof {
                assert(whole.subrange(pos as int, whole.len() as int).len() == 0);
                lemma_parse_store_unfold(whole.subrange(pos as int, whole.len() as int));
                assert(store_view(prev).push(spec_parse_line(suf)) + Seq::<(Seq<u8>, u64)>::empty()
                    =~= store_view(prev) + seq![spec_parse_line(suf)]);
            }
        } else {
            let ghost oldpos = pos as int;
            pos = j + 1;
            proof {
                assert(suf.subrange(j - oldpos + 1, suf.len() as int) =~= whole.subrange(
                    pos as int,
                    whole.len() as int,
                ));
                assert(store_view(prev).push(spec_parse_line(line@)) + spec_parse_store(
                    whole.subrange(pos as int, whole.len() as int),
                ) =~= store_view(prev) + (seq![spec_parse_line(line@)] + spec_parse_store(
                    whole.subrange(pos as int, whole.len() as int),
                )));
            }
        }
    }
    proof {
        assert(whole.subrange(pos as int, whole.len() as int).len() == 0);
        lemma_parse_store_unfold(whole.subrange(pos as int, whole.len() as int));
        assert(store_view(out@) + Seq::<(Seq<u8>, u64)>::empty() =~= store_view(out@));
    }
    out
}

/// One line of the persisted form: path, space, timestamp, newline.
pub open spec fn spec_render_line(e: (Seq<u8>, u64)) -> Seq<u8> {
    e.0 + seq![SPACE] + spec_dec(e.1 as nat) + seq![NEWLINE]
}

/// The persisted form of a whole store, one line per entry, in order.
pub open spec fn spec_render_store(s: Seq<(Seq<u8>, u64)>) -> Seq<u8>
    decreases s.len(),
{
    if s.len() == 0 {
        Seq::empty()
    } else {
        spec_render_line(s[0]) + spec_render_store(s.drop_first())
    }
}

/// The scan stops at the first hit.
pub proof fn lemma_scan_first_hit(s: Seq<u8>, i: int, k: int, b: u8)
    requires
        0 <= i <= k < s.len(),
        forall|j: int| i <= j < k ==> s[j] != b,
        s[k] == b,
    ensures
        spec_scan_to(s, i, b) == k,
    decreases k - i,
{
    if i < k {
        lemma_scan_first_hit(s, i + 1, k, b);
    }
}

/// The scan runs to the end when nothing matches.
pub proof fn lemma_scan_no_hit(s: Seq<u8>, i: int, b: u8)
    requires
        0 <= i <= s.len(),
        forall|j: int| i <= j < s.len() ==> s[j] != b,
    ensures
        spec_scan_to(s, i, b) == s.len(),
    decreases s.len() - i,
{
    if i < s.len() {
        lemma_scan_no_hit(s, i + 1, b);
    }
}

/// A path the line format can carry faithfully: no field separator and no
/// line terminator among its bytes.
pub open spec fn path_clean(p: Seq<u8>) -> bool {
    forall|j: int| 0 <= j < p.len() ==> #[trigger] p[j] != SPACE && p[j] != NEWLINE
}

/// Every entry of the store has a clean path.
pub open spec fn store_clean(s: Seq<(Seq<u8>, u64)>) -> bool {
    forall|i: int| 0 <= i < s.len() ==> path_clean(#[trigger] s[i].0)
}

/// Reading back one rendered line (without its terminator) recovers the
/// entry exactly.
pub proof fn lemma_parse_render_line(e: (Seq<u8>, u64))
    requires
        path_clean(e.0),
    ensures
        spec_parse_line(e.0 + seq![SPACE] + spec_dec(e.1 as nat)) == e,
{
    let p = e.0;
    let d = spec_dec(e.1 as nat);
    let line = p + seq![SPACE] + d;
    lemma_dec_digits(e.1 as nat);
    lemma_dec_roundtrip(e.1);
    assert(line[p.len() as int] == SPACE);
    assert forall|j: int| 0 <= j < p.len() implies line[j] != SPACE by {
        assert(line[j] == p[j]);
    }
    lemma_scan_first_hit(line, 0, p.len() as int, SPACE);
    assert(line.subrange(0, p.len() as int) =~= p);
    assert forall|j: int| p.len() + 1 <= j < line.len() implies line[j] != SPACE by {
        assert(line[j] == d[j - p.len() - 1]);
        assert(48 <= d[j - p.len() - 1] <= 57);
    }
    lemma_scan_no_hit(line, p.len() as int + 1, SPACE);
    assert(line.subrange(p.len() as int + 1, line.len() as int) =~= d);
}

/// Reading back a rendered store recovers it exactly, entry for entry, as
/// long as every path is clean.
pub proof fn lemma_store_roundtrip(s: Seq<(Seq<u8>, u64)>)
    requires
        store_clean(s),
    ensures
        spec_parse_store(spec_render_store(s)) == s,
    decreases s.len(),
{
    if s.len() == 0 {
        lemma_parse_store_unfold(spec_render_store(s));
    } else {
        let p = s[0].0;
        let d = spec_dec(s[0].1 as nat);
        let line = spec_render_line(s[0]);
        let rest = spec_render_store(s.drop_first());
        let whole = spec_render_store(s);
        assert(whole == line + rest);
        lemma_dec_digits(s[0].1 as nat);
        assert(path_clean(p));
        let ll = line.len() as int;
        assert(ll == p.len() + 2 + d.len());
        assert(whole[ll - 1] == NEWLINE) by {
            assert(line[ll - 1] == NEWLINE);
        }
        assert forall|j: int| 0 <= j < ll - 1 implies whole[j] != NEWLINE by {
            assert(whole[j] == line[j]);
            if j < p.len() {
                assert(line[j] == p[j]);
            } else if j == p.len() {
                assert(line[j] == SPACE);
            } else {
                assert(line[j] == d[j - p.len() - 1]);
                assert(48 <= d[j - p.len() - 1] <= 57);
            }
        }
        lemma_scan_first_hit(whole, 0, ll - 1, NEWLINE);
        lemma_parse_store_unfold(whole);
        assert(whole.subrange(0, ll - 1) =~= p + seq![SPACE] + d);
        lemma_parse_render_line(s[0]);
        assert(whole.subrange(ll, whole.len() as int) =~= rest);
        assert(store_clean(s.drop_first())) by {
            assert forall|i: int| 0 <= i < s.drop_first().len() implies path_clean(
                #[trigger] s.drop_first()[i].0,
            ) by {
                assert(s.drop_first()[i] == s[i + 1]);
            }
        }
        lemma_store_roundtrip(s.drop_first());
        assert(seq![spec_parse_line(whole.subrange(0, ll - 1))] + spec_parse_store(
            whole.subrange(ll, whole.len() as int),
        ) =~= s);
    }
}

/// One entry written out as its line.
pub fn render_line(e: &GrantEntry) -> (r: Vec<u8>)
    ensures
        r@ == spec_render_line(e@),
{
    let mut out = crate::scope::copy_bytes(&e.rc_path);
    out.push(SPACE);
    let ds = render_u64(e.granted_at);
    append_bytes(&mut out, &ds);
    out.push(NEWLINE);
    proof {
        assert(out@ =~= spec_render_line(e@));
    }
    out
}

/// A whole store written out, one line per entry.
pub fn render_store(list: &Vec<GrantEntry>) -> (r: Vec<u8>)
    ensures
        r@ == spec_render_store(store_view(list@)),
{
    let ghost s = store_view(list@);
    let mut out: Vec<u8> = Vec::new();
    let mut i: usize = 0;
    proof {
        assert(s.subrange(0, s.len() as int) =~= s);
        assert(out@ + spec_render_store(s) =~= spec_render_store(s));
    }
    while i < list.len()
        invariant
            i <= list@.len(),
            s == store_view(list@),
            spec_render_store(s) == out@ + spec_render_store(
                s.subrange(i as int, s.len() as int),
            ),
        decreases list@.len() - i,
    {
        let ghost suffix = s.subrange(i as int, s.len() as int);
        proof {
            assert(suffix[0] == s[i as int]);
            assert(suffix.drop_first() =~= s.subrange(i + 1, s.len() as int));
        }
        let line = render_line(&list[i]);
        proof {
            assert(list@[i as int]@ == s[i as int]);
        }
        let ghost prev = out@;
        append_bytes(&mut out, &line);
        proof {
            assert(prev + spec_render_line(s[i as int]) + spec_render_store(
                s.subrange(i + 1, s.len() as int),
            ) =~= prev + (spec_render_line(s[i as int]) + spec_render_store(
                s.subrange(i + 1, s.len() as int),
            )));
        }
        i += 1;
    }
    proof {
        assert(s.subrange(i as int, s.len() as int).len() == 0);
        assert(out@ + spec_render_store(s.subrange(i as int, s.len() as int)) =~= out@);
    }
    out
}

} // verus!
