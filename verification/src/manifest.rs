//! The manifest: the durable catalog of live segment files.
//!
//! An append-only text log, one entry per line, three pipe-separated
//! fields: decimal highest stamp, decimal level, and the segment's file
//! name. Loading parses every line and skips any that does not have
//! exactly three fields with two valid decimals.

use vstd::prelude::*;

use crate::rec::slice_to_bytes;

verus! {

/// The pipe separator `|`.
pub const PIPE: u8 = 124;

/// The line separator.
pub const NEWLINE: u8 = 10;

/// Decimal digits of `n`, most significant first.
pub open spec fn spec_dec_bytes(n: nat) -> Seq<u8>
    decreases n,
{
    if n < 10 {
        seq![(48 + n) as u8]
    } else {
        spec_dec_bytes(n / 10).push((48 + n % 10) as u8)
    }
}

/// Append the decimal digits of `n`.
pub fn push_dec(out: &mut Vec<u8>, n: u64)
    ensures
        final(out)@ == old(out)@ + spec_dec_bytes(n as nat),
    decreases n,
{
    if n >= 10 {
        push_dec(out, n / 10);
        out.push(48 + (n % 10) as u8);
        proof {
            assert(old(out)@ + spec_dec_bytes((n / 10) as nat) + seq![(48 + n % 10) as u8]
                =~= old(out)@ + spec_dec_bytes(n as nat));
        }
    } else {
        out.push(48 + n as u8);
        proof {
            assert(old(out)@ + seq![(48 + n) as u8] =~= old(out)@ + spec_dec_bytes(n as nat));
        }
    }
}

/// Every byte is an ASCII digit.
pub open spec fn all_digits(s: Seq<u8>) -> bool {
    forall|i: int| 0 <= i < s.len() ==> 48 <= #[trigger] s[i] <= 57
}

/// The number a digit string denotes.
pub open spec fn dec_val(s: Seq<u8>) -> int
    decreases s.len(),
{
    if s.len() == 0 {
        0
    } else {
        dec_val(s.drop_last()) * 10 + (s.last() - 48)
    }
}

/// Parse a decimal field: nonempty, all digits, value in range.
pub open spec fn spec_parse_dec(s: Seq<u8>) -> Option<u64> {
    if s.len() > 0 && all_digits(s) && dec_val(s) <= u64::MAX {
        Some(dec_val(s) as u64)
    } else {
        None
    }
}

/// Digit strings denote nonnegative values no smaller than any prefix.
pub proof fn lemma_dec_val_nonneg(s: Seq<u8>)
    requires
        all_digits(s),
    ensures
        dec_val(s) >= 0,
    decreases s.len(),
{
    if s.len() > 0 {
        assert(all_digits(s.drop_last())) by {
            assert(forall|i: int| 0 <= i < s.len() - 1 ==> s.drop_last()[i] == s[i]);
        }
        lemma_dec_val_nonneg(s.drop_last());
    }
}

/// A digit-string prefix denotes at most the whole string's value.
pub proof fn lemma_dec_val_prefix(s: Seq<u8>, j: int)
    requires
        all_digits(s),
        0 <= j <= s.len(),
    ensures
        dec_val(s.take(j)) <= dec_val(s),
    decreases s.len() - j,
{
    if j == s.len() {
        assert(s.take(j) =~= s);
    } else {
        assert(s.take(j + 1).drop_last() =~= s.take(j));
        assert(s.take(j + 1).last() == s[j]);
        assert(all_digits(s.take(j))) by {
            assert(forall|i: int| 0 <= i < j ==> s.take(j)[i] == s[i]);
        }
        lemma_dec_val_nonneg(s.take(j));
        assert(dec_val(s.take(j + 1)) == dec_val(s.take(j)) * 10 + (s[j] - 48));
        assert(dec_val(s.take(j)) <= dec_val(s.take(j + 1)));
        lemma_dec_val_prefix(s, j + 1);
    }
}

/// Parse a decimal field.
pub fn parse_dec(s: &[u8]) -> (r: Option<u64>)
    ensures
        r == spec_parse_dec(s@),
{
    if s.len() == 0 {
        return None;
    }
    let mut val: u64 = 0;
    let mut i: usize = 0;
    proof {
        assert(s@.take(0) =~= Seq::<u8>::empty());
    }
    while i < s.len()
        invariant
            i <= s@.len(),
            s@.len() > 0,
            all_digits(s@.take(i as int)),
            val == dec_val(s@.take(i as int)),
        decreases s.len() - i,
    {
        let b = s[i];
        if b < 48 || b > 57 {
            proof {
                assert(!all_digits(s@));
            }
            return None;
        }
        proof {
            assert(s@.take(i + 1).drop_last() =~= s@.take(i as int));
            assert(s@.take(i + 1).last() == s@[i as int]);
            assert(forall|m: int| 0 <= m < i + 1 ==> 48 <= #[trigger] s@.take(i + 1)[m] <= 57);
        }
        let v10 = match val.checked_mul(10) {
            Some(v) => v,
            None => {
                proof {
                    lemma_dec_over(s@, i as int);
                }
                return None;
            },
        };
        let v = match v10.checked_add((b - 48) as u64) {
            Some(v) => v,
            None => {
                proof {
                    lemma_dec_over(s@, i as int);
                }
                return None;
            },
        };
        val = v;
        i = i + 1;
    }
    proof {
        assert(s@.take(i as int) =~= s@);
    }
    Some(val)
}

/// If one more digit overflows 64 bits, the whole string's value does too.
proof fn lemma_dec_over(s: Seq<u8>, i: int)
    requires
        0 <= i < s.len(),
        48 <= s[i] <= 57,
        all_digits(s.take(i)),
        dec_val(s.take(i)) * 10 + (s[i] - 48) > u64::MAX,
    ensures
        !(all_digits(s) && dec_val(s) <= u64::MAX),
{
    if all_digits(s) {
        assert(s.take(i + 1).drop_last() =~= s.take(i));
        assert(s.take(i + 1).last() == s[i]);
        assert(dec_val(s.take(i + 1)) == dec_val(s.take(i)) * 10 + (s[i] - 48));
        lemma_dec_val_prefix(s, i + 1);
    }
}

/// Formatting then parsing a decimal gives the number back.
pub proof fn lemma_dec_round_trip(n: nat)
    requires
        n <= u64::MAX,
    ensures
        spec_parse_dec(spec_dec_bytes(n)) == Some(n as u64),
        all_digits(spec_dec_bytes(n)),
        spec_dec_bytes(n).len() > 0,
        dec_val(spec_dec_bytes(n)) == n,
    decreases n,
{
    if n < 10 {
        let s = spec_dec_bytes(n);
        assert(s =~= seq![(48 + n) as u8]);
        assert(s.drop_last() =~= Seq::<u8>::empty());
        assert(s.last() == (48 + n) as u8);
        assert(((48 + n) as u8) as int == 48 + n);
        assert(dec_val(s) == dec_val(s.drop_last()) * 10 + (s.last() - 48));
        assert(dec_val(Seq::<u8>::empty()) == 0);
        assert(dec_val(s) == n);
    } else {
        lemma_dec_round_trip(n / 10);
        let s = spec_dec_bytes(n);
        let d = spec_dec_bytes(n / 10);
        assert(s == d.push((48 + n % 10) as u8));
        assert(s.drop_last() =~= d);
        assert(s.last() == (48 + n % 10) as u8);
        assert(dec_val(s) == dec_val(d) * 10 + (n % 10));
        assert(dec_val(s) == n);
        assert(all_digits(s)) by {
            assert(forall|i: int| 0 <= i < d.len() ==> s[i] == d[i]);
        }
    }
}

/// Mathematical image of a manifest entry.
pub struct ManifestEntryV {
    pub seq_high: u64,
    pub level: u64,
    pub filename: Seq<u8>,
}

/// One line of the manifest: the highest stamp in a segment, its level,
/// and its file name.
pub struct ManifestEntry {
    pub seq_high: u64,
    pub level: u64,
    pub filename: Vec<u8>,
}

impl View for ManifestEntry {
    type V = ManifestEntryV;

    open spec fn view(&self) -> ManifestEntryV {
        ManifestEntryV { seq_high: self.seq_high, level: self.level, filename: self.filename@ }
    }
}

/// The line an entry is stored as, newline included.
pub open spec fn spec_manifest_line(e: ManifestEntryV) -> Seq<u8> {
    spec_dec_bytes(e.seq_high as nat) + seq![PIPE] + spec_dec_bytes(e.level as nat) + seq![PIPE]
        + e.filename + seq![NEWLINE]
}

/// Render one manifest entry as its line.
pub fn format_manifest_entry(e: &ManifestEntry) -> (out: Vec<u8>)
    ensures
        out@ == spec_manifest_line(e@),
{
    let mut out: Vec<u8> = Vec::new();
    push_dec(&mut out, e.seq_high);
    out.push(PIPE);
    push_dec(&mut out, e.level);
    out.push(PIPE);
    let mut f = slice_to_bytes(e.filename.as_slice());
    out.append(&mut f);
    out.push(NEWLINE);
    proof {
        assert(out@ =~= spec_manifest_line(e@));
    }
    out
}

/// The first position of `x` in `s`, or the length when absent.
pub open spec fn find_byte(s: Seq<u8>, x: u8) -> int
    decreases s.len(),
{
    if s.len() == 0 {
        0
    } else if s[0] == x {
        0
    } else {
        1 + find_byte(s.skip(1), x)
    }
}

/// What the first position means.
pub proof fn lemma_find_byte(s: Seq<u8>, x: u8)
    ensures
        0 <= find_byte(s, x) <= s.len(),
        find_byte(s, x) < s.len() ==> s[find_byte(s, x)] == x,
        forall|m: int| 0 <= m < find_byte(s, x) ==> s[m] != x,
    decreases s.len(),
{
    if s.len() > 0 && s[0] != x {
        lemma_find_byte(s.skip(1), x);
        let f = find_byte(s, x);
        assert forall|m: int| 0 <= m < f implies s[m] != x by {
            if m > 0 {
                assert(s.skip(1)[m - 1] == s[m]);
            }
        }
        if f < s.len() {
            assert(s.skip(1)[f - 1] == s[f]);
        }
    }
}

/// Decode one manifest line (without its newline): exactly three
/// pipe-separated fields, the first two valid decimals.
pub open spec fn spec_parse_manifest_line(line: Seq<u8>) -> Option<ManifestEntryV> {
    let a = find_byte(line, PIPE);
    if a == line.len() {
        None
    } else {
        let rest = line.skip(a + 1);
        let b = find_byte(rest, PIPE);
        if b == rest.len() {
            None
        } else {
            let fname = rest.skip(b + 1);
            if find_byte(fname, PIPE) != fname.len() {
                None
            } else {
                match (spec_parse_dec(line.take(a)), spec_parse_dec(rest.take(b))) {
                    (Some(sh), Some(lv)) => Some(
                        ManifestEntryV { seq_high: sh, level: lv, filename: fname },
                    ),
                    _ => None,
                }
            }
        }
    }
}

/// Decode a whole manifest image, line by line, skipping lines that do not
/// decode.
pub open spec fn spec_parse_manifest(b: Seq<u8>) -> Seq<ManifestEntryV>
    decreases b.len(),
    via spec_parse_manifest_dec
{
    if b.len() == 0 {
        Seq::empty()
    } else {
        let nl = find_byte(b, NEWLINE);
        let line = b.take(nl);
        let rest = if nl == b.len() {
            b.skip(nl)
        } else {
            b.skip(nl + 1)
        };
        (match spec_parse_manifest_line(line) {
            Some(e) => seq![e],
            None => Seq::empty(),
        }) + spec_parse_manifest(rest)
    }
}

#[via_fn]
proof fn spec_parse_manifest_dec(b: Seq<u8>) {
    lemma_find_byte(b, NEWLINE);
}

/// Find the first `x` at or after `from`.
fn find_byte_from(b: &[u8], from: usize, x: u8) -> (r: usize)
    requires
        from <= b@.len(),
    ensures
        from <= r <= b@.len(),
        r - from == find_byte(b@.skip(from as int), x),
{
    let ghost s = b@.skip(from as int);
    proof {
        lemma_find_byte(s, x);
    }
    let mut j = from;
    while j < b.len()
        invariant
            from <= j <= b@.len(),
            s == b@.skip(from as int),
            forall|m: int| 0 <= m < j - from ==> s[m] != x,
        decreases b@.len() - j,
    {
        if b[j] == x {
            proof {
                assert(s[j - from] == b@[j as int]);
                lemma_find_byte(s, x);
                let f = find_byte(s, x);
                if f < j - from {
                    assert(s[f] != x);
                    assert(false);
                }
                if f > j - from {
                    assert(s[j - from] != x);
                    assert(false);
                }
            }
            return j;
        }
        proof {
            assert(s[j - from] == b@[j as int]);
        }
        j = j + 1;
    }
    proof {
        lemma_find_byte(s, x);
        let f = find_byte(s, x);
        if f < s.len() {
            assert(s[f] != x);
            assert(false);
        }
    }
    j
}

/// Decode one line.
fn parse_manifest_line(line: &[u8]) -> (r: Option<ManifestEntry>)
    ensures
        match r {
            Some(e) => spec_parse_manifest_line(line@) == Some(e@),
            None => spec_parse_manifest_line(line@) is None,
        },
{
    let a = find_byte_from(line, 0, PIPE);
    proof {
        assert(line@.skip(0) =~= line@);
    }
    if a == line.len() {
        return None;
    }
    let ghost rest = line@.skip(a + 1);
    let b = find_byte_from(line, a + 1, PIPE);
    if b == line.len() {
        proof {
            assert(find_byte(rest, PIPE) == rest.len());
        }
        return None;
    }
    proof {
        assert(b - (a + 1) == find_byte(rest, PIPE));
        assert(find_byte(rest, PIPE) < rest.len());
    }
    let ghost fname = rest.skip((b - a - 1) + 1);
    let c = find_byte_from(line, b + 1, PIPE);
    proof {
        assert(line@.skip(b + 1) =~= fname);
    }
    if c != line.len() {
        proof {
            assert(find_byte(fname, PIPE) < fname.len());
        }
        return None;
    }
    proof {
        assert(find_byte(fname, PIPE) == fname.len());
    }
    let sh = match parse_dec(vstd::slice::slice_subrange(line, 0, a)) {
        Some(v) => v,
        None => {
            proof {
                assert(line@.subrange(0, a as int) =~= line@.take(a as int));
            }
            return None;
        },
    };
    let lv = match parse_dec(vstd::slice::slice_subrange(line, a + 1, b)) {
        Some(v) => v,
        None => {
            proof {
                assert(line@.subrange(a + 1, b as int) =~= rest.take(b - a - 1));
            }
            return None;
        },
    };
    let filename = slice_to_bytes(vstd::slice::slice_subrange(line, b + 1, line.len()));
    proof {
        assert(line@.subrange(0, a as int) =~= line@.take(a as int));
        assert(line@.subrange(a + 1, b as int) =~= rest.take(b - a - 1));
        assert(line@.subrange(b + 1, line@.len() as int) =~= fname);
    }
    Some(ManifestEntry { seq_high: sh, level: lv, filename })
}

/// Decode a manifest image into its entries, in order.
pub fn parse_manifest(b: &[u8]) -> (out: Vec<ManifestEntry>)
    ensures
        out@.map_values(|e: ManifestEntry| e@) == spec_parse_manifest(b@),
{
    let mut out: Vec<ManifestEntry> = Vec::new();
    let mut pos: usize = 0;
    proof {
        assert(out@.map_values(|e: ManifestEntry| e@) + spec_parse_manifest(b@.skip(0)) =~= spec_parse_manifest(b@.skip(0)));
        assert(b@.skip(0) =~= b@);
    }
    loop
        invariant_except_break
            pos <= b@.len(),
            spec_parse_manifest(b@) == out@.map_values(|e: ManifestEntry| e@)
                + spec_parse_manifest(b@.skip(pos as int)),
        ensures
            out@.map_values(|e: ManifestEntry| e@) == spec_parse_manifest(b@),
        decreases b@.len() - pos,
    {
        if pos >= b.len() {
            proof {
                assert(b@.skip(pos as int).len() == 0);
                assert(spec_parse_manifest(b@.skip(pos as int)) =~= Seq::<
                    ManifestEntryV,
                >::empty());
                assert(out@.map_values(|e: ManifestEntry| e@) + Seq::<ManifestEntryV>::empty()
                    =~= out@.map_values(|e: ManifestEntry| e@));
            }
            break ;
        }
        let ghost rem = b@.skip(pos as int);
        let nl = find_byte_from(b, pos, NEWLINE);
        let line = vstd::slice::slice_subrange(b, pos, nl);
        proof {
            assert(line@ =~= rem.take(nl - pos));
        }
        let ghost preout = out@;
        match parse_manifest_line(line) {
            Some(e) => {
                out.push(e);
                proof {
                    assert(out@.map_values(|e2: ManifestEntry| e2@) =~= preout.map_values(
                        |e2: ManifestEntry| e2@,
                    ) + seq![out@[out@.len() - 1]@]);
                }
            },
            None => {},
        }
        let next = if nl == b.len() {
            nl
        } else {
            nl + 1
        };
        proof {
            if nl == b.len() {
                assert(rem.skip(nl - pos) =~= b@.skip(nl as int));
            } else {
                assert(rem.skip(nl - pos + 1) =~= b@.skip(nl + 1));
            }
            assert(spec_parse_manifest(rem) == (match spec_parse_manifest_line(rem.take(nl - pos)) {
                Some(e) => seq![e],
                None => Seq::<ManifestEntryV>::empty(),
            }) + spec_parse_manifest(b@.skip(next as int)));
            assert(spec_parse_manifest(b@) =~= out@.map_values(|e2: ManifestEntry| e2@)
                + spec_parse_manifest(b@.skip(next as int)));
        }
        if nl == b.len() {
            proof {
                assert(b@.skip(nl as int).len() == 0);
                assert(spec_parse_manifest(b@.skip(nl as int)) =~= Seq::<
                    ManifestEntryV,
                >::empty());
                assert(out@.map_values(|e: ManifestEntry| e@) + Seq::<ManifestEntryV>::empty()
                    =~= out@.map_values(|e: ManifestEntry| e@));
            }
            break ;
        }
        pos = nl + 1;
    }
    out
}

/// The file name a segment gets: its level and its zero-padded highest
/// stamp.
pub open spec fn spec_seg_filename(level: u64, seq_high: u64) -> Seq<u8> {
    let d = spec_dec_bytes(seq_high as nat);
    let padded = if d.len() >= 10 {
        d
    } else {
        Seq::new((10 - d.len()) as nat, |i: int| 48u8) + d
    };
    seq![108u8] + spec_dec_bytes(level as nat) + seq![95u8] + padded + seq![46u8, 115u8, 101u8,
        103u8]
}

/// Render a segment's file name.
pub fn seg_filename(level: u64, seq_high: u64) -> (out: Vec<u8>)
    ensures
        out@ == spec_seg_filename(level, seq_high),
{
    let mut digits: Vec<u8> = Vec::new();
    push_dec(&mut digits, seq_high);
    let mut out: Vec<u8> = Vec::new();
    out.push(108);
    push_dec(&mut out, level);
    out.push(95);
    let dl = digits.len();
    let zeros: usize = if dl >= 10 {
        0
    } else {
        10 - dl
    };
    let mut pad: usize = 0;
    while pad < zeros
        invariant
            pad <= zeros,
            zeros == if digits@.len() >= 10 {
                0int
            } else {
                10 - digits@.len()
            },
            out@ =~= seq![108u8] + spec_dec_bytes(level as nat) + seq![95u8] + Seq::new(
                pad as nat,
                |i: int| 48u8,
            ),
        decreases zeros - pad,
    {
        out.push(48);
        proof {
            assert(out@ =~= seq![108u8] + spec_dec_bytes(level as nat) + seq![95u8] + Seq::new(
                (pad + 1) as nat,
                |i: int| 48u8,
            ));
        }
        pad = pad + 1;
    }
    let mut d2 = digits;
    out.append(&mut d2);
    out.push(46);
    out.push(115);
    out.push(101);
    out.push(103);
    proof {
        assert(out@ =~= spec_seg_filename(level, seq_high));
    }
    out
}


/// Where the first occurrence sits is determined by what comes before it.
pub proof fn lemma_find_byte_at(s: Seq<u8>, x: u8, p: int)
    requires
        0 <= p <= s.len(),
        p < s.len() ==> s[p] == x,
        forall|m: int| 0 <= m < p ==> s[m] != x,
    ensures
        find_byte(s, x) == p,
{
    lemma_find_byte(s, x);
    let f = find_byte(s, x);
    if f < p {
        assert(s[f] != x);
        assert(false);
    }
    if f > p {
        assert(p < s.len());
        assert(s[p] != x);
        assert(false);
    }
}

/// A file name fit for a manifest line: no field or line separators.
pub open spec fn filename_clean(f: Seq<u8>) -> bool {
    forall|i: int| 0 <= i < f.len() ==> #[trigger] f[i] != PIPE && f[i] != NEWLINE
}

/// Parsing a formatted line (without its newline) gives the entry back.
pub proof fn lemma_manifest_line_round_trip(e: ManifestEntryV)
    requires
        filename_clean(e.filename),
    ensures
        spec_parse_manifest_line(spec_manifest_line(e).drop_last()) == Some(e),
        spec_manifest_line(e).len() > 0,
        spec_manifest_line(e).last() == NEWLINE,
        forall|i: int|
            0 <= i < spec_manifest_line(e).len() - 1 ==> #[trigger] spec_manifest_line(e)[i]
                != NEWLINE,
{
    lemma_dec_round_trip(e.seq_high as nat);
    lemma_dec_round_trip(e.level as nat);
    let ds = spec_dec_bytes(e.seq_high as nat);
    let dl = spec_dec_bytes(e.level as nat);
    let whole = spec_manifest_line(e);
    let line = whole.drop_last();
    assert(whole =~= ds + seq![PIPE] + dl + seq![PIPE] + e.filename + seq![NEWLINE]);
    assert(line =~= ds + seq![PIPE] + dl + seq![PIPE] + e.filename);
    let a = ds.len() as int;
    assert(line[a] == PIPE);
    assert forall|m: int| 0 <= m < a implies line[m] != PIPE by {
        assert(line[m] == ds[m]);
        assert(48 <= ds[m] <= 57);
    }
    lemma_find_byte_at(line, PIPE, a);
    let rest = line.skip(a + 1);
    assert(rest =~= dl + seq![PIPE] + e.filename);
    let b = dl.len() as int;
    assert(rest[b] == PIPE);
    assert forall|m: int| 0 <= m < b implies rest[m] != PIPE by {
        assert(rest[m] == dl[m]);
        assert(48 <= dl[m] <= 57);
    }
    lemma_find_byte_at(rest, PIPE, b);
    let fname = rest.skip(b + 1);
    assert(fname =~= e.filename);
    lemma_find_byte_at(fname, PIPE, fname.len() as int);
    assert(line.take(a) =~= ds);
    assert(rest.take(b) =~= dl);
    assert forall|i: int| 0 <= i < whole.len() - 1 implies #[trigger] whole[i] != NEWLINE by {
        if i < a {
            assert(whole[i] == ds[i]);
        } else if i == a {
        } else if i < a + 1 + b {
            assert(whole[i] == dl[i - a - 1]);
        } else if i == a + 1 + b {
        } else {
            assert(whole[i] == e.filename[i - a - b - 2]);
        }
    }
}

/// The lines of an entry list, in order.
pub open spec fn spec_manifest_lines(entries: Seq<ManifestEntryV>) -> Seq<u8>
    decreases entries.len(),
{
    if entries.len() == 0 {
        Seq::empty()
    } else {
        spec_manifest_line(entries[0]) + spec_manifest_lines(entries.skip(1))
    }
}

/// Parsing formatted lines gives the entries back.
pub proof fn lemma_manifest_round_trip(entries: Seq<ManifestEntryV>)
    requires
        forall|i: int| 0 <= i < entries.len() ==> filename_clean((#[trigger] entries[i]).filename),
    ensures
        spec_parse_manifest(spec_manifest_lines(entries)) == entries,
    decreases entries.len(),
{
    if entries.len() == 0 {
        assert(spec_parse_manifest(spec_manifest_lines(entries)) =~= entries);
    } else {
        let e = entries[0];
        lemma_manifest_line_round_trip(e);
        let whole = spec_manifest_line(e);
        let body = spec_manifest_lines(entries);
        assert(body =~= whole + spec_manifest_lines(entries.skip(1)));
        let nl = whole.len() - 1;
        assert(body[nl as int] == NEWLINE);
        assert forall|m: int| 0 <= m < nl implies body[m] != NEWLINE by {
            assert(body[m] == whole[m]);
        }
        lemma_find_byte_at(body, NEWLINE, nl as int);
        assert(body.take(nl as int) =~= whole.drop_last());
        assert(body.skip(nl as int + 1) =~= spec_manifest_lines(entries.skip(1)));
        lemma_manifest_round_trip(entries.skip(1));
        assert(seq![e] + entries.skip(1) =~= entries);
    }
}

} // verus!
