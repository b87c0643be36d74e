//! The persisted form of the store: one record per line, the path, the
//! rank and the time separated by a vertical bar, the rank written as a
//! decimal with two fractional digits (its exact fixed-point value) and
//! the time as a decimal integer. No quoting: a path holding a bar or a
//! newline cannot be persisted faithfully, an accepted limitation. On
//! reading, a malformed line is skipped rather than failing the read.

use vstd::prelude::*;
use crate::record::History;
use crate::record::HistoryModel;
use crate::record::copy_bytes;
use crate::record::store_view;
use crate::matcher::views_of;

verus! {

/// The field separator, a vertical bar.
pub const SEP: u8 = 124;

/// The record separator, a line feed.
pub const NL: u8 = 10;

/// The decimal point.
pub const DOT: u8 = 46;

/// An ASCII decimal digit.
pub open spec fn is_digit(b: u8) -> bool {
    48 <= b <= 57
}

/// Every byte an ASCII decimal digit.
pub open spec fn all_digits(s: Seq<u8>) -> bool {
    forall|i: int| 0 <= i < s.len() ==> is_digit(s[i])
}

/// The value of a digit string, most significant digit first.
pub open spec fn digits_val(s: Seq<u8>) -> int
    decreases s.len(),
{
    if s.len() == 0 {
        0
    } else {
        digits_val(s.drop_last()) * 10 + (s.last() - 48)
    }
}

/// The shortest digit string of a non-negative number.
pub open spec fn digits_of(n: int) -> Seq<u8>
    recommends
        n >= 0,
    decreases n,
{
    if n < 10 {
        seq![(48 + n) as u8]
    } else {
        digits_of(n / 10).push((48 + n % 10) as u8)
    }
}

/// The decimal text of a rank held in hundredths: the whole part, a
/// point, and exactly two fractional digits.
pub open spec fn rank_text(r: int) -> Seq<u8> {
    digits_of(r / 100) + seq![DOT] + seq![
        (48 + (r % 100) / 10) as u8,
        (48 + (r % 100) % 10) as u8,
    ]
}

/// One record's line, without its terminating newline.
pub open spec fn line_body(m: HistoryModel) -> Seq<u8> {
    m.path + seq![SEP] + rank_text(m.rank) + seq![SEP] + digits_of(m.time)
}

/// The persisted text of a store: each record's line, newline-terminated.
pub open spec fn store_text(s: Seq<HistoryModel>) -> Seq<u8>
    decreases s.len(),
{
    if s.len() == 0 {
        Seq::empty()
    } else {
        line_body(s[0]) + seq![NL] + store_text(s.drop_first())
    }
}

/// `j` is the first position of `sep` in `s`.
pub open spec fn first_sep_at(s: Seq<u8>, sep: u8, j: int) -> bool {
    0 <= j < s.len() && s[j] == sep && forall|k: int| 0 <= k < j ==> s[k] != sep
}

/// The fields of `s` delimited by `sep`: one more field than there are
/// separators, fields possibly empty.
pub open spec fn split_at(s: Seq<u8>, sep: u8) -> Seq<Seq<u8>>
    decreases s.len(),
{
    if exists|j: int| first_sep_at(s, sep, j) {
        let j = choose|j: int| first_sep_at(s, sep, j);
        seq![s.take(j)] + split_at(s.skip(j + 1), sep)
    } else {
        seq![s]
    }
}

/// A decimal u64 field: non-empty, all digits, within range.
pub open spec fn parse_u64_field(s: Seq<u8>) -> Option<int> {
    if s.len() > 0 && all_digits(s) && digits_val(s) <= u64::MAX {
        Some(digits_val(s))
    } else {
        None
    }
}

/// The value, in hundredths, of one or two fractional digits.
pub open spec fn frac_val(f: Seq<u8>) -> int {
    if f.len() == 1 {
        (f[0] - 48) * 10
    } else {
        (f[0] - 48) * 10 + (f[1] - 48)
    }
}

/// A decimal rank field, in hundredths: a whole part with an optional
/// point and one or two fractional digits, within range.
pub open spec fn parse_rank_field(s: Seq<u8>) -> Option<int> {
    let parts = split_at(s, DOT);
    if parts.len() == 1 {
        match parse_u64_field(parts[0]) {
            Some(v) => if v * 100 <= u64::MAX {
                Some(v * 100)
            } else {
                None
            },
            None => None,
        }
    } else if parts.len() == 2 && 1 <= parts[1].len() <= 2 && all_digits(parts[1]) {
        match parse_u64_field(parts[0]) {
            Some(v) => if v * 100 + frac_val(parts[1]) <= u64::MAX {
                Some(v * 100 + frac_val(parts[1]))
            } else {
                None
            },
            None => None,
        }
    } else {
        None
    }
}

/// One line parsed: exactly three bar-separated fields with a well-formed
/// rank and time, or nothing.
pub open spec fn parse_line_spec(line: Seq<u8>) -> Option<HistoryModel> {
    let parts = split_at(line, SEP);
    if parts.len() == 3 {
        match (parse_rank_field(parts[1]), parse_u64_field(parts[2])) {
            (Some(r), Some(t)) => Some(HistoryModel { path: parts[0], rank: r, time: t }),
            _ => None,
        }
    } else {
        None
    }
}

/// The records of the well-formed lines, in order; malformed lines are
/// skipped.
pub open spec fn collect_records(lines: Seq<Seq<u8>>) -> Seq<HistoryModel>
    decreases lines.len(),
{
    if lines.len() == 0 {
        Seq::empty()
    } else {
        match parse_line_spec(lines[0]) {
            Some(m) => seq![m] + collect_records(lines.drop_first()),
            None => collect_records(lines.drop_first()),
        }
    }
}

/// The store read back from persisted text.
pub open spec fn parse_store_spec(data: Seq<u8>) -> Seq<HistoryModel> {
    collect_records(split_at(data, NL))
}

/// A record the persisted form can carry faithfully: no separator and no
/// newline in the path, both counters within machine range.
pub open spec fn persistable(m: HistoryModel) -> bool {
    &&& forall|i: int| 0 <= i < m.path.len() ==> m.path[i] != SEP && m.path[i] != NL
    &&& 0 <= m.rank <= u64::MAX
    &&& 0 <= m.time <= u64::MAX
}

/// A first separator position is unique.
proof fn lemma_first_sep_unique(s: Seq<u8>, sep: u8, j1: int, j2: int)
    requires
        first_sep_at(s, sep, j1),
        first_sep_at(s, sep, j2),
    ensures
        j1 == j2,
{
}

/// Splitting text that opens with a separator-free field and one
/// separator peels exactly that field off.
proof fn lemma_split_prepend(a: Seq<u8>, rest: Seq<u8>, sep: u8)
    requires
        forall|k: int| 0 <= k < a.len() ==> a[k] != sep,
    ensures
        split_at(a + seq![sep] + rest, sep) == seq![a] + split_at(rest, sep),
{
    let s = a + seq![sep] + rest;
    assert(s[a.len() as int] == sep);
    assert(forall|k: int| 0 <= k < a.len() ==> s[k] == a[k]);
    assert(first_sep_at(s, sep, a.len() as int));
    let j = choose|j: int| first_sep_at(s, sep, j);
    lemma_first_sep_unique(s, sep, j, a.len() as int);
    assert(s.take(j) =~= a);
    assert(s.skip(j + 1) =~= rest);
}

/// Splitting separator-free text yields that text as the one field.
proof fn lemma_split_whole(a: Seq<u8>, sep: u8)
    requires
        forall|k: int| 0 <= k < a.len() ==> a[k] != sep,
    ensures
        split_at(a, sep) == seq![a],
{
    assert(forall|j: int| !first_sep_at(a, sep, j));
}

/// Split a byte string into its separator-delimited fields.
pub fn split_bytes(data: &Vec<u8>, sep: u8) -> (parts: Vec<Vec<u8>>)
    ensures
        views_of(parts@) == split_at(data@, sep),
{
    let mut parts: Vec<Vec<u8>> = Vec::new();
    let mut cur: Vec<u8> = Vec::new();
    let mut i: usize = 0;
    assert(cur@ + data@.skip(0) =~= data@);
    while i < data.len()
        invariant
            i <= data@.len(),
            forall|k: int| 0 <= k < cur@.len() ==> cur@[k] != sep,
            split_at(data@, sep) == views_of(parts@) + split_at(cur@ + data@.skip(i as int), sep),
        decreases data@.len() - i,
    {
        let ghost pv = views_of(parts@);
        let ghost cv = cur@;
        let b: u8 = data[i];
        if b == sep {
            proof {
                assert(cv + data@.skip(i as int) =~= cv + seq![sep] + data@.skip(i + 1));
                lemma_split_prepend(cv, data@.skip(i + 1), sep);
            }
            parts.push(cur);
            cur = Vec::new();
            proof {
                assert(views_of(parts@) =~= pv.push(cv));
                assert(pv.push(cv) =~= pv + seq![cv]);
                assert((pv + seq![cv]) + split_at(data@.skip(i + 1), sep) =~= pv + (seq![cv]
                    + split_at(data@.skip(i + 1), sep)));
                assert(cur@ + data@.skip(i + 1) =~= data@.skip(i + 1));
            }
        } else {
            cur.push(b);
            assert(cur@ + data@.skip(i + 1) =~= cv + data@.skip(i as int));
        }
        i = i + 1;
    }
    proof {
        assert(cur@ + data@.skip(data@.len() as int) =~= cur@);
        lemma_split_whole(cur@, sep);
    }
    let ghost pv = views_of(parts@);
    let ghost cv = cur@;
    parts.push(cur);
    proof {
        assert(views_of(parts@) =~= pv.push(cv));
        assert(pv.push(cv) =~= pv + seq![cv]);
    }
    parts
}

/// A number's digit string: at least one byte, all of them digits.
proof fn lemma_digits_of_wf(n: int)
    requires
        n >= 0,
    ensures
        digits_of(n).len() >= 1,
        all_digits(digits_of(n)),
    decreases n,
{
    if n < 10 {
    } else {
        lemma_digits_of_wf(n / 10);
        assert forall|i: int| 0 <= i < digits_of(n).len() implies is_digit(digits_of(n)[i]) by {
            if i < digits_of(n / 10).len() {
                assert(digits_of(n)[i] == digits_of(n / 10)[i]);
            } else {
                assert(digits_of(n)[i] == (48 + n % 10) as u8);
            }
        }
    }
}

/// Reading a digit string back gives the number it was written from.
proof fn lemma_digits_roundtrip(n: int)
    requires
        n >= 0,
    ensures
        digits_val(digits_of(n)) == n,
    decreases n,
{
    if n < 10 {
        assert(seq![(48 + n) as u8].drop_last() =~= Seq::<u8>::empty());
        assert(digits_val(Seq::<u8>::empty()) == 0);
    } else {
        lemma_digits_roundtrip(n / 10);
        let s = digits_of(n);
        assert(s == digits_of(n / 10).push((48 + n % 10) as u8));
        assert(s.len() == digits_of(n / 10).len() + 1);
        assert(s.drop_last() =~= digits_of(n / 10));
        assert(s.last() == (48 + n % 10) as u8);
        assert(digits_val(s) == digits_val(s.drop_last()) * 10 + (s.last() - 48));
        assert(digits_val(s.drop_last()) == n / 10);
        assert(s.last() - 48 == n % 10);
        vstd::arithmetic::div_mod::lemma_fundamental_div_mod(n, 10);
    }
}

/// A digit string's value is non-negative.
proof fn lemma_digits_val_nonneg(s: Seq<u8>)
    requires
        all_digits(s),
    ensures
        digits_val(s) >= 0,
    decreases s.len(),
{
    if s.len() > 0 {
        assert forall|i: int| 0 <= i < s.drop_last().len() implies is_digit(s.drop_last()[i]) by {
            assert(s.drop_last()[i] == s[i]);
        }
        lemma_digits_val_nonneg(s.drop_last());
        assert(is_digit(s.last()));
    }
}

/// One more digit multiplies the prefix value by ten and adds the digit.
proof fn lemma_digits_val_take_step(s: Seq<u8>, i: int)
    requires
        0 <= i < s.len(),
    ensures
        digits_val(s.take(i + 1)) == digits_val(s.take(i)) * 10 + (s[i] - 48),
{
    assert(s.take(i + 1).drop_last() =~= s.take(i));
    assert(s.take(i + 1).last() == s[i]);
}

/// A digit string is worth at least any of its prefixes.
proof fn lemma_digits_val_prefix_le(s: Seq<u8>, i: int)
    requires
        all_digits(s),
        0 <= i <= s.len(),
    ensures
        digits_val(s.take(i)) <= digits_val(s),
    decreases s.len() - i,
{
    if i == s.len() {
        assert(s.take(i) =~= s);
    } else {
        lemma_digits_val_take_step(s, i);
        assert forall|k: int| 0 <= k < s.take(i).len() implies is_digit(s.take(i)[k]) by {
            assert(s.take(i)[k] == s[k]);
        }
        lemma_digits_val_nonneg(s.take(i));
        assert(is_digit(s[i]));
        lemma_digits_val_prefix_le(s, i + 1);
    }
}

/// Parse a decimal u64 field: non-empty, all digits, within range.
pub fn parse_u64_bytes(s: &Vec<u8>) -> (r: Option<u64>)
    ensures
        match r {
            Some(v) => parse_u64_field(s@) == Some(v as int),
            None => parse_u64_field(s@) is None,
        },
{
    if s.len() == 0 {
        return None;
    }
    let mut val: u64 = 0;
    let mut i: usize = 0;
    while i < s.len()
        invariant
            i <= s@.len(),
            all_digits(s@.take(i as int)),
            val == digits_val(s@.take(i as int)),
        decreases s@.len() - i,
    {
        let b: u8 = s[i];
        proof {
            lemma_digits_val_take_step(s@, i as int);
        }
        if b < 48 || b > 57 {
            assert(!all_digits(s@));
            return None;
        }
        let d: u64 = (b - 48) as u64;
        let lim: u64 = (u64::MAX - d) / 10;
        assert(lim * 10 <= u64::MAX - d) by (nonlinear_arith)
            requires
                lim == (u64::MAX - d) / 10,
                d <= 9,
        ;
        if val > lim {
            proof {
                assert(val * 10 + d > u64::MAX) by (nonlinear_arith)
                    requires
                        val > lim,
                        lim == (u64::MAX - d) / 10,
                        d <= 9,
                ;
                if all_digits(s@) {
                    lemma_digits_val_prefix_le(s@, i + 1);
                }
            }
            return None;
        }
        assert(all_digits(s@.take(i + 1))) by {
            assert forall|k: int| 0 <= k < i + 1 implies is_digit(#[trigger] s@.take(i + 1)[k]) by {
                if k < i {
                    assert(s@.take(i + 1)[k] == s@.take(i as int)[k]);
                } else {
                    assert(s@.take(i + 1)[k] == b);
                }
            }
        }
        val = val * 10 + d;
        i = i + 1;
    }
    assert(s@.take(s@.len() as int) =~= s@);
    Some(val)
}

/// Parse a decimal rank field into hundredths: a whole part and at most
/// two fractional digits.
pub fn parse_rank_bytes(s: &Vec<u8>) -> (r: Option<u64>)
    ensures
        match r {
            Some(v) => parse_rank_field(s@) == Some(v as int),
            None => parse_rank_field(s@) is None,
        },
{
    let parts = split_bytes(s, DOT);
    let ghost spec_parts = split_at(s@, DOT);
    assert(spec_parts.len() == parts@.len());
    if parts.len() == 1 {
        assert(spec_parts[0] == parts@[0]@);
        match parse_u64_bytes(&parts[0]) {
            Some(v) => {
                let lim: u64 = u64::MAX / 100;
                assert(lim * 100 <= u64::MAX && u64::MAX < lim * 100 + 100) by (nonlinear_arith)
                    requires
                        lim == u64::MAX / 100,
                ;
                if v <= lim {
                    Some(v * 100)
                } else {
                    None
                }
            },
            None => None,
        }
    } else if parts.len() == 2 {
        assert(spec_parts[0] == parts@[0]@);
        assert(spec_parts[1] == parts@[1]@);
        let flen = parts[1].len();
        if flen == 0 || flen > 2 {
            return None;
        }
        let f0: u8 = parts[1][0];
        if f0 < 48 || f0 > 57 {
            assert(!all_digits(spec_parts[1]));
            return None;
        }
        let mut fv: u64 = (f0 - 48) as u64 * 10;
        if flen == 2 {
            let f1: u8 = parts[1][1];
            if f1 < 48 || f1 > 57 {
                assert(!all_digits(spec_parts[1]));
                return None;
            }
            fv = fv + (f1 - 48) as u64;
        }
        assert(all_digits(spec_parts[1]));
        assert(fv == frac_val(spec_parts[1]));
        match parse_u64_bytes(&parts[0]) {
            Some(v) => {
                let big: u128 = (v as u128) * 100 + (fv as u128);
                if big <= u64::MAX as u128 {
                    Some(big as u64)
                } else {
                    None
                }
            },
            None => None,
        }
    } else {
        None
    }
}

/// Parse one line: exactly three bar-separated fields with a well-formed
/// rank and time.
pub fn parse_line_bytes(line: &Vec<u8>) -> (r: Option<History>)
    ensures
        match r {
            Some(h) => parse_line_spec(line@) == Some(h@),
            None => parse_line_spec(line@) is None,
        },
{
    let parts = split_bytes(line, SEP);
    let ghost spec_parts = split_at(line@, SEP);
    assert(spec_parts.len() == parts@.len());
    if parts.len() != 3 {
        return None;
    }
    assert(spec_parts[0] == parts@[0]@);
    assert(spec_parts[1] == parts@[1]@);
    assert(spec_parts[2] == parts@[2]@);
    let rank = match parse_rank_bytes(&parts[1]) {
        Some(v) => v,
        None => {
            return None;
        },
    };
    let time = match parse_u64_bytes(&parts[2]) {
        Some(v) => v,
        None => {
            return None;
        },
    };
    let path = copy_bytes(&parts[0]);
    Some(History { path, rank, time })
}

/// Read a persisted store back: well-formed lines in order, malformed
/// lines skipped.
pub fn parse_store(data: &Vec<u8>) -> (res: Vec<History>)
    ensures
        store_view(res@) == parse_store_spec(data@),
{
    let lines = split_bytes(data, NL);
    let ghost lv = views_of(lines@);
    let mut out: Vec<History> = Vec::new();
    let mut i: usize = 0;
    assert(lv.skip(0) =~= lv);
    assert(store_view(out@) + collect_records(lv) =~= collect_records(lv));
    while i < lines.len()
        invariant
            i <= lines@.len(),
            lv == views_of(lines@),
            store_view(out@) + collect_records(lv.skip(i as int)) == collect_records(lv),
        decreases lines@.len() - i,
    {
        let ghost prev = store_view(out@);
        let ghost rest = lv.skip(i as int);
        proof {
            assert(rest[0] == lv[i as int]);
            assert(lv[i as int] == lines@[i as int]@);
            assert(rest.drop_first() =~= lv.skip(i + 1));
        }
        match parse_line_bytes(&lines[i]) {
            Some(h) => {
                out.push(h);
                proof {
                    assert(store_view(out@) =~= prev.push(h@));
                    assert(prev.push(h@) =~= prev + seq![h@]);
                    assert((prev + seq![h@]) + collect_records(lv.skip(i + 1)) =~= prev + (seq![
                        h@,
                    ] + collect_records(lv.skip(i + 1))));
                }
            },
            None => {},
        }
        i = i + 1;
    }
    proof {
        assert(lv.skip(lv.len() as int) =~= Seq::<Seq<u8>>::empty());
        assert(store_view(out@) + collect_records(lv.skip(lv.len() as int)) =~= store_view(out@));
    }
    out
}

/// Append the decimal digits of a number.
fn write_u64(out: &mut Vec<u8>, n: u64)
    ensures
        final(out)@ == old(out)@ + digits_of(n as int),
    decreases n,
{
    if n < 10 {
        out.push(48 + n as u8);
        assert(out@ =~= old(out)@ + digits_of(n as int));
    } else {
        write_u64(out, n / 10);
        out.push(48 + (n % 10) as u8);
        assert(out@ =~= old(out)@ + digits_of(n as int));
    }
}

/// Append one record's line, newline-terminated.
fn write_line(out: &mut Vec<u8>, h: &History)
    ensures
        final(out)@ == old(out)@ + line_body(h@) + seq![NL],
{
    let ghost base = out@;
    let mut i: usize = 0;
    while i < h.path.len()
        invariant
            i <= h.path@.len(),
            out@ == base + h.path@.take(i as int),
        decreases h.path@.len() - i,
    {
        out.push(h.path[i]);
        assert(out@ =~= base + h.path@.take(i + 1));
        i = i + 1;
    }
    assert(h.path@.take(h.path@.len() as int) =~= h.path@);
    out.push(SEP);
    write_u64(out, h.rank / 100);
    out.push(DOT);
    let frac: u64 = h.rank % 100;
    out.push(48 + (frac / 10) as u8);
    out.push(48 + (frac % 10) as u8);
    out.push(SEP);
    write_u64(out, h.time);
    out.push(NL);
    assert(out@ =~= base + line_body(h@) + seq![NL]);
}

/// Write the whole store in its persisted form.
pub fn serialize_store(store: &Vec<History>) -> (out: Vec<u8>)
    ensures
        out@ == store_text(store_view(store@)),
{
    let ghost sv = store_view(store@);
    let mut out: Vec<u8> = Vec::new();
    let mut i: usize = 0;
    assert(sv.skip(0) =~= sv);
    assert(out@ + store_text(sv) =~= store_text(sv));
    while i < store.len()
        invariant
            i <= store@.len(),
            sv == store_view(store@),
            out@ + store_text(sv.skip(i as int)) == store_text(sv),
        decreases store@.len() - i,
    {
        let ghost prev = out@;
        let ghost rest = sv.skip(i as int);
        proof {
            assert(rest[0] == sv[i as int]);
            assert(sv[i as int] == store@[i as int]@);
            assert(rest.drop_first() =~= sv.skip(i + 1));
        }
        write_line(&mut out, &store[i]);
        proof {
            assert(out@ + store_text(sv.skip(i + 1)) =~= prev + (line_body(sv[i as int]) + seq![
                NL,
            ] + store_text(sv.skip(i + 1))));
        }
        i = i + 1;
    }
    proof {
        assert(sv.skip(sv.len() as int) =~= Seq::<HistoryModel>::empty());
        assert(out@ + store_text(sv.skip(sv.len() as int)) =~= out@);
    }
    out
}

/// Every byte of a rank's text is a digit or the decimal point.
proof fn lemma_rank_text_bytes(r: int)
    requires
        r >= 0,
    ensures
        forall|k: int|
            0 <= k < rank_text(r).len() ==> (is_digit(#[trigger] rank_text(r)[k]) || rank_text(
                r,
            )[k] == DOT),
{
    lemma_digits_of_wf(r / 100);
    let ip = digits_of(r / 100);
    let rt = rank_text(r);
    assert forall|k: int| 0 <= k < rt.len() implies (is_digit(#[trigger] rt[k]) || rt[k]
        == DOT) by {
        if k < ip.len() {
            assert(rt[k] == ip[k]);
        } else if k == ip.len() {
            assert(rt[k] == DOT);
        } else if k == ip.len() + 1 {
            assert(rt[k] == (48 + (r % 100) / 10) as u8);
        } else {
            assert(rt[k] == (48 + (r % 100) % 10) as u8);
        }
    }
}

/// A rank's text parses back to the rank it was written from.
proof fn lemma_rank_text_roundtrip(r: int)
    requires
        0 <= r <= u64::MAX,
    ensures
        parse_rank_field(rank_text(r)) == Some(r),
{
    let ip = digits_of(r / 100);
    let f = seq![(48 + (r % 100) / 10) as u8, (48 + (r % 100) % 10) as u8];
    lemma_digits_of_wf(r / 100);
    lemma_digits_roundtrip(r / 100);
    assert(forall|k: int| 0 <= k < ip.len() ==> ip[k] != DOT);
    assert(forall|k: int| 0 <= k < f.len() ==> f[k] != DOT);
    assert(rank_text(r) =~= ip + seq![DOT] + f);
    lemma_split_prepend(ip, f, DOT);
    lemma_split_whole(f, DOT);
    let parts = split_at(rank_text(r), DOT);
    assert(parts =~= seq![ip, f]);
    assert(parts[0] == ip && parts[1] == f);
    assert(all_digits(f));
    assert(parse_u64_field(ip) == Some(r / 100));
    vstd::arithmetic::div_mod::lemma_fundamental_div_mod(r, 100);
    vstd::arithmetic::div_mod::lemma_fundamental_div_mod(r % 100, 10);
    assert(frac_val(f) == r % 100);
    assert((r / 100) * 100 + frac_val(f) == r);
}

/// A persistable record's line parses back to that record.
proof fn lemma_line_roundtrip(m: HistoryModel)
    requires
        persistable(m),
    ensures
        parse_line_spec(line_body(m)) == Some(m),
{
    let rt = rank_text(m.rank);
    let tt = digits_of(m.time);
    lemma_rank_text_bytes(m.rank);
    lemma_digits_of_wf(m.time);
    lemma_digits_roundtrip(m.time);
    assert(forall|k: int| 0 <= k < rt.len() ==> rt[k] != SEP);
    assert(forall|k: int| 0 <= k < tt.len() ==> tt[k] != SEP);
    assert(line_body(m) =~= m.path + seq![SEP] + (rt + seq![SEP] + tt));
    lemma_split_prepend(m.path, rt + seq![SEP] + tt, SEP);
    lemma_split_prepend(rt, tt, SEP);
    lemma_split_whole(tt, SEP);
    let parts = split_at(line_body(m), SEP);
    assert(parts =~= seq![m.path, rt, tt]);
    assert(parts[0] == m.path && parts[1] == rt && parts[2] == tt);
    lemma_rank_text_roundtrip(m.rank);
    assert(parse_u64_field(tt) == Some(m.time));
    assert(parse_line_spec(line_body(m)) == Some(HistoryModel { path: m.path, rank: m.rank, time: m.time }));
}

/// No byte of a persistable record's line is a newline.
proof fn lemma_line_body_no_nl(m: HistoryModel)
    requires
        persistable(m),
    ensures
        forall|k: int| 0 <= k < line_body(m).len() ==> #[trigger] line_body(m)[k] != NL,
{
    let rt = rank_text(m.rank);
    let tt = digits_of(m.time);
    lemma_rank_text_bytes(m.rank);
    lemma_digits_of_wf(m.time);
    let lb = line_body(m);
    assert forall|k: int| 0 <= k < lb.len() implies #[trigger] lb[k] != NL by {
        let p = m.path.len() as int;
        if k < p {
            assert(lb[k] == m.path[k]);
        } else if k == p {
            assert(lb[k] == SEP);
        } else if k < p + 1 + rt.len() {
            assert(lb[k] == rt[k - p - 1]);
        } else if k == p + 1 + rt.len() {
            assert(lb[k] == SEP);
        } else {
            assert(lb[k] == tt[k - p - 2 - rt.len()]);
        }
    }
}

/// The round trip: a store of persistable records, written out and read
/// back, is the same store.
pub proof fn lemma_store_roundtrip(s: Seq<HistoryModel>)
    requires
        forall|i: int| 0 <= i < s.len() ==> persistable(#[trigger] s[i]),
    ensures
        parse_store_spec(store_text(s)) == s,
    decreases s.len(),
{
    if s.len() == 0 {
        lemma_split_whole(Seq::<u8>::empty(), NL);
        lemma_split_whole(Seq::<u8>::empty(), SEP);
        assert(store_text(s) == Seq::<u8>::empty());
        let lines = split_at(store_text(s), NL);
        assert(lines == seq![Seq::<u8>::empty()]);
        assert(lines[0] == Seq::<u8>::empty());
        assert(split_at(lines[0], SEP).len() == 1);
        assert(parse_line_spec(lines[0]) is None);
        assert(lines.drop_first() =~= Seq::<Seq<u8>>::empty());
        assert(collect_records(lines.drop_first()) == Seq::<HistoryModel>::empty());
        assert(parse_store_spec(store_text(s)) =~= s);
    } else {
        let m = s[0];
        let lb = line_body(m);
        lemma_line_body_no_nl(m);
        lemma_line_roundtrip(m);
        assert forall|i: int| 0 <= i < s.drop_first().len() implies persistable(
            #[trigger] s.drop_first()[i],
        ) by {
            assert(s.drop_first()[i] == s[i + 1]);
        }
        lemma_store_roundtrip(s.drop_first());
        lemma_split_prepend(lb, store_text(s.drop_first()), NL);
        assert(store_text(s) =~= lb + seq![NL] + store_text(s.drop_first()));
        let lines = split_at(store_text(s), NL);
        assert(lines =~= seq![lb] + split_at(store_text(s.drop_first()), NL));
        assert(lines[0] == lb);
        assert(lines.drop_first() =~= split_at(store_text(s.drop_first()), NL));
        assert(collect_records(lines) =~= seq![m] + s.drop_first());
        assert(seq![m] + s.drop_first() =~= s);
    }
}

} // verus!
