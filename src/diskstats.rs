use vstd::prelude::*;

use crate::snapshot::capped;

verus! {

/// The pieces of `s` between occurrences of `sep`: one more piece than
/// there are separators, empty pieces included.
pub open spec fn pieces(s: Seq<u8>, sep: u8) -> Seq<Seq<u8>>
    decreases s.len(),
{
    if s.len() == 0 {
        seq![Seq::<u8>::empty()]
    } else {
        let p = pieces(s.drop_last(), sep);
        if s.last() == sep {
            p.push(Seq::<u8>::empty())
        } else {
            p.update(p.len() - 1, p.last().push(s.last()))
        }
    }
}

/// ASCII white space.
pub open spec fn is_blank(b: u8) -> bool {
    b == 32 || b == 9 || b == 10 || b == 13 || b == 11 || b == 12
}

/// The words of `s` read so far and the word in progress.
pub open spec fn word_scan(s: Seq<u8>) -> (Seq<Seq<u8>>, Seq<u8>)
    decreases s.len(),
{
    if s.len() == 0 {
        (Seq::empty(), Seq::empty())
    } else {
        let (done, cur) = word_scan(s.drop_last());
        if is_blank(s.last()) {
            if cur.len() > 0 {
                (done.push(cur), Seq::empty())
            } else {
                (done, Seq::empty())
            }
        } else {
            (done, cur.push(s.last()))
        }
    }
}

/// The maximal runs of non-blank bytes of `s`, in order.
pub open spec fn words_of(s: Seq<u8>) -> Seq<Seq<u8>> {
    let (done, cur) = word_scan(s);
    if cur.len() > 0 {
        done.push(cur)
    } else {
        done
    }
}

pub open spec fn is_digit(b: u8) -> bool {
    48 <= b <= 57
}

/// The value of a run of decimal digits.
pub open spec fn digits_value(d: Seq<u8>) -> nat
    decreases d.len(),
{
    if d.len() == 0 {
        0
    } else {
        digits_value(d.drop_last()) * 10 + (d.last() - 48) as nat
    }
}

/// A field without its leading `+`, if any.
pub open spec fn unsigned_part(f: Seq<u8>) -> Seq<u8> {
    if f.len() > 0 && f[0] == 43 {
        f.drop_first()
    } else {
        f
    }
}

/// A field read as a `u64` the way `str::parse` reads one: an optional `+`,
/// then one or more decimal digits, with a value that fits.
pub open spec fn parse_u64(f: Seq<u8>) -> Option<u64> {
    let d = unsigned_part(f);
    if d.len() > 0 && (forall|i: int| 0 <= i < d.len() ==> is_digit(#[trigger] d[i]))
        && digits_value(d) <= u64::MAX {
        Some(digits_value(d) as u64)
    } else {
        None
    }
}

pub open spec fn starts_with(s: Seq<u8>, p: Seq<u8>) -> bool {
    p.len() <= s.len() && s.take(p.len() as int) == p
}

/// A whole device, not a partition: `sd*` or `vd*` not ending in a digit,
/// or an `nvme` namespace without a partition suffix.
pub open spec fn is_physical(name: Seq<u8>) -> bool {
    let ends_in_digit = name.len() > 0 && is_digit(name.last());
    ||| starts_with(name, seq![115u8, 100u8]) && !ends_in_digit
    ||| starts_with(name, seq![118u8, 100u8]) && !ends_in_digit
    ||| starts_with(name, seq![110u8, 118u8, 109u8, 101u8]) && name.contains(110u8)
        && !name.contains(112u8)
}

/// The sectors read and written that one line of the statistics counts:
/// those of a whole device whose line has at least fourteen fields and
/// readable counters in its sixth and tenth; nothing otherwise.
pub open spec fn line_sectors(line: Seq<u8>) -> (nat, nat) {
    let w = words_of(line);
    if w.len() >= 14 && is_physical(w[2]) && parse_u64(w[5]) is Some && parse_u64(w[9]) is Some {
        (parse_u64(w[5])->0 as nat, parse_u64(w[9])->0 as nat)
    } else {
        (0, 0)
    }
}

/// The sum of the sectors read (`read`) or written over the lines.
pub open spec fn sectors_sum(lines: Seq<Seq<u8>>, read: bool) -> int
    decreases lines.len(),
{
    if lines.len() == 0 {
        0
    } else {
        let (r, w) = line_sectors(lines.last());
        sectors_sum(lines.drop_last(), read) + if read {
            r as int
        } else {
            w as int
        }
    }
}

fn is_blank_byte(b: u8) -> (r: bool)
    ensures
        r == is_blank(b),
{
    b == 32 || b == 9 || b == 10 || b == 13 || b == 11 || b == 12
}

/// Splits a line into its words.
pub fn split_words(line: &Vec<u8>) -> (r: Vec<Vec<u8>>)
    ensures
        r@.len() == words_of(line@).len(),
        forall|k: int| 0 <= k < r@.len() ==> (#[trigger] r@[k])@ == words_of(line@)[k],
{
    let mut done: Vec<Vec<u8>> = Vec::new();
    let mut cur: Vec<u8> = Vec::new();
    let mut i: usize = 0;
    while i < line.len()
        invariant
            i <= line@.len(),
            done@.len() == word_scan(line@.take(i as int)).0.len(),
            forall|k: int|
                0 <= k < done@.len() ==> (#[trigger] done@[k])@ == word_scan(line@.take(i as int)).0[k],
            cur@ == word_scan(line@.take(i as int)).1,
        decreases line@.len() - i,
    {
        assert(line@.take(i + 1).drop_last() =~= line@.take(i as int));
        let b = line[i];
        if is_blank_byte(b) {
            if cur.len() > 0 {
                let word = cur;
                done.push(word);
                cur = Vec::new();
            }
        } else {
            cur.push(b);
        }
        i = i + 1;
    }
    assert(line@.take(line@.len() as int) =~= line@);
    if cur.len() > 0 {
        done.push(cur);
    }
    done
}

proof fn lemma_digits_value_grows(d: Seq<u8>, i: int)
    requires
        0 <= i <= d.len(),
    ensures
        digits_value(d.take(i)) <= digits_value(d),
    decreases d.len() - i,
{
    if i < d.len() {
        lemma_digits_value_grows(d, i + 1);
        assert(d.take(i + 1).drop_last() =~= d.take(i));
    } else {
        assert(d.take(i) =~= d);
    }
}

/// Reads a field as a `u64`: an optional `+` and decimal digits that fit.
pub fn parse_field(f: &Vec<u8>) -> (r: Option<u64>)
    ensures
        r == parse_u64(f@),
{
    let start: usize = if f.len() > 0 && f[0] == 43 {
        1
    } else {
        0
    };
    let ghost d = unsigned_part(f@);
    assert(d =~= f@.skip(start as int));
    if start >= f.len() {
        return None;
    }
    let mut acc: u64 = 0;
    let mut i: usize = start;
    while i < f.len()
        invariant
            start <= i <= f@.len(),
            d == f@.skip(start as int),
            d == unsigned_part(f@),
            acc == digits_value(d.take(i - start)),
            forall|k: int| 0 <= k < i - start ==> is_digit(#[trigger] d[k]),
        decreases f@.len() - i,
    {
        assert(d.take(i + 1 - start).drop_last() =~= d.take(i - start));
        let b = f[i];
        assert(d[i - start] == b);
        if b < 48 || b > 57 {
            assert(!is_digit(d[i - start]));
            assert(!(forall|k: int| 0 <= k < d.len() ==> is_digit(#[trigger] d[k])));
            assert(parse_u64(f@) is None);
            return None;
        }
        let digit = (b - 48) as u64;
        if acc > (u64::MAX - digit) / 10 {
            assert(acc * 10 + digit > u64::MAX) by (nonlinear_arith)
                requires
                    acc > (u64::MAX - digit) / 10,
                    digit <= 9,
            ;
            proof {
                lemma_digits_value_grows(d, i + 1 - start);
                assert(d.take(i + 1 - start).last() == b);
                assert(digits_value(d.take(i + 1 - start)) == acc * 10 + digit);
                assert(parse_u64(f@) is None);
            }
            return None;
        }
        assert(acc * 10 + digit <= u64::MAX) by (nonlinear_arith)
            requires
                acc <= (u64::MAX - digit) / 10,
                digit <= 9,
        ;
        assert(d.take(i + 1 - start).last() == b);
        acc = acc * 10 + digit;
        i = i + 1;
    }
    assert(d.take(f@.len() - start) =~= d);
    Some(acc)
}

fn starts_with_bytes(s: &Vec<u8>, p: &[u8]) -> (r: bool)
    ensures
        r == starts_with(s@, p@),
{
    if p.len() > s.len() {
        return false;
    }
    let mut i: usize = 0;
    while i < p.len()
        invariant
            p@.len() <= s@.len(),
            i <= p@.len(),
            forall|k: int| 0 <= k < i ==> s@[k] == p@[k],
        decreases p@.len() - i,
    {
        if s[i] != p[i] {
            assert(s@.take(p@.len() as int)[i as int] != p@[i as int]);
            return false;
        }
        i = i + 1;
    }
    assert(s@.take(p@.len() as int) =~= p@);
    true
}

fn contains_byte(s: &Vec<u8>, b: u8) -> (r: bool)
    ensures
        r == s@.contains(b),
{
    let mut i: usize = 0;
    while i < s.len()
        invariant
            i <= s@.len(),
            forall|k: int| 0 <= k < i ==> s@[k] != b,
        decreases s@.len() - i,
    {
        if s[i] == b {
            return true;
        }
        i = i + 1;
    }
    false
}

/// Whether a device name names a whole device.
pub fn physical_device(name: &Vec<u8>) -> (r: bool)
    ensures
        r == is_physical(name@),
{
    let ends_in_digit = name.len() > 0 && name[name.len() - 1] >= 48 && name[name.len() - 1] <= 57;
    let sd: [u8; 2] = [115, 100];
    let vd: [u8; 2] = [118, 100];
    let nvme: [u8; 4] = [110, 118, 109, 101];
    assert(sd@ =~= seq![115u8, 100u8]);
    assert(vd@ =~= seq![118u8, 100u8]);
    assert(nvme@ =~= seq![110u8, 118u8, 109u8, 101u8]);
    (starts_with_bytes(name, sd.as_slice()) && !ends_in_digit) || (starts_with_bytes(
        name,
        vd.as_slice(),
    ) && !ends_in_digit) || (starts_with_bytes(name, nvme.as_slice()) && contains_byte(name, 110)
        && !contains_byte(name, 112))
}

/// The sectors read and written that one line of the statistics counts.
pub fn line_counts(line: &Vec<u8>) -> (r: (u64, u64))
    ensures
        r.0 as nat == line_sectors(line@).0,
        r.1 as nat == line_sectors(line@).1,
{
    let words = split_words(line);
    if words.len() >= 14 && physical_device(&words[2]) {
        match (parse_field(&words[5]), parse_field(&words[9])) {
            (Some(r), Some(w)) => (r, w),
            _ => (0, 0),
        }
    } else {
        (0, 0)
    }
}

/// The total sectors read and written by whole devices in the text of
/// `/proc/diskstats`, each held at the largest `u64`.
pub fn disk_io_totals(content: &[u8]) -> (r: (u64, u64))
    ensures
        r.0 == capped(sectors_sum(pieces(content@, 10), true)),
        r.1 == capped(sectors_sum(pieces(content@, 10), false)),
{
    let mut read: u64 = 0;
    let mut written: u64 = 0;
    let mut line: Vec<u8> = Vec::new();
    let ghost mut done: Seq<Seq<u8>> = Seq::empty();
    let mut i: usize = 0;
    while i < content.len()
        invariant
            i <= content@.len(),
            pieces(content@.take(i as int), 10) == done.push(line@),
            read == capped(sectors_sum(done, true)),
            written == capped(sectors_sum(done, false)),
            sectors_sum(done, true) >= 0,
            sectors_sum(done, false) >= 0,
        decreases content@.len() - i,
    {
        assert(content@.take(i + 1).drop_last() =~= content@.take(i as int));
        let b = content[i];
        if b == 10 {
            let (r, w) = line_counts(&line);
            read = read.saturating_add(r);
            written = written.saturating_add(w);
            proof {
                assert(done.push(line@).drop_last() =~= done);
                done = done.push(line@);
            }
            line = Vec::new();
            assert(pieces(content@.take(i + 1), 10) =~= done.push(line@));
        } else {
            line.push(b);
            assert(pieces(content@.take(i + 1), 10) =~= done.push(line@));
        }
        i = i + 1;
    }
    assert(content@.take(content@.len() as int) =~= content@);
    let (r, w) = line_counts(&line);
    proof {
        assert(done.push(line@).drop_last() =~= done);
    }
    (read.saturating_add(r), written.saturating_add(w))
}

} // verus!
