//! Parser for the external GPU command's output: zero or more lines of
//! exactly six comma-separated fields `index, name, utilization%, memUsedMB,
//! memTotalMB, tempC`. A line with a different field count is skipped;
//! an unparsable numeric field defaults to zero; zero valid records mean
//! the GPU source is unavailable.

use vstd::prelude::*;
use crate::lemma_vec_deep_view;
use crate::ring::{zero_history, RingBuffer};
use crate::text::{dec_val, is_dec, parse_u64_range};

verus! {

/// One GPU reading. Utilization is in whole percent as the command reports
/// it, memory in MB, temperature in degrees Celsius. The whole list is
/// rebuilt from the command output every tick, so the history starts as a
/// fresh zero-filled window.
pub struct GpuInfo {
    pub name: String,
    pub usage: u32,
    pub mem_used_mb: u64,
    pub mem_total_mb: u64,
    pub temp_c: u32,
    pub history: RingBuffer,
}

/// The mathematical image of one GPU reading.
#[verifier::ext_equal]
pub ghost struct GpuView {
    pub name: Seq<char>,
    pub usage: u32,
    pub mem_used_mb: u64,
    pub mem_total_mb: u64,
    pub temp_c: u32,
    pub history: Seq<u64>,
}

impl View for GpuInfo {
    type V = GpuView;

    open spec fn view(&self) -> GpuView {
        GpuView {
            name: self.name@,
            usage: self.usage,
            mem_used_mb: self.mem_used_mb,
            mem_total_mb: self.mem_total_mb,
            temp_c: self.temp_c,
            history: self.history@,
        }
    }
}

impl DeepView for GpuInfo {
    type V = GpuView;

    open spec fn deep_view(&self) -> GpuView {
        self@
    }
}

/// The fields of a record, before a history is attached.
#[verifier::ext_equal]
pub ghost struct GpuRec {
    pub name: Seq<char>,
    pub usage: u32,
    pub mem_used_mb: u64,
    pub mem_total_mb: u64,
    pub temp_c: u32,
}

/// Whitespace stripped from the ends of a field.
pub open spec fn is_field_space(c: char) -> bool {
    c == ' ' || c == '\t' || c == '\r'
}

/// A field with leading whitespace removed.
pub open spec fn trim_front(s: Seq<char>) -> Seq<char>
    decreases s.len(),
{
    if s.len() > 0 && is_field_space(s[0]) {
        trim_front(s.drop_first())
    } else {
        s
    }
}

/// A field with trailing whitespace removed.
pub open spec fn trim_back(s: Seq<char>) -> Seq<char>
    decreases s.len(),
{
    if s.len() > 0 && is_field_space(s.last()) {
        trim_back(s.drop_last())
    } else {
        s
    }
}

/// A field with whitespace removed from both ends.
pub open spec fn trim_spec(s: Seq<char>) -> Seq<char> {
    trim_back(trim_front(s))
}

/// The pieces of a text split at every occurrence of the separator; a
/// text without the separator is one piece, and every separator ends a
/// piece, so `n` separators give `n + 1` pieces.
pub open spec fn split_spec(s: Seq<char>, sep: char) -> Seq<Seq<char>>
    decreases s.len(),
{
    if s.len() == 0 {
        seq![s]
    } else if s[0] == sep {
        seq![Seq::<char>::empty()] + split_spec(s.drop_first(), sep)
    } else {
        let rest = split_spec(s.drop_first(), sep);
        rest.update(0, seq![s[0]] + rest[0])
    }
}

/// Splitting never yields zero pieces.
proof fn lemma_split_nonempty(s: Seq<char>, sep: char)
    ensures
        split_spec(s, sep).len() >= 1,
    decreases s.len(),
{
    if s.len() > 0 {
        lemma_split_nonempty(s.drop_first(), sep);
    }
}

/// Splitting at the first separator: the piece before it, then the pieces
/// of what follows it; a text without the separator is one piece.
proof fn lemma_split_first(s: Seq<char>, sep: char, i: int)
    requires
        0 <= i <= s.len(),
        forall|k: int| 0 <= k < i ==> s[k] != sep,
        i < s.len() ==> s[i] == sep,
    ensures
        i == s.len() ==> split_spec(s, sep) == seq![s],
        i < s.len() ==> split_spec(s, sep) == seq![s.take(i)] + split_spec(s.skip(i + 1), sep),
    decreases i,
{
    lemma_split_nonempty(s, sep);
    if i == 0 {
        if s.len() == 0 {
        } else if s[0] == sep {
            assert(s.take(0) =~= Seq::<char>::empty());
            assert(s.skip(1) =~= s.drop_first());
        }
    } else {
        lemma_split_first(s.drop_first(), sep, i - 1);
        lemma_split_nonempty(s.drop_first(), sep);
        let rest = split_spec(s.drop_first(), sep);
        if i == s.len() {
            assert(rest == seq![s.drop_first()]);
            assert(split_spec(s, sep) =~= seq![s]) by {
                assert(seq![s[0]] + s.drop_first() =~= s);
            }
        } else {
            assert(rest == seq![s.drop_first().take(i - 1)] + split_spec(
                s.drop_first().skip(i),
                sep,
            ));
            assert(s.drop_first().skip(i) =~= s.skip(i + 1));
            assert(seq![s[0]] + s.drop_first().take(i - 1) =~= s.take(i));
            assert(split_spec(s, sep) =~= seq![s.take(i)] + split_spec(s.skip(i + 1), sep));
        }
    }
}

/// Every piece trimmed.
pub open spec fn trim_all(fs: Seq<Seq<char>>) -> Seq<Seq<char>> {
    Seq::new(fs.len(), |i: int| trim_spec(fs[i]))
}

/// The value of a numeric field, zero when it is not a plain decimal
/// numeral that fits.
pub open spec fn num_u64(f: Seq<char>) -> u64 {
    if is_dec(f) && dec_val(f) <= u64::MAX {
        dec_val(f) as u64
    } else {
        0
    }
}

/// As [`num_u64`], with the narrower bound.
pub open spec fn num_u32(f: Seq<char>) -> u32 {
    if is_dec(f) && dec_val(f) <= u32::MAX {
        dec_val(f) as u32
    } else {
        0
    }
}

/// The record a line yields: its six trimmed fields, or nothing when the
/// field count differs.
pub open spec fn rec_of_line(line: Seq<char>) -> Option<GpuRec> {
    let fs = trim_all(split_spec(line, ','));
    if fs.len() == 6 {
        Some(
            GpuRec {
                name: fs[1],
                usage: num_u32(fs[2]),
                mem_used_mb: num_u64(fs[3]),
                mem_total_mb: num_u64(fs[4]),
                temp_c: num_u32(fs[5]),
            },
        )
    } else {
        None
    }
}

/// The records of a sequence of lines, in order, skipping lines that
/// yield none.
pub open spec fn recs_of_lines(lines: Seq<Seq<char>>) -> Seq<GpuRec>
    decreases lines.len(),
{
    if lines.len() == 0 {
        Seq::empty()
    } else {
        let rest = recs_of_lines(lines.drop_last());
        match rec_of_line(lines.last()) {
            Some(rec) => rest.push(rec),
            None => rest,
        }
    }
}

/// All records of the command output.
pub open spec fn gpu_records(text: Seq<char>) -> Seq<GpuRec> {
    recs_of_lines(split_spec(text, '\n'))
}

/// The readings built from the records, each with a fresh zero-filled
/// history window.
pub open spec fn gpu_views(recs: Seq<GpuRec>) -> Seq<GpuView> {
    Seq::new(
        recs.len(),
        |i: int|
            GpuView {
                name: recs[i].name,
                usage: recs[i].usage,
                mem_used_mb: recs[i].mem_used_mb,
                mem_total_mb: recs[i].mem_total_mb,
                temp_c: recs[i].temp_c,
                history: zero_history(),
            },
    )
}

/// Whether the character is stripped by field trimming.
fn is_space_char(c: char) -> (r: bool)
    ensures
        r == is_field_space(c),
{
    c == ' ' || c == '\t' || c == '\r'
}

/// The pieces of `s` between `from` and `to`, split at the separator, as
/// index ranges into `s`.
fn split_ranges(s: &str, from: usize, to: usize, sep: char) -> (r: Vec<(usize, usize)>)
    requires
        from <= to <= s@.len(),
    ensures
        ({
            let pieces = split_spec(s@.subrange(from as int, to as int), sep);
            &&& r@.len() == pieces.len()
            &&& forall|t: int|
                0 <= t < r@.len() ==> from <= (#[trigger] r@[t]).0 <= r@[t].1 <= to
            &&& forall|t: int|
                0 <= t < r@.len() ==> s@.subrange(
                    (#[trigger] r@[t]).0 as int,
                    r@[t].1 as int,
                ) == pieces[t]
        }),
{
    let ghost whole = s@.subrange(from as int, to as int);
    let mut out: Vec<(usize, usize)> = Vec::new();
    let mut p = from;
    let mut i = from;
    while i < to
        invariant
            from <= p <= i <= to <= s@.len(),
            whole == s@.subrange(from as int, to as int),
            forall|k: int| p <= k < i ==> s@[k] != sep,
            forall|t: int| 0 <= t < out@.len() ==> from <= (#[trigger] out@[t]).0 <= out@[t].1 <= to,
            split_spec(whole, sep) == Seq::new(
                out@.len(),
                |t: int| s@.subrange(out@[t].0 as int, out@[t].1 as int),
            ) + split_spec(s@.subrange(p as int, to as int), sep),
        decreases to - i,
    {
        let c = s.get_char(i);
        if c == sep {
            proof {
                let region = s@.subrange(p as int, to as int);
                lemma_split_first(region, sep, i - p);
                assert(region.take(i - p) =~= s@.subrange(p as int, i as int));
                assert(region.skip(i - p + 1) =~= s@.subrange(i + 1, to as int));
                let done = Seq::new(
                    out@.len(),
                    |t: int| s@.subrange(out@[t].0 as int, out@[t].1 as int),
                );
                let done2 = Seq::new(
                    out@.len() + 1,
                    |t: int|
                        s@.subrange(
                            out@.push((p, i))[t].0 as int,
                            out@.push((p, i))[t].1 as int,
                        ),
                );
                assert(done2 =~= done.push(s@.subrange(p as int, i as int)));
                assert(done + (seq![region.take(i - p)] + split_spec(region.skip(i - p + 1), sep))
                    =~= done2 + split_spec(s@.subrange(i + 1, to as int), sep));
            }
            out.push((p, i));
            p = i + 1;
        }
        i = i + 1;
    }
    proof {
        let region = s@.subrange(p as int, to as int);
        lemma_split_first(region, sep, region.len() as int);
        let done = Seq::new(out@.len(), |t: int| s@.subrange(out@[t].0 as int, out@[t].1 as int));
        let done2 = Seq::new(
            out@.len() + 1,
            |t: int| s@.subrange(out@.push((p, to))[t].0 as int, out@.push((p, to))[t].1 as int),
        );
        assert(done2 =~= done.push(region));
        assert(done + seq![region] =~= done2);
    }
    out.push((p, to));
    out
}

/// The start of the field `[a, b)` of `s` once leading whitespace is
/// skipped.
fn skip_space_front(s: &str, a: usize, b: usize) -> (lo: usize)
    requires
        a <= b <= s@.len(),
    ensures
        a <= lo <= b,
        trim_front(s@.subrange(a as int, b as int)) == s@.subrange(lo as int, b as int),
{
    let mut lo = a;
    loop
        invariant
            a <= lo <= b <= s@.len(),
            trim_front(s@.subrange(a as int, b as int)) == trim_front(
                s@.subrange(lo as int, b as int),
            ),
        decreases b - lo,
    {
        if lo == b {
            proof {
                assert(s@.subrange(lo as int, b as int).len() == 0);
            }
            return lo;
        }
        let c = s.get_char(lo);
        if !is_space_char(c) {
            proof {
                let cur = s@.subrange(lo as int, b as int);
                assert(!is_field_space(cur[0]));
            }
            return lo;
        }
        proof {
            let cur = s@.subrange(lo as int, b as int);
            assert(cur.drop_first() =~= s@.subrange(lo + 1, b as int));
        }
        lo = lo + 1;
    }
}

/// The end of the field `[a, b)` of `s` once trailing whitespace is
/// skipped.
fn skip_space_back(s: &str, a: usize, b: usize) -> (hi: usize)
    requires
        a <= b <= s@.len(),
    ensures
        a <= hi <= b,
        trim_back(s@.subrange(a as int, b as int)) == s@.subrange(a as int, hi as int),
{
    let mut hi = b;
    loop
        invariant
            a <= hi <= b <= s@.len(),
            trim_back(s@.subrange(a as int, b as int)) == trim_back(
                s@.subrange(a as int, hi as int),
            ),
        decreases hi - a,
    {
        if hi == a {
            proof {
                assert(s@.subrange(a as int, hi as int).len() == 0);
            }
            return hi;
        }
        let c = s.get_char(hi - 1);
        if !is_space_char(c) {
            proof {
                let cur = s@.subrange(a as int, hi as int);
                assert(!is_field_space(cur.last()));
            }
            return hi;
        }
        proof {
            let cur = s@.subrange(a as int, hi as int);
            assert(cur.drop_last() =~= s@.subrange(a as int, hi - 1));
        }
        hi = hi - 1;
    }
}

/// The trimmed extent of the field `[a, b)` of `s`.
fn trim_range(s: &str, a: usize, b: usize) -> (r: (usize, usize))
    requires
        a <= b <= s@.len(),
    ensures
        a <= r.0 <= r.1 <= b,
        s@.subrange(r.0 as int, r.1 as int) == trim_spec(s@.subrange(a as int, b as int)),
{
    let lo = skip_space_front(s, a, b);
    let hi = skip_space_back(s, lo, b);
    (lo, hi)
}

/// The value of the numeric field `[a, b)`, zero when unparsable.
fn parse_field_u64(s: &str, a: usize, b: usize) -> (r: u64)
    requires
        a <= b <= s@.len(),
    ensures
        r == num_u64(s@.subrange(a as int, b as int)),
{
    match parse_u64_range(s, a, b) {
        Some(v) => v,
        None => 0,
    }
}

/// The value of the numeric field `[a, b)`, zero when unparsable or too
/// large.
fn parse_field_u32(s: &str, a: usize, b: usize) -> (r: u32)
    requires
        a <= b <= s@.len(),
    ensures
        r == num_u32(s@.subrange(a as int, b as int)),
{
    match parse_u64_range(s, a, b) {
        Some(v) => {
            if v <= 0xFFFF_FFFF {
                v as u32
            } else {
                0
            }
        },
        None => 0,
    }
}

/// Parses one line of command output into a reading, or nothing when the
/// line does not have exactly six fields.
fn parse_line(s: &str, ls: usize, le: usize) -> (r: Option<GpuInfo>)
    requires
        ls <= le <= s@.len(),
    ensures
        ({
            let rec = rec_of_line(s@.subrange(ls as int, le as int));
            match r {
                Some(g) => rec is Some && g@ == GpuView {
                    name: rec->0.name,
                    usage: rec->0.usage,
                    mem_used_mb: rec->0.mem_used_mb,
                    mem_total_mb: rec->0.mem_total_mb,
                    temp_c: rec->0.temp_c,
                    history: zero_history(),
                },
                None => rec is None,
            }
        }),
{
    let ghost line = s@.subrange(ls as int, le as int);
    let fields = split_ranges(s, ls, le, ',');
    let ghost fseq = split_spec(line, ',');
    if fields.len() != 6 {
        return None;
    }
    let ghost trimmed = trim_all(fseq);
    let f1 = fields[1];
    let (na, nb) = trim_range(s, f1.0, f1.1);
    let name = s.substring_char(na, nb).to_owned();
    let f2 = fields[2];
    let (ua, ub) = trim_range(s, f2.0, f2.1);
    let usage = parse_field_u32(s, ua, ub);
    let f3 = fields[3];
    let (ma, mb) = trim_range(s, f3.0, f3.1);
    let mem_used_mb = parse_field_u64(s, ma, mb);
    let f4 = fields[4];
    let (ta, tb) = trim_range(s, f4.0, f4.1);
    let mem_total_mb = parse_field_u64(s, ta, tb);
    let f5 = fields[5];
    let (ca, cb) = trim_range(s, f5.0, f5.1);
    let temp_c = parse_field_u32(s, ca, cb);
    proof {
        assert(name@ == trimmed[1]);
        assert(s@.subrange(ua as int, ub as int) == trimmed[2]);
        assert(s@.subrange(ma as int, mb as int) == trimmed[3]);
        assert(s@.subrange(ta as int, tb as int) == trimmed[4]);
        assert(s@.subrange(ca as int, cb as int) == trimmed[5]);
    }
    Some(
        GpuInfo {
            name,
            usage,
            mem_used_mb,
            mem_total_mb,
            temp_c,
            history: RingBuffer::new(),
        },
    )
}

/// Parses the whole command output: the readings of all valid lines, or
/// nothing when no line is valid — the unavailable state.
pub fn parse_gpu_output(text: &str) -> (r: Option<Vec<GpuInfo>>)
    ensures
        r is None <==> gpu_records(text@).len() == 0,
        r matches Some(v) ==> v.deep_view() == gpu_views(gpu_records(text@)),
{
    let n = text.unicode_len();
    let lines = split_ranges(text, 0, n, '\n');
    let ghost lseq = split_spec(text@, '\n');
    proof {
        assert(text@.subrange(0, n as int) =~= text@);
    }
    let mut gpus: Vec<GpuInfo> = Vec::new();
    let mut li: usize = 0;
    while li < lines.len()
        invariant
            0 <= li <= lines@.len(),
            lines@.len() == lseq.len(),
            forall|t: int| 0 <= t < lines@.len() ==> (#[trigger] lines@[t]).0 <= lines@[t].1
                <= text@.len(),
            forall|t: int|
                0 <= t < lines@.len() ==> text@.subrange(
                    (#[trigger] lines@[t]).0 as int,
                    lines@[t].1 as int,
                ) == lseq[t],
            gpus.deep_view() == gpu_views(recs_of_lines(lseq.take(li as int))),
        decreases lines@.len() - li,
    {
        let (ls, le) = lines[li];
        let ghost done = recs_of_lines(lseq.take(li as int));
        let ghost gs = gpus@;
        proof {
            lemma_vec_deep_view(&gpus);
            assert(lseq.take(li + 1).drop_last() =~= lseq.take(li as int));
            assert(lseq.take(li + 1).last() == lseq[li as int]);
        }
        match parse_line(text, ls, le) {
            Some(g) => {
                gpus.push(g);
                proof {
                    lemma_vec_deep_view(&gpus);
                    assert(gpus.deep_view() =~= gpu_views(recs_of_lines(lseq.take(li + 1)))) by {
                        assert(gpus@ == gs.push(g));
                        assert forall|t: int| 0 <= t < gpus@.len() implies gpus.deep_view()[t]
                            == gpu_views(recs_of_lines(lseq.take(li + 1)))[t] by {
                            if t < gpus@.len() - 1 {
                                assert(gpus@[t] == gs[t]);
                            } else {
                                assert(gpus@[t] == g);
                            }
                        }
                    }
                }
            },
            None => {
                proof {
                    assert(gpus.deep_view() == gpu_views(recs_of_lines(lseq.take(li + 1))));
                }
            },
        }
        li = li + 1;
    }
    proof {
        assert(lseq.take(lseq.len() as int) =~= lseq);
    }
    if gpus.is_empty() {
        proof {
            assert(gpu_views(gpu_records(text@)).len() == gpu_records(text@).len());
        }
        None
    } else {
        Some(gpus)
    }
}

} // verus!
