//! Subtitle cues: their times, their text, and the cleaning of repeated
//! runs in their lines.

use vstd::prelude::*;

use crate::text::{push_char, chars_of};

verus! {

/// How runs of repetitions in cue lines are truncated.
#[derive(Clone, Debug)]
pub struct TruncateOptions {
    pub max_repetitions: usize,
    pub truncated_repetitions: usize,
    pub truncation_suffix: String,
}

/// How close two cues must be to be merged.
#[derive(Clone, Debug)]
pub struct MergeOptions {
    pub max_merge_gap_millis: u32,
}

/// All cleaning options.
#[derive(Clone, Debug)]
pub struct CleanVttOptions {
    pub merge: MergeOptions,
    pub truncate: TruncateOptions,
}

/// The number of copies of `s[0..n]` that follow each other from the start,
/// counting on from block `j`, which ends at `p`.
pub open spec fn reps_from(s: Seq<char>, n: int, j: int, p: int) -> int
    decreases s.len() - p,
    when n > 0
{
    if p + n > s.len() || s.subrange(p - n, p) != s.subrange(p, p + n) {
        j
    } else {
        reps_from(s, n, j + 1, p + n)
    }
}

pub open spec fn reps(s: Seq<char>, n: int) -> int {
    reps_from(s, n, 1, n)
}

/// `k` copies of `p`.
pub open spec fn repeat(p: Seq<char>, k: nat) -> Seq<char>
    decreases k,
{
    if k == 0 {
        Seq::<char>::empty()
    } else {
        repeat(p, (k - 1) as nat) + p
    }
}

/// One pass over block sizes `n..=max`: each size repeated more than
/// `maxr` times at the start is cut to `keep` copies and the suffix.
/// Gives what was written, what is left, and whether anything was cut.
pub open spec fn scan(
    s: Seq<char>,
    n: int,
    max: int,
    maxr: int,
    keep: nat,
    suffix: Seq<char>,
) -> (Seq<char>, Seq<char>, bool)
    decreases max - n + 1,
    when n >= 1
{
    if n > max {
        (Seq::<char>::empty(), s, false)
    } else {
        let count = reps(s, n);
        if count <= maxr {
            scan(s, n + 1, max, maxr, keep, suffix)
        } else {
            let out = repeat(s.take(n), keep) + suffix;
            let rest = s.skip(n * count);
            let next = scan(rest, n + 1, max, maxr, keep, suffix);
            (out + next.0, next.1, true)
        }
    }
}

pub proof fn lemma_reps_bounds(s: Seq<char>, n: int, j: int, p: int)
    requires
        n > 0,
        j >= 1,
        p == j * n,
    ensures
        j <= reps_from(s, n, j, p),
        p <= s.len() ==> reps_from(s, n, j, p) * n <= s.len(),
        reps_from(s, n, j, p) > j ==> (j + 1) * n <= s.len(),
    decreases s.len() - p,
{
    if !(p + n > s.len() || s.subrange(p - n, p) != s.subrange(p, p + n)) {
        assert((j + 1) * n == j * n + n) by (nonlinear_arith);
        lemma_reps_bounds(s, n, j + 1, p + n);
    }
}

pub proof fn lemma_scan_shrinks(s: Seq<char>, n: int, max: int, maxr: int, keep: nat, suffix: Seq<char>)
    requires
        n >= 1,
        maxr >= 1,
    ensures
        scan(s, n, max, maxr, keep, suffix).1.len() <= s.len(),
        scan(s, n, max, maxr, keep, suffix).2 ==> scan(s, n, max, maxr, keep, suffix).1.len() < s.len(),
        !scan(s, n, max, maxr, keep, suffix).2 ==> scan(s, n, max, maxr, keep, suffix).0.len() == 0
            && scan(s, n, max, maxr, keep, suffix).1 == s,
    decreases max - n + 1,
{
    if n <= max {
        let count = reps(s, n);
        assert(n == 1 * n);
        lemma_reps_bounds(s, n, 1, n);
        if count <= maxr {
            lemma_scan_shrinks(s, n + 1, max, maxr, keep, suffix);
        } else {
            assert(2 * n <= s.len());
            assert(count * n <= s.len());
            assert(n * count >= n) by (nonlinear_arith)
                requires
                    count >= 1,
                    n >= 1,
            ;
            assert(n * count == count * n) by (nonlinear_arith);
            let rest = s.skip(n * count);
            lemma_scan_shrinks(rest, n + 1, max, maxr, keep, suffix);
        }
    }
}

/// Cuts every run of more than `max_repetitions` copies of a block down to
/// `truncated_repetitions` copies and the suffix.
pub open spec fn truncate_spec(s: Seq<char>, maxr: int, keep: nat, suffix: Seq<char>) -> Seq<char>
    decreases s.len(),
    when maxr >= 1
{
    if s.len() == 0 {
        Seq::<char>::empty()
    } else {
        let r = scan(s, 1, (s.len() as int) / maxr, maxr, keep, suffix);
        if r.2 {
            if r.1.len() < s.len() {
                r.0 + truncate_spec(r.1, maxr, keep, suffix)
            } else {
                r.0
            }
        } else {
            seq![s[0]] + truncate_spec(s.drop_first(), maxr, keep, suffix)
        }
    }
}

/// Whether the `n` characters of `v` from `a` equal those from `b`.
fn blocks_equal(v: &Vec<char>, a: usize, b: usize, n: usize) -> (r: bool)
    requires
        a + n <= v.len(),
        b + n <= v.len(),
    ensures
        r == (v@.subrange(a as int, a + n) == v@.subrange(b as int, b + n)),
{
    let mut i: usize = 0;
    while i < n
        invariant
            i <= n,
            a + n <= v.len(),
            b + n <= v.len(),
            v@.subrange(a as int, a + i) == v@.subrange(b as int, b + i),
        decreases n - i,
    {
        if v[a + i] != v[b + i] {
            assert(v@.subrange(a as int, a + n)[i as int] != v@.subrange(b as int, b + n)[i as int]);
            return false;
        }
        i += 1;
        assert(v@.subrange(a as int, a + i) =~= v@.subrange(b as int, b + i));
    }
    true
}

/// How many copies of the block of `n` characters at `start` follow each
/// other from there.
fn count_reps(v: &Vec<char>, start: usize, n: usize) -> (r: usize)
    requires
        n >= 1,
        start <= v.len(),
        v.len() <= usize::MAX / 4,
    ensures
        r as int == reps(v@.skip(start as int), n as int),
        r >= 1,
{
    let ghost s = v@.skip(start as int);
    let len = v.len() - start;
    let mut j: usize = 1;
    let mut p: usize = n;
    if n > len {
        return 1;
    }
    proof {
        lemma_reps_bounds(s, n as int, 1, n as int);
    }
    while p + n <= len && blocks_equal(v, start + p - n, start + p, n)
        invariant
            s == v@.skip(start as int),
            len == s.len(),
            start <= v.len(),
            v.len() <= usize::MAX / 4,
            n >= 1,
            1 <= j <= p,
            n <= p <= len,
            n <= len,
            p as int == j * n,
            reps(s, n as int) == reps_from(s, n as int, j as int, p as int),
        decreases len - p,
    {
        assert(s.subrange(p - n, p as int) =~= v@.subrange(start + p - n, start + p));
        assert(s.subrange(p as int, p + n) =~= v@.subrange(start + p, start + p + n));
        assert((j + 1) * n == j * n + n) by (nonlinear_arith);
        j += 1;
        p += n;
        assert(p as int == j * n);
    }
    proof {
        if p + n <= len {
            assert(s.subrange(p - n, p as int) =~= v@.subrange(start + p - n, start + p));
            assert(s.subrange(p as int, p + n) =~= v@.subrange(start + p, start + p + n));
        }
    }
    j
}

/// Appends `keep` copies of `v[start..start + n]` to `out`.
fn push_repeated(out: &mut String, v: &Vec<char>, start: usize, n: usize, keep: usize)
    requires
        start + n <= v.len(),
    ensures
        final(out)@ == old(out)@ + repeat(v@.subrange(start as int, start + n), keep as nat),
{
    let ghost block = v@.subrange(start as int, start + n);
    let ghost before = out@;
    let mut t: usize = 0;
    while t < keep
        invariant
            t <= keep,
            start + n <= v.len(),
            block == v@.subrange(start as int, start + n),
            out@ == before + repeat(block, t as nat),
        decreases keep - t,
    {
        let ghost mid = out@;
        let mut i: usize = 0;
        while i < n
            invariant
                i <= n,
                start + n <= v.len(),
                out@ == mid + v@.subrange(start as int, start + i),
            decreases n - i,
        {
            push_char(out, v[start + i]);
            i += 1;
            assert(out@ =~= mid + v@.subrange(start as int, start + i));
        }
        t += 1;
        assert(out@ =~= before + repeat(block, t as nat));
    }
}

/// Cuts runs of a block repeated more than `max_repetitions` times down to
/// `truncated_repetitions` copies followed by the suffix.
pub fn truncate_repetitions(s: &Vec<char>, opts: &TruncateOptions) -> (r: String)
    requires
        opts.max_repetitions >= 1,
        s.len() <= usize::MAX / 4,
    ensures
        r@ == truncate_spec(
            s@,
            opts.max_repetitions as int,
            opts.truncated_repetitions as nat,
            opts.truncation_suffix@,
        ),
{
    let ghost maxr = opts.max_repetitions as int;
    let ghost keep = opts.truncated_repetitions as nat;
    let ghost suffix = opts.truncation_suffix@;
    let len = s.len();
    let mut result = String::new();
    let mut pos: usize = 0;
    assert(s@.skip(0) =~= s@);
    while pos < len
        invariant
            len == s.len(),
            len <= usize::MAX / 4,
            pos <= len,
            maxr == opts.max_repetitions as int,
            maxr >= 1,
            keep == opts.truncated_repetitions as nat,
            suffix == opts.truncation_suffix@,
            truncate_spec(s@, maxr, keep, suffix) == result@ + truncate_spec(s@.skip(pos as int), maxr, keep, suffix),
        decreases len - pos,
    {
        let ghost s0 = s@.skip(pos as int);
        let ghost before = result@;
        let max = (len - pos) / opts.max_repetitions;
        let mut truncated = false;
        let mut pos2 = pos;
        let mut n: usize = 1;
        while n <= max
            invariant
                len == s.len(),
                len <= usize::MAX / 4,
                pos <= pos2 <= len,
                1 <= n,
                max <= len,
                maxr == opts.max_repetitions as int,
                maxr >= 1,
                keep == opts.truncated_repetitions as nat,
                suffix == opts.truncation_suffix@,
                s0 == s@.skip(pos as int),
                ({
                    let whole = scan(s0, 1, max as int, maxr, keep, suffix);
                    let here = scan(s@.skip(pos2 as int), n as int, max as int, maxr, keep, suffix);
                    whole == (result@.skip(before.len() as int) + here.0, here.1, truncated || here.2)
                }),
                result@.len() >= before.len(),
                result@.take(before.len() as int) == before,
            decreases max + 1 - n,
        {
            let count = count_reps(s, pos2, n);
            if count > opts.max_repetitions {
                proof {
                    lemma_reps_bounds(s@.skip(pos2 as int), n as int, 1, n as int);
                    assert(n * count == count * n) by (nonlinear_arith);
                }
                let ghost old_result = result@;
                push_repeated(&mut result, s, pos2, n, opts.truncated_repetitions);
                crate::text::append_str(&mut result, opts.truncation_suffix.as_str());
                proof {
                    assert(s@.skip(pos2 as int).take(n as int) =~= s@.subrange(pos2 as int, pos2 + n));
                    assert(s@.skip(pos2 as int).skip(n * count) =~= s@.skip(pos2 + n * count));
                    assert(result@.skip(before.len() as int) =~= old_result.skip(before.len() as int) + (repeat(
                        s@.subrange(pos2 as int, pos2 + n),
                        keep,
                    ) + suffix));
                    assert(result@.take(before.len() as int) =~= before);
                }
                pos2 = pos2 + n * count;
                truncated = true;
            }
            n += 1;
        }
        proof {
            let here = scan(s@.skip(pos2 as int), n as int, max as int, maxr, keep, suffix);
            assert(here == (Seq::<char>::empty(), s@.skip(pos2 as int), false));
            lemma_scan_shrinks(s0, 1, max as int, maxr, keep, suffix);
            assert(s0.len() == len - pos);
            assert((s0.len() as int) / maxr == max as int);
            assert(result@ =~= before + result@.skip(before.len() as int));
            let whole = scan(s0, 1, max as int, maxr, keep, suffix);
            assert(whole.0 =~= result@.skip(before.len() as int));
            if !truncated {
                assert(result@ =~= before);
            }
        }
        if truncated {
            pos = pos2;
        } else {
            push_char(&mut result, s[pos]);
            proof {
                assert(s0.drop_first() =~= s@.skip(pos + 1));
                assert(s0[0] == s@[pos as int]);
            }
            pos += 1;
        }
    }
    assert(s@.skip(pos as int) =~= Seq::<char>::empty());
    assert(result@ + Seq::<char>::empty() =~= result@);
    result
}

/// A cue time: whole seconds and milliseconds.
#[derive(Clone, Debug, PartialEq, Eq, PartialOrd, Ord, Structural)]
pub struct CueTime {
    pub seconds: u32,
    pub millis: u16,
}

/// A cue: its start and end, and the byte range of its text in the document.
#[derive(Debug)]
pub struct Cue {
    pub start: CueTime,
    pub end: CueTime,
    pub text_range: std::ops::Range<usize>,
}

pub open spec fn digit_char(d: nat) -> char {
    if d == 0 { '0' } else if d == 1 { '1' } else if d == 2 { '2' } else if d == 3 { '3' }
    else if d == 4 { '4' } else if d == 5 { '5' } else if d == 6 { '6' } else if d == 7 { '7' }
    else if d == 8 { '8' } else { '9' }
}

/// The decimal digits of `n`.
pub open spec fn digits(n: nat) -> Seq<char>
    decreases n,
{
    if n < 10 {
        seq![digit_char(n)]
    } else {
        digits(n / 10).push(digit_char(n % 10))
    }
}

/// `d` with zeros in front, to at least `w` characters.
pub open spec fn zero_pad(d: Seq<char>, w: nat) -> Seq<char> {
    if d.len() >= w {
        d
    } else {
        Seq::new((w - d.len()) as nat, |i: int| '0') + d
    }
}

/// `[hh:]mm:ss.mmm`, the hours only when there are any.
pub open spec fn cue_time_text(t: CueTime) -> Seq<char> {
    let x = t.seconds as nat;
    let s = x % 60;
    let m = (x / 60) % 60;
    let h = x / 3600;
    let hours = if h > 0 {
        zero_pad(digits(h), 2).push(':')
    } else {
        Seq::<char>::empty()
    };
    hours + zero_pad(digits(m), 2) + seq![':'] + zero_pad(digits(s), 2) + seq!['.'] + zero_pad(
        digits(t.millis as nat),
        3,
    )
}

fn digit(d: u32) -> (c: char)
    requires
        d < 10,
    ensures
        c == digit_char(d as nat),
{
    match d {
        0 => '0',
        1 => '1',
        2 => '2',
        3 => '3',
        4 => '4',
        5 => '5',
        6 => '6',
        7 => '7',
        8 => '8',
        _ => '9',
    }
}

fn push_digits(out: &mut String, n: u32)
    ensures
        final(out)@ == old(out)@ + digits(n as nat),
    decreases n,
{
    if n < 10 {
        push_char(out, digit(n));
    } else {
        push_digits(out, n / 10);
        push_char(out, digit(n % 10));
    }
}

fn push_padded(out: &mut String, n: u32, w: usize)
    ensures
        final(out)@ == old(out)@ + zero_pad(digits(n as nat), w as nat),
{
    let mut d = String::new();
    push_digits(&mut d, n);
    assert(d@ =~= digits(n as nat));
    let dv = chars_of(d.as_str());
    let ghost before = out@;
    let mut k: usize = dv.len();
    while k < w
        invariant
            k >= dv.len(),
            dv.len() < w ==> k <= w,
            dv.len() >= w ==> k == dv.len(),
            dv@ == d@,
            out@ == before + Seq::new((k - dv.len()) as nat, |i: int| '0'),
        decreases w - k,
    {
        push_char(out, '0');
        k += 1;
        assert(out@ =~= before + Seq::new((k - dv.len()) as nat, |i: int| '0'));
    }
    crate::text::append_str(out, d.as_str());
    proof {
        if dv.len() >= w {
            assert(Seq::new((k - dv.len()) as nat, |i: int| '0') =~= Seq::<char>::empty());
            assert(out@ =~= before + d@);
        } else {
            assert(k == w);
            assert(out@ =~= before + (Seq::new((w - d@.len()) as nat, |i: int| '0') + d@));
        }
    }
}

/// Formats a cue time as `[hh:]mm:ss.mmm`.
pub fn fmt_cue_time(t: &CueTime) -> (r: String)
    ensures
        r@ == cue_time_text(*t),
{
    let mut x = t.seconds;
    let s = x % 60;
    x = x / 60;
    let m = x % 60;
    x = x / 60;
    let h = x;
    let mut out = String::new();
    if h > 0 {
        push_padded(&mut out, h, 2);
        push_char(&mut out, ':');
    }
    push_padded(&mut out, m, 2);
    push_char(&mut out, ':');
    push_padded(&mut out, s, 2);
    push_char(&mut out, '.');
    push_padded(&mut out, t.millis as u32, 3);
    proof {
        let xs = t.seconds as nat;
        assert(xs / 60 / 60 == xs / 3600) by (nonlinear_arith);
    }
    assert(out@ =~= cue_time_text(*t));
    out
}

/// `s` read up to its end: the text outside `<...>` tags, and whether a tag
/// is open.
pub open spec fn untagged(s: Seq<char>) -> (Seq<char>, bool)
    decreases s.len(),
{
    if s.len() == 0 {
        (Seq::<char>::empty(), false)
    } else {
        let (r, tag) = untagged(s.drop_last());
        let c = s.last();
        if c == '<' {
            (r, true)
        } else if c == '>' {
            (r, false)
        } else if tag {
            (r, tag)
        } else {
            (r.push(c), tag)
        }
    }
}

/// The text of `s` with `<...>` tags left out.
pub fn remove_tags(s: String) -> (r: String)
    ensures
        r@ == untagged(s@).0,
{
    let v = chars_of(s.as_str());
    let mut out = String::new();
    let mut tag = false;
    let mut i: usize = 0;
    while i < v.len()
        invariant
            i <= v.len(),
            v@ == s@,
            (out@, tag) == untagged(v@.take(i as int)),
        decreases v.len() - i,
    {
        let c = v[i];
        assert(v@.take(i + 1).drop_last() =~= v@.take(i as int));
        assert(v@.take(i + 1).last() == c);
        if c == '<' {
            tag = true;
        } else if c == '>' {
            tag = false;
        } else if !tag {
            push_char(&mut out, c);
        }
        i += 1;
    }
    assert(v@.take(i as int) =~= s@);
    out
}

} // verus!
