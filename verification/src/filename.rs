//! Deterministic derivation of output filenames.
//!
//! An output file for batch index `b` of an input with basename `base`,
//! written into directory `dir`, is named `{dir}/{base}-{b}.csv`. The
//! basename of an input path is its final component with the directory part
//! and the extension stripped. Names are computed over bytes; the
//! surrounding program converts them to paths.

use vstd::prelude::*;

verus! {

/// ASCII `/`, the path separator.
pub const SLASH: u8 = 47;

/// ASCII `-`, separating the basename from the batch index.
pub const DASH: u8 = 45;

/// ASCII `.`, beginning an extension.
pub const DOT: u8 = 46;

/// The decimal digits of `n`, most significant first, without leading
/// zeros (`0` is written as the single digit `0`).
pub open spec fn spec_decimal(n: nat) -> Seq<u8>
    decreases n,
{
    if n < 10 {
        seq![(48 + n) as u8]
    } else {
        spec_decimal(n / 10).push((48 + n % 10) as u8)
    }
}

/// Writes the decimal digits of `n` after the bytes already in `out`.
fn push_decimal(out: &mut Vec<u8>, n: usize)
    ensures
        final(out)@ == old(out)@ + spec_decimal(n as nat),
    decreases n,
{
    if n < 10 {
        out.push((48 + n) as u8);
        proof {
            assert(out@ =~= old(out)@ + spec_decimal(n as nat));
        }
    } else {
        push_decimal(out, n / 10);
        out.push((48 + (n % 10)) as u8);
        proof {
            assert(out@ =~= old(out)@ + spec_decimal(n as nat));
        }
    }
}

/// Renders `n` in decimal.
pub fn format_decimal(n: usize) -> (r: Vec<u8>)
    ensures
        r@ == spec_decimal(n as nat),
{
    let mut out: Vec<u8> = Vec::new();
    push_decimal(&mut out, n);
    proof {
        assert(out@ =~= spec_decimal(n as nat));
    }
    out
}

/// Appends all bytes of `s` to `out`.
fn push_all(out: &mut Vec<u8>, s: &Vec<u8>)
    ensures
        final(out)@ == old(out)@ + s@,
{
    let mut i: usize = 0;
    while i < s.len()
        invariant
            i <= s.len(),
            out@ == old(out)@ + s@.take(i as int),
        decreases s.len() - i,
    {
        proof {
            assert(s@.take(i + 1) =~= s@.take(i as int).push(s@[i as int]));
        }
        out.push(s[i]);
        i = i + 1;
    }
    proof {
        assert(s@.take(s@.len() as int) =~= s@);
    }
}

/// The name of the output file for batch `batch`: `{dir}/{base}-{batch}.csv`.
pub open spec fn spec_filename(dir: Seq<u8>, base: Seq<u8>, batch: nat) -> Seq<u8> {
    dir + seq![SLASH] + base + seq![DASH] + spec_decimal(batch) + seq![DOT, 99u8, 115u8, 118u8]
}

/// Derives the output filename for one batch.
pub fn get_filename(output_dir: &Vec<u8>, filename: &Vec<u8>, batch: usize) -> (r: Vec<u8>)
    ensures
        r@ == spec_filename(output_dir@, filename@, batch as nat),
{
    let mut out: Vec<u8> = Vec::new();
    push_all(&mut out, output_dir);
    out.push(SLASH);
    push_all(&mut out, filename);
    out.push(DASH);
    push_decimal(&mut out, batch);
    out.push(DOT);
    out.push(99);
    out.push(115);
    out.push(118);
    proof {
        assert(out@ =~= spec_filename(output_dir@, filename@, batch as nat));
    }
    out
}

/// The number a digit string denotes, most significant digit first.
pub open spec fn spec_decimal_value(s: Seq<u8>) -> int
    decreases s.len(),
{
    if s.len() == 0 {
        0
    } else {
        spec_decimal_value(s.drop_last()) * 10 + (s.last() as int - 48)
    }
}

/// Reading a decimal rendering back gives the number it was made from.
pub proof fn lemma_decimal_value(n: nat)
    ensures
        spec_decimal_value(spec_decimal(n)) == n,
    decreases n,
{
    if n < 10 {
        let s = spec_decimal(n);
        assert(s.drop_last() =~= Seq::<u8>::empty());
        assert(s.last() == (48 + n) as u8);
        assert(spec_decimal_value(s) == spec_decimal_value(s.drop_last()) * 10 + (s.last() as int
            - 48));
        assert(spec_decimal_value(s.drop_last()) == 0);
        assert(s.last() as int == 48 + n);
    } else {
        let s = spec_decimal(n);
        lemma_decimal_value(n / 10);
        assert(s.drop_last() =~= spec_decimal(n / 10));
        vstd::arithmetic::div_mod::lemma_fundamental_div_mod(n as int, 10);
        vstd::arithmetic::div_mod::lemma_mod_pos_bound(n as int, 10);
        assert(s.last() == (48 + n % 10) as u8);
        assert(48 + n % 10 < 256);
        assert(s.last() as int - 48 == n % 10);
        assert(spec_decimal_value(s) == spec_decimal_value(s.drop_last()) * 10 + (s.last() as int
            - 48));
        assert(spec_decimal_value(s.drop_last()) == n / 10);
        assert((n / 10) * 10 + n % 10 == n);
    }
}

/// Distinct numbers have distinct decimal renderings.
pub proof fn lemma_decimal_injective(a: nat, b: nat)
    requires
        spec_decimal(a) == spec_decimal(b),
    ensures
        a == b,
{
    lemma_decimal_value(a);
    lemma_decimal_value(b);
}

/// Filename determinism and distinctness: for one input and output
/// directory, equal derived names mean equal batch indices, so every batch
/// has a filename of its own and concurrent writers can never collide.
pub proof fn lemma_filename_injective(dir: Seq<u8>, base: Seq<u8>, i: nat, j: nat)
    requires
        spec_filename(dir, base, i) == spec_filename(dir, base, j),
    ensures
        i == j,
{
    let p = dir + seq![SLASH] + base + seq![DASH];
    let di = spec_decimal(i);
    let dj = spec_decimal(j);
    assert(spec_filename(dir, base, i).len() == p.len() + di.len() + 4);
    assert(spec_filename(dir, base, j).len() == p.len() + dj.len() + 4);
    assert(di.len() == dj.len());
    assert forall|k: int| 0 <= k < di.len() implies di[k] == dj[k] by {
        assert(spec_filename(dir, base, i)[p.len() + k] == di[k]);
        assert(spec_filename(dir, base, j)[p.len() + k] == dj[k]);
    }
    assert(di =~= dj);
    lemma_decimal_injective(i, j);
}

/// The index of the last occurrence of `c` in `s`, or `-1` if `c` does not
/// occur.
pub open spec fn spec_last_index_of(s: Seq<u8>, c: u8) -> int
    decreases s.len(),
{
    if s.len() == 0 {
        -1
    } else if s.last() == c {
        s.len() - 1
    } else {
        spec_last_index_of(s.drop_last(), c)
    }
}

/// `spec_last_index_of` names the last occurrence: the byte there is `c`,
/// no later byte is, and `-1` means `c` does not occur at all.
pub proof fn lemma_last_index_of(s: Seq<u8>, c: u8)
    ensures
        -1 <= spec_last_index_of(s, c) < s.len(),
        spec_last_index_of(s, c) >= 0 ==> s[spec_last_index_of(s, c)] == c,
        forall|j: int| spec_last_index_of(s, c) < j < s.len() ==> s[j] != c,
    decreases s.len(),
{
    if s.len() > 0 && s.last() != c {
        lemma_last_index_of(s.drop_last(), c);
        assert forall|j: int| spec_last_index_of(s, c) < j < s.len() implies s[j] != c by {
            if j < s.len() - 1 {
                assert(s[j] == s.drop_last()[j]);
            }
        }
    }
}

/// The final path component of `p`: everything after the last `/`, or all
/// of `p` if it has none.
pub open spec fn spec_file_part(p: Seq<u8>) -> Seq<u8> {
    p.skip(spec_last_index_of(p, SLASH) + 1)
}

/// The stem of a file name `f`: everything before the last `.`, unless the
/// only `.` begins the name (a hidden file keeps its full name) or there is
/// none, in which case the whole name is the stem.
pub open spec fn spec_stem(f: Seq<u8>) -> Seq<u8> {
    let d = spec_last_index_of(f, DOT);
    if d >= 1 {
        f.take(d)
    } else {
        f
    }
}

/// The basename of an input path: its final component without extension.
pub open spec fn spec_basename(p: Seq<u8>) -> Seq<u8> {
    spec_stem(spec_file_part(p))
}

/// The index one past the last occurrence of `c` in `s`, or `0` if `c`
/// does not occur.
fn find_after_last(s: &Vec<u8>, c: u8) -> (r: usize)
    ensures
        r == spec_last_index_of(s@, c) + 1,
{
    let mut i: usize = s.len();
    while i > 0
        invariant
            i <= s.len(),
            forall|j: int| i <= j < s@.len() ==> s@[j] != c,
        decreases i,
    {
        if s[i - 1] == c {
            proof {
                lemma_last_index_of(s@, c);
                let li = spec_last_index_of(s@, c);
                assert(li >= i - 1);
                assert(li <= i - 1);
            }
            return i;
        }
        i = i - 1;
    }
    proof {
        lemma_last_index_of(s@, c);
        assert(spec_last_index_of(s@, c) == -1);
    }
    0
}

/// Extracts the basename of `path`: the final path component with the
/// extension stripped.
pub fn get_basename(path: &Vec<u8>) -> (r: Vec<u8>)
    ensures
        r@ == spec_basename(path@),
{
    let start: usize = find_after_last(path, SLASH);
    proof {
        lemma_last_index_of(path@, SLASH);
    }
    // Search for the last dot strictly after the first byte of the file part.
    let mut end: usize = path.len();
    let mut dot: usize = 0;
    let mut found: bool = false;
    let mut i: usize = path.len();
    while i > start
        invariant
            start <= i <= path@.len(),
            !found ==> forall|j: int| i <= j < path@.len() && j > start ==> path@[j] != DOT,
            found ==> start < dot < path@.len() && path@[dot as int] == DOT
                && forall|j: int| dot < j < path@.len() ==> path@[j] != DOT,
        decreases i,
    {
        if !found && i - 1 > start && path[i - 1] == DOT {
            dot = i - 1;
            found = true;
        }
        i = i - 1;
    }
    if found {
        end = dot;
    }
    proof {
        let f = spec_file_part(path@);
        let d = spec_last_index_of(f, DOT);
        lemma_last_index_of(f, DOT);
        assert(f =~= path@.subrange(start as int, path@.len() as int));
        if found {
            // `dot` is the last dot after `start`; in `f` it sits at `dot - start`.
            assert(f[dot - start] == DOT);
            assert(d >= dot - start);
            assert(f[d] == path@[d + start]);
            assert(d <= dot - start);
            assert(d == dot - start && d >= 1);
            assert(path@.subrange(start as int, end as int) =~= f.take(d));
        } else {
            // No dot strictly after `start`: in `f` a dot can sit only at 0.
            assert(forall|j: int| 1 <= j < f.len() ==> f[j] == path@[j + start] && f[j] != DOT);
            assert(d < 1);
            assert(path@.subrange(start as int, end as int) =~= f);
        }
    }
    let mut out: Vec<u8> = Vec::new();
    let mut k: usize = start;
    while k < end
        invariant
            start <= k <= end <= path@.len(),
            out@ == path@.subrange(start as int, k as int),
        decreases end - k,
    {
        proof {
            assert(path@.subrange(start as int, k + 1) =~= path@.subrange(
                start as int,
                k as int,
            ).push(path@[k as int]));
        }
        out.push(path[k]);
        k = k + 1;
    }
    out
}

} // verus!
