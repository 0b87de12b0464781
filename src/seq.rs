//! Base-level sequence arithmetic: reverse complement, GC percentage and
//! homopolymer runs.

use vstd::prelude::*;
use vstd::utf8::is_ascii_chars;
use vstd::string::StringSliceAdditionalSpecFns;
use crate::text::{chars_of, string_from_chars};

verus! {

broadcast use vstd::string::group_string_axioms;

/// The IUPAC complement of one byte, as bio's DNA alphabet defines it:
/// each base or ambiguity code is swapped with its partner in the same
/// case, and every other byte is left as it is.
pub open spec fn dna_complement(b: u8) -> u8 {
    if b == ('A' as u8) { ('T' as u8) }
    else if b == ('T' as u8) { ('A' as u8) }
    else if b == ('G' as u8) { ('C' as u8) }
    else if b == ('C' as u8) { ('G' as u8) }
    else if b == ('Y' as u8) { ('R' as u8) }
    else if b == ('R' as u8) { ('Y' as u8) }
    else if b == ('K' as u8) { ('M' as u8) }
    else if b == ('M' as u8) { ('K' as u8) }
    else if b == ('D' as u8) { ('H' as u8) }
    else if b == ('H' as u8) { ('D' as u8) }
    else if b == ('V' as u8) { ('B' as u8) }
    else if b == ('B' as u8) { ('V' as u8) }
    else if b == ('a' as u8) { ('t' as u8) }
    else if b == ('t' as u8) { ('a' as u8) }
    else if b == ('g' as u8) { ('c' as u8) }
    else if b == ('c' as u8) { ('g' as u8) }
    else if b == ('y' as u8) { ('r' as u8) }
    else if b == ('r' as u8) { ('y' as u8) }
    else if b == ('k' as u8) { ('m' as u8) }
    else if b == ('m' as u8) { ('k' as u8) }
    else if b == ('d' as u8) { ('h' as u8) }
    else if b == ('h' as u8) { ('d' as u8) }
    else if b == ('v' as u8) { ('b' as u8) }
    else if b == ('b' as u8) { ('v' as u8) }
    else { b }
}

/// The reverse complement of a byte string, each resulting byte read as a
/// character.
pub open spec fn revcomp_bytes_spec(b: Seq<u8>) -> Seq<char> {
    b.reverse().map_values(|x: u8| dna_complement(x) as char)
}

/// The complement of one character: ASCII characters are complemented as
/// bytes, others are left as they are.
pub open spec fn complement_char(c: char) -> char {
    if (c as u32) < 128 {
        dna_complement(c as u8) as char
    } else {
        c
    }
}

/// The reverse complement of a character sequence.
pub open spec fn revcomp_spec(s: Seq<char>) -> Seq<char> {
    s.reverse().map_values(|c: char| complement_char(c))
}

/// Relies on `bio::alphabets::dna::revcomp`: the bytes in reverse order,
/// each replaced by its IUPAC complement.
#[verifier::external_body]
fn revcomp_bytes(b: &[u8]) -> (r: Vec<u8>)
    ensures
        r@ == b@.reverse().map_values(|x: u8| dna_complement(x)),
{
    bio::alphabets::dna::revcomp(b)
}

/// Reverse complement of `sequence`, read byte by byte.
pub fn reverse_complement(sequence: &str) -> (r: String)
    ensures
        r@ == revcomp_bytes_spec(sequence.spec_bytes()),
        is_ascii_chars(sequence@) ==> r@ == revcomp_spec(sequence@),
        is_ascii_chars(sequence@) ==> is_ascii_chars(r@),
{
    let bytes = sequence.as_bytes();
    let rc = revcomp_bytes(bytes);
    let mut cs: Vec<char> = Vec::new();
    let mut i: usize = 0;
    while i < rc.len()
        invariant
            i <= rc@.len(),
            cs@ == rc@.take(i as int).map_values(|x: u8| x as char),
        decreases rc@.len() - i,
    {
        cs.push(rc[i] as char);
        i = i + 1;
        assert(rc@.take(i as int).map_values(|x: u8| x as char)
            =~= rc@.take(i - 1 as int).map_values(|x: u8| x as char).push(rc@[i - 1] as char));
    }
    assert(rc@.take(i as int) =~= rc@);
    assert(cs@ =~= revcomp_bytes_spec(bytes@));
    let r = string_from_chars(cs.as_slice());
    proof {
        if is_ascii_chars(sequence@) {
            assert(vstd::string::is_ascii(sequence));
            lemma_ascii_revcomp(sequence@, bytes@);
        }
    }
    r
}

proof fn lemma_ascii_revcomp(s: Seq<char>, b: Seq<u8>)
    requires
        is_ascii_chars(s),
        b =~= Seq::new(s.len(), |i| s[i] as u8),
    ensures
        revcomp_bytes_spec(b) == revcomp_spec(s),
        is_ascii_chars(revcomp_spec(s)),
{
    assert(revcomp_bytes_spec(b) =~= revcomp_spec(s));
}

/// Reverse complement undoes itself on ASCII text.
pub proof fn lemma_revcomp_involution(s: Seq<char>)
    requires
        is_ascii_chars(s),
    ensures
        is_ascii_chars(revcomp_spec(s)),
        revcomp_spec(revcomp_spec(s)) == s,
{
    assert(revcomp_spec(revcomp_spec(s)) =~= s);
}

/// Whether `c` is a G or a C, in either case.
pub open spec fn is_gc(c: char) -> bool {
    c == 'G' || c == 'g' || c == 'C' || c == 'c'
}

/// How many characters of `s` are G or C.
pub open spec fn gc_count(s: Seq<char>) -> nat
    decreases s.len(),
{
    if s.len() == 0 {
        0
    } else {
        gc_count(s.drop_last()) + if is_gc(s.last()) { 1nat } else { 0nat }
    }
}

/// The GC percentage of a non-empty sequence, rounded down.
pub open spec fn gc_percent(s: Seq<char>) -> nat
    recommends
        s.len() > 0,
{
    gc_count(s) * 100 / s.len()
}

/// The two halves of a k-mer whose GC content is scored: the first and the
/// last `k / 2` characters (the middle one is left out when `k` is odd).
pub open spec fn first_half(s: Seq<char>, k: int) -> Seq<char> {
    s.subrange(0, k / 2)
}

pub open spec fn second_half(s: Seq<char>, k: int) -> Seq<char> {
    s.subrange(k - k / 2, k)
}

pub proof fn lemma_gc_count_bounded(s: Seq<char>)
    ensures
        gc_count(s) <= s.len(),
    decreases s.len(),
{
    if s.len() > 0 {
        lemma_gc_count_bounded(s.drop_last());
    }
}

/// A GC percentage lies between 0 and 100.
pub proof fn lemma_gc_percent_bounded(s: Seq<char>)
    requires
        s.len() > 0,
    ensures
        gc_percent(s) <= 100,
{
    lemma_gc_count_bounded(s);
    let c = gc_count(s);
    let n = s.len();
    assert(c * 100 / n <= 100) by (nonlinear_arith)
        requires
            c <= n,
            n > 0,
    ;
}

/// Number of G/C characters in `cs[lo..hi]`.
fn count_gc(cs: &Vec<char>, lo: usize, hi: usize) -> (r: usize)
    requires
        lo <= hi <= cs@.len(),
    ensures
        r == gc_count(cs@.subrange(lo as int, hi as int)),
{
    let mut c: usize = 0;
    let mut i: usize = lo;
    while i < hi
        invariant
            lo <= i <= hi <= cs@.len(),
            c == gc_count(cs@.subrange(lo as int, i as int)),
        decreases hi - i,
    {
        proof {
            lemma_gc_count_bounded(cs@.subrange(lo as int, i as int));
        }
        let ch = cs[i];
        if ch == 'G' || ch == 'g' || ch == 'C' || ch == 'c' {
            c = c + 1;
        }
        i = i + 1;
        assert(cs@.subrange(lo as int, i as int).drop_last() =~= cs@.subrange(lo as int, i - 1));
    }
    c
}

/// `count * 100 / len`, without overflow.
fn percent(count: usize, len: usize) -> (r: usize)
    requires
        0 < len,
        count <= len,
    ensures
        r == (count as int) * 100 / (len as int),
        r <= 100,
{
    let p: u128 = (count as u128) * 100 / (len as u128);
    assert((count as int) * 100 / (len as int) <= 100) by (nonlinear_arith)
        requires
            count <= len,
            len > 0,
    ;
    p as usize
}

/// GC percentage of the whole of `sequence`, rounded down.
pub fn calculate_gc(sequence: &str) -> (r: usize)
    requires
        sequence@.len() > 0,
    ensures
        r == gc_percent(sequence@),
        r <= 100,
{
    let cs = chars_of(sequence);
    let c = count_gc(&cs, 0, cs.len());
    assert(cs@.subrange(0, cs@.len() as int) =~= cs@);
    proof {
        lemma_gc_count_bounded(cs@);
    }
    percent(c, cs.len())
}

/// GC percentages of the first and the last `k / 2` characters of `cs`.
pub(crate) fn gc_halves(cs: &Vec<char>, k: usize) -> (r: (usize, usize))
    requires
        2 <= k <= cs@.len(),
    ensures
        r.0 == gc_percent(first_half(cs@, k as int)),
        r.1 == gc_percent(second_half(cs@, k as int)),
        r.0 <= 100,
        r.1 <= 100,
{
    let half = k / 2;
    let a = count_gc(cs, 0, half);
    let b = count_gc(cs, k - half, k);
    proof {
        lemma_gc_count_bounded(cs@.subrange(0, half as int));
        lemma_gc_count_bounded(cs@.subrange(k - half, k as int));
    }
    (percent(a, half), percent(b, half))
}

/// GC percentages of the two halves of a k-mer of width `kmer_len`: the
/// first `kmer_len / 2` characters and the last `kmer_len / 2` ones.
pub fn gc_content_on_each_half(kmer: &str, kmer_len: usize) -> (r: (usize, usize))
    requires
        2 <= kmer_len <= kmer@.len(),
    ensures
        r.0 == gc_percent(first_half(kmer@, kmer_len as int)),
        r.1 == gc_percent(second_half(kmer@, kmer_len as int)),
        r.0 <= 100,
        r.1 <= 100,
{
    let cs = chars_of(kmer);
    gc_halves(&cs, kmer_len)
}

/// Length of the run of equal characters that ends at index `i` of `s`.
pub open spec fn run_ending_at(s: Seq<char>, i: int) -> nat
    decreases i,
{
    if i <= 0 {
        1
    } else if s[i] == s[i - 1] {
        run_ending_at(s, i - 1) + 1
    } else {
        1
    }
}

/// Longest run of equal characters among the first `n` characters of `s`
/// (1 when there are none).
pub open spec fn longest_run_upto(s: Seq<char>, n: int) -> nat
    decreases n,
{
    if n <= 1 {
        1
    } else {
        let a = longest_run_upto(s, n - 1);
        let b = run_ending_at(s, n - 1);
        if a >= b { a } else { b }
    }
}

/// Longest homopolymer run of `s`.
pub open spec fn longest_run(s: Seq<char>) -> nat {
    longest_run_upto(s, s.len() as int)
}

proof fn lemma_run_ending_bounded(s: Seq<char>, i: int)
    requires
        i >= 0,
    ensures
        run_ending_at(s, i) <= i + 1,
    decreases i,
{
    if i > 0 {
        lemma_run_ending_bounded(s, i - 1);
    }
}

proof fn lemma_longest_run_upto_bounded(s: Seq<char>, n: int)
    requires
        n >= 1,
    ensures
        longest_run_upto(s, n) <= n,
    decreases n,
{
    if n > 1 {
        lemma_longest_run_upto_bounded(s, n - 1);
        lemma_run_ending_bounded(s, n - 1);
    }
}

/// A homopolymer run is no longer than the sequence it lies in.
pub proof fn lemma_longest_run_bounded(s: Seq<char>)
    requires
        s.len() >= 1,
    ensures
        longest_run(s) <= s.len(),
{
    lemma_longest_run_upto_bounded(s, s.len() as int);
}

pub(crate) fn longest_run_in(cs: &Vec<char>) -> (r: usize)
    ensures
        r == longest_run(cs@),
        1 <= r,
        cs@.len() > 0 ==> r <= cs@.len(),
{
    let n = cs.len();
    if n <= 1 {
        return 1;
    }
    let mut best: usize = 1;
    let mut cur: usize = 1;
    let mut i: usize = 1;
    while i < n
        invariant
            1 <= i <= n == cs@.len(),
            cur == run_ending_at(cs@, i - 1),
            best == longest_run_upto(cs@, i as int),
            1 <= cur <= i,
            1 <= best <= i,
        decreases n - i,
    {
        if cs[i] == cs[i - 1] {
            cur = cur + 1;
        } else {
            cur = 1;
        }
        if cur > best {
            best = cur;
        }
        i = i + 1;
    }
    best
}

/// Length of the longest run of one repeated character in `seq` (1 for an
/// empty sequence).
pub fn longest_homopolymer_run(seq: &str) -> (r: usize)
    ensures
        r == longest_run(seq@),
        1 <= r,
        seq@.len() > 0 ==> r <= seq@.len(),
{
    let cs = chars_of(seq);
    longest_run_in(&cs)
}

} // verus!
