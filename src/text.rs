//! Character-level helpers shared by the sequence and graph modules.

use vstd::prelude::*;

verus! {

/// The characters of `s`, in order.
pub fn chars_of(s: &str) -> (r: Vec<char>)
    ensures
        r@ == s@,
{
    let mut r: Vec<char> = Vec::new();
    for c in it: s.chars()
        invariant
            r@ == it.seq().take(it.index() as int),
            it.seq() == s@,
    {
        r.push(c);
    }
    r
}

/// Relies on `String: FromIterator<&char>`: the string holds the given
/// characters in order.
#[verifier::external_body]
pub(crate) fn string_from_chars(cs: &[char]) -> (r: String)
    ensures
        r@ == cs@,
{
    cs.iter().collect()
}

/// The characters `cs[lo..hi]` as a string.
pub(crate) fn window_string(cs: &Vec<char>, lo: usize, hi: usize) -> (r: String)
    requires
        lo <= hi <= cs@.len(),
    ensures
        r@ == cs@.subrange(lo as int, hi as int),
{
    let mut w: Vec<char> = Vec::new();
    let mut i: usize = lo;
    while i < hi
        invariant
            lo <= i <= hi <= cs@.len(),
            w@ == cs@.subrange(lo as int, i as int),
        decreases hi - i,
    {
        w.push(cs[i]);
        i = i + 1;
    }
    string_from_chars(w.as_slice())
}

/// The fields of `s` between occurrences of `sep`, as `str::split` yields
/// them: an empty sequence has one empty field, and two adjacent separators
/// enclose an empty field.
pub open spec fn split_spec(s: Seq<char>, sep: char) -> Seq<Seq<char>>
    decreases s.len(),
{
    if s.len() == 0 {
        seq![Seq::empty()]
    } else {
        let prev = split_spec(s.drop_last(), sep);
        if s.last() == sep {
            prev.push(Seq::empty())
        } else {
            prev.update(prev.len() - 1, prev.last().push(s.last()))
        }
    }
}

pub proof fn lemma_split_nonempty(s: Seq<char>, sep: char)
    ensures
        split_spec(s, sep).len() >= 1,
    decreases s.len(),
{
    if s.len() > 0 {
        lemma_split_nonempty(s.drop_last(), sep);
    }
}

pub open spec fn char_seqs(v: Seq<Vec<char>>) -> Seq<Seq<char>> {
    v.map_values(|x: Vec<char>| x@)
}

pub open spec fn strings_view(v: Seq<String>) -> Seq<Seq<char>> {
    v.map_values(|x: String| x@)
}

/// The fields of `cs` separated by `sep`.
pub fn split_chars(cs: &Vec<char>, sep: char) -> (r: Vec<Vec<char>>)
    ensures
        char_seqs(r@) == split_spec(cs@, sep),
{
    let mut fields: Vec<Vec<char>> = Vec::new();
    let mut cur: Vec<char> = Vec::new();
    let mut i: usize = 0;
    assert(cs@.take(0) =~= Seq::<char>::empty());
    assert(char_seqs(fields@).push(cur@) =~= split_spec(cs@.take(0), sep));
    while i < cs.len()
        invariant
            i <= cs@.len(),
            char_seqs(fields@).push(cur@) == split_spec(cs@.take(i as int), sep),
        decreases cs@.len() - i,
    {
        let c = cs[i];
        let ghost f0 = fields@;
        let ghost c0 = cur@;
        assert(cs@.take(i + 1).drop_last() =~= cs@.take(i as int));
        if c == sep {
            fields.push(cur);
            cur = Vec::new();
            assert(char_seqs(fields@).push(cur@) =~= char_seqs(f0).push(c0).push(Seq::empty()));
        } else {
            cur.push(c);
            assert(char_seqs(fields@).push(cur@) =~= char_seqs(f0).push(c0).update(
                char_seqs(f0).push(c0).len() - 1,
                c0.push(c),
            ));
        }
        i = i + 1;
    }
    assert(cs@.take(i as int) =~= cs@);
    fields.push(cur);
    fields
}

/// Whether `s` is a non-empty run of decimal digits.
pub open spec fn is_digits(s: Seq<char>) -> bool {
    s.len() > 0 && forall|i: int| 0 <= i < s.len() ==> '0' <= #[trigger] s[i] <= '9'
}

/// The number that the decimal digits `s` denote.
pub open spec fn digits_value(s: Seq<char>) -> nat
    decreases s.len(),
{
    if s.len() == 0 {
        0
    } else {
        digits_value(s.drop_last()) * 10 + ((s.last() as u32) - ('0' as u32)) as nat
    }
}

/// The value of the decimal number `cs[lo..hi]`, when it is one and fits in
/// a `usize`.
pub fn parse_decimal(cs: &Vec<char>, lo: usize, hi: usize) -> (r: Option<usize>)
    requires
        lo <= hi <= cs@.len(),
    ensures
        match r {
            Some(v) => is_digits(cs@.subrange(lo as int, hi as int))
                && v == digits_value(cs@.subrange(lo as int, hi as int)),
            None => !is_digits(cs@.subrange(lo as int, hi as int))
                || digits_value(cs@.subrange(lo as int, hi as int)) > usize::MAX,
        },
{
    if lo == hi {
        return None;
    }
    let mut v: usize = 0;
    let mut i: usize = lo;
    let mut overflow = false;
    assert(cs@.subrange(lo as int, lo as int) =~= Seq::<char>::empty());
    while i < hi
        invariant
            lo <= i <= hi <= cs@.len(),
            lo < hi,
            forall|j: int| lo <= j < i ==> '0' <= #[trigger] cs@[j] <= '9',
            !overflow ==> v == digits_value(cs@.subrange(lo as int, i as int)),
            overflow ==> digits_value(cs@.subrange(lo as int, i as int)) > usize::MAX,
        decreases hi - i,
    {
        let c = cs[i];
        let ghost prev = cs@.subrange(lo as int, i as int);
        assert(cs@.subrange(lo as int, i + 1).drop_last() =~= prev);
        if c < '0' || c > '9' {
            assert(!is_digits(cs@.subrange(lo as int, hi as int))) by {
                assert(cs@.subrange(lo as int, hi as int)[i - lo] == c);
            }
            return None;
        }
        let d = (c as u32 - '0' as u32) as usize;
        if !overflow {
            if v > (usize::MAX - d) / 10 {
                overflow = true;
                assert(v * 10 + d > usize::MAX) by (nonlinear_arith)
                    requires
                        v > (usize::MAX - d) / 10,
                        d <= 9,
                ;
            } else {
                assert(v * 10 + d <= usize::MAX) by (nonlinear_arith)
                    requires
                        v <= (usize::MAX - d) / 10,
                        d <= 9,
                ;
                v = v * 10 + d;
            }
        } else {
            assert(digits_value(prev) * 10 + d > usize::MAX) by (nonlinear_arith)
                requires
                    digits_value(prev) > usize::MAX,
            ;
        }
        i = i + 1;
    }
    assert(is_digits(cs@.subrange(lo as int, hi as int))) by {
        assert forall|j: int| 0 <= j < hi - lo implies '0' <= #[trigger] cs@.subrange(lo as int, hi as int)[j] <= '9' by {
            assert(cs@.subrange(lo as int, hi as int)[j] == cs@[lo + j]);
        }
    }
    if overflow {
        None
    } else {
        Some(v)
    }
}

} // verus!
