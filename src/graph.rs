//! Reference variation graphs in GFA text form: segments, links and paths,
//! and the selection of the core segments that probes may be drawn from.

use vstd::prelude::*;
use crate::kmer::{is_tiling, tile_kmers, tiles_model};
use crate::FilteredKmers;
use crate::probes::{probe_tiles, GeneKmers, Probes};
use crate::text::{
    chars_of, char_seqs, digits_value, is_digits, parse_decimal, split_chars, split_spec, string_from_chars,
    strings_view, window_string,
};

verus! {

/// A node of the graph: its name, its bases, and the coordinate of its
/// first base (its `SO:i:` tag, 0 without one).
pub struct Segment {
    pub name: String,
    pub sequence: String,
    pub offset: usize,
}

/// A directed adjacency between two oriented segments.
pub struct Link {
    pub from: String,
    pub from_orient: char,
    pub to: String,
    pub to_orient: char,
    pub overlap: String,
}

/// A named haplotype: a walk through oriented segments.
pub struct GfaPath {
    pub name: String,
    pub segments: Vec<(String, char)>,
    pub overlaps: Vec<String>,
}

/// A whole graph.
pub struct Gfa {
    pub segments: Vec<Segment>,
    pub links: Vec<Link>,
    pub paths: Vec<GfaPath>,
}

/// One record line of a GFA file.
pub enum GfaLine {
    Segment(Segment),
    Link(Link),
    Path(GfaPath),
    Other(String),
}

pub type SegmentModel = (Seq<char>, Seq<char>, usize);

pub type LinkModel = (Seq<char>, char, Seq<char>, char, Seq<char>);

pub type PathModel = (Seq<char>, Seq<(Seq<char>, char)>, Seq<Seq<char>>);

/// A record line as plain values.
pub enum GfaLineModel {
    Segment(SegmentModel),
    Link(LinkModel),
    Path(PathModel),
    Other(Seq<char>),
}

impl View for Segment {
    type V = SegmentModel;

    open spec fn view(&self) -> SegmentModel {
        (self.name@, self.sequence@, self.offset)
    }
}

impl View for Link {
    type V = LinkModel;

    open spec fn view(&self) -> LinkModel {
        (self.from@, self.from_orient, self.to@, self.to_orient, self.overlap@)
    }
}

pub open spec fn steps_view(v: Seq<(String, char)>) -> Seq<(Seq<char>, char)> {
    v.map_values(|st: (String, char)| (st.0@, st.1))
}

impl View for GfaPath {
    type V = PathModel;

    open spec fn view(&self) -> PathModel {
        (self.name@, steps_view(self.segments@), strings_view(self.overlaps@))
    }
}

impl View for GfaLine {
    type V = GfaLineModel;

    open spec fn view(&self) -> GfaLineModel {
        match self {
            GfaLine::Segment(s) => GfaLineModel::Segment(s@),
            GfaLine::Link(l) => GfaLineModel::Link(l@),
            GfaLine::Path(p) => GfaLineModel::Path(p@),
            GfaLine::Other(o) => GfaLineModel::Other(o@),
        }
    }
}

/// A path step such as `s12+`: the segment name and the orientation, its
/// last character.
pub open spec fn step_spec(st: Seq<char>) -> (Seq<char>, char) {
    (st.drop_last(), st.last())
}

/// The value of an `SO:i:<digits>` tag.
pub open spec fn offset_tag_value(f: Seq<char>) -> Option<nat> {
    if f.len() >= 5 && f.subrange(0, 5) == seq!['S', 'O', ':', 'i', ':'] && is_digits(f.subrange(5, f.len() as int)) {
        Some(digits_value(f.subrange(5, f.len() as int)))
    } else {
        None
    }
}

/// The value of the first `SO:i:` tag among `fields[i..]`.
pub open spec fn offset_tag_from(fields: Seq<Seq<char>>, i: int) -> Option<nat>
    decreases fields.len() - i,
{
    if i < 0 || i >= fields.len() {
        None
    } else {
        match offset_tag_value(fields[i]) {
            Some(v) => Some(v),
            None => offset_tag_from(fields, i + 1),
        }
    }
}

/// The coordinate offset a segment record gives: its first `SO:i:` tag, or 0.
pub open spec fn segment_offset(fields: Seq<Seq<char>>) -> nat {
    match offset_tag_from(fields, 3) {
        Some(v) => v,
        None => 0,
    }
}

/// What a line of GFA text denotes, split on tabs: `S name seq [tags]`, `L from
/// orient to orient [overlap]` (an empty overlap when it is missing), `P name steps overlaps` (steps and overlaps
/// comma-separated), or another record kept as it is. `None` for a
/// recognised record with missing fields, an empty orientation or step, or
/// a segment whose last base would lie beyond the largest `usize`
/// coordinate.
pub open spec fn parse_line_spec(line: Seq<char>) -> Option<GfaLineModel> {
    let f = split_spec(line, '\t');
    let tag = f[0];
    if tag == seq!['S'] {
        if f.len() >= 3 && segment_offset(f) + f[2].len() <= usize::MAX {
            Some(GfaLineModel::Segment((f[1], f[2], segment_offset(f) as usize)))
        } else {
            None
        }
    } else if tag == seq!['L'] {
        if f.len() >= 5 && f[2].len() > 0 && f[4].len() > 0 {
            let overlap = if f.len() >= 6 { f[5] } else { Seq::empty() };
            Some(GfaLineModel::Link((f[1], f[2][0], f[3], f[4][0], overlap)))
        } else {
            None
        }
    } else if tag == seq!['P'] {
        if f.len() >= 4 {
            let steps = split_spec(f[2], ',');
            if forall|i: int| 0 <= i < steps.len() ==> (#[trigger] steps[i]).len() > 0 {
                Some(GfaLineModel::Path((f[1], steps.map_values(|st: Seq<char>| step_spec(st)), split_spec(f[3], ','))))
            } else {
                None
            }
        } else {
            None
        }
    } else {
        Some(GfaLineModel::Other(line))
    }
}

pub open spec fn line_view(r: Option<GfaLine>) -> Option<GfaLineModel> {
    match r {
        Some(l) => Some(l@),
        None => None,
    }
}

fn is_single(f: &Vec<char>, c: char) -> (r: bool)
    ensures
        r == (f@ == seq![c]),
{
    if f.len() == 1 && f[0] == c {
        assert(f@ =~= seq![c]);
        true
    } else {
        false
    }
}

fn strings_of(v: &Vec<Vec<char>>) -> (r: Vec<String>)
    ensures
        strings_view(r@) == char_seqs(v@),
{
    let mut r: Vec<String> = Vec::new();
    let mut i: usize = 0;
    while i < v.len()
        invariant
            i <= v@.len(),
            strings_view(r@) == char_seqs(v@).take(i as int),
        decreases v@.len() - i,
    {
        let ghost r0 = r@;
        r.push(string_from_chars(v[i].as_slice()));
        assert(strings_view(r@) =~= strings_view(r0).push(v@[i as int]@));
        assert(char_seqs(v@).take(i + 1) =~= char_seqs(v@).take(i as int).push(v@[i as int]@));
        i = i + 1;
    }
    assert(char_seqs(v@).take(v@.len() as int) =~= char_seqs(v@));
    r
}

fn parse_steps(steps: &Vec<Vec<char>>) -> (r: Option<Vec<(String, char)>>)
    ensures
        match r {
            Some(v) => (forall|i: int| 0 <= i < steps@.len() ==> (#[trigger] steps@[i])@.len() > 0)
                && steps_view(v@) == char_seqs(steps@).map_values(|st: Seq<char>| step_spec(st)),
            None => exists|i: int| 0 <= i < steps@.len() && (#[trigger] steps@[i])@.len() == 0,
        },
{
    let ghost want = char_seqs(steps@).map_values(|st: Seq<char>| step_spec(st));
    let mut r: Vec<(String, char)> = Vec::new();
    let mut i: usize = 0;
    while i < steps.len()
        invariant
            i <= steps@.len(),
            want == char_seqs(steps@).map_values(|st: Seq<char>| step_spec(st)),
            forall|j: int| 0 <= j < i ==> (#[trigger] steps@[j])@.len() > 0,
            steps_view(r@) == want.take(i as int),
        decreases steps@.len() - i,
    {
        let st = &steps[i];
        if st.len() == 0 {
            assert(steps@[i as int]@.len() == 0);
            return None;
        }
        let n = st.len();
        let name = window_string(st, 0, n - 1);
        let orient = st[n - 1];
        let ghost r0 = r@;
        r.push((name, orient));
        assert(st@.drop_last() =~= st@.subrange(0, n - 1));
        assert(steps_view(r@) =~= steps_view(r0).push(step_spec(st@)));
        assert(want.take(i + 1) =~= want.take(i as int).push(want[i as int]));
        i = i + 1;
    }
    assert(want.take(want.len() as int) =~= want);
    Some(r)
}

fn all_digits(cs: &Vec<char>, lo: usize, hi: usize) -> (r: bool)
    requires
        lo <= hi <= cs@.len(),
    ensures
        r == is_digits(cs@.subrange(lo as int, hi as int)),
{
    if lo == hi {
        return false;
    }
    let mut i: usize = lo;
    while i < hi
        invariant
            lo <= i <= hi <= cs@.len(),
            forall|j: int| lo <= j < i ==> '0' <= #[trigger] cs@[j] <= '9',
        decreases hi - i,
    {
        if cs[i] < '0' || cs[i] > '9' {
            assert(cs@.subrange(lo as int, hi as int)[i - lo] == cs@[i as int]);
            return false;
        }
        i = i + 1;
    }
    assert forall|j: int| 0 <= j < hi - lo implies '0' <= #[trigger] cs@.subrange(lo as int, hi as int)[j] <= '9' by {
        assert(cs@.subrange(lo as int, hi as int)[j] == cs@[lo + j]);
    }
    true
}

/// The coordinate offset of a segment record (see `segment_offset`), or
/// `None` when it does not fit in a `usize`.
fn offset_of(fields: &Vec<Vec<char>>) -> (r: Option<usize>)
    requires
        fields@.len() >= 3,
    ensures
        match r {
            Some(v) => v == segment_offset(char_seqs(fields@)),
            None => segment_offset(char_seqs(fields@)) > usize::MAX,
        },
{
    let ghost f = char_seqs(fields@);
    let mut i: usize = 3;
    while i < fields.len()
        invariant
            3 <= i <= fields@.len(),
            f == char_seqs(fields@),
            offset_tag_from(f, 3) == offset_tag_from(f, i as int),
        decreases fields@.len() - i,
    {
        let fv = &fields[i];
        assert(f[i as int] == fv@);
        let n = fv.len();
        if n >= 5 && fv[0] == 'S' && fv[1] == 'O' && fv[2] == ':' && fv[3] == 'i' && fv[4] == ':' && all_digits(fv, 5, n) {
            assert(fv@.subrange(0, 5) =~= seq!['S', 'O', ':', 'i', ':']);
            return parse_decimal(fv, 5, n);
        }
        assert(offset_tag_value(fv@) is None) by {
            if n >= 5 && fv@.subrange(0, 5) == seq!['S', 'O', ':', 'i', ':'] {
                assert(fv@.subrange(0, 5)[0] == fv@[0]);
                assert(fv@.subrange(0, 5)[1] == fv@[1]);
                assert(fv@.subrange(0, 5)[2] == fv@[2]);
                assert(fv@.subrange(0, 5)[3] == fv@[3]);
                assert(fv@.subrange(0, 5)[4] == fv@[4]);
            }
        }
        i = i + 1;
    }
    Some(0)
}

/// Parses one line of GFA text (see `parse_line_spec`).
pub fn parse_line(line: &str) -> (r: Option<GfaLine>)
    ensures
        line_view(r) == parse_line_spec(line@),
{
    let cs = chars_of(line);
    let fields = split_chars(&cs, '\t');
    proof {
        crate::text::lemma_split_nonempty(line@, '\t');
    }
    let ghost f = split_spec(line@, '\t');
    assert(fields@[0]@ == f[0]);
    if is_single(&fields[0], 'S') {
        if fields.len() >= 3 {
            assert(fields@[1]@ == f[1] && fields@[2]@ == f[2]);
            match offset_of(&fields) {
                Some(offset) => {
                    if offset <= usize::MAX - fields[2].len() {
                        let name = string_from_chars(fields[1].as_slice());
                        let sequence = string_from_chars(fields[2].as_slice());
                        Some(GfaLine::Segment(Segment { name, sequence, offset }))
                    } else {
                        None
                    }
                },
                None => None,
            }
        } else {
            None
        }
    } else if is_single(&fields[0], 'L') {
        if fields.len() >= 5 && fields[2].len() > 0 && fields[4].len() > 0 {
            assert(fields@[1]@ == f[1] && fields@[2]@ == f[2] && fields@[3]@ == f[3]);
            assert(fields@[4]@ == f[4]);
            let overlap = if fields.len() >= 6 {
                assert(fields@[5]@ == f[5]);
                string_from_chars(fields[5].as_slice())
            } else {
                String::new()
            };
            let link = Link {
                from: string_from_chars(fields[1].as_slice()),
                from_orient: fields[2][0],
                to: string_from_chars(fields[3].as_slice()),
                to_orient: fields[4][0],
                overlap,
            };
            Some(GfaLine::Link(link))
        } else {
            None
        }
    } else if is_single(&fields[0], 'P') {
        if fields.len() >= 4 {
            assert(fields@[1]@ == f[1] && fields@[2]@ == f[2] && fields@[3]@ == f[3]);
            let steps = split_chars(&fields[2], ',');
            match parse_steps(&steps) {
                Some(segments) => {
                    let overlaps = strings_of(&split_chars(&fields[3], ','));
                    let name = string_from_chars(fields[1].as_slice());
                    Some(GfaLine::Path(GfaPath { name, segments, overlaps }))
                },
                None => {
                    proof {
                        let i = choose|i: int| 0 <= i < steps@.len() && (#[trigger] steps@[i])@.len() == 0;
                        assert(char_seqs(steps@)[i].len() == 0);
                    }
                    None
                },
            }
        } else {
            None
        }
    } else {
        Some(GfaLine::Other(string_from_chars(cs.as_slice())))
    }
}

/// End coordinate of a segment's region: one past its length, capped at
/// the largest `u64`.
pub open spec fn segment_end(len: nat) -> int {
    if len + 1 <= u64::MAX { len + 1 as int } else { u64::MAX as int }
}

/// The graph as plain values: segments, links, paths.
pub type GfaModel = (Seq<SegmentModel>, Seq<LinkModel>, Seq<PathModel>);

/// Lines that hold no record: empty ones and comments.
pub open spec fn is_skipped(line: Seq<char>) -> bool {
    line.len() == 0 || line[0] == '#'
}

/// The graph that `lines` describe, records in file order; lines without a
/// record, malformed records and other record kinds add nothing.
pub open spec fn gfa_spec(lines: Seq<Seq<char>>) -> GfaModel
    decreases lines.len(),
{
    if lines.len() == 0 {
        (Seq::empty(), Seq::empty(), Seq::empty())
    } else {
        let prev = gfa_spec(lines.drop_last());
        let line = lines.last();
        if is_skipped(line) {
            prev
        } else {
            match parse_line_spec(line) {
                Some(GfaLineModel::Segment(s)) => (prev.0.push(s), prev.1, prev.2),
                Some(GfaLineModel::Link(l)) => (prev.0, prev.1.push(l), prev.2),
                Some(GfaLineModel::Path(p)) => (prev.0, prev.1, prev.2.push(p)),
                _ => prev,
            }
        }
    }
}

/// Every segment's last base has a `usize` coordinate.
pub open spec fn segments_fit(segs: Seq<SegmentModel>) -> bool {
    forall|i: int| 0 <= i < segs.len() ==> (#[trigger] segs[i]).2 + segs[i].1.len() <= usize::MAX
}

pub proof fn lemma_parsed_segments_fit(lines: Seq<Seq<char>>)
    ensures
        segments_fit(gfa_spec(lines).0),
    decreases lines.len(),
{
    if lines.len() > 0 {
        lemma_parsed_segments_fit(lines.drop_last());
    }
}

proof fn lemma_core_fits(segs: Seq<SegmentModel>, pred: spec_fn(SegmentModel) -> bool)
    requires
        segments_fit(segs),
    ensures
        segments_fit(segs.filter(pred)),
{
    let core = segs.filter(pred);
    assert forall|i: int| 0 <= i < core.len() implies (#[trigger] core[i]).2 + core[i].1.len() <= usize::MAX by {
        assert(core.contains(core[i]));
        segs.lemma_filter_contains_rev(pred, core[i]);
        let j = choose|j: int| 0 <= j < segs.len() && segs[j] == core[i];
        assert(segs[j].2 + segs[j].1.len() <= usize::MAX);
    }
}

/// Names of the segments a path walks through, in order.
pub open spec fn step_names(p: PathModel) -> Seq<Seq<char>> {
    p.1.map_values(|st: (Seq<char>, char)| st.0)
}

/// How many times `x` occurs in `names`.
pub open spec fn occurrences(names: Seq<Seq<char>>, x: Seq<char>) -> nat
    decreases names.len(),
{
    if names.len() == 0 {
        0
    } else {
        occurrences(names.drop_last(), x) + if names.last() == x { 1nat } else { 0nat }
    }
}

/// A segment is core when there is at least one path and it occurs exactly
/// once in every path.
pub open spec fn is_core(paths: Seq<PathModel>, x: Seq<char>) -> bool {
    paths.len() > 0 && forall|i: int| 0 <= i < paths.len() ==> occurrences(step_names(#[trigger] paths[i]), x) == 1
}

pub proof fn lemma_occurs_in(names: Seq<Seq<char>>, x: Seq<char>)
    requires
        occurrences(names, x) > 0,
    ensures
        exists|j: int| 0 <= j < names.len() && names[j] == x,
    decreases names.len(),
{
    if names.last() != x {
        lemma_occurs_in(names.drop_last(), x);
        let j = choose|j: int| 0 <= j < names.drop_last().len() && names.drop_last()[j] == x;
        assert(names[j] == x);
    } else {
        assert(names[names.len() - 1] == x);
    }
}

fn count_steps(steps: &Vec<(String, char)>, x: &String) -> (r: usize)
    ensures
        r == occurrences(steps_view(steps@).map_values(|st: (Seq<char>, char)| st.0), x@),
{
    let ghost names = steps_view(steps@).map_values(|st: (Seq<char>, char)| st.0);
    let mut c: usize = 0;
    let mut i: usize = 0;
    while i < steps.len()
        invariant
            i <= steps@.len(),
            names == steps_view(steps@).map_values(|st: (Seq<char>, char)| st.0),
            c == occurrences(names.take(i as int), x@),
            c <= i,
        decreases steps@.len() - i,
    {
        assert(names.take(i + 1).drop_last() =~= names.take(i as int));
        assert(names[i as int] == steps@[i as int].0@);
        if steps[i].0 == *x {
            c = c + 1;
        }
        i = i + 1;
    }
    assert(names.take(i as int) =~= names);
    c
}

fn contains_string(v: &Vec<String>, x: &String) -> (r: bool)
    ensures
        r == strings_view(v@).contains(x@),
{
    let mut i: usize = 0;
    while i < v.len()
        invariant
            i <= v@.len(),
            forall|j: int| 0 <= j < i ==> v@[j]@ != x@,
        decreases v@.len() - i,
    {
        if v[i] == *x {
            assert(strings_view(v@)[i as int] == x@);
            return true;
        }
        i = i + 1;
    }
    false
}

pub open spec fn segment_views(v: Seq<Segment>) -> Seq<SegmentModel> {
    v.map_values(|s: Segment| s@)
}

pub open spec fn link_views(v: Seq<Link>) -> Seq<LinkModel> {
    v.map_values(|l: Link| l@)
}

pub open spec fn path_views(v: Seq<GfaPath>) -> Seq<PathModel> {
    v.map_values(|p: GfaPath| p@)
}

impl View for Gfa {
    type V = GfaModel;

    open spec fn view(&self) -> GfaModel {
        (segment_views(self.segments@), link_views(self.links@), path_views(self.paths@))
    }
}

impl Gfa {
    /// The graph described by the lines of a GFA file (see `gfa_spec`).
    pub fn from_lines(lines: &Vec<String>) -> (r: Gfa)
        ensures
            r@ == gfa_spec(strings_view(lines@)),
            segments_fit(r@.0),
    {
        proof {
            lemma_parsed_segments_fit(strings_view(lines@));
        }
        let ghost ls = strings_view(lines@);
        let mut segments: Vec<Segment> = Vec::new();
        let mut links: Vec<Link> = Vec::new();
        let mut paths: Vec<GfaPath> = Vec::new();
        let mut i: usize = 0;
        while i < lines.len()
            invariant
                i <= lines@.len(),
                ls == strings_view(lines@),
                (segment_views(segments@), link_views(links@), path_views(paths@)) == gfa_spec(ls.take(i as int)),
            decreases lines@.len() - i,
        {
            let ghost s0 = segments@;
            let ghost l0 = links@;
            let ghost p0 = paths@;
            assert(ls.take(i + 1).drop_last() =~= ls.take(i as int));
            assert(ls.take(i + 1).last() == lines@[i as int]@);
            let line = lines[i].as_str();
            let skip = line.is_empty() || line.get_char(0) == '#';
            if !skip {
                match parse_line(line) {
                    Some(GfaLine::Segment(s)) => {
                        segments.push(s);
                        assert(segment_views(segments@) =~= segment_views(s0).push(s@));
                    },
                    Some(GfaLine::Link(l)) => {
                        links.push(l);
                        assert(link_views(links@) =~= link_views(l0).push(l@));
                    },
                    Some(GfaLine::Path(p)) => {
                        paths.push(p);
                        assert(path_views(paths@) =~= path_views(p0).push(p@));
                    },
                    _ => {},
                }
            }
            i = i + 1;
        }
        assert(ls.take(ls.len() as int) =~= ls);
        Gfa { segments, links, paths }
    }

    /// Names of the core segments (see `is_core`), each once.
    pub fn core_segments(&self) -> (r: Vec<String>)
        ensures
            strings_view(r@).no_duplicates(),
            forall|i: int| 0 <= i < r@.len() ==> is_core(self@.2, #[trigger] r@[i]@),
            forall|x: Seq<char>| is_core(self@.2, x) ==> strings_view(r@).contains(x),
    {
        let mut r: Vec<String> = Vec::new();
        if self.paths.len() == 0 {
            return r;
        }
        let ghost paths = self@.2;
        let first = &self.paths[0].segments;
        let ghost names0 = step_names(paths[0]);
        assert(names0 =~= steps_view(first@).map_values(|st: (Seq<char>, char)| st.0));
        let mut j: usize = 0;
        while j < first.len()
            invariant
                j <= first@.len(),
                paths == self@.2,
                paths.len() > 0,
                names0 == step_names(paths[0]),
                names0 == steps_view(first@).map_values(|st: (Seq<char>, char)| st.0),
                first == self.paths@[0].segments,
                strings_view(r@).no_duplicates(),
                forall|i: int| 0 <= i < r@.len() ==> is_core(paths, #[trigger] r@[i]@),
                forall|jj: int| 0 <= jj < j && is_core(paths, #[trigger] names0[jj]) ==> strings_view(r@).contains(names0[jj]),
            decreases first@.len() - j,
        {
            let x = &first[j].0;
            assert(names0[j as int] == x@);
            let mut core = true;
            let mut q: usize = 0;
            while q < self.paths.len()
                invariant
                    q <= self.paths@.len(),
                    paths == self@.2,
                    core <==> forall|qq: int| 0 <= qq < q ==> occurrences(step_names(#[trigger] paths[qq]), x@) == 1,
                decreases self.paths@.len() - q,
            {
                let c = count_steps(&self.paths[q].segments, x);
                assert(step_names(paths[q as int]) =~= steps_view(self.paths@[q as int].segments@).map_values(
                    |st: (Seq<char>, char)| st.0,
                ));
                if c != 1 {
                    core = false;
                }
                q = q + 1;
            }
            let ghost r0 = r@;
            let present = contains_string(&r, x);
            if core && !present {
                r.push(x.clone());
                assert(strings_view(r@) =~= strings_view(r0).push(x@));
                assert(strings_view(r@)[r@.len() - 1] == x@);
                assert forall|y: Seq<char>| strings_view(r0).contains(y) implies strings_view(r@).contains(y) by {
                    let k = choose|k: int| 0 <= k < strings_view(r0).len() && strings_view(r0)[k] == y;
                    assert(strings_view(r@)[k] == y);
                }
            }
            if !core {
                let ghost qq = choose|qq: int| 0 <= qq < paths.len() && occurrences(step_names(#[trigger] paths[qq]), x@) != 1;
                assert(!is_core(paths, x@));
            }
            assert(strings_view(r@).contains(names0[j as int]) || !is_core(paths, names0[j as int]));
            j = j + 1;
        }
        proof {
            assert forall|x: Seq<char>| is_core(paths, x) implies strings_view(r@).contains(x) by {
                assert(occurrences(step_names(paths[0]), x) == 1);
                lemma_occurs_in(names0, x);
                let jj = choose|jj: int| 0 <= jj < names0.len() && names0[jj] == x;
                assert(is_core(paths, names0[jj]));
            }
        }
        r
    }

    /// The segments whose names are core, in the order of the graph.
    pub fn core_segment_structs(&self) -> (r: Vec<&Segment>)
        ensures
            segment_views(r@.map_values(|s: &Segment| *s)) == segment_views(self.segments@).filter(
                |s: SegmentModel| is_core(self@.2, s.0),
            ),
    {
        let core = self.core_segments();
        let ghost pred = |s: SegmentModel| is_core(self@.2, s.0);
        let ghost sv = segment_views(self.segments@);
        let mut r: Vec<&Segment> = Vec::new();
        let mut i: usize = 0;
        while i < self.segments.len()
            invariant
                i <= self.segments@.len(),
                sv == segment_views(self.segments@),
                pred == (|s: SegmentModel| is_core(self@.2, s.0)),
                forall|x: Seq<char>| is_core(self@.2, x) <==> strings_view(core@).contains(x),
                segment_views(r@.map_values(|s: &Segment| *s)) == sv.take(i as int).filter(pred),
            decreases self.segments@.len() - i,
        {
            let seg = &self.segments[i];
            let ghost r0 = r@;
            assert(sv.take(i + 1) =~= sv.take(i as int).push(sv[i as int]));
            proof {
                sv.take(i as int).lemma_filter_push(sv[i as int], pred);
            }
            if contains_string(&core, &seg.name) {
                r.push(seg);
                assert(segment_views(r@.map_values(|s: &Segment| *s)) =~= segment_views(
                    r0.map_values(|s: &Segment| *s),
                ).push(sv[i as int]));
            } else {
                assert(!pred(sv[i as int]));
            }
            i = i + 1;
        }
        assert(sv.take(sv.len() as int) =~= sv);
        r
    }

    /// One probe set per core segment, in the order of the graph: the
    /// segment's probes of width `kmer_size` located from its own offset,
    /// region `1 ..= len + 1`, forward strand.
    pub fn segment_probe_sets(&self, kmer_size: usize) -> (r: Vec<GeneKmers>)
        requires
            kmer_size >= 2,
            segments_fit(self@.0),
        ensures
            ({
                let core = segment_views(self.segments@).filter(|s: SegmentModel| is_core(self@.2, s.0));
                &&& r@.len() == core.len()
                &&& forall|i: int| 0 <= i < r@.len() ==> {
                    let g = #[trigger] r@[i];
                    &&& g.gene@ == core[i].0
                    &&& g.start == 1
                    &&& g.end == segment_end(core[i].1.len())
                    &&& g.strand@ == seq!['+']
                    &&& g.kmer_hits@.len() == 0
                    &&& is_tiling(core[i].1, kmer_size as int, core[i].2 as int, probe_tiles(g.kmers@))
                    &&& forall|m: int| 0 <= m < g.kmers@.len() ==> (#[trigger] g.kmers@[m])@.is_scored()
                }
            }),
    {
        let segs = self.core_segment_structs();
        let ghost core = segment_views(segs@.map_values(|s: &Segment| *s));
        proof {
            lemma_core_fits(segment_views(self.segments@), |s: SegmentModel| is_core(self@.2, s.0));
        }
        let mut r: Vec<GeneKmers> = Vec::new();
        let mut i: usize = 0;
        while i < segs.len()
            invariant
                i <= segs@.len(),
                kmer_size >= 2,
                segments_fit(core),
                core == segment_views(segs@.map_values(|s: &Segment| *s)),
                r@.len() == i,
                forall|j: int| 0 <= j < i ==> {
                    let g = #[trigger] r@[j];
                    &&& g.gene@ == core[j].0
                    &&& g.start == 1
                    &&& g.end == segment_end(core[j].1.len())
                    &&& g.strand@ == seq!['+']
                    &&& g.kmer_hits@.len() == 0
                    &&& is_tiling(core[j].1, kmer_size as int, core[j].2 as int, probe_tiles(g.kmers@))
                    &&& forall|m: int| 0 <= m < g.kmers@.len() ==> (#[trigger] g.kmers@[m])@.is_scored()
                },
            decreases segs@.len() - i,
        {
            let seg = segs[i];
            assert(core[i as int] == seg@);
            let n = seg.sequence.unicode_len();
            let kmers = Probes::generate_probes(seg.sequence.as_str(), kmer_size, seg.offset);
            let end = (n as u64).saturating_add(1);
            let mut strand = String::new();
            strand.append("+");
            proof {
                reveal_strlit("+");
            }
            r.push(GeneKmers {
                gene: seg.name.clone(),
                start: 1,
                end,
                kmers,
                strand,
                kmer_hits: Vec::new(),
            });
            i = i + 1;
        }
        r
    }
}

impl Gfa {
    /// One tiling per core segment, in the order of the graph: every k-mer
    /// of width `kmer_size` with its 1-based positions counted from the
    /// segment's offset, region `1 ..= len + 1`, forward strand.
    pub fn segment_tilings(&self, kmer_size: usize) -> (r: Vec<FilteredKmers>)
        requires
            segments_fit(self@.0),
        ensures
            ({
                let core = segment_views(self.segments@).filter(|s: SegmentModel| is_core(self@.2, s.0));
                &&& r@.len() == core.len()
                &&& forall|i: int| 0 <= i < r@.len() ==> {
                    let f = #[trigger] r@[i];
                    &&& f.gene@ == core[i].0
                    &&& f.start == 1
                    &&& f.end == segment_end(core[i].1.len())
                    &&& f.strand@ == seq!['+']
                    &&& (kmer_size >= 1 ==> is_tiling(core[i].1, kmer_size as int, core[i].2 + 1, tiles_model(f.kmers@)))
                    &&& (kmer_size == 0 ==> f.kmers@.len() == 0)
                }
            }),
    {
        let segs = self.core_segment_structs();
        let ghost core = segment_views(segs@.map_values(|s: &Segment| *s));
        proof {
            lemma_core_fits(segment_views(self.segments@), |s: SegmentModel| is_core(self@.2, s.0));
        }
        let mut r: Vec<FilteredKmers> = Vec::new();
        let mut i: usize = 0;
        while i < segs.len()
            invariant
                i <= segs@.len(),
                segments_fit(core),
                core == segment_views(segs@.map_values(|s: &Segment| *s)),
                r@.len() == i,
                forall|j: int| 0 <= j < i ==> {
                    let f = #[trigger] r@[j];
                    &&& f.gene@ == core[j].0
                    &&& f.start == 1
                    &&& f.end == segment_end(core[j].1.len())
                    &&& f.strand@ == seq!['+']
                    &&& (kmer_size >= 1 ==> is_tiling(core[j].1, kmer_size as int, core[j].2 + 1, tiles_model(f.kmers@)))
                    &&& (kmer_size == 0 ==> f.kmers@.len() == 0)
                },
            decreases segs@.len() - i,
        {
            let seg = segs[i];
            assert(core[i as int] == seg@);
            let n = seg.sequence.unicode_len();
            let kmers = if kmer_size >= 1 {
                let first = if n > 0 { seg.offset + 1 } else { seg.offset };
                tile_kmers(seg.sequence.as_str(), kmer_size, first)
            } else {
                Vec::new()
            };
            let end = (n as u64).saturating_add(1);
            let mut strand = String::new();
            strand.append("+");
            proof {
                reveal_strlit("+");
            }
            r.push(FilteredKmers { gene: seg.name.clone(), start: 1, end, kmers, strand });
            i = i + 1;
        }
        r
    }
}

} // verus!
