//! Looking a gene up among the records of a genome annotation.

use vstd::prelude::*;
use crate::probes::GeneCoords;

verus! {

/// One annotation record: its `Name` attribute if it has one, its 1-based
/// inclusive coordinates and its strand (`"+"`, `"-"`).
pub struct AnnotationRecord {
    pub name: Option<String>,
    pub start: u64,
    pub end: u64,
    pub strand: String,
}

pub open spec fn names_gene(r: AnnotationRecord, gene: Seq<char>) -> bool {
    match r.name {
        Some(n) => n@ == gene,
        None => false,
    }
}

/// Start, end and strand of the first record named `gene`, if any.
pub fn coords_for_gene(records: &Vec<AnnotationRecord>, gene: &String) -> (r: Option<GeneCoords>)
    ensures
        match r {
            Some(c) => exists|i: int| {
                &&& 0 <= i < records@.len()
                &&& #[trigger] names_gene(records@[i], gene@)
                &&& (forall|j: int| 0 <= j < i ==> !names_gene(records@[j], gene@))
                &&& c.0 == records@[i].start
                &&& c.1 == records@[i].end
                &&& c.2@ == records@[i].strand@
            },
            None => forall|i: int| 0 <= i < records@.len() ==> !names_gene(#[trigger] records@[i], gene@),
        },
{
    let mut i: usize = 0;
    while i < records.len()
        invariant
            i <= records@.len(),
            forall|j: int| 0 <= j < i ==> !names_gene(#[trigger] records@[j], gene@),
        decreases records@.len() - i,
    {
        let rec = &records[i];
        let hit = match &rec.name {
            Some(n) => *n == *gene,
            None => false,
        };
        if hit {
            assert(names_gene(records@[i as int], gene@));
            return Some((rec.start, rec.end, rec.strand.clone()));
        }
        i = i + 1;
    }
    None
}

} // verus!
