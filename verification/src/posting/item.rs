use vstd::prelude::*;

use crate::types::{DocId, Position};

verus! {

/// Mathematical value of a posting: the document, the token positions in it
/// and the weight the indexed part gave the term.
pub ghost struct PostingV {
    pub doc_id: DocId,
    pub positions: Seq<Position>,
    pub weight: u16,
}

/// One entry of an inverted index: a document together with the positions
/// of a term inside it and the weight of that term there.
#[derive(Debug)]
pub struct Posting {
    pub doc_id: DocId,
    pub positions: Vec<Position>,
    pub weight: u16,
}

impl View for Posting {
    type V = PostingV;

    open spec fn view(&self) -> PostingV {
        PostingV { doc_id: self.doc_id, positions: self.positions@, weight: self.weight }
    }
}

impl Posting {
    /// A posting with weight 0.
    pub fn new(doc_id: DocId, positions: Vec<Position>) -> (r: Self)
        ensures
            r@ == (PostingV { doc_id, positions: positions@, weight: 0 }),
    {
        Posting { doc_id, positions, weight: 0 }
    }

    /// A posting with the given weight.
    pub fn with_weight(doc_id: DocId, positions: Vec<Position>, weight: u16) -> (r: Self)
        ensures
            r@ == (PostingV { doc_id, positions: positions@, weight }),
    {
        Posting { doc_id, positions, weight }
    }

    /// A copy of this posting.
    pub fn duplicate(&self) -> (r: Self)
        ensures
            r@ == self@,
    {
        let mut positions: Vec<Position> = Vec::with_capacity(self.positions.len());
        let mut i: usize = 0;
        while i < self.positions.len()
            invariant
                i <= self.positions.len(),
                positions@ == self.positions@.subrange(0, i as int),
            decreases self.positions.len() - i,
        {
            positions.push(self.positions[i]);
            i += 1;
        }
        assert(positions@ == self.positions@);
        Posting { doc_id: self.doc_id, positions, weight: self.weight }
    }
}

} // verus!
