//! A document as the index takes it in: its parts of text and its numbers.

use vstd::prelude::*;

use crate::document::all_fields::DocumentPart;
use crate::document::policy::WeightInterval;
use crate::numeric::values::NumericKind;
use crate::types::{DocId, XPathId};

verus! {

/// A number of a document: the field path, the kind of number and its value packed so that
/// packed values order as the numbers do.
#[derive(Debug, Clone, Copy)]
pub struct NumericPoint {
    pub xpath: XPathId,
    pub kind: NumericKind,
    pub packed: u64,
}

/// One document to index.
#[derive(Debug, Clone)]
pub struct IndexedDocument {
    pub doc_id: DocId,
    pub parts: Vec<DocumentPart>,
    pub numeric_points: Vec<NumericPoint>,
}

impl IndexedDocument {
    /// The document `doc_id`, with nothing in it yet.
    pub fn new(doc_id: DocId) -> (r: Self)
        ensures
            r.doc_id == doc_id,
            r.parts@.len() == 0,
            r.numeric_points@.len() == 0,
    {
        IndexedDocument { doc_id, parts: Vec::new(), numeric_points: Vec::new() }
    }

    /// The document with the number `packed` of kind `kind` at `xpath` added.
    pub fn with_numeric_point(self, xpath: XPathId, kind: NumericKind, packed: u64) -> (r: Self)
        ensures
            r.doc_id == self.doc_id,
            r.parts@ == self.parts@,
            r.numeric_points@ == self.numeric_points@.push(NumericPoint { xpath, kind, packed }),
    {
        let mut d = self;
        d.numeric_points.push(NumericPoint { xpath, kind, packed });
        d
    }

    /// The document with the text `text` at `xpath` added, to be cut into terms.
    pub fn with_part(self, xpath: XPathId, text: String, weight: WeightInterval) -> (r: Self)
        ensures
            r.doc_id == self.doc_id,
            r.numeric_points@ == self.numeric_points@,
            r.parts@.len() == self.parts@.len() + 1,
            r.parts@.take(self.parts@.len() as int) == self.parts@,
            r.parts@.last().xpath == xpath && r.parts@.last().text@ == text@ && r.parts@.last().weight == weight
                && !r.parts@.last().exact,
    {
        let mut d = self;
        d.parts.push(DocumentPart { xpath, text, weight, exact: false });
        proof {
            assert(d.parts@.take(self.parts@.len() as int) =~= self.parts@);
        }
        d
    }

    /// The document with the text `text` at `xpath` added, to be indexed as one exact term.
    pub fn with_exact(self, xpath: XPathId, text: String, weight: WeightInterval) -> (r: Self)
        ensures
            r.doc_id == self.doc_id,
            r.numeric_points@ == self.numeric_points@,
            r.parts@.len() == self.parts@.len() + 1,
            r.parts@.take(self.parts@.len() as int) == self.parts@,
            r.parts@.last().xpath == xpath && r.parts@.last().text@ == text@ && r.parts@.last().weight == weight
                && r.parts@.last().exact,
    {
        let mut d = self;
        d.parts.push(DocumentPart { xpath, text, weight, exact: true });
        proof {
            assert(d.parts@.take(self.parts@.len() as int) =~= self.parts@);
        }
        d
    }
}

} // verus!
