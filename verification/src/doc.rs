//! Analyzed documents and the in-memory segment builder.

use vstd::prelude::*;
use crate::term::Token;

verus! {

/// The internal identifier of a document: its segment and its ordinal
/// within the segment.
#[derive(Debug, Clone, Copy, PartialEq, Eq, Structural, Hash)]
pub struct DocRef {
    pub segment: u32,
    pub ord: u16,
}

impl DocRef {
    /// An identifier from a segment and an ordinal.
    pub fn from_segment_ord(segment: u32, ord: u16) -> (r: DocRef)
        ensures
            r == (DocRef { segment, ord }),
    {
        DocRef { segment, ord }
    }
}

/// One indexed field of an analyzed document: the field and its tokens.
pub struct FieldTokens {
    pub field: u32,
    pub tokens: Vec<Token>,
}

/// One stored field of an analyzed document: the field and its raw bytes.
pub struct StoredField {
    pub field: u32,
    pub value: Vec<u8>,
}

/// A document after analysis: its external key, the token stream of each
/// indexed field, and the raw bytes of each stored field.
pub struct AnalyzedDocument {
    pub key: String,
    pub fields: Vec<FieldTokens>,
    pub stored: Vec<StoredField>,
}

/// The largest number of documents one segment holds: ordinals stay below
/// the largest 16-bit value.
pub const SEGMENT_CAPACITY: usize = 65535;

/// Adding a document to a full segment is refused.
#[derive(Debug, Clone, Copy, PartialEq, Eq, Structural)]
pub enum SegmentError {
    SegmentFull,
}

/// Accumulates analyzed documents in memory until they are flushed as one
/// immutable segment. Ordinals are issued densely from zero; an empty
/// analyzed document still reserves its ordinal.
pub struct SegmentBuilder {
    docs: Vec<AnalyzedDocument>,
}

impl View for SegmentBuilder {
    type V = Seq<AnalyzedDocument>;

    closed spec fn view(&self) -> Seq<AnalyzedDocument> {
        self.docs@
    }
}

impl SegmentBuilder {
    /// The builder never holds more documents than a segment may.
    pub closed spec fn wf(&self) -> bool {
        self.docs@.len() <= SEGMENT_CAPACITY
    }

    /// An empty builder.
    pub fn new() -> (r: SegmentBuilder)
        ensures
            r.wf(),
            r@ == Seq::<AnalyzedDocument>::empty(),
    {
        SegmentBuilder { docs: Vec::new() }
    }

    /// Takes one analyzed document, assigning it the next ordinal; a full
    /// builder refuses it unchanged.
    pub fn add_document(&mut self, doc: AnalyzedDocument) -> (r: Result<u16, SegmentError>)
        requires
            old(self).wf(),
        ensures
            final(self).wf(),
            r is Ok <==> old(self)@.len() < SEGMENT_CAPACITY,
            r matches Ok(ord) ==> ord == old(self)@.len() && final(self)@ == old(self)@.push(doc),
            r is Err ==> final(self)@ == old(self)@ && r == Err::<u16, SegmentError>(
                SegmentError::SegmentFull,
            ),
    {
        if self.docs.len() >= SEGMENT_CAPACITY {
            return Err(SegmentError::SegmentFull);
        }
        let ord = self.docs.len() as u16;
        self.docs.push(doc);
        Ok(ord)
    }

    /// How many documents the builder holds.
    pub fn document_count(&self) -> (r: u16)
        requires
            self.wf(),
        ensures
            r == self@.len(),
    {
        self.docs.len() as u16
    }

    /// The document at an ordinal.
    pub fn doc_at(&self, i: usize) -> (r: &AnalyzedDocument)
        requires
            i < self@.len(),
        ensures
            r == &self@[i as int],
    {
        &self.docs[i]
    }
}

} // verus!
