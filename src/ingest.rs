//! The decisions of ingesting a document, between reading it and embedding it.
use vstd::prelude::*;

use crate::splitter::{chunks_of, split_text, string_views};
use crate::store::{bases_touched, completable, new_chunk_ok, KnowledgeStore};
use crate::text::preview;
use crate::types::{Document, DocumentStatus, KnowledgeBaseError};

verus! {

/// The length of a document's stored preview, in characters.
pub const PREVIEW_CHARS: usize = 500;

/// What a document's text gives before embedding: its preview and its chunks.
pub struct ChunkPlan {
    pub preview: String,
    pub chunks: Vec<String>,
}

/// Whether a base's chunk size and overlap can cut text: `0 <= overlap < size`.
pub open spec fn cuttable(size: i32, overlap: i32) -> bool {
    0 <= overlap < size
}

pub const BAD_SIZES: &'static str = "chunk_overlap must be smaller than chunk_size";

impl KnowledgeStore {
    /// The step after reading a document of base `kb_id`: where reading failed, or
    /// the base's sizes cannot cut text, the document fails with the error's message;
    /// else its text gives a preview of its first 500 characters and its chunks.
    pub fn plan_chunks(
        &mut self,
        doc_id: &str,
        chunk_size: i32,
        chunk_overlap: i32,
        parsed: Result<String, KnowledgeBaseError>,
    ) -> (r: Result<ChunkPlan, KnowledgeBaseError>)
        requires
            old(self).wf(),
        ensures
            final(self).wf(),
            final(self).bases() == old(self).bases(),
            final(self).chunks() == old(self).chunks(),
            final(self).vector_rows() == old(self).vector_rows(),
            parsed matches Err(e) ==> r == Err::<ChunkPlan, KnowledgeBaseError>(e),
            parsed is Ok && !cuttable(chunk_size, chunk_overlap) ==> (r matches Err(KnowledgeBaseError::InvalidConfig(m)) && m@ == BAD_SIZES@),
            r is Err ==> (exists|i: int| 0 <= i < old(self).documents().len() && #[trigger] old(self).documents()[i].id@ == doc_id@
                && old(self).documents()[i].status == DocumentStatus::Processing) ==> exists|i: int| 0 <= i < final(self).documents().len()
                && #[trigger] final(self).documents()[i].id@ == doc_id@ && final(self).documents()[i].status == DocumentStatus::Error,
            parsed is Err ==> (exists|i: int| 0 <= i < old(self).documents().len() && #[trigger] old(self).documents()[i].id@ == doc_id@
                && old(self).documents()[i].status == DocumentStatus::Processing) ==> exists|i: int| 0 <= i < final(self).documents().len()
                && #[trigger] final(self).documents()[i].id@ == doc_id@ && final(self).documents()[i].status == DocumentStatus::Error
                && (final(self).documents()[i].error_message matches Some(m) && m@ == parsed->Err_0.message_spec()),
            r is Ok ==> final(self).documents() == old(self).documents(),
            parsed is Ok && cuttable(chunk_size, chunk_overlap) ==> (r matches Ok(plan)
                && plan.preview@ == parsed->Ok_0@.take(if parsed->Ok_0@.len() < 500 { parsed->Ok_0@.len() as int } else { 500 })
                && string_views(plan.chunks@) == chunks_of(parsed->Ok_0@, chunk_size as nat, chunk_overlap as nat)),
    {
        match parsed {
            Err(e) => {
                let msg = e.message();
                self.record_failure(doc_id, msg);
                Err(e)
            },
            Ok(text) => {
                if !(0 <= chunk_overlap && chunk_overlap < chunk_size) {
                    let e = KnowledgeBaseError::InvalidConfig(BAD_SIZES.to_owned());
                    let msg = e.message();
                    self.record_failure(doc_id, msg);
                    return Err(e);
                }
                let p = preview(text.as_str(), PREVIEW_CHARS);
                let chunks = split_text(text.as_str(), chunk_size as usize, chunk_overlap as usize);
                Ok(ChunkPlan { preview: p, chunks })
            },
        }
    }

    /// The step after embedding a document's chunks. Where embedding failed, or the
    /// embeddings do not fit the chunks in number or dimension, the document fails
    /// with the error's message and no chunk or vector is stored. Else its chunks,
    /// with indices `0 .. n`, and one vector for each are stored, it is completed, and
    /// its base's update time is set to `now`.
    pub fn finish_ingest(
        &mut self,
        doc_id: &str,
        plan: ChunkPlan,
        chunk_ids: Vec<String>,
        embedded: Result<Vec<Vec<u8>>, KnowledgeBaseError>,
        now: i64,
    ) -> (r: Result<Document, KnowledgeBaseError>)
        requires
            old(self).wf(),
        ensures
            final(self).wf(),
            embedded matches Err(e) ==> r == Err::<Document, KnowledgeBaseError>(e),
            r is Ok ==> embedded is Ok,
            embedded is Ok ==> (r is Ok <==> exists|p: int| 0 <= p < old(self).documents().len()
                && #[trigger] old(self).documents()[p].id@ == doc_id@
                && completable(old(self).bases(), old(self).documents(), p, plan.chunks@, chunk_ids@, embedded->Ok_0@)),
            r is Err ==> {
                &&& final(self).bases() == old(self).bases()
                &&& final(self).chunks() == old(self).chunks()
                &&& final(self).vector_rows() == old(self).vector_rows()
                &&& (exists|i: int| 0 <= i < old(self).documents().len() && #[trigger] old(self).documents()[i].id@ == doc_id@
                    && old(self).documents()[i].status == DocumentStatus::Processing) ==> exists|i: int| 0 <= i < final(self).documents().len()
                    && #[trigger] final(self).documents()[i].id@ == doc_id@ && final(self).documents()[i].status == DocumentStatus::Error
            },
            embedded is Err ==> (exists|i: int| 0 <= i < old(self).documents().len() && #[trigger] old(self).documents()[i].id@ == doc_id@
                && old(self).documents()[i].status == DocumentStatus::Processing) ==> exists|i: int| 0 <= i < final(self).documents().len()
                && #[trigger] final(self).documents()[i].id@ == doc_id@
                && (final(self).documents()[i].error_message matches Some(m) && m@ == embedded->Err_0.message_spec()),
            r matches Ok(d) ==> {
                &&& exists|p: int| 0 <= p < old(self).documents().len() && #[trigger] old(self).documents()[p].id@ == doc_id@
                    && old(self).documents()[p].status == DocumentStatus::Processing
                    && final(self).documents() == old(self).documents().update(p, d)
                    && d == (Document {
                        status: DocumentStatus::Completed,
                        chunk_count: plan.chunks@.len() as i32,
                        content_preview: plan.preview,
                        ..old(self).documents()[p]
                    })
                &&& final(self).bases() == bases_touched(old(self).bases(), d.kb_id@, now)
                &&& final(self).chunks().len() == old(self).chunks().len() + plan.chunks@.len()
                &&& final(self).chunks().take(old(self).chunks().len() as int) == old(self).chunks()
                &&& forall|i: int| 0 <= i < plan.chunks@.len() ==> new_chunk_ok(
                    #[trigger] final(self).chunks()[old(self).chunks().len() + i],
                    d,
                    chunk_ids@[i],
                    plan.chunks@[i],
                    i,
                )
                &&& final(self).vector_rows() == old(self).vector_rows() + Seq::new(
                    plan.chunks@.len(),
                    |i: int| (chunk_ids@[i]@, d.id@, d.kb_id@, embedded->Ok_0@[i]@),
                )
                &&& forall|i: int| 0 <= i < old(self).vector_rows().len() ==> (#[trigger] old(self).vector_rows()[i]).1 != d.id@
                &&& forall|i: int| 0 <= i < old(self).chunks().len() ==> (#[trigger] old(self).chunks()[i]).document_id@ != d.id@
            },
    {
        match embedded {
            Err(e) => {
                let msg = e.message();
                self.record_failure(doc_id, msg);
                Err(e)
            },
            Ok(blobs) => {
                let ghost texts = plan.chunks@;
                let ghost pv = plan.preview;
                let r = self.complete_document(doc_id, plan.preview, plan.chunks, chunk_ids, blobs);
                match r {
                    Ok(d) => {
                        proof {
                            let p = choose|p: int| 0 <= p < old(self).documents().len() && #[trigger] old(self).documents()[p].id@ == doc_id@
                                && old(self).documents()[p].status == DocumentStatus::Processing
                                && self.documents() == old(self).documents().update(p, d)
                                && d == (Document {
                                    status: DocumentStatus::Completed,
                                    chunk_count: texts.len() as i32,
                                    content_preview: pv,
                                    ..old(self).documents()[p]
                                });
                        }
                        self.touch_base(d.kb_id.as_str(), now);
                        Ok(d)
                    },
                    Err(e) => Err(e),
                }
            },
        }
    }
}

} // verus!
