//! The knowledge store: bases, documents, chunks and their vectors, kept consistent.
use vstd::prelude::*;

use crate::chars::same_chars;
use crate::embedding::{embedding_dimension_of, get_embedding_dimension};
use crate::types::{Chunk, CreateKnowledgeBaseRequest, Document, DocumentStatus, KnowledgeBase, KnowledgeBaseError};
use crate::ranking::{time_key_of, time_order_key, top_by_key};
use crate::text::estimate_tokens;
use crate::vector_store::{all_of_dim, new_row_view, rows_of, VectorStore};

verus! {

/// The chunk indices of document `doc`, in storage order.
pub open spec fn indices_of(cs: Seq<Chunk>, doc: Seq<char>) -> Seq<int>
    decreases cs.len(),
{
    if cs.len() == 0 {
        Seq::empty()
    } else if cs.last().document_id@ == doc {
        indices_of(cs.drop_last(), doc).push(cs.last().chunk_index as int)
    } else {
        indices_of(cs.drop_last(), doc)
    }
}

/// `0, 1, ..., n - 1`.
pub open spec fn range(n: int) -> Seq<int> {
    Seq::new(if n < 0 { 0 } else { n as nat }, |i: int| i)
}

/// The number of documents of base `kb`.
pub open spec fn count_docs(ds: Seq<Document>, kb: Seq<char>) -> nat
    decreases ds.len(),
{
    if ds.len() == 0 {
        0
    } else {
        count_docs(ds.drop_last(), kb) + if ds.last().kb_id@ == kb {
            1nat
        } else {
            0nat
        }
    }
}

pub proof fn lemma_indices_absent(cs: Seq<Chunk>, doc: Seq<char>)
    requires
        forall|i: int| 0 <= i < cs.len() ==> (#[trigger] cs[i]).document_id@ != doc,
    ensures
        indices_of(cs, doc) == Seq::<int>::empty(),
    decreases cs.len(),
{
    if cs.len() > 0 {
        assert forall|i: int| 0 <= i < cs.drop_last().len() implies (#[trigger] cs.drop_last()[i]).document_id@ != doc by {
            assert(cs.drop_last()[i] == cs[i]);
        }
        lemma_indices_absent(cs.drop_last(), doc);
    }
}

pub proof fn lemma_count_absent(ds: Seq<Document>, kb: Seq<char>)
    requires
        forall|i: int| 0 <= i < ds.len() ==> (#[trigger] ds[i]).kb_id@ != kb,
    ensures
        count_docs(ds, kb) == 0,
    decreases ds.len(),
{
    if ds.len() > 0 {
        assert forall|i: int| 0 <= i < ds.drop_last().len() implies (#[trigger] ds.drop_last()[i]).kb_id@ != kb by {
            assert(ds.drop_last()[i] == ds[i]);
        }
        lemma_count_absent(ds.drop_last(), kb);
    }
}

pub const OVERLAP_TOO_LARGE: &'static str = "chunk_overlap must be at least 0 and smaller than chunk_size";
pub const DUPLICATE_BASE: &'static str = "a knowledge base with this id exists";
pub const DUPLICATE_DOCUMENT: &'static str = "a document with this id exists";
pub const EMBEDDING_COUNT_MISMATCH: &'static str = "the number of embeddings does not match the number of chunks";
pub const EMBEDDING_DIM_MISMATCH: &'static str = "an embedding does not have the dimension of the knowledge base";
pub const NOT_PROCESSING: &'static str = "the document is not being ingested";

/// The chunk size and overlap a request asks for, with the defaults 1000 and 200.
pub open spec fn sizes_of(req: CreateKnowledgeBaseRequest) -> (i32, i32) {
    (
        match req.chunk_size {
            Some(n) => n,
            None => 1000,
        },
        match req.chunk_overlap {
            Some(n) => n,
            None => 200,
        },
    )
}

/// Whether a chunk size and overlap go together: `0 <= overlap < size`.
pub open spec fn sizes_valid(sizes: (i32, i32)) -> bool {
    0 <= sizes.1 < sizes.0
}

/// Whether a vector row has the dimension of a base with its base id.
pub open spec fn fits_base(bases: Seq<KnowledgeBase>, row: (Seq<char>, Seq<char>, Seq<char>, Seq<u8>)) -> bool {
    exists|b: int| 0 <= b < bases.len() && #[trigger] bases[b].id@ == row.2 && row.3.len() == 4 * bases[b].embedding_dim
}

/// Every vector has exactly the dimension of its base.
pub open spec fn vectors_fit_in(bases: Seq<KnowledgeBase>, rows: Seq<(Seq<char>, Seq<char>, Seq<char>, Seq<u8>)>) -> bool {
    forall|i: int| 0 <= i < rows.len() ==> #[trigger] fits_base(bases, rows[i])
}

/// The chunk indices of each completed document are `0 .. chunk_count`.
pub open spec fn chunks_dense_in(docs: Seq<Document>, chunks: Seq<Chunk>) -> bool {
    forall|i: int| 0 <= i < docs.len() && (#[trigger] docs[i]).status == DocumentStatus::Completed
        ==> indices_of(chunks, docs[i].id@) == range(docs[i].chunk_count as int)
}

/// Whether a chunk belongs to a completed document of its base.
pub open spec fn chunk_owned(docs: Seq<Document>, c: Chunk) -> bool {
    exists|d: int| 0 <= d < docs.len() && #[trigger] docs[d].id@ == c.document_id@ && docs[d].kb_id@ == c.kb_id@
        && docs[d].status == DocumentStatus::Completed
}

/// Each chunk belongs to a completed document of the same base.
pub open spec fn chunks_owned_in(docs: Seq<Document>, chunks: Seq<Chunk>) -> bool {
    forall|i: int| 0 <= i < chunks.len() ==> #[trigger] chunk_owned(docs, chunks[i])
}

/// Whether a vector row belongs to a chunk with its document and base.
pub open spec fn vector_owned(chunks: Seq<Chunk>, row: (Seq<char>, Seq<char>, Seq<char>, Seq<u8>)) -> bool {
    exists|c: int| 0 <= c < chunks.len() && #[trigger] chunks[c].id@ == row.0 && chunks[c].document_id@ == row.1
        && chunks[c].kb_id@ == row.2
}

/// Each vector belongs to a chunk, with the same document and base.
pub open spec fn vectors_owned_in(chunks: Seq<Chunk>, rows: Seq<(Seq<char>, Seq<char>, Seq<char>, Seq<u8>)>) -> bool {
    forall|i: int| 0 <= i < rows.len() ==> #[trigger] vector_owned(chunks, rows[i])
}

/// Whether a base with id `kb` exists.
pub open spec fn base_exists(bases: Seq<KnowledgeBase>, kb: Seq<char>) -> bool {
    exists|b: int| 0 <= b < bases.len() && #[trigger] bases[b].id@ == kb
}

/// Each document belongs to a base.
pub open spec fn documents_owned_in(bases: Seq<KnowledgeBase>, docs: Seq<Document>) -> bool {
    forall|i: int| 0 <= i < docs.len() ==> #[trigger] base_exists(bases, docs[i].kb_id@)
}

/// Base ids are unique.
pub open spec fn bases_unique(bases: Seq<KnowledgeBase>) -> bool {
    forall|i: int, j: int| 0 <= i < bases.len() && 0 <= j < bases.len() && i != j
        ==> (#[trigger] bases[i]).id@ != (#[trigger] bases[j]).id@
}

/// Document ids are unique.
pub open spec fn documents_unique(docs: Seq<Document>) -> bool {
    forall|i: int, j: int| 0 <= i < docs.len() && 0 <= j < docs.len() && i != j
        ==> (#[trigger] docs[i]).id@ != (#[trigger] docs[j]).id@
}

/// Every base has a positive dimension.
pub open spec fn dims_positive(bases: Seq<KnowledgeBase>) -> bool {
    forall|b: int| 0 <= b < bases.len() ==> (#[trigger] bases[b]).embedding_dim > 0
}

/// Chunks stay owned when each completed document stays in place.
pub proof fn lemma_chunks_owned_kept(docs1: Seq<Document>, docs2: Seq<Document>, chunks: Seq<Chunk>)
    requires
        chunks_owned_in(docs1, chunks),
        forall|k: int| 0 <= k < docs1.len() && (#[trigger] docs1[k]).status == DocumentStatus::Completed
            ==> k < docs2.len() && docs2[k] == docs1[k],
    ensures
        chunks_owned_in(docs2, chunks),
{
    assert forall|i: int| 0 <= i < chunks.len() implies #[trigger] chunk_owned(docs2, chunks[i]) by {
        assert(chunk_owned(docs1, chunks[i]));
        let k = choose|k: int| 0 <= k < docs1.len() && #[trigger] docs1[k].id@ == chunks[i].document_id@
            && docs1[k].kb_id@ == chunks[i].kb_id@ && docs1[k].status == DocumentStatus::Completed;
        assert(docs2[k] == docs1[k]);
        assert(docs2[k].id@ == chunks[i].document_id@);
    }
}

/// Whether document position `p` can be completed with these chunks: it is being
/// ingested, there are as many ids and embeddings as texts, not more than `i32::MAX`,
/// and each embedding has the dimension of the document's base.
pub open spec fn completable(
    bases: Seq<KnowledgeBase>,
    docs: Seq<Document>,
    p: int,
    texts: Seq<String>,
    ids: Seq<String>,
    blobs: Seq<Vec<u8>>,
) -> bool {
    &&& docs[p].status == DocumentStatus::Processing
    &&& texts.len() == ids.len() == blobs.len()
    &&& texts.len() <= i32::MAX
    &&& forall|b: int| 0 <= b < bases.len() && #[trigger] bases[b].id@ == docs[p].kb_id@ ==> forall|t: int|
        0 <= t < blobs.len() ==> (#[trigger] blobs[t])@.len() == 4 * bases[b].embedding_dim
}

/// The chunk rows that completing document `doc` adds: chunk `i` has id `ids[i]`,
/// text `texts[i]` and index `i`.
pub open spec fn new_chunk_ok(c: Chunk, doc: Document, id: String, text: String, i: int) -> bool {
    c.id@ == id@ && c.document_id@ == doc.id@ && c.kb_id@ == doc.kb_id@ && c.content@ == text@
        && c.chunk_index == i && c.token_count == (text@.len() / 3) as i32
}

/// The chunks of `cs` that are not of document `doc`, in order.
pub open spec fn chunks_without(cs: Seq<Chunk>, doc: Seq<char>) -> Seq<Chunk>
    decreases cs.len(),
{
    if cs.len() == 0 {
        cs
    } else if cs.last().document_id@ == doc {
        chunks_without(cs.drop_last(), doc)
    } else {
        chunks_without(cs.drop_last(), doc).push(cs.last())
    }
}

pub proof fn lemma_chunks_without(cs: Seq<Chunk>, doc: Seq<char>)
    ensures
        forall|c: Chunk| #[trigger] chunks_without(cs, doc).contains(c) <==> cs.contains(c) && c.document_id@ != doc,
        forall|d: Seq<char>| d != doc ==> #[trigger] indices_of(chunks_without(cs, doc), d) == indices_of(cs, d),
    decreases cs.len(),
{
    if cs.len() > 0 {
        let p = chunks_without(cs.drop_last(), doc);
        lemma_chunks_without(cs.drop_last(), doc);
        assert forall|c: Chunk| #[trigger] chunks_without(cs, doc).contains(c) <==> cs.contains(c) && c.document_id@ != doc by {
            if cs.contains(c) && c.document_id@ != doc {
                let i = choose|i: int| 0 <= i < cs.len() && cs[i] == c;
                if i < cs.len() - 1 {
                    assert(cs.drop_last()[i] == c);
                    assert(cs.drop_last().contains(c));
                    assert(p.contains(c));
                    let j = choose|j: int| 0 <= j < p.len() && p[j] == c;
                    if cs.last().document_id@ != doc {
                        assert(p.push(cs.last())[j] == c);
                    }
                } else {
                    assert(p.push(cs.last())[p.len() as int] == c);
                }
            }
            if chunks_without(cs, doc).contains(c) {
                let r = chunks_without(cs, doc);
                let j = choose|j: int| 0 <= j < r.len() && r[j] == c;
                if j < p.len() {
                    assert(r[j] == p[j]);
                    assert(p.contains(c));
                    let i = choose|i: int| 0 <= i < cs.len() - 1 && cs.drop_last()[i] == c;
                    assert(cs[i] == c);
                } else {
                    assert(cs[cs.len() - 1] == c);
                }
            }
        }
        assert forall|d: Seq<char>| d != doc implies #[trigger] indices_of(chunks_without(cs, doc), d) == indices_of(cs, d) by {
            assert(indices_of(p, d) == indices_of(cs.drop_last(), d));
            if cs.last().document_id@ != doc {
                assert(p.push(cs.last()).drop_last() =~= p);
            }
        }
    }
}

pub proof fn lemma_count_remove(ds: Seq<Document>, p: int, kb: Seq<char>)
    requires
        0 <= p < ds.len(),
    ensures
        count_docs(ds.remove(p), kb) + (if ds[p].kb_id@ == kb { 1nat } else { 0nat }) == count_docs(ds, kb),
    decreases ds.len(),
{
    if p == ds.len() - 1 {
        assert(ds.remove(p) =~= ds.drop_last());
    } else {
        lemma_count_remove(ds.drop_last(), p, kb);
        assert(ds.remove(p) =~= ds.drop_last().remove(p).push(ds.last()));
        assert(ds.remove(p).drop_last() =~= ds.drop_last().remove(p));
    }
}

/// Bases, documents, chunks and vectors.
pub struct KnowledgeStore {
    bases: Vec<KnowledgeBase>,
    documents: Vec<Document>,
    chunks: Vec<Chunk>,
    vectors: VectorStore,
}

impl KnowledgeStore {
    pub closed spec fn bases(&self) -> Seq<KnowledgeBase> {
        self.bases@
    }

    pub closed spec fn documents(&self) -> Seq<Document> {
        self.documents@
    }

    pub closed spec fn chunks(&self) -> Seq<Chunk> {
        self.chunks@
    }

    pub closed spec fn vector_rows(&self) -> Seq<(Seq<char>, Seq<char>, Seq<char>, Seq<u8>)> {
        self.vectors.rows()
    }

    /// Every vector has exactly the dimension of its base.
    pub open spec fn vectors_fit(&self) -> bool {
        vectors_fit_in(self.bases(), self.vector_rows())
    }

    /// The chunk indices of a completed document are `0 .. chunk_count`.
    pub open spec fn chunks_dense(&self) -> bool {
        chunks_dense_in(self.documents(), self.chunks())
    }

    /// Each chunk belongs to a completed document of the same base.
    pub open spec fn chunks_owned(&self) -> bool {
        chunks_owned_in(self.documents(), self.chunks())
    }

    /// Each vector belongs to a chunk, with the same document and base.
    pub open spec fn vectors_owned(&self) -> bool {
        vectors_owned_in(self.chunks(), self.vector_rows())
    }

    /// Each document belongs to a base.
    pub open spec fn documents_owned(&self) -> bool {
        documents_owned_in(self.bases(), self.documents())
    }

    /// Base ids and document ids are unique.
    pub open spec fn ids_unique(&self) -> bool {
        bases_unique(self.bases()) && documents_unique(self.documents())
    }

    /// The store's invariant.
    pub open spec fn wf(&self) -> bool {
        &&& self.vectors_fit()
        &&& self.chunks_dense()
        &&& self.chunks_owned()
        &&& self.vectors_owned()
        &&& self.documents_owned()
        &&& self.ids_unique()
        &&& dims_positive(self.bases())
    }

    /// An empty store.
    pub fn new() -> (r: KnowledgeStore)
        ensures
            r.wf(),
            r.bases().len() == 0,
            r.documents().len() == 0,
            r.chunks().len() == 0,
            r.vector_rows().len() == 0,
    {
        KnowledgeStore { bases: Vec::new(), documents: Vec::new(), chunks: Vec::new(), vectors: VectorStore::new() }
    }

    fn base_position(&self, id: &str) -> (r: Option<usize>)
        ensures
            r matches Some(i) ==> i < self.bases().len() && self.bases()[i as int].id@ == id@,
            r is None ==> forall|i: int| 0 <= i < self.bases().len() ==> self.bases()[i].id@ != id@,
    {
        let mut i: usize = 0;
        while i < self.bases.len()
            invariant
                i <= self.bases@.len(),
                forall|t: int| 0 <= t < i ==> self.bases@[t].id@ != id@,
            decreases self.bases@.len() - i,
        {
            if same_chars(self.bases[i].id.as_str(), id) {
                return Some(i);
            }
            i += 1;
        }
        None
    }

    fn document_position(&self, id: &str) -> (r: Option<usize>)
        ensures
            r matches Some(i) ==> i < self.documents().len() && self.documents()[i as int].id@ == id@,
            r is None ==> forall|i: int| 0 <= i < self.documents().len() ==> self.documents()[i].id@ != id@,
    {
        let mut i: usize = 0;
        while i < self.documents.len()
            invariant
                i <= self.documents@.len(),
                forall|t: int| 0 <= t < i ==> self.documents@[t].id@ != id@,
            decreases self.documents@.len() - i,
        {
            if same_chars(self.documents[i].id.as_str(), id) {
                return Some(i);
            }
            i += 1;
        }
        None
    }

    /// The number of documents of base `kb_id`.
    pub fn document_count(&self, kb_id: &str) -> (r: usize)
        ensures
            r == count_docs(self.documents(), kb_id@),
    {
        let mut n: usize = 0;
        let mut i: usize = 0;
        while i < self.documents.len()
            invariant
                i <= self.documents@.len(),
                n == count_docs(self.documents@.take(i as int), kb_id@),
                n <= i,
            decreases self.documents@.len() - i,
        {
            proof { assert(self.documents@.take(i as int + 1).drop_last() =~= self.documents@.take(i as int)); }
            if same_chars(self.documents[i].kb_id.as_str(), kb_id) {
                n += 1;
            }
            i += 1;
        }
        proof { assert(self.documents@.take(i as int) =~= self.documents@); }
        n
    }

    /// The base with id `kb_id`, its document count being the number of its documents.
    pub fn knowledge_base(&self, kb_id: &str) -> (r: Option<KnowledgeBase>)
        ensures
            r is Some <==> exists|i: int| 0 <= i < self.bases().len() && #[trigger] self.bases()[i].id@ == kb_id@,
            r matches Some(b) ==> b.id@ == kb_id@ && b.document_count == count_docs(self.documents(), kb_id@) as i32
                && exists|i: int| 0 <= i < self.bases().len() && #[trigger] self.bases()[i].id@ == kb_id@
                    && self.bases()[i].embedding_dim == b.embedding_dim && self.bases()[i].chunk_size == b.chunk_size
                    && self.bases()[i].chunk_overlap == b.chunk_overlap
                    && self.bases()[i].embedding_provider@ == b.embedding_provider@
                    && self.bases()[i].embedding_model@ == b.embedding_model@,
    {
        match self.base_position(kb_id) {
            None => None,
            Some(i) => {
                let b = &self.bases[i];
                let n = self.document_count(kb_id);
                Some(KnowledgeBase {
                    id: b.id.clone(),
                    name: b.name.clone(),
                    description: b.description.clone(),
                    embedding_provider: b.embedding_provider.clone(),
                    embedding_model: b.embedding_model.clone(),
                    embedding_dim: b.embedding_dim,
                    chunk_size: b.chunk_size,
                    chunk_overlap: b.chunk_overlap,
                    created_at: b.created_at,
                    updated_at: b.updated_at,
                    document_count: n as i32,
                })
            },
        }
    }
}

impl KnowledgeStore {
    /// Creates a knowledge base with id `id` at time `now`. Its dimension comes
    /// from the static table and never changes.
    pub fn create_knowledge_base(&mut self, request: CreateKnowledgeBaseRequest, id: String, now: i64) -> (r: Result<KnowledgeBase, KnowledgeBaseError>)
        requires
            old(self).wf(),
        ensures
            final(self).wf(),
            !sizes_valid(sizes_of(request)) ==> (r matches Err(KnowledgeBaseError::InvalidConfig(m)) && m@ == OVERLAP_TOO_LARGE@),
            sizes_valid(sizes_of(request)) && (exists|i: int| 0 <= i < old(self).bases().len() && #[trigger] old(self).bases()[i].id@ == id@)
                ==> (r matches Err(KnowledgeBaseError::DatabaseError(m)) && m@ == DUPLICATE_BASE@),
            r is Err ==> final(self).bases() == old(self).bases(),
            sizes_valid(sizes_of(request)) && (forall|i: int| 0 <= i < old(self).bases().len() ==> #[trigger] old(self).bases()[i].id@ != id@)
                ==> r is Ok,
            r matches Ok(b) ==> {
                &&& sizes_valid(sizes_of(request))
                &&& final(self).bases() == old(self).bases().push(b)
                &&& b.id@ == id@ && b.name@ == request.name@ && b.description@ == request.description@
                &&& b.embedding_provider@ == request.embedding_provider@ && b.embedding_model@ == request.embedding_model@
                &&& b.embedding_dim == embedding_dimension_of(request.embedding_provider@, request.embedding_model@)
                &&& (b.chunk_size, b.chunk_overlap) == sizes_of(request)
                &&& b.created_at == now && b.updated_at == now && b.document_count == 0
                &&& count_docs(final(self).documents(), id@) == 0
            },
            final(self).documents() == old(self).documents(),
            final(self).chunks() == old(self).chunks(),
            final(self).vector_rows() == old(self).vector_rows(),
    {
        let chunk_size = match request.chunk_size {
            Some(n) => n,
            None => 1000,
        };
        let chunk_overlap = match request.chunk_overlap {
            Some(n) => n,
            None => 200,
        };
        if !(0 <= chunk_overlap && chunk_overlap < chunk_size) {
            return Err(KnowledgeBaseError::InvalidConfig(OVERLAP_TOO_LARGE.to_owned()));
        }
        if self.base_position(id.as_str()).is_some() {
            return Err(KnowledgeBaseError::DatabaseError(DUPLICATE_BASE.to_owned()));
        }
        let dim = get_embedding_dimension(request.embedding_provider.as_str(), request.embedding_model.as_str());
        let b = KnowledgeBase {
            id: id.clone(),
            name: request.name,
            description: request.description,
            embedding_provider: request.embedding_provider,
            embedding_model: request.embedding_model,
            embedding_dim: dim,
            chunk_size,
            chunk_overlap,
            created_at: now,
            updated_at: now,
            document_count: 0,
        };
        let stored = KnowledgeBase {
            id: id,
            name: b.name.clone(),
            description: b.description.clone(),
            embedding_provider: b.embedding_provider.clone(),
            embedding_model: b.embedding_model.clone(),
            embedding_dim: dim,
            chunk_size,
            chunk_overlap,
            created_at: now,
            updated_at: now,
            document_count: 0,
        };
        let ghost before = *self;
        self.bases.push(stored);
        proof { KnowledgeStore::lemma_add_base(&before, self, stored); }
        Ok(b)
    }

    /// Records a new document of base `kb_id`, being ingested.
    pub fn begin_document(
        &mut self,
        kb_id: &str,
        doc_id: String,
        filename: String,
        file_type: String,
        file_size: i64,
        file_hash: String,
        now: i64,
    ) -> (r: Result<Document, KnowledgeBaseError>)
        requires
            old(self).wf(),
        ensures
            final(self).wf(),
            (forall|i: int| 0 <= i < old(self).bases().len() ==> #[trigger] old(self).bases()[i].id@ != kb_id@)
                ==> (r matches Err(KnowledgeBaseError::NotFound(m)) && m@ == kb_id@),
            r is Err ==> final(self).documents() == old(self).documents(),
            r matches Ok(d) ==> {
                &&& final(self).documents() == old(self).documents().push(d)
                &&& d.id@ == doc_id@ && d.kb_id@ == kb_id@ && d.filename@ == filename@ && d.file_type@ == file_type@
                &&& d.file_size == file_size && d.file_hash@ == file_hash@ && d.created_at == now
                &&& d.status == DocumentStatus::Processing && d.chunk_count == 0 && d.error_message is None
                &&& d.content_preview@.len() == 0
                &&& forall|i: int| 0 <= i < old(self).documents().len() ==> #[trigger] old(self).documents()[i].id@ != doc_id@
            },
            (exists|i: int| 0 <= i < old(self).bases().len() && #[trigger] old(self).bases()[i].id@ == kb_id@)
                && (forall|i: int| 0 <= i < old(self).documents().len() ==> #[trigger] old(self).documents()[i].id@ != doc_id@)
                ==> r is Ok,
            (exists|i: int| 0 <= i < old(self).documents().len() && #[trigger] old(self).documents()[i].id@ == doc_id@)
                ==> r is Err,
            final(self).bases() == old(self).bases(),
            final(self).chunks() == old(self).chunks(),
            final(self).vector_rows() == old(self).vector_rows(),
    {
        let bp = self.base_position(kb_id);
        if bp.is_none() {
            return Err(KnowledgeBaseError::NotFound(kb_id.to_owned()));
        }
        if self.document_position(doc_id.as_str()).is_some() {
            return Err(KnowledgeBaseError::DatabaseError(DUPLICATE_DOCUMENT.to_owned()));
        }
        let d = Document {
            id: doc_id,
            kb_id: kb_id.to_owned(),
            filename,
            file_type,
            file_size,
            file_hash,
            content_preview: String::new(),
            chunk_count: 0,
            status: DocumentStatus::Processing,
            error_message: None,
            created_at: now,
        };
        let stored = Document {
            id: d.id.clone(),
            kb_id: d.kb_id.clone(),
            filename: d.filename.clone(),
            file_type: d.file_type.clone(),
            file_size,
            file_hash: d.file_hash.clone(),
            content_preview: d.content_preview.clone(),
            chunk_count: 0,
            status: DocumentStatus::Processing,
            error_message: None,
            created_at: now,
        };
        let ghost before = *self;
        proof {
            let k = bp->0 as int;
            assert(self.bases()[k].id@ == stored.kb_id@);
            assert(base_exists(self.bases(), stored.kb_id@));
        }
        self.documents.push(stored);
        proof { KnowledgeStore::lemma_add_document(&before, self, stored); }
        Ok(d)
    }

    /// Marks a document being ingested as failed, with the reason.
    pub fn fail_document(&mut self, doc_id: &str, message: String) -> (r: Result<(), KnowledgeBaseError>)
        requires
            old(self).wf(),
        ensures
            final(self).wf(),
            r is Ok <==> exists|i: int| 0 <= i < old(self).documents().len() && #[trigger] old(self).documents()[i].id@ == doc_id@
                && old(self).documents()[i].status == DocumentStatus::Processing,
            r is Ok ==> exists|i: int| 0 <= i < old(self).documents().len() && #[trigger] old(self).documents()[i].id@ == doc_id@
                && final(self).documents() == old(self).documents().update(i, Document {
                    status: DocumentStatus::Error,
                    error_message: Some(message),
                    ..old(self).documents()[i]
                }),
            r is Err ==> final(self).documents() == old(self).documents(),
            final(self).bases() == old(self).bases(),
            final(self).chunks() == old(self).chunks(),
            final(self).vector_rows() == old(self).vector_rows(),
    {
        let p = match self.document_position(doc_id) {
            Some(p) => p,
            None => return Err(KnowledgeBaseError::NotFound(doc_id.to_owned())),
        };
        if self.documents[p].status != DocumentStatus::Processing {
            proof {
                assert forall|i: int| 0 <= i < self.documents().len() && #[trigger] self.documents()[i].id@ == doc_id@
                    implies self.documents()[i].status != DocumentStatus::Processing by {
                    if i != p { assert(self.documents()[i].id@ != self.documents()[p as int].id@); }
                }
            }
            return Err(KnowledgeBaseError::InvalidConfig(NOT_PROCESSING.to_owned()));
        }
        let ghost before = *self;
        self.documents[p].status = DocumentStatus::Error;
        self.documents[p].error_message = Some(message);
        proof {
            assert(self.documents@ =~= before.documents().update(p as int, Document {
                status: DocumentStatus::Error,
                error_message: Some(message),
                ..before.documents()[p as int]
            }));
            KnowledgeStore::lemma_replace_unfinished_document(&before, self, p as int);
        }
        Ok(())
    }
}

impl KnowledgeStore {
    proof fn lemma_add_base(s1: &Self, s2: &Self, b: KnowledgeBase)
        requires
            s1.wf(),
            s2.bases() == s1.bases().push(b),
            s2.documents() == s1.documents(),
            s2.chunks() == s1.chunks(),
            s2.vector_rows() == s1.vector_rows(),
            b.embedding_dim > 0,
            forall|i: int| 0 <= i < s1.bases().len() ==> (#[trigger] s1.bases()[i]).id@ != b.id@,
        ensures
            s2.wf(),
            count_docs(s2.documents(), b.id@) == 0,
    {
        assert forall|i: int| 0 <= i < s2.vector_rows().len() implies #[trigger] fits_base(s2.bases(), s2.vector_rows()[i]) by {
            assert(fits_base(s1.bases(), s1.vector_rows()[i]));
            let k = choose|k: int| 0 <= k < s1.bases().len() && #[trigger] s1.bases()[k].id@ == s1.vector_rows()[i].2
                && s1.vector_rows()[i].3.len() == 4 * s1.bases()[k].embedding_dim;
            assert(s2.bases()[k] == s1.bases()[k]);
        }
        assert forall|i: int| 0 <= i < s2.documents().len() implies #[trigger] base_exists(s2.bases(), s2.documents()[i].kb_id@) by {
            assert(base_exists(s1.bases(), s1.documents()[i].kb_id@));
            let k = choose|k: int| 0 <= k < s1.bases().len() && #[trigger] s1.bases()[k].id@ == s1.documents()[i].kb_id@;
            assert(s2.bases()[k] == s1.bases()[k]);
        }
        assert forall|i: int| 0 <= i < s2.documents().len() implies (#[trigger] s2.documents()[i]).kb_id@ != b.id@ by {
            assert(base_exists(s1.bases(), s1.documents()[i].kb_id@));
        }
        lemma_count_absent(s2.documents(), b.id@);
        assert forall|i: int, j: int| 0 <= i < s2.bases().len() && 0 <= j < s2.bases().len() && i != j
            implies (#[trigger] s2.bases()[i]).id@ != (#[trigger] s2.bases()[j]).id@ by {
            if i < s1.bases().len() {
                assert(s2.bases()[i] == s1.bases()[i]);
            }
            if j < s1.bases().len() {
                assert(s2.bases()[j] == s1.bases()[j]);
            }
        }
        assert forall|k: int| 0 <= k < s2.bases().len() implies (#[trigger] s2.bases()[k]).embedding_dim > 0 by {
            if k < s1.bases().len() {
                assert(s2.bases()[k] == s1.bases()[k]);
            }
        }
    }

    proof fn lemma_add_document(s1: &Self, s2: &Self, d: Document)
        requires
            s1.wf(),
            s2.documents() == s1.documents().push(d),
            s2.bases() == s1.bases(),
            s2.chunks() == s1.chunks(),
            s2.vector_rows() == s1.vector_rows(),
            d.status != DocumentStatus::Completed,
            base_exists(s1.bases(), d.kb_id@),
            forall|i: int| 0 <= i < s1.documents().len() ==> (#[trigger] s1.documents()[i]).id@ != d.id@,
        ensures
            s2.wf(),
    {
        let n = s1.documents().len() as int;
        assert(s2.documents()[n] == d);
        lemma_chunks_owned_kept(s1.documents(), s2.documents(), s1.chunks());
        assert forall|i: int| 0 <= i < s2.documents().len() && (#[trigger] s2.documents()[i]).status == DocumentStatus::Completed
            implies indices_of(s2.chunks(), s2.documents()[i].id@) == range(s2.documents()[i].chunk_count as int) by {
            assert(s2.documents()[i] == s1.documents()[i]);
        }
        assert forall|i: int, j: int| 0 <= i < s2.documents().len() && 0 <= j < s2.documents().len() && i != j
            implies (#[trigger] s2.documents()[i]).id@ != (#[trigger] s2.documents()[j]).id@ by {
            if i < n {
                assert(s2.documents()[i] == s1.documents()[i]);
            }
            if j < n {
                assert(s2.documents()[j] == s1.documents()[j]);
            }
        }
        assert forall|i: int| 0 <= i < s2.documents().len() implies #[trigger] base_exists(s2.bases(), s2.documents()[i].kb_id@) by {
            if i < n {
                assert(s2.documents()[i] == s1.documents()[i]);
            }
        }
    }

    proof fn lemma_replace_unfinished_document(s1: &Self, s2: &Self, p: int)
        requires
            s1.wf(),
            0 <= p < s1.documents().len(),
            s2.documents().len() == s1.documents().len(),
            forall|i: int| 0 <= i < s1.documents().len() && i != p ==> s2.documents()[i] == s1.documents()[i],
            s2.documents()[p].id@ == s1.documents()[p].id@,
            s2.documents()[p].kb_id@ == s1.documents()[p].kb_id@,
            s1.documents()[p].status != DocumentStatus::Completed,
            s2.documents()[p].status != DocumentStatus::Completed,
            s2.bases() == s1.bases(),
            s2.chunks() == s1.chunks(),
            s2.vector_rows() == s1.vector_rows(),
        ensures
            s2.wf(),
    {
        assert forall|k: int| 0 <= k < s1.documents().len() && (#[trigger] s1.documents()[k]).status == DocumentStatus::Completed
            implies k < s2.documents().len() && s2.documents()[k] == s1.documents()[k] by {
            assert(k != p);
        }
        lemma_chunks_owned_kept(s1.documents(), s2.documents(), s1.chunks());
        assert forall|i: int| 0 <= i < s2.documents().len() && (#[trigger] s2.documents()[i]).status == DocumentStatus::Completed
            implies indices_of(s2.chunks(), s2.documents()[i].id@) == range(s2.documents()[i].chunk_count as int) by {
            assert(s2.documents()[i] == s1.documents()[i]);
        }
        assert forall|i: int, j: int| 0 <= i < s2.documents().len() && 0 <= j < s2.documents().len() && i != j
            implies (#[trigger] s2.documents()[i]).id@ != (#[trigger] s2.documents()[j]).id@ by {
            assert(s2.documents()[i].id@ == s1.documents()[i].id@);
            assert(s2.documents()[j].id@ == s1.documents()[j].id@);
        }
        assert forall|i: int| 0 <= i < s2.documents().len() implies #[trigger] base_exists(s2.bases(), s2.documents()[i].kb_id@) by {
            assert(s2.documents()[i].kb_id@ == s1.documents()[i].kb_id@);
            assert(base_exists(s1.bases(), s1.documents()[i].kb_id@));
        }
    }
}

impl KnowledgeStore {
    /// Fails document `doc_id` if it is being ingested.
    pub(crate) fn record_failure(&mut self, doc_id: &str, message: String)
        requires
            old(self).wf(),
        ensures
            final(self).wf(),
            final(self).bases() == old(self).bases(),
            final(self).chunks() == old(self).chunks(),
            final(self).vector_rows() == old(self).vector_rows(),
            (exists|i: int| 0 <= i < old(self).documents().len() && #[trigger] old(self).documents()[i].id@ == doc_id@
                && old(self).documents()[i].status == DocumentStatus::Processing) ==> exists|i: int| 0 <= i < final(self).documents().len()
                && #[trigger] final(self).documents()[i].id@ == doc_id@ && final(self).documents()[i].status == DocumentStatus::Error
                && final(self).documents()[i].error_message == Some(message),
    {
        let ghost before = *self;
        let res = self.fail_document(doc_id, message);
        proof {
            if res is Ok {
                let i = choose|i: int| 0 <= i < before.documents().len() && #[trigger] before.documents()[i].id@ == doc_id@
                    && self.documents() == before.documents().update(i, Document {
                        status: DocumentStatus::Error,
                        error_message: Some(message),
                        ..before.documents()[i]
                    });
                assert(self.documents()[i].id@ == doc_id@);
            }
        }
    }

    /// The position of the base of document position `p`.
    fn base_of_document(&self, p: usize) -> (r: usize)
        requires
            self.wf(),
            p < self.documents().len(),
        ensures
            r < self.bases().len(),
            self.bases()[r as int].id@ == self.documents()[p as int].kb_id@,
    {
        proof { assert(base_exists(self.bases(), self.documents()[p as int].kb_id@)); }
        match self.base_position(self.documents[p].kb_id.as_str()) {
            Some(b) => b,
            None => {
                proof {
                    let k = choose|k: int| 0 <= k < self.bases().len() && #[trigger] self.bases()[k].id@ == self.documents()[p as int].kb_id@;
                    assert(false);
                }
                0
            },
        }
    }

    /// Finishes ingesting a document: stores its chunks, with indices `0 .. n`, and
    /// one vector for each. Where the embeddings do not match the chunks in number
    /// or in dimension, the document fails instead and nothing is stored.
    pub fn complete_document(
        &mut self,
        doc_id: &str,
        preview: String,
        texts: Vec<String>,
        chunk_ids: Vec<String>,
        blobs: Vec<Vec<u8>>,
    ) -> (r: Result<Document, KnowledgeBaseError>)
        requires
            old(self).wf(),
        ensures
            final(self).wf(),
            final(self).bases() == old(self).bases(),
            (forall|i: int| 0 <= i < old(self).documents().len() ==> #[trigger] old(self).documents()[i].id@ != doc_id@)
                ==> r matches Err(KnowledgeBaseError::NotFound(_)),
            r is Err ==> final(self).chunks() == old(self).chunks() && final(self).vector_rows() == old(self).vector_rows(),
            r is Err ==> (exists|i: int| 0 <= i < old(self).documents().len() && #[trigger] old(self).documents()[i].id@ == doc_id@
                && old(self).documents()[i].status == DocumentStatus::Processing) ==> exists|i: int| 0 <= i < final(self).documents().len()
                && #[trigger] final(self).documents()[i].id@ == doc_id@ && final(self).documents()[i].status == DocumentStatus::Error,
            r is Ok <==> exists|p: int| 0 <= p < old(self).documents().len() && #[trigger] old(self).documents()[p].id@ == doc_id@
                && completable(old(self).bases(), old(self).documents(), p, texts@, chunk_ids@, blobs@),
            r matches Ok(d) ==> {
                &&& exists|p: int| 0 <= p < old(self).documents().len() && #[trigger] old(self).documents()[p].id@ == doc_id@
                    && old(self).documents()[p].status == DocumentStatus::Processing
                    && final(self).documents() == old(self).documents().update(p, d)
                    && d == (Document {
                        status: DocumentStatus::Completed,
                        chunk_count: texts@.len() as i32,
                        content_preview: preview,
                        ..old(self).documents()[p]
                    })
                &&& texts@.len() == chunk_ids@.len() == blobs@.len()
                &&& final(self).chunks().len() == old(self).chunks().len() + texts@.len()
                &&& final(self).chunks().take(old(self).chunks().len() as int) == old(self).chunks()
                &&& forall|i: int| 0 <= i < texts@.len() ==> new_chunk_ok(
                    #[trigger] final(self).chunks()[old(self).chunks().len() + i],
                    d,
                    chunk_ids@[i],
                    texts@[i],
                    i,
                )
                &&& final(self).vector_rows() == old(self).vector_rows() + Seq::new(
                    texts@.len(),
                    |i: int| (chunk_ids@[i]@, d.id@, d.kb_id@, blobs@[i]@),
                )
                &&& forall|i: int| 0 <= i < old(self).vector_rows().len() ==> (#[trigger] old(self).vector_rows()[i]).1 != d.id@
                &&& forall|i: int| 0 <= i < old(self).chunks().len() ==> (#[trigger] old(self).chunks()[i]).document_id@ != d.id@
            },
    {
        let p = match self.document_position(doc_id) {
            Some(p) => p,
            None => return Err(KnowledgeBaseError::NotFound(doc_id.to_owned())),
        };
        if self.documents[p].status != DocumentStatus::Processing {
            proof {
                assert forall|i: int| 0 <= i < self.documents().len() && #[trigger] self.documents()[i].id@ == doc_id@
                    implies self.documents()[i].status != DocumentStatus::Processing by {
                    if i != p { assert(self.documents()[i].id@ != self.documents()[p as int].id@); }
                }
            }
            return Err(KnowledgeBaseError::InvalidConfig(NOT_PROCESSING.to_owned()));
        }
        let b = self.base_of_document(p);
        let n = texts.len();
        if chunk_ids.len() != n || blobs.len() != n || n > i32::MAX as usize {
            self.record_failure(doc_id, EMBEDDING_COUNT_MISMATCH.to_owned());
            return Err(KnowledgeBaseError::EmbeddingError(EMBEDDING_COUNT_MISMATCH.to_owned()));
        }
        let dim = self.bases[b].embedding_dim as usize;
        let mut k: usize = 0;
        while k < n
            invariant
                k <= n == blobs@.len(),
                dim == self.bases()[b as int].embedding_dim,
                self.wf(),
                b < self.bases().len(),
                self.bases() == old(self).bases(),
                self.documents() == old(self).documents(),
                self.chunks() == old(self).chunks(),
                self.vector_rows() == old(self).vector_rows(),
                p < self.documents().len(),
                self.documents()[p as int].status == DocumentStatus::Processing,
                self.documents()[p as int].id@ == doc_id@,
                self.bases()[b as int].id@ == self.documents()[p as int].kb_id@,
                n == texts@.len() == chunk_ids@.len(),
                n <= i32::MAX,
                forall|t: int| 0 <= t < k ==> (#[trigger] blobs@[t])@.len() == 4 * dim,
            decreases n - k,
        {
            let len = blobs[k].len();
            if len % 4 != 0 || len / 4 != dim {
                self.record_failure(doc_id, EMBEDDING_DIM_MISMATCH.to_owned());
                return Err(KnowledgeBaseError::EmbeddingError(EMBEDDING_DIM_MISMATCH.to_owned()));
            }
            k += 1;
        }
        let ghost s0 = *self;
        let ghost d0 = self.documents()[p as int];
        let ghost base_chunks = self.chunks@;
        proof {
            assert forall|i: int| 0 <= i < base_chunks.len() implies (#[trigger] base_chunks[i]).document_id@ != d0.id@ by {
                assert(chunk_owned(s0.documents(), base_chunks[i]));
                let q = choose|q: int| 0 <= q < s0.documents().len() && #[trigger] s0.documents()[q].id@ == base_chunks[i].document_id@
                    && s0.documents()[q].kb_id@ == base_chunks[i].kb_id@ && s0.documents()[q].status == DocumentStatus::Completed;
                if base_chunks[i].document_id@ == d0.id@ {
                    assert(q != p);
                }
            }
            lemma_indices_absent(base_chunks, d0.id@);
            assert forall|i: int| 0 <= i < s0.vector_rows().len() implies (#[trigger] s0.vector_rows()[i]).1 != d0.id@ by {
                assert(vector_owned(s0.chunks(), s0.vector_rows()[i]));
                let c = choose|c: int| 0 <= c < s0.chunks().len() && #[trigger] s0.chunks()[c].id@ == s0.vector_rows()[i].0
                    && s0.chunks()[c].document_id@ == s0.vector_rows()[i].1 && s0.chunks()[c].kb_id@ == s0.vector_rows()[i].2;
                assert(base_chunks[c].document_id@ != d0.id@);
            }
        }
        let mut rows: Vec<(String, String, Vec<u8>)> = Vec::new();
        let mut i: usize = 0;
        while i < n
            invariant
                i <= n == texts@.len() == chunk_ids@.len() == blobs@.len(),
                n <= i32::MAX,
                d0 == s0.documents()[p as int],
                p < s0.documents().len(),
                self.documents() == s0.documents(),
                self.bases() == s0.bases(),
                self.vector_rows() == s0.vector_rows(),
                self.chunks().len() == base_chunks.len() + i,
                self.chunks().take(base_chunks.len() as int) == base_chunks,
                forall|t: int| 0 <= t < i ==> new_chunk_ok(#[trigger] self.chunks()[base_chunks.len() + t], d0, chunk_ids@[t], texts@[t], t),
                indices_of(self.chunks(), d0.id@) == range(i as int),
                forall|id: Seq<char>| id != d0.id@ ==> #[trigger] indices_of(self.chunks(), id) == indices_of(base_chunks, id),
                rows@.len() == i,
                forall|t: int| 0 <= t < i ==> #[trigger] new_row_view(rows@[t], d0.kb_id@) == (chunk_ids@[t]@, d0.id@, d0.kb_id@, blobs@[t]@),
            decreases n - i,
        {
            let c = Chunk {
                id: chunk_ids[i].clone(),
                document_id: self.documents[p].id.clone(),
                kb_id: self.documents[p].kb_id.clone(),
                content: texts[i].clone(),
                chunk_index: i as i32,
                token_count: estimate_tokens(texts[i].as_str()),
            };
            let ghost before = self.chunks@;
            self.chunks.push(c);
            proof {
                assert(self.chunks@.drop_last() == before);
                assert forall|t: int| 0 <= t < i + 1 implies new_chunk_ok(#[trigger] self.chunks()[base_chunks.len() + t], d0, chunk_ids@[t], texts@[t], t) by {
                    if t < i {
                        assert(self.chunks@[base_chunks.len() + t] == before[base_chunks.len() + t]);
                    }
                }
                assert(self.chunks().take(base_chunks.len() as int) =~= before.take(base_chunks.len() as int));
                assert(range(i as int).push(i as int) =~= range(i as int + 1));
                assert forall|id: Seq<char>| id != d0.id@ implies #[trigger] indices_of(self.chunks(), id) == indices_of(base_chunks, id) by {
                    assert(indices_of(self.chunks(), id) == indices_of(before, id));
                }
            }
            rows.push((chunk_ids[i].clone(), self.documents[p].id.clone(), blobs[i].clone()));
            proof {
                assert forall|t: int| 0 <= t < i + 1 implies #[trigger] new_row_view(rows@[t], d0.kb_id@) == (chunk_ids@[t]@, d0.id@, d0.kb_id@, blobs@[t]@) by {
                    if t == i {
                        assert(rows@[t].2@ =~= blobs@[t]@);
                    }
                }
            }
            i += 1;
        }
        let ghost s1_chunks = self.chunks();
        let inserted = self.vectors.insert_vectors(self.documents[p].kb_id.as_str(), dim, rows);
        proof {
            assert(all_of_dim(rows@, dim as nat)) by {
                assert forall|t: int| 0 <= t < rows@.len() implies (#[trigger] rows@[t]).2@.len() == 4 * dim by {
                    assert(new_row_view(rows@[t], d0.kb_id@).3 == blobs@[t]@);
                }
            }
        }
        self.documents[p].status = DocumentStatus::Completed;
        self.documents[p].chunk_count = n as i32;
        self.documents[p].content_preview = preview;
        let d = Document {
            id: self.documents[p].id.clone(),
            kb_id: self.documents[p].kb_id.clone(),
            filename: self.documents[p].filename.clone(),
            file_type: self.documents[p].file_type.clone(),
            file_size: self.documents[p].file_size,
            file_hash: self.documents[p].file_hash.clone(),
            content_preview: self.documents[p].content_preview.clone(),
            chunk_count: self.documents[p].chunk_count,
            status: DocumentStatus::Completed,
            error_message: match &self.documents[p].error_message {
                Some(m) => Some(m.clone()),
                None => None,
            },
            created_at: self.documents[p].created_at,
        };
        proof {
            let new_rows = Seq::new(n as nat, |t: int| (chunk_ids@[t]@, d0.id@, d0.kb_id@, blobs@[t]@));
            assert(rows@.map_values(|v: (String, String, Vec<u8>)| new_row_view(v, d0.kb_id@)) =~= new_rows);
            assert(d == self.documents()[p as int]);
            assert(self.documents() == s0.documents().update(p as int, d));
            KnowledgeStore::lemma_completed(&s0, self, p as int, n as int, new_rows);
        }
        Ok(d)
    }

    proof fn lemma_completed(
        s0: &Self,
        s1: &Self,
        p: int,
        n: int,
        new_rows: Seq<(Seq<char>, Seq<char>, Seq<char>, Seq<u8>)>,
    )
        requires
            s0.wf(),
            0 <= p < s0.documents().len(),
            0 <= n,
            s0.documents()[p].status != DocumentStatus::Completed,
            s1.bases() == s0.bases(),
            s1.documents().len() == s0.documents().len(),
            forall|i: int| 0 <= i < s0.documents().len() && i != p ==> s1.documents()[i] == s0.documents()[i],
            s1.documents()[p].id == s0.documents()[p].id,
            s1.documents()[p].kb_id == s0.documents()[p].kb_id,
            s1.documents()[p].status == DocumentStatus::Completed,
            s1.documents()[p].chunk_count as int == n,
            s1.chunks().len() == s0.chunks().len() + n,
            s1.chunks().take(s0.chunks().len() as int) == s0.chunks(),
            forall|t: int| 0 <= t < n ==> (#[trigger] s1.chunks()[s0.chunks().len() + t]).document_id@ == s0.documents()[p].id@
                && s1.chunks()[s0.chunks().len() + t].kb_id@ == s0.documents()[p].kb_id@
                && s1.chunks()[s0.chunks().len() + t].id@ == new_rows[t].0,
            indices_of(s1.chunks(), s0.documents()[p].id@) == range(n),
            forall|id: Seq<char>| id != s0.documents()[p].id@ ==> #[trigger] indices_of(s1.chunks(), id) == indices_of(s0.chunks(), id),
            new_rows.len() == n,
            forall|t: int| 0 <= t < n ==> (#[trigger] new_rows[t]).1 == s0.documents()[p].id@ && new_rows[t].2 == s0.documents()[p].kb_id@
                && fits_base(s0.bases(), new_rows[t]),
            s1.vector_rows() == s0.vector_rows() + new_rows,
        ensures
            s1.wf(),
    {
        let m = s0.chunks().len() as int;
        assert forall|i: int| 0 <= i < m implies s1.chunks()[i] == s0.chunks()[i] by {
            assert(s1.chunks().take(m)[i] == s1.chunks()[i]);
        }
        // vectors fit
        assert forall|i: int| 0 <= i < s1.vector_rows().len() implies #[trigger] fits_base(s1.bases(), s1.vector_rows()[i]) by {
            if i < s0.vector_rows().len() {
                assert(s1.vector_rows()[i] == s0.vector_rows()[i]);
            } else {
                assert(s1.vector_rows()[i] == new_rows[i - s0.vector_rows().len()]);
            }
        }
        // chunks owned
        assert forall|i: int| 0 <= i < s1.chunks().len() implies #[trigger] chunk_owned(s1.documents(), s1.chunks()[i]) by {
            if i < m {
                assert(s1.chunks()[i] == s0.chunks()[i]);
                assert(chunk_owned(s0.documents(), s0.chunks()[i]));
                let q = choose|q: int| 0 <= q < s0.documents().len() && #[trigger] s0.documents()[q].id@ == s0.chunks()[i].document_id@
                    && s0.documents()[q].kb_id@ == s0.chunks()[i].kb_id@ && s0.documents()[q].status == DocumentStatus::Completed;
                assert(q != p);
                assert(s1.documents()[q].id@ == s1.chunks()[i].document_id@);
            } else {
                let t = i - m;
                assert(s1.chunks()[m + t].document_id@ == s0.documents()[p].id@);
                assert(s1.documents()[p].id@ == s1.chunks()[i].document_id@);
            }
        }
        // vectors owned
        assert forall|i: int| 0 <= i < s1.vector_rows().len() implies #[trigger] vector_owned(s1.chunks(), s1.vector_rows()[i]) by {
            if i < s0.vector_rows().len() {
                assert(s1.vector_rows()[i] == s0.vector_rows()[i]);
                assert(vector_owned(s0.chunks(), s0.vector_rows()[i]));
                let c = choose|c: int| 0 <= c < s0.chunks().len() && #[trigger] s0.chunks()[c].id@ == s0.vector_rows()[i].0
                    && s0.chunks()[c].document_id@ == s0.vector_rows()[i].1 && s0.chunks()[c].kb_id@ == s0.vector_rows()[i].2;
                assert(s1.chunks()[c] == s0.chunks()[c]);
                assert(s1.chunks()[c].id@ == s1.vector_rows()[i].0);
            } else {
                let t = i - s0.vector_rows().len();
                assert(s1.vector_rows()[i] == new_rows[t]);
                assert(s1.chunks()[m + t].id@ == new_rows[t].0);
                assert(s1.chunks()[m + t].id@ == s1.vector_rows()[i].0);
            }
        }
        // dense
        assert forall|i: int| 0 <= i < s1.documents().len() && (#[trigger] s1.documents()[i]).status == DocumentStatus::Completed
            implies indices_of(s1.chunks(), s1.documents()[i].id@) == range(s1.documents()[i].chunk_count as int) by {
            if i != p {
                assert(s1.documents()[i] == s0.documents()[i]);
                assert(s1.documents()[i].id@ != s0.documents()[p].id@);
            }
        }
        assert forall|i: int, j: int| 0 <= i < s1.documents().len() && 0 <= j < s1.documents().len() && i != j
            implies (#[trigger] s1.documents()[i]).id@ != (#[trigger] s1.documents()[j]).id@ by {
            assert(s1.documents()[i].id@ == s0.documents()[i].id@);
            assert(s1.documents()[j].id@ == s0.documents()[j].id@);
        }
        assert forall|i: int| 0 <= i < s1.documents().len() implies #[trigger] base_exists(s1.bases(), s1.documents()[i].kb_id@) by {
            assert(s1.documents()[i].kb_id@ == s0.documents()[i].kb_id@);
            assert(base_exists(s0.bases(), s0.documents()[i].kb_id@));
        }
    }
}

impl KnowledgeStore {
    fn remove_chunks_of(&mut self, doc_id: &str)
        ensures
            final(self).chunks() == chunks_without(old(self).chunks(), doc_id@),
            final(self).bases() == old(self).bases(),
            final(self).documents() == old(self).documents(),
            final(self).vector_rows() == old(self).vector_rows(),
    {
        let ghost all = self.chunks@;
        let mut kept: Vec<Chunk> = Vec::new();
        let mut i: usize = 0;
        while i < self.chunks.len()
            invariant
                i <= self.chunks@.len(),
                all == self.chunks@,
                kept@ == chunks_without(all.take(i as int), doc_id@),
            decreases self.chunks@.len() - i,
        {
            proof { assert(all.take(i as int + 1).drop_last() =~= all.take(i as int)); }
            if !same_chars(self.chunks[i].document_id.as_str(), doc_id) {
                let c = &self.chunks[i];
                let copy = Chunk {
                    id: c.id.clone(),
                    document_id: c.document_id.clone(),
                    kb_id: c.kb_id.clone(),
                    content: c.content.clone(),
                    chunk_index: c.chunk_index,
                    token_count: c.token_count,
                };
                proof { assert(copy == all[i as int]); }
                kept.push(copy);
            }
            i += 1;
        }
        proof { assert(all.take(i as int) =~= all); }
        self.chunks = kept;
    }

    /// Deletes document `doc_id` of base `kb_id`, with its chunks and vectors.
    pub fn delete_document(&mut self, doc_id: &str, kb_id: &str) -> (r: Result<(), KnowledgeBaseError>)
        requires
            old(self).wf(),
        ensures
            final(self).wf(),
            final(self).bases() == old(self).bases(),
            r is Ok <==> exists|p: int| 0 <= p < old(self).documents().len() && #[trigger] old(self).documents()[p].id@ == doc_id@
                && old(self).documents()[p].kb_id@ == kb_id@,
            r is Err ==> (r matches Err(KnowledgeBaseError::NotFound(m)) && m@ == doc_id@) && final(self).documents() == old(self).documents()
                && final(self).chunks() == old(self).chunks() && final(self).vector_rows() == old(self).vector_rows(),
            r is Ok ==> {
                &&& exists|p: int| 0 <= p < old(self).documents().len() && #[trigger] old(self).documents()[p].id@ == doc_id@
                    && final(self).documents() == old(self).documents().remove(p)
                &&& count_docs(final(self).documents(), kb_id@) + 1 == count_docs(old(self).documents(), kb_id@)
                &&& forall|i: int| 0 <= i < final(self).chunks().len() ==> (#[trigger] final(self).chunks()[i]).document_id@ != doc_id@
                &&& forall|i: int| 0 <= i < final(self).vector_rows().len() ==> (#[trigger] final(self).vector_rows()[i]).1 != doc_id@
                &&& forall|c: Chunk| old(self).chunks().contains(c) && c.document_id@ != doc_id@ ==> #[trigger] final(self).chunks().contains(c)
                &&& forall|v: (Seq<char>, Seq<char>, Seq<char>, Seq<u8>)| old(self).vector_rows().contains(v) && v.1 != doc_id@
                    ==> #[trigger] final(self).vector_rows().contains(v)
                &&& forall|d: Document| old(self).documents().contains(d) && d.id@ != doc_id@ ==> #[trigger] final(self).documents().contains(d)
            },
    {
        let p = match self.document_position(doc_id) {
            Some(p) => p,
            None => return Err(KnowledgeBaseError::NotFound(doc_id.to_owned())),
        };
        if !same_chars(self.documents[p].kb_id.as_str(), kb_id) {
            proof {
                assert forall|q: int| 0 <= q < self.documents().len() && #[trigger] self.documents()[q].id@ == doc_id@
                    implies self.documents()[q].kb_id@ != kb_id@ by {
                    if q != p { assert(self.documents()[q].id@ != self.documents()[p as int].id@); }
                }
            }
            return Err(KnowledgeBaseError::NotFound(doc_id.to_owned()));
        }
        let ghost s0 = *self;
        self.vectors.delete_document_vectors(kb_id, doc_id);
        self.remove_chunks_of(doc_id);
        let ghost s1 = *self;
        self.documents.remove(p);
        proof {
            lemma_count_remove(s0.documents(), p as int, kb_id@);
            KnowledgeStore::lemma_deleted_document(&s0, self, p as int);
            crate::vector_store::lemma_rows_without(s0.vector_rows(), kb_id@, Some(doc_id@));
            assert forall|d: Document| s0.documents().contains(d) && d.id@ != doc_id@ implies #[trigger] self.documents().contains(d) by {
                let i = choose|i: int| 0 <= i < s0.documents().len() && s0.documents()[i] == d;
                assert(i != p);
                let j = if i < p { i } else { i - 1 };
                assert(self.documents()[j] == d);
            }
        }
        Ok(())
    }

    proof fn lemma_kept_row(s0: &Self, s1: &Self, p: int, i: int)
        requires
            s0.wf(),
            0 <= p < s0.documents().len(),
            s1.bases() == s0.bases(),
            s1.chunks() == chunks_without(s0.chunks(), s0.documents()[p].id@),
            s1.vector_rows() == crate::vector_store::rows_without(s0.vector_rows(), s0.documents()[p].kb_id@, Some(s0.documents()[p].id@)),
            0 <= i < s1.vector_rows().len(),
        ensures
            fits_base(s1.bases(), s1.vector_rows()[i]),
            vector_owned(s1.chunks(), s1.vector_rows()[i]),
            s1.vector_rows()[i].1 != s0.documents()[p].id@,
    {
        let did = s0.documents()[p].id@;
        let kb = s0.documents()[p].kb_id@;
        lemma_chunks_without(s0.chunks(), did);
        crate::vector_store::lemma_rows_without(s0.vector_rows(), kb, Some(did));
        let r = s1.vector_rows()[i];
        assert(s1.vector_rows().contains(r));
        let k = choose|k: int| 0 <= k < s0.vector_rows().len() && s0.vector_rows()[k] == r;
        assert(fits_base(s0.bases(), s0.vector_rows()[k]));
        assert(vector_owned(s0.chunks(), s0.vector_rows()[k]));
        let c = choose|c: int| 0 <= c < s0.chunks().len() && #[trigger] s0.chunks()[c].id@ == r.0
            && s0.chunks()[c].document_id@ == r.1 && s0.chunks()[c].kb_id@ == r.2;
        let ch = s0.chunks()[c];
        assert(s0.chunks().contains(ch));
        if ch.document_id@ == did {
            assert(chunk_owned(s0.documents(), s0.chunks()[c]));
            let q = choose|q: int| 0 <= q < s0.documents().len() && #[trigger] s0.documents()[q].id@ == ch.document_id@
                && s0.documents()[q].kb_id@ == ch.kb_id@ && s0.documents()[q].status == DocumentStatus::Completed;
            if q != p {
                assert(s0.documents()[q].id@ != s0.documents()[p].id@);
            }
            assert(crate::vector_store::selected(r, kb, Some(did)));
            assert(false);
        }
        assert(s1.chunks().contains(ch));
        let j = choose|j: int| 0 <= j < s1.chunks().len() && s1.chunks()[j] == ch;
        assert(s1.chunks()[j].id@ == r.0);
    }

    proof fn lemma_deleted_document(s0: &Self, s1: &Self, p: int)
        requires
            s0.wf(),
            0 <= p < s0.documents().len(),
            s1.bases() == s0.bases(),
            s1.documents() == s0.documents().remove(p),
            s1.chunks() == chunks_without(s0.chunks(), s0.documents()[p].id@),
            s1.vector_rows() == crate::vector_store::rows_without(s0.vector_rows(), s0.documents()[p].kb_id@, Some(s0.documents()[p].id@)),
        ensures
            s1.wf(),
            forall|i: int| 0 <= i < s1.chunks().len() ==> (#[trigger] s1.chunks()[i]).document_id@ != s0.documents()[p].id@,
            forall|i: int| 0 <= i < s1.vector_rows().len() ==> (#[trigger] s1.vector_rows()[i]).1 != s0.documents()[p].id@,
            forall|c: Chunk| s0.chunks().contains(c) && c.document_id@ != s0.documents()[p].id@ ==> #[trigger] s1.chunks().contains(c),
    {
        let did = s0.documents()[p].id@;
        let kb = s0.documents()[p].kb_id@;
        lemma_chunks_without(s0.chunks(), did);
        crate::vector_store::lemma_rows_without(s0.vector_rows(), kb, Some(did));
        // a chunk of the deleted document is of its base
        assert forall|c: int| 0 <= c < s0.chunks().len() && (#[trigger] s0.chunks()[c]).document_id@ == did implies s0.chunks()[c].kb_id@ == kb by {
            assert(chunk_owned(s0.documents(), s0.chunks()[c]));
            let q = choose|q: int| 0 <= q < s0.documents().len() && #[trigger] s0.documents()[q].id@ == s0.chunks()[c].document_id@
                && s0.documents()[q].kb_id@ == s0.chunks()[c].kb_id@ && s0.documents()[q].status == DocumentStatus::Completed;
            if q != p {
                assert(s0.documents()[q].id@ != s0.documents()[p].id@);
            }
        }
        assert forall|i: int| 0 <= i < s1.chunks().len() implies (#[trigger] s1.chunks()[i]).document_id@ != did by {
            assert(s1.chunks().contains(s1.chunks()[i]));
        }
        assert forall|i: int| 0 <= i < s1.vector_rows().len() implies #[trigger] fits_base(s1.bases(), s1.vector_rows()[i])
            && vector_owned(s1.chunks(), s1.vector_rows()[i]) && s1.vector_rows()[i].1 != did by {
            KnowledgeStore::lemma_kept_row(s0, s1, p, i);
        }
        assert forall|i: int| 0 <= i < s1.vector_rows().len() implies (#[trigger] s1.vector_rows()[i]).1 != did by {
            KnowledgeStore::lemma_kept_row(s0, s1, p, i);
        }
        assert forall|i: int| 0 <= i < s1.vector_rows().len() implies #[trigger] vector_owned(s1.chunks(), s1.vector_rows()[i]) by {
            KnowledgeStore::lemma_kept_row(s0, s1, p, i);
        }
        assert forall|i: int| 0 <= i < s1.chunks().len() implies #[trigger] chunk_owned(s1.documents(), s1.chunks()[i]) by {
            let ch = s1.chunks()[i];
            assert(s1.chunks().contains(ch));
            let c = choose|c: int| 0 <= c < s0.chunks().len() && s0.chunks()[c] == ch;
            assert(chunk_owned(s0.documents(), s0.chunks()[c]));
            let q = choose|q: int| 0 <= q < s0.documents().len() && #[trigger] s0.documents()[q].id@ == ch.document_id@
                && s0.documents()[q].kb_id@ == ch.kb_id@ && s0.documents()[q].status == DocumentStatus::Completed;
            assert(q != p);
            let q2 = if q < p { q } else { q - 1 };
            assert(s1.documents()[q2] == s0.documents()[q]);
            assert(s1.documents()[q2].id@ == ch.document_id@);
        }
        assert forall|i: int| 0 <= i < s1.documents().len() && (#[trigger] s1.documents()[i]).status == DocumentStatus::Completed
            implies indices_of(s1.chunks(), s1.documents()[i].id@) == range(s1.documents()[i].chunk_count as int) by {
            let i0 = if i < p { i } else { i + 1 };
            assert(s1.documents()[i] == s0.documents()[i0]);
            assert(i0 != p);
            assert(s0.documents()[i0].id@ != did);
        }
        assert forall|i: int, j: int| 0 <= i < s1.documents().len() && 0 <= j < s1.documents().len() && i != j
            implies (#[trigger] s1.documents()[i]).id@ != (#[trigger] s1.documents()[j]).id@ by {
            let i0 = if i < p { i } else { i + 1 };
            let j0 = if j < p { j } else { j + 1 };
            assert(s1.documents()[i] == s0.documents()[i0]);
            assert(s1.documents()[j] == s0.documents()[j0]);
        }
        assert forall|i: int| 0 <= i < s1.documents().len() implies #[trigger] base_exists(s1.bases(), s1.documents()[i].kb_id@) by {
            let i0 = if i < p { i } else { i + 1 };
            assert(s1.documents()[i] == s0.documents()[i0]);
            assert(base_exists(s0.bases(), s0.documents()[i0].kb_id@));
        }
    }
}

/// Every stored vector of a base is `4 * embedding_dim` bytes long, the dimension of
/// the base it belongs to.
pub proof fn law_vector_blob_size(s: &KnowledgeStore, i: int)
    requires
        s.wf(),
        0 <= i < s.vector_rows().len(),
    ensures
        exists|b: int| 0 <= b < s.bases().len() && #[trigger] s.bases()[b].id@ == s.vector_rows()[i].2
            && s.vector_rows()[i].3.len() == 4 * s.bases()[b].embedding_dim,
{
    assert(fits_base(s.bases(), s.vector_rows()[i]));
}

/// The chunk indices of a completed document are exactly `0 .. chunk_count`, in order.
pub proof fn law_chunk_indices_dense(s: &KnowledgeStore, d: int)
    requires
        s.wf(),
        0 <= d < s.documents().len(),
        s.documents()[d].status == DocumentStatus::Completed,
    ensures
        indices_of(s.chunks(), s.documents()[d].id@) == range(s.documents()[d].chunk_count as int),
{
}

/// The chunks of `cs` not of base `kb`, in order.
pub open spec fn chunks_outside(cs: Seq<Chunk>, kb: Seq<char>) -> Seq<Chunk>
    decreases cs.len(),
{
    if cs.len() == 0 {
        cs
    } else if cs.last().kb_id@ == kb {
        chunks_outside(cs.drop_last(), kb)
    } else {
        chunks_outside(cs.drop_last(), kb).push(cs.last())
    }
}

/// The documents of `ds` not of base `kb`, in order.
pub open spec fn documents_outside(ds: Seq<Document>, kb: Seq<char>) -> Seq<Document>
    decreases ds.len(),
{
    if ds.len() == 0 {
        ds
    } else if ds.last().kb_id@ == kb {
        documents_outside(ds.drop_last(), kb)
    } else {
        documents_outside(ds.drop_last(), kb).push(ds.last())
    }
}

pub proof fn lemma_chunks_outside(cs: Seq<Chunk>, kb: Seq<char>)
    ensures
        forall|c: Chunk| #[trigger] chunks_outside(cs, kb).contains(c) <==> cs.contains(c) && c.kb_id@ != kb,
        forall|d: Seq<char>| #[trigger] indices_of(chunks_outside(cs, kb), d) == indices_of(cs, d) || exists|i: int| 0 <= i < cs.len()
            && cs[i].document_id@ == d && cs[i].kb_id@ == kb,
    decreases cs.len(),
{
    if cs.len() > 0 {
        let p = chunks_outside(cs.drop_last(), kb);
        lemma_chunks_outside(cs.drop_last(), kb);
        assert forall|c: Chunk| #[trigger] chunks_outside(cs, kb).contains(c) <==> cs.contains(c) && c.kb_id@ != kb by {
            if cs.contains(c) && c.kb_id@ != kb {
                let i = choose|i: int| 0 <= i < cs.len() && cs[i] == c;
                if i < cs.len() - 1 {
                    assert(cs.drop_last()[i] == c);
                    assert(cs.drop_last().contains(c));
                    assert(p.contains(c));
                    let j = choose|j: int| 0 <= j < p.len() && p[j] == c;
                    if cs.last().kb_id@ != kb {
                        assert(p.push(cs.last())[j] == c);
                    }
                } else {
                    assert(p.push(cs.last())[p.len() as int] == c);
                }
            }
            if chunks_outside(cs, kb).contains(c) {
                let r = chunks_outside(cs, kb);
                let j = choose|j: int| 0 <= j < r.len() && r[j] == c;
                if j < p.len() {
                    assert(r[j] == p[j]);
                    assert(p.contains(c));
                    let i = choose|i: int| 0 <= i < cs.len() - 1 && cs.drop_last()[i] == c;
                    assert(cs[i] == c);
                } else {
                    assert(cs[cs.len() - 1] == c);
                }
            }
        }
        assert forall|d: Seq<char>| #[trigger] indices_of(chunks_outside(cs, kb), d) == indices_of(cs, d) || exists|i: int| 0 <= i < cs.len()
            && cs[i].document_id@ == d && cs[i].kb_id@ == kb by {
            assert(indices_of(p, d) == indices_of(cs.drop_last(), d) || exists|i: int| 0 <= i < cs.drop_last().len()
                && cs.drop_last()[i].document_id@ == d && cs.drop_last()[i].kb_id@ == kb);
            if exists|i: int| 0 <= i < cs.drop_last().len() && cs.drop_last()[i].document_id@ == d && cs.drop_last()[i].kb_id@ == kb {
                let i = choose|i: int| 0 <= i < cs.drop_last().len() && cs.drop_last()[i].document_id@ == d && cs.drop_last()[i].kb_id@ == kb;
                assert(cs[i] == cs.drop_last()[i]);
            } else if cs.last().kb_id@ == kb && cs.last().document_id@ == d {
                assert(cs[cs.len() - 1] == cs.last());
            } else if cs.last().kb_id@ != kb {
                assert(p.push(cs.last()).drop_last() =~= p);
            }
        }
    }
}

pub proof fn lemma_documents_outside(ds: Seq<Document>, kb: Seq<char>)
    ensures
        forall|d: Document| #[trigger] documents_outside(ds, kb).contains(d) <==> ds.contains(d) && d.kb_id@ != kb,
        count_docs(documents_outside(ds, kb), kb) == 0,
    decreases ds.len(),
{
    if ds.len() > 0 {
        let p = documents_outside(ds.drop_last(), kb);
        lemma_documents_outside(ds.drop_last(), kb);
        assert forall|d: Document| #[trigger] documents_outside(ds, kb).contains(d) <==> ds.contains(d) && d.kb_id@ != kb by {
            if ds.contains(d) && d.kb_id@ != kb {
                let i = choose|i: int| 0 <= i < ds.len() && ds[i] == d;
                if i < ds.len() - 1 {
                    assert(ds.drop_last()[i] == d);
                    assert(ds.drop_last().contains(d));
                    assert(p.contains(d));
                    let j = choose|j: int| 0 <= j < p.len() && p[j] == d;
                    if ds.last().kb_id@ != kb {
                        assert(p.push(ds.last())[j] == d);
                    }
                } else {
                    assert(p.push(ds.last())[p.len() as int] == d);
                }
            }
            if documents_outside(ds, kb).contains(d) {
                let r = documents_outside(ds, kb);
                let j = choose|j: int| 0 <= j < r.len() && r[j] == d;
                if j < p.len() {
                    assert(r[j] == p[j]);
                    assert(p.contains(d));
                    let i = choose|i: int| 0 <= i < ds.len() - 1 && ds.drop_last()[i] == d;
                    assert(ds[i] == d);
                } else {
                    assert(ds[ds.len() - 1] == d);
                }
            }
        }
        if ds.last().kb_id@ != kb {
            assert(p.push(ds.last()).drop_last() =~= p);
        }
    }
}

pub proof fn lemma_documents_outside_unique(ds: Seq<Document>, kb: Seq<char>)
    requires
        documents_unique(ds),
    ensures
        documents_unique(documents_outside(ds, kb)),
    decreases ds.len(),
{
    if ds.len() > 0 {
        let p = documents_outside(ds.drop_last(), kb);
        assert forall|i: int, j: int| 0 <= i < ds.drop_last().len() && 0 <= j < ds.drop_last().len() && i != j
            implies (#[trigger] ds.drop_last()[i]).id@ != (#[trigger] ds.drop_last()[j]).id@ by {
            assert(ds.drop_last()[i] == ds[i]);
            assert(ds.drop_last()[j] == ds[j]);
        }
        lemma_documents_outside_unique(ds.drop_last(), kb);
        lemma_documents_outside(ds.drop_last(), kb);
        if ds.last().kb_id@ != kb {
            let r = p.push(ds.last());
            assert forall|i: int, j: int| 0 <= i < r.len() && 0 <= j < r.len() && i != j
                implies (#[trigger] r[i]).id@ != (#[trigger] r[j]).id@ by {
                if i < p.len() && j < p.len() {
                    assert(r[i] == p[i]);
                    assert(r[j] == p[j]);
                } else {
                    let a = if i < p.len() { i } else { j };
                    assert(r[a] == p[a]);
                    assert(p.contains(p[a]));
                    assert(ds.drop_last().contains(p[a]));
                    let k = choose|k: int| 0 <= k < ds.drop_last().len() && ds.drop_last()[k] == p[a];
                    assert(ds[k] == p[a]);
                    assert(ds[ds.len() - 1] == ds.last());
                }
            }
        }
    }
}

/// Whether `b` lists a base of `bases`: same id, update time and dimension.
pub open spec fn has_base(bases: Seq<KnowledgeBase>, b: KnowledgeBase) -> bool {
    exists|i: int| 0 <= i < bases.len() && #[trigger] bases[i].id@ == b.id@ && bases[i].updated_at == b.updated_at
        && bases[i].embedding_dim == b.embedding_dim
}

/// Whether a listing has a base with id `id`.
pub open spec fn lists_base(r: Seq<KnowledgeBase>, id: Seq<char>) -> bool {
    exists|a: int| 0 <= a < r.len() && #[trigger] r[a].id@ == id
}

/// A copy of a document.
pub fn copy_document(d: &Document) -> (r: Document)
    ensures
        r == *d,
{
    Document {
        id: d.id.clone(),
        kb_id: d.kb_id.clone(),
        filename: d.filename.clone(),
        file_type: d.file_type.clone(),
        file_size: d.file_size,
        file_hash: d.file_hash.clone(),
        content_preview: d.content_preview.clone(),
        chunk_count: d.chunk_count,
        status: d.status,
        error_message: match &d.error_message {
            Some(m) => Some(m.clone()),
            None => None,
        },
        created_at: d.created_at,
    }
}

/// A copy of a chunk.
pub fn copy_chunk(c: &Chunk) -> (r: Chunk)
    ensures
        r == *c,
{
    Chunk {
        id: c.id.clone(),
        document_id: c.document_id.clone(),
        kb_id: c.kb_id.clone(),
        content: c.content.clone(),
        chunk_index: c.chunk_index,
        token_count: c.token_count,
    }
}

impl KnowledgeStore {
    /// A chunk found by retrieval, with the file name of its document, for chunks
    /// of completed documents only.
    pub fn chunk_for_result(&self, chunk_id: &str) -> (r: Option<(Chunk, String)>)
        requires
            self.wf(),
        ensures
            r matches Some((c, f)) ==> c.id@ == chunk_id@ && self.chunks().contains(c) && exists|d: int| 0 <= d < self.documents().len()
                && #[trigger] self.documents()[d].id@ == c.document_id@ && self.documents()[d].status == DocumentStatus::Completed
                && self.documents()[d].filename@ == f@,
            r is None <==> forall|i: int| 0 <= i < self.chunks().len() ==> #[trigger] self.chunks()[i].id@ != chunk_id@,
    {
        let mut i: usize = 0;
        while i < self.chunks.len()
            invariant
                self.wf(),
                i <= self.chunks@.len(),
                forall|t: int| 0 <= t < i ==> #[trigger] self.chunks@[t].id@ != chunk_id@,
            decreases self.chunks@.len() - i,
        {
            if same_chars(self.chunks[i].id.as_str(), chunk_id) {
                let c = copy_chunk(&self.chunks[i]);
                proof { assert(chunk_owned(self.documents(), self.chunks()[i as int])); }
                match self.document_position(c.document_id.as_str()) {
                    Some(p) => {
                        if self.documents[p].status == DocumentStatus::Completed {
                            let f = self.documents[p].filename.clone();
                            proof { assert(self.chunks()[i as int] == c); }
                            return Some((c, f));
                        } else {
                            proof {
                                let q = choose|q: int| 0 <= q < self.documents().len() && #[trigger] self.documents()[q].id@ == c.document_id@
                                    && self.documents()[q].kb_id@ == c.kb_id@ && self.documents()[q].status == DocumentStatus::Completed;
                                assert(q != p);
                                assert(false);
                            }
                            return None;
                        }
                    },
                    None => {
                        proof {
                            let q = choose|q: int| 0 <= q < self.documents().len() && #[trigger] self.documents()[q].id@ == c.document_id@
                                && self.documents()[q].kb_id@ == c.kb_id@ && self.documents()[q].status == DocumentStatus::Completed;
                            assert(false);
                        }
                        return None;
                    },
                }
            }
            i += 1;
        }
        None
    }

    /// The documents of base `kb_id`, latest first.
    pub fn list_documents(&self, kb_id: &str) -> (r: Vec<Document>)
        ensures
            forall|a: int| 0 <= a < r@.len() ==> self.documents().contains(#[trigger] r@[a]) && r@[a].kb_id@ == kb_id@,
            forall|i: int| 0 <= i < self.documents().len() && #[trigger] self.documents()[i].kb_id@ == kb_id@ ==> r@.contains(self.documents()[i]),
            forall|a: int, b: int| 0 <= a < b < r@.len() ==> r@[a].created_at >= r@[b].created_at,
    {
        let mut pos: Vec<usize> = Vec::new();
        let mut keys: Vec<u64> = Vec::new();
        let mut i: usize = 0;
        while i < self.documents.len()
            invariant
                i <= self.documents@.len(),
                pos@.len() == keys@.len(),
                forall|a: int| 0 <= a < pos@.len() ==> #[trigger] pos@[a] < i && self.documents@[pos@[a] as int].kb_id@ == kb_id@
                    && keys@[a] == time_key_of(self.documents@[pos@[a] as int].created_at),
                forall|t: int| 0 <= t < i && #[trigger] self.documents@[t].kb_id@ == kb_id@ ==> pos@.contains(t as usize),
            decreases self.documents@.len() - i,
        {
            if same_chars(self.documents[i].kb_id.as_str(), kb_id) {
                let ghost before = pos@;
                let ghost kbefore = keys@;
                pos.push(i);
                keys.push(time_order_key(self.documents[i].created_at));
                proof {
                    assert forall|a: int| 0 <= a < pos@.len() implies #[trigger] pos@[a] < i + 1 && self.documents@[pos@[a] as int].kb_id@ == kb_id@
                        && keys@[a] == time_key_of(self.documents@[pos@[a] as int].created_at) by {
                        if a < before.len() {
                            assert(pos@[a] == before[a]);
                            assert(keys@[a] == kbefore[a]);
                        }
                    }
                    assert forall|t: int| 0 <= t < i + 1 && #[trigger] self.documents@[t].kb_id@ == kb_id@ implies pos@.contains(t as usize) by {
                        if t < i {
                            let a = choose|a: int| 0 <= a < before.len() && before[a] == t as usize;
                            assert(pos@[a] == t as usize);
                        } else {
                            assert(pos@[before.len() as int] == t as usize);
                        }
                    }
                }
            }
            i += 1;
        }
        let order = top_by_key(&keys, keys.len());
        let mut out: Vec<Document> = Vec::new();
        let mut k: usize = 0;
        while k < order.len()
            invariant
                k <= order@.len() == keys@.len() == pos@.len(),
                forall|a: int| 0 <= a < order@.len() ==> order@[a] < keys@.len(),
                forall|a: int| 0 <= a < pos@.len() ==> #[trigger] pos@[a] < self.documents@.len() && self.documents@[pos@[a] as int].kb_id@ == kb_id@
                    && keys@[a] == time_key_of(self.documents@[pos@[a] as int].created_at),
                out@.len() == k,
                forall|a: int| 0 <= a < k ==> #[trigger] out@[a] == self.documents@[pos@[order@[a] as int] as int],
            decreases order@.len() - k,
        {
            let d = copy_document(&self.documents[pos[order[k]]]);
            out.push(d);
            k += 1;
        }
        proof {
            assert forall|a: int| 0 <= a < out@.len() implies self.documents().contains(#[trigger] out@[a]) && out@[a].kb_id@ == kb_id@ by {
                assert(self.documents()[pos@[order@[a] as int] as int] == out@[a]);
            }
            assert forall|i: int| 0 <= i < self.documents().len() && #[trigger] self.documents()[i].kb_id@ == kb_id@ implies out@.contains(self.documents()[i]) by {
                let a = choose|a: int| 0 <= a < pos@.len() && pos@[a] == i as usize;
                assert(order@.contains(a as usize) || (forall|b: int| 0 <= b < order@.len() ==> crate::ranking::ranks_before(keys@, #[trigger] order@[b] as int, a)));
                if order@.contains(a as usize) {
                    let b = choose|b: int| 0 <= b < order@.len() && order@[b] == a as usize;
                    assert(out@[b] == self.documents()[i]);
                } else {
                    let ext = order@.push(a as usize);
                    assert forall|x: int, y: int| 0 <= x < y < ext.len() implies ext[x] != ext[y] by {
                        if y < order@.len() {
                            assert(crate::ranking::ranks_before(keys@, order@[x] as int, order@[y] as int));
                        } else {
                            assert(ext[y] == a as usize);
                            assert(ext[x] == order@[x]);
                        }
                    }
                    assert forall|x: int| 0 <= x < ext.len() implies (ext[x] as int) < keys@.len() by {
                        if x < order@.len() {
                            assert(ext[x] == order@[x]);
                        }
                    }
                    crate::ranking::lemma_distinct_bound(ext, keys@.len() as int);
                    assert(false);
                }
            }
            assert forall|a: int, b: int| 0 <= a < b < out@.len() implies out@[a].created_at >= out@[b].created_at by {
                assert(crate::ranking::ranks_before(keys@, order@[a] as int, order@[b] as int));
                let ka = keys@[order@[a] as int];
                let kb = keys@[order@[b] as int];
                assert(ka == time_key_of(out@[a].created_at));
                assert(kb == time_key_of(out@[b].created_at));
            }
        }
        out
    }
}

impl KnowledgeStore {
    /// The vectors of base `kb_id` in storage order, for a full similarity scan:
    /// chunk id, document id and packed components.
    pub fn scan_vectors(&self, kb_id: &str) -> (r: Vec<(String, String, Vec<u8>)>)
        ensures
            r@.map_values(|v: (String, String, Vec<u8>)| new_row_view(v, kb_id@)) == rows_of(self.vector_rows(), kb_id@),
    {
        self.vectors.scan(kb_id)
    }

    /// All bases, the most recently updated first, each with its document count.
    pub fn list_knowledge_bases(&self) -> (r: Vec<KnowledgeBase>)
        ensures
            r@.len() == self.bases().len(),
            forall|a: int| 0 <= a < r@.len() ==> #[trigger] has_base(self.bases(), r@[a]),
            forall|a: int| 0 <= a < r@.len() ==> (#[trigger] r@[a]).document_count == count_docs(self.documents(), r@[a].id@) as i32,
            forall|i: int| 0 <= i < self.bases().len() ==> #[trigger] lists_base(r@, self.bases()[i].id@),
            forall|a: int, b: int| 0 <= a < b < r@.len() ==> r@[a].updated_at >= r@[b].updated_at,
    {
        let mut keys: Vec<u64> = Vec::new();
        let mut i: usize = 0;
        while i < self.bases.len()
            invariant
                i <= self.bases@.len(),
                keys@.len() == i,
                forall|a: int| 0 <= a < i ==> #[trigger] keys@[a] == time_key_of(self.bases@[a].updated_at),
            decreases self.bases@.len() - i,
        {
            keys.push(time_order_key(self.bases[i].updated_at));
            i += 1;
        }
        let order = top_by_key(&keys, keys.len());
        let mut out: Vec<KnowledgeBase> = Vec::new();
        let mut k: usize = 0;
        proof {
            assert(order@.len() == keys@.len());
        }
        while k < order.len()
            invariant
                k <= order@.len() == keys@.len() == self.bases@.len(),
                forall|a: int| 0 <= a < order@.len() ==> order@[a] < keys@.len(),
                forall|a: int| 0 <= a < keys@.len() ==> #[trigger] keys@[a] == time_key_of(self.bases@[a].updated_at),
                out@.len() == k,
                forall|a: int| 0 <= a < k ==> (#[trigger] out@[a]).id@ == self.bases@[order@[a] as int].id@
                    && out@[a].updated_at == self.bases@[order@[a] as int].updated_at
                    && out@[a].embedding_dim == self.bases@[order@[a] as int].embedding_dim
                    && out@[a].document_count == count_docs(self.documents(), out@[a].id@) as i32,
            decreases order@.len() - k,
        {
            let src = &self.bases[order[k]];
            let n = self.document_count(src.id.as_str());
            let b = KnowledgeBase {
                id: src.id.clone(),
                name: src.name.clone(),
                description: src.description.clone(),
                embedding_provider: src.embedding_provider.clone(),
                embedding_model: src.embedding_model.clone(),
                embedding_dim: src.embedding_dim,
                chunk_size: src.chunk_size,
                chunk_overlap: src.chunk_overlap,
                created_at: src.created_at,
                updated_at: src.updated_at,
                document_count: n as i32,
            };
            out.push(b);
            k += 1;
        }
        proof {
            assert forall|i: int| 0 <= i < self.bases().len() implies #[trigger] lists_base(out@, self.bases()[i].id@) by {
                if !order@.contains(i as usize) {
                    let ext = order@.push(i as usize);
                    assert forall|x: int, y: int| 0 <= x < y < ext.len() implies ext[x] != ext[y] by {
                        if y < order@.len() {
                            assert(crate::ranking::ranks_before(keys@, order@[x] as int, order@[y] as int));
                        } else {
                            assert(ext[x] == order@[x]);
                        }
                    }
                    assert forall|x: int| 0 <= x < ext.len() implies (ext[x] as int) < keys@.len() by {
                        if x < order@.len() {
                            assert(ext[x] == order@[x]);
                        }
                    }
                    crate::ranking::lemma_distinct_bound(ext, keys@.len() as int);
                }
                let a = choose|a: int| 0 <= a < order@.len() && order@[a] == i as usize;
                assert(out@[a].id@ == self.bases()[i].id@);
            }
            assert forall|a: int, b: int| 0 <= a < b < out@.len() implies out@[a].updated_at >= out@[b].updated_at by {
                assert(crate::ranking::ranks_before(keys@, order@[a] as int, order@[b] as int));
            }
            assert forall|a: int| 0 <= a < out@.len() implies #[trigger] has_base(self.bases(), out@[a]) by {
                let i = order@[a] as int;
                assert(self.bases()[i].id@ == out@[a].id@);
            }
        }
        out
    }
}

impl KnowledgeStore {
    fn remove_chunks_of_base(&mut self, kb_id: &str)
        ensures
            final(self).chunks() == chunks_outside(old(self).chunks(), kb_id@),
            final(self).bases() == old(self).bases(),
            final(self).documents() == old(self).documents(),
            final(self).vector_rows() == old(self).vector_rows(),
    {
        let ghost all = self.chunks@;
        let mut kept: Vec<Chunk> = Vec::new();
        let mut i: usize = 0;
        while i < self.chunks.len()
            invariant
                i <= self.chunks@.len(),
                all == self.chunks@,
                kept@ == chunks_outside(all.take(i as int), kb_id@),
            decreases self.chunks@.len() - i,
        {
            proof { assert(all.take(i as int + 1).drop_last() =~= all.take(i as int)); }
            if !same_chars(self.chunks[i].kb_id.as_str(), kb_id) {
                kept.push(copy_chunk(&self.chunks[i]));
            }
            i += 1;
        }
        proof { assert(all.take(i as int) =~= all); }
        self.chunks = kept;
    }

    fn remove_documents_of_base(&mut self, kb_id: &str)
        ensures
            final(self).documents() == documents_outside(old(self).documents(), kb_id@),
            final(self).bases() == old(self).bases(),
            final(self).chunks() == old(self).chunks(),
            final(self).vector_rows() == old(self).vector_rows(),
    {
        let ghost all = self.documents@;
        let mut kept: Vec<Document> = Vec::new();
        let mut i: usize = 0;
        while i < self.documents.len()
            invariant
                i <= self.documents@.len(),
                all == self.documents@,
                kept@ == documents_outside(all.take(i as int), kb_id@),
            decreases self.documents@.len() - i,
        {
            proof { assert(all.take(i as int + 1).drop_last() =~= all.take(i as int)); }
            if !same_chars(self.documents[i].kb_id.as_str(), kb_id) {
                kept.push(copy_document(&self.documents[i]));
            }
            i += 1;
        }
        proof { assert(all.take(i as int) =~= all); }
        self.documents = kept;
    }

    /// Deletes a base with all its documents, chunks and vectors.
    pub fn delete_knowledge_base(&mut self, kb_id: &str) -> (r: Result<(), KnowledgeBaseError>)
        requires
            old(self).wf(),
        ensures
            final(self).wf(),
            r is Ok <==> exists|i: int| 0 <= i < old(self).bases().len() && #[trigger] old(self).bases()[i].id@ == kb_id@,
            r is Err ==> (r matches Err(KnowledgeBaseError::NotFound(m)) && m@ == kb_id@) && final(self).bases() == old(self).bases()
                && final(self).documents() == old(self).documents() && final(self).chunks() == old(self).chunks()
                && final(self).vector_rows() == old(self).vector_rows(),
            r is Ok ==> {
                &&& exists|i: int| 0 <= i < old(self).bases().len() && #[trigger] old(self).bases()[i].id@ == kb_id@
                    && final(self).bases() == old(self).bases().remove(i)
                &&& count_docs(final(self).documents(), kb_id@) == 0
                &&& forall|i: int| 0 <= i < final(self).chunks().len() ==> (#[trigger] final(self).chunks()[i]).kb_id@ != kb_id@
                &&& forall|i: int| 0 <= i < final(self).vector_rows().len() ==> (#[trigger] final(self).vector_rows()[i]).2 != kb_id@
                &&& forall|b: KnowledgeBase| old(self).bases().contains(b) && b.id@ != kb_id@ ==> #[trigger] final(self).bases().contains(b)
                &&& forall|d: Document| old(self).documents().contains(d) && d.kb_id@ != kb_id@ ==> #[trigger] final(self).documents().contains(d)
                &&& forall|c: Chunk| old(self).chunks().contains(c) && c.kb_id@ != kb_id@ ==> #[trigger] final(self).chunks().contains(c)
                &&& forall|v: (Seq<char>, Seq<char>, Seq<char>, Seq<u8>)| old(self).vector_rows().contains(v) && v.2 != kb_id@
                    ==> #[trigger] final(self).vector_rows().contains(v)
            },
    {
        let p = match self.base_position(kb_id) {
            Some(p) => p,
            None => return Err(KnowledgeBaseError::NotFound(kb_id.to_owned())),
        };
        let ghost s0 = *self;
        self.vectors.drop_kb_table(kb_id);
        self.remove_chunks_of_base(kb_id);
        self.remove_documents_of_base(kb_id);
        self.bases.remove(p);
        proof {
            lemma_documents_outside(s0.documents(), kb_id@);
            lemma_chunks_outside(s0.chunks(), kb_id@);
            crate::vector_store::lemma_rows_without(s0.vector_rows(), kb_id@, None);
            KnowledgeStore::lemma_deleted_base(&s0, self, p as int);
            assert forall|b: KnowledgeBase| s0.bases().contains(b) && b.id@ != kb_id@ implies #[trigger] self.bases().contains(b) by {
                let i = choose|i: int| 0 <= i < s0.bases().len() && s0.bases()[i] == b;
                assert(i != p);
                let j = if i < p { i } else { i - 1 };
                assert(self.bases()[j] == b);
            }
        }
        Ok(())
    }

    proof fn lemma_deleted_base(s0: &Self, s1: &Self, p: int)
        requires
            s0.wf(),
            0 <= p < s0.bases().len(),
            s1.bases() == s0.bases().remove(p),
            s1.documents() == documents_outside(s0.documents(), s0.bases()[p].id@),
            s1.chunks() == chunks_outside(s0.chunks(), s0.bases()[p].id@),
            s1.vector_rows() == crate::vector_store::rows_without(s0.vector_rows(), s0.bases()[p].id@, None),
        ensures
            s1.wf(),
            forall|i: int| 0 <= i < s1.chunks().len() ==> (#[trigger] s1.chunks()[i]).kb_id@ != s0.bases()[p].id@,
            forall|i: int| 0 <= i < s1.vector_rows().len() ==> (#[trigger] s1.vector_rows()[i]).2 != s0.bases()[p].id@,
    {
        let kb = s0.bases()[p].id@;
        lemma_chunks_outside(s0.chunks(), kb);
        lemma_documents_outside(s0.documents(), kb);
        lemma_documents_outside_unique(s0.documents(), kb);
        crate::vector_store::lemma_rows_without(s0.vector_rows(), kb, None);
        // a kept base keeps its place, shifted past the removed one
        assert forall|id: Seq<char>| id != kb && #[trigger] base_exists(s0.bases(), id) implies base_exists(s1.bases(), id) by {
            let b = choose|b: int| 0 <= b < s0.bases().len() && #[trigger] s0.bases()[b].id@ == id;
            assert(b != p);
            let b1 = if b < p { b } else { b - 1 };
            assert(s1.bases()[b1] == s0.bases()[b]);
        }
        assert forall|i: int| 0 <= i < s1.chunks().len() implies (#[trigger] s1.chunks()[i]).kb_id@ != kb by {
            assert(s1.chunks().contains(s1.chunks()[i]));
        }
        assert forall|i: int| 0 <= i < s1.vector_rows().len() implies (#[trigger] s1.vector_rows()[i]).2 != kb by {
            assert(s1.vector_rows().contains(s1.vector_rows()[i]));
        }
        assert forall|i: int| 0 <= i < s1.vector_rows().len() implies #[trigger] fits_base(s1.bases(), s1.vector_rows()[i]) by {
            let r = s1.vector_rows()[i];
            assert(s1.vector_rows().contains(r));
            let k = choose|k: int| 0 <= k < s0.vector_rows().len() && s0.vector_rows()[k] == r;
            assert(fits_base(s0.bases(), s0.vector_rows()[k]));
            let b = choose|b: int| 0 <= b < s0.bases().len() && #[trigger] s0.bases()[b].id@ == r.2 && r.3.len() == 4 * s0.bases()[b].embedding_dim;
            assert(b != p);
            let b1 = if b < p { b } else { b - 1 };
            assert(s1.bases()[b1] == s0.bases()[b]);
        }
        assert forall|i: int| 0 <= i < s1.vector_rows().len() implies #[trigger] vector_owned(s1.chunks(), s1.vector_rows()[i]) by {
            let r = s1.vector_rows()[i];
            assert(s1.vector_rows().contains(r));
            let k = choose|k: int| 0 <= k < s0.vector_rows().len() && s0.vector_rows()[k] == r;
            assert(vector_owned(s0.chunks(), s0.vector_rows()[k]));
            let c = choose|c: int| 0 <= c < s0.chunks().len() && #[trigger] s0.chunks()[c].id@ == r.0
                && s0.chunks()[c].document_id@ == r.1 && s0.chunks()[c].kb_id@ == r.2;
            let ch = s0.chunks()[c];
            assert(s0.chunks().contains(ch));
            assert(s1.chunks().contains(ch));
            let j = choose|j: int| 0 <= j < s1.chunks().len() && s1.chunks()[j] == ch;
            assert(s1.chunks()[j].id@ == r.0);
        }
        assert forall|i: int| 0 <= i < s1.chunks().len() implies #[trigger] chunk_owned(s1.documents(), s1.chunks()[i]) by {
            let ch = s1.chunks()[i];
            assert(s1.chunks().contains(ch));
            let c = choose|c: int| 0 <= c < s0.chunks().len() && s0.chunks()[c] == ch;
            assert(chunk_owned(s0.documents(), s0.chunks()[c]));
            let q = choose|q: int| 0 <= q < s0.documents().len() && #[trigger] s0.documents()[q].id@ == ch.document_id@
                && s0.documents()[q].kb_id@ == ch.kb_id@ && s0.documents()[q].status == DocumentStatus::Completed;
            let doc = s0.documents()[q];
            assert(s0.documents().contains(doc));
            assert(s1.documents().contains(doc));
            let q1 = choose|q1: int| 0 <= q1 < s1.documents().len() && s1.documents()[q1] == doc;
            assert(s1.documents()[q1].id@ == ch.document_id@);
        }
        assert forall|i: int| 0 <= i < s1.documents().len() && (#[trigger] s1.documents()[i]).status == DocumentStatus::Completed
            implies indices_of(s1.chunks(), s1.documents()[i].id@) == range(s1.documents()[i].chunk_count as int) by {
            let doc = s1.documents()[i];
            assert(s1.documents().contains(doc));
            let q = choose|q: int| 0 <= q < s0.documents().len() && s0.documents()[q] == doc;
            assert(indices_of(chunks_outside(s0.chunks(), kb), doc.id@) == indices_of(s0.chunks(), doc.id@) || exists|c: int| 0 <= c < s0.chunks().len()
                && s0.chunks()[c].document_id@ == doc.id@ && s0.chunks()[c].kb_id@ == kb);
            if exists|c: int| 0 <= c < s0.chunks().len() && s0.chunks()[c].document_id@ == doc.id@ && s0.chunks()[c].kb_id@ == kb {
                let c = choose|c: int| 0 <= c < s0.chunks().len() && s0.chunks()[c].document_id@ == doc.id@ && s0.chunks()[c].kb_id@ == kb;
                assert(chunk_owned(s0.documents(), s0.chunks()[c]));
                let q2 = choose|q2: int| 0 <= q2 < s0.documents().len() && #[trigger] s0.documents()[q2].id@ == s0.chunks()[c].document_id@
                    && s0.documents()[q2].kb_id@ == s0.chunks()[c].kb_id@ && s0.documents()[q2].status == DocumentStatus::Completed;
                if q2 != q {
                    assert(s0.documents()[q2].id@ != s0.documents()[q].id@);
                }
            }
        }
        assert forall|i: int| 0 <= i < s1.documents().len() implies #[trigger] base_exists(s1.bases(), s1.documents()[i].kb_id@) by {
            let doc = s1.documents()[i];
            assert(s1.documents().contains(doc));
            let q = choose|q: int| 0 <= q < s0.documents().len() && s0.documents()[q] == doc;
            assert(base_exists(s0.bases(), s0.documents()[q].kb_id@));
        }
        assert forall|i: int, j: int| 0 <= i < s1.bases().len() && 0 <= j < s1.bases().len() && i != j
            implies (#[trigger] s1.bases()[i]).id@ != (#[trigger] s1.bases()[j]).id@ by {
            let i0 = if i < p { i } else { i + 1 };
            let j0 = if j < p { j } else { j + 1 };
            assert(s1.bases()[i] == s0.bases()[i0]);
            assert(s1.bases()[j] == s0.bases()[j0]);
        }
        assert forall|b: int| 0 <= b < s1.bases().len() implies (#[trigger] s1.bases()[b]).embedding_dim > 0 by {
            let b0 = if b < p { b } else { b + 1 };
            assert(s1.bases()[b] == s0.bases()[b0]);
        }
    }
}

/// A base with its update time set to `now`.
pub open spec fn retimed(b: KnowledgeBase, now: i64) -> KnowledgeBase {
    KnowledgeBase { updated_at: now, ..b }
}

/// The bases with the update time of base `kb` set to `now`.
pub open spec fn bases_touched(bases: Seq<KnowledgeBase>, kb: Seq<char>, now: i64) -> Seq<KnowledgeBase> {
    bases.map_values(|b: KnowledgeBase| if b.id@ == kb { retimed(b, now) } else { b })
}

impl KnowledgeStore {
    /// Sets the update time of base `kb_id` to `now`.
    pub fn touch_base(&mut self, kb_id: &str, now: i64)
        requires
            old(self).wf(),
        ensures
            final(self).wf(),
            final(self).bases() == bases_touched(old(self).bases(), kb_id@, now),
            final(self).documents() == old(self).documents(),
            final(self).chunks() == old(self).chunks(),
            final(self).vector_rows() == old(self).vector_rows(),
    {
        let ghost before = *self;
        match self.base_position(kb_id) {
            Some(p) => {
                self.bases[p].updated_at = now;
                proof {
                    assert forall|i: int| 0 <= i < before.bases().len() implies self.bases()[i] == (if before.bases()[i].id@ == kb_id@ {
                        retimed(before.bases()[i], now)
                    } else {
                        before.bases()[i]
                    }) by {
                        if i != p {
                            assert(before.bases()[i].id@ != before.bases()[p as int].id@);
                        }
                    }
                    assert(self.bases() =~= bases_touched(before.bases(), kb_id@, now));
                    KnowledgeStore::lemma_bases_retimed(&before, self);
                }
            },
            None => {
                proof {
                    assert(self.bases() =~= bases_touched(before.bases(), kb_id@, now));
                }
            },
        }
    }

    proof fn lemma_bases_retimed(s1: &Self, s2: &Self)
        requires
            s1.wf(),
            s2.bases().len() == s1.bases().len(),
            forall|i: int| 0 <= i < s1.bases().len() ==> (#[trigger] s2.bases()[i]).id == s1.bases()[i].id
                && s2.bases()[i].embedding_dim == s1.bases()[i].embedding_dim,
            s2.documents() == s1.documents(),
            s2.chunks() == s1.chunks(),
            s2.vector_rows() == s1.vector_rows(),
        ensures
            s2.wf(),
    {
        assert forall|i: int| 0 <= i < s2.vector_rows().len() implies #[trigger] fits_base(s2.bases(), s2.vector_rows()[i]) by {
            assert(fits_base(s1.bases(), s1.vector_rows()[i]));
            let b = choose|b: int| 0 <= b < s1.bases().len() && #[trigger] s1.bases()[b].id@ == s1.vector_rows()[i].2
                && s1.vector_rows()[i].3.len() == 4 * s1.bases()[b].embedding_dim;
            assert(s2.bases()[b].id@ == s1.bases()[b].id@);
        }
        assert forall|i: int| 0 <= i < s2.documents().len() implies #[trigger] base_exists(s2.bases(), s2.documents()[i].kb_id@) by {
            assert(base_exists(s1.bases(), s1.documents()[i].kb_id@));
            let b = choose|b: int| 0 <= b < s1.bases().len() && #[trigger] s1.bases()[b].id@ == s1.documents()[i].kb_id@;
            assert(s2.bases()[b].id@ == s1.bases()[b].id@);
        }
        assert forall|i: int, j: int| 0 <= i < s2.bases().len() && 0 <= j < s2.bases().len() && i != j
            implies (#[trigger] s2.bases()[i]).id@ != (#[trigger] s2.bases()[j]).id@ by {
            assert(s2.bases()[i].id == s1.bases()[i].id);
            assert(s2.bases()[j].id == s1.bases()[j].id);
        }
        assert forall|b: int| 0 <= b < s2.bases().len() implies (#[trigger] s2.bases()[b]).embedding_dim > 0 by {
            assert(s2.bases()[b].embedding_dim == s1.bases()[b].embedding_dim);
        }
    }
}

} // verus!
