//! Dense vectors of a knowledge base, packed as little-endian 32-bit floats.
use vstd::prelude::*;

use crate::chars::same_chars;
use crate::types::KnowledgeBaseError;

verus! {

/// One stored vector, keyed by its chunk.
#[derive(Debug, Clone)]
pub struct VectorRow {
    pub chunk_id: String,
    pub document_id: String,
    pub kb_id: String,
    /// Four bytes for each component.
    pub blob: Vec<u8>,
}

/// The view of a row: chunk, document and base ids, and the blob.
pub open spec fn row_view(r: VectorRow) -> (Seq<char>, Seq<char>, Seq<char>, Seq<u8>) {
    (r.chunk_id@, r.document_id@, r.kb_id@, r.blob@)
}

/// Whether a row belongs to base `kb` and, where `doc` names one, to that document.
pub open spec fn selected(r: (Seq<char>, Seq<char>, Seq<char>, Seq<u8>), kb: Seq<char>, doc: Option<Seq<char>>) -> bool {
    r.2 == kb && match doc {
        Some(d) => r.1 == d,
        None => true,
    }
}

/// The rows `rs` without the selected ones, in order.
pub open spec fn rows_without(
    rs: Seq<(Seq<char>, Seq<char>, Seq<char>, Seq<u8>)>,
    kb: Seq<char>,
    doc: Option<Seq<char>>,
) -> Seq<(Seq<char>, Seq<char>, Seq<char>, Seq<u8>)>
    decreases rs.len(),
{
    if rs.len() == 0 {
        rs
    } else {
        let p = rows_without(rs.drop_last(), kb, doc);
        if selected(rs.last(), kb, doc) {
            p
        } else {
            p.push(rs.last())
        }
    }
}

pub proof fn lemma_rows_without(
    rs: Seq<(Seq<char>, Seq<char>, Seq<char>, Seq<u8>)>,
    kb: Seq<char>,
    doc: Option<Seq<char>>,
)
    ensures
        forall|x| #[trigger] rows_without(rs, kb, doc).contains(x) <==> rs.contains(x) && !selected(x, kb, doc),
    decreases rs.len(),
{
    if rs.len() > 0 {
        let p = rows_without(rs.drop_last(), kb, doc);
        lemma_rows_without(rs.drop_last(), kb, doc);
        assert forall|x| #[trigger] rows_without(rs, kb, doc).contains(x) <==> rs.contains(x) && !selected(x, kb, doc) by {
            if rs.contains(x) && !selected(x, kb, doc) {
                let i = choose|i: int| 0 <= i < rs.len() && rs[i] == x;
                if i < rs.len() - 1 {
                    assert(rs.drop_last()[i] == x);
                    assert(rs.drop_last().contains(x));
                    assert(p.contains(x));
                    let j = choose|j: int| 0 <= j < p.len() && p[j] == x;
                    if !selected(rs.last(), kb, doc) {
                        assert(p.push(rs.last())[j] == x);
                    }
                } else {
                    assert(p.push(rs.last())[p.len() as int] == x);
                }
            }
            if rows_without(rs, kb, doc).contains(x) {
                let r = rows_without(rs, kb, doc);
                let j = choose|j: int| 0 <= j < r.len() && r[j] == x;
                if j < p.len() {
                    assert(r[j] == p[j]);
                    assert(p.contains(x));
                    let i = choose|i: int| 0 <= i < rs.len() - 1 && rs.drop_last()[i] == x;
                    assert(rs[i] == x);
                } else {
                    assert(x == rs.last());
                    assert(rs[rs.len() - 1] == x);
                }
            }
        }
    }
}

pub open spec fn doc_view(d: Option<&str>) -> Option<Seq<char>> {
    match d {
        Some(s) => Some(s@),
        None => None,
    }
}

/// The rows of base `kb`, in order.
pub open spec fn rows_of(
    rs: Seq<(Seq<char>, Seq<char>, Seq<char>, Seq<u8>)>,
    kb: Seq<char>,
) -> Seq<(Seq<char>, Seq<char>, Seq<char>, Seq<u8>)>
    decreases rs.len(),
{
    if rs.len() == 0 {
        rs
    } else if rs.last().2 == kb {
        rows_of(rs.drop_last(), kb).push(rs.last())
    } else {
        rows_of(rs.drop_last(), kb)
    }
}

/// A vector to insert: chunk id, document id, packed components.
pub open spec fn new_row_view(v: (String, String, Vec<u8>), kb: Seq<char>) -> (
    Seq<char>,
    Seq<char>,
    Seq<char>,
    Seq<u8>,
) {
    (v.0@, v.1@, kb, v.2@)
}

/// Whether every blob holds exactly `dim` packed 32-bit components.
pub open spec fn all_of_dim(vs: Seq<(String, String, Vec<u8>)>, dim: nat) -> bool {
    forall|i: int| 0 <= i < vs.len() ==> (#[trigger] vs[i]).2@.len() == 4 * dim
}

pub const DIMENSION_MISMATCH: &'static str = "vector dimension does not match the knowledge base";

/// The vectors of all knowledge bases, in insertion order.
pub struct VectorStore {
    rows: Vec<VectorRow>,
}

impl VectorStore {
    /// The stored rows.
    pub closed spec fn rows(&self) -> Seq<(Seq<char>, Seq<char>, Seq<char>, Seq<u8>)> {
        self.rows@.map_values(|r: VectorRow| row_view(r))
    }

    /// An empty store.
    pub fn new() -> (r: VectorStore)
        ensures
            r.rows().len() == 0,
    {
        VectorStore { rows: Vec::new() }
    }

    /// The number of stored vectors.
    pub fn len(&self) -> (r: usize)
        ensures
            r == self.rows().len(),
    {
        self.rows.len()
    }

    /// Adds vectors to base `kb_id`, whose dimension is `dim`: all of them when each
    /// blob holds `4 * dim` bytes, none otherwise.
    pub fn insert_vectors(&mut self, kb_id: &str, dim: usize, vectors: Vec<(String, String, Vec<u8>)>) -> (r: Result<(), KnowledgeBaseError>)
        ensures
            r is Ok <==> all_of_dim(vectors@, dim as nat),
            r is Ok ==> final(self).rows() == old(self).rows() + vectors@.map_values(|v: (String, String, Vec<u8>)| new_row_view(v, kb_id@)),
            r is Err ==> final(self).rows() == old(self).rows(),
            r matches Err(e) ==> (e matches KnowledgeBaseError::DatabaseError(m) && m@ == DIMENSION_MISMATCH@),
    {
        let mut i: usize = 0;
        while i < vectors.len()
            invariant
                i <= vectors@.len(),
                forall|k: int| 0 <= k < i ==> (#[trigger] vectors@[k]).2@.len() == 4 * dim,
            decreases vectors@.len() - i,
        {
            let n = vectors[i].2.len();
            if n % 4 != 0 || n / 4 != dim {
                return Err(KnowledgeBaseError::DatabaseError(DIMENSION_MISMATCH.to_owned()));
            }
            i += 1;
        }
        let ghost start = self.rows();
        let mut j: usize = 0;
        for v in it: vectors
            invariant
                it.seq() == vectors@,
                self.rows() == start + it.seq().take(it.index() as int).map_values(|v: (String, String, Vec<u8>)| new_row_view(v, kb_id@)),
        {
            let row = VectorRow { chunk_id: v.0, document_id: v.1, kb_id: kb_id.to_owned(), blob: v.2 };
            proof {
                assert(self.rows@.push(row).map_values(|r: VectorRow| row_view(r)) =~= self.rows().push(row_view(row)));
                assert(it.seq().take(it.index() as int + 1).map_values(|v: (String, String, Vec<u8>)| new_row_view(v, kb_id@)) =~= it.seq().take(it.index() as int).map_values(|v: (String, String, Vec<u8>)| new_row_view(v, kb_id@)).push(new_row_view(v, kb_id@)));
            }
            self.rows.push(row);
        }
        Ok(())
    }

    /// The vectors of base `kb_id` in insertion order, for a full scan: chunk id,
    /// document id and blob.
    pub fn scan(&self, kb_id: &str) -> (r: Vec<(String, String, Vec<u8>)>)
        ensures
            r@.map_values(|v: (String, String, Vec<u8>)| new_row_view(v, kb_id@)) == rows_of(self.rows(), kb_id@),
    {
        let mut out: Vec<(String, String, Vec<u8>)> = Vec::new();
        let mut i: usize = 0;
        while i < self.rows.len()
            invariant
                i <= self.rows@.len(),
                out@.map_values(|v: (String, String, Vec<u8>)| new_row_view(v, kb_id@)) == rows_of(self.rows().take(i as int), kb_id@),
            decreases self.rows@.len() - i,
        {
            proof {
                assert(self.rows().take(i as int + 1).drop_last() =~= self.rows().take(i as int));
                assert(self.rows().take(i as int + 1).last() == row_view(self.rows@[i as int]));
            }
            let row = &self.rows[i];
            if same_chars(row.kb_id.as_str(), kb_id) {
                let v = (row.chunk_id.clone(), row.document_id.clone(), row.blob.clone());
                proof {
                    assert(v.2@ =~= row.blob@);
                    assert(out@.push(v).map_values(|v: (String, String, Vec<u8>)| new_row_view(v, kb_id@)) =~= out@.map_values(|v: (String, String, Vec<u8>)| new_row_view(v, kb_id@)).push(new_row_view(v, kb_id@)));
                }
                out.push(v);
            }
            i += 1;
        }
        proof { assert(self.rows().take(i as int) =~= self.rows()); }
        out
    }

    /// Removes the rows of base `kb_id`, only those of one document where one is named.
    fn retain_rows(&mut self, kb_id: &str, document_id: Option<&str>) -> (removed: usize)
        ensures
            final(self).rows() == rows_without(old(self).rows(), kb_id@, doc_view(document_id)),
    {
        let ghost doc = doc_view(document_id);
        let ghost old_rows = self.rows();
        let mut kept: Vec<VectorRow> = Vec::new();
        let mut removed: usize = 0;
        let mut i: usize = 0;
        while i < self.rows.len()
            invariant
                i <= self.rows@.len(),
                removed <= i,
                doc == doc_view(document_id),
                old_rows == self.rows@.map_values(|r: VectorRow| row_view(r)),
                kept@.map_values(|r: VectorRow| row_view(r)) == rows_without(old_rows.take(i as int), kb_id@, doc),
            decreases self.rows@.len() - i,
        {
            proof {
                assert(old_rows.take(i as int + 1).drop_last() =~= old_rows.take(i as int));
                assert(old_rows.take(i as int + 1).last() == row_view(self.rows@[i as int]));
            }
            let row = &self.rows[i];
            let in_kb = same_chars(row.kb_id.as_str(), kb_id);
            let in_doc = match document_id {
                Some(d) => same_chars(row.document_id.as_str(), d),
                None => true,
            };
            let drop_it = in_kb && in_doc;
            proof {
                assert(drop_it == selected(row_view(*row), kb_id@, doc));
            }
            if drop_it {
                removed += 1;
            } else {
                let c = VectorRow {
                    chunk_id: row.chunk_id.clone(),
                    document_id: row.document_id.clone(),
                    kb_id: row.kb_id.clone(),
                    blob: row.blob.clone(),
                };
                proof {
                    assert(c.blob@ =~= row.blob@);
                    assert(kept@.push(c).map_values(|r: VectorRow| row_view(r)) =~= kept@.map_values(|r: VectorRow| row_view(r)).push(row_view(c)));
                }
                kept.push(c);
            }
            i += 1;
        }
        proof { assert(old_rows.take(i as int) =~= old_rows); }
        self.rows = kept;
        removed
    }

    /// Removes the vectors of one document of a base.
    pub fn delete_document_vectors(&mut self, kb_id: &str, document_id: &str)
        ensures
            final(self).rows() == rows_without(old(self).rows(), kb_id@, Some(document_id@)),
    {
        self.retain_rows(kb_id, Some(document_id));
    }

    /// Removes all vectors of a base.
    pub fn drop_kb_table(&mut self, kb_id: &str)
        ensures
            final(self).rows() == rows_without(old(self).rows(), kb_id@, None),
    {
        self.retain_rows(kb_id, None);
    }
}

} // verus!
