use vstd::prelude::*;

use crate::error::{CorruptKind, IndexError};
use crate::ranking::{is_top_k, top_k};

verus! {

/// What an index holds: the dimension fixed at construction and the stored
/// vectors in insertion order. A vector's position is its ID. Each entry of a
/// vector is the bit pattern of a 32-bit float.
pub struct IndexModel {
    pub dimension: nat,
    pub vectors: Seq<Seq<u32>>,
}

impl IndexModel {
    /// A positive dimension, every vector of that length, and IDs that fit an `i64`.
    pub open spec fn wf(self) -> bool {
        &&& self.dimension > 0
        &&& self.dimension <= u32::MAX
        &&& self.vectors.len() <= i64::MAX
        &&& forall|i: int| 0 <= i < self.vectors.len() ==> #[trigger] self.vectors[i].len() == self.dimension
    }

    /// Every vector of `batch` has this index's dimension.
    pub open spec fn fits(self, batch: Seq<Seq<u32>>) -> bool {
        forall|i: int| 0 <= i < batch.len() ==> #[trigger] batch[i].len() == self.dimension
    }

    /// `i` is the position of the first vector of `batch` whose length is wrong.
    pub open spec fn first_misfit(self, batch: Seq<Seq<u32>>, i: int) -> bool {
        &&& 0 <= i < batch.len()
        &&& batch[i].len() != self.dimension
        &&& forall|j: int| 0 <= j < i ==> #[trigger] batch[j].len() == self.dimension
    }

    /// The index after `batch` is appended.
    pub open spec fn with_added(self, batch: Seq<Seq<u32>>) -> IndexModel {
        IndexModel { dimension: self.dimension, vectors: self.vectors + batch }
    }

    /// The index with every vector discarded and the dimension kept.
    pub open spec fn cleared(self) -> IndexModel {
        IndexModel { dimension: self.dimension, vectors: Seq::empty() }
    }
}

/// The IDs `start, start + 1, ...`, `len` of them.
pub open spec fn id_range(start: nat, len: nat) -> Seq<i64> {
    Seq::new(len, |i: int| (start + i) as i64)
}

/// What a sequence of vectors holds.
pub open spec fn rows(vs: Seq<Vec<u32>>) -> Seq<Seq<u32>> {
    vs.map_values(|v: Vec<u32>| v@)
}

/// The IDs of a list of search hits, in order.
pub open spec fn hit_ids(hits: Seq<(i64, u32)>) -> Seq<usize> {
    hits.map_values(|h: (i64, u32)| h.0 as usize)
}

/// `hits` is the answer to a query whose score against the vector of each ID
/// is `scores[id]`: the `k` best IDs (all when fewer are stored), best score
/// first, equal scores by ascending ID, each with its score.
pub open spec fn is_search_result(scores: Seq<u32>, k: nat, hits: Seq<(i64, u32)>) -> bool {
    &&& is_top_k(scores, k, hit_ids(hits))
    &&& forall|i: int|
        0 <= i < hits.len() ==> 0 <= #[trigger] hits[i].0 < scores.len() && hits[i].1
            == scores[hits[i].0 as int]
}

/// An exact inner-product index over vectors of one fixed dimension.
pub struct VectorIndex {
    dimension: u32,
    vectors: Vec<Vec<u32>>,
}

impl View for VectorIndex {
    type V = IndexModel;

    closed spec fn view(&self) -> IndexModel {
        IndexModel { dimension: self.dimension as nat, vectors: rows(self.vectors@) }
    }
}

impl VectorIndex {
    /// Every index that this library hands out is well formed.
    pub open spec fn wf(&self) -> bool {
        self@.wf()
    }

    /// An empty index for vectors of `dimension` entries; a dimension of zero
    /// is refused.
    pub fn new(dimension: u32) -> (r: Result<VectorIndex, IndexError>)
        ensures
            match r {
                Ok(index) => dimension > 0 && index.wf() && index@.dimension == dimension
                    && index@.vectors.len() == 0,
                Err(e) => dimension == 0 && e == IndexError::Construction { dimension },
            },
    {
        if dimension == 0 {
            return Err(IndexError::Construction { dimension });
        }
        let index = VectorIndex { dimension, vectors: Vec::new() };
        assert(index@.vectors =~= Seq::<Seq<u32>>::empty());
        Ok(index)
    }

    /// Builds an index from its model's parts, as a decoder does.
    pub(crate) fn from_parts(dimension: u32, vectors: Vec<Vec<u32>>) -> (r: VectorIndex)
        requires
            (IndexModel { dimension: dimension as nat, vectors: rows(vectors@) }).wf(),
        ensures
            r.wf(),
            r@ == (IndexModel { dimension: dimension as nat, vectors: rows(vectors@) }),
    {
        VectorIndex { dimension, vectors }
    }

    /// The stored vectors, in ID order.
    pub(crate) fn stored(&self) -> (r: &Vec<Vec<u32>>)
        ensures
            rows(r@) == self@.vectors,
    {
        &self.vectors
    }

    /// The number of stored vectors.
    pub fn ntotal(&self) -> (r: i64)
        requires
            self.wf(),
        ensures
            r == self@.vectors.len(),
    {
        self.vectors.len() as i64
    }

    /// The dimension fixed at construction.
    pub fn dimension(&self) -> (r: u32)
        ensures
            r == self@.dimension,
    {
        self.dimension
    }

    /// The vector stored under `id`, if there is one.
    pub fn vector(&self, id: usize) -> (r: Option<&Vec<u32>>)
        ensures
            match r {
                Some(v) => id < self@.vectors.len() && v@ == self@.vectors[id as int],
                None => id >= self@.vectors.len(),
            },
    {
        if id < self.vectors.len() {
            Some(&self.vectors[id])
        } else {
            None
        }
    }

    /// Appends `vectors` in order and returns their IDs, which continue from
    /// the current count. If any vector has the wrong length nothing is added,
    /// and the error names the first such vector.
    pub fn add_vectors(&mut self, vectors: Vec<Vec<u32>>) -> (r: Result<Vec<i64>, IndexError>)
        requires
            old(self).wf(),
            old(self)@.vectors.len() + vectors@.len() <= i64::MAX,
        ensures
            final(self).wf(),
            match r {
                Ok(ids) => old(self)@.fits(rows(vectors@)) && final(self)@ == old(self)@.with_added(
                    rows(vectors@),
                ) && ids@ == id_range(old(self)@.vectors.len(), vectors@.len()),
                Err(IndexError::DimensionMismatch { index: Some(i), got, expected }) => {
                    &&& old(self)@.first_misfit(rows(vectors@), i as int)
                    &&& got == vectors@[i as int]@.len()
                    &&& expected == old(self)@.dimension
                    &&& final(self)@ == old(self)@
                },
                Err(_) => false,
            },
    {
        let expected = self.dimension as usize;
        let n = vectors.len();
        let mut i: usize = 0;
        while i < n
            invariant
                i <= n,
                n == vectors@.len(),
                expected == self@.dimension,
                self@ == old(self)@,
                self.wf(),
                forall|j: int| 0 <= j < i ==> #[trigger] vectors@[j]@.len() == expected,
            decreases n - i,
        {
            let got = vectors[i].len();
            if got != expected {
                return Err(IndexError::DimensionMismatch { index: Some(i), got, expected });
            }
            i = i + 1;
        }
        let start = self.vectors.len();
        let ghost before = self.vectors@;
        let mut batch = vectors;
        self.vectors.append(&mut batch);
        proof {
            assert(rows(self.vectors@) =~= rows(before) + rows(vectors@));
        }
        let end = self.vectors.len();
        let mut ids: Vec<i64> = Vec::new();
        let mut j: usize = 0;
        while j < n
            invariant
                j <= n,
                end == start + n,
                start + n <= i64::MAX,
                ids@ =~= id_range(start as nat, j as nat),
            decreases n - j,
        {
            ids.push((start + j) as i64);
            j = j + 1;
        }
        Ok(ids)
    }

    /// Discards every stored vector; the dimension stays and IDs start from
    /// zero again.
    pub fn reset(&mut self)
        requires
            old(self).wf(),
        ensures
            final(self).wf(),
            final(self)@ == old(self)@.cleared(),
    {
        self.vectors = Vec::new();
        assert(self@.vectors =~= Seq::<Seq<u32>>::empty());
    }

    /// Checks that `query` has this index's dimension.
    pub fn check_query(&self, query: &Vec<u32>) -> (r: Result<(), IndexError>)
        ensures
            match r {
                Ok(()) => query@.len() == self@.dimension,
                Err(e) => query@.len() != self@.dimension && e == IndexError::DimensionMismatch {
                    index: None,
                    got: query@.len() as usize,
                    expected: self@.dimension as usize,
                },
            },
    {
        if query.len() != self.dimension as usize {
            return Err(
                IndexError::DimensionMismatch {
                    index: None,
                    got: query.len(),
                    expected: self.dimension as usize,
                },
            );
        }
        Ok(())
    }

    /// The `k` stored vectors that score highest against `query`, as
    /// `(id, score)` pairs, best first; equal scores come in ascending ID
    /// order. `scores[id]` is the inner product of `query` with the vector
    /// stored under `id`, as a float bit pattern.
    pub fn search(&self, query: &Vec<u32>, scores: &Vec<u32>, k: usize) -> (r: Result<
        Vec<(i64, u32)>,
        IndexError,
    >)
        requires
            self.wf(),
            scores@.len() == self@.vectors.len(),
        ensures
            match r {
                Ok(hits) => query@.len() == self@.dimension && is_search_result(
                    scores@,
                    k as nat,
                    hits@,
                ),
                Err(e) => query@.len() != self@.dimension && e == IndexError::DimensionMismatch {
                    index: None,
                    got: query@.len() as usize,
                    expected: self@.dimension as usize,
                },
            },
    {
        match self.check_query(query) {
            Ok(()) => {},
            Err(e) => {
                return Err(e);
            },
        }
        let order = top_k(scores, k);
        let mut hits: Vec<(i64, u32)> = Vec::new();
        let mut p: usize = 0;
        while p < order.len()
            invariant
                p <= order@.len(),
                scores@.len() == self@.vectors.len(),
                self.wf(),
                is_top_k(scores@, k as nat, order@),
                hits@.len() == p,
                forall|i: int|
                    0 <= i < p ==> #[trigger] hits@[i] == (order@[i] as i64, scores@[order@[i] as int]),
            decreases order@.len() - p,
        {
            let id = order[p];
            hits.push((id as i64, scores[id]));
            p = p + 1;
        }
        assert(hit_ids(hits@) =~= order@);
        Ok(hits)
    }
}


/// The index after each vector of `vs` is added by a call of its own, in order.
pub open spec fn add_each(m: IndexModel, vs: Seq<Seq<u32>>) -> IndexModel
    decreases vs.len(),
{
    if vs.len() == 0 {
        m
    } else {
        add_each(m, vs.drop_last()).with_added(seq![vs.last()])
    }
}

/// After a reset, the next batch is stored alone and its IDs start from zero.
pub proof fn lemma_reset_then_add(m: IndexModel, batch: Seq<Seq<u32>>)
    requires
        m.wf(),
        m.fits(batch),
    ensures
        m.cleared().with_added(batch).vectors == batch,
        m.cleared().with_added(batch).dimension == m.dimension,
        id_range(m.cleared().vectors.len(), batch.len()) == Seq::new(
            batch.len(),
            |i: int| i as i64,
        ),
{
    assert(m.cleared().with_added(batch).vectors =~= batch);
    assert(id_range(m.cleared().vectors.len(), batch.len()) =~= Seq::new(
        batch.len(),
        |i: int| i as i64,
    ));
}

/// Adding vectors one call at a time, in any order that the calls are
/// serialized in, gives the same index as adding them in one batch, and the
/// call that comes `i`-th is handed the ID `n + i`, where `n` is the count
/// before the first call: no ID is lost or given twice.
pub proof fn lemma_serial_adds(m: IndexModel, vs: Seq<Seq<u32>>)
    requires
        m.wf(),
        m.fits(vs),
        m.vectors.len() + vs.len() <= i64::MAX,
    ensures
        add_each(m, vs) == m.with_added(vs),
        add_each(m, vs).vectors.len() == m.vectors.len() + vs.len(),
        forall|i: int|
            0 <= i < vs.len() ==> id_range(#[trigger] add_each(m, vs.take(i)).vectors.len(), 1)
                == seq![(m.vectors.len() + i) as i64],
    decreases vs.len(),
{
    if vs.len() > 0 {
        let init = vs.drop_last();
        lemma_serial_adds(m, init);
        assert(init + seq![vs.last()] =~= vs);
        assert(m.vectors + init + seq![vs.last()] =~= m.vectors + vs);
        assert forall|i: int| 0 <= i < vs.len() implies id_range(
            #[trigger] add_each(m, vs.take(i)).vectors.len(),
            1,
        ) == seq![(m.vectors.len() + i) as i64] by {
            if i < init.len() {
                assert(vs.take(i) =~= init.take(i));
            } else {
                assert(vs.take(i) =~= init);
            }
            assert(id_range(add_each(m, vs.take(i)).vectors.len(), 1) =~= seq![
                (m.vectors.len() + i) as i64,
            ]);
        }
    } else {
        assert(m.vectors + vs =~= m.vectors);
    }
}

} // verus!
