//! The batched reducer: folds the sketches a list of sample identifiers
//! names into one sketch, loading at most `batch_size` sketches at a time
//! and folding each chunk with one multi-way operation before accumulating
//! it into the running result.
use vstd::prelude::*;

verus! {

use crate::QueryError;
use crate::sketch::Sketch;
use crate::sketch::seq_views;
use crate::sketch::union_seq;
use crate::sketch::inter_seq;
use crate::store::SketchStore;

/// The element sets the identifiers name, in order.
pub open spec fn sets_at(store: SketchStore, ids: Seq<i32>) -> Seq<Set<Seq<u8>>> {
    ids.map_values(|id: i32| store.set_at(id as int))
}

/// Union of the element sets the identifiers name.
pub open spec fn union_over(store: SketchStore, ids: Seq<i32>) -> Set<Seq<u8>> {
    union_seq(sets_at(store, ids))
}

/// Intersection of the element sets the identifiers name.
pub open spec fn inter_over(store: SketchStore, ids: Seq<i32>) -> Set<Seq<u8>> {
    inter_seq(sets_at(store, ids))
}

/// Every listed identifier has a persisted sketch that decodes.
pub open spec fn all_valid(store: SketchStore, ids: Seq<i32>) -> bool {
    forall|k: int| 0 <= k < ids.len() ==> store.valid_at(#[trigger] ids[k] as int)
}

pub proof fn lemma_union_seq_concat(a: Seq<Set<Seq<u8>>>, b: Seq<Set<Seq<u8>>>)
    ensures
        union_seq(a + b) == union_seq(a) + union_seq(b),
    decreases b.len(),
{
    if b.len() == 0 {
        assert(a + b =~= a);
        assert(union_seq(a) + union_seq(b) =~= union_seq(a));
    } else {
        assert((a + b).drop_last() =~= a + b.drop_last());
        lemma_union_seq_concat(a, b.drop_last());
        assert((a + b).last() == b.last());
        assert(union_seq(a) + (union_seq(b.drop_last()) + b.last()) =~= (union_seq(a) + union_seq(
            b.drop_last(),
        )) + b.last());
    }
}

pub proof fn lemma_inter_seq_concat(a: Seq<Set<Seq<u8>>>, b: Seq<Set<Seq<u8>>>)
    requires
        a.len() > 0,
        b.len() > 0,
    ensures
        inter_seq(a + b) == inter_seq(a).intersect(inter_seq(b)),
    decreases b.len(),
{
    if b.len() == 1 {
        assert((a + b).drop_last() =~= a);
        assert((a + b).last() == b[0]);
        assert(inter_seq(b) == b[0]);
    } else {
        assert((a + b).drop_last() =~= a + b.drop_last());
        lemma_inter_seq_concat(a, b.drop_last());
        assert((a + b).last() == b.last());
        assert(inter_seq(a).intersect(inter_seq(b.drop_last())).intersect(b.last()) =~= inter_seq(
            a,
        ).intersect(inter_seq(b.drop_last()).intersect(b.last())));
    }
}

/// Loads and decodes the sketches of `ids[from .. to]`, in order.
pub(crate) fn load_batch(store: &SketchStore, ids: &Vec<i32>, from: usize, to: usize) -> (r: Result<
    Vec<Sketch>,
    QueryError,
>)
    requires
        from <= to <= ids@.len(),
    ensures
        match r {
            Ok(v) => {
                &&& v@.len() == to - from
                &&& forall|m: int| 0 <= m < v@.len() ==> (#[trigger] v@[m]).wf()
                &&& seq_views(v@) == sets_at(*store, ids@.subrange(from as int, to as int))
                &&& forall|k: int|
                    from <= k < to ==> store.valid_at(#[trigger] ids@[k] as int)
            },
            Err(QueryError::MissingSketch(j)) => ids@.contains(j) && store.missing_at(j as int)
                && !all_valid(*store, ids@),
            Err(QueryError::CorruptSketch(j)) => ids@.contains(j) && store.corrupt_at(j as int)
                && !all_valid(*store, ids@),
            Err(_) => false,
        },
{
    let mut batch: Vec<Sketch> = Vec::new();
    let mut j: usize = from;
    while j < to
        invariant
            from <= j <= to <= ids@.len(),
            batch@.len() == j - from,
            forall|m: int|
                0 <= m < batch@.len() ==> (#[trigger] batch@[m]).wf() && batch@[m]@
                    == store.set_at(ids@[from + m] as int),
            forall|k: int| from <= k < j ==> store.valid_at(#[trigger] ids@[k] as int),
        decreases to - j,
    {
        match store.load(ids[j]) {
            Ok(s) => {
                batch.push(s);
            },
            Err(e) => {
                proof {
                    assert(ids@.contains(ids@[j as int]));
                    assert(!store.valid_at(ids@[j as int] as int));
                }
                return Err(e);
            },
        }
        j += 1;
    }
    proof {
        assert(seq_views(batch@) =~= sets_at(*store, ids@.subrange(from as int, to as int)));
    }
    Ok(batch)
}

/// Folds the sketches the identifiers name into their union, in chunks of
/// at most `batch_size`. An empty list yields the empty sketch: the union
/// has an identity element.
pub fn reduce_union(store: &SketchStore, ids: &Vec<i32>, batch_size: usize) -> (r: Result<
    Sketch,
    QueryError,
>)
    requires
        batch_size >= 1,
    ensures
        r is Ok <==> all_valid(*store, ids@),
        match r {
            Ok(s) => s.wf() && s@ == union_over(*store, ids@),
            Err(QueryError::MissingSketch(j)) => ids@.contains(j) && store.missing_at(j as int),
            Err(QueryError::CorruptSketch(j)) => ids@.contains(j) && store.corrupt_at(j as int),
            Err(_) => false,
        },
{
    let n = ids.len();
    let mut acc = Sketch::new();
    proof {
        assert(sets_at(*store, ids@.take(0)) =~= Seq::<Set<Seq<u8>>>::empty());
    }
    let mut i: usize = 0;
    while i < n
        invariant
            batch_size >= 1,
            n == ids@.len(),
            0 <= i <= n,
            acc.wf(),
            all_valid(*store, ids@.take(i as int)),
            acc@ == union_over(*store, ids@.take(i as int)),
        decreases n - i,
    {
        let end = if n - i < batch_size {
            n
        } else {
            i + batch_size
        };
        let batch = match load_batch(store, ids, i, end) {
            Ok(v) => v,
            Err(e) => {
                return Err(e);
            },
        };
        let merged = Sketch::merge_all(&batch);
        acc.union_assign(&merged);
        proof {
            assert(ids@.take(end as int) =~= ids@.take(i as int) + ids@.subrange(
                i as int,
                end as int,
            ));
            assert(sets_at(*store, ids@.take(end as int)) =~= sets_at(*store, ids@.take(i as int))
                + sets_at(*store, ids@.subrange(i as int, end as int)));
            lemma_union_seq_concat(
                sets_at(*store, ids@.take(i as int)),
                sets_at(*store, ids@.subrange(i as int, end as int)),
            );
            assert(all_valid(*store, ids@.take(end as int)));
        }
        i = end;
    }
    proof {
        assert(ids@.take(n as int) =~= ids@);
    }
    Ok(acc)
}

/// Folds the sketches the identifiers name into their intersection, in
/// chunks of at most `batch_size`. An empty list fails: the intersection
/// has no identity element, and must not silently mean "everything".
pub fn reduce_intersect(store: &SketchStore, ids: &Vec<i32>, batch_size: usize) -> (r: Result<
    Sketch,
    QueryError,
>)
    requires
        batch_size >= 1,
    ensures
        r is Ok <==> (ids@.len() > 0 && all_valid(*store, ids@)),
        match r {
            Ok(s) => s.wf() && s@ == inter_over(*store, ids@),
            Err(QueryError::EmptyInput) => ids@.len() == 0,
            Err(QueryError::MissingSketch(j)) => ids@.contains(j) && store.missing_at(j as int),
            Err(QueryError::CorruptSketch(j)) => ids@.contains(j) && store.corrupt_at(j as int),
            Err(_) => false,
        },
{
    let n = ids.len();
    if n == 0 {
        return Err(QueryError::EmptyInput);
    }
    let first_end = if n < batch_size {
        n
    } else {
        batch_size
    };
    let batch = match load_batch(store, ids, 0, first_end) {
        Ok(v) => v,
        Err(e) => {
            return Err(e);
        },
    };
    proof {
        assert(ids@.subrange(0, first_end as int) =~= ids@.take(first_end as int));
    }
    let mut acc = Sketch::intersect_all(&batch);
    let mut i: usize = first_end;
    while i < n
        invariant
            batch_size >= 1,
            n == ids@.len(),
            1 <= i <= n,
            acc.wf(),
            all_valid(*store, ids@.take(i as int)),
            acc@ == inter_over(*store, ids@.take(i as int)),
        decreases n - i,
    {
        let end = if n - i < batch_size {
            n
        } else {
            i + batch_size
        };
        let chunk = match load_batch(store, ids, i, end) {
            Ok(v) => v,
            Err(e) => {
                return Err(e);
            },
        };
        let local = Sketch::intersect_all(&chunk);
        acc.intersect_assign(&local);
        proof {
            assert(ids@.take(end as int) =~= ids@.take(i as int) + ids@.subrange(
                i as int,
                end as int,
            ));
            assert(sets_at(*store, ids@.take(end as int)) =~= sets_at(*store, ids@.take(i as int))
                + sets_at(*store, ids@.subrange(i as int, end as int)));
            lemma_inter_seq_concat(
                sets_at(*store, ids@.take(i as int)),
                sets_at(*store, ids@.subrange(i as int, end as int)),
            );
            assert(all_valid(*store, ids@.take(end as int)));
        }
        i = end;
    }
    proof {
        assert(ids@.take(n as int) =~= ids@);
    }
    Ok(acc)
}

/// Removes from `g` every element common to all the sketches the
/// identifiers name. On failure `g` is left as it was.
pub fn subtract_common(g: &mut Sketch, store: &SketchStore, ids: &Vec<i32>, batch_size: usize) -> (r:
    Result<(), QueryError>)
    requires
        old(g).wf(),
        batch_size >= 1,
    ensures
        final(g).wf(),
        r is Ok <==> (ids@.len() > 0 && all_valid(*store, ids@)),
        match r {
            Ok(u) => final(g)@ == old(g)@.difference(inter_over(*store, ids@)),
            Err(e) => final(g)@ == old(g)@ && match e {
                QueryError::EmptyInput => ids@.len() == 0,
                QueryError::MissingSketch(j) => ids@.contains(j) && store.missing_at(j as int),
                QueryError::CorruptSketch(j) => ids@.contains(j) && store.corrupt_at(j as int),
                QueryError::InvalidQuerySpec => false,
            },
        },
{
    match reduce_intersect(store, ids, batch_size) {
        Ok(local) => {
            g.difference_assign(&local);
            Ok(())
        },
        Err(e) => Err(e),
    }
}

} // verus!
