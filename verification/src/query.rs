//! The query evaluator: seeds a working sketch from the cheapest available
//! term group, refines it with the remaining any-of groups, then subtracts
//! the exclude-if-common groups and the mandatory exclusions, driving the
//! batched reducer throughout.
use vstd::prelude::*;

verus! {

use crate::QueryError;
use crate::sketch::Sketch;
use crate::sketch::union_seq;
use crate::store::SketchStore;
use crate::reduce::sets_at;
use crate::reduce::union_over;
use crate::reduce::inter_over;
use crate::reduce::all_valid;
use crate::reduce::reduce_union;
use crate::reduce::reduce_intersect;
use crate::reduce::subtract_common;
use crate::reduce::lemma_union_seq_concat;
use crate::groups::groups_view;
use crate::groups::groups_ids;
use crate::groups::combined_ids;
use crate::groups::has_nonempty;
use crate::groups::is_smallest_pick;
use crate::groups::find_smallest_vec_and_index;

/// The identifiers `0 .. n`, in order: the whole universe of samples.
pub open spec fn universe_ids(n: int) -> Seq<i32> {
    Seq::new(n as nat, |i: int| i as i32)
}

/// The index the seed stage picks: the first smallest non-empty any-of
/// group. Meaningful only when some group is non-empty.
pub open spec fn smallest_index(gs: Seq<Seq<i32>>) -> int {
    choose|i: int| is_smallest_pick(gs, i)
}

/// Two indices that both name the first smallest non-empty group are equal.
pub proof fn lemma_smallest_unique(gs: Seq<Seq<i32>>, i1: int, i2: int)
    requires
        is_smallest_pick(gs, i1),
        is_smallest_pick(gs, i2),
    ensures
        i1 == i2,
{
    if i1 < i2 {
        assert(gs[i1].len() > gs[i2].len());
        assert(gs[i1].len() <= gs[i2].len());
    }
    if i2 < i1 {
        assert(gs[i2].len() > gs[i1].len());
        assert(gs[i2].len() <= gs[i1].len());
    }
}

/// What the seed stage produces: the intersection of the mandatory group
/// if there is one; else the union of the smallest non-empty any-of group;
/// else the union of the whole universe.
pub open spec fn stage_seed(store: SketchStore, a: Seq<i32>, b: Seq<Seq<i32>>) -> Set<Seq<u8>> {
    if a.len() > 0 {
        inter_over(store, a)
    } else if has_nonempty(b) {
        union_over(store, b[smallest_index(b)])
    } else {
        union_over(store, universe_ids(store.len()))
    }
}

/// The any-of group the refinement stage skips because the seed stage
/// already consumed it; negative when no group is skipped.
pub open spec fn skip_index(a: Seq<i32>, b: Seq<Seq<i32>>) -> int {
    if a.len() == 0 && has_nonempty(b) {
        smallest_index(b)
    } else {
        -1
    }
}

/// Sequential refinement: each non-skipped, non-empty group narrows the
/// working set to the elements appearing in at least one of its members.
pub open spec fn refine_over(
    g0: Set<Seq<u8>>,
    store: SketchStore,
    groups: Seq<Seq<i32>>,
    skip: int,
) -> Set<Seq<u8>>
    decreases groups.len(),
{
    if groups.len() == 0 {
        g0
    } else {
        let rest = refine_over(g0, store, groups.drop_last(), skip);
        if groups.len() - 1 == skip || groups.last().len() == 0 {
            rest
        } else {
            rest.intersect(union_over(store, groups.last()))
        }
    }
}

/// Per non-empty group, the elements common to all its members leave the
/// working set.
pub open spec fn subtract_commons(
    g0: Set<Seq<u8>>,
    store: SketchStore,
    groups: Seq<Seq<i32>>,
) -> Set<Seq<u8>>
    decreases groups.len(),
{
    if groups.len() == 0 {
        g0
    } else {
        let rest = subtract_commons(g0, store, groups.drop_last());
        if groups.last().len() == 0 {
            rest
        } else {
            rest.difference(inter_over(store, groups.last()))
        }
    }
}

/// Every element of any listed sample's sketch leaves the working set.
pub open spec fn subtract_ids(g0: Set<Seq<u8>>, store: SketchStore, ids: Seq<i32>) -> Set<Seq<u8>>
    decreases ids.len(),
{
    if ids.len() == 0 {
        g0
    } else {
        subtract_ids(g0, store, ids.drop_last()).difference(store.set_at(ids.last() as int))
    }
}

/// The element set the whole query denotes.
pub open spec fn query_spec(
    store: SketchStore,
    a: Seq<i32>,
    b: Seq<Seq<i32>>,
    c: Seq<Seq<i32>>,
    d: Seq<i32>,
) -> Set<Seq<u8>> {
    let g1 = stage_seed(store, a, b);
    let g2 = refine_over(g1, store, b, skip_index(a, b));
    let g3 = subtract_commons(g2, store, c);
    subtract_ids(g3, store, d)
}

/// Every non-empty group in the list names only valid samples.
pub open spec fn groups_all_valid(store: SketchStore, gs: Seq<Seq<i32>>) -> bool {
    forall|k: int|
        0 <= k < gs.len() ==> (#[trigger] gs[k].len() == 0 || all_valid(store, gs[k]))
}

/// Every sample the query touches has a persisted sketch that decodes:
/// exactly when this holds the query succeeds.
pub open spec fn query_inputs_valid(
    store: SketchStore,
    a: Seq<i32>,
    b: Seq<Seq<i32>>,
    c: Seq<Seq<i32>>,
    d: Seq<i32>,
) -> bool {
    &&& all_valid(store, a)
    &&& groups_all_valid(store, b)
    &&& groups_all_valid(store, c)
    &&& all_valid(store, d)
    &&& (a.len() == 0 && !has_nonempty(b) ==> all_valid(store, universe_ids(store.len())))
}

/// Every sample identifier the query would touch.
pub open spec fn referenced_ids(
    store: SketchStore,
    a: Seq<i32>,
    b: Seq<Seq<i32>>,
    c: Seq<Seq<i32>>,
    d: Seq<i32>,
) -> Set<i32> {
    combined_ids(a, b, c, d) + if a.len() == 0 && !has_nonempty(b) {
        universe_ids(store.len()).to_set()
    } else {
        Set::empty()
    }
}

/// An identifier in some group is an identifier of the group list.
pub proof fn lemma_groups_ids_member(gs: Seq<Seq<i32>>, k: int, id: i32)
    requires
        0 <= k < gs.len(),
        gs[k].contains(id),
    ensures
        groups_ids(gs).contains(id),
    decreases gs.len(),
{
    if k == gs.len() - 1 {
        assert(gs.last().to_set().contains(id));
    } else {
        assert(gs.drop_last()[k] == gs[k]);
        lemma_groups_ids_member(gs.drop_last(), k, id);
    }
}

/// The per-member intersections of a fixed working set with each listed
/// element set.
pub open spec fn inter_views(g: Set<Seq<u8>>, s: Seq<Set<Seq<u8>>>) -> Seq<Set<Seq<u8>>> {
    s.map_values(|x: Set<Seq<u8>>| g.intersect(x))
}

/// Unioning the per-member intersections narrows the working set to the
/// union of the members.
pub proof fn lemma_union_inter_views(g: Set<Seq<u8>>, s: Seq<Set<Seq<u8>>>)
    ensures
        union_seq(inter_views(g, s)) == g.intersect(union_seq(s)),
    decreases s.len(),
{
    if s.len() == 0 {
        assert(inter_views(g, s) =~= Seq::<Set<Seq<u8>>>::empty());
        assert(g.intersect(union_seq(s)) =~= Set::<Seq<u8>>::empty());
    } else {
        assert(inter_views(g, s).drop_last() =~= inter_views(g, s.drop_last()));
        lemma_union_inter_views(g, s.drop_last());
        assert(inter_views(g, s).last() == g.intersect(s.last()));
        assert(g.intersect(union_seq(s.drop_last())) + g.intersect(s.last()) =~= g.intersect(
            union_seq(s.drop_last()) + s.last(),
        ));
    }
}

/// One refinement step: narrows the working sketch to "already held AND
/// appearing in at least one member of the group", loading the group's
/// sketches in chunks of at most `batch_size`.
fn refine_group(store: &SketchStore, g: &Sketch, group: &Vec<i32>, batch_size: usize) -> (r: Result<
    Sketch,
    QueryError,
>)
    requires
        g.wf(),
        batch_size >= 1,
        group@.len() > 0,
    ensures
        r is Ok <==> all_valid(*store, group@),
        match r {
            Ok(ng) => ng.wf() && ng@ == g@.intersect(union_over(*store, group@)),
            Err(QueryError::MissingSketch(j)) => group@.contains(j) && store.missing_at(j as int),
            Err(QueryError::CorruptSketch(j)) => group@.contains(j) && store.corrupt_at(j as int),
            Err(_) => false,
        },
{
    let n = group.len();
    let mut acc = Sketch::new();
    proof {
        assert(inter_views(g@, sets_at(*store, group@.take(0))) =~= Seq::<Set<Seq<u8>>>::empty());
    }
    let mut i: usize = 0;
    while i < n
        invariant
            g.wf(),
            batch_size >= 1,
            n == group@.len(),
            0 <= i <= n,
            acc.wf(),
            all_valid(*store, group@.take(i as int)),
            acc@ == union_seq(inter_views(g@, sets_at(*store, group@.take(i as int)))),
        decreases n - i,
    {
        let end = if n - i < batch_size {
            n
        } else {
            i + batch_size
        };
        let batch = match crate::reduce::load_batch(store, group, i, end) {
            Ok(v) => v,
            Err(e) => {
                return Err(e);
            },
        };
        let mut inters: Vec<Sketch> = Vec::new();
        let mut m: usize = 0;
        while m < batch.len()
            invariant
                g.wf(),
                forall|t: int| 0 <= t < batch@.len() ==> (#[trigger] batch@[t]).wf(),
                0 <= m <= batch@.len(),
                inters@.len() == m,
                forall|t: int|
                    0 <= t < m ==> (#[trigger] inters@[t]).wf() && inters@[t]@ == g@.intersect(
                        batch@[t]@,
                    ),
            decreases batch@.len() - m,
        {
            inters.push(g.intersect_new(&batch[m]));
            m += 1;
        }
        let merged = Sketch::merge_all(&inters);
        acc.union_assign(&merged);
        proof {
            assert(crate::sketch::seq_views(inters@) =~= inter_views(
                g@,
                sets_at(*store, group@.subrange(i as int, end as int)),
            ));
            assert(group@.take(end as int) =~= group@.take(i as int) + group@.subrange(
                i as int,
                end as int,
            ));
            assert(sets_at(*store, group@.take(end as int)) =~= sets_at(
                *store,
                group@.take(i as int),
            ) + sets_at(*store, group@.subrange(i as int, end as int)));
            assert(inter_views(g@, sets_at(*store, group@.take(end as int))) =~= inter_views(
                g@,
                sets_at(*store, group@.take(i as int)),
            ) + inter_views(g@, sets_at(*store, group@.subrange(i as int, end as int))));
            lemma_union_seq_concat(
                inter_views(g@, sets_at(*store, group@.take(i as int))),
                inter_views(g@, sets_at(*store, group@.subrange(i as int, end as int))),
            );
            assert(all_valid(*store, group@.take(end as int)));
        }
        i = end;
    }
    proof {
        assert(group@.take(n as int) =~= group@);
        lemma_union_inter_views(g@, sets_at(*store, group@));
    }
    Ok(acc)
}

/// Evaluates the four term groups against the store: seeds the working
/// sketch, applies the remaining any-of groups as sequential refinements,
/// subtracts each exclude-if-common group, then subtracts the mandatory
/// exclusions. Succeeds exactly when every sample the query touches has a
/// persisted sketch that decodes; any failure aborts the whole query.
pub fn query_sketches(
    store: &SketchStore,
    a_cup: &Vec<i32>,
    b_star: &Vec<Vec<i32>>,
    c_star: &Vec<Vec<i32>>,
    d_cup: &Vec<i32>,
    batch_size: usize,
) -> (r: Result<Sketch, QueryError>)
    requires
        batch_size >= 1,
        store.len() <= i32::MAX,
    ensures
        r is Ok <==> query_inputs_valid(
            *store,
            a_cup@,
            groups_view(b_star@),
            groups_view(c_star@),
            d_cup@,
        ),
        match r {
            Ok(s) => s.wf() && s@ == query_spec(
                *store,
                a_cup@,
                groups_view(b_star@),
                groups_view(c_star@),
                d_cup@,
            ),
            Err(QueryError::MissingSketch(j)) => referenced_ids(
                *store,
                a_cup@,
                groups_view(b_star@),
                groups_view(c_star@),
                d_cup@,
            ).contains(j) && store.missing_at(j as int),
            Err(QueryError::CorruptSketch(j)) => referenced_ids(
                *store,
                a_cup@,
                groups_view(b_star@),
                groups_view(c_star@),
                d_cup@,
            ).contains(j) && store.corrupt_at(j as int),
            Err(_) => false,
        },
{
    let ghost av = a_cup@;
    let ghost bv = groups_view(b_star@);
    let ghost cv = groups_view(c_star@);
    let ghost dv = d_cup@;
    let mut use_b_seed = false;
    let mut skip_pos: usize = 0;
    let mut g: Sketch;
    if a_cup.len() > 0 {
        g = match reduce_intersect(store, a_cup, batch_size) {
            Ok(s) => s,
            Err(e) => {
                return Err(e);
            },
        };
    } else {
        let picked = find_smallest_vec_and_index(b_star);
        let idx = picked.0;
        let smallest = picked.1;
        if smallest.len() > 0 {
            proof {
                if !has_nonempty(bv) {
                    assert(smallest@ == Seq::<i32>::empty());
                }
            }
            use_b_seed = true;
            skip_pos = idx;
            g = match reduce_union(store, &smallest, batch_size) {
                Ok(s) => s,
                Err(e) => {
                    proof {
                        match e {
                            QueryError::MissingSketch(j) => {
                                lemma_groups_ids_member(bv, idx as int, j);
                            },
                            QueryError::CorruptSketch(j) => {
                                lemma_groups_ids_member(bv, idx as int, j);
                            },
                            _ => {},
                        }
                        assert(bv[idx as int] == b_star@[idx as int]@);
                        assert(bv[idx as int].len() > 0);
                        assert(!all_valid(*store, bv[idx as int]));
                        assert(!groups_all_valid(*store, bv));
                    }
                    return Err(e);
                },
            };
        } else {
            proof {
                if has_nonempty(bv) {
                    assert(smallest@.len() > 0);
                }
                assert(!has_nonempty(bv));
            }
            let n = store.sample_count();
            let mut all: Vec<i32> = Vec::new();
            let mut ii: usize = 0;
            proof {
                assert(all@ =~= universe_ids(0));
            }
            while ii < n
                invariant
                    n == store.len(),
                    store.len() <= i32::MAX,
                    0 <= ii <= n,
                    all@ == universe_ids(ii as int),
                decreases n - ii,
            {
                all.push(ii as i32);
                proof {
                    assert(all@ =~= universe_ids(ii + 1));
                }
                ii += 1;
            }
            g = match reduce_union(store, &all, batch_size) {
                Ok(s) => s,
                Err(e) => {
                    return Err(e);
                },
            };
        }
    }
    let ghost g1 = stage_seed(*store, av, bv);
    let ghost skip = skip_index(av, bv);
    proof {
        if use_b_seed {
            lemma_smallest_unique(bv, skip_pos as int, smallest_index(bv));
        }
        assert(g@ == g1);
        assert(use_b_seed ==> skip == skip_pos as int && 0 <= skip < bv.len() && bv[skip].len() > 0
            && all_valid(*store, bv[skip]));
        assert(!use_b_seed ==> skip == -1);
        assert(av.len() == 0 && !has_nonempty(bv) ==> all_valid(
            *store,
            universe_ids(store.len()),
        ));
        assert(av.len() > 0 ==> all_valid(*store, av));
        assert(av.len() == 0 ==> all_valid(*store, av));
    }
    let mut k: usize = 0;
    while k < b_star.len()
        invariant
            batch_size >= 1,
            bv == groups_view(b_star@),
            0 <= k <= bv.len(),
            g.wf(),
            g@ == refine_over(g1, *store, bv.take(k as int), skip),
            use_b_seed ==> skip == skip_pos as int && 0 <= skip < bv.len() && bv[skip].len() > 0
                && all_valid(*store, bv[skip]),
            !use_b_seed ==> skip == -1,
            forall|t: int|
                0 <= t < k ==> (#[trigger] bv[t].len() == 0 || t == skip || all_valid(
                    *store,
                    bv[t],
                )),
        decreases b_star@.len() - k,
    {
        let skip_here = use_b_seed && k == skip_pos;
        if !skip_here && b_star[k].len() > 0 {
            g = match refine_group(store, &g, &b_star[k], batch_size) {
                Ok(ng) => ng,
                Err(e) => {
                    proof {
                        match e {
                            QueryError::MissingSketch(j) => {
                                lemma_groups_ids_member(bv, k as int, j);
                            },
                            QueryError::CorruptSketch(j) => {
                                lemma_groups_ids_member(bv, k as int, j);
                            },
                            _ => {},
                        }
                        assert(bv[k as int] == b_star@[k as int]@);
                        assert(bv[k as int].len() > 0);
                        assert(!all_valid(*store, bv[k as int]));
                        assert(!groups_all_valid(*store, bv));
                    }
                    return Err(e);
                },
            };
        }
        proof {
            assert(bv.take(k + 1).drop_last() =~= bv.take(k as int));
            assert(bv.take(k + 1).last() == bv[k as int]);
        }
        k += 1;
    }
    proof {
        assert(bv.take(bv.len() as int) =~= bv);
        assert(groups_all_valid(*store, bv));
    }
    let ghost g2 = refine_over(g1, *store, bv, skip);
    let mut k: usize = 0;
    while k < c_star.len()
        invariant
            batch_size >= 1,
            cv == groups_view(c_star@),
            0 <= k <= cv.len(),
            g.wf(),
            g@ == subtract_commons(g2, *store, cv.take(k as int)),
            forall|t: int|
                0 <= t < k ==> (#[trigger] cv[t].len() == 0 || all_valid(*store, cv[t])),
        decreases c_star@.len() - k,
    {
        if c_star[k].len() > 0 {
            match subtract_common(&mut g, store, &c_star[k], batch_size) {
                Ok(u) => {},
                Err(e) => {
                    proof {
                        match e {
                            QueryError::MissingSketch(j) => {
                                lemma_groups_ids_member(cv, k as int, j);
                            },
                            QueryError::CorruptSketch(j) => {
                                lemma_groups_ids_member(cv, k as int, j);
                            },
                            _ => {},
                        }
                        assert(cv[k as int] == c_star@[k as int]@);
                        assert(cv[k as int].len() > 0);
                        assert(!all_valid(*store, cv[k as int]));
                        assert(!groups_all_valid(*store, cv));
                    }
                    return Err(e);
                },
            }
        }
        proof {
            assert(cv.take(k + 1).drop_last() =~= cv.take(k as int));
            assert(cv.take(k + 1).last() == cv[k as int]);
        }
        k += 1;
    }
    proof {
        assert(cv.take(cv.len() as int) =~= cv);
        assert(groups_all_valid(*store, cv));
    }
    let ghost g3 = subtract_commons(g2, *store, cv);
    let mut i: usize = 0;
    while i < d_cup.len()
        invariant
            dv == d_cup@,
            0 <= i <= dv.len(),
            g.wf(),
            g@ == subtract_ids(g3, *store, dv.take(i as int)),
            forall|t: int| 0 <= t < i ==> store.valid_at(#[trigger] dv[t] as int),
        decreases d_cup@.len() - i,
    {
        match store.load(d_cup[i]) {
            Ok(s) => {
                g.difference_assign(&s);
            },
            Err(e) => {
                proof {
                    assert(dv.contains(dv[i as int]));
                    assert(!all_valid(*store, dv));
                }
                return Err(e);
            },
        }
        proof {
            assert(dv.take(i + 1).drop_last() =~= dv.take(i as int));
            assert(dv.take(i + 1).last() == dv[i as int]);
        }
        i += 1;
    }
    proof {
        assert(dv.take(dv.len() as int) =~= dv);
        assert(all_valid(*store, dv));
        assert(g@ == query_spec(*store, av, bv, cv, dv));
        assert(query_inputs_valid(*store, av, bv, cv, dv));
    }
    Ok(g)
}

} // verus!
