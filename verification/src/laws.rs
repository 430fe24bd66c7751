//! Laws of the reducer and the evaluator, stated over the same spec
//! functions their contracts use. Batch size never appears: the reducer's
//! and evaluator's contracts already fix their results for every batch
//! size, so each law holds of every batching.
use vstd::prelude::*;

verus! {

use crate::store::SketchStore;
use crate::sketch::inter_seq;
use crate::reduce::sets_at;
use crate::reduce::union_over;
use crate::reduce::inter_over;
use crate::reduce::lemma_union_seq_concat;
use crate::query::query_spec;
use crate::query::refine_over;
use crate::query::subtract_commons;
use crate::query::subtract_ids;
use crate::query::universe_ids;
use crate::groups::has_nonempty;

/// Reducing the concatenation of two non-empty, disjoint identifier lists
/// with the union operator yields the union of reducing each list alone.
pub proof fn lemma_union_reduce_split(store: SketchStore, a: Seq<i32>, b: Seq<i32>)
    requires
        a.len() > 0,
        b.len() > 0,
        a.to_set().disjoint(b.to_set()),
    ensures
        union_over(store, a + b) == union_over(store, a) + union_over(store, b),
{
    assert(sets_at(store, a + b) =~= sets_at(store, a) + sets_at(store, b));
    lemma_union_seq_concat(sets_at(store, a), sets_at(store, b));
}

/// A query whose four term groups are all empty denotes the union of the
/// whole universe of samples.
pub proof fn lemma_empty_query_is_universe(store: SketchStore)
    ensures
        query_spec(
            store,
            Seq::<i32>::empty(),
            Seq::<Seq<i32>>::empty(),
            Seq::<Seq<i32>>::empty(),
            Seq::<i32>::empty(),
        ) == union_over(store, universe_ids(store.len())),
{
    assert(!has_nonempty(Seq::<Seq<i32>>::empty()));
}

/// A query whose mandatory group holds one sample, all else empty, denotes
/// exactly that sample's element set.
pub proof fn lemma_single_must_all_is_sample(store: SketchStore, x: i32)
    ensures
        query_spec(
            store,
            seq![x],
            Seq::<Seq<i32>>::empty(),
            Seq::<Seq<i32>>::empty(),
            Seq::<i32>::empty(),
        ) == store.set_at(x as int),
{
    assert(sets_at(store, seq![x]) =~= seq![store.set_at(x as int)]);
}

/// One exclude-if-common pair: every element common to both samples leaves
/// the working set, and every working-set element held by only one of the
/// two samples stays.
pub proof fn lemma_exclude_common_pair(g: Set<Seq<u8>>, store: SketchStore, x: i32, y: i32)
    ensures
        ({
            let r = subtract_commons(g, store, seq![seq![x, y]]);
            &&& forall|w: Seq<u8>|
                store.set_at(x as int).contains(w) && store.set_at(y as int).contains(w)
                    ==> !r.contains(w)
            &&& forall|w: Seq<u8>|
                g.contains(w) && store.set_at(x as int).contains(w) && !store.set_at(
                    y as int,
                ).contains(w) ==> r.contains(w)
            &&& forall|w: Seq<u8>|
                g.contains(w) && store.set_at(y as int).contains(w) && !store.set_at(
                    x as int,
                ).contains(w) ==> r.contains(w)
        }),
{
    let c = seq![seq![x, y]];
    let sx = store.set_at(x as int);
    let sy = store.set_at(y as int);
    let ss = sets_at(store, seq![x, y]);
    assert(ss =~= seq![sx, sy]);
    assert(ss.drop_last() =~= seq![sx]);
    assert(inter_seq(seq![sx]) == sx);
    assert(ss.last() == sy);
    assert(inter_seq(ss) == inter_seq(ss.drop_last()).intersect(ss.last()));
    assert(inter_over(store, seq![x, y]) == sx.intersect(sy));
    assert(c.drop_last() =~= Seq::<Seq<i32>>::empty());
    assert(subtract_commons(g, store, c.drop_last()) == g);
    assert(c.last() == seq![x, y]);
    assert(c.last().len() > 0);
    assert(subtract_commons(g, store, c) == g.difference(sx.intersect(sy)));
}

/// Subtracting the mandatory exclusions removes every element of every
/// listed sample.
pub proof fn lemma_subtract_ids_excludes(
    g0: Set<Seq<u8>>,
    store: SketchStore,
    d: Seq<i32>,
    x: i32,
)
    requires
        d.contains(x),
    ensures
        forall|w: Seq<u8>|
            store.set_at(x as int).contains(w) ==> !subtract_ids(g0, store, d).contains(w),
    decreases d.len(),
{
    let idx = choose|i: int| 0 <= i < d.len() && d[i] == x;
    if idx == d.len() - 1 {
    } else {
        assert(d.drop_last()[idx] == x);
        assert(d.drop_last().contains(x));
        lemma_subtract_ids_excludes(g0, store, d.drop_last(), x);
    }
}

/// Subtracting the mandatory exclusions one sample at a time equals
/// subtracting the union of all their sketches at once: the incremental
/// implementation loses nothing.
pub proof fn lemma_subtract_ids_is_union_difference(
    g0: Set<Seq<u8>>,
    store: SketchStore,
    d: Seq<i32>,
)
    ensures
        subtract_ids(g0, store, d) == g0.difference(union_over(store, d)),
    decreases d.len(),
{
    if d.len() == 0 {
        assert(g0.difference(union_over(store, d)) =~= g0);
    } else {
        lemma_subtract_ids_is_union_difference(g0, store, d.drop_last());
        assert(sets_at(store, d).drop_last() =~= sets_at(store, d.drop_last()));
        assert(union_over(store, d) == union_over(store, d.drop_last()) + store.set_at(
            d.last() as int,
        ));
        assert(g0.difference(union_over(store, d.drop_last())).difference(
            store.set_at(d.last() as int),
        ) =~= g0.difference(union_over(store, d)));
    }
}

/// The removal set each non-empty exclude-if-common group contributes,
/// collected over the whole list.
pub open spec fn commons_union(store: SketchStore, groups: Seq<Seq<i32>>) -> Set<Seq<u8>>
    decreases groups.len(),
{
    if groups.len() == 0 {
        Set::empty()
    } else {
        let rest = commons_union(store, groups.drop_last());
        if groups.last().len() == 0 {
            rest
        } else {
            rest + inter_over(store, groups.last())
        }
    }
}

/// Subtracting the exclude-if-common groups one at a time, in input order,
/// equals one subtraction of all their removal sets: the groups commute in
/// final effect.
pub proof fn lemma_subtract_commons_is_union_difference(
    g0: Set<Seq<u8>>,
    store: SketchStore,
    groups: Seq<Seq<i32>>,
)
    ensures
        subtract_commons(g0, store, groups) == g0.difference(commons_union(store, groups)),
    decreases groups.len(),
{
    if groups.len() == 0 {
        assert(g0.difference(commons_union(store, groups)) =~= g0);
    } else {
        lemma_subtract_commons_is_union_difference(g0, store, groups.drop_last());
        if groups.last().len() == 0 {
        } else {
            assert(g0.difference(commons_union(store, groups.drop_last())).difference(
                inter_over(store, groups.last()),
            ) =~= g0.difference(commons_union(store, groups)));
        }
    }
}

/// Refinement distributes over removal: narrowing a working set from
/// which `x` was already removed gives the refined set with `x` removed.
/// The subtraction stages may therefore run before or after the
/// refinement stage without changing the result.
pub proof fn lemma_refine_over_difference(
    g0: Set<Seq<u8>>,
    x: Set<Seq<u8>>,
    store: SketchStore,
    groups: Seq<Seq<i32>>,
    skip: int,
)
    ensures
        refine_over(g0.difference(x), store, groups, skip) == refine_over(
            g0,
            store,
            groups,
            skip,
        ).difference(x),
    decreases groups.len(),
{
    if groups.len() > 0 {
        lemma_refine_over_difference(g0, x, store, groups.drop_last(), skip);
        if groups.len() - 1 == skip || groups.last().len() == 0 {
        } else {
            let rest = refine_over(g0, store, groups.drop_last(), skip);
            assert(rest.difference(x).intersect(union_over(store, groups.last())) =~= rest
                .intersect(union_over(store, groups.last())).difference(x));
        }
    }
}

/// A query whose mandatory-exclusion group holds sample `x` denotes a set
/// with no element of `x`'s sketch, whatever the other groups hold.
pub proof fn lemma_must_none_excludes(
    store: SketchStore,
    a: Seq<i32>,
    b: Seq<Seq<i32>>,
    c: Seq<Seq<i32>>,
    d: Seq<i32>,
    x: i32,
)
    requires
        d.contains(x),
    ensures
        forall|w: Seq<u8>|
            store.set_at(x as int).contains(w) ==> !query_spec(store, a, b, c, d).contains(w),
{
    let g3 = subtract_commons(
        crate::query::refine_over(
            crate::query::stage_seed(store, a, b),
            store,
            b,
            crate::query::skip_index(a, b),
        ),
        store,
        c,
    );
    lemma_subtract_ids_excludes(g3, store, d, x);
}

} // verus!
