//! Term-group utilities: smallest-group selection, deduplicated identifier
//! collection across all four term groups, and selection of the sample
//! files a query actually needs.
use vstd::prelude::*;

verus! {

/// The member lists of a sequence of groups.
pub open spec fn groups_view(gs: Seq<Vec<i32>>) -> Seq<Seq<i32>> {
    gs.map_values(|g: Vec<i32>| g@)
}

/// Every identifier occurring in any of the groups.
pub open spec fn groups_ids(gs: Seq<Seq<i32>>) -> Set<i32>
    decreases gs.len(),
{
    if gs.len() == 0 {
        Set::empty()
    } else {
        groups_ids(gs.drop_last()) + gs.last().to_set()
    }
}

/// Every identifier occurring in any of the four term groups.
pub open spec fn combined_ids(a: Seq<i32>, b: Seq<Seq<i32>>, c: Seq<Seq<i32>>, d: Seq<i32>) -> Set<
    i32,
> {
    a.to_set() + groups_ids(b) + groups_ids(c) + d.to_set()
}

/// Some group has a member.
pub open spec fn has_nonempty(gs: Seq<Seq<i32>>) -> bool {
    exists|i: int| 0 <= i < gs.len() && #[trigger] gs[i].len() > 0
}

/// `idx` names the first group with the fewest members among the non-empty
/// groups.
pub open spec fn is_smallest_pick(gs: Seq<Seq<i32>>, idx: int) -> bool {
    &&& 0 <= idx < gs.len()
    &&& gs[idx].len() > 0
    &&& forall|j: int| 0 <= j < gs.len() && #[trigger] gs[j].len() > 0 ==> gs[idx].len() <= gs[j].len()
    &&& forall|j: int| 0 <= j < idx ==> (#[trigger] gs[j].len() == 0 || gs[j].len() > gs[idx].len())
}

pub proof fn lemma_take_step_set<T>(s: Seq<T>, i: int)
    requires
        0 <= i < s.len(),
    ensures
        s.take(i + 1).to_set() == s.take(i).to_set().insert(s[i]),
{
    assert(s.take(i + 1).to_set() =~= s.take(i).to_set().insert(s[i])) by {
        assert forall|w: T| #[trigger] s.take(i + 1).to_set().contains(w) implies s.take(
            i,
        ).to_set().insert(s[i]).contains(w) by {
            let j = choose|j: int| 0 <= j < s.take(i + 1).len() && #[trigger] s.take(i + 1)[j] == w;
            if j < i {
                assert(s.take(i)[j] == w);
                assert(s.take(i).contains(w));
            }
        }
        assert forall|w: T| #[trigger] s.take(i).to_set().insert(s[i]).contains(w) implies s.take(
            i + 1,
        ).to_set().contains(w) by {
            if w == s[i] {
                assert(s.take(i + 1)[i] == w);
                assert(s.take(i + 1).contains(w));
            } else {
                let j = choose|j: int| 0 <= j < s.take(i).len() && #[trigger] s.take(i)[j] == w;
                assert(s.take(i + 1)[j] == w);
                assert(s.take(i + 1).contains(w));
            }
        }
    }
}

pub proof fn lemma_push_keeps_unique<T>(s: Seq<T>, x: T)
    requires
        s.no_duplicates(),
        !s.contains(x),
    ensures
        s.push(x).no_duplicates(),
        s.push(x).to_set() == s.to_set().insert(x),
{
    assert forall|i: int, j: int|
        0 <= i < s.push(x).len() && 0 <= j < s.push(x).len() && i != j implies s.push(x)[i]
        != s.push(x)[j] by {
        if j == s.len() {
            assert(s.contains(s[i]));
        } else if i == s.len() {
            assert(s.contains(s[j]));
        }
    }
    assert(s.push(x).to_set() =~= s.to_set().insert(x)) by {
        assert forall|w: T| #[trigger] s.push(x).to_set().contains(w) implies s.to_set().insert(
            x,
        ).contains(w) by {
            let i = choose|i: int| 0 <= i < s.push(x).len() && #[trigger] s.push(x)[i] == w;
            if i < s.len() {
                assert(s.contains(w));
            }
        }
        assert forall|w: T| #[trigger] s.to_set().insert(x).contains(w) implies s.push(
            x,
        ).to_set().contains(w) by {
            if w == x {
                assert(s.push(x)[s.len() as int] == w);
                assert(s.push(x).contains(w));
            } else {
                let i = choose|i: int| 0 <= i < s.len() && #[trigger] s[i] == w;
                assert(s.push(x)[i] == w);
                assert(s.push(x).contains(w));
            }
        }
    }
}

/// Whether `id` occurs in the list.
pub fn contains_id(v: &Vec<i32>, id: i32) -> (r: bool)
    ensures
        r == v@.contains(id),
{
    let mut i: usize = 0;
    while i < v.len()
        invariant
            0 <= i <= v@.len(),
            forall|j: int| 0 <= j < i ==> v@[j] != id,
        decreases v@.len() - i,
    {
        if v[i] == id {
            return true;
        }
        i += 1;
    }
    false
}

/// Appends `id` unless it is already listed.
fn add_unique(out: &mut Vec<i32>, id: i32)
    requires
        old(out)@.no_duplicates(),
    ensures
        final(out)@.no_duplicates(),
        final(out)@.to_set() == old(out)@.to_set().insert(id),
{
    let ghost prev = out@;
    if !contains_id(out, id) {
        proof {
            lemma_push_keeps_unique(prev, id);
        }
        out.push(id);
    } else {
        proof {
            assert(prev.to_set() =~= prev.to_set().insert(id));
        }
    }
}

/// Collects every identifier of the four term groups, each once.
fn collect_ids(a: &Vec<i32>, b: &Vec<Vec<i32>>, c: &Vec<Vec<i32>>, d: &Vec<i32>) -> (r: Vec<i32>)
    ensures
        r@.no_duplicates(),
        r@.to_set() == combined_ids(a@, groups_view(b@), groups_view(c@), d@),
{
    let ghost bv = groups_view(b@);
    let ghost cv = groups_view(c@);
    let mut out: Vec<i32> = Vec::new();
    proof {
        assert(out@.to_set() =~= a@.take(0).to_set());
    }
    let mut i: usize = 0;
    while i < a.len()
        invariant
            0 <= i <= a@.len(),
            out@.no_duplicates(),
            out@.to_set() == a@.take(i as int).to_set(),
        decreases a@.len() - i,
    {
        proof {
            lemma_take_step_set(a@, i as int);
        }
        add_unique(&mut out, a[i]);
        i += 1;
    }
    proof {
        assert(a@.take(a@.len() as int) =~= a@);
    }
    let mut k: usize = 0;
    while k < b.len()
        invariant
            bv == groups_view(b@),
            0 <= k <= bv.len(),
            out@.no_duplicates(),
            out@.to_set() == a@.to_set() + groups_ids(bv.take(k as int)),
        decreases b@.len() - k,
    {
        let group = &b[k];
        let mut j: usize = 0;
        while j < group.len()
            invariant
                bv == groups_view(b@),
                0 <= k < bv.len(),
                group@ == bv[k as int],
                0 <= j <= group@.len(),
                out@.no_duplicates(),
                out@.to_set() == a@.to_set() + groups_ids(bv.take(k as int)) + bv[k as int].take(
                    j as int,
                ).to_set(),
            decreases group@.len() - j,
        {
            proof {
                lemma_take_step_set(bv[k as int], j as int);
            }
            add_unique(&mut out, group[j]);
            proof {
                assert(out@.to_set() =~= a@.to_set() + groups_ids(bv.take(k as int)) + bv[
                k as int].take(j + 1).to_set());
            }
            j += 1;
        }
        proof {
            assert(bv[k as int].take(group@.len() as int) =~= bv[k as int]);
            assert(bv.take(k + 1).drop_last() =~= bv.take(k as int));
            assert(bv.take(k + 1).last() == bv[k as int]);
            assert(out@.to_set() =~= a@.to_set() + groups_ids(bv.take(k + 1)));
        }
        k += 1;
    }
    proof {
        assert(bv.take(bv.len() as int) =~= bv);
    }
    let mut k: usize = 0;
    while k < c.len()
        invariant
            cv == groups_view(c@),
            0 <= k <= cv.len(),
            out@.no_duplicates(),
            out@.to_set() == a@.to_set() + groups_ids(groups_view(b@)) + groups_ids(
                cv.take(k as int),
            ),
        decreases c@.len() - k,
    {
        let group = &c[k];
        let mut j: usize = 0;
        while j < group.len()
            invariant
                cv == groups_view(c@),
                0 <= k < cv.len(),
                group@ == cv[k as int],
                0 <= j <= group@.len(),
                out@.no_duplicates(),
                out@.to_set() == a@.to_set() + groups_ids(groups_view(b@)) + groups_ids(
                    cv.take(k as int),
                ) + cv[k as int].take(j as int).to_set(),
            decreases group@.len() - j,
        {
            proof {
                lemma_take_step_set(cv[k as int], j as int);
            }
            add_unique(&mut out, group[j]);
            proof {
                assert(out@.to_set() =~= a@.to_set() + groups_ids(groups_view(b@)) + groups_ids(
                    cv.take(k as int),
                ) + cv[k as int].take(j + 1).to_set());
            }
            j += 1;
        }
        proof {
            assert(cv[k as int].take(group@.len() as int) =~= cv[k as int]);
            assert(cv.take(k + 1).drop_last() =~= cv.take(k as int));
            assert(cv.take(k + 1).last() == cv[k as int]);
            assert(out@.to_set() =~= a@.to_set() + groups_ids(groups_view(b@)) + groups_ids(
                cv.take(k + 1),
            ));
        }
        k += 1;
    }
    proof {
        assert(cv.take(cv.len() as int) =~= cv);
    }
    let mut i: usize = 0;
    while i < d.len()
        invariant
            0 <= i <= d@.len(),
            out@.no_duplicates(),
            out@.to_set() == a@.to_set() + groups_ids(groups_view(b@)) + groups_ids(
                groups_view(c@),
            ) + d@.take(i as int).to_set(),
        decreases d@.len() - i,
    {
        proof {
            lemma_take_step_set(d@, i as int);
        }
        add_unique(&mut out, d[i]);
        proof {
            assert(out@.to_set() =~= a@.to_set() + groups_ids(groups_view(b@)) + groups_ids(
                groups_view(c@),
            ) + d@.take(i + 1).to_set());
        }
        i += 1;
    }
    proof {
        assert(d@.take(d@.len() as int) =~= d@);
    }
    out
}

/// The identifiers of all four term groups, deduplicated: the samples that
/// must be indexed before the query can run.
pub fn create_unique_vec(
    a_cup: Vec<i32>,
    b_star: Vec<Vec<i32>>,
    c_star: Vec<Vec<i32>>,
    d_cup: Vec<i32>,
) -> (r: Vec<i32>)
    ensures
        r@.no_duplicates(),
        r@.to_set() == combined_ids(
            a_cup@,
            groups_view(b_star@),
            groups_view(c_star@),
            d_cup@,
        ),
{
    collect_ids(&a_cup, &b_star, &c_star, &d_cup)
}

/// A fresh copy of an identifier list.
pub fn clone_ids(v: &Vec<i32>) -> (r: Vec<i32>)
    ensures
        r@ == v@,
{
    let mut r: Vec<i32> = Vec::new();
    let mut i: usize = 0;
    while i < v.len()
        invariant
            0 <= i <= v@.len(),
            r@ == v@.take(i as int),
        decreases v@.len() - i,
    {
        r.push(v[i]);
        proof {
            assert(r@ =~= v@.take(i + 1));
        }
        i += 1;
    }
    proof {
        assert(r@ =~= v@);
    }
    r
}

/// The first group with the fewest members among the non-empty groups,
/// with its index; index zero and an empty list when every group is empty.
pub fn find_smallest_vec_and_index(list_of_vecs: &Vec<Vec<i32>>) -> (r: (usize, Vec<i32>))
    ensures
        ({
            let gs = groups_view(list_of_vecs@);
            if has_nonempty(gs) {
                is_smallest_pick(gs, r.0 as int) && r.1@ == gs[r.0 as int]
            } else {
                r.0 == 0 && r.1@ == Seq::<i32>::empty()
            }
        }),
{
    let ghost gs = groups_view(list_of_vecs@);
    let mut found = false;
    let mut best: usize = 0;
    let mut k: usize = 0;
    while k < list_of_vecs.len()
        invariant
            gs == groups_view(list_of_vecs@),
            0 <= k <= gs.len(),
            !found ==> forall|j: int| 0 <= j < k ==> #[trigger] gs[j].len() == 0,
            found ==> {
                &&& 0 <= (best as int) < k
                &&& gs[best as int].len() > 0
                &&& forall|j: int|
                    0 <= j < k && #[trigger] gs[j].len() > 0 ==> gs[best as int].len()
                        <= gs[j].len()
                &&& forall|j: int|
                    0 <= j < best ==> (#[trigger] gs[j].len() == 0 || gs[j].len() > gs[
                    best as int].len())
            },
        decreases list_of_vecs@.len() - k,
    {
        let len_k = list_of_vecs[k].len();
        if len_k > 0 && (!found || len_k < list_of_vecs[best].len()) {
            found = true;
            best = k;
        }
        k += 1;
    }
    if found {
        (best, clone_ids(&list_of_vecs[best]))
    } else {
        (0, Vec::new())
    }
}

/// The start indices `0 .. n`, in order.
pub open spec fn all_indices(n: int) -> Seq<usize> {
    Seq::new(n as nat, |i: int| i as usize)
}

/// The indices below `n` whose identifier lies in `ids`, in increasing
/// order.
pub open spec fn selected_upto(n: int, ids: Set<i32>) -> Seq<usize>
    decreases n,
{
    if n <= 0 {
        Seq::empty()
    } else if ids.contains((n - 1) as i32) {
        selected_upto(n - 1, ids).push((n - 1) as usize)
    } else {
        selected_upto(n - 1, ids)
    }
}

/// Which sample files a query needs: all of them when the mandatory and
/// any-of groups are both absent, else exactly the files whose index some
/// term group names. Files come back with their indices, in input order.
pub fn select_files_to_load(
    input_files: &Vec<String>,
    a_cup: &Vec<i32>,
    b_star: &Vec<Vec<i32>>,
    c_star: &Vec<Vec<i32>>,
    d_cup: &Vec<i32>,
) -> (r: (Vec<String>, Vec<usize>))
    requires
        input_files@.len() <= i32::MAX,
    ensures
        ({
            let n = input_files@.len() as int;
            let ids = combined_ids(a_cup@, groups_view(b_star@), groups_view(c_star@), d_cup@);
            let sel = if a_cup@.len() == 0 && b_star@.len() == 0 {
                all_indices(n)
            } else {
                selected_upto(n, ids)
            };
            &&& r.1@ == sel
            &&& r.0@.len() == sel.len()
            &&& forall|k: int| 0 <= k < sel.len() ==> r.0@[k]@ == input_files@[#[trigger] sel[k] as int]@
        }),
{
    let mut to_load: Vec<String> = Vec::new();
    let mut load_indices: Vec<usize> = Vec::new();
    if a_cup.len() == 0 && b_star.len() == 0 {
        let mut i: usize = 0;
        while i < input_files.len()
            invariant
                input_files@.len() <= i32::MAX,
                0 <= i <= input_files@.len(),
                load_indices@ == all_indices(i as int),
                to_load@.len() == i,
                forall|k: int| 0 <= k < i ==> to_load@[k]@ == input_files@[k]@,
            decreases input_files@.len() - i,
        {
            to_load.push(input_files[i].clone());
            load_indices.push(i);
            proof {
                assert(load_indices@ =~= all_indices(i + 1));
            }
            i += 1;
        }
        (to_load, load_indices)
    } else {
        let ghost ids = combined_ids(a_cup@, groups_view(b_star@), groups_view(c_star@), d_cup@);
        let uniq = collect_ids(a_cup, b_star, c_star, d_cup);
        let mut i: usize = 0;
        while i < input_files.len()
            invariant
                input_files@.len() <= i32::MAX,
                uniq@.to_set() == ids,
                0 <= i <= input_files@.len(),
                load_indices@ == selected_upto(i as int, ids),
                to_load@.len() == load_indices@.len(),
                forall|k: int|
                    0 <= k < load_indices@.len() ==> to_load@[k]@ == input_files@[#[trigger] load_indices@[k] as int]@,
            decreases input_files@.len() - i,
        {
            if contains_id(&uniq, i as i32) {
                to_load.push(input_files[i].clone());
                load_indices.push(i);
            }
            i += 1;
        }
        (to_load, load_indices)
    }
}

} // verus!
