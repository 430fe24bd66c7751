//! The membership sketch: an exact set of fixed-length sequence words
//! (k-mers), with in-place union, intersection and difference, and the
//! multi-way merge and intersect used by the batched reducer.
use vstd::prelude::*;
use vstd::seq_lib::*;

verus! {

use crate::KMER_LEN;
use crate::is_kmer;

/// The set of all words of the fixed length occurring in `s`.
pub open spec fn windows(s: Seq<u8>) -> Set<Seq<u8>> {
    Set::new(
        |w: Seq<u8>|
            exists|i: int|
                0 <= i && i + KMER_LEN <= s.len() && w == #[trigger] s.subrange(
                    i,
                    i + KMER_LEN as int,
                ),
    )
}

/// A sketch holding the k-mers of one sample, each exactly once.
#[derive(Debug)]
pub struct Sketch {
    kmers: Vec<Vec<u8>>,
}

/// The views of the sketches in a sequence, in order.
pub open spec fn seq_views(s: Seq<Sketch>) -> Seq<Set<Seq<u8>>> {
    s.map_values(|x: Sketch| x@)
}

/// Union of a sequence of element sets, folded from the left.
pub open spec fn union_seq(s: Seq<Set<Seq<u8>>>) -> Set<Seq<u8>>
    decreases s.len(),
{
    if s.len() == 0 {
        Set::empty()
    } else {
        union_seq(s.drop_last()) + s.last()
    }
}

/// Intersection of a non-empty sequence of element sets, folded from the left.
pub open spec fn inter_seq(s: Seq<Set<Seq<u8>>>) -> Set<Seq<u8>>
    decreases s.len(),
{
    if s.len() <= 1 {
        if s.len() == 0 {
            Set::empty()
        } else {
            s[0]
        }
    } else {
        inter_seq(s.drop_last()).intersect(s.last())
    }
}

impl Sketch {
    /// The stored word list, as mathematical sequences.
    pub closed spec fn kseq(self) -> Seq<Seq<u8>> {
        self.kmers@.map_values(|k: Vec<u8>| k@)
    }

    /// Well-formed: no word occurs twice and every word has the fixed length.
    pub closed spec fn wf(self) -> bool {
        &&& self.kseq().no_duplicates()
        &&& forall|i: int| 0 <= i < self.kseq().len() ==> is_kmer(#[trigger] self.kseq()[i])
    }

    /// The view is exactly the set of listed words.
    pub proof fn lemma_view_is_kseq_to_set(self)
        ensures
            self@ == self.kseq().to_set(),
    {
    }

    /// Number of listed words.
    pub fn word_count(&self) -> (r: usize)
        ensures
            r == self.kseq().len(),
    {
        self.kmers.len()
    }

    /// The word listed at position `i`.
    pub fn word_at(&self, i: usize) -> (r: &Vec<u8>)
        requires
            i < self.kseq().len(),
        ensures
            r@ == self.kseq()[i as int],
    {
        &self.kmers[i]
    }

    /// A well-formed sketch lists distinct words of the fixed length.
    pub proof fn lemma_wf_words(self)
        requires
            self.wf(),
        ensures
            self.kseq().no_duplicates(),
            forall|i: int| 0 <= i < self.kseq().len() ==> is_kmer(#[trigger] self.kseq()[i]),
    {
    }

    /// A sketch with no elements.
    pub fn new() -> (r: Sketch)
        ensures
            r.wf(),
            r@ == Set::<Seq<u8>>::empty(),
    {
        let r = Sketch { kmers: Vec::new() };
        proof {
            assert(r.kseq() =~= Seq::<Seq<u8>>::empty());
            assert(r@ =~= Set::<Seq<u8>>::empty());
        }
        r
    }

    /// Number of distinct elements held.
    pub fn count(&self) -> (r: usize)
        requires
            self.wf(),
        ensures
            self@.finite(),
            r == self@.len(),
    {
        proof {
            self.kseq().unique_seq_to_set();
        }
        self.kmers.len()
    }

    /// Emptiness test.
    pub fn is_empty(&self) -> (r: bool)
        requires
            self.wf(),
        ensures
            r == self@.is_empty(),
    {
        proof {
            self.kseq().unique_seq_to_set();
            if self.kseq().len() == 0 {
                assert(self@ =~= Set::<Seq<u8>>::empty());
            } else {
                assert(self@.contains(self.kseq()[0]));
            }
        }
        self.kmers.len() == 0
    }

    /// Membership test for one word.
    pub fn contains_kmer(&self, w: &Vec<u8>) -> (r: bool)
        ensures
            r == self@.contains(w@),
    {
        let ghost ks = self.kseq();
        let mut i: usize = 0;
        while i < self.kmers.len()
            invariant
                0 <= i <= self.kmers.len(),
                ks == self.kseq(),
                forall|j: int| 0 <= j < i ==> ks[j] != w@,
            decreases self.kmers.len() - i,
        {
            if bytes_eq(&self.kmers[i], w) {
                assert(self@.contains(w@)) by {
                    assert(self.kseq()[i as int] == w@);
                    assert(self.kseq().contains(w@));
                }
                return true;
            }
            i += 1;
        }
        proof {
            if self@.contains(w@) {
                let j = choose|j: int| 0 <= j < ks.len() && ks[j] == w@;
            }
        }
        false
    }

    /// Add one word, if it is not yet present.
    pub fn insert_kmer(&mut self, w: Vec<u8>)
        requires
            old(self).wf(),
            is_kmer(w@),
        ensures
            final(self).wf(),
            final(self)@ == old(self)@.insert(w@),
    {
        let ghost ks0 = self.kseq();
        if !self.contains_kmer(&w) {
            self.kmers.push(w);
            proof {
                assert(self.kseq() =~= ks0.push(w@));
                lemma_push_unique(ks0, w@);
                assert(self@ =~= old(self)@.insert(w@));
            }
        } else {
            proof {
                assert(self@ =~= old(self)@.insert(w@));
            }
        }
    }

    /// Add every word of the fixed length occurring in `seq`.
    pub fn insert_seq(&mut self, seq: &Vec<u8>)
        requires
            old(self).wf(),
        ensures
            final(self).wf(),
            final(self)@ == old(self)@ + windows(seq@),
    {
        if seq.len() < KMER_LEN {
            proof {
                assert(windows(seq@) =~= Set::<Seq<u8>>::empty());
                assert(self@ =~= old(self)@ + windows(seq@));
            }
            return ;
        }
        let last_start: usize = seq.len() - KMER_LEN;
        let mut i: usize = 0;
        while i <= last_start
            invariant
                old(self).wf(),
                self.wf(),
                KMER_LEN <= seq.len(),
                last_start == seq.len() - KMER_LEN,
                0 <= i <= last_start + 1,
                self@ == old(self)@ + windows_upto(seq@, i as int),
            decreases last_start + 1 - i,
        {
            let mut w: Vec<u8> = Vec::new();
            let mut j: usize = i;
            while j < i + KMER_LEN
                invariant
                    i + KMER_LEN <= seq.len(),
                    i <= j <= i + KMER_LEN,
                    w@ == seq@.subrange(i as int, j as int),
                decreases i + KMER_LEN - j,
            {
                w.push(seq[j]);
                proof {
                    assert(w@ =~= seq@.subrange(i as int, j + 1));
                }
                j += 1;
            }
            self.insert_kmer(w);
            proof {
                assert(self@ =~= old(self)@ + windows_upto(seq@, i + 1)) by {
                    lemma_windows_upto_step(seq@, i as int);
                }
            }
            i += 1;
        }
        proof {
            assert(windows_upto(seq@, last_start + 1) =~= windows(seq@));
        }
    }
}

impl Sketch {
    /// A fresh sketch holding the same elements.
    pub fn duplicate(&self) -> (r: Sketch)
        requires
            self.wf(),
        ensures
            r.wf(),
            r@ == self@,
    {
        let ghost ks = self.kseq();
        let mut r = Sketch::new();
        let mut i: usize = 0;
        while i < self.kmers.len()
            invariant
                self.wf(),
                ks == self.kseq(),
                r.wf(),
                0 <= i <= ks.len(),
                r@ == ks.take(i as int).to_set(),
            decreases self.kmers.len() - i,
        {
            proof {
                lemma_take_step(ks, i as int);
            }
            let w = clone_bytes(&self.kmers[i]);
            r.insert_kmer(w);
            i += 1;
        }
        proof {
            assert(ks.take(ks.len() as int) =~= ks);
        }
        r
    }

    /// In-place union: afterwards `self` holds every element of either side.
    pub fn union_assign(&mut self, other: &Sketch)
        requires
            old(self).wf(),
            other.wf(),
        ensures
            final(self).wf(),
            final(self)@ == old(self)@ + other@,
    {
        let ghost ks = other.kseq();
        let mut i: usize = 0;
        while i < other.kmers.len()
            invariant
                other.wf(),
                ks == other.kseq(),
                self.wf(),
                0 <= i <= ks.len(),
                self@ == old(self)@ + ks.take(i as int).to_set(),
            decreases other.kmers.len() - i,
        {
            proof {
                lemma_take_step(ks, i as int);
                assert(is_kmer(ks[i as int]));
            }
            let w = clone_bytes(&other.kmers[i]);
            self.insert_kmer(w);
            proof {
                assert(self@ =~= old(self)@ + ks.take(i + 1).to_set());
            }
            i += 1;
        }
        proof {
            assert(ks.take(ks.len() as int) =~= ks);
        }
    }

    /// A fresh sketch holding the elements present on both sides.
    pub fn intersect_new(&self, other: &Sketch) -> (r: Sketch)
        requires
            self.wf(),
        ensures
            r.wf(),
            r@ == self@.intersect(other@),
    {
        let ghost ks = self.kseq();
        let mut r = Sketch::new();
        let mut i: usize = 0;
        while i < self.kmers.len()
            invariant
                self.wf(),
                ks == self.kseq(),
                r.wf(),
                0 <= i <= ks.len(),
                r@ == ks.take(i as int).to_set().intersect(other@),
            decreases self.kmers.len() - i,
        {
            proof {
                lemma_take_step(ks, i as int);
            }
            if other.contains_kmer(&self.kmers[i]) {
                let w = clone_bytes(&self.kmers[i]);
                r.insert_kmer(w);
            }
            proof {
                assert(r@ =~= ks.take(i + 1).to_set().intersect(other@));
            }
            i += 1;
        }
        proof {
            assert(ks.take(ks.len() as int) =~= ks);
        }
        r
    }

    /// A fresh sketch holding the elements of `self` absent from `other`.
    pub fn difference_new(&self, other: &Sketch) -> (r: Sketch)
        requires
            self.wf(),
        ensures
            r.wf(),
            r@ == self@.difference(other@),
    {
        let ghost ks = self.kseq();
        let mut r = Sketch::new();
        let mut i: usize = 0;
        while i < self.kmers.len()
            invariant
                self.wf(),
                ks == self.kseq(),
                r.wf(),
                0 <= i <= ks.len(),
                r@ == ks.take(i as int).to_set().difference(other@),
            decreases self.kmers.len() - i,
        {
            proof {
                lemma_take_step(ks, i as int);
            }
            if !other.contains_kmer(&self.kmers[i]) {
                let w = clone_bytes(&self.kmers[i]);
                r.insert_kmer(w);
            }
            proof {
                assert(r@ =~= ks.take(i + 1).to_set().difference(other@));
            }
            i += 1;
        }
        proof {
            assert(ks.take(ks.len() as int) =~= ks);
        }
        r
    }

    /// In-place intersection.
    pub fn intersect_assign(&mut self, other: &Sketch)
        requires
            old(self).wf(),
        ensures
            final(self).wf(),
            final(self)@ == old(self)@.intersect(other@),
    {
        let r = self.intersect_new(other);
        *self = r;
    }

    /// In-place difference.
    pub fn difference_assign(&mut self, other: &Sketch)
        requires
            old(self).wf(),
        ensures
            final(self).wf(),
            final(self)@ == old(self)@.difference(other@),
    {
        let r = self.difference_new(other);
        *self = r;
    }

    /// Multi-way union of a batch of sketches.
    pub fn merge_all(batch: &Vec<Sketch>) -> (r: Sketch)
        requires
            forall|i: int| 0 <= i < batch@.len() ==> (#[trigger] batch@[i]).wf(),
        ensures
            r.wf(),
            r@ == union_seq(seq_views(batch@)),
    {
        let ghost vs = seq_views(batch@);
        let mut r = Sketch::new();
        let mut i: usize = 0;
        while i < batch.len()
            invariant
                forall|j: int| 0 <= j < batch@.len() ==> (#[trigger] batch@[j]).wf(),
                vs == seq_views(batch@),
                r.wf(),
                0 <= i <= vs.len(),
                r@ == union_seq(vs.take(i as int)),
            decreases batch.len() - i,
        {
            r.union_assign(&batch[i]);
            proof {
                assert(vs.take(i + 1).drop_last() =~= vs.take(i as int));
                assert(vs.take(i + 1).last() == vs[i as int]);
            }
            i += 1;
        }
        proof {
            assert(vs.take(vs.len() as int) =~= vs);
        }
        r
    }

    /// Multi-way intersection of a non-empty batch of sketches.
    pub fn intersect_all(batch: &Vec<Sketch>) -> (r: Sketch)
        requires
            batch@.len() > 0,
            forall|i: int| 0 <= i < batch@.len() ==> (#[trigger] batch@[i]).wf(),
        ensures
            r.wf(),
            r@ == inter_seq(seq_views(batch@)),
    {
        let ghost vs = seq_views(batch@);
        let mut r = batch[0].duplicate();
        let mut i: usize = 1;
        while i < batch.len()
            invariant
                forall|j: int| 0 <= j < batch@.len() ==> (#[trigger] batch@[j]).wf(),
                vs == seq_views(batch@),
                r.wf(),
                1 <= i <= vs.len(),
                r@ == inter_seq(vs.take(i as int)),
            decreases batch.len() - i,
        {
            r.intersect_assign(&batch[i]);
            proof {
                assert(vs.take(i + 1).drop_last() =~= vs.take(i as int));
                assert(vs.take(i + 1).last() == vs[i as int]);
            }
            i += 1;
        }
        proof {
            assert(vs.take(vs.len() as int) =~= vs);
        }
        r
    }
}

proof fn lemma_take_step(s: Seq<Seq<u8>>, i: int)
    requires
        0 <= i < s.len(),
    ensures
        s.take(i + 1).to_set() == s.take(i).to_set().insert(s[i]),
{
    assert(s.take(i + 1).to_set() =~= s.take(i).to_set().insert(s[i])) by {
        assert forall|w: Seq<u8>| #[trigger] s.take(i + 1).to_set().contains(w) implies s.take(
            i,
        ).to_set().insert(s[i]).contains(w) by {
            let j = choose|j: int| 0 <= j < s.take(i + 1).len() && #[trigger] s.take(i + 1)[j] == w;
            if j < i {
                assert(s.take(i)[j] == w);
                assert(s.take(i).contains(w));
            }
        }
        assert forall|w: Seq<u8>| #[trigger] s.take(i).to_set().insert(s[i]).contains(w) implies s
            .take(i + 1).to_set().contains(w) by {
            if w == s[i] {
                assert(s.take(i + 1)[i] == w);
                assert(s.take(i + 1).contains(w));
            } else {
                let j = choose|j: int| 0 <= j < s.take(i).len() && #[trigger] s.take(i)[j] == w;
                assert(s.take(i + 1)[j] == w);
                assert(s.take(i + 1).contains(w));
            }
        }
    }
}

/// The words of `s` whose start index lies before `n`.
pub open spec fn windows_upto(s: Seq<u8>, n: int) -> Set<Seq<u8>> {
    Set::new(
        |w: Seq<u8>|
            exists|i: int|
                0 <= i < n && i + KMER_LEN <= s.len() && w == #[trigger] s.subrange(
                    i,
                    i + KMER_LEN as int,
                ),
    )
}

proof fn lemma_windows_upto_step(s: Seq<u8>, i: int)
    requires
        0 <= i,
        i + KMER_LEN <= s.len(),
    ensures
        windows_upto(s, i + 1) == windows_upto(s, i).insert(s.subrange(i, i + KMER_LEN as int)),
{
    assert(windows_upto(s, i + 1) =~= windows_upto(s, i).insert(
        s.subrange(i, i + KMER_LEN as int),
    ));
}

pub proof fn lemma_push_unique(s: Seq<Seq<u8>>, x: Seq<u8>)
    requires
        s.no_duplicates(),
        !s.to_set().contains(x),
    ensures
        s.push(x).no_duplicates(),
        s.push(x).to_set() == s.to_set().insert(x),
{
    assert forall|i: int, j: int|
        0 <= i < s.push(x).len() && 0 <= j < s.push(x).len() && i != j implies s.push(x)[i]
        != s.push(x)[j] by {
        if j == s.len() {
            assert(s.contains(s[i]));
        } else if i == s.len() {
            assert(s.contains(s[j]));
        }
    }
    assert(s.push(x).to_set() =~= s.to_set().insert(x)) by {
        assert forall|w: Seq<u8>| #[trigger] s.push(x).to_set().contains(w) implies s.to_set().insert(
            x,
        ).contains(w) by {
            let i = choose|i: int| 0 <= i < s.push(x).len() && s.push(x)[i] == w;
            if i < s.len() {
                assert(s.contains(w));
            }
        }
        assert forall|w: Seq<u8>| #[trigger] s.to_set().insert(x).contains(w) implies s.push(
            x,
        ).to_set().contains(w) by {
            if w == x {
                assert(s.push(x)[s.len() as int] == x);
                assert(s.push(x).contains(w));
            } else {
                let i = choose|i: int| 0 <= i < s.len() && s[i] == w;
                assert(s.push(x)[i] == w);
                assert(s.push(x).contains(w));
            }
        }
    }
}

/// Byte-for-byte equality of two words.
pub fn bytes_eq(a: &Vec<u8>, b: &Vec<u8>) -> (r: bool)
    ensures
        r == (a@ == b@),
{
    if a.len() != b.len() {
        return false;
    }
    let mut i: usize = 0;
    while i < a.len()
        invariant
            a.len() == b.len(),
            0 <= i <= a.len(),
            forall|j: int| 0 <= j < i ==> a@[j] == b@[j],
        decreases a.len() - i,
    {
        if a[i] != b[i] {
            return false;
        }
        i += 1;
    }
    proof {
        assert(a@ =~= b@);
    }
    true
}

/// A fresh copy of a word.
pub fn clone_bytes(v: &Vec<u8>) -> (r: Vec<u8>)
    ensures
        r@ == v@,
{
    let mut r: Vec<u8> = Vec::new();
    let mut i: usize = 0;
    while i < v.len()
        invariant
            0 <= i <= v.len(),
            r@ == v@.subrange(0, i as int),
        decreases v.len() - i,
    {
        r.push(v[i]);
        proof {
            assert(r@ =~= v@.subrange(0, i + 1));
        }
        i += 1;
    }
    proof {
        assert(r@ =~= v@);
    }
    r
}

impl View for Sketch {
    type V = Set<Seq<u8>>;

    /// A sketch denotes the set of words it holds.
    closed spec fn view(&self) -> Set<Seq<u8>> {
        self.kseq().to_set()
    }
}

} // verus!
