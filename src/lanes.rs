//! Splitting work across lanes round-robin, and merging the lanes' results
//! back into one globally ordered sequence.
use vstd::prelude::*;
use rayon::slice::ParallelSliceMut;
use crate::text::{text_le, text_order, lemma_text_order_total};
use vstd::relations::sorted_by;

verus! {

broadcast use vstd::seq_lib::group_to_multiset_ensures;

/// How many of the units `0..n` fall to lane `j` of `w`.
pub open spec fn lane_len(n: nat, w: nat, j: nat) -> nat
    recommends
        w > 0,
{
    if j < n % w { n / w + 1 } else { n / w }
}

/// The lanes of `units` across `w` workers: unit `i` goes to lane `i % w`,
/// at position `i / w`, and each lane holds exactly its share.
pub open spec fn is_partition<T>(units: Seq<T>, w: nat, lanes: Seq<Vec<T>>) -> bool {
    &&& lanes.len() == w
    &&& forall|j: int| 0 <= j < w ==> (#[trigger] lanes[j]).len() == lane_len(units.len(), w, j as nat)
    &&& placed(units, w, lanes, units.len() as int)
}

/// The number of items across all lanes.
pub open spec fn total_len<T>(lanes: Seq<Vec<T>>) -> nat
    decreases lanes.len(),
{
    if lanes.len() == 0 {
        0
    } else {
        total_len(lanes.drop_last()) + lanes.last()@.len()
    }
}

/// The lanes' items, lane after lane.
pub open spec fn joined<T>(lanes: Seq<Vec<T>>) -> Seq<T>
    decreases lanes.len(),
{
    if lanes.len() == 0 {
        Seq::empty()
    } else {
        joined(lanes.drop_last()) + lanes.last()@
    }
}

proof fn lemma_total_len_update<T>(lanes: Seq<Vec<T>>, j: int, lane: Vec<T>)
    requires
        0 <= j < lanes.len(),
    ensures
        total_len(lanes.update(j, lane)) == total_len(lanes) - lanes[j].len() + lane.len(),
    decreases lanes.len(),
{
    if j < lanes.len() - 1 {
        lemma_total_len_update(lanes.drop_last(), j, lane);
        assert(lanes.update(j, lane).drop_last() =~= lanes.drop_last().update(j, lane));
    } else {
        assert(lanes.update(j, lane).drop_last() =~= lanes.drop_last());
    }
}

proof fn lemma_total_len_empty<T>(lanes: Seq<Vec<T>>)
    requires
        forall|j: int| 0 <= j < lanes.len() ==> (#[trigger] lanes[j]).len() == 0,
    ensures
        total_len(lanes) == 0,
    decreases lanes.len(),
{
    if lanes.len() > 0 {
        lemma_total_len_empty(lanes.drop_last());
    }
}

proof fn lemma_step_div_mod(i: int, w: int)
    requires
        0 <= i,
        0 < w,
    ensures
        i == w * (i / w) + i % w,
        0 <= i % w < w,
        i % w + 1 < w ==> (i + 1) / w == i / w && (i + 1) % w == i % w + 1,
        i % w + 1 == w ==> (i + 1) / w == i / w + 1 && (i + 1) % w == 0,
{
    vstd::arithmetic::div_mod::lemma_fundamental_div_mod(i, w);
    vstd::arithmetic::div_mod::lemma_fundamental_div_mod(i + 1, w);
    let q = i / w;
    assert((q + 1) * w == q * w + w) by (nonlinear_arith);
    assert(q * w == w * q) by (nonlinear_arith);
    if i % w + 1 < w {
        vstd::arithmetic::div_mod::lemma_fundamental_div_mod_converse(i + 1, w, q, i % w + 1);
    } else {
        vstd::arithmetic::div_mod::lemma_fundamental_div_mod_converse(i + 1, w, q + 1, 0);
    }
}

/// The first `i` units of `units` sit in `lanes` where `is_partition` puts them.
pub open spec fn placed<T>(units: Seq<T>, w: nat, lanes: Seq<Vec<T>>, i: int) -> bool {
    forall|m: int| 0 <= m < i ==> #[trigger] in_slot(units, w, lanes, m)
}

/// Unit `m` sits in lane `m % w`, at position `m / w`.
pub open spec fn in_slot<T>(units: Seq<T>, w: nat, lanes: Seq<Vec<T>>, m: int) -> bool {
    &&& m / (w as int) < lanes[m % (w as int)].len()
    &&& lanes[m % (w as int)][m / (w as int)] == units[m]
}

proof fn lemma_placed_push<T>(units: Seq<T>, w: nat, before: Seq<Vec<T>>, after: Seq<Vec<T>>, i: int)
    requires
        w > 0,
        0 <= i < units.len(),
        placed(units, w, before, i),
        before.len() == w,
        before[i % (w as int)].len() == i / (w as int),
        after == before.update(i % (w as int), after[i % (w as int)]),
        after[i % (w as int)]@ == before[i % (w as int)]@.push(units[i]),
    ensures
        placed(units, w, after, i + 1),
{
    assert(placed(units, w, before, i));
    lemma_step_div_mod(i, w as int);
    let r = i % (w as int);
    assert forall|m: int| 0 <= m < i + 1 implies #[trigger] in_slot(units, w, after, m) by {
        lemma_step_div_mod(m, w as int);
        if m < i {
            assert(in_slot(units, w, before, m));
            if m % (w as int) == r {
                assert(after[r][m / (w as int)] == before[r][m / (w as int)]);
            }
        }
    }
}

/// Splits `units` into `w` lanes round-robin: unit `i` goes to lane `i % w`,
/// and each lane keeps the units' relative order. Every unit lands in
/// exactly one lane, so the lanes hold `units.len()` units in all.
pub fn partition<T>(units: Vec<T>, w: usize) -> (lanes: Vec<Vec<T>>)
    requires
        w > 0,
    ensures
        is_partition(units@, w as nat, lanes@),
        total_len(lanes@) == units.len(),
{
    let ghost s = units@;
    assert(s.len() == units.len());
    let mut lanes: Vec<Vec<T>> = Vec::new();
    let mut j: usize = 0;
    while j < w
        invariant
            j <= w,
            lanes.len() == j,
            forall|k: int| 0 <= k < j ==> (#[trigger] lanes[k]).len() == 0,
        decreases w - j,
    {
        lanes.push(Vec::new());
        j = j + 1;
    }
    proof {
        lemma_total_len_empty(lanes@);
    }
    let mut i: usize = 0;
    for u in it: units.into_iter()
        invariant
            it.seq() == s,
            i == it.index(),
            i <= s.len(),
            s.len() <= usize::MAX,
            w > 0,
            lanes.len() == w,
            forall|k: int| 0 <= k < w ==> (#[trigger] lanes[k]).len() == lane_len(i as nat, w as nat, k as nat),
            placed(s, w as nat, lanes@, i as int),
            total_len(lanes@) == i,
    {
        assert(it.index() < it.seq().len());
        proof { lemma_step_div_mod(i as int, w as int); }
        let r = i % w;
        let ghost before = lanes@;
        assert(lanes[r as int].len() == i / w);
        lanes[r].push(u);
        proof {
            lemma_total_len_update(before, r as int, lanes[r as int]);
            assert(lanes@ == before.update(r as int, lanes[r as int]));
            lemma_placed_push(s, w as nat, before, lanes@, i as int);
            assert forall|k: int| 0 <= k < w implies (#[trigger] lanes[k]).len()
                == lane_len((i + 1) as nat, w as nat, k as nat) by {
            }
        }
        i = i + 1;
    }
    assert(i == s.len());
    assert(forall|k: int| 0 <= k < w ==> (#[trigger] lanes[k]).len() == lane_len(s.len(), w as nat, k as nat));
    lanes
}

/// The texts of a sequence of strings.
pub open spec fn texts(s: Seq<String>) -> Seq<Seq<char>> {
    s.map_values(|x: String| x@)
}

/// `r` is the aggregate of `lanes`: all of their items, and no others, in
/// the order of their texts.
pub open spec fn aggregated(lanes: Seq<Vec<String>>, r: Seq<String>) -> bool {
    &&& r.to_multiset() == joined(lanes).to_multiset()
    &&& sorted_by(texts(r), text_order())
}

/// Relies on rayon's `ParallelSliceMut::par_sort`: it permutes the items so
/// that they ascend by `Ord for String`, the lexicographic order of their
/// characters by code point.
#[verifier::external_body]
fn sort_texts(v: &mut Vec<String>)
    ensures
        final(v)@.to_multiset() == old(v)@.to_multiset(),
        sorted_by(texts(final(v)@), text_order()),
{
    v.par_sort();
}

/// The items of `lanes`, lane after lane.
pub fn concat_lanes<T>(lanes: Vec<Vec<T>>) -> (r: Vec<T>)
    ensures
        r@ == joined(lanes@),
{
    let ghost s = lanes@;
    let mut r: Vec<T> = Vec::new();
    for lane in it: lanes.into_iter()
        invariant
            it.seq() == s,
            it.index() <= s.len(),
            r@ == joined(s.subrange(0, it.index() as int)),
    {
        assert(it.index() < it.seq().len());
        let mut lane = lane;
        let ghost k = it.index() as int;
        assert(s.subrange(0, k + 1).drop_last() =~= s.subrange(0, k));
        r.append(&mut lane);
    }
    assert(s.subrange(0, s.len() as int) =~= s);
    r
}

/// Merges the lanes' addresses into one sequence in the order of their
/// texts, whatever order the lanes came in.
pub fn aggregate(lanes: Vec<Vec<String>>) -> (r: Vec<String>)
    ensures
        aggregated(lanes@, r@),
{
    let mut r = concat_lanes(lanes);
    sort_texts(&mut r);
    r
}

proof fn lemma_texts_multiset(a: Seq<String>, b: Seq<String>)
    requires
        a.to_multiset() == b.to_multiset(),
    ensures
        texts(a).to_multiset() == texts(b).to_multiset(),
    decreases a.len(),
{
    broadcast use vstd::multiset::group_multiset_axioms;
    if a.len() == 0 {
        assert(b.to_multiset().len() == b.len());
        assert(b.len() == 0);
        assert(texts(a) =~= texts(b));
    } else {
        let x = a.last();
        assert(a.to_multiset().count(x) > 0) by {
            assert(a.contains(x));
        }
        assert(b.contains(x));
        let p = choose|p: int| 0 <= p < b.len() && b[p] == x;
        assert(a.drop_last() =~= a.remove(a.len() - 1));
        lemma_texts_multiset(a.drop_last(), b.remove(p));
        assert(texts(a) =~= texts(a.drop_last()).push(x@));
        assert(texts(b.remove(p)) =~= texts(b).remove(p));
        assert(texts(b)[p] == x@);
        assert(texts(b).to_multiset().count(x@) > 0) by {
            assert(texts(b).contains(x@));
        }
        assert(texts(b).to_multiset() =~= texts(b).remove(p).to_multiset().insert(x@));
    }
}

proof fn lemma_joined_remove<T>(l: Seq<Vec<T>>, p: int)
    requires
        0 <= p < l.len(),
    ensures
        joined(l).to_multiset() == joined(l.remove(p)).to_multiset().add(l[p]@.to_multiset()),
    decreases l.len(),
{
    broadcast use vstd::multiset::group_multiset_axioms;
    broadcast use vstd::seq_lib::lemma_multiset_commutative;
    if p == l.len() - 1 {
        assert(l.remove(p) =~= l.drop_last());
    } else {
        lemma_joined_remove(l.drop_last(), p);
        assert(l.remove(p).drop_last() =~= l.drop_last().remove(p));
        assert(l.remove(p).last() == l.last());
        assert(joined(l).to_multiset() =~= joined(l.remove(p)).to_multiset().add(l[p]@.to_multiset()));
    }
}

proof fn lemma_joined_permutation<T>(l1: Seq<Vec<T>>, l2: Seq<Vec<T>>)
    requires
        l1.to_multiset() == l2.to_multiset(),
    ensures
        joined(l1).to_multiset() == joined(l2).to_multiset(),
    decreases l1.len(),
{
    broadcast use vstd::multiset::group_multiset_axioms;
    broadcast use vstd::seq_lib::lemma_multiset_commutative;
    if l1.len() == 0 {
        assert(l2.to_multiset().len() == l2.len());
        assert(l2.len() == 0);
        assert(l1 =~= l2);
    } else {
        let x = l1.last();
        assert(l1.contains(x));
        assert(l1.to_multiset().count(x) > 0);
        assert(l2.to_multiset().count(x) > 0);
        assert(l2.contains(x));
        let p = choose|p: int| 0 <= p < l2.len() && l2[p] == x;
        assert(l1.drop_last() =~= l1.remove(l1.len() - 1));
        lemma_joined_permutation(l1.drop_last(), l2.remove(p));
        lemma_joined_remove(l2, p);
    }
}

/// Aggregation depends only on the set of items: lanes of any number, in
/// any order and split in any way, that hold the same items in all yield
/// the same address texts in the same order.
pub proof fn lemma_aggregate_order_independent(
    l1: Seq<Vec<String>>,
    l2: Seq<Vec<String>>,
    r1: Seq<String>,
    r2: Seq<String>,
)
    requires
        joined(l1).to_multiset() == joined(l2).to_multiset(),
        aggregated(l1, r1),
        aggregated(l2, r2),
    ensures
        texts(r1) == texts(r2),
{
    lemma_texts_multiset(r1, r2);
    lemma_text_order_total();
    vstd::seq_lib::lemma_sorted_unique(texts(r1), texts(r2), text_order());
}

proof fn lemma_joined_len<T>(lanes: Seq<Vec<T>>)
    ensures
        joined(lanes).len() == total_len(lanes),
    decreases lanes.len(),
{
    if lanes.len() > 0 {
        lemma_joined_len(lanes.drop_last());
    }
}

/// Aggregation neither loses nor adds items: the aggregate is exactly as
/// long as the lanes together.
pub proof fn lemma_aggregate_len(lanes: Seq<Vec<String>>, r: Seq<String>)
    requires
        aggregated(lanes, r),
    ensures
        r.len() == total_len(lanes),
{
    lemma_joined_len(lanes);
    assert(r.to_multiset().len() == r.len());
    assert(joined(lanes).to_multiset().len() == joined(lanes).len());
}

/// In particular, the order in which the lanes complete does not matter:
/// the same lanes, in any order, yield the same address texts in the same
/// order.
pub proof fn lemma_aggregate_completion_order(
    l1: Seq<Vec<String>>,
    l2: Seq<Vec<String>>,
    r1: Seq<String>,
    r2: Seq<String>,
)
    requires
        l1.to_multiset() == l2.to_multiset(),
        aggregated(l1, r1),
        aggregated(l2, r2),
    ensures
        texts(r1) == texts(r2),
{
    lemma_joined_permutation(l1, l2);
    lemma_aggregate_order_independent(l1, l2, r1, r2);
}

/// Aggregation is idempotent: splitting a sorted sequence `r` into any
/// lanes, in any order, and aggregating them yields the texts of `r` in
/// the same order.
pub proof fn lemma_aggregate_idempotent(r: Seq<String>, lanes: Seq<Vec<String>>, r2: Seq<String>)
    requires
        sorted_by(texts(r), text_order()),
        joined(lanes).to_multiset() == r.to_multiset(),
        aggregated(lanes, r2),
    ensures
        texts(r2) == texts(r),
{
    lemma_texts_multiset(r2, r);
    lemma_text_order_total();
    vstd::seq_lib::lemma_sorted_unique(texts(r2), texts(r), text_order());
}

/// The keys of a sequence of keyed items.
pub open spec fn keys<P>(s: Seq<(String, P)>) -> Seq<Seq<char>> {
    s.map_values(|x: (String, P)| x.0@)
}

/// `r` is the aggregate of keyed `lanes`: all of their items, and no
/// others, in the order of their keys.
pub open spec fn keyed_aggregated<P>(lanes: Seq<Vec<(String, P)>>, r: Seq<(String, P)>) -> bool {
    &&& r.to_multiset() == joined(lanes).to_multiset()
    &&& sorted_by(keys(r), text_order())
}

/// Relies on rayon's `ParallelSliceMut::par_sort_by_key` with the first
/// field as key: it permutes the items so that their keys ascend by
/// `Ord for String`, the lexicographic order of characters by code point.
#[verifier::external_body]
fn sort_by_key_text<P: Send>(v: &mut Vec<(String, P)>)
    ensures
        final(v)@.to_multiset() == old(v)@.to_multiset(),
        sorted_by(keys(final(v)@), text_order()),
{
    v.par_sort_by_key(|item| item.0.clone());
}

/// Merges the lanes' keyed payloads into one sequence in the order of their
/// keys, whatever order the lanes came in.
pub fn aggregate_keyed<P: Send>(lanes: Vec<Vec<(String, P)>>) -> (r: Vec<(String, P)>)
    ensures
        keyed_aggregated(lanes@, r@),
{
    let mut r = concat_lanes(lanes);
    sort_by_key_text(&mut r);
    r
}

proof fn lemma_keys_multiset<P>(a: Seq<(String, P)>, b: Seq<(String, P)>)
    requires
        a.to_multiset() == b.to_multiset(),
    ensures
        keys(a).to_multiset() == keys(b).to_multiset(),
    decreases a.len(),
{
    broadcast use vstd::multiset::group_multiset_axioms;
    if a.len() == 0 {
        assert(b.to_multiset().len() == b.len());
        assert(keys(a) =~= keys(b));
    } else {
        let x = a.last();
        assert(a.to_multiset().count(x) > 0) by {
            assert(a.contains(x));
        }
        assert(b.contains(x));
        let p = choose|p: int| 0 <= p < b.len() && b[p] == x;
        assert(a.drop_last() =~= a.remove(a.len() - 1));
        lemma_keys_multiset(a.drop_last(), b.remove(p));
        assert(keys(a) =~= keys(a.drop_last()).push(x.0@));
        assert(keys(b.remove(p)) =~= keys(b).remove(p));
        assert(keys(b)[p] == x.0@);
        assert(keys(b).to_multiset().count(x.0@) > 0) by {
            assert(keys(b).contains(x.0@));
        }
        assert(keys(b).to_multiset() =~= keys(b).remove(p).to_multiset().insert(x.0@));
    }
}

/// Aggregating keyed payloads depends only on the set of items: lanes of
/// any number, in any order and split in any way, that hold the same items
/// in all yield the same keys in the same order.
pub proof fn lemma_aggregate_keyed_order_independent<P>(
    l1: Seq<Vec<(String, P)>>,
    l2: Seq<Vec<(String, P)>>,
    r1: Seq<(String, P)>,
    r2: Seq<(String, P)>,
)
    requires
        joined(l1).to_multiset() == joined(l2).to_multiset(),
        keyed_aggregated(l1, r1),
        keyed_aggregated(l2, r2),
    ensures
        keys(r1) == keys(r2),
{
    lemma_keys_multiset(r1, r2);
    lemma_text_order_total();
    vstd::seq_lib::lemma_sorted_unique(keys(r1), keys(r2), text_order());
}

/// No key occurs twice among `s`.
pub open spec fn unique_keys<P>(s: Seq<(String, P)>) -> bool {
    forall|k: Seq<char>| #[trigger] keys(s).to_multiset().count(k) <= 1
}

proof fn lemma_two_positions_count<A>(s: Seq<A>, i: int, j: int)
    requires
        0 <= i < s.len(),
        0 <= j < s.len(),
        i != j,
        s[i] == s[j],
    ensures
        s.to_multiset().count(s[i]) >= 2,
{
    broadcast use vstd::multiset::group_multiset_axioms;
    let t = s.remove(i);
    let jj = if j < i { j } else { j - 1 };
    assert(t[jj] == s[j]);
    assert(t.contains(s[i]));
    assert(t.to_multiset().count(s[i]) > 0);
    assert(t.to_multiset() =~= s.to_multiset().remove(s[i]));
}

/// When no file name repeats, aggregating keyed payloads depends only on
/// the set of items: the same items, in lanes of any number and order,
/// yield the same keyed payloads in the same order.
pub proof fn lemma_aggregate_keyed_unique<P>(
    l1: Seq<Vec<(String, P)>>,
    l2: Seq<Vec<(String, P)>>,
    r1: Seq<(String, P)>,
    r2: Seq<(String, P)>,
)
    requires
        joined(l1).to_multiset() == joined(l2).to_multiset(),
        unique_keys(joined(l1)),
        keyed_aggregated(l1, r1),
        keyed_aggregated(l2, r2),
    ensures
        r1 == r2,
{
    broadcast use vstd::multiset::group_multiset_axioms;
    lemma_aggregate_keyed_order_independent(l1, l2, r1, r2);
    lemma_keys_multiset(r2, joined(l1));
    assert(keys(r1).len() == r1.len() && keys(r2).len() == r2.len());
    assert forall|i: int| 0 <= i < r1.len() implies r1[i] == r2[i] by {
        assert(r1.to_multiset().count(r1[i]) > 0) by {
            assert(r1.contains(r1[i]));
        }
        assert(r2.to_multiset().count(r1[i]) > 0);
        assert(r2.contains(r1[i]));
        let j = choose|j: int| 0 <= j < r2.len() && r2[j] == r1[i];
        assert(keys(r1)[i] == r1[i].0@);
        assert(keys(r2)[j] == r2[j].0@);
        assert(keys(r2)[i] == keys(r1)[i]);
        if j != i {
            lemma_two_positions_count(keys(r2), i, j);
            assert(keys(r2).to_multiset().count(keys(r2)[i]) <= 1);
        }
    }
    assert(r1 =~= r2);
}

/// One lane's sequential run: the units it has still to process, in order,
/// how many it has started (its progress counter), and the results gathered
/// so far. Lanes share no state; each owns its runner.
pub struct LaneRunner<U, R> {
    pending: Vec<U>,
    started: usize,
    total: usize,
    results: Vec<R>,
}

impl<U, R> LaneRunner<U, R> {
    /// The units not yet started, next first.
    pub closed spec fn remaining(&self) -> Seq<U> {
        self.pending@.reverse()
    }

    /// How many units have been started.
    pub closed spec fn started(&self) -> nat {
        self.started as nat
    }

    /// The results gathered so far, in the order they were recorded.
    pub closed spec fn results(&self) -> Seq<R> {
        self.results@
    }

    /// The runner's counters agree with what it holds.
    pub closed spec fn wf(&self) -> bool {
        self.started + self.pending@.len() == self.total
    }

    /// A runner that will process `units` in order.
    pub fn new(units: Vec<U>) -> (r: Self)
        ensures
            r.wf(),
            r.remaining() == units@,
            r.started() == 0,
            r.results() == Seq::<R>::empty(),
    {
        let ghost all = units@;
        let total = units.len();
        let mut units = units;
        let mut pending: Vec<U> = Vec::new();
        while units.len() > 0
            invariant
                units@.len() <= all.len(),
                units@ == all.subrange(0, units@.len() as int),
                pending@ == all.subrange(units@.len() as int, all.len() as int).reverse(),
            decreases units.len(),
        {
            let ghost k = units@.len() as int;
            let u = units.pop().unwrap();
            pending.push(u);
            proof {
                assert(units@ =~= all.subrange(0, k - 1));
                assert(pending@ =~= all.subrange(k - 1, all.len() as int).reverse());
            }
        }
        assert(all.subrange(0, all.len() as int) =~= all);
        LaneRunner { pending, started: 0, total, results: Vec::new() }
    }

    /// Starts the next unit: hands it out and advances the progress
    /// counter; `None` once the lane is exhausted.
    pub fn next_unit(&mut self) -> (r: Option<U>)
        requires
            old(self).wf(),
        ensures
            final(self).wf(),
            final(self).results() == old(self).results(),
            old(self).remaining().len() == 0 ==> r is None && final(self).remaining() == old(self).remaining()
                && final(self).started() == old(self).started(),
            old(self).remaining().len() > 0 ==> r == Some(old(self).remaining()[0])
                && final(self).remaining() == old(self).remaining().drop_first()
                && final(self).started() == old(self).started() + 1,
    {
        let ghost before = self.pending@;
        match self.pending.pop() {
            None => {
                assert(self.pending@.reverse() =~= before.reverse());
                None
            },
            Some(u) => {
                self.started = self.started + 1;
                proof {
                    assert(self.pending@.reverse() =~= before.reverse().drop_first());
                    assert(before.reverse()[0] == u);
                }
                Some(u)
            },
        }
    }

    /// How many units have been started.
    pub fn progress(&self) -> (r: usize)
        ensures
            r == self.started(),
    {
        self.started
    }

    /// Appends the results of the unit last started.
    pub fn record(&mut self, out: Vec<R>)
        requires
            old(self).wf(),
        ensures
            final(self).wf(),
            final(self).remaining() == old(self).remaining(),
            final(self).started() == old(self).started(),
            final(self).results() == old(self).results() + out@,
    {
        let mut out = out;
        self.results.append(&mut out);
    }

    /// The lane's results, in the order they were recorded.
    pub fn finish(self) -> (r: Vec<R>)
        ensures
            r@ == self.results(),
    {
        self.results
    }
}

} // verus!
