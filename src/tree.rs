//! Threshold splits of a group and the greedy tree grown from them.
use vstd::prelude::*;
use vstd::seq_lib::lemma_multiset_commutative;
use crate::dataset::{Item, valid_group, pure_group, is_pure};

verus! {

/// Every item has exactly `nf` feature values.
pub open spec fn well_formed(items: Seq<Item>, nf: usize) -> bool {
    forall|i: int| 0 <= i < items.len() ==> (#[trigger] items[i]).features@.len() == nf
}

/// Every feature identifier lies in `1..=nf`.
pub open spec fn valid_features(feats: Seq<usize>, nf: usize) -> bool {
    forall|k: int| 0 <= k < feats.len() ==> 1 <= #[trigger] feats[k] <= nf
}

/// The value of feature `f` (counted from 1) of item `i`.
pub open spec fn value(items: Seq<Item>, i: usize, f: usize) -> i32 {
    items[i as int].features@[f - 1]
}

/// The items of `group` whose value at `f` lies below `t`, in order.
pub open spec fn left_part(items: Seq<Item>, group: Seq<usize>, f: usize, t: i32) -> Seq<usize>
    decreases group.len(),
{
    if group.len() == 0 {
        Seq::empty()
    } else {
        let p = left_part(items, group.drop_last(), f, t);
        if value(items, group.last(), f) < t {
            p.push(group.last())
        } else {
            p
        }
    }
}

/// The items of `group` whose value at `f` is at least `t`, in order.
pub open spec fn right_part(items: Seq<Item>, group: Seq<usize>, f: usize, t: i32) -> Seq<usize>
    decreases group.len(),
{
    if group.len() == 0 {
        Seq::empty()
    } else {
        let p = right_part(items, group.drop_last(), f, t);
        if value(items, group.last(), f) < t {
            p
        } else {
            p.push(group.last())
        }
    }
}

/// The two parts together hold exactly the items of the group.
pub proof fn lemma_parts_partition(items: Seq<Item>, group: Seq<usize>, f: usize, t: i32)
    ensures
        left_part(items, group, f, t).to_multiset().add(right_part(items, group, f, t).to_multiset())
            =~= group.to_multiset(),
        left_part(items, group, f, t).len() + right_part(items, group, f, t).len() == group.len(),
        forall|k: int|
            0 <= k < left_part(items, group, f, t).len() ==> group.contains(
                #[trigger] left_part(items, group, f, t)[k],
            ),
        forall|k: int|
            0 <= k < right_part(items, group, f, t).len() ==> group.contains(
                #[trigger] right_part(items, group, f, t)[k],
            ),
    decreases group.len(),
{
    broadcast use vstd::seq_lib::group_to_multiset_ensures;

    if group.len() > 0 {
        let g = group.drop_last();
        lemma_parts_partition(items, g, f, t);
        assert(group == g.push(group.last()));
        assert forall|x: usize| g.contains(x) implies group.contains(x) by {
            let k = choose|k: int| 0 <= k < g.len() && g[k] == x;
            assert(group[k] == x);
        }
        assert(group[group.len() - 1] == group.last());
    }
}

/// Splits `group` by feature `f` at threshold `t`: the items whose value
/// lies below `t` go left, all others right, each side in the group's order.
pub fn split_group(items: &Vec<Item>, group: &Vec<usize>, f: usize, t: i32) -> (r: (
    Vec<usize>,
    Vec<usize>,
))
    requires
        valid_group(items@, group@),
        1 <= f,
        forall|k: int| 0 <= k < group.len() ==> f <= items@[#[trigger] group@[k] as int].features@.len(),
    ensures
        r.0@ == left_part(items@, group@, f, t),
        r.1@ == right_part(items@, group@, f, t),
{
    let mut left: Vec<usize> = Vec::new();
    let mut right: Vec<usize> = Vec::new();
    let mut k: usize = 0;
    while k < group.len()
        invariant
            0 <= k <= group.len(),
            valid_group(items@, group@),
            1 <= f,
            forall|q: int| 0 <= q < group.len() ==> f <= items@[#[trigger] group@[q] as int].features@.len(),
            left@ == left_part(items@, group@.take(k as int), f, t),
            right@ == right_part(items@, group@.take(k as int), f, t),
        decreases group.len() - k,
    {
        let i = group[k];
        assert(group@.take(k + 1).drop_last() == group@.take(k as int));
        assert(group@.take(k + 1).last() == i);
        if items[i].features[f - 1] < t {
            left.push(i);
        } else {
            right.push(i);
        }
        k = k + 1;
    }
    assert(group@.take(group.len() as int) == group@);
    (left, right)
}

/// The indices of all leaves, one leaf after another.
pub open spec fn flatten(leaves: Seq<Vec<usize>>) -> Seq<usize>
    decreases leaves.len(),
{
    if leaves.len() == 0 {
        Seq::empty()
    } else {
        flatten(leaves.drop_last()) + leaves.last()@
    }
}

pub proof fn lemma_flatten_append(a: Seq<Vec<usize>>, b: Seq<Vec<usize>>)
    ensures
        flatten(a + b) == flatten(a) + flatten(b),
    decreases b.len(),
{
    if b.len() == 0 {
        assert(a + b == a);
        assert(flatten(b) == Seq::<usize>::empty());
        assert(flatten(a) + flatten(b) == flatten(a));
    } else {
        lemma_flatten_append(a, b.drop_last());
        assert((a + b).drop_last() == a + b.drop_last());
        assert((a + b).last() == b.last());
        assert(flatten(a) + flatten(b) == flatten(a) + flatten(b.drop_last()) + b.last()@);
    }
}

/// `leaves` is a partition of `group` into non-empty groups.
pub open spec fn partitions(leaves: Seq<Vec<usize>>, group: Seq<usize>) -> bool {
    &&& leaves.len() >= 1
    &&& forall|k: int| 0 <= k < leaves.len() ==> (#[trigger] leaves[k])@.len() > 0
    &&& flatten(leaves).to_multiset() == group.to_multiset()
}

/// `l` and `r` are two non-empty parts that together hold the items of `group`.
pub open spec fn is_split(l: Seq<usize>, r: Seq<usize>, group: Seq<usize>) -> bool {
    &&& l.len() > 0
    &&& r.len() > 0
    &&& l.len() + r.len() == group.len()
    &&& l.to_multiset().add(r.to_multiset()) == group.to_multiset()
    &&& forall|k: int| 0 <= k < l.len() ==> group.contains(#[trigger] l[k])
    &&& forall|k: int| 0 <= k < r.len() ==> group.contains(#[trigger] r[k])
}

proof fn lemma_sub_group_valid(items: Seq<Item>, part: Seq<usize>, group: Seq<usize>)
    requires
        valid_group(items, group),
        forall|k: int| 0 <= k < part.len() ==> group.contains(#[trigger] part[k]),
    ensures
        valid_group(items, part),
{
    assert forall|k: int| 0 <= k < part.len() implies (#[trigger] part[k]) < items.len() by {
        assert(group.contains(part[k]));
    }
}

/// `group_key` gives one key for each list of indices: calls on vectors with
/// the same contents return the same key.
pub open spec fn group_key_fn<G: Fn(&Vec<usize>) -> u64>(group_key: &G) -> bool {
    forall|a: Vec<usize>, b: Vec<usize>, x: u64, y: u64|
        a@ == b@ && #[trigger] group_key.ensures((&a,), x) && #[trigger] group_key.ensures((&b,), y)
            ==> x == y
}

/// `split_key` gives one key for each pair of index lists.
pub open spec fn split_key_fn<S: Fn(&Vec<usize>, &Vec<usize>) -> u64>(split_key: &S) -> bool {
    forall|a: Vec<usize>, b: Vec<usize>, c: Vec<usize>, d: Vec<usize>, x: u64, y: u64|
        a@ == c@ && b@ == d@ && #[trigger] split_key.ensures((&a, &b), x)
            && #[trigger] split_key.ensures((&c, &d), y) ==> x == y
}

/// A call of `group_key` on a vector holding `g` can return `w`.
pub open spec fn gives_gkey<G: Fn(&Vec<usize>) -> u64>(group_key: &G, g: Seq<usize>, w: u64) -> bool {
    exists|a: Vec<usize>| a@ == g && #[trigger] group_key.ensures((&a,), w)
}

/// The key that `group_key` gives to a group with these indices.
pub open spec fn gkey<G: Fn(&Vec<usize>) -> u64>(group_key: &G, g: Seq<usize>) -> u64 {
    choose|w: u64| gives_gkey(group_key, g, w)
}

/// The key that `split_key` gives to the split into `l` and `r`.
pub open spec fn skey<S: Fn(&Vec<usize>, &Vec<usize>) -> u64>(
    split_key: &S,
    l: Seq<usize>,
    r: Seq<usize>,
) -> u64 {
    choose|w: u64| gives_skey(split_key, l, r, w)
}

/// A call of `split_key` on vectors holding `l` and `r` can return `w`.
pub open spec fn gives_skey<S: Fn(&Vec<usize>, &Vec<usize>) -> u64>(
    split_key: &S,
    l: Seq<usize>,
    r: Seq<usize>,
    w: u64,
) -> bool {
    exists|a: Vec<usize>, b: Vec<usize>| a@ == l && b@ == r && #[trigger] split_key.ensures((&a, &b), w)
}

pub proof fn lemma_gkey<G: Fn(&Vec<usize>) -> u64>(group_key: &G, a: Vec<usize>, w: u64)
    requires
        group_key_fn(group_key),
        group_key.ensures((&a,), w),
    ensures
        gkey(group_key, a@) == w,
{
    let v = gkey(group_key, a@);
    assert(gives_gkey(group_key, a@, w));
    let b = choose|b: Vec<usize>| b@ == a@ && #[trigger] group_key.ensures((&b,), v);
    assert(group_key.ensures((&b,), v));
}

pub proof fn lemma_skey<S: Fn(&Vec<usize>, &Vec<usize>) -> u64>(
    split_key: &S,
    a: Vec<usize>,
    b: Vec<usize>,
    w: u64,
)
    requires
        split_key_fn(split_key),
        split_key.ensures((&a, &b), w),
    ensures
        skey(split_key, a@, b@) == w,
{
    let v = skey(split_key, a@, b@);
    assert(gives_skey(split_key, a@, b@, w));
    let (c, d) = choose|c: Vec<usize>, d: Vec<usize>| c@ == a@ && d@ == b@ && #[trigger] split_key.ensures((&c, &d), v);
    assert(split_key.ensures((&c, &d), v));
}

/// The split chosen so far, if any, and the best key so far.
pub type Scan = (Option<(Seq<usize>, Seq<usize>)>, u64);

/// One candidate, feature `f` at threshold `t`: it replaces the choice when
/// both sides are non-empty and its key is strictly below the best key.
pub open spec fn step<S: Fn(&Vec<usize>, &Vec<usize>) -> u64>(
    items: Seq<Item>,
    group: Seq<usize>,
    f: usize,
    t: i32,
    split_key: &S,
    st: Scan,
) -> Scan {
    let l = left_part(items, group, f, t);
    let r = right_part(items, group, f, t);
    if l.len() > 0 && r.len() > 0 && skey(split_key, l, r) < st.1 {
        (Some((l, r)), skey(split_key, l, r))
    } else {
        st
    }
}

/// The candidates of feature `f` at the values of the first `b` items of the
/// group, in the group's order.
pub open spec fn scan_items<S: Fn(&Vec<usize>, &Vec<usize>) -> u64>(
    items: Seq<Item>,
    group: Seq<usize>,
    f: usize,
    split_key: &S,
    b: nat,
    st: Scan,
) -> Scan
    decreases b,
{
    if b == 0 {
        st
    } else {
        let prev = scan_items(items, group, f, split_key, (b - 1) as nat, st);
        step(items, group, f, value(items, group[b - 1], f), split_key, prev)
    }
}

/// The candidates of the first `a` features of `feats`, in order.
pub open spec fn scan_feats<S: Fn(&Vec<usize>, &Vec<usize>) -> u64>(
    items: Seq<Item>,
    group: Seq<usize>,
    feats: Seq<usize>,
    split_key: &S,
    a: nat,
    st: Scan,
) -> Scan
    decreases a,
{
    if a == 0 {
        st
    } else {
        let prev = scan_feats(items, group, feats, split_key, (a - 1) as nat, st);
        scan_items(items, group, feats[a - 1], split_key, group.len(), prev)
    }
}

/// The split that the greedy tree takes at `group`: the first candidate
/// whose key is smallest and strictly below the group's own key, if any.
pub open spec fn chosen_split<G, S>(
    items: Seq<Item>,
    group: Seq<usize>,
    feats: Seq<usize>,
    group_key: &G,
    split_key: &S,
) -> Option<(Seq<usize>, Seq<usize>)> where
    G: Fn(&Vec<usize>) -> u64,
    S: Fn(&Vec<usize>, &Vec<usize>) -> u64,
 {
    scan_feats(items, group, feats, split_key, feats.len(), (None, gkey(group_key, group))).0
}

/// The leaves of the greedy tree over `group`: a pure group, or one without
/// a chosen split, is a leaf; otherwise the leaves of the left side come
/// before those of the right side.
pub open spec fn greedy_leaves<G, S>(
    items: Seq<Item>,
    group: Seq<usize>,
    feats: Seq<usize>,
    group_key: &G,
    split_key: &S,
) -> Seq<Seq<usize>> where
    G: Fn(&Vec<usize>) -> u64,
    S: Fn(&Vec<usize>, &Vec<usize>) -> u64,

    decreases group.len(),
{
    if pure_group(items, group) {
        seq![group]
    } else {
        match chosen_split(items, group, feats, group_key, split_key) {
            Some(p) => if p.0.len() < group.len() && p.1.len() < group.len() {
                greedy_leaves(items, p.0, feats, group_key, split_key) + greedy_leaves(
                    items,
                    p.1,
                    feats,
                    group_key,
                    split_key,
                )
            } else {
                seq![group]
            },
            None => seq![group],
        }
    }
}

/// The contents of each vector.
pub open spec fn views(v: Seq<Vec<usize>>) -> Seq<Seq<usize>> {
    v.map_values(|x: Vec<usize>| x@)
}

/// The choice held by the search loop, seen as index sequences.
pub open spec fn choice_view(best: Option<(Vec<usize>, Vec<usize>)>) -> Option<(Seq<usize>, Seq<usize>)> {
    match best {
        Some(p) => Some((p.0@, p.1@)),
        None => None,
    }
}

/// A split that the scan chose is a threshold split on a feature of `feats`
/// whose key lies strictly below the key it started from.
pub proof fn lemma_scan_improves<S: Fn(&Vec<usize>, &Vec<usize>) -> u64>(
    items: Seq<Item>,
    group: Seq<usize>,
    feats: Seq<usize>,
    split_key: &S,
    a: nat,
    k0: u64,
)
    requires
        a <= feats.len(),
    ensures
        scan_feats(items, group, feats, split_key, a, (None, k0)).1 <= k0,
        scan_feats(items, group, feats, split_key, a, (None, k0)).0 matches Some(p) ==> {
            &&& skey(split_key, p.0, p.1) == scan_feats(items, group, feats, split_key, a, (None, k0)).1
            &&& skey(split_key, p.0, p.1) < k0
            &&& p.0.len() > 0
            &&& p.1.len() > 0
            &&& exists|x: int, y: int|
                0 <= x < feats.len() && 0 <= y < group.len() && p.0 == left_part(
                    items,
                    group,
                    feats[x],
                    value(items, group[y], feats[x]),
                ) && p.1 == right_part(items, group, feats[x], value(items, group[y], feats[x]))
        },
    decreases a,
{
    if a > 0 {
        lemma_scan_improves(items, group, feats, split_key, (a - 1) as nat, k0);
        lemma_scan_items_improves(
            items,
            group,
            feats,
            (a - 1) as nat,
            split_key,
            group.len(),
            scan_feats(items, group, feats, split_key, (a - 1) as nat, (None, k0)),
            k0,
        );
    }
}

proof fn lemma_scan_items_improves<S: Fn(&Vec<usize>, &Vec<usize>) -> u64>(
    items: Seq<Item>,
    group: Seq<usize>,
    feats: Seq<usize>,
    x: nat,
    split_key: &S,
    b: nat,
    st: Scan,
    k0: u64,
)
    requires
        x < feats.len(),
        b <= group.len(),
        st.1 <= k0,
        st.0 matches Some(p) ==> {
            &&& skey(split_key, p.0, p.1) == st.1
            &&& skey(split_key, p.0, p.1) < k0
            &&& p.0.len() > 0
            &&& p.1.len() > 0
            &&& exists|x: int, y: int|
                0 <= x < feats.len() && 0 <= y < group.len() && p.0 == left_part(
                    items,
                    group,
                    feats[x],
                    value(items, group[y], feats[x]),
                ) && p.1 == right_part(items, group, feats[x], value(items, group[y], feats[x]))
        },
    ensures
        ({
            let s = scan_items(items, group, feats[x as int], split_key, b, st);
            &&& s.1 <= k0
            &&& s.0 matches Some(p) ==> {
                &&& skey(split_key, p.0, p.1) == s.1
                &&& skey(split_key, p.0, p.1) < k0
            &&& p.0.len() > 0
            &&& p.1.len() > 0
                &&& exists|x: int, y: int|
                    0 <= x < feats.len() && 0 <= y < group.len() && p.0 == left_part(
                        items,
                        group,
                        feats[x],
                        value(items, group[y], feats[x]),
                    ) && p.1 == right_part(items, group, feats[x], value(items, group[y], feats[x]))
            }
        }),
    decreases b,
{
    if b > 0 {
        lemma_scan_items_improves(items, group, feats, x, split_key, (b - 1) as nat, st, k0);
        let f = feats[x as int];
        let t = value(items, group[b - 1], f);
        let prev = scan_items(items, group, f, split_key, (b - 1) as nat, st);
        let l = left_part(items, group, f, t);
        let r = right_part(items, group, f, t);
        if l.len() > 0 && r.len() > 0 && skey(split_key, l, r) < prev.1 {
            assert(l == left_part(items, group, feats[x as int], value(items, group[b - 1], feats[x as int])));
        }
    }
}

proof fn lemma_greedy_nonempty<G, S>(
    items: Seq<Item>,
    group: Seq<usize>,
    feats: Seq<usize>,
    group_key: &G,
    split_key: &S,
) where G: Fn(&Vec<usize>) -> u64, S: Fn(&Vec<usize>, &Vec<usize>) -> u64
    ensures
        greedy_leaves(items, group, feats, group_key, split_key).len() >= 1,
    decreases group.len(),
{
    if !pure_group(items, group) {
        if let Some(p) = chosen_split(items, group, feats, group_key, split_key) {
            if p.0.len() < group.len() && p.1.len() < group.len() {
                lemma_greedy_nonempty(items, p.0, feats, group_key, split_key);
                lemma_greedy_nonempty(items, p.1, feats, group_key, split_key);
            }
        }
    }
}

/// A group stays one leaf exactly when it is pure or no candidate split has
/// a key below the group's own key; the split taken otherwise is a threshold
/// split on a feature of `feats`, at the value of an item of the group, with
/// two non-empty sides, and its key is strictly below the group's key.
pub proof fn lemma_split_improves<G, S>(
    items: Seq<Item>,
    group: Seq<usize>,
    feats: Seq<usize>,
    group_key: &G,
    split_key: &S,
) where G: Fn(&Vec<usize>) -> u64, S: Fn(&Vec<usize>, &Vec<usize>) -> u64
    ensures
        greedy_leaves(items, group, feats, group_key, split_key).len() == 1 <==> (pure_group(
            items,
            group,
        ) || chosen_split(items, group, feats, group_key, split_key) is None),
        chosen_split(items, group, feats, group_key, split_key) matches Some(p) ==> {
            &&& skey(split_key, p.0, p.1) < gkey(group_key, group)
            &&& p.0.len() > 0
            &&& p.1.len() > 0
            &&& exists|x: int, y: int|
                0 <= x < feats.len() && 0 <= y < group.len() && p.0 == left_part(
                    items,
                    group,
                    feats[x],
                    value(items, group[y], feats[x]),
                ) && p.1 == right_part(items, group, feats[x], value(items, group[y], feats[x]))
        },
{
    lemma_scan_improves(items, group, feats, split_key, feats.len(), gkey(group_key, group));
    if let Some(p) = chosen_split(items, group, feats, group_key, split_key) {
        let (x, y) = choose|x: int, y: int|
            0 <= x < feats.len() && 0 <= y < group.len() && p.0 == left_part(
                items,
                group,
                feats[x],
                value(items, group[y], feats[x]),
            ) && p.1 == right_part(items, group, feats[x], value(items, group[y], feats[x]));
        lemma_parts_partition(items, group, feats[x], value(items, group[y], feats[x]));
        if !pure_group(items, group) {
            lemma_greedy_nonempty(items, p.0, feats, group_key, split_key);
            lemma_greedy_nonempty(items, p.1, feats, group_key, split_key);
        }
    }
}

/// Grows the greedy threshold tree over `group` with the features `feats`
/// and returns its leaves: exactly `greedy_leaves`.
///
/// A pure group is a leaf. Otherwise every feature of `feats` (in order) and
/// every item of the group (in order) give a candidate threshold: the item's
/// value at that feature. Candidates that leave a side empty are skipped. The
/// first candidate whose `split_key` is strictly below the best key so far
/// wins, the best key starting at the group's own `group_key`; if none wins
/// the group is a leaf, else the tree is grown on each side and the leaves of
/// the left side come first. The keys order impurities: a smaller key is a
/// purer grouping.
pub fn build_leaves<G, S>(
    items: &Vec<Item>,
    nf: usize,
    group: &Vec<usize>,
    feats: &Vec<usize>,
    group_key: &G,
    split_key: &S,
) -> (r: Vec<Vec<usize>>) where G: Fn(&Vec<usize>) -> u64, S: Fn(&Vec<usize>, &Vec<usize>) -> u64
    requires
        well_formed(items@, nf),
        valid_group(items@, group@),
        group@.len() > 0,
        valid_features(feats@, nf),
        forall|g: &Vec<usize>| group_key.requires((g,)),
        forall|a: &Vec<usize>, b: &Vec<usize>| split_key.requires((a, b)),
        group_key_fn(group_key),
        split_key_fn(split_key),
    ensures
        views(r@) == greedy_leaves(items@, group@, feats@, group_key, split_key),
        partitions(r@, group@),
        forall|k: int| 0 <= k < r@.len() ==> valid_group(items@, (#[trigger] r@[k])@),
    decreases group@.len(),
{
    if is_pure(items, group) {
        let leaf = group.clone();
        assert(leaf@ =~= group@);
        let r = vec![leaf];
        proof {
            assert(flatten(r@) == flatten(r@.drop_last()) + r@.last()@);
            assert(flatten(r@.drop_last()) == Seq::<usize>::empty());
            assert(flatten(r@) =~= group@);
            assert(views(r@) =~= seq![group@]);
        }
        return r;
    }
    let mut best_key: u64 = group_key(group);
    let ghost st0: Scan = (None, best_key);
    proof {
        lemma_gkey(group_key, *group, best_key);
    }
    let mut best: Option<(Vec<usize>, Vec<usize>)> = None;
    let mut fi: usize = 0;
    while fi < feats.len()
        invariant
            0 <= fi <= feats.len(),
            well_formed(items@, nf),
            valid_group(items@, group@),
            valid_features(feats@, nf),
            forall|a: &Vec<usize>, b: &Vec<usize>| split_key.requires((a, b)),
            split_key_fn(split_key),
            best matches Some(p) ==> is_split(p.0@, p.1@, group@),
            (choice_view(best), best_key) == scan_feats(items@, group@, feats@, split_key, fi as nat, st0),
        decreases feats.len() - fi,
    {
        let f = feats[fi];
        let ghost before = scan_feats(items@, group@, feats@, split_key, fi as nat, st0);
        let mut si: usize = 0;
        while si < group.len()
            invariant
                0 <= si <= group.len(),
                1 <= f <= nf,
                well_formed(items@, nf),
                valid_group(items@, group@),
                forall|a: &Vec<usize>, b: &Vec<usize>| split_key.requires((a, b)),
                split_key_fn(split_key),
                best matches Some(p) ==> is_split(p.0@, p.1@, group@),
                (choice_view(best), best_key) == scan_items(items@, group@, f, split_key, si as nat, before),
            decreases group.len() - si,
        {
            let t = items[group[si]].features[f - 1];
            let (left, right) = split_group(items, group, f, t);
            proof {
                lemma_parts_partition(items@, group@, f, t);
                assert(t == value(items@, group@[si as int], f));
            }
            if left.len() > 0 && right.len() > 0 {
                let w = split_key(&left, &right);
                proof {
                    lemma_skey(split_key, left, right, w);
                }
                if w < best_key {
                    best_key = w;
                    best = Some((left, right));
                }
            }
            si = si + 1;
        }
        fi = fi + 1;
    }
    assert(chosen_split(items@, group@, feats@, group_key, split_key) == choice_view(best));
    match best {
        None => {
            let leaf = group.clone();
            assert(leaf@ =~= group@);
            let r = vec![leaf];
            proof {
                assert(flatten(r@) == flatten(r@.drop_last()) + r@.last()@);
                assert(flatten(r@.drop_last()) == Seq::<usize>::empty());
                assert(flatten(r@) =~= group@);
                assert(views(r@) =~= seq![group@]);
            }
            r
        },
        Some((left, right)) => {
            proof {
                lemma_sub_group_valid(items@, left@, group@);
                lemma_sub_group_valid(items@, right@, group@);
            }
            let mut r = build_leaves(items, nf, &left, feats, group_key, split_key);
            let mut rr = build_leaves(items, nf, &right, feats, group_key, split_key);
            let ghost a = r@;
            let ghost b = rr@;
            r.append(&mut rr);
            proof {
                lemma_flatten_append(a, b);
                lemma_multiset_commutative(flatten(a), flatten(b));
                assert(r@ == a + b);
                assert(views(r@) =~= views(a) + views(b));
                assert forall|k: int| 0 <= k < r@.len() implies valid_group(
                    items@,
                    (#[trigger] r@[k])@,
                ) && r@[k]@.len() > 0 by {
                    if k >= a.len() {
                        assert(r@[k] == b[k - a.len()]);
                    }
                }
            }
            r
        },
    }
}

} // verus!
