//! Items of the population, groups of item indices and label counts.
use vstd::prelude::*;
use vstd::multiset::Multiset;

verus! {

/// One classified item: its label and one integer value per feature.
pub struct Item {
    pub label: i32,
    pub features: Vec<i32>,
}

/// Every index of `group` names an item of `items`.
pub open spec fn valid_group(items: Seq<Item>, group: Seq<usize>) -> bool {
    forall|k: int| 0 <= k < group.len() ==> (#[trigger] group[k]) < items.len()
}

/// The labels of the items of `group`, in the group's order.
pub open spec fn labels_of(items: Seq<Item>, group: Seq<usize>) -> Seq<i32> {
    group.map_values(|i: usize| items[i as int].label)
}

/// How many times `l` occurs in `s`.
pub open spec fn occurrences(s: Seq<i32>, l: i32) -> nat
    decreases s.len(),
{
    if s.len() == 0 {
        0
    } else {
        occurrences(s.drop_last(), l) + if s.last() == l { 1nat } else { 0nat }
    }
}

/// All items of the group carry one label (an empty group is pure too).
pub open spec fn pure_group(items: Seq<Item>, group: Seq<usize>) -> bool {
    forall|a: int, b: int|
        0 <= a < group.len() && 0 <= b < group.len() ==> items[group[a] as int].label
            == items[group[b] as int].label
}

/// `counts` lists each distinct label of `s` once, in order of first
/// occurrence, with the number of times it occurs.
pub open spec fn label_profile(s: Seq<i32>, counts: Seq<(i32, usize)>) -> bool {
    &&& forall|a: int, b: int|
        0 <= a < b < counts.len() ==> (#[trigger] counts[a]).0 != (#[trigger] counts[b]).0
    &&& forall|a: int| 0 <= a < counts.len() ==> s.contains((#[trigger] counts[a]).0)
    &&& forall|a: int|
        0 <= a < counts.len() ==> (#[trigger] counts[a]).1 == occurrences(s, counts[a].0)
    &&& forall|k: int| 0 <= k < s.len() ==> #[trigger] listed(counts, s[k])
    &&& forall|a: int, b: int, k: int|
        #![trigger counts[a], counts[b], s[k]]
        0 <= a < b < counts.len() && 0 <= k < s.len() && s[k] == counts[b].0 ==> occurs_before(
            s,
            counts[a].0,
            k,
        )
}

/// `l` occurs in `s` before position `k`.
pub open spec fn occurs_before(s: Seq<i32>, l: i32, k: int) -> bool {
    exists|q: int| 0 <= q < k && s[q] == l
}

/// `l` is the label of some entry of `counts`.
pub open spec fn listed(counts: Seq<(i32, usize)>, l: i32) -> bool {
    exists|a: int| 0 <= a < counts.len() && (#[trigger] counts[a]).0 == l
}

pub proof fn lemma_occurrences_bound(s: Seq<i32>, l: i32)
    ensures
        occurrences(s, l) <= s.len(),
        !s.contains(l) ==> occurrences(s, l) == 0,
    decreases s.len(),
{
    if s.len() > 0 {
        lemma_occurrences_bound(s.drop_last(), l);
        if !s.contains(l) {
            assert forall|k: int| 0 <= k < s.drop_last().len() implies s.drop_last()[k] != l by {
                assert(s[k] == s.drop_last()[k]);
            }
            assert(s[s.len() - 1] == s.last());
        }
    }
}

pub proof fn lemma_occurrences_count(s: Seq<i32>, l: i32)
    ensures
        occurrences(s, l) == s.to_multiset().count(l),
    decreases s.len(),
{
    broadcast use vstd::seq_lib::group_to_multiset_ensures;

    if s.len() > 0 {
        lemma_occurrences_count(s.drop_last(), l);
        assert(s == s.drop_last().push(s.last()));
    } else {
        assert(s.to_multiset() =~= Multiset::empty());
    }
}

/// Listing the same items in another order lists the same labels in another
/// order.
pub proof fn lemma_labels_reordered(items: Seq<Item>, g: Seq<usize>, h: Seq<usize>)
    requires
        g.to_multiset() == h.to_multiset(),
    ensures
        labels_of(items, g).to_multiset() == labels_of(items, h).to_multiset(),
    decreases g.len(),
{
    broadcast use vstd::seq_lib::group_to_multiset_ensures;

    if g.len() == 0 {
        assert(g.to_multiset().len() == 0);
        assert(h.to_multiset().len() == h.len());
        assert(h.len() == 0);
        assert(labels_of(items, g) =~= Seq::<i32>::empty());
        assert(labels_of(items, h) =~= Seq::<i32>::empty());
    } else {
        let x = g.last();
        let g1 = g.drop_last();
        assert(g == g1.push(x));
        assert(h.to_multiset().count(x) > 0);
        assert(h.contains(x));
        let p = choose|p: int| 0 <= p < h.len() && h[p] == x;
        let h1 = h.remove(p);
        assert(g1.to_multiset() =~= h1.to_multiset());
        lemma_labels_reordered(items, g1, h1);
        let lx = items[x as int].label;
        assert(labels_of(items, h1) =~= labels_of(items, h).remove(p));
        assert(labels_of(items, g) =~= labels_of(items, g1).push(lx));
        assert(labels_of(items, h)[p] == lx);
        assert(labels_of(items, g).to_multiset() =~= labels_of(items, h).to_multiset());
    }
}

/// Label counts do not depend on the order in which a group lists its items:
/// two orders of one group have the same labels with the same counts.
pub proof fn lemma_counts_order_free(
    items: Seq<Item>,
    g: Seq<usize>,
    h: Seq<usize>,
    cg: Seq<(i32, usize)>,
    ch: Seq<(i32, usize)>,
)
    requires
        g.to_multiset() == h.to_multiset(),
        label_profile(labels_of(items, g), cg),
        label_profile(labels_of(items, h), ch),
    ensures
        forall|a: int| 0 <= a < cg.len() ==> listed(ch, (#[trigger] cg[a]).0),
        forall|b: int| 0 <= b < ch.len() ==> listed(cg, (#[trigger] ch[b]).0),
        forall|a: int, b: int|
            0 <= a < cg.len() && 0 <= b < ch.len() && (#[trigger] cg[a]).0 == (#[trigger] ch[b]).0
                ==> cg[a].1 == ch[b].1,
{
    broadcast use vstd::seq_lib::group_to_multiset_ensures;

    let sg = labels_of(items, g);
    let sh = labels_of(items, h);
    lemma_labels_reordered(items, g, h);
    assert forall|a: int| 0 <= a < cg.len() implies listed(ch, (#[trigger] cg[a]).0) by {
        assert(sg.contains(cg[a].0));
        assert(sh.to_multiset().count(cg[a].0) > 0);
        assert(sh.contains(cg[a].0));
        let k = choose|k: int| 0 <= k < sh.len() && sh[k] == cg[a].0;
        assert(listed(ch, sh[k]));
    }
    assert forall|b: int| 0 <= b < ch.len() implies listed(cg, (#[trigger] ch[b]).0) by {
        assert(sh.contains(ch[b].0));
        assert(sg.to_multiset().count(ch[b].0) > 0);
        assert(sg.contains(ch[b].0));
        let k = choose|k: int| 0 <= k < sg.len() && sg[k] == ch[b].0;
        assert(listed(cg, sg[k]));
    }
    assert forall|a: int, b: int|
        0 <= a < cg.len() && 0 <= b < ch.len() && (#[trigger] cg[a]).0 == (#[trigger] ch[b]).0
            implies cg[a].1 == ch[b].1 by {
        lemma_occurrences_count(sg, cg[a].0);
        lemma_occurrences_count(sh, cg[a].0);
    }
}

proof fn lemma_occurrences_all(s: Seq<i32>, l: i32)
    requires
        forall|k: int| 0 <= k < s.len() ==> s[k] == l,
    ensures
        occurrences(s, l) == s.len(),
    decreases s.len(),
{
    if s.len() > 0 {
        lemma_occurrences_all(s.drop_last(), l);
    }
}

/// An empty group has no label to count, and a pure group is exactly one
/// whose labels reduce to at most one entry; a pure non-empty group has one
/// entry, its label with the size of the group. (These are the groups of zero
/// impurity.)
pub proof fn lemma_profile_of_pure(items: Seq<Item>, g: Seq<usize>, c: Seq<(i32, usize)>)
    requires
        label_profile(labels_of(items, g), c),
    ensures
        g.len() == 0 ==> c.len() == 0,
        pure_group(items, g) <==> c.len() <= 1,
        pure_group(items, g) && g.len() > 0 ==> c.len() == 1 && c[0] == (
            items[g[0] as int].label,
            g.len() as usize,
        ),
{
    let s = labels_of(items, g);
    if c.len() > 0 {
        assert(s.contains(c[0].0));
    }
    if pure_group(items, g) && g.len() > 0 {
        let l = items[g[0] as int].label;
        assert forall|k: int| 0 <= k < s.len() implies s[k] == l by {
            assert(items[g[k] as int].label == items[g[0] as int].label);
        }
        lemma_occurrences_all(s, l);
        assert(listed(c, s[0]));
        if c.len() > 1 {
            assert(s.contains(c[1].0));
            assert(c[0].0 != c[1].0);
        }
        assert(c[0].0 == l);
    }
    if !pure_group(items, g) {
        let (a, b) = choose|a: int, b: int|
            0 <= a < g.len() && 0 <= b < g.len() && items[g[a] as int].label
                != items[g[b] as int].label;
        assert(listed(c, s[a]));
        assert(listed(c, s[b]));
    }
}

proof fn lemma_profile_step(
    pre: Seq<i32>,
    l: i32,
    old_r: Seq<(i32, usize)>,
    new_r: Seq<(i32, usize)>,
    j: int,
)
    requires
        label_profile(pre, old_r),
        0 <= j <= old_r.len(),
        forall|a: int| 0 <= a < j ==> (#[trigger] old_r[a]).0 != l,
        j < old_r.len() ==> old_r[j].0 == l && new_r == old_r.update(
            j,
            (l, (old_r[j].1 + 1) as usize),
        ) && old_r[j].1 + 1 <= usize::MAX,
        j == old_r.len() ==> new_r == old_r.push((l, 1usize)),
    ensures
        label_profile(pre.push(l), new_r),
{
    let cur = pre.push(l);
    let k: int = pre.len() as int;
    let r = new_r;
    assert(cur.drop_last() == pre);
    lemma_occurrences_bound(pre, l);
    assert forall|a: int| 0 <= a < old_r.len() implies #[trigger] occurrences(cur, old_r[a].0)
        == occurrences(pre, old_r[a].0) + if old_r[a].0 == l { 1nat } else { 0nat } by {}
    if j == old_r.len() {
        assert forall|q: int| 0 <= q < pre.len() implies pre[q] != l by {
            assert(listed(old_r, pre[q]));
        }
        assert(!pre.contains(l));
    }
    assert(forall|q: int| 0 <= q < k ==> cur[q] == pre[q]);
    assert forall|q: int| 0 <= q < cur.len() implies #[trigger] listed(r, cur[q]) by {
        if q < k {
            assert(listed(old_r, pre[q]));
            let a = choose|a: int| 0 <= a < old_r.len() && (#[trigger] old_r[a]).0 == pre[q];
            assert(r[a].0 == cur[q]);
        } else {
            assert(r[j].0 == cur[q]);
        }
    }
    assert forall|a: int| 0 <= a < r.len() implies cur.contains((#[trigger] r[a]).0) by {
        if a == j {
            assert(cur[k] == l);
        } else {
            let q = choose|q: int| 0 <= q < pre.len() && pre[q] == r[a].0;
            assert(cur[q] == pre[q]);
        }
    }
    assert forall|a: int, b: int, q: int|
        #![trigger r[a], r[b], cur[q]]
        0 <= a < b < r.len() && 0 <= q < cur.len() && cur[q] == r[b].0 implies occurs_before(
        cur,
        r[a].0,
        q,
    ) by {
        assert(r[a].0 == old_r[a].0);
        assert(pre.contains(old_r[a].0));
        let y = choose|y: int| 0 <= y < pre.len() && pre[y] == old_r[a].0;
        if q < k {
            assert(cur[q] == pre[q]);
            if b < old_r.len() {
                assert(r[b].0 == old_r[b].0);
                assert(occurs_before(pre, old_r[a].0, q));
                let z = choose|z: int| 0 <= z < q && pre[z] == old_r[a].0;
                assert(cur[z] == pre[z]);
            } else {
                assert(pre[q] == l);
                assert(pre.contains(l));
                assert(listed(old_r, pre[q]));
            }
        } else {
            assert(cur[y] == pre[y]);
        }
    }
    assert forall|a: int| 0 <= a < r.len() implies (#[trigger] r[a]).1 == occurrences(
        cur,
        r[a].0,
    ) by {
        if a < old_r.len() {
            assert(occurrences(cur, old_r[a].0) == occurrences(pre, old_r[a].0) + if old_r[a].0 == l { 1nat } else { 0nat });
        }
    }
}

/// Counts the labels of the items of `group`: each distinct label once, in
/// order of first occurrence, with its number of items.
pub fn label_counts(items: &Vec<Item>, group: &Vec<usize>) -> (r: Vec<(i32, usize)>)
    requires
        valid_group(items@, group@),
    ensures
        label_profile(labels_of(items@, group@), r@),
{
    let mut r: Vec<(i32, usize)> = Vec::new();
    let ghost all = labels_of(items@, group@);
    let mut k: usize = 0;
    while k < group.len()
        invariant
            0 <= k <= group.len(),
            valid_group(items@, group@),
            all == labels_of(items@, group@),
            label_profile(all.take(k as int), r@),
        decreases group.len() - k,
    {
        let l = items[group[k]].label;
        let ghost pre = all.take(k as int);
        let ghost cur = all.take(k + 1);
        assert(cur.drop_last() == pre);
        assert(cur.last() == l);
        assert(forall|j: int| 0 <= j < k ==> cur[j] == pre[j]);
        let mut j: usize = 0;
        while j < r.len() && r[j].0 != l
            invariant
                0 <= j <= r.len(),
                forall|a: int| 0 <= a < j ==> (#[trigger] r@[a]).0 != l,
            decreases r.len() - j,
        {
            j = j + 1;
        }
        let ghost old_r = r@;
        if j < r.len() {
            let (lab, c) = r[j];
            proof {
                lemma_occurrences_bound(pre, lab);
            }
            r.set(j, (lab, c + 1));
        } else {
            proof {
                assert forall|q: int| 0 <= q < pre.len() implies pre[q] != l by {
                    assert(listed(r@, pre[q]));
                }
                assert(!pre.contains(l));
            }
            r.push((l, 1));
        }
        proof {
            assert(cur == pre.push(l));
            lemma_profile_step(pre, l, old_r, r@, j as int);
        }
        k = k + 1;
    }
    assert(all.take(group.len() as int) == all);
    r
}

/// Whether all items of `group` carry one label.
pub fn is_pure(items: &Vec<Item>, group: &Vec<usize>) -> (r: bool)
    requires
        valid_group(items@, group@),
    ensures
        r == pure_group(items@, group@),
{
    if group.len() == 0 {
        return true;
    }
    let first = items[group[0]].label;
    let mut k: usize = 1;
    while k < group.len()
        invariant
            1 <= k <= group.len(),
            valid_group(items@, group@),
            first == items@[group@[0] as int].label,
            forall|q: int| 0 <= q < k ==> #[trigger] items@[group@[q] as int].label == first,
        decreases group.len() - k,
    {
        if items[group[k]].label != first {
            return false;
        }
        k = k + 1;
    }
    true
}

} // verus!
