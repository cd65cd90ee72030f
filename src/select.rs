//! Enumeration of feature combinations and the choice of the best one.
use vstd::prelude::*;
use itertools::Itertools;
use crate::dataset::{Item, valid_group, pure_group};
use crate::tree::{
    well_formed, valid_features, build_leaves, greedy_leaves, views, group_key_fn, split_key_fn,
};

verus! {

/// The `k`-element combinations of the entries of `s`, taken by position:
/// each keeps the order of `s`, and they come in lexicographic order of the
/// positions chosen.
pub open spec fn combs(s: Seq<usize>, k: nat) -> Seq<Seq<usize>>
    decreases s.len(),
{
    if k == 0 {
        seq![Seq::empty()]
    } else if s.len() == 0 {
        Seq::empty()
    } else {
        let t = s.drop_first();
        combs(t, (k - 1) as nat).map_values(|c: Seq<usize>| seq![s[0]] + c) + combs(t, k)
    }
}

/// The feature identifiers `1..=nf`, ascending.
pub open spec fn feature_ids(nf: nat) -> Seq<usize> {
    Seq::new(nf, |i: int| (i + 1) as usize)
}

/// `i` is the first position of a smallest entry of `keys`.
pub open spec fn is_first_min(keys: Seq<u64>, i: int) -> bool {
    &&& 0 <= i < keys.len()
    &&& forall|j: int| 0 <= j < keys.len() ==> keys[i] <= #[trigger] keys[j]
    &&& forall|j: int| 0 <= j < i ==> keys[i] < #[trigger] keys[j]
}

/// Relies on itertools::Itertools::combinations: the `k`-length combinations
/// of the items, chosen by position, in lexicographic order of positions; one
/// empty combination for `k == 0`, none when `k` exceeds the number of items.
#[verifier::external_body]
fn combinations_of(ids: Vec<usize>, k: usize) -> (r: Vec<Vec<usize>>)
    ensures
        r@.len() == combs(ids@, k as nat).len(),
        forall|i: int| 0 <= i < r@.len() ==> (#[trigger] r@[i])@ == combs(ids@, k as nat)[i],
{
    ids.into_iter().combinations(k).collect()
}

/// Every `m`-element subset of the features `1..=nf`, each ascending, in
/// lexicographic order.
pub fn feature_combinations(nf: usize, m: usize) -> (r: Vec<Vec<usize>>)
    ensures
        r@.len() == combs(feature_ids(nf as nat), m as nat).len(),
        forall|i: int|
            0 <= i < r@.len() ==> (#[trigger] r@[i])@ == combs(feature_ids(nf as nat), m as nat)[i],
{
    let mut ids: Vec<usize> = Vec::new();
    let mut k: usize = 0;
    while k < nf
        invariant
            0 <= k <= nf,
            ids@ == feature_ids(k as nat),
        decreases nf - k,
    {
        k = k + 1;
        ids.push(k);
        assert(ids@ =~= feature_ids(k as nat));
    }
    combinations_of(ids, m)
}

/// The first position of a smallest key, or `None` when there is no key.
pub fn first_min_index(keys: &Vec<u64>) -> (r: Option<usize>)
    ensures
        keys@.len() == 0 <==> r is None,
        r matches Some(i) ==> is_first_min(keys@, i as int),
{
    if keys.len() == 0 {
        return None;
    }
    let mut best: usize = 0;
    let mut k: usize = 1;
    while k < keys.len()
        invariant
            1 <= k <= keys.len(),
            is_first_min(keys@.take(k as int), best as int),
        decreases keys.len() - k,
    {
        if keys[k] < keys[best] {
            best = k;
        }
        k = k + 1;
        assert(forall|j: int| 0 <= j < k ==> keys@.take(k as int)[j] == keys@[j]);
        assert(forall|j: int| 0 <= j < k - 1 ==> keys@.take(k - 1)[j] == keys@[j]);
    }
    assert(keys@.take(keys.len() as int) == keys@);
    Some(best)
}

/// Each combination has `k` entries, each an entry of `s`; when `s` is
/// ascending so is each combination.
pub proof fn lemma_combs_members(s: Seq<usize>, k: nat)
    ensures
        forall|c: Seq<usize>| #[trigger] combs(s, k).contains(c) ==> c.len() == k && (forall|q: int|
            0 <= q < c.len() ==> s.contains(#[trigger] c[q])) && (ascending(s) ==> ascending(c)),
    decreases s.len(),
{
    if k > 0 && s.len() > 0 {
        let t = s.drop_first();
        lemma_combs_members(t, (k - 1) as nat);
        lemma_combs_members(t, k);
        let a = combs(t, (k - 1) as nat).map_values(|c: Seq<usize>| seq![s[0]] + c);
        let b = combs(t, k);
        assert forall|c: Seq<usize>| #[trigger] combs(s, k).contains(c) implies c.len() == k && (
        forall|q: int| 0 <= q < c.len() ==> s.contains(#[trigger] c[q])) && (ascending(s)
            ==> ascending(c)) by {
            let x = choose|x: int| 0 <= x < combs(s, k).len() && combs(s, k)[x] == c;
            if x < a.len() {
                let d = combs(t, (k - 1) as nat)[x];
                assert(combs(t, (k - 1) as nat).contains(d));
                assert(c == seq![s[0]] + d);
                assert forall|q: int| 0 <= q < c.len() implies s.contains(#[trigger] c[q]) by {
                    if q == 0 {
                        assert(s[0] == c[q]);
                    } else {
                        assert(c[q] == d[q - 1]);
                        assert(t.contains(d[q - 1]));
                        let y = choose|y: int| 0 <= y < t.len() && t[y] == d[q - 1];
                        assert(s[y + 1] == t[y]);
                    }
                }
                if ascending(s) {
                    assert(ascending(t));
                    assert forall|p: int, q: int| 0 <= p < q < c.len() implies #[trigger] c[p] < #[trigger] c[q] by {
                        assert(c[q] == d[q - 1]);
                        if p > 0 {
                            assert(c[p] == d[p - 1]);
                        } else {
                            assert(t.contains(d[q - 1]));
                            let y = choose|y: int| 0 <= y < t.len() && t[y] == d[q - 1];
                            assert(s[y + 1] == t[y]);
                        }
                    }
                }
            } else {
                assert(b[x - a.len()] == c);
                assert(b.contains(c));
                assert forall|q: int| 0 <= q < c.len() implies s.contains(#[trigger] c[q]) by {
                    assert(t.contains(c[q]));
                    let y = choose|y: int| 0 <= y < t.len() && t[y] == c[q];
                    assert(s[y + 1] == t[y]);
                }
                if ascending(s) {
                    assert(ascending(t));
                }
            }
        }
    } else if k == 0 {
        assert forall|c: Seq<usize>| #[trigger] combs(s, k).contains(c) implies c.len() == 0 by {
            assert(combs(s, k)[0] == c);
        }
    }
}

/// The entries of `s` strictly increase.
pub open spec fn ascending(s: Seq<usize>) -> bool {
    forall|p: int, q: int| 0 <= p < q < s.len() ==> #[trigger] s[p] < #[trigger] s[q]
}

/// `a` comes strictly before `b` in lexicographic order.
pub open spec fn lex_lt(a: Seq<usize>, b: Seq<usize>) -> bool
    decreases a.len(),
{
    a.len() > 0 && b.len() > 0 && (a[0] < b[0] || (a[0] == b[0] && lex_lt(
        a.drop_first(),
        b.drop_first(),
    )))
}

/// Over ascending entries, the combinations come in strictly increasing
/// lexicographic order.
pub proof fn lemma_combs_sorted(s: Seq<usize>, k: nat)
    requires
        ascending(s),
    ensures
        forall|i: int, j: int|
            0 <= i < j < combs(s, k).len() ==> lex_lt(
                #[trigger] combs(s, k)[i],
                #[trigger] combs(s, k)[j],
            ),
    decreases s.len(),
{
    if k > 0 && s.len() > 0 {
        let t = s.drop_first();
        assert(ascending(t));
        lemma_combs_sorted(t, (k - 1) as nat);
        lemma_combs_sorted(t, k);
        lemma_combs_members(t, (k - 1) as nat);
        lemma_combs_members(t, k);
        let d = combs(t, (k - 1) as nat);
        let a = d.map_values(|c: Seq<usize>| seq![s[0]] + c);
        let b = combs(t, k);
        assert forall|i: int, j: int| 0 <= i < j < combs(s, k).len() implies lex_lt(
            #[trigger] combs(s, k)[i],
            #[trigger] combs(s, k)[j],
        ) by {
            let ci = combs(s, k)[i];
            let cj = combs(s, k)[j];
            if j < a.len() {
                assert(ci == seq![s[0]] + d[i]);
                assert(cj == seq![s[0]] + d[j]);
                assert(ci.drop_first() == d[i]);
                assert(cj.drop_first() == d[j]);
            } else if i >= a.len() {
                assert(ci == b[i - a.len()]);
                assert(cj == b[j - a.len()]);
            } else {
                assert(ci == seq![s[0]] + d[i]);
                assert(cj == b[j - a.len()]);
                assert(b.contains(cj));
                assert(t.contains(cj[0]));
                let y = choose|y: int| 0 <= y < t.len() && t[y] == cj[0];
                assert(s[y + 1] == t[y]);
            }
        }
    }
}

/// Tie-break: at the first smallest tree key among the `m`-element
/// combinations of `1..=nf` (the combination that `select_best` returns),
/// every other combination whose tree has that same key comes after the
/// chosen one in lexicographic order.
pub proof fn lemma_first_min_is_smallest_combination<G, S, T>(
    items: Seq<Item>,
    nf: usize,
    m: nat,
    group_key: &G,
    split_key: &S,
    total_key: &T,
    i: int,
) where
    G: Fn(&Vec<usize>) -> u64,
    S: Fn(&Vec<usize>, &Vec<usize>) -> u64,
    T: Fn(&Vec<Vec<usize>>) -> u64,

    requires
        is_first_min(comb_keys(items, nf as nat, m, group_key, split_key, total_key), i),
    ensures
        forall|j: int|
            0 <= j < combs(feature_ids(nf as nat), m).len() && j != i && tree_key(
                items,
                #[trigger] combs(feature_ids(nf as nat), m)[j],
                group_key,
                split_key,
                total_key,
            ) == tree_key(items, combs(feature_ids(nf as nat), m)[i], group_key, split_key, total_key)
                ==> lex_lt(combs(feature_ids(nf as nat), m)[i], combs(feature_ids(nf as nat), m)[j]),
{
    let s = feature_ids(nf as nat);
    let keys = comb_keys(items, nf as nat, m, group_key, split_key, total_key);
    lemma_feature_ids_ascending(nf);
    lemma_combs_sorted(s, m);
    assert forall|j: int|
        0 <= j < combs(s, m).len() && j != i && tree_key(
            items,
            #[trigger] combs(s, m)[j],
            group_key,
            split_key,
            total_key,
        ) == tree_key(items, combs(s, m)[i], group_key, split_key, total_key) implies lex_lt(
        combs(s, m)[i],
        combs(s, m)[j],
    ) by {
        assert(keys[j] == keys[i]);
        if j < i {
            assert(keys[i] < keys[j]);
        }
    }
}

/// The first combination is the first `k` entries.
pub proof fn lemma_combs_first(s: Seq<usize>, k: nat)
    requires
        k <= s.len(),
    ensures
        combs(s, k).len() > 0,
        combs(s, k)[0] == s.take(k as int),
    decreases s.len(),
{
    if k == 0 {
        assert(combs(s, k)[0] =~= s.take(0));
    } else {
        let t = s.drop_first();
        lemma_combs_first(t, (k - 1) as nat);
        assert(combs(s, k)[0] == seq![s[0]] + combs(t, (k - 1) as nat)[0]);
        assert(combs(s, k)[0] =~= s.take(k as int));
    }
}

/// When every item carries one label, every combination grows the same
/// one-leaf tree, all keys tie, and the chosen combination is `1..=m`.
pub proof fn lemma_one_label_takes_first_features<G, S, T>(
    items: Seq<Item>,
    nf: usize,
    m: nat,
    group_key: &G,
    split_key: &S,
    total_key: &T,
    i: int,
) where
    G: Fn(&Vec<usize>) -> u64,
    S: Fn(&Vec<usize>, &Vec<usize>) -> u64,
    T: Fn(&Vec<Vec<usize>>) -> u64,

    requires
        m <= nf,
        pure_group(items, whole(items.len())),
        is_first_min(comb_keys(items, nf as nat, m, group_key, split_key, total_key), i),
    ensures
        combs(feature_ids(nf as nat), m)[i] == feature_ids(nf as nat).take(m as int),
        combs(feature_ids(nf as nat), m)[i] == Seq::new(m, |q: int| (q + 1) as usize),
{
    let s = feature_ids(nf as nat);
    let keys = comb_keys(items, nf as nat, m, group_key, split_key, total_key);
    lemma_combs_first(s, m);
    if i > 0 {
        assert(greedy_leaves(items, whole(items.len()), combs(s, m)[0], group_key, split_key)
            == greedy_leaves(items, whole(items.len()), combs(s, m)[i], group_key, split_key));
        assert(keys[0] == keys[i]);
        assert(keys[i] < keys[0]);
    }
    assert(s.take(m as int) =~= Seq::new(m, |q: int| (q + 1) as usize));
}

/// The choice is determined by the keys: one sequence of keys has only one
/// first position of a smallest key.
pub proof fn lemma_first_min_unique(keys: Seq<u64>, i: int, j: int)
    requires
        is_first_min(keys, i),
        is_first_min(keys, j),
    ensures
        i == j,
{
    if i < j {
        assert(keys[j] < keys[i]);
    } else if j < i {
        assert(keys[i] < keys[j]);
    }
}

/// The identifiers `1..=nf` are ascending.
proof fn lemma_feature_ids_ascending(nf: usize)
    ensures
        ascending(feature_ids(nf as nat)),
{
    let s = feature_ids(nf as nat);
    assert forall|p: int, q: int| 0 <= p < q < s.len() implies #[trigger] s[p] < #[trigger] s[q] by {
        assert(s[p] == (p + 1) as usize);
        assert(s[q] == (q + 1) as usize);
    }
}

pub proof fn lemma_combs_exist(s: Seq<usize>, k: nat)
    requires
        k <= s.len(),
    ensures
        combs(s, k).len() >= 1,
    decreases s.len(),
{
    if k > 0 {
        lemma_combs_exist(s.drop_first(), (k - 1) as nat);
    }
}

/// `total_key` gives one key for each list of leaves: calls on lists with
/// the same contents return the same key.
pub open spec fn total_key_fn<T: Fn(&Vec<Vec<usize>>) -> u64>(total_key: &T) -> bool {
    forall|a: Vec<Vec<usize>>, b: Vec<Vec<usize>>, x: u64, y: u64|
        views(a@) == views(b@) && #[trigger] total_key.ensures((&a,), x)
            && #[trigger] total_key.ensures((&b,), y) ==> x == y
}

/// A call of `total_key` on leaves holding `ls` can return `w`.
pub open spec fn gives_tkey<T: Fn(&Vec<Vec<usize>>) -> u64>(
    total_key: &T,
    ls: Seq<Seq<usize>>,
    w: u64,
) -> bool {
    exists|a: Vec<Vec<usize>>| views(a@) == ls && #[trigger] total_key.ensures((&a,), w)
}

/// The key that `total_key` gives to these leaves.
pub open spec fn tkey<T: Fn(&Vec<Vec<usize>>) -> u64>(total_key: &T, ls: Seq<Seq<usize>>) -> u64 {
    choose|w: u64| gives_tkey(total_key, ls, w)
}

pub proof fn lemma_tkey<T: Fn(&Vec<Vec<usize>>) -> u64>(total_key: &T, a: Vec<Vec<usize>>, w: u64)
    requires
        total_key_fn(total_key),
        total_key.ensures((&a,), w),
    ensures
        tkey(total_key, views(a@)) == w,
{
    let v = tkey(total_key, views(a@));
    assert(gives_tkey(total_key, views(a@), w));
    let b = choose|b: Vec<Vec<usize>>| views(b@) == views(a@) && #[trigger] total_key.ensures((&b,), v);
    assert(total_key.ensures((&b,), v));
}

/// The key of the greedy tree over the whole population with features `c`.
pub open spec fn tree_key<G, S, T>(
    items: Seq<Item>,
    c: Seq<usize>,
    group_key: &G,
    split_key: &S,
    total_key: &T,
) -> u64 where
    G: Fn(&Vec<usize>) -> u64,
    S: Fn(&Vec<usize>, &Vec<usize>) -> u64,
    T: Fn(&Vec<Vec<usize>>) -> u64,
 {
    tkey(total_key, greedy_leaves(items, whole(items.len()), c, group_key, split_key))
}

/// The key of each `m`-element combination of `1..=nf`, in their order.
pub open spec fn comb_keys<G, S, T>(
    items: Seq<Item>,
    nf: nat,
    m: nat,
    group_key: &G,
    split_key: &S,
    total_key: &T,
) -> Seq<u64> where
    G: Fn(&Vec<usize>) -> u64,
    S: Fn(&Vec<usize>, &Vec<usize>) -> u64,
    T: Fn(&Vec<Vec<usize>>) -> u64,
 {
    combs(feature_ids(nf), m).map_values(
        |c: Seq<usize>| tree_key(items, c, group_key, split_key, total_key),
    )
}

/// All indices of a population of `n` items, ascending.
pub open spec fn whole(n: nat) -> Seq<usize> {
    Seq::new(n, |i: int| i as usize)
}

/// Chooses `m` of the features `1..=nf` for a tree over the whole population.
///
/// Every combination, in the order of `feature_combinations`, gets a tree from
/// `build_leaves` over all items and the key `total_key` of its leaves; the
/// first combination with the smallest key is returned, so that among equally
/// good combinations the lexicographically smallest wins.
pub fn select_best<G, S, T>(
    items: &Vec<Item>,
    nf: usize,
    m: usize,
    group_key: &G,
    split_key: &S,
    total_key: &T,
) -> (r: Vec<usize>) where
    G: Fn(&Vec<usize>) -> u64,
    S: Fn(&Vec<usize>, &Vec<usize>) -> u64,
    T: Fn(&Vec<Vec<usize>>) -> u64,

    requires
        well_formed(items@, nf),
        items@.len() > 0,
        m <= nf,
        forall|g: &Vec<usize>| group_key.requires((g,)),
        forall|a: &Vec<usize>, b: &Vec<usize>| split_key.requires((a, b)),
        forall|l: &Vec<Vec<usize>>| total_key.requires((l,)),
        group_key_fn(group_key),
        split_key_fn(split_key),
        total_key_fn(total_key),
    ensures
        r@.len() == m,
        ascending(r@),
        forall|q: int| 0 <= q < r@.len() ==> 1 <= #[trigger] r@[q] <= nf,
        exists|i: int|
            is_first_min(comb_keys(items@, nf as nat, m as nat, group_key, split_key, total_key), i)
                && r@ == combs(feature_ids(nf as nat), m as nat)[i],
{
    let ghost ids = feature_ids(nf as nat);
    let combos = feature_combinations(nf, m);
    let mut all: Vec<usize> = Vec::new();
    let mut k: usize = 0;
    while k < items.len()
        invariant
            0 <= k <= items.len(),
            all@ == whole(k as nat),
        decreases items.len() - k,
    {
        all.push(k);
        k = k + 1;
        assert(all@ =~= whole(k as nat));
    }
    assert(valid_group(items@, all@));
    let mut keys: Vec<u64> = Vec::new();
    let mut c: usize = 0;
    while c < combos.len()
        invariant
            0 <= c <= combos.len(),
            keys@.len() == c,
            combos@.len() == combs(ids, m as nat).len(),
            forall|i: int| 0 <= i < combos@.len() ==> (#[trigger] combos@[i])@ == combs(ids, m as nat)[i],
            ids == feature_ids(nf as nat),
            well_formed(items@, nf),
            valid_group(items@, all@),
            all@ == whole(items@.len()),
            items@.len() > 0,
            forall|g: &Vec<usize>| group_key.requires((g,)),
            forall|a: &Vec<usize>, b: &Vec<usize>| split_key.requires((a, b)),
            forall|l: &Vec<Vec<usize>>| total_key.requires((l,)),
            group_key_fn(group_key),
            split_key_fn(split_key),
            total_key_fn(total_key),
            forall|j: int|
                0 <= j < keys@.len() ==> #[trigger] keys@[j] == tree_key(
                    items@,
                    combs(ids, m as nat)[j],
                    group_key,
                    split_key,
                    total_key,
                ),
        decreases combos.len() - c,
    {
        proof {
            lemma_combs_members(ids, m as nat);
            assert(combs(ids, m as nat).contains(combos@[c as int]@));
        }
        let leaves = build_leaves(items, nf, &all, &combos[c], group_key, split_key);
        let key = total_key(&leaves);
        keys.push(key);
        c = c + 1;
        proof {
            lemma_tkey(total_key, leaves, key);
        }
    }
    proof {
        lemma_combs_exist(ids, m as nat);
    }
    let i = match first_min_index(&keys) {
        Some(i) => i,
        None => { return Vec::new(); },
    };
    let r = combos[i].clone();
    assert(r@ =~= combos@[i as int]@);
    proof {
        lemma_combs_members(ids, m as nat);
        lemma_feature_ids_ascending(nf);
        assert(combs(ids, m as nat).contains(r@));
        assert forall|q: int| 0 <= q < r@.len() implies 1 <= #[trigger] r@[q] <= nf by {
            assert(ids.contains(r@[q]));
        }
    }
    assert(r@ == combs(ids, m as nat)[i as int]);
    assert(keys@.len() == combs(ids, m as nat).len());
    assert(is_first_min(keys@, i as int));
    assert(keys@ =~= comb_keys(items@, nf as nat, m as nat, group_key, split_key, total_key));
    r
}

} // verus!
