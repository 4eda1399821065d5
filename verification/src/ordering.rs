//! Re-ordering a sequence by a list of ids (z-order changes).
use vstd::prelude::*;

verus! {

/// Something identified by a string id.
pub trait Keyed {
    spec fn key(&self) -> Seq<char>;

    fn key_string(&self) -> (r: &String)
        ensures
            r@ == self.key();
}

/// Index of the last entry of `order` equal to `id`.
pub open spec fn last_rank(order: Seq<Seq<char>>, id: Seq<char>) -> Option<nat>
    decreases order.len(),
{
    if order.len() == 0 {
        None
    } else if order.last() == id {
        Some((order.len() - 1) as nat)
    } else {
        last_rank(order.drop_last(), id)
    }
}

/// Number of items before position `i` whose id is not in `order`.
pub open spec fn unranked_before(ids: Seq<Seq<char>>, order: Seq<Seq<char>>, i: int) -> nat
    decreases i,
{
    if i <= 0 {
        0
    } else {
        unranked_before(ids, order, i - 1) + (if last_rank(order, ids[i - 1]) is None { 1nat } else { 0nat })
    }
}

/// Whether position `i` is the last item with its id.
pub open spec fn is_last_occurrence(ids: Seq<Seq<char>>, i: int) -> bool {
    forall|k: int| i < k < ids.len() ==> ids[k] != ids[i]
}

/// The sort key of item `i`: its id's last index in `order`; ids missing
/// from `order` come after all listed ones, in the order of the last item
/// that carries them.
pub open spec fn order_key(ids: Seq<Seq<char>>, order: Seq<Seq<char>>, i: int) -> nat {
    match last_rank(order, ids[i]) {
        Some(r) => r,
        None => order.len() + unranked_before(ids, order, choose|p: int| i <= p < ids.len() && ids[p] == ids[i] && is_last_occurrence(ids, p)),
    }
}

/// `perm` lists the original positions in their new order: a permutation
/// that sorts `keys` and keeps items with equal keys in their old order.
pub open spec fn is_stable_sort(perm: Seq<int>, keys: Seq<nat>) -> bool {
    &&& perm.len() == keys.len()
    &&& forall|k: int| 0 <= k < perm.len() ==> 0 <= #[trigger] perm[k] < keys.len()
    &&& forall|a: int, b: int| 0 <= a < b < perm.len() ==> perm[a] != perm[b]
    &&& forall|a: int, b: int| 0 <= a < b < perm.len() ==> keys[perm[a]] <= keys[perm[b]]
    &&& forall|a: int, b: int| 0 <= a < b < perm.len() && keys[perm[a]] == keys[perm[b]] ==> perm[a] < perm[b]
}

pub(crate) fn swap_adj<T>(v: &mut Vec<T>, i: usize)
    requires
        i + 1 < old(v)@.len(),
    ensures
        final(v)@ == old(v)@.update(i as int, old(v)@[i + 1]).update(i + 1, old(v)@[i as int]),
{
    let n = v.len();
    assert(i + 1 < n);
    let x = v.remove(i + 1);
    v.insert(i, x);
    assert(v@ =~= old(v)@.update(i as int, old(v)@[i + 1]).update(i + 1, old(v)@[i as int]));
}

/// Stable insertion sort of `items` by `keys`; returns the permutation.
pub(crate) fn stable_sort<T>(items: &mut Vec<T>, keys: &mut Vec<usize>) -> (perm: Ghost<Seq<int>>)
    requires
        old(items)@.len() == old(keys)@.len(),
    ensures
        is_stable_sort(perm@, old(keys)@.map_values(|k: usize| k as nat)),
        final(items)@.len() == old(items)@.len(),
        forall|k: int| 0 <= k < final(items)@.len() ==> final(items)@[k] == old(items)@[#[trigger] perm@[k]],
        forall|k: int| 0 <= k < final(keys)@.len() ==> final(keys)@[k] == old(keys)@[#[trigger] perm@[k]],
        final(keys)@.len() == old(keys)@.len(),
{
    let ghost items0 = items@;
    let ghost keys0 = keys@;
    let ghost ks = keys0.map_values(|k: usize| k as nat);
    let n = items.len();
    let ghost mut perm: Seq<int> = Seq::new(n as nat, |k: int| k);
    let mut i: usize = 0;
    while i < n
        invariant
            n == items@.len(),
            n == keys@.len(),
            n == items0.len(),
            n == keys0.len(),
            ks == keys0.map_values(|k: usize| k as nat),
            i <= n,
            perm.len() == n,
            forall|k: int| 0 <= k < n ==> 0 <= #[trigger] perm[k] < n,
            forall|a: int, b: int| 0 <= a < b < n ==> perm[a] != perm[b],
            forall|k: int| 0 <= k < n ==> items@[k] == items0[#[trigger] perm[k]],
            forall|k: int| 0 <= k < n ==> keys@[k] == keys0[#[trigger] perm[k]],
            forall|k: int| i <= k < n ==> #[trigger] perm[k] == k,
            forall|k: int| 0 <= k < i ==> #[trigger] perm[k] < i,
            forall|a: int, b: int| 0 <= a < b < i ==> keys@[a] <= keys@[b],
            forall|a: int, b: int| 0 <= a < b < i && keys@[a] == keys@[b] ==> perm[a] < perm[b],
        decreases n - i,
    {
        let mut j = i;
        while j > 0 && keys[j - 1] > keys[j]
            invariant
                n == items@.len(),
                n == keys@.len(),
                n == items0.len(),
                n == keys0.len(),
                i < n,
                j <= i,
                perm.len() == n,
                forall|k: int| 0 <= k < n ==> 0 <= #[trigger] perm[k] < n,
                forall|a: int, b: int| 0 <= a < b < n ==> perm[a] != perm[b],
                forall|k: int| 0 <= k < n ==> items@[k] == items0[#[trigger] perm[k]],
                forall|k: int| 0 <= k < n ==> keys@[k] == keys0[#[trigger] perm[k]],
                forall|k: int| i < k < n ==> #[trigger] perm[k] == k,
                perm[j as int] == i,
                forall|k: int| 0 <= k <= i && k != j ==> #[trigger] perm[k] < i,
                // the prefix without the moving element is sorted and stable
                forall|a: int, b: int| 0 <= a < b <= i && a != j && b != j ==> keys@[a] <= keys@[b],
                forall|a: int, b: int| 0 <= a < b <= i && a != j && b != j && keys@[a] == keys@[b] ==> perm[a] < perm[b],
                // everything after the moving element is strictly larger
                forall|b: int| j < b <= i ==> keys@[b] > keys@[j as int],
            decreases j,
        {
            let ghost p0 = perm;
            swap_adj(items, j - 1);
            swap_adj(keys, j - 1);
            proof {
                perm = p0.update(j - 1, p0[j as int]).update(j as int, p0[j - 1]);
            }
            j -= 1;
        }
        i += 1;
    }
    proof {
        assert forall|a: int, b: int| 0 <= a < b < perm.len() implies ks[perm[a]] <= ks[perm[b]] by {
            assert(keys@[a] == keys0[perm[a]]);
            assert(keys@[b] == keys0[perm[b]]);
        }
        assert forall|a: int, b: int| 0 <= a < b < perm.len() && ks[perm[a]] == ks[perm[b]] implies perm[a] < perm[b] by {
            assert(keys@[a] == keys0[perm[a]]);
            assert(keys@[b] == keys0[perm[b]]);
        }
    }
    Ghost(perm)
}


/// The ids of a sequence of items.
pub open spec fn ids_of<T: Keyed>(items: Seq<T>) -> Seq<Seq<char>> {
    Seq::new(items.len(), |i: int| items[i].key())
}

/// The text of a sequence of strings.
pub open spec fn texts(order: Seq<String>) -> Seq<Seq<char>> {
    Seq::new(order.len(), |i: int| order[i]@)
}

/// The sort keys of all items.
pub open spec fn order_keys(ids: Seq<Seq<char>>, order: Seq<Seq<char>>) -> Seq<nat> {
    Seq::new(ids.len(), |i: int| order_key(ids, order, i))
}

/// `after` is `before` stably sorted by the keys that `order` gives.
pub open spec fn reordered<T: Keyed>(before: Seq<T>, order: Seq<Seq<char>>, after: Seq<T>) -> bool {
    exists|perm: Seq<int>| #[trigger] is_stable_sort(perm, order_keys(ids_of(before), order))
        && after.len() == before.len()
        && forall|k: int| 0 <= k < after.len() ==> after[k] == before[#[trigger] perm[k]]
}

fn rank_of(order: &[String], key: &String) -> (r: Option<usize>)
    ensures
        last_rank(texts(order@), key@) == (match r { Some(j) => Some(j as nat), None => None }),
        r matches Some(j) ==> j < order@.len(),
{
    let mut j = order.len();
    assert(texts(order@).take(j as int) =~= texts(order@));
    while j > 0
        invariant
            j <= order@.len(),
            last_rank(texts(order@), key@) == last_rank(texts(order@).take(j as int), key@),
        decreases j,
    {
        assert(texts(order@).take(j as int).drop_last() =~= texts(order@).take(j - 1));
        if order[j - 1] == *key {
            return Some(j - 1);
        }
        j -= 1;
    }
    None
}

/// Put `items` in the order given by `order` (a list of ids): listed ids
/// first, by their last index in `order`; the others after them, keeping
/// the order of their last occurrence; items with equal keys keep their
/// relative order.
pub fn apply_id_order<T: Keyed>(items: &mut Vec<T>, order: &[String])
    requires
        order@.len() + old(items)@.len() <= usize::MAX,
    ensures
        reordered(old(items)@, texts(order@), final(items)@),
{
    let ghost ids = ids_of(items@);
    let ghost ord = texts(order@);
    let n = items.len();
    // ranks of the listed ids
    let mut ranks: Vec<Option<usize>> = Vec::new();
    for i in 0..n
        invariant
            n == items@.len(),
            ids == ids_of(items@),
            ord == texts(order@),
            ranks@.len() == i,
            forall|k: int| 0 <= k < i ==> last_rank(ord, ids[k]) == (match #[trigger] ranks@[k] { Some(j) => Some(j as nat), None => None }),
            forall|k: int| 0 <= k < i ==> (#[trigger] ranks@[k] matches Some(j) ==> j < order@.len()),
    {
        let r = rank_of(order, items[i].key_string());
        ranks.push(r);
    }
    // counts of unlisted items before each position
    let mut counts: Vec<usize> = Vec::new();
    counts.push(0);
    let mut c: usize = 0;
    for i in 0..n
        invariant
            n == ranks@.len(),
            n == ids.len(),
            n <= usize::MAX - order@.len(),
            counts@.len() == i + 1,
            c == counts@[i as int],
            c <= i,
            forall|k: int| 0 <= k <= i ==> #[trigger] counts@[k] == unranked_before(ids, ord, k),
            forall|k: int| 0 <= k <= i ==> #[trigger] counts@[k] <= k,
            forall|k: int| 0 <= k < n ==> last_rank(ord, ids[k]) == (match #[trigger] ranks@[k] { Some(j) => Some(j as nat), None => None }),
    {
        if ranks[i].is_none() {
            c = c + 1;
        }
        counts.push(c);
    }
    // sort keys
    let mut keys: Vec<usize> = Vec::new();
    for i in 0..n
        invariant
            n == items@.len(),
            n == ranks@.len(),
            n == ids.len(),
            ids == ids_of(items@),
            counts@.len() == n + 1,
            n <= usize::MAX - order@.len(),
            forall|k: int| 0 <= k <= n ==> #[trigger] counts@[k] == unranked_before(ids, ord, k),
            forall|k: int| 0 <= k <= n ==> #[trigger] counts@[k] <= k,
            forall|k: int| 0 <= k < n ==> last_rank(ord, ids[k]) == (match #[trigger] ranks@[k] { Some(j) => Some(j as nat), None => None }),
            ord.len() == order@.len(),
            keys@.len() == i,
            forall|k: int| 0 <= k < i ==> #[trigger] keys@[k] as nat == order_key(ids, ord, k),
    {
        match ranks[i] {
            Some(r) => {
                keys.push(r);
            }
            None => {
                // the last item with the same id
                let mut p = n - 1;
                while p > i && *items[p].key_string() != *items[i].key_string()
                    invariant
                        n == items@.len(),
                        ids == ids_of(items@),
                        i <= p < n,
                        forall|k: int| p < k < n ==> ids[k] != ids[i as int],
                    decreases p,
                {
                    p -= 1;
                }
                assert(ids[p as int] == ids[i as int]);
                assert(is_last_occurrence(ids, p as int));
                let ghost chosen = choose|q: int| i <= q < ids.len() && ids[q] == ids[i as int] && is_last_occurrence(ids, q);
                assert(chosen == p) by {
                    if chosen < p {
                        assert(ids[p as int] != ids[chosen]);
                    } else if chosen > p {
                        assert(ids[chosen] != ids[i as int]);
                    }
                }
                keys.push(order.len() + counts[p]);
            }
        }
    }
    let ghost items0 = items@;
    let ghost keys0 = keys@;
    assert(keys0.map_values(|k: usize| k as nat) =~= order_keys(ids, ord));
    let perm = stable_sort(items, &mut keys);
    assert(is_stable_sort(perm@, order_keys(ids_of(items0), ord)));
}


/// No id occurs twice.
pub open spec fn distinct_ids(ids: Seq<Seq<char>>) -> bool {
    forall|a: int, b: int| 0 <= a < b < ids.len() ==> ids[a] != ids[b]
}

pub proof fn lemma_last_rank_distinct(order: Seq<Seq<char>>, j: int)
    requires
        distinct_ids(order),
        0 <= j < order.len(),
    ensures
        last_rank(order, order[j]) == Some(j as nat),
    decreases order.len(),
{
    if j < order.len() - 1 {
        assert(order.last() != order[j]);
        let d = order.drop_last();
        assert(d[j] == order[j]);
        lemma_last_rank_distinct(d, j);
    }
}

pub proof fn lemma_increasing_is_identity(r: Seq<int>)
    requires
        forall|k: int| 0 <= k < r.len() ==> 0 <= #[trigger] r[k] < r.len(),
        forall|a: int, b: int| 0 <= a < b < r.len() ==> r[a] < r[b],
    ensures
        forall|k: int| 0 <= k < r.len() ==> #[trigger] r[k] == k,
{
    assert forall|k: int| 0 <= k < r.len() implies #[trigger] r[k] == k by {
        lemma_increasing_lower(r, k);
        lemma_increasing_upper(r, k);
    }
}

proof fn lemma_increasing_lower(r: Seq<int>, k: int)
    requires
        0 <= k < r.len(),
        forall|i: int| 0 <= i < r.len() ==> 0 <= #[trigger] r[i] < r.len(),
        forall|a: int, b: int| 0 <= a < b < r.len() ==> r[a] < r[b],
    ensures
        r[k] >= k,
    decreases k,
{
    if k > 0 {
        lemma_increasing_lower(r, k - 1);
        assert(r[k - 1] < r[k]);
    }
}

proof fn lemma_increasing_upper(r: Seq<int>, k: int)
    requires
        0 <= k < r.len(),
        forall|i: int| 0 <= i < r.len() ==> 0 <= #[trigger] r[i] < r.len(),
        forall|a: int, b: int| 0 <= a < b < r.len() ==> r[a] < r[b],
    ensures
        r[k] <= k,
    decreases r.len() - k,
{
    if k < r.len() - 1 {
        lemma_increasing_upper(r, k + 1);
        assert(r[k] < r[k + 1]);
    } else {
        assert(r[k] < r.len());
    }
}

/// Re-ordering by some id list and then by the ids of the original
/// sequence (all distinct) gives back the original sequence: undoing a
/// z-order change restores the old order.
pub proof fn law_reorder_back_restores<T: Keyed>(orig: Seq<T>, order: Seq<Seq<char>>, mid: Seq<T>, back: Seq<T>)
    requires
        distinct_ids(ids_of(orig)),
        reordered(orig, order, mid),
        reordered(mid, ids_of(orig), back),
    ensures
        back == orig,
{
    let n = orig.len();
    let q = choose|perm: Seq<int>| #[trigger] is_stable_sort(perm, order_keys(ids_of(orig), order))
        && mid.len() == orig.len()
        && forall|k: int| 0 <= k < mid.len() ==> mid[k] == orig[#[trigger] perm[k]];
    let keys2 = order_keys(ids_of(mid), ids_of(orig));
    let p = choose|perm: Seq<int>| #[trigger] is_stable_sort(perm, keys2)
        && back.len() == mid.len()
        && forall|k: int| 0 <= k < back.len() ==> back[k] == mid[#[trigger] perm[k]];
    assert forall|k: int| 0 <= k < n implies #[trigger] keys2[k] == q[k] by {
        lemma_last_rank_distinct(ids_of(orig), q[k]);
        assert(ids_of(mid)[k] == ids_of(orig)[q[k]]);
    }
    let r = Seq::new(n, |k: int| q[p[k]]);
    assert forall|a: int, b: int| 0 <= a < b < r.len() implies r[a] < r[b] by {
        assert(keys2[p[a]] <= keys2[p[b]]);
        assert(p[a] != p[b]);
        assert(q[p[a]] != q[p[b]]);
    }
    lemma_increasing_is_identity(r);
    assert forall|k: int| 0 <= k < n implies back[k] == orig[k] by {
        assert(r[k] == k);
    }
    assert(back =~= orig);
}

} // verus!
