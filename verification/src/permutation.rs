//! Index permutations: deriving one from a sequence of sort keys, and moving
//! fixed-size groups of bytes forward and backward through it.

use vstd::arithmetic::div_mod::lemma_fundamental_div_mod_converse;
use vstd::arithmetic::div_mod::lemma_fundamental_div_mod;
use vstd::arithmetic::div_mod::lemma_multiply_divide_lt;
use vstd::arithmetic::div_mod::lemma_div_pos_is_pos;
use vstd::arithmetic::div_mod::lemma_mod_bound;
use vstd::prelude::*;
use vstd::relations::total_ordering;
use vstd::seq_lib::lemma_multiset_commutative;
use vstd::seq_lib::to_multiset_build;
use vstd::seq_lib::to_multiset_contains;
use vstd::seq_lib::to_multiset_len;

verus! {

/// `p` is a bijection over the indices `0..p.len()`: every entry is an index,
/// no index occurs twice, and every index occurs.
pub open spec fn is_permutation(p: Seq<usize>) -> bool {
    &&& forall|i: int| 0 <= i < p.len() ==> #[trigger] p[i] < p.len()
    &&& forall|i: int, j: int| 0 <= i < j < p.len() ==> p[i] != p[j]
    &&& forall|v: int| 0 <= v < p.len() ==> #[trigger] occurs(p, v)
}

/// The index `v` is an entry of `p`.
pub open spec fn occurs(p: Seq<usize>, v: int) -> bool {
    exists|i: int| 0 <= i < p.len() && p[i] == v
}

/// The strict order in which indices are sorted: by key first, and among
/// equal keys by the index itself.
pub open spec fn precedes(keys: Seq<u64>, a: int, b: int) -> bool {
    keys[a] < keys[b] || (keys[a] == keys[b] && a < b)
}

/// `p` lists the indices of `keys` in ascending order of (key, index).
pub open spec fn is_argsort(keys: Seq<u64>, p: Seq<usize>) -> bool {
    &&& p.len() == keys.len()
    &&& is_permutation(p)
    &&& forall|i: int, j: int|
        0 <= i < j < p.len() ==> precedes(keys, #[trigger] p[i] as int, #[trigger] p[j] as int)
}

/// The permutation that sorting `keys` yields. `lemma_argsort_unique` shows
/// that exactly one sequence satisfies `is_argsort`, so this names it.
pub open spec fn sorted_order(keys: Seq<u64>) -> Seq<usize> {
    choose|p: Seq<usize>| is_argsort(keys, p)
}

/// The inverse of a permutation: at `v` it holds the index at which `p` holds `v`.
pub open spec fn inverse(p: Seq<usize>) -> Seq<usize> {
    Seq::new(p.len(), |v: int| choose|i: usize| i < p.len() && p[i as int] == v)
}

/// `data` seen as groups of `g` bytes, rearranged so that group `i` of the
/// result is group `p[i]` of `data`.
pub open spec fn permute_groups(data: Seq<u8>, p: Seq<usize>, g: int) -> Seq<u8> {
    Seq::new((p.len() * g) as nat, |x: int| data[p[x / g] * g + x % g])
}

/// The indices `lo..hi` in ascending order.
spec fn span(lo: int, hi: int) -> Seq<usize> {
    Seq::new((hi - lo) as nat, |k: int| (lo + k) as usize)
}

/// The non-strict form of `precedes`.
spec fn at_most(keys: Seq<u64>, a: int, b: int) -> bool {
    keys[a] < keys[b] || (keys[a] == keys[b] && a <= b)
}

/// Every entry of `s` is an index into `keys`, and the entries ascend by (key, index).
spec fn ordered(keys: Seq<u64>, s: Seq<usize>) -> bool {
    &&& forall|i: int| 0 <= i < s.len() ==> #[trigger] s[i] < keys.len()
    &&& forall|i: int, j: int|
        0 <= i < j < s.len() ==> at_most(keys, #[trigger] s[i] as int, #[trigger] s[j] as int)
}

/// Position `q * g + r` lies in group `q` at offset `r`.
pub proof fn lemma_group_slot(q: int, r: int, g: int, n: int)
    requires
        0 <= q < n,
        0 <= r < g,
    ensures
        (q * g + r) / g == q,
        (q * g + r) % g == r,
        0 <= q * g + r < n * g,
{
    lemma_fundamental_div_mod_converse(q * g + r, g, q, r);
    assert(0 <= q * g && q * g + r < n * g) by (nonlinear_arith)
        requires
            0 <= q < n,
            0 <= r < g,
    ;
}

/// A position below `n * g` lies in one of the `n` groups.
pub proof fn lemma_slot_group(x: int, g: int, n: int)
    requires
        0 <= x < n * g,
        0 < g,
    ensures
        0 <= x / g < n,
        0 <= x % g < g,
        x == (x / g) * g + x % g,
{
    lemma_fundamental_div_mod(x, g);
    lemma_div_pos_is_pos(x, g);
    lemma_mod_bound(x, g);
    assert(x < g * n) by (nonlinear_arith)
        requires
            x < n * g,
    ;
    lemma_multiply_divide_lt(x, g, n);
    assert(g * (x / g) == (x / g) * g) by (nonlinear_arith);
}

/// A sequence that holds the same items as `0..n`, each as often, is a
/// permutation of length `n`.
proof fn lemma_rearranged_span(p: Seq<usize>, n: int)
    requires
        0 <= n <= usize::MAX,
        p.to_multiset() == span(0, n).to_multiset(),
    ensures
        p.len() == n,
        is_permutation(p),
{
    let s = span(0, n);
    to_multiset_len(p);
    to_multiset_len(s);
    assert(s.no_duplicates());
    s.lemma_multiset_has_no_duplicates();
    p.lemma_multiset_has_no_duplicates_conv();
    assert forall|i: int| 0 <= i < p.len() implies #[trigger] p[i] < p.len() by {
        assert(p.contains(p[i]));
        to_multiset_contains(p, p[i]);
        to_multiset_contains(s, p[i]);
        let k = choose|k: int| 0 <= k < s.len() && s[k] == p[i];
        assert(s[k] == k);
    }
    assert forall|v: int| 0 <= v < p.len() implies #[trigger] occurs(p, v) by {
        assert(s[v] == v as usize);
        assert(s.contains(v as usize));
        to_multiset_contains(s, v as usize);
        to_multiset_contains(p, v as usize);
        let i = choose|i: int| 0 <= i < p.len() && p[i] == v as usize;
        assert(p[i] == v);
    }
}

/// Merges two ascending runs of indices into one.
fn merge(keys: &Vec<u64>, left: &Vec<usize>, right: &Vec<usize>) -> (out: Vec<usize>)
    requires
        ordered(keys@, left@),
        ordered(keys@, right@),
    ensures
        ordered(keys@, out@),
        out@.to_multiset() == left@.to_multiset().add(right@.to_multiset()),
{
    let mut out: Vec<usize> = Vec::new();
    let mut i: usize = 0;
    let mut j: usize = 0;
    assert(left@.take(0) =~= Seq::<usize>::empty());
    assert(right@.take(0) =~= Seq::<usize>::empty());
    assert(out@.to_multiset() =~= left@.take(0).to_multiset().add(right@.take(0).to_multiset()))
        by {
        lemma_multiset_commutative(left@.take(0), right@.take(0));
        assert(left@.take(0) + right@.take(0) =~= out@);
    }
    while i < left.len() || j < right.len()
        invariant
            i <= left.len(),
            j <= right.len(),
            ordered(keys@, left@),
            ordered(keys@, right@),
            ordered(keys@, out@),
            out@.to_multiset() == left@.take(i as int).to_multiset().add(
                right@.take(j as int).to_multiset(),
            ),
            i < left.len() ==> forall|x: int|
                0 <= x < out.len() ==> at_most(keys@, #[trigger] out[x] as int, left[i as int] as int),
            j < right.len() ==> forall|x: int|
                0 <= x < out.len() ==> at_most(
                    keys@,
                    #[trigger] out[x] as int,
                    right[j as int] as int,
                ),
        decreases left.len() - i + right.len() - j,
    {
        let from_left = if i == left.len() {
            false
        } else if j == right.len() {
            true
        } else {
            let a = left[i];
            let b = right[j];
            keys[a] < keys[b] || (keys[a] == keys[b] && a <= b)
        };
        let ghost before = out@;
        if from_left {
            let a = left[i];
            out.push(a);
            proof {
                to_multiset_build(before, a);
                to_multiset_build(left@.take(i as int), a);
                assert(left@.take(i + 1) =~= left@.take(i as int).push(a));
                assert(out@.to_multiset() =~= left@.take(i + 1).to_multiset().add(
                    right@.take(j as int).to_multiset(),
                ));
            }
            i += 1;
        } else {
            let b = right[j];
            out.push(b);
            proof {
                to_multiset_build(before, b);
                to_multiset_build(right@.take(j as int), b);
                assert(right@.take(j + 1) =~= right@.take(j as int).push(b));
                assert(out@.to_multiset() =~= left@.take(i as int).to_multiset().add(
                    right@.take(j + 1).to_multiset(),
                ));
            }
            j += 1;
        }
    }
    assert(left@.take(i as int) =~= left@);
    assert(right@.take(j as int) =~= right@);
    out
}

/// Sorts the indices `lo..hi` by (key, index) with a top-down merge sort.
fn sort_span(keys: &Vec<u64>, lo: usize, hi: usize) -> (out: Vec<usize>)
    requires
        lo <= hi <= keys.len(),
    ensures
        ordered(keys@, out@),
        out@.to_multiset() == span(lo as int, hi as int).to_multiset(),
    decreases hi - lo,
{
    if hi - lo == 0 {
        let out: Vec<usize> = Vec::new();
        assert(out@ =~= span(lo as int, hi as int));
        out
    } else if hi - lo == 1 {
        let mut out: Vec<usize> = Vec::new();
        out.push(lo);
        assert(out@ =~= span(lo as int, hi as int));
        out
    } else {
        let mid: usize = lo + (hi - lo) / 2;
        let left = sort_span(keys, lo, mid);
        let right = sort_span(keys, mid, hi);
        proof {
            let a = span(lo as int, mid as int);
            let b = span(mid as int, hi as int);
            assert(a + b =~= span(lo as int, hi as int));
            lemma_multiset_commutative(a, b);
        }
        merge(keys, &left, &right)
    }
}

/// Derives the permutation of a key sequence: the indices of `keys` sorted
/// ascending by key, equal keys by index. The result is a bijection over
/// `0..keys.len()`, and it is the only sequence that `is_argsort` admits.
pub fn argsort(keys: &Vec<u64>) -> (p: Vec<usize>)
    ensures
        is_argsort(keys@, p@),
        p@ == sorted_order(keys@),
{
    let p = sort_span(keys, 0, keys.len());
    proof {
        lemma_rearranged_span(p@, keys.len() as int);
        assert forall|i: int, j: int| 0 <= i < j < p@.len() implies precedes(
            keys@,
            #[trigger] p@[i] as int,
            #[trigger] p@[j] as int,
        ) by {
            assert(at_most(keys@, p@[i] as int, p@[j] as int));
            assert(p@[i] != p@[j]);
        }
        assert(is_argsort(keys@, p@));
        lemma_argsort_unique(keys@, p@, sorted_order(keys@));
    }
    p
}

/// Every key sequence that fits in memory has a sorted order.
pub proof fn lemma_argsort_exists(keys: Seq<u64>)
    requires
        keys.len() <= usize::MAX,
    ensures
        is_argsort(keys, sorted_order(keys)),
{
    let leq = |a: usize, b: usize| at_most(keys, a as int, b as int);
    assert(total_ordering(leq));
    let s = span(0, keys.len() as int);
    s.lemma_sort_by_ensures(leq);
    let p = s.sort_by(leq);
    lemma_rearranged_span(p, keys.len() as int);
    assert forall|i: int, j: int| 0 <= i < j < p.len() implies precedes(
        keys,
        #[trigger] p[i] as int,
        #[trigger] p[j] as int,
    ) by {
        assert(leq(p[i], p[j]));
        assert(p[i] != p[j]);
    }
    assert(is_argsort(keys, p));
}

/// Two sequences that both list the indices of `keys` in ascending order of
/// (key, index) are the same sequence: sorting has one result.
pub proof fn lemma_argsort_unique(keys: Seq<u64>, p: Seq<usize>, q: Seq<usize>)
    requires
        is_argsort(keys, p),
        is_argsort(keys, q),
    ensures
        p == q,
{
    assert forall|i: int| 0 <= i < p.len() implies p[i] == q[i] by {
        lemma_argsort_agree(keys, p, q, i);
    }
    assert(p =~= q);
}

/// Two sorted orders of the same keys agree at every position up to `i`.
proof fn lemma_argsort_agree(keys: Seq<u64>, p: Seq<usize>, q: Seq<usize>, i: int)
    requires
        is_argsort(keys, p),
        is_argsort(keys, q),
        0 <= i < p.len(),
    ensures
        forall|k: int| 0 <= k <= i ==> p[k] == q[k],
    decreases i,
{
    if i > 0 {
        lemma_argsort_agree(keys, p, q, i - 1);
    }
    if p[i] != q[i] {
        // Each of the two values occurs in the other sequence, and can only
        // stand after position i there, which puts each before the other.
        let a = p[i] as int;
        let b = q[i] as int;
        assert(p[i] < p.len());
        assert(q[i] < q.len());
        assert(occurs(q, a));
        assert(occurs(p, b));
        let j = choose|j: int| 0 <= j < q.len() && q[j] == a;
        let k = choose|k: int| 0 <= k < p.len() && p[k] == b;
        if j < i {
            assert(p[j] == q[j]);
            assert(p[j] != p[i]);
        }
        if k < i {
            assert(q[k] == p[k]);
            assert(q[k] != q[i]);
        }
        assert(j > i && k > i);
        assert(precedes(keys, q[i] as int, q[j] as int));
        assert(precedes(keys, p[i] as int, p[k] as int));
    }
}

/// Moves the groups of `data` forward through `p`: group `i` of the result
/// is group `p[i]` of `data`.
pub fn apply_forward(data: &Vec<u8>, p: &Vec<usize>, group_size: usize) -> (out: Vec<u8>)
    requires
        group_size > 0,
        data.len() == p.len() * group_size,
        forall|i: int| 0 <= i < p.len() ==> #[trigger] p[i] < p.len(),
    ensures
        out@ == permute_groups(data@, p@, group_size as int),
        out.len() == data.len(),
{
    let n = p.len();
    let mut out: Vec<u8> = Vec::with_capacity(data.len());
    let mut i: usize = 0;
    while i < n
        invariant
            i <= n,
            n == p.len(),
            group_size > 0,
            data.len() == n * group_size,
            forall|i: int| 0 <= i < p.len() ==> #[trigger] p[i] < p.len(),
            out.len() == i * group_size,
            forall|x: int|
                0 <= x < out.len() ==> #[trigger] out[x] == data[p[x / (group_size as int)]
                    * group_size + x % (group_size as int)],
        decreases n - i,
    {
        let index = p[i];
        let mut k: usize = 0;
        while k < group_size
            invariant
                i < n,
                n == p.len(),
                k <= group_size,
                index == p[i as int],
                index < n,
                data.len() == n * group_size,
                out.len() == i * group_size + k,
                forall|x: int|
                    0 <= x < out.len() ==> #[trigger] out[x] == data[p[x / (group_size as int)]
                        * group_size + x % (group_size as int)],
            decreases group_size - k,
        {
            proof {
                lemma_group_slot(index as int, k as int, group_size as int, n as int);
                lemma_group_slot(i as int, k as int, group_size as int, n as int);
            }
            let source = index * group_size + k;
            out.push(data[source]);
            k += 1;
        }
        proof {
            assert((i + 1) * group_size == i * group_size + group_size) by (nonlinear_arith);
        }
        i += 1;
    }
    assert(out@ =~= permute_groups(data@, p@, group_size as int));
    out
}

/// Computes the inverse of a permutation.
pub fn invert(p: &Vec<usize>) -> (lookup: Vec<usize>)
    requires
        is_permutation(p@),
    ensures
        lookup@ == inverse(p@),
        is_permutation(lookup@),
{
    let n = p.len();
    let mut lookup: Vec<usize> = Vec::with_capacity(n);
    let mut z: usize = 0;
    while z < n
        invariant
            z <= n,
            lookup.len() == z,
        decreases n - z,
    {
        lookup.push(0);
        z += 1;
    }
    let mut i: usize = 0;
    while i < n
        invariant
            i <= n,
            n == p.len(),
            lookup.len() == n,
            is_permutation(p@),
            forall|k: int| 0 <= k < i ==> lookup[#[trigger] p[k] as int] == k,
        decreases n - i,
    {
        let index = p[i];
        lookup.set(index, i);
        i += 1;
    }
    proof {
        lemma_inverse(p@);
        assert forall|v: int| 0 <= v < n implies lookup@[v] == inverse(p@)[v] by {
            assert(occurs(p@, v));
            let k = choose|k: int| 0 <= k < p.len() && p[k] == v;
            assert(lookup[p[k] as int] == k);
            assert(p[inverse(p@)[v] as int] == v);
        }
        assert(lookup@ =~= inverse(p@));
    }
    lookup
}

/// The inverse of a permutation is a permutation, and each undoes the other.
pub proof fn lemma_inverse(p: Seq<usize>)
    requires
        is_permutation(p),
    ensures
        is_permutation(inverse(p)),
        inverse(p).len() == p.len(),
        forall|v: int| 0 <= v < p.len() ==> p[#[trigger] inverse(p)[v] as int] == v,
        forall|i: int| 0 <= i < p.len() ==> inverse(p)[#[trigger] p[i] as int] == i,
{
    let inv = inverse(p);
    assert forall|v: int| 0 <= v < p.len() implies #[trigger] inv[v] < p.len() && p[inv[v] as int]
        == v by {
        assert(occurs(p, v));
        let k = choose|k: int| 0 <= k < p.len() && p[k] == v;
        assert(occurs(p, k));
        let ku = k as usize;
        assert(ku < p.len() && p[ku as int] == v);
    }
    assert forall|i: int| 0 <= i < p.len() implies inv[#[trigger] p[i] as int] == i by {
        let v = p[i] as int;
        assert(p[inv[v] as int] == v);
    }
    assert forall|v: int| 0 <= v < inv.len() implies #[trigger] occurs(inv, v) by {
        assert(inv[p[v] as int] == v);
    }
}

/// Moves the groups of `data` backward through `p`, which undoes
/// `apply_forward` with the same `p`: group `p[i]` of the result is group
/// `i` of `data`.
pub fn apply_backward(data: &Vec<u8>, p: &Vec<usize>, group_size: usize) -> (out: Vec<u8>)
    requires
        group_size > 0,
        data.len() == p.len() * group_size,
        is_permutation(p@),
    ensures
        out@ == permute_groups(data@, inverse(p@), group_size as int),
        out.len() == data.len(),
{
    let lookup = invert(p);
    apply_forward(data, &lookup, group_size)
}

/// Moving groups forward through a permutation and then backward through
/// the same permutation gives the data back.
pub proof fn lemma_backward_undoes_forward(data: Seq<u8>, p: Seq<usize>, g: int)
    requires
        g > 0,
        data.len() == p.len() * g,
        is_permutation(p),
    ensures
        permute_groups(permute_groups(data, p, g), inverse(p), g) == data,
{
    let n = p.len() as int;
    let inv = inverse(p);
    let mid = permute_groups(data, p, g);
    let back = permute_groups(mid, inv, g);
    lemma_inverse(p);
    assert forall|x: int| 0 <= x < data.len() implies back[x] == data[x] by {
        lemma_slot_group(x, g, n);
        let q = x / g;
        let r = x % g;
        let y = inv[q] * g + r;
        lemma_group_slot(inv[q] as int, r, g, n);
        assert(mid[y] == data[p[y / g] * g + y % g]);
    }
    assert(back =~= data);
}

/// Moving groups backward through a permutation and then forward through
/// the same permutation gives the data back.
pub proof fn lemma_forward_undoes_backward(data: Seq<u8>, p: Seq<usize>, g: int)
    requires
        g > 0,
        data.len() == p.len() * g,
        is_permutation(p),
    ensures
        permute_groups(permute_groups(data, inverse(p), g), p, g) == data,
{
    let n = p.len() as int;
    let inv = inverse(p);
    let mid = permute_groups(data, inv, g);
    let back = permute_groups(mid, p, g);
    lemma_inverse(p);
    assert forall|x: int| 0 <= x < data.len() implies back[x] == data[x] by {
        lemma_slot_group(x, g, n);
        let q = x / g;
        let r = x % g;
        let y = p[q] * g + r;
        lemma_group_slot(p[q] as int, r, g, n);
        assert(mid[y] == data[inv[y / g] * g + y % g]);
    }
    assert(back =~= data);
}

} // verus!
