//! The splat array: parallel arrays of quantized splats, spherical
//! harmonics and LoD extras, and the operations that keep them aligned.

use vstd::prelude::*;
use vstd::set_lib::{lemma_int_range, lemma_len_subset, lemma_map_size, lemma_subset_equality, set_int_range};
use vstd::relations::injective_on;
use crate::decoder::SplatInit;
use crate::quick_lod::{is_key_order, order_by_keys, LodLayout};

verus! {

/// Whether `m` holds each of the indices `0..m.len()` once.
pub open spec fn is_permutation(m: Seq<usize>) -> bool {
    &&& forall|i: int| 0 <= i < m.len() ==> #[trigger] m[i] < m.len()
    &&& forall|i: int, j: int| 0 <= i < j < m.len() ==> m[i] != m[j]
}

/// `s` with the entries at `a` and `b` exchanged.
pub open spec fn swap_seq<T>(s: Seq<T>, a: int, b: int) -> Seq<T> {
    s.update(a, s[b]).update(b, s[a])
}

/// `s` after the first `k` of `swaps` are made, one after the other.
pub open spec fn apply_swaps_spec<T>(s: Seq<T>, swaps: Seq<(usize, usize)>, k: int) -> Seq<T>
    decreases k,
{
    if k <= 0 {
        s
    } else {
        swap_seq(
            apply_swaps_spec(s, swaps, k - 1),
            swaps[k - 1].0 as int,
            swaps[k - 1].1 as int,
        )
    }
}

/// Whether every swap exchanges two places below `n`.
pub open spec fn swaps_within(swaps: Seq<(usize, usize)>, n: int) -> bool {
    forall|k: int| 0 <= k < swaps.len() ==> (#[trigger] swaps[k]).0 < n && swaps[k].1 < n
}

/// The indices `0..n` in their order.
pub open spec fn identity_map(n: nat) -> Seq<usize> {
    Seq::new(n, |i: int| i as usize)
}

/// `data` rearranged so that place `new` holds what place `index_map[new]`
/// held.
pub open spec fn permuted<T>(data: Seq<T>, index_map: Seq<usize>) -> Seq<T> {
    Seq::new(index_map.len(), |new: int| data[index_map[new] as int])
}

/// Swaps keep the length.
pub proof fn lemma_apply_swaps_len<T>(s: Seq<T>, swaps: Seq<(usize, usize)>, k: int)
    requires
        k <= swaps.len(),
        swaps_within(swaps, s.len() as int),
    ensures
        apply_swaps_spec(s, swaps, k).len() == s.len(),
    decreases k,
{
    if k > 0 {
        lemma_apply_swaps_len(s, swaps, k - 1);
    }
}

/// Swaps move the entries of any array as they move the indices: what they
/// make of `data` is `data` read through what they make of `0..n`.
pub proof fn lemma_apply_swaps_reindex<T>(data: Seq<T>, swaps: Seq<(usize, usize)>, k: int)
    requires
        k <= swaps.len(),
        swaps_within(swaps, data.len() as int),
        data.len() <= usize::MAX,
    ensures
        apply_swaps_spec(data, swaps, k) == permuted(
            data,
            apply_swaps_spec(identity_map(data.len()), swaps, k),
        ),
        apply_swaps_spec(identity_map(data.len()), swaps, k).len() == data.len(),
        forall|p: int|
            0 <= p < data.len() ==> #[trigger] apply_swaps_spec(
                identity_map(data.len()),
                swaps,
                k,
            )[p] < data.len(),
    decreases k,
{
    let id = identity_map(data.len());
    if k <= 0 {
        assert(data =~= permuted(data, id));
    } else {
        lemma_apply_swaps_reindex(data, swaps, k - 1);
        let a = swaps[k - 1].0 as int;
        let b = swaps[k - 1].1 as int;
        let d0 = apply_swaps_spec(data, swaps, k - 1);
        let m0 = apply_swaps_spec(id, swaps, k - 1);
        assert(swap_seq(d0, a, b) =~= permuted(data, swap_seq(m0, a, b)));
    }
}

/// Whether `m` holds `v`.
pub open spec fn hit_by(m: Seq<usize>, v: int) -> bool {
    exists|i: int| 0 <= i < m.len() && #[trigger] m[i] == v
}

/// A permutation holds every index.
pub proof fn lemma_permutation_onto(m: Seq<usize>)
    requires
        is_permutation(m),
    ensures
        forall|v: int| 0 <= v < m.len() ==> #[trigger] hit_by(m, v),
{
    let n = m.len() as int;
    let x = set_int_range(0, n);
    let f = |i: int| m[i] as int;
    let y = x.map(f);
    lemma_int_range(0, n);
    assert(injective_on(f, x)) by {
        assert forall|a: int, b: int| x.contains(a) && x.contains(b) && #[trigger] f(a)
            == #[trigger] f(b) implies a == b by {
            if a < b {
                assert(m[a] != m[b]);
            } else if b < a {
                assert(m[b] != m[a]);
            }
        }
    }
    lemma_map_size(x, y, f);
    assert(y.subset_of(x)) by {
        assert forall|v: int| y.contains(v) implies x.contains(v) by {
            let i = choose|i: int| x.contains(i) && f(i) == v;
            assert(m[i] < m.len());
        }
    }
    lemma_subset_equality(y, x);
    assert forall|v: int| 0 <= v < m.len() implies #[trigger] hit_by(m, v) by {
        assert(x.contains(v));
        assert(y.contains(v));
        let i = choose|i: int| x.contains(i) && f(i) == v;
        assert(0 <= i < m.len() && m[i] == v);
    }
}

/// Checks that `index_map` holds each of its indices once.
pub fn check_permutation(index_map: &[usize]) -> (ok: bool)
    ensures
        ok == is_permutation(index_map@),
{
    let n = index_map.len();
    let mut seen: Vec<bool> = Vec::new();
    seen.resize(n, false);
    let mut i: usize = 0;
    while i < n
        invariant
            i <= n,
            n == index_map@.len(),
            seen@.len() == n,
            forall|k: int| 0 <= k < i ==> #[trigger] index_map@[k] < n,
            forall|a: int, b: int| 0 <= a < b < i ==> index_map@[a] != index_map@[b],
            forall|v: int|
                0 <= v < n ==> (#[trigger] seen@[v] <==> exists|k: int|
                    0 <= k < i && index_map@[k] == v),
        decreases n - i,
    {
        let v = index_map[i];
        if v >= n {
            return false;
        }
        if seen[v] {
            proof {
                let k = choose|k: int| 0 <= k < i && index_map@[k] == v;
                assert(index_map@[k] == index_map@[i as int]);
            }
            return false;
        }
        seen[v] = true;
        proof {
            assert forall|w: int| 0 <= w < n implies (#[trigger] seen@[w] <==> exists|k: int|
                0 <= k < i + 1 && index_map@[k] == w) by {
                if w == v {
                    assert(index_map@[i as int] == w);
                } else if seen@[w] {
                    let k = choose|k: int| 0 <= k < i && index_map@[k] == w;
                    assert(0 <= k < i + 1 && index_map@[k] == w);
                } else {
                    if exists|k: int| 0 <= k < i + 1 && index_map@[k] == w {
                        let k = choose|k: int| 0 <= k < i + 1 && index_map@[k] == w;
                        assert(k < i);
                    }
                }
            }
        }
        i += 1;
    }
    true
}

/// `<[T]>::swap` of std: the entries at `a` and `b` change places. It
/// panics where an index is out of bounds, which `requires` leaves out.
pub assume_specification<Entry>[ <[Entry]>::swap ](slice: &mut [Entry], a: usize, b: usize)
    requires
        a < old(slice)@.len(),
        b < old(slice)@.len(),
    ensures
        final(slice)@ == swap_seq(old(slice)@, a as int, b as int),
;

/// Where what stands at each old place comes to stand: `index_map` read the
/// other way round.
pub open spec fn places_of(index_map: Seq<usize>) -> Seq<usize> {
    Seq::new(
        index_map.len(),
        |p: int| (choose|i: int| 0 <= i < index_map.len() && index_map[i] == p) as usize,
    )
}

/// The swaps of a walk through the cycles of `dest` from place `i` on,
/// `fuel` swaps at most: while place `i` is to go to another place `j`, `i`
/// and `j` are exchanged, which brings `j` to rest; then the walk goes on
/// from the next place.
pub open spec fn cycle_swaps(dest: Seq<usize>, i: int, fuel: nat) -> Seq<(usize, usize)>
    decreases fuel, dest.len() - i,
{
    if i < 0 || i >= dest.len() {
        Seq::empty()
    } else if dest[i] == i {
        cycle_swaps(dest, i + 1, fuel)
    } else if fuel == 0 {
        Seq::empty()
    } else {
        seq![(i as usize, dest[i])] + cycle_swaps(
            swap_seq(dest, i, dest[i] as int),
            i,
            (fuel - 1) as nat,
        )
    }
}

/// The swaps that rearrange an array by `index_map`, where `index_map[new]`
/// is the old place of what comes to stand at `new`: the permutation is
/// taken apart into its cycles.
pub fn compute_swaps(index_map: &[usize]) -> (swaps: Vec<(usize, usize)>)
    requires
        is_permutation(index_map@),
    ensures
        swaps@ == cycle_swaps(places_of(index_map@), 0, index_map@.len()),
        swaps_within(swaps@, index_map@.len() as int),
        apply_swaps_spec(identity_map(index_map@.len()), swaps@, swaps@.len() as int)
            == index_map@,
        swaps@.len() <= index_map@.len(),
{
    let n = index_map.len();
    let ghost m = index_map@;
    // dest_of_src[old] = new
    let mut dest_of_src: Vec<usize> = Vec::new();
    dest_of_src.resize(n, 0usize);
    let mut k: usize = 0;
    while k < n
        invariant
            k <= n,
            n == m.len(),
            m == index_map@,
            is_permutation(m),
            dest_of_src@.len() == n,
            forall|new_i: int| 0 <= new_i < k ==> dest_of_src@[#[trigger] m[new_i] as int] == new_i,
        decreases n - k,
    {
        let old_i = index_map[k];
        assert(m[k as int] < n);
        dest_of_src[old_i] = k;
        assert forall|new_i: int| 0 <= new_i < k + 1 implies dest_of_src@[#[trigger] m[new_i] as int]
            == new_i by {
            if new_i < k {
                assert(m[new_i] != m[k as int]);
            }
        }
        k += 1;
    }
    proof {
        lemma_permutation_onto(m);
        assert forall|p: int| 0 <= p < n implies dest_of_src@[p] < n && m[dest_of_src@[p] as int]
            == p by {
            assert(hit_by(m, p));
            let new_i = choose|i: int| 0 <= i < m.len() && #[trigger] m[i] == p;
            assert(dest_of_src@[m[new_i] as int] == new_i);
        }
    }
    let mut swaps: Vec<(usize, usize)> = Vec::new();
    let ghost mut cur: Seq<usize> = identity_map(n as nat);
    let ghost mut fixed: Set<int> = Set::empty();
    let ghost target = cycle_swaps(places_of(m), 0, n as nat);
    proof {
        assert forall|p: int| 0 <= p < n implies dest_of_src@[p] == #[trigger] places_of(m)[p] by {
            let i = choose|i: int| 0 <= i < m.len() && m[i] == p;
            let d = dest_of_src@[p] as int;
            assert(m[d] == p);
            if i < d {
                assert(m[i] != m[d]);
            } else if d < i {
                assert(m[d] != m[i]);
            }
        }
        assert(dest_of_src@ =~= places_of(m));
        assert(swaps@ + target =~= target);
    }
    let mut i: usize = 0;
    while i < n
        invariant
            i <= n,
            n == m.len(),
            dest_of_src@.len() == n,
            swaps@.len() <= n,
            swaps@ + cycle_swaps(dest_of_src@, i as int, (n - swaps@.len()) as nat) == target,
            cur.len() == n,
            cur == apply_swaps_spec(identity_map(n as nat), swaps@, swaps@.len() as int),
            swaps_within(swaps@, n as int),
            forall|p: int| 0 <= p < n ==> #[trigger] dest_of_src@[p] < n,
            forall|p: int, q: int| 0 <= p < q < n ==> dest_of_src@[p] != dest_of_src@[q],
            forall|p: int| 0 <= p < n ==> m[#[trigger] dest_of_src@[p] as int] == cur[p],
            forall|p: int| 0 <= p < i ==> dest_of_src@[p] == p,
            fixed.finite(),
            fixed.len() == swaps@.len(),
            forall|p: int| fixed.contains(p) ==> 0 <= p < n && dest_of_src@[p] == p,
        decreases n - i,
    {
        while dest_of_src[i] != i
            invariant
                i < n,
                n == m.len(),
                dest_of_src@.len() == n,
                swaps@.len() <= n,
                swaps@ + cycle_swaps(dest_of_src@, i as int, (n - swaps@.len()) as nat) == target,
                cur.len() == n,
                cur == apply_swaps_spec(identity_map(n as nat), swaps@, swaps@.len() as int),
                swaps_within(swaps@, n as int),
                forall|p: int| 0 <= p < n ==> #[trigger] dest_of_src@[p] < n,
                forall|p: int, q: int| 0 <= p < q < n ==> dest_of_src@[p] != dest_of_src@[q],
                forall|p: int| 0 <= p < n ==> m[#[trigger] dest_of_src@[p] as int] == cur[p],
                forall|p: int| 0 <= p < i ==> dest_of_src@[p] == p,
                fixed.finite(),
                fixed.len() == swaps@.len(),
                forall|p: int| fixed.contains(p) ==> 0 <= p < n && dest_of_src@[p] == p,
            decreases n - swaps@.len(),
        {
            let j = dest_of_src[i];
            let ghost dest0 = dest_of_src@;
            let ghost swaps0 = swaps@;
            proof {
                assert(dest0[i as int] < n);
                // `j` is not in its place yet: its place is taken by `i`.
                if dest0[j as int] == j {
                    if (i as int) < (j as int) {
                        assert(dest0[i as int] != dest0[j as int]);
                    } else {
                        assert(dest0[j as int] != dest0[i as int]);
                    }
                }
                if j < i {
                    assert(dest0[j as int] == j);
                }
                let range = set_int_range(0, n as int);
                lemma_int_range(0, n as int);
                assert(fixed.subset_of(range.remove(i as int)));
                lemma_len_subset(fixed, range.remove(i as int));
                assert(range.contains(i as int));
            }
            swaps.push((i, j));
            let dj = dest_of_src[j];
            dest_of_src[i] = dj;
            dest_of_src[j] = j;
            proof {
                assert(dest_of_src@ =~= swap_seq(dest0, i as int, j as int));
                let rest = cycle_swaps(dest_of_src@, i as int, (n - swaps@.len()) as nat);
                assert(cycle_swaps(dest0, i as int, (n - swaps0.len()) as nat) == seq![(i, j)] + rest);
                assert(swaps@ + rest =~= swaps0 + (seq![(i, j)] + rest));
                let next = swap_seq(cur, i as int, j as int);
                assert(apply_swaps_spec(
                    identity_map(n as nat),
                    swaps@,
                    swaps@.len() as int,
                ) == next) by {
                    lemma_swaps_prefix(
                        identity_map(n as nat),
                        swaps@,
                        swaps0,
                        swaps0.len() as int,
                    );
                    assert(swaps@[swaps0.len() as int] == (i, j));
                }
                cur = next;
                fixed = fixed.insert(j as int);
                assert forall|p: int, q: int| 0 <= p < q < n implies dest_of_src@[p]
                    != dest_of_src@[q] by {
                    let sp = if p == i {
                        j as int
                    } else if p == j {
                        i as int
                    } else {
                        p
                    };
                    let sq = if q == i {
                        j as int
                    } else if q == j {
                        i as int
                    } else {
                        q
                    };
                    assert(dest_of_src@[p] == dest0[sp] && dest_of_src@[q] == dest0[sq]);
                    if sp < sq {
                        assert(dest0[sp] != dest0[sq]);
                    } else {
                        assert(dest0[sq] != dest0[sp]);
                    }
                }
            }
        }
        i += 1;
    }
    proof {
        assert(swaps@ + Seq::<(usize, usize)>::empty() =~= swaps@);
        assert forall|p: int| 0 <= p < n implies cur[p] == m[p] by {
            assert(dest_of_src@[p] == p);
        }
        assert(cur =~= m);
        let range = set_int_range(0, n as int);
        lemma_int_range(0, n as int);
        assert(fixed.subset_of(range));
        lemma_len_subset(fixed, range);
    }
    swaps
}

/// Swaps change an array by what they are, not by what follows them.
proof fn lemma_swaps_prefix<T>(
    s: Seq<T>,
    a: Seq<(usize, usize)>,
    b: Seq<(usize, usize)>,
    k: int,
)
    requires
        0 <= k <= a.len(),
        k <= b.len(),
        forall|i: int| 0 <= i < k ==> a[i] == b[i],
    ensures
        apply_swaps_spec(s, a, k) == apply_swaps_spec(s, b, k),
    decreases k,
{
    if k > 0 {
        lemma_swaps_prefix(s, a, b, k - 1);
    }
}

/// Makes the swaps on `data`, one after the other.
pub fn apply_swaps<T>(data: &mut Vec<T>, swaps: &[(usize, usize)])
    requires
        swaps_within(swaps@, old(data)@.len() as int),
    ensures
        final(data)@ == apply_swaps_spec(old(data)@, swaps@, swaps@.len() as int),
{
    let mut k: usize = 0;
    while k < swaps.len()
        invariant
            k <= swaps@.len(),
            data@.len() == old(data)@.len(),
            swaps_within(swaps@, data@.len() as int),
            data@ == apply_swaps_spec(old(data)@, swaps@, k as int),
        decreases swaps@.len() - k,
    {
        let (a, b) = swaps[k];
        assert(swaps@[k as int].0 < data@.len() && swaps@[k as int].1 < data@.len());
        data.as_mut_slice().swap(a, b);
        k += 1;
    }
}

/// Rearranges `data` in place so that place `new` holds what place
/// `index_map[new]` held.
pub fn permute<T>(data: &mut Vec<T>, index_map: &[usize])
    requires
        old(data)@.len() == index_map@.len(),
        is_permutation(index_map@),
    ensures
        final(data)@ == permuted(old(data)@, index_map@),
{
    let swaps = compute_swaps(index_map);
    let n = data.len();
    proof {
        lemma_apply_swaps_reindex(data@, swaps@, swaps@.len() as int);
    }
    apply_swaps(data, swaps.as_slice());
}

/// A splat, its fields as the bit patterns of the numbers that it is kept
/// in: the center in single precision, all else in half precision.
#[derive(Debug, Clone, Copy)]
pub struct Gsplat {
    /// Center x, y and z.
    pub center: [u32; 3],
    /// Opacity; above 1 for a merged splat that stands for many.
    pub opacity: u16,
    /// Linear color.
    pub rgb: [u16; 3],
    /// Natural logarithm of the scale per axis.
    pub ln_scales: [u16; 3],
    /// Orientation x, y, z and w.
    pub quaternion: [u16; 4],
}

/// What a splat carries in a LoD tree.
#[derive(Debug, Clone, Copy)]
pub struct GsplatExtra {
    /// Weight: area times opacity, a single-precision bit pattern.
    pub weight: u32,
    /// LoD level; smaller is finer.
    pub level: i16,
    /// Covariance xx, yy, zz, xy, xz, yz, single-precision bit patterns.
    pub covariance: [u32; 6],
    /// Index of the first child; 0 for a leaf.
    pub child_start: usize,
    /// Number of children; 0 for a leaf.
    pub child_count: usize,
    /// Index of the parent; `usize::MAX` for none.
    pub parent: usize,
}

/// Whether all fields of a splat are zero.
pub open spec fn is_zero_splat(g: Gsplat) -> bool {
    &&& g.center@ == seq![0u32, 0, 0]
    &&& g.opacity == 0
    &&& g.rgb@ == seq![0u16, 0, 0]
    &&& g.ln_scales@ == seq![0u16, 0, 0]
    &&& g.quaternion@ == seq![0u16, 0, 0, 0]
}

/// Whether an extra is the one of a leaf without weight, level, covariance
/// and parent.
pub open spec fn is_zero_extra(e: GsplatExtra) -> bool {
    &&& e.child_count == 0
    &&& e.child_start == 0
    &&& e.parent == usize::MAX
    &&& e.level == 0
    &&& e.weight == 0
    &&& e.covariance@ == seq![0u32, 0, 0, 0, 0, 0]
}

/// Whether all values of a row are zero.
pub open spec fn is_zero_row<const N: usize>(row: [u16; N]) -> bool {
    forall|k: int| 0 <= k < N ==> row@[k] == 0
}

/// A splat with all fields zero.
pub fn zero_splat() -> (g: Gsplat)
    ensures
        is_zero_splat(g),
{
    let g = Gsplat {
        center: [0, 0, 0],
        opacity: 0,
        rgb: [0, 0, 0],
        ln_scales: [0, 0, 0],
        quaternion: [0, 0, 0, 0],
    };
    assert(g.center@ =~= seq![0u32, 0, 0]);
    assert(g.rgb@ =~= seq![0u16, 0, 0]);
    assert(g.ln_scales@ =~= seq![0u16, 0, 0]);
    assert(g.quaternion@ =~= seq![0u16, 0, 0, 0]);
    g
}

/// The extra of a leaf without weight.
pub fn zero_extra() -> (e: GsplatExtra)
    ensures
        is_zero_extra(e),
{
    let e = GsplatExtra {
        weight: 0,
        level: 0,
        covariance: [0, 0, 0, 0, 0, 0],
        child_start: 0,
        child_count: 0,
        parent: usize::MAX,
    };
    assert(e.covariance@ =~= seq![0u32, 0, 0, 0, 0, 0]);
    e
}

/// The canonical store of a scene: splats, and beside them, index for
/// index, their spherical harmonics and their LoD extras.
pub struct GsplatArray {
    /// Highest spherical-harmonic band present, 0 to 3.
    pub max_sh_degree: usize,
    /// The splats.
    pub splats: Vec<Gsplat>,
    /// The LoD extras: none, or one per splat.
    pub extras: Vec<GsplatExtra>,
    /// Band 1, nine half-precision bit patterns per splat.
    pub sh1: Vec<[u16; 9]>,
    /// Band 2, 15 per splat.
    pub sh2: Vec<[u16; 15]>,
    /// Band 3, 21 per splat.
    pub sh3: Vec<[u16; 21]>,
}

/// The entries of `data` that `keep` marks, in their order, among the first
/// `k`.
pub open spec fn retained<T>(data: Seq<T>, keep: Seq<bool>, k: int) -> Seq<T>
    decreases k,
{
    if k <= 0 {
        Seq::empty()
    } else if keep[k - 1] {
        retained(data, keep, k - 1).push(data[k - 1])
    } else {
        retained(data, keep, k - 1)
    }
}

/// Keeps the entries of `data` that `keep` marks.
pub fn retain_marked<T: Copy>(data: &mut Vec<T>, keep: &[bool])
    requires
        old(data)@.len() == keep@.len(),
    ensures
        final(data)@ == retained(old(data)@, keep@, keep@.len() as int),
{
    let mut out: Vec<T> = Vec::new();
    let mut k: usize = 0;
    while k < keep.len()
        invariant
            k <= keep@.len(),
            data@.len() == keep@.len(),
            data@ == old(data)@,
            out@ == retained(data@, keep@, k as int),
        decreases keep@.len() - k,
    {
        if keep[k] {
            out.push(data[k]);
        }
        k += 1;
    }
    *data = out;
}

/// What is kept is no longer than what it is kept from.
pub proof fn lemma_retained_len<T>(data: Seq<T>, keep: Seq<bool>, k: int)
    requires
        k <= keep.len(),
    ensures
        retained(data, keep, k).len() <= if k < 0 {
            0
        } else {
            k
        },
    decreases k,
{
    if k > 0 {
        lemma_retained_len(data, keep, k - 1);
    }
}

/// Arrays that are kept by the same marks keep the same length.
pub proof fn lemma_retained_aligned<A, B>(a: Seq<A>, b: Seq<B>, keep: Seq<bool>, k: int)
    ensures
        retained(a, keep, k).len() == retained(b, keep, k).len(),
    decreases k,
{
    if k > 0 {
        lemma_retained_aligned(a, b, keep, k - 1);
    }
}

impl GsplatArray {
    /// The index of the root of a LoD tree.
    pub const ROOT_INDEX: usize = 0;

    /// Whether the arrays are aligned: extras for none or for every splat,
    /// and the spherical harmonics of a band for every splat where the
    /// degree reaches the band, else for none.
    pub open spec fn wf(&self) -> bool {
        let n = self.splats@.len();
        &&& self.max_sh_degree <= 3
        &&& (self.extras@.len() == 0 || self.extras@.len() == n)
        &&& self.sh1@.len() == (if self.max_sh_degree >= 1 {
            n
        } else {
            0
        })
        &&& self.sh2@.len() == (if self.max_sh_degree >= 2 {
            n
        } else {
            0
        })
        &&& self.sh3@.len() == (if self.max_sh_degree >= 3 {
            n
        } else {
            0
        })
    }

    /// Whether there is a LoD tree whose child ranges lie in the array: a
    /// node is a leaf, or its children end within the splats.
    pub open spec fn children_in_bounds(&self) -> bool {
        &&& self.extras@.len() == self.splats@.len()
        &&& forall|i: int|
            0 <= i < self.extras@.len() ==> (#[trigger] self.extras@[i]).child_count == 0
                || self.extras@[i].child_start + self.extras@[i].child_count
                <= self.splats@.len()
    }

    /// Checks that the arrays are aligned.
    pub fn is_wf(&self) -> (ok: bool)
        ensures
            ok == self.wf(),
    {
        let n = self.splats.len();
        self.max_sh_degree <= 3 && (self.extras.len() == 0 || self.extras.len() == n)
            && self.sh1.len() == (if self.max_sh_degree >= 1 {
            n
        } else {
            0
        }) && self.sh2.len() == (if self.max_sh_degree >= 2 {
            n
        } else {
            0
        }) && self.sh3.len() == (if self.max_sh_degree >= 3 {
            n
        } else {
            0
        })
    }

    /// An empty array of degree 0.
    pub fn new() -> (a: Self)
        ensures
            a.wf(),
            a.splats@.len() == 0,
            a.extras@.len() == 0,
            a.max_sh_degree == 0,
    {
        Self::new_capacity(0, 0)
    }

    /// An empty array of that degree, with room for `capacity` splats.
    pub fn new_capacity(capacity: usize, max_sh_degree: usize) -> (a: Self)
        requires
            max_sh_degree <= 3,
        ensures
            a.wf(),
            a.splats@.len() == 0,
            a.extras@.len() == 0,
            a.max_sh_degree == max_sh_degree,
    {
        GsplatArray {
            max_sh_degree,
            splats: Vec::with_capacity(capacity),
            extras: Vec::new(),
            sh1: Vec::new(),
            sh2: Vec::new(),
            sh3: Vec::new(),
        }
    }

    /// Number of splats.
    pub fn len(&self) -> (n: usize)
        ensures
            n == self.splats@.len(),
    {
        self.splats.len()
    }

    /// Number of splats.
    pub fn count(&self) -> (n: usize)
        ensures
            n == self.splats@.len(),
    {
        self.splats.len()
    }

    /// The splat at `index`.
    pub fn get(&self, index: usize) -> (g: &Gsplat)
        requires
            index < self.splats@.len(),
        ensures
            *g == self.splats@[index as int],
    {
        &self.splats[index]
    }

    /// Whether the array has a LoD tree.
    pub fn has_lod_tree(&self) -> (r: bool)
        ensures
            r == (self.extras@.len() > 0),
    {
        self.extras.len() > 0
    }

    /// Makes the array one of `init.num_splats` zero splats of the degree
    /// `init.max_sh_degree`, with extras if `init.lod_tree` says so.
    pub fn init_splats(&mut self, init: &SplatInit)
        requires
            init.max_sh_degree <= 3,
        ensures
            final(self).wf(),
            final(self).max_sh_degree == init.max_sh_degree,
            final(self).splats@.len() == init.num_splats,
            final(self).extras@.len() == (if init.lod_tree {
                init.num_splats
            } else {
                0
            }),
            forall|i: int| 0 <= i < init.num_splats ==> is_zero_splat(#[trigger] final(self).splats@[i]),
            forall|i: int|
                0 <= i < final(self).extras@.len() ==> is_zero_extra(#[trigger] final(self).extras@[i]),
            forall|i: int| 0 <= i < final(self).sh1@.len() ==> is_zero_row(#[trigger] final(self).sh1@[i]),
            forall|i: int| 0 <= i < final(self).sh2@.len() ==> is_zero_row(#[trigger] final(self).sh2@[i]),
            forall|i: int| 0 <= i < final(self).sh3@.len() ==> is_zero_row(#[trigger] final(self).sh3@[i]),
    {
        let n = init.num_splats;
        self.max_sh_degree = init.max_sh_degree;
        self.splats.clear();
        self.splats.resize(n, zero_splat());
        self.sh1.clear();
        if self.max_sh_degree >= 1 {
            self.sh1.resize(n, [0u16;9]);
        }
        self.sh2.clear();
        if self.max_sh_degree >= 2 {
            self.sh2.resize(n, [0u16;15]);
        }
        self.sh3.clear();
        if self.max_sh_degree >= 3 {
            self.sh3.resize(n, [0u16;21]);
        }
        self.extras.clear();
        if init.lod_tree {
            self.extras.resize(n, zero_extra());
        }
    }

    /// Appends a splat with the spherical harmonics that the degree asks
    /// for, and returns its index. With a LoD tree it gets the extra of a
    /// leaf.
    pub fn push_splat(
        &mut self,
        splat: Gsplat,
        sh1: Option<[u16; 9]>,
        sh2: Option<[u16; 15]>,
        sh3: Option<[u16; 21]>,
    ) -> (index: usize)
        requires
            old(self).wf(),
            old(self).max_sh_degree >= 1 ==> sh1.is_some(),
            old(self).max_sh_degree >= 2 ==> sh2.is_some(),
            old(self).max_sh_degree >= 3 ==> sh3.is_some(),
        ensures
            final(self).wf(),
            index == old(self).splats@.len(),
            final(self).max_sh_degree == old(self).max_sh_degree,
            final(self).splats@ == old(self).splats@.push(splat),
            final(self).sh1@ == (if old(self).max_sh_degree >= 1 {
                old(self).sh1@.push(sh1.unwrap())
            } else {
                old(self).sh1@
            }),
            final(self).sh2@ == (if old(self).max_sh_degree >= 2 {
                old(self).sh2@.push(sh2.unwrap())
            } else {
                old(self).sh2@
            }),
            final(self).sh3@ == (if old(self).max_sh_degree >= 3 {
                old(self).sh3@.push(sh3.unwrap())
            } else {
                old(self).sh3@
            }),
            final(self).extras@.len() == (if old(self).extras@.len() > 0 {
                old(self).extras@.len() + 1
            } else {
                0
            }),
            forall|i: int|
                0 <= i < old(self).extras@.len() ==> final(self).extras@[i] == old(self).extras@[i],
            old(self).extras@.len() > 0 ==> is_zero_extra(final(self).extras@[index as int]),
    {
        let index = self.splats.len();
        let had_extras = self.extras.len() > 0;
        self.splats.push(splat);
        if self.max_sh_degree >= 1 {
            self.sh1.push(sh1.unwrap());
        }
        if self.max_sh_degree >= 2 {
            self.sh2.push(sh2.unwrap());
        }
        if self.max_sh_degree >= 3 {
            self.sh3.push(sh3.unwrap());
        }
        if had_extras {
            self.extras.push(zero_extra());
        }
        index
    }

    /// Rearranges every array so that place `new` holds what place
    /// `index_map[new]` held. Child ranges and parents are left as they are.
    pub fn permute(&mut self, index_map: &[usize])
        requires
            old(self).wf(),
            index_map@.len() == old(self).splats@.len(),
            is_permutation(index_map@),
        ensures
            final(self).wf(),
            final(self).max_sh_degree == old(self).max_sh_degree,
            final(self).splats@ == permuted(old(self).splats@, index_map@),
            final(self).extras@ == (if old(self).extras@.len() > 0 {
                permuted(old(self).extras@, index_map@)
            } else {
                old(self).extras@
            }),
            final(self).sh1@ == (if old(self).sh1@.len() > 0 {
                permuted(old(self).sh1@, index_map@)
            } else {
                old(self).sh1@
            }),
            final(self).sh2@ == (if old(self).sh2@.len() > 0 {
                permuted(old(self).sh2@, index_map@)
            } else {
                old(self).sh2@
            }),
            final(self).sh3@ == (if old(self).sh3@.len() > 0 {
                permuted(old(self).sh3@, index_map@)
            } else {
                old(self).sh3@
            }),
    {
        let swaps = compute_swaps(index_map);
        let n = self.splats.len();
        proof {
            lemma_apply_swaps_reindex(self.splats@, swaps@, swaps@.len() as int);
            if self.extras@.len() > 0 {
                lemma_apply_swaps_reindex(self.extras@, swaps@, swaps@.len() as int);
            }
            if self.sh1@.len() > 0 {
                lemma_apply_swaps_reindex(self.sh1@, swaps@, swaps@.len() as int);
            }
            if self.sh2@.len() > 0 {
                lemma_apply_swaps_reindex(self.sh2@, swaps@, swaps@.len() as int);
            }
            if self.sh3@.len() > 0 {
                lemma_apply_swaps_reindex(self.sh3@, swaps@, swaps@.len() as int);
            }
        }
        apply_swaps(&mut self.splats, swaps.as_slice());
        if self.extras.len() > 0 {
            apply_swaps(&mut self.extras, swaps.as_slice());
        }
        if self.sh1.len() > 0 {
            apply_swaps(&mut self.sh1, swaps.as_slice());
        }
        if self.sh2.len() > 0 {
            apply_swaps(&mut self.sh2, swaps.as_slice());
        }
        if self.sh3.len() > 0 {
            apply_swaps(&mut self.sh3, swaps.as_slice());
        }
    }

    /// Keeps the splats that `keep` marks, and with them their spherical
    /// harmonics and extras. Child ranges and parents are left as they are.
    pub fn retain(&mut self, keep: &[bool])
        requires
            old(self).wf(),
            keep@.len() == old(self).splats@.len(),
        ensures
            final(self).wf(),
            final(self).max_sh_degree == old(self).max_sh_degree,
            final(self).splats@ == retained(old(self).splats@, keep@, keep@.len() as int),
            final(self).extras@ == (if old(self).extras@.len() > 0 {
                retained(old(self).extras@, keep@, keep@.len() as int)
            } else {
                old(self).extras@
            }),
            final(self).sh1@ == (if old(self).sh1@.len() > 0 {
                retained(old(self).sh1@, keep@, keep@.len() as int)
            } else {
                old(self).sh1@
            }),
            final(self).sh2@ == (if old(self).sh2@.len() > 0 {
                retained(old(self).sh2@, keep@, keep@.len() as int)
            } else {
                old(self).sh2@
            }),
            final(self).sh3@ == (if old(self).sh3@.len() > 0 {
                retained(old(self).sh3@, keep@, keep@.len() as int)
            } else {
                old(self).sh3@
            }),
    {
        let ghost k = keep@.len() as int;
        proof {
            lemma_retained_aligned(self.splats@, self.extras@, keep@, k);
            lemma_retained_aligned(self.splats@, self.sh1@, keep@, k);
            lemma_retained_aligned(self.splats@, self.sh2@, keep@, k);
            lemma_retained_aligned(self.splats@, self.sh3@, keep@, k);
        }
        retain_marked(&mut self.splats, keep);
        if self.extras.len() > 0 {
            retain_marked(&mut self.extras, keep);
        }
        if self.sh1.len() > 0 {
            retain_marked(&mut self.sh1, keep);
        }
        if self.sh2.len() > 0 {
            retain_marked(&mut self.sh2, keep);
        }
        if self.sh3.len() > 0 {
            retain_marked(&mut self.sh3, keep);
        }
    }

    /// Checks that the child ranges of a LoD tree lie in the array.
    pub fn check_children(&self) -> (ok: bool)
        ensures
            ok == self.children_in_bounds(),
    {
        let n = self.splats.len();
        if self.extras.len() != n {
            return false;
        }
        let mut i: usize = 0;
        while i < n
            invariant
                i <= n,
                n == self.splats@.len(),
                n == self.extras@.len(),
                forall|j: int|
                    0 <= j < i ==> (#[trigger] self.extras@[j]).child_count == 0
                        || self.extras@[j].child_start + self.extras@[j].child_count <= n,
            decreases n - i,
        {
            let e = &self.extras[i];
            if e.child_count != 0 && (e.child_start > n || e.child_count > n - e.child_start) {
                return false;
            }
            i += 1;
        }
        true
    }
}

/// Whether two splats agree in every field but the named ones: 0 center,
/// 1 opacity, 2 color, 3 scales, 4 orientation.
pub open spec fn splats_agree_but(a: Gsplat, b: Gsplat, field: int, other: int) -> bool {
    &&& (field == 0 || other == 0 || a.center == b.center)
    &&& (field == 1 || other == 1 || a.opacity == b.opacity)
    &&& (field == 2 || other == 2 || a.rgb == b.rgb)
    &&& (field == 3 || other == 3 || a.ln_scales == b.ln_scales)
    &&& (field == 4 || other == 4 || a.quaternion == b.quaternion)
}

/// Whether `after` is `before` with changes only in the named fields of the
/// splats `base..base + count`.
pub open spec fn splats_changed_in(
    before: Seq<Gsplat>,
    after: Seq<Gsplat>,
    base: int,
    count: int,
    field: int,
    other: int,
) -> bool {
    &&& after.len() == before.len()
    &&& forall|j: int|
        0 <= j < before.len() && !(base <= j < base + count) ==> after[j] == before[j]
    &&& forall|j: int|
        base <= j < base + count && 0 <= j < before.len() ==> splats_agree_but(
            #[trigger] after[j],
            before[j],
            field,
            other,
        )
}

/// The child range of a node after its child count is set: the range of
/// that length from where the children started; a leaf starts at 0.
pub open spec fn with_child_count(e: GsplatExtra, child_count: u16) -> GsplatExtra {
    GsplatExtra {
        child_count: child_count as usize,
        child_start: if child_count == 0 || e.child_count == 0 {
            0
        } else {
            e.child_start
        },
        ..e
    }
}

/// The child range of a node after its child start is set: no children
/// where the start is 0; else the range from there, of the length that it
/// had and at least 1.
pub open spec fn with_child_start(e: GsplatExtra, child_start: usize) -> GsplatExtra {
    if child_start == 0 {
        GsplatExtra { child_count: 0, child_start: 0, ..e }
    } else {
        GsplatExtra {
            child_count: if e.child_count == 0 {
                1
            } else {
                e.child_count
            },
            child_start,
            ..e
        }
    }
}

impl GsplatArray {
    /// Sets the centers of the splats `base..base + count` from three
    /// values each.
    pub fn set_center(&mut self, base: usize, count: usize, center: &[u32])
        requires
            base + count <= old(self).splats@.len(),
            center@.len() >= 3 * count,
        ensures
            splats_changed_in(old(self).splats@, final(self).splats@, base as int, count as int, 0, 0),
            forall|i: int|
                0 <= i < count ==> (#[trigger] final(self).splats@[base + i]).center@
                    == center@.subrange(3 * i, 3 * i + 3),
            final(self).max_sh_degree == old(self).max_sh_degree,
            final(self).extras == old(self).extras,
            final(self).sh1 == old(self).sh1,
            final(self).sh2 == old(self).sh2,
            final(self).sh3 == old(self).sh3,
    {
        let total = self.splats.len();
        let given = center.len();
        let mut i: usize = 0;
        while i < count
            invariant
                total == self.splats@.len(),
                given == center@.len(),
                i <= count,
                base + count <= self.splats@.len(),
                center@.len() >= 3 * count,
                splats_changed_in(old(self).splats@, self.splats@, base as int, i as int, 0, 0),
                forall|k: int|
                    0 <= k < i ==> (#[trigger] self.splats@[base + k]).center@ == center@.subrange(
                        3 * k,
                        3 * k + 3,
                    ),
                self.max_sh_degree == old(self).max_sh_degree,
                self.extras == old(self).extras,
                self.sh1 == old(self).sh1,
                self.sh2 == old(self).sh2,
                self.sh3 == old(self).sh3,
            decreases count - i,
        {
            let mut g = self.splats[base + i];
            g.center = [center[3 * i], center[3 * i + 1], center[3 * i + 2]];
            assert(g.center@ =~= center@.subrange(3 * i, 3 * i + 3));
            self.splats[base + i] = g;
            i += 1;
        }
    }

    /// Sets the opacities of the splats `base..base + count`.
    pub fn set_opacity(&mut self, base: usize, count: usize, opacity: &[u16])
        requires
            base + count <= old(self).splats@.len(),
            opacity@.len() >= count,
        ensures
            splats_changed_in(old(self).splats@, final(self).splats@, base as int, count as int, 1, 1),
            forall|i: int|
                0 <= i < count ==> (#[trigger] final(self).splats@[base + i]).opacity == opacity@[i],
            final(self).max_sh_degree == old(self).max_sh_degree,
            final(self).extras == old(self).extras,
            final(self).sh1 == old(self).sh1,
            final(self).sh2 == old(self).sh2,
            final(self).sh3 == old(self).sh3,
    {
        let total = self.splats.len();
        let given = opacity.len();
        let mut i: usize = 0;
        while i < count
            invariant
                total == self.splats@.len(),
                given == opacity@.len(),
                i <= count,
                base + count <= self.splats@.len(),
                opacity@.len() >= count,
                splats_changed_in(old(self).splats@, self.splats@, base as int, i as int, 1, 1),
                forall|k: int|
                    0 <= k < i ==> (#[trigger] self.splats@[base + k]).opacity == opacity@[k],
                self.max_sh_degree == old(self).max_sh_degree,
                self.extras == old(self).extras,
                self.sh1 == old(self).sh1,
                self.sh2 == old(self).sh2,
                self.sh3 == old(self).sh3,
            decreases count - i,
        {
            let mut g = self.splats[base + i];
            g.opacity = opacity[i];
            self.splats[base + i] = g;
            i += 1;
        }
    }

    /// Sets the colors of the splats `base..base + count` from three values
    /// each.
    pub fn set_rgb(&mut self, base: usize, count: usize, rgb: &[u16])
        requires
            base + count <= old(self).splats@.len(),
            rgb@.len() >= 3 * count,
        ensures
            splats_changed_in(old(self).splats@, final(self).splats@, base as int, count as int, 2, 2),
            forall|i: int|
                0 <= i < count ==> (#[trigger] final(self).splats@[base + i]).rgb@ == rgb@.subrange(
                    3 * i,
                    3 * i + 3,
                ),
            final(self).max_sh_degree == old(self).max_sh_degree,
            final(self).extras == old(self).extras,
            final(self).sh1 == old(self).sh1,
            final(self).sh2 == old(self).sh2,
            final(self).sh3 == old(self).sh3,
    {
        let total = self.splats.len();
        let given = rgb.len();
        let mut i: usize = 0;
        while i < count
            invariant
                total == self.splats@.len(),
                given == rgb@.len(),
                i <= count,
                base + count <= self.splats@.len(),
                rgb@.len() >= 3 * count,
                splats_changed_in(old(self).splats@, self.splats@, base as int, i as int, 2, 2),
                forall|k: int|
                    0 <= k < i ==> (#[trigger] self.splats@[base + k]).rgb@ == rgb@.subrange(
                        3 * k,
                        3 * k + 3,
                    ),
                self.max_sh_degree == old(self).max_sh_degree,
                self.extras == old(self).extras,
                self.sh1 == old(self).sh1,
                self.sh2 == old(self).sh2,
                self.sh3 == old(self).sh3,
            decreases count - i,
        {
            let mut g = self.splats[base + i];
            g.rgb = [rgb[3 * i], rgb[3 * i + 1], rgb[3 * i + 2]];
            assert(g.rgb@ =~= rgb@.subrange(3 * i, 3 * i + 3));
            self.splats[base + i] = g;
            i += 1;
        }
    }

    /// Sets color and opacity of the splats `base..base + count` from four
    /// values each: red, green, blue, opacity.
    pub fn set_rgba(&mut self, base: usize, count: usize, rgba: &[u16])
        requires
            base + count <= old(self).splats@.len(),
            rgba@.len() >= 4 * count,
        ensures
            splats_changed_in(old(self).splats@, final(self).splats@, base as int, count as int, 1, 2),
            forall|i: int|
                0 <= i < count ==> (#[trigger] final(self).splats@[base + i]).rgb@ == rgba@.subrange(
                    4 * i,
                    4 * i + 3,
                ) && final(self).splats@[base + i].opacity == rgba@[4 * i + 3],
            final(self).max_sh_degree == old(self).max_sh_degree,
            final(self).extras == old(self).extras,
            final(self).sh1 == old(self).sh1,
            final(self).sh2 == old(self).sh2,
            final(self).sh3 == old(self).sh3,
    {
        let total = self.splats.len();
        let given = rgba.len();
        let mut i: usize = 0;
        while i < count
            invariant
                total == self.splats@.len(),
                given == rgba@.len(),
                i <= count,
                base + count <= self.splats@.len(),
                rgba@.len() >= 4 * count,
                splats_changed_in(old(self).splats@, self.splats@, base as int, i as int, 1, 2),
                forall|k: int|
                    0 <= k < i ==> (#[trigger] self.splats@[base + k]).rgb@ == rgba@.subrange(
                        4 * k,
                        4 * k + 3,
                    ) && self.splats@[base + k].opacity == rgba@[4 * k + 3],
                self.max_sh_degree == old(self).max_sh_degree,
                self.extras == old(self).extras,
                self.sh1 == old(self).sh1,
                self.sh2 == old(self).sh2,
                self.sh3 == old(self).sh3,
            decreases count - i,
        {
            let mut g = self.splats[base + i];
            g.rgb = [rgba[4 * i], rgba[4 * i + 1], rgba[4 * i + 2]];
            g.opacity = rgba[4 * i + 3];
            assert(g.rgb@ =~= rgba@.subrange(4 * i, 4 * i + 3));
            self.splats[base + i] = g;
            i += 1;
        }
    }

    /// Sets the log-scales of the splats `base..base + count` from three
    /// values each.
    pub fn set_scale(&mut self, base: usize, count: usize, scale: &[u16])
        requires
            base + count <= old(self).splats@.len(),
            scale@.len() >= 3 * count,
        ensures
            splats_changed_in(old(self).splats@, final(self).splats@, base as int, count as int, 3, 3),
            forall|i: int|
                0 <= i < count ==> (#[trigger] final(self).splats@[base + i]).ln_scales@
                    == scale@.subrange(3 * i, 3 * i + 3),
            final(self).max_sh_degree == old(self).max_sh_degree,
            final(self).extras == old(self).extras,
            final(self).sh1 == old(self).sh1,
            final(self).sh2 == old(self).sh2,
            final(self).sh3 == old(self).sh3,
    {
        let total = self.splats.len();
        let given = scale.len();
        let mut i: usize = 0;
        while i < count
            invariant
                total == self.splats@.len(),
                given == scale@.len(),
                i <= count,
                base + count <= self.splats@.len(),
                scale@.len() >= 3 * count,
                splats_changed_in(old(self).splats@, self.splats@, base as int, i as int, 3, 3),
                forall|k: int|
                    0 <= k < i ==> (#[trigger] self.splats@[base + k]).ln_scales@
                        == scale@.subrange(3 * k, 3 * k + 3),
                self.max_sh_degree == old(self).max_sh_degree,
                self.extras == old(self).extras,
                self.sh1 == old(self).sh1,
                self.sh2 == old(self).sh2,
                self.sh3 == old(self).sh3,
            decreases count - i,
        {
            let mut g = self.splats[base + i];
            g.ln_scales = [scale[3 * i], scale[3 * i + 1], scale[3 * i + 2]];
            assert(g.ln_scales@ =~= scale@.subrange(3 * i, 3 * i + 3));
            self.splats[base + i] = g;
            i += 1;
        }
    }

    /// Sets the orientations of the splats `base..base + count` from four
    /// values each: x, y, z, w.
    pub fn set_quat(&mut self, base: usize, count: usize, quat: &[u16])
        requires
            base + count <= old(self).splats@.len(),
            quat@.len() >= 4 * count,
        ensures
            splats_changed_in(old(self).splats@, final(self).splats@, base as int, count as int, 4, 4),
            forall|i: int|
                0 <= i < count ==> (#[trigger] final(self).splats@[base + i]).quaternion@
                    == quat@.subrange(4 * i, 4 * i + 4),
            final(self).max_sh_degree == old(self).max_sh_degree,
            final(self).extras == old(self).extras,
            final(self).sh1 == old(self).sh1,
            final(self).sh2 == old(self).sh2,
            final(self).sh3 == old(self).sh3,
    {
        let total = self.splats.len();
        let given = quat.len();
        let mut i: usize = 0;
        while i < count
            invariant
                total == self.splats@.len(),
                given == quat@.len(),
                i <= count,
                base + count <= self.splats@.len(),
                quat@.len() >= 4 * count,
                splats_changed_in(old(self).splats@, self.splats@, base as int, i as int, 4, 4),
                forall|k: int|
                    0 <= k < i ==> (#[trigger] self.splats@[base + k]).quaternion@
                        == quat@.subrange(4 * k, 4 * k + 4),
                self.max_sh_degree == old(self).max_sh_degree,
                self.extras == old(self).extras,
                self.sh1 == old(self).sh1,
                self.sh2 == old(self).sh2,
                self.sh3 == old(self).sh3,
            decreases count - i,
        {
            let mut g = self.splats[base + i];
            g.quaternion = [quat[4 * i], quat[4 * i + 1], quat[4 * i + 2], quat[4 * i + 3]];
            assert(g.quaternion@ =~= quat@.subrange(4 * i, 4 * i + 4));
            self.splats[base + i] = g;
            i += 1;
        }
    }

    /// Sets the child counts of the nodes `base..base + count`. A node
    /// keeps the start of its children where it had children and still has.
    pub fn set_child_count(&mut self, base: usize, count: usize, child_count: &[u16])
        requires
            base + count <= old(self).extras@.len(),
            child_count@.len() >= count,
        ensures
            final(self).extras@.len() == old(self).extras@.len(),
            forall|j: int|
                0 <= j < old(self).extras@.len() ==> #[trigger] final(self).extras@[j] == (if base
                    <= j < base + count {
                    with_child_count(old(self).extras@[j], child_count@[j - base])
                } else {
                    old(self).extras@[j]
                }),
            final(self).max_sh_degree == old(self).max_sh_degree,
            final(self).splats == old(self).splats,
            final(self).sh1 == old(self).sh1,
            final(self).sh2 == old(self).sh2,
            final(self).sh3 == old(self).sh3,
    {
        let total = self.extras.len();
        let given = child_count.len();
        let mut i: usize = 0;
        while i < count
            invariant
                total == self.extras@.len(),
                given == child_count@.len(),
                i <= count,
                base + count <= self.extras@.len(),
                child_count@.len() >= count,
                self.extras@.len() == old(self).extras@.len(),
                forall|j: int|
                    0 <= j < old(self).extras@.len() ==> #[trigger] self.extras@[j] == (if base <= j
                        < base + i {
                        with_child_count(old(self).extras@[j], child_count@[j - base])
                    } else {
                        old(self).extras@[j]
                    }),
                self.max_sh_degree == old(self).max_sh_degree,
                self.splats == old(self).splats,
                self.sh1 == old(self).sh1,
                self.sh2 == old(self).sh2,
                self.sh3 == old(self).sh3,
            decreases count - i,
        {
            let mut e = self.extras[base + i];
            let cc = child_count[i];
            if cc == 0 || e.child_count == 0 {
                e.child_start = 0;
            }
            e.child_count = cc as usize;
            self.extras[base + i] = e;
            i += 1;
        }
    }

    /// Sets the child starts of the nodes `base..base + count`. A start of
    /// 0 makes a leaf; any other start gives a node at least one child.
    pub fn set_child_start(&mut self, base: usize, count: usize, child_start: &[usize])
        requires
            base + count <= old(self).extras@.len(),
            child_start@.len() >= count,
        ensures
            final(self).extras@.len() == old(self).extras@.len(),
            forall|j: int|
                0 <= j < old(self).extras@.len() ==> #[trigger] final(self).extras@[j] == (if base
                    <= j < base + count {
                    with_child_start(old(self).extras@[j], child_start@[j - base])
                } else {
                    old(self).extras@[j]
                }),
            final(self).max_sh_degree == old(self).max_sh_degree,
            final(self).splats == old(self).splats,
            final(self).sh1 == old(self).sh1,
            final(self).sh2 == old(self).sh2,
            final(self).sh3 == old(self).sh3,
    {
        let total = self.extras.len();
        let given = child_start.len();
        let mut i: usize = 0;
        while i < count
            invariant
                total == self.extras@.len(),
                given == child_start@.len(),
                i <= count,
                base + count <= self.extras@.len(),
                child_start@.len() >= count,
                self.extras@.len() == old(self).extras@.len(),
                forall|j: int|
                    0 <= j < old(self).extras@.len() ==> #[trigger] self.extras@[j] == (if base <= j
                        < base + i {
                        with_child_start(old(self).extras@[j], child_start@[j - base])
                    } else {
                        old(self).extras@[j]
                    }),
                self.max_sh_degree == old(self).max_sh_degree,
                self.splats == old(self).splats,
                self.sh1 == old(self).sh1,
                self.sh2 == old(self).sh2,
                self.sh3 == old(self).sh3,
            decreases count - i,
        {
            let mut e = self.extras[base + i];
            let start = child_start[i];
            if start == 0 {
                e.child_count = 0;
                e.child_start = 0;
            } else {
                if e.child_count == 0 {
                    e.child_count = 1;
                }
                e.child_start = start;
            }
            self.extras[base + i] = e;
            i += 1;
        }
    }

    /// The child counts of the nodes `base..base + count`, each held to 16
    /// bits.
    pub fn get_child_count(&self, base: usize, count: usize) -> (out: Vec<u16>)
        requires
            base + count <= self.extras@.len(),
        ensures
            out@.len() == count,
            forall|i: int|
                0 <= i < count ==> out@[i] == self.extras@[base + i].child_count % 0x1_0000,
    {
        let mut out: Vec<u16> = Vec::new();
        let total = self.extras.len();
        let mut i: usize = 0;
        while i < count
            invariant
                total == self.extras@.len(),
                i <= count,
                base + count <= self.extras@.len(),
                out@.len() == i,
                forall|k: int|
                    0 <= k < i ==> out@[k] == self.extras@[base + k].child_count % 0x1_0000,
            decreases count - i,
        {
            out.push((self.extras[base + i].child_count % 0x1_0000) as u16);
            i += 1;
        }
        out
    }

    /// The child starts of the nodes `base..base + count`; 0 for a leaf.
    pub fn get_child_start(&self, base: usize, count: usize) -> (out: Vec<usize>)
        requires
            base + count <= self.extras@.len(),
        ensures
            out@.len() == count,
            forall|i: int|
                0 <= i < count ==> out@[i] == (if self.extras@[base + i].child_count == 0 {
                    0
                } else {
                    self.extras@[base + i].child_start
                }),
    {
        let mut out: Vec<usize> = Vec::new();
        let total = self.extras.len();
        let mut i: usize = 0;
        while i < count
            invariant
                total == self.extras@.len(),
                i <= count,
                base + count <= self.extras@.len(),
                out@.len() == i,
                forall|k: int|
                    0 <= k < i ==> out@[k] == (if self.extras@[base + k].child_count == 0 {
                        0
                    } else {
                        self.extras@[base + k].child_start
                    }),
            decreases count - i,
        {
            let e = &self.extras[base + i];
            out.push(if e.child_count == 0 {
                0
            } else {
                e.child_start
            });
            i += 1;
        }
        out
    }
}

/// Whether `after` is `before` with the rows `base..base + count` taken
/// from `values`, a row's width at a time.
pub open spec fn rows_set<const N: usize>(
    before: Seq<[u16; N]>,
    after: Seq<[u16; N]>,
    base: int,
    count: int,
    values: Seq<u16>,
) -> bool {
    &&& after.len() == before.len()
    &&& forall|j: int|
        0 <= j < before.len() && !(base <= j < base + count) ==> #[trigger] after[j] == before[j]
    &&& forall|i: int|
        0 <= i < count ==> (#[trigger] after[base + i])@ == values.subrange(N * i, N * i + N)
}

/// Sets the rows `base..base + count` from `values`, a row's width at a
/// time.
pub fn set_rows<const N: usize>(
    rows: &mut Vec<[u16; N]>,
    base: usize,
    count: usize,
    values: &[u16],
)
    requires
        base + count <= old(rows)@.len(),
        values@.len() >= N * count,
    ensures
        rows_set(old(rows)@, final(rows)@, base as int, count as int, values@),
{
    let total = rows.len();
    let given = values.len();
    let mut i: usize = 0;
    while i < count
        invariant
            total == rows@.len(),
            given == values@.len(),
            i <= count,
            base + count <= rows@.len(),
            values@.len() >= N * count,
            rows_set(old(rows)@, rows@, base as int, i as int, values@),
        decreases count - i,
    {
        assert(N * i + N <= N * count) by (nonlinear_arith)
            requires
                i < count,
        ;
        let mut row = rows[base + i];
        let mut c: usize = 0;
        while c < N
            invariant
                c <= N,
                i < count,
                N * i + N <= N * count,
                values@.len() >= N * count,
                given == values@.len(),
                row@.len() == N,
                forall|d: int| 0 <= d < c ==> #[trigger] row@[d] == values@[N * i + d],
            decreases N - c,
        {
            row[c] = values[N * i + c];
            c += 1;
        }
        assert(row@ =~= values@.subrange(N * i, N * i + N));
        let ghost before = rows@;
        rows.set(base + i, row);
        proof {
            assert forall|k: int| 0 <= k < i + 1 implies (#[trigger] rows@[base + k])@
                == values@.subrange(N * k, N * k + N) by {
                if k < i {
                    assert(rows@[base + k] == before[base + k]);
                }
            }
        }
        i += 1;
    }
}

/// The part `start..start + count` of an array that is in use, and nothing
/// of one that is not.
pub open spec fn part_of<T>(data: Seq<T>, start: int, count: int) -> Seq<T> {
    if data.len() == 0 {
        data
    } else {
        data.subrange(start, start + count)
    }
}

/// Copies the part `start..start + count` of an array that is in use.
pub fn copy_part<T: Copy>(data: &Vec<T>, start: usize, count: usize) -> (out: Vec<T>)
    requires
        data@.len() == 0 || start + count <= data@.len(),
    ensures
        out@ == part_of(data@, start as int, count as int),
{
    let mut out: Vec<T> = Vec::new();
    if data.len() == 0 {
        assert(out@ =~= data@);
        return out;
    }
    let total = data.len();
    let mut i: usize = 0;
    while i < count
        invariant
            i <= count,
            total == data@.len(),
            start + count <= data@.len(),
            out@ == data@.subrange(start as int, start + i),
        decreases count - i,
    {
        out.push(data[start + i]);
        assert(out@ =~= data@.subrange(start as int, start + i + 1));
        i += 1;
    }
    out
}

impl GsplatArray {
    /// Sets the first band of the splats `base..base + count` from nine
    /// values each, where the array holds that band.
    pub fn set_sh1(&mut self, base: usize, count: usize, sh1: &[u16])
        requires
            old(self).max_sh_degree >= 1 ==> base + count <= old(self).sh1@.len() && sh1@.len()
                >= 9 * count,
        ensures
            old(self).max_sh_degree >= 1 ==> rows_set(
                old(self).sh1@,
                final(self).sh1@,
                base as int,
                count as int,
                sh1@,
            ),
            old(self).max_sh_degree < 1 ==> final(self).sh1 == old(self).sh1,
            final(self).max_sh_degree == old(self).max_sh_degree,
            final(self).splats == old(self).splats,
            final(self).extras == old(self).extras,
            final(self).sh2 == old(self).sh2,
            final(self).sh3 == old(self).sh3,
    {
        if self.max_sh_degree >= 1 {
            set_rows(&mut self.sh1, base, count, sh1);
        }
    }

    /// Sets the second band of the splats `base..base + count` from fifteen
    /// values each, where the array holds that band.
    pub fn set_sh2(&mut self, base: usize, count: usize, sh2: &[u16])
        requires
            old(self).max_sh_degree >= 2 ==> base + count <= old(self).sh2@.len() && sh2@.len()
                >= 15 * count,
        ensures
            old(self).max_sh_degree >= 2 ==> rows_set(
                old(self).sh2@,
                final(self).sh2@,
                base as int,
                count as int,
                sh2@,
            ),
            old(self).max_sh_degree < 2 ==> final(self).sh2 == old(self).sh2,
            final(self).max_sh_degree == old(self).max_sh_degree,
            final(self).splats == old(self).splats,
            final(self).extras == old(self).extras,
            final(self).sh1 == old(self).sh1,
            final(self).sh3 == old(self).sh3,
    {
        if self.max_sh_degree >= 2 {
            set_rows(&mut self.sh2, base, count, sh2);
        }
    }

    /// Sets the third band of the splats `base..base + count` from
    /// twenty-one values each, where the array holds that band.
    pub fn set_sh3(&mut self, base: usize, count: usize, sh3: &[u16])
        requires
            old(self).max_sh_degree >= 3 ==> base + count <= old(self).sh3@.len() && sh3@.len()
                >= 21 * count,
        ensures
            old(self).max_sh_degree >= 3 ==> rows_set(
                old(self).sh3@,
                final(self).sh3@,
                base as int,
                count as int,
                sh3@,
            ),
            old(self).max_sh_degree < 3 ==> final(self).sh3 == old(self).sh3,
            final(self).max_sh_degree == old(self).max_sh_degree,
            final(self).splats == old(self).splats,
            final(self).extras == old(self).extras,
            final(self).sh1 == old(self).sh1,
            final(self).sh2 == old(self).sh2,
    {
        if self.max_sh_degree >= 3 {
            set_rows(&mut self.sh3, base, count, sh3);
        }
    }

    /// Sets the bands of the splats `base..base + count` for which values
    /// are given and which the array holds; an empty slice leaves its band
    /// as it is.
    pub fn set_sh(&mut self, base: usize, count: usize, sh1: &[u16], sh2: &[u16], sh3: &[u16])
        requires
            old(self).max_sh_degree >= 1 && sh1@.len() > 0 ==> base + count <= old(self).sh1@.len()
                && sh1@.len() >= 9 * count,
            old(self).max_sh_degree >= 2 && sh2@.len() > 0 ==> base + count <= old(self).sh2@.len()
                && sh2@.len() >= 15 * count,
            old(self).max_sh_degree >= 3 && sh3@.len() > 0 ==> base + count <= old(self).sh3@.len()
                && sh3@.len() >= 21 * count,
        ensures
            old(self).max_sh_degree >= 1 && sh1@.len() > 0 ==> rows_set(
                old(self).sh1@,
                final(self).sh1@,
                base as int,
                count as int,
                sh1@,
            ),
            !(old(self).max_sh_degree >= 1 && sh1@.len() > 0) ==> final(self).sh1 == old(self).sh1,
            old(self).max_sh_degree >= 2 && sh2@.len() > 0 ==> rows_set(
                old(self).sh2@,
                final(self).sh2@,
                base as int,
                count as int,
                sh2@,
            ),
            !(old(self).max_sh_degree >= 2 && sh2@.len() > 0) ==> final(self).sh2 == old(self).sh2,
            old(self).max_sh_degree >= 3 && sh3@.len() > 0 ==> rows_set(
                old(self).sh3@,
                final(self).sh3@,
                base as int,
                count as int,
                sh3@,
            ),
            !(old(self).max_sh_degree >= 3 && sh3@.len() > 0) ==> final(self).sh3 == old(self).sh3,
            final(self).max_sh_degree == old(self).max_sh_degree,
            final(self).splats == old(self).splats,
            final(self).extras == old(self).extras,
    {
        if sh1.len() > 0 {
            self.set_sh1(base, count, sh1);
        }
        if sh2.len() > 0 {
            self.set_sh2(base, count, sh2);
        }
        if sh3.len() > 0 {
            self.set_sh3(base, count, sh3);
        }
    }

    /// Puts the splats in the order of their keys, splats of one key in
    /// the order that they had.
    pub fn sort_by(&mut self, keys: &[u64]) -> (order: Vec<usize>)
        requires
            old(self).wf(),
            keys@.len() == old(self).splats@.len(),
        ensures
            final(self).wf(),
            is_key_order(keys@, order@),
            final(self).max_sh_degree == old(self).max_sh_degree,
            final(self).splats@ == permuted(old(self).splats@, order@),
            final(self).extras@ == (if old(self).extras@.len() > 0 {
                permuted(old(self).extras@, order@)
            } else {
                old(self).extras@
            }),
            final(self).sh1@ == (if old(self).sh1@.len() > 0 {
                permuted(old(self).sh1@, order@)
            } else {
                old(self).sh1@
            }),
            final(self).sh2@ == (if old(self).sh2@.len() > 0 {
                permuted(old(self).sh2@, order@)
            } else {
                old(self).sh2@
            }),
            final(self).sh3@ == (if old(self).sh3@.len() > 0 {
                permuted(old(self).sh3@, order@)
            } else {
                old(self).sh3@
            }),
    {
        let order = order_by_keys(keys);
        self.permute(order.as_slice());
        order
    }

    /// The splats `start..start + count` as an array of their own, with
    /// what the array holds for them.
    pub fn clone_subset(&self, start: usize, count: usize) -> (a: Self)
        requires
            self.wf(),
            start + count <= self.splats@.len(),
        ensures
            a.wf(),
            a.max_sh_degree == self.max_sh_degree,
            a.splats@ == self.splats@.subrange(start as int, start + count),
            a.extras@ == part_of(self.extras@, start as int, count as int),
            a.sh1@ == part_of(self.sh1@, start as int, count as int),
            a.sh2@ == part_of(self.sh2@, start as int, count as int),
            a.sh3@ == part_of(self.sh3@, start as int, count as int),
    {
        let splats = if self.splats.len() == 0 {
            Vec::new()
        } else {
            copy_part(&self.splats, start, count)
        };
        assert(splats@ =~= self.splats@.subrange(start as int, start + count));
        GsplatArray {
            max_sh_degree: self.max_sh_degree,
            splats,
            extras: copy_part(&self.extras, start, count),
            sh1: copy_part(&self.sh1, start, count),
            sh2: copy_part(&self.sh2, start, count),
            sh3: copy_part(&self.sh3, start, count),
        }
    }
}

/// Whether a layout fits an array of `n` splats: it has a place for each,
/// its order holds each once, and its child ranges lie within them.
pub open spec fn layout_fits(l: &LodLayout, n: int) -> bool {
    &&& l.order@.len() == n
    &&& l.child_start@.len() == n
    &&& l.child_count@.len() == n
    &&& is_permutation(l.order@)
    &&& forall|p: int|
        0 <= p < n ==> #[trigger] l.child_count@[p] == 0 || l.child_start@[p] + l.child_count@[p] <= n
}

/// The parent of place `j` among the first `k` places: the last of them in
/// whose child range `j` lies; `usize::MAX` if there is none.
pub open spec fn parent_upto(l: &LodLayout, j: int, k: int) -> usize
    decreases k,
{
    if k <= 0 {
        usize::MAX
    } else if l.child_start@[k - 1] <= j < l.child_start@[k - 1] + l.child_count@[k - 1] {
        (k - 1) as usize
    } else {
        parent_upto(l, j, k - 1)
    }
}

/// The extra of a place once a layout is applied: what the splat that came
/// there held, with the child range and the parent that the layout gives.
pub open spec fn laid_out(before: Seq<GsplatExtra>, l: &LodLayout, j: int) -> GsplatExtra {
    GsplatExtra {
        child_start: l.child_start@[j],
        child_count: l.child_count@[j],
        parent: parent_upto(l, j, l.order@.len() as int),
        ..before[l.order@[j] as int]
    }
}

impl GsplatArray {
    /// Lays a LoD tree out: the arrays are rearranged by the order of the
    /// layout, and every node gets its child range and its parent. Nothing
    /// is done, and `false` returned, where the array has not an extra for
    /// every splat or the layout does not fit it.
    pub fn apply_layout(&mut self, l: &LodLayout) -> (ok: bool)
        requires
            old(self).wf(),
        ensures
            ok == (old(self).extras@.len() == old(self).splats@.len() && layout_fits(
                l,
                old(self).splats@.len() as int,
            )),
            !ok ==> *final(self) == *old(self),
            ok ==> {
                &&& final(self).wf()
                &&& final(self).max_sh_degree == old(self).max_sh_degree
                &&& final(self).splats@ == permuted(old(self).splats@, l.order@)
                &&& final(self).sh1@ == (if old(self).sh1@.len() > 0 {
                    permuted(old(self).sh1@, l.order@)
                } else {
                    old(self).sh1@
                })
                &&& final(self).sh2@ == (if old(self).sh2@.len() > 0 {
                    permuted(old(self).sh2@, l.order@)
                } else {
                    old(self).sh2@
                })
                &&& final(self).sh3@ == (if old(self).sh3@.len() > 0 {
                    permuted(old(self).sh3@, l.order@)
                } else {
                    old(self).sh3@
                })
                &&& final(self).extras@.len() == old(self).extras@.len()
                &&& forall|j: int|
                    0 <= j < old(self).extras@.len() ==> #[trigger] final(self).extras@[j] == laid_out(
                        old(self).extras@,
                        l,
                        j,
                    )
                &&& final(self).children_in_bounds()
            },
    {
        let n = self.splats.len();
        if self.extras.len() != n || l.order.len() != n || l.child_start.len() != n
            || l.child_count.len() != n {
            return false;
        }
        if !check_permutation(l.order.as_slice()) {
            return false;
        }
        let mut p: usize = 0;
        while p < n
            invariant
                p <= n,
                l.child_start@.len() == n,
                l.child_count@.len() == n,
                forall|q: int|
                    0 <= q < p ==> #[trigger] l.child_count@[q] == 0 || l.child_start@[q]
                        + l.child_count@[q] <= n,
            decreases n - p,
        {
            let count = l.child_count[p];
            if count != 0 && (count > n || l.child_start[p] > n - count) {
                return false;
            }
            p += 1;
        }
        let ghost before = self.extras@;
        self.permute(l.order.as_slice());
        let ghost moved = self.extras@;
        let mut j: usize = 0;
        while j < n
            invariant
                j <= n,
                n == self.extras@.len(),
                n == self.splats@.len(),
                l.child_start@.len() == n,
                l.child_count@.len() == n,
                self.wf(),
                self.max_sh_degree == old(self).max_sh_degree,
                self.splats@ == permuted(old(self).splats@, l.order@),
                old(self).sh1@.len() > 0 ==> self.sh1@ == permuted(old(self).sh1@, l.order@),
                old(self).sh1@.len() == 0 ==> self.sh1@ == old(self).sh1@,
                old(self).sh2@.len() > 0 ==> self.sh2@ == permuted(old(self).sh2@, l.order@),
                old(self).sh2@.len() == 0 ==> self.sh2@ == old(self).sh2@,
                old(self).sh3@.len() > 0 ==> self.sh3@ == permuted(old(self).sh3@, l.order@),
                old(self).sh3@.len() == 0 ==> self.sh3@ == old(self).sh3@,
                forall|q: int|
                    0 <= q < j ==> #[trigger] self.extras@[q] == (GsplatExtra {
                        child_start: l.child_start@[q],
                        child_count: l.child_count@[q],
                        parent: usize::MAX,
                        ..moved[q]
                    }),
                forall|q: int| j <= q < n ==> #[trigger] self.extras@[q] == moved[q],
            decreases n - j,
        {
            let mut e = self.extras[j];
            e.child_start = l.child_start[j];
            e.child_count = l.child_count[j];
            e.parent = usize::MAX;
            self.extras[j] = e;
            j += 1;
        }
        let mut k: usize = 0;
        while k < n
            invariant
                k <= n,
                n == self.extras@.len(),
                n == self.splats@.len(),
                l.order@.len() == n,
                l.child_start@.len() == n,
                l.child_count@.len() == n,
                forall|q: int|
                    0 <= q < n ==> #[trigger] l.child_count@[q] == 0 || l.child_start@[q]
                        + l.child_count@[q] <= n,
                self.wf(),
                self.max_sh_degree == old(self).max_sh_degree,
                self.splats@ == permuted(old(self).splats@, l.order@),
                old(self).sh1@.len() > 0 ==> self.sh1@ == permuted(old(self).sh1@, l.order@),
                old(self).sh1@.len() == 0 ==> self.sh1@ == old(self).sh1@,
                old(self).sh2@.len() > 0 ==> self.sh2@ == permuted(old(self).sh2@, l.order@),
                old(self).sh2@.len() == 0 ==> self.sh2@ == old(self).sh2@,
                old(self).sh3@.len() > 0 ==> self.sh3@ == permuted(old(self).sh3@, l.order@),
                old(self).sh3@.len() == 0 ==> self.sh3@ == old(self).sh3@,
                forall|q: int|
                    0 <= q < n ==> #[trigger] self.extras@[q] == (GsplatExtra {
                        child_start: l.child_start@[q],
                        child_count: l.child_count@[q],
                        parent: parent_upto(l, q, k as int),
                        ..moved[q]
                    }),
            decreases n - k,
        {
            let start = l.child_start[k];
            let count = l.child_count[k];
            if count != 0 {
                let mut c: usize = start;
                while c < start + count
                    invariant
                        start <= c <= start + count,
                        start + count <= n,
                        k < n,
                        start == l.child_start@[k as int],
                        count == l.child_count@[k as int],
                        n == self.extras@.len(),
                        n == self.splats@.len(),
                        self.wf(),
                        self.max_sh_degree == old(self).max_sh_degree,
                        self.splats@ == permuted(old(self).splats@, l.order@),
                        old(self).sh1@.len() > 0 ==> self.sh1@ == permuted(old(self).sh1@, l.order@),
                        old(self).sh1@.len() == 0 ==> self.sh1@ == old(self).sh1@,
                        old(self).sh2@.len() > 0 ==> self.sh2@ == permuted(old(self).sh2@, l.order@),
                        old(self).sh2@.len() == 0 ==> self.sh2@ == old(self).sh2@,
                        old(self).sh3@.len() > 0 ==> self.sh3@ == permuted(old(self).sh3@, l.order@),
                        old(self).sh3@.len() == 0 ==> self.sh3@ == old(self).sh3@,
                        forall|q: int|
                            0 <= q < n ==> #[trigger] self.extras@[q] == (GsplatExtra {
                                child_start: l.child_start@[q],
                                child_count: l.child_count@[q],
                                parent: if start <= q < c {
                                    k
                                } else {
                                    parent_upto(l, q, k as int)
                                },
                                ..moved[q]
                            }),
                    decreases start + count - c,
                {
                    let mut e = self.extras[c];
                    e.parent = k;
                    self.extras[c] = e;
                    c += 1;
                }
            }
            k += 1;
        }
        proof {
            assert(moved == permuted(before, l.order@));
            assert forall|q: int| 0 <= q < n implies #[trigger] self.extras@[q] == laid_out(
                before,
                l,
                q,
            ) by {
                assert(moved[q] == before[l.order@[q] as int]);
            }
        }
        true
    }
}

/// Setting a child start and then a child count gives the range that the
/// two name, whatever the node held before; a count of 0 gives a leaf.
pub proof fn lemma_child_range_set(e: GsplatExtra, child_start: usize, child_count: u16)
    ensures
        ({
            let r = with_child_count(with_child_start(e, child_start), child_count);
            &&& r.child_count == child_count
            &&& r.child_start == (if child_count == 0 {
                0
            } else {
                child_start
            })
        }),
{
}

/// Setting a field twice leaves what was set last.
pub proof fn lemma_child_count_overwrites(e: GsplatExtra, first: u16, second: u16)
    ensures
        with_child_count(with_child_count(e, first), second).child_count == second,
{
}

} // verus!
