//! The LoD tree builder: the bookkeeping of the bottom-up clustering.
//!
//! Level by level the splats at hand are put into the cells of a grid; the
//! splats of one cell are merged into one new splat, their parent. What a
//! merged splat looks like is for the caller to work out. Here it is
//! decided which splats take part in a level, which of them share a cell,
//! what index and level a merged splat gets, and in which order the tree is
//! laid out in the end.

use vstd::prelude::*;
use crate::gsplat::{hit_by, is_permutation, lemma_permutation_onto, permuted};
use crate::ordering::{lemma_morton3_injective, limbs_value, morton3, morton_coord64_to_index};

verus! {

/// A splat at hand with the Morton key of its cell.
pub type CellEntry = (usize, [u64; 3]);

/// The order of keys: limb by limb, the first limb first.
pub open spec fn key_le(a: [u64; 3], b: [u64; 3]) -> bool {
    a[0] < b[0] || (a[0] == b[0] && (a[1] < b[1] || (a[1] == b[1] && a[2] <= b[2])))
}

/// Whether two keys are the same, limb for limb.
pub open spec fn key_eq(a: [u64; 3], b: [u64; 3]) -> bool {
    a[0] == b[0] && a[1] == b[1] && a[2] == b[2]
}

/// Whether `sorted` is `entries` in the order of their keys, entries of one
/// key in the order that they had: `from[i]` is the place that `sorted[i]`
/// came from.
pub open spec fn is_stable_sort(entries: Seq<CellEntry>, sorted: Seq<CellEntry>, from: Seq<usize>) -> bool {
    &&& is_permutation(from)
    &&& from.len() == entries.len()
    &&& sorted == permuted(entries, from)
    &&& forall|i: int, j: int| 0 <= i < j < sorted.len() ==> key_le(sorted[i].1, sorted[j].1)
    &&& forall|i: int, j: int|
        0 <= i < j < sorted.len() && key_eq(sorted[i].1, sorted[j].1) ==> from[i] < from[j]
}

/// `<[T]>::sort_by_key` of std, with the key of an entry as the key: a
/// stable sort. Claimed: the entries come out in the order of their keys,
/// arrays being ordered element by element from the first; entries of one
/// key keep their order; nothing is lost or added.
#[verifier::external_body]
fn sort_by_cell(entries: &mut Vec<CellEntry>)
    ensures
        exists|from: Seq<usize>| is_stable_sort(old(entries)@, final(entries)@, from),
{
    entries.sort_by_key(|entry| entry.1);
}

/// Coordinate `d` of cell `a`.
pub open spec fn cell_at(cells: Seq<[i64; 3]>, a: int, d: int) -> int {
    cells[a][d] as int
}

/// Whether no two cells lie more than one cell apart on any axis.
pub open spec fn cells_close(cells: Seq<[i64; 3]>) -> bool {
    forall|a: int, b: int, d: int|
        0 <= a < cells.len() && 0 <= b < cells.len() && 0 <= d < 3 ==> #[trigger] cell_at(cells, a, d)
            - #[trigger] cell_at(cells, b, d) <= 1
}

/// Whether a row holds a number.
pub open spec fn row_holds(s: Seq<int>, v: int) -> bool {
    exists|q: int| 0 <= q < s.len() && #[trigger] s[q] == v
}

/// Two rows that run through the same numbers, each in rising order, are
/// the same row up to place `i`. The order is `lt`, on the numbers that
/// `dom` holds.
proof fn lemma_rising_rows_agree(
    a: Seq<int>,
    b: Seq<int>,
    dom: spec_fn(int) -> bool,
    lt: spec_fn(int, int) -> bool,
    i: int,
)
    requires
        0 <= i <= a.len(),
        i <= b.len(),
        forall|p: int| 0 <= p < a.len() ==> #[trigger] dom(a[p]),
        forall|p: int| 0 <= p < b.len() ==> #[trigger] dom(b[p]),
        forall|x: int, y: int| dom(x) && dom(y) && #[trigger] lt(x, y) ==> !lt(y, x),
        forall|x: int, y: int| dom(x) && dom(y) && x != y ==> #[trigger] lt(x, y) || lt(y, x),
        forall|p: int, q: int| 0 <= p < q < a.len() ==> lt(#[trigger] a[p], #[trigger] a[q]),
        forall|p: int, q: int| 0 <= p < q < b.len() ==> lt(#[trigger] b[p], #[trigger] b[q]),
        forall|p: int| 0 <= p < a.len() ==> #[trigger] row_holds(b, a[p]),
        forall|p: int| 0 <= p < b.len() ==> #[trigger] row_holds(a, b[p]),
    ensures
        forall|k: int| 0 <= k < i ==> a[k] == b[k],
    decreases i,
{
    if i > 0 {
        lemma_rising_rows_agree(a, b, dom, lt, i - 1);
        let k = i - 1;
        let x = a[k];
        let y = b[k];
        assert(dom(x) && dom(y));
        if x != y {
            if lt(x, y) {
                assert(row_holds(b, a[k]));
                let q = choose|q: int| 0 <= q < b.len() && #[trigger] b[q] == a[k];
                if q < k {
                    assert(a[q] == b[q]);
                    assert(lt(a[q], a[k]));
                } else if q > k {
                    assert(lt(b[k], b[q]));
                }
            } else {
                assert(lt(y, x));
                assert(row_holds(a, b[k]));
                let q = choose|q: int| 0 <= q < a.len() && #[trigger] a[q] == b[k];
                if q < k {
                    assert(a[q] == b[q]);
                    assert(lt(b[q], b[k]));
                } else if q > k {
                    assert(lt(a[k], a[q]));
                }
            }
        }
    }
}

/// A stable sort has one result: two rearrangements of the same entries
/// that both are stable sorts are the same.
pub proof fn lemma_stable_sort_unique(
    entries: Seq<CellEntry>,
    sorted1: Seq<CellEntry>,
    from1: Seq<usize>,
    sorted2: Seq<CellEntry>,
    from2: Seq<usize>,
)
    requires
        is_stable_sort(entries, sorted1, from1),
        is_stable_sort(entries, sorted2, from2),
    ensures
        from1 == from2,
        sorted1 == sorted2,
{
    let n = entries.len() as int;
    let a = Seq::new(n as nat, |p: int| from1[p] as int);
    let b = Seq::new(n as nat, |p: int| from2[p] as int);
    let dom = |x: int| 0 <= x < n;
    let lt = |x: int, y: int|
        (key_le(entries[x].1, entries[y].1) && !key_eq(entries[x].1, entries[y].1)) || (key_eq(
            entries[x].1,
            entries[y].1,
        ) && x < y);
    lemma_permutation_onto(from1);
    lemma_permutation_onto(from2);
    assert forall|p: int, q: int| 0 <= p < q < a.len() implies lt(#[trigger] a[p], #[trigger] a[q]) by {
        assert(sorted1[p] == entries[from1[p] as int]);
        assert(sorted1[q] == entries[from1[q] as int]);
        assert(key_le(sorted1[p].1, sorted1[q].1));
    }
    assert forall|p: int, q: int| 0 <= p < q < b.len() implies lt(#[trigger] b[p], #[trigger] b[q]) by {
        assert(sorted2[p] == entries[from2[p] as int]);
        assert(sorted2[q] == entries[from2[q] as int]);
        assert(key_le(sorted2[p].1, sorted2[q].1));
    }
    assert forall|p: int| 0 <= p < a.len() implies #[trigger] row_holds(b, a[p]) by {
        assert(hit_by(from2, a[p]));
        let q = choose|q: int| 0 <= q < from2.len() && #[trigger] from2[q] == a[p];
        assert(b[q] == a[p]);
    }
    assert forall|p: int| 0 <= p < b.len() implies #[trigger] row_holds(a, b[p]) by {
        assert(hit_by(from1, b[p]));
        let q = choose|q: int| 0 <= q < from1.len() && #[trigger] from1[q] == b[p];
        assert(a[q] == b[p]);
    }
    assert forall|p: int| 0 <= p < a.len() implies #[trigger] dom(a[p]) by {
        assert(from1[p] < from1.len());
    }
    assert forall|p: int| 0 <= p < b.len() implies #[trigger] dom(b[p]) by {
        assert(from2[p] < from2.len());
    }
    lemma_rising_rows_agree(a, b, dom, lt, n);
    assert forall|k: int| 0 <= k < n implies from1[k] == from2[k] by {
        assert(a[k] == b[k]);
    }
    assert(from1 =~= from2);
}

/// Sorted entries are cut into runs in one way.
pub proof fn lemma_grouping_unique(
    sorted: Seq<CellEntry>,
    bounds1: Seq<usize>,
    bounds2: Seq<usize>,
    merge_all: bool,
)
    requires
        is_grouping(sorted, bounds1, merge_all),
        is_grouping(sorted, bounds2, merge_all),
    ensures
        bounds1 == bounds2,
{
    let n = sorted.len() as int;
    let a = Seq::new(bounds1.len(), |p: int| bounds1[p] as int);
    let b = Seq::new(bounds2.len(), |p: int| bounds2[p] as int);
    let dom = |x: int| true;
    let lt = |x: int, y: int| x < y;
    lemma_bounds_rise(bounds1);
    lemma_bounds_rise(bounds2);
    assert forall|p: int| 0 <= p < a.len() implies #[trigger] row_holds(b, a[p]) by {
        lemma_cut_in(sorted, bounds1, bounds2, merge_all, p);
        let q = choose|q: int| 0 <= q < bounds2.len() && #[trigger] bounds2[q] == bounds1[p];
        assert(b[q] == a[p]);
    }
    assert forall|p: int| 0 <= p < b.len() implies #[trigger] row_holds(a, b[p]) by {
        lemma_cut_in(sorted, bounds2, bounds1, merge_all, p);
        let q = choose|q: int| 0 <= q < bounds1.len() && #[trigger] bounds1[q] == bounds2[p];
        assert(a[q] == b[p]);
    }
    let m = if a.len() <= b.len() {
        a.len() as int
    } else {
        b.len() as int
    };
    lemma_rising_rows_agree(a, b, dom, lt, m);
    // The shorter row ends where both end; so neither is shorter.
    assert(a[m - 1] == b[m - 1]);
    if a.len() < b.len() {
        assert(a[m - 1] == n);
        assert(b[m - 1] < b[b.len() - 1]);
    }
    if b.len() < a.len() {
        assert(b[m - 1] == n);
        assert(a[m - 1] < a[a.len() - 1]);
    }
    assert forall|k: int| 0 <= k < bounds1.len() implies bounds1[k] == bounds2[k] by {
        assert(a[k] == b[k]);
    }
    assert(bounds1 =~= bounds2);
}

/// Cuts that rise from place to place rise from any place to any later one.
proof fn lemma_bounds_rise(bounds: Seq<usize>)
    requires
        forall|g: int| 0 <= g < bounds.len() - 1 ==> #[trigger] bounds[g] < bounds[g + 1],
    ensures
        forall|p: int, q: int| 0 <= p < q < bounds.len() ==> bounds[p] < bounds[q],
{
    assert forall|p: int, q: int| 0 <= p < q < bounds.len() implies bounds[p] < bounds[q] by {
        lemma_bounds_rise_to(bounds, p, q);
    }
}

proof fn lemma_bounds_rise_to(bounds: Seq<usize>, p: int, q: int)
    requires
        forall|g: int| 0 <= g < bounds.len() - 1 ==> #[trigger] bounds[g] < bounds[g + 1],
        0 <= p < q < bounds.len(),
    ensures
        bounds[p] < bounds[q],
    decreases q - p,
{
    if p + 1 < q {
        lemma_bounds_rise_to(bounds, p, q - 1);
    }
    assert(bounds[q - 1] < bounds[q - 1 + 1]);
}

/// A cut of one way of cutting is a cut of every way.
proof fn lemma_cut_in(
    sorted: Seq<CellEntry>,
    bounds1: Seq<usize>,
    bounds2: Seq<usize>,
    merge_all: bool,
    p: int,
)
    requires
        is_grouping(sorted, bounds1, merge_all),
        is_grouping(sorted, bounds2, merge_all),
        0 <= p < bounds1.len(),
    ensures
        cut_at(bounds2, bounds1[p] as int),
{
    lemma_bounds_rise(bounds1);
    let c = bounds1[p];
    if p == 0 {
        assert(bounds2[0] == c);
    } else if p == bounds1.len() - 1 {
        assert(bounds2[bounds2.len() - 1] == c);
    } else {
        assert(bounds1[0] < bounds1[p] && bounds1[p] < bounds1[bounds1.len() - 1]);
        if merge_all {
            assert(false);
        } else {
            assert(key_changes(sorted, bounds1[p] as int));
            assert(cut_at(bounds2, c as int));
        }
    }
}

/// A grid coordinate as the 64 bits that hold it in two's complement.
pub open spec fn cell_bits(c: i64) -> u64 {
    if c >= 0 {
        c as u64
    } else {
        (c + 0x1_0000_0000_0000_0000) as u64
    }
}

/// The Morton key of a grid cell, as a number.
pub open spec fn cell_key(cell: [i64; 3]) -> nat {
    morton3(cell_bits(cell[0]) as nat, cell_bits(cell[1]) as nat, cell_bits(cell[2]) as nat)
}

/// Two splats at hand fall into one run of a level if and only if they lie
/// in one cell: keys are the same, limb for limb, exactly for the same
/// cell.
pub proof fn lemma_same_key_same_cell(ka: [u64; 3], kb: [u64; 3], ca: [i64; 3], cb: [i64; 3])
    requires
        limbs_value(ka) == cell_key(ca),
        limbs_value(kb) == cell_key(cb),
    ensures
        key_eq(ka, kb) <==> (ca[0] == cb[0] && ca[1] == cb[1] && ca[2] == cb[2]),
{
    if key_eq(ka, kb) {
        lemma_morton3_injective(
            cell_bits(ca[0]) as nat,
            cell_bits(ca[1]) as nat,
            cell_bits(ca[2]) as nat,
            cell_bits(cb[0]) as nat,
            cell_bits(cb[1]) as nat,
            cell_bits(cb[2]) as nat,
        );
    }
    if ca[0] == cb[0] && ca[1] == cb[1] && ca[2] == cb[2] {
        assert(limbs_value(ka) == limbs_value(kb));
    }
}

fn bits_of(c: i64) -> (u: u64)
    ensures
        u == cell_bits(c),
{
    if c >= 0 {
        c as u64
    } else {
        (c as i128 + 0x1_0000_0000_0000_0000) as u64
    }
}

/// The splats at hand with the Morton keys of their cells, sorted by key;
/// splats of one cell stay in their order.
pub fn sort_active(active: &[usize], cells: &[[i64; 3]]) -> (sorted: Vec<CellEntry>)
    requires
        active@.len() == cells@.len(),
    ensures
        sorted@.len() == active@.len(),
        exists|from: Seq<usize>, entries: Seq<CellEntry>|
            is_stable_sort(entries, sorted@, from) && entries.len() == active@.len() && forall|
                i: int,
            |
                0 <= i < entries.len() ==> (#[trigger] entries[i]).0 == active@[i] && limbs_value(
                    entries[i].1,
                ) == cell_key(cells@[i]),
{
    let mut entries: Vec<CellEntry> = Vec::new();
    let mut i: usize = 0;
    while i < active.len()
        invariant
            i <= active@.len(),
            active@.len() == cells@.len(),
            entries@.len() == i,
            forall|k: int|
                0 <= k < i ==> (#[trigger] entries@[k]).0 == active@[k] && limbs_value(
                    entries@[k].1,
                ) == cell_key(cells@[k]),
        decreases active@.len() - i,
    {
        let c = &cells[i];
        let key = morton_coord64_to_index([bits_of(c[0]), bits_of(c[1]), bits_of(c[2])]);
        entries.push((active[i], key));
        i += 1;
    }
    let ghost before = entries@;
    sort_by_cell(&mut entries);
    proof {
        let from = choose|from: Seq<usize>| is_stable_sort(before, entries@, from);
        assert(is_stable_sort(before, entries@, from));
    }
    entries
}

/// Whether `order` lists the places of `keys` by rising key, places of one
/// key by rising place.
pub open spec fn is_key_order(keys: Seq<u64>, order: Seq<usize>) -> bool {
    &&& order.len() == keys.len()
    &&& is_permutation(order)
    &&& forall|i: int, j: int|
        0 <= i < j < order.len() ==> keys[order[i] as int] < keys[order[j] as int] || (keys[order[i] as int]
            == keys[order[j] as int] && order[i] < order[j])
}

/// The places of `keys` by rising key, places of one key by rising place.
pub fn order_by_keys(keys: &[u64]) -> (order: Vec<usize>)
    ensures
        is_key_order(keys@, order@),
{
    let n = keys.len();
    let mut entries: Vec<CellEntry> = Vec::new();
    let mut i: usize = 0;
    while i < n
        invariant
            i <= n,
            n == keys@.len(),
            entries@.len() == i,
            forall|k: int| 0 <= k < i ==> #[trigger] entries@[k] == (k as usize, [keys@[k], 0u64, 0u64]),
        decreases n - i,
    {
        entries.push((i, [keys[i], 0, 0]));
        i += 1;
    }
    let ghost before = entries@;
    sort_by_cell(&mut entries);
    let ghost from = choose|from: Seq<usize>| is_stable_sort(before, entries@, from);
    let mut order: Vec<usize> = Vec::new();
    let mut j: usize = 0;
    while j < entries.len()
        invariant
            j <= entries@.len(),
            is_stable_sort(before, entries@, from),
            before.len() == n,
            n == keys@.len(),
            forall|k: int| 0 <= k < n ==> #[trigger] before[k] == (k as usize, [keys@[k], 0u64, 0u64]),
            order@.len() == j,
            forall|k: int| 0 <= k < j ==> #[trigger] order@[k] == from[k],
        decreases entries@.len() - j,
    {
        proof {
            assert(entries@[j as int] == before[from[j as int] as int]);
            assert(0 <= from[j as int] < n);
        }
        order.push(entries[j].0);
        j += 1;
    }
    proof {
        assert(order@ =~= from);
        assert forall|a: int, b: int| 0 <= a < b < order@.len() implies keys@[order@[a] as int]
            < keys@[order@[b] as int] || (keys@[order@[a] as int] == keys@[order@[b] as int]
            && order@[a] < order@[b]) by {
            assert(0 <= from[a] < n && 0 <= from[b] < n);
            assert(entries@[a] == before[from[a] as int]);
            assert(entries@[b] == before[from[b] as int]);
            assert(key_le(entries@[a].1, entries@[b].1));
            if keys@[order@[a] as int] == keys@[order@[b] as int] {
                assert(key_eq(entries@[a].1, entries@[b].1));
            }
        }
    }
    order
}

/// Whether `bounds` holds `i`.
pub open spec fn cut_at(bounds: Seq<usize>, i: int) -> bool {
    exists|g: int| 0 <= g < bounds.len() && #[trigger] bounds[g] == i
}

/// Whether the key changes at `i`.
pub open spec fn key_changes(sorted: Seq<CellEntry>, i: int) -> bool {
    !key_eq(sorted[i].1, sorted[i - 1].1)
}

/// Whether `bounds` cuts `sorted` into its runs of one key: the cuts rise
/// from 0 to the length, and between those two there is a cut where the key
/// changes and nowhere else. With `merge_all` there is one run, whatever
/// the keys.
pub open spec fn is_grouping(sorted: Seq<CellEntry>, bounds: Seq<usize>, merge_all: bool) -> bool {
    &&& bounds.len() >= 1
    &&& bounds[0] == 0
    &&& bounds.last() == sorted.len()
    &&& forall|g: int| 0 <= g < bounds.len() - 1 ==> #[trigger] bounds[g] < bounds[g + 1]
    &&& merge_all ==> bounds.len() <= 2
    &&& !merge_all ==> forall|g: int|
        1 <= g < bounds.len() - 1 ==> key_changes(sorted, #[trigger] bounds[g] as int)
    &&& !merge_all ==> forall|i: int|
        1 <= i < sorted.len() && key_changes(sorted, i) ==> #[trigger] cut_at(bounds, i)
}

fn same_key(a: &[u64; 3], b: &[u64; 3]) -> (r: bool)
    ensures
        r == key_eq(*a, *b),
{
    a[0] == b[0] && a[1] == b[1] && a[2] == b[2]
}

/// Cuts sorted entries into their runs of one key.
pub fn cut_groups(sorted: &[CellEntry], merge_all: bool) -> (bounds: Vec<usize>)
    ensures
        is_grouping(sorted@, bounds@, merge_all),
{
    let n = sorted.len();
    let mut bounds: Vec<usize> = Vec::new();
    bounds.push(0);
    if n == 0 {
        return bounds;
    }
    if merge_all {
        bounds.push(n);
        return bounds;
    }
    let mut i: usize = 1;
    while i < n
        invariant
            1 <= i <= n,
            n == sorted@.len(),
            !merge_all,
            bounds@.len() >= 1,
            bounds@[0] == 0,
            bounds@.last() < i,
            forall|g: int| 0 <= g < bounds@.len() - 1 ==> #[trigger] bounds@[g] < bounds@[g + 1],
            forall|g: int| 1 <= g < bounds@.len() ==> key_changes(sorted@, #[trigger] bounds@[g] as int),
            forall|k: int| 1 <= k < i && key_changes(sorted@, k) ==> #[trigger] cut_at(bounds@, k),
        decreases n - i,
    {
        if !same_key(&sorted[i].1, &sorted[i - 1].1) {
            let ghost before = bounds@;
            bounds.push(i);
            proof {
                assert forall|k: int| 1 <= k < i + 1 && key_changes(sorted@, k) implies #[trigger] cut_at(
                    bounds@,
                    k,
                ) by {
                    if k < i {
                        assert(cut_at(before, k));
                        let g = choose|g: int| 0 <= g < before.len() && #[trigger] before[g] == k;
                        assert(bounds@[g] == k);
                    } else {
                        assert(bounds@[bounds@.len() - 1] == k);
                    }
                }
            }
        }
        i += 1;
    }
    let ghost before = bounds@;
    bounds.push(n);
    proof {
        assert forall|k: int| 1 <= k < n && key_changes(sorted@, k) implies #[trigger] cut_at(
            bounds@,
            k,
        ) by {
            assert(cut_at(before, k));
            let g = choose|g: int| 0 <= g < before.len() && #[trigger] before[g] == k;
            assert(bounds@[g] == k);
        }
    }
    bounds
}

/// A list of splats: `smallvec::SmallVec<[usize; 8]>`, which keeps up to
/// eight of them in place.
#[verifier::external_body]
pub struct Members {
    list: smallvec::SmallVec<[usize; 8]>,
}

/// The splats that a list holds, in their order.
pub uninterp spec fn members_of(m: Members) -> Seq<usize>;

impl View for Members {
    type V = Seq<usize>;

    open spec fn view(&self) -> Seq<usize> {
        members_of(*self)
    }
}

/// `SmallVec::new`: a list without splats.
#[verifier::external_body]
fn members_new() -> (m: Members)
    ensures
        members_of(m) == Seq::<usize>::empty(),
{
    Members { list: smallvec::SmallVec::new() }
}

/// `SmallVec::push`: the splat joins the list at its end.
#[verifier::external_body]
fn members_push(m: &mut Members, node: usize)
    ensures
        members_of(*final(m)) == members_of(*old(m)).push(node),
{
    m.list.push(node)
}

/// `SmallVec::as_slice`: the splats of the list.
#[verifier::external_body]
fn members_slice(m: &Members) -> (s: &[usize])
    ensures
        s@ == members_of(*m),
{
    m.list.as_slice()
}

/// A merge: the splats of one cell and the splat that stands for them.
pub struct LodGroup {
    /// Index of the merged splat, the parent.
    pub merged: usize,
    /// Indices of the splats that were merged, the children.
    pub members: Members,
}

impl LodGroup {
    /// The children of the merge.
    pub fn children(&self) -> (list: &[usize])
        ensures
            list@ == self.members@,
    {
        members_slice(&self.members)
    }
}

/// Why the builder cannot go on.
#[derive(Debug, Clone, Copy, PartialEq, Eq, Structural)]
pub enum LodError {
    /// The level does not fit 32 bits.
    LevelOverflow,
    /// The splats cannot be counted in `usize`.
    TooManySplats,
}

/// The number of children in the merges `a..b`.
pub open spec fn sum_members(groups: Seq<LodGroup>, a: int, b: int) -> nat
    decreases b - a,
{
    if a >= b {
        0
    } else {
        sum_members(groups, a, b - 1) + groups[b - 1].members@.len()
    }
}

proof fn lemma_sum_members_split(groups: Seq<LodGroup>, a: int, b: int, c: int)
    requires
        a <= b <= c,
    ensures
        sum_members(groups, a, c) == sum_members(groups, a, b) + sum_members(groups, b, c),
    decreases c - b,
{
    if b < c {
        lemma_sum_members_split(groups, a, b, c - 1);
    }
}

proof fn lemma_sum_members_prefix(a: Seq<LodGroup>, b: Seq<LodGroup>, from: int, to: int)
    requires
        0 <= from,
        to <= a.len(),
        to <= b.len(),
        forall|g: int| from <= g < to ==> a[g] == b[g],
    ensures
        sum_members(a, from, to) == sum_members(b, from, to),
    decreases to - from,
{
    if from < to {
        lemma_sum_members_prefix(a, b, from, to - 1);
    }
}

/// Whether the entries of `s` differ from one another.
pub open spec fn all_distinct(s: Seq<usize>) -> bool {
    forall|i: int, j: int| 0 <= i < j < s.len() ==> s[i] != s[j]
}

/// Every merge of a level is the merge of one of its runs.
proof fn lemma_merged_run_of(bounds: Seq<usize>, runs: int, c: int)
    requires
        0 <= runs < bounds.len(),
        0 <= c < merged_runs(bounds, runs),
    ensures
        exists|r: int|
            0 <= r < runs && bounds[r + 1] - bounds[r] > 1 && #[trigger] merged_runs(bounds, r) == c,
    decreases runs,
{
    if runs > 0 {
        if bounds[runs] - bounds[runs - 1] > 1 && merged_runs(bounds, runs - 1) == c {
            assert(merged_runs(bounds, runs - 1) == c);
        } else {
            lemma_merged_run_of(bounds, runs - 1, c);
        }
    }
}

/// The splats at hand with their keys are one row of entries.
proof fn lemma_entries_agree(
    active0: Seq<usize>,
    cells: Seq<[i64; 3]>,
    entries1: Seq<CellEntry>,
    entries2: Seq<CellEntry>,
)
    requires
        entries1.len() == active0.len(),
        entries2.len() == active0.len(),
        forall|i: int|
            0 <= i < entries1.len() ==> (#[trigger] entries1[i]).0 == active0[i] && limbs_value(
                entries1[i].1,
            ) == cell_key(cells[i]),
        forall|i: int|
            0 <= i < entries2.len() ==> (#[trigger] entries2[i]).0 == active0[i] && limbs_value(
                entries2[i].1,
            ) == cell_key(cells[i]),
    ensures
        entries1 == entries2,
{
    assert forall|i: int| 0 <= i < entries1.len() implies #[trigger] entries1[i] == entries2[i] by {
        lemma_same_key_same_cell(entries1[i].1, entries2[i].1, cells[i], cells[i]);
        assert(entries1[i].1 =~= entries2[i].1);
    }
    assert(entries1 =~= entries2);
}

/// Runs that are cut in one way have one outcome.
proof fn lemma_outcome_unique(
    sorted: Seq<CellEntry>,
    bounds: Seq<usize>,
    first: int,
    made: int,
    active1: Seq<usize>,
    groups1: Seq<LodGroup>,
    active2: Seq<usize>,
    groups2: Seq<LodGroup>,
)
    requires
        made >= 0,
        bounds.len() >= 1,
        level_outcome(sorted, bounds, first, made, active1, groups1),
        level_outcome(sorted, bounds, first, made, active2, groups2),
    ensures
        active1 == active2,
        groups1.len() == groups2.len(),
        forall|g: int|
            made <= g < groups1.len() ==> (#[trigger] groups1[g]).merged == groups2[g].merged
                && groups1[g].members@ == groups2[g].members@,
{
    let runs = bounds.len() - 1;
    assert forall|r: int| 0 <= r < runs implies active1[r] == active2[r] by {
        assert(outcome_at(sorted, bounds, first, made, active1, groups1, r));
        assert(outcome_at(sorted, bounds, first, made, active2, groups2, r));
    }
    assert(active1 =~= active2);
    assert forall|g: int| made <= g < groups1.len() implies (#[trigger] groups1[g]).merged
        == groups2[g].merged && groups1[g].members@ == groups2[g].members@ by {
        lemma_merged_run_of(bounds, runs, g - made);
        let r = choose|r: int|
            0 <= r < runs && bounds[r + 1] - bounds[r] > 1 && #[trigger] merged_runs(bounds, r) == g
                - made;
        assert(outcome_at(sorted, bounds, first, made, active1, groups1, r));
        assert(outcome_at(sorted, bounds, first, made, active2, groups2, r));
    }
}

/// A level has one outcome: given the splats at hand, their cells and the
/// merges made before, the splats at hand afterwards and the merges made
/// are the same however the level was worked on.
pub proof fn lemma_level_determined(
    active0: Seq<usize>,
    cells: Seq<[i64; 3]>,
    merge_all: bool,
    first: int,
    made: int,
    from1: Seq<usize>,
    entries1: Seq<CellEntry>,
    sorted1: Seq<CellEntry>,
    bounds1: Seq<usize>,
    active1: Seq<usize>,
    groups1: Seq<LodGroup>,
    from2: Seq<usize>,
    entries2: Seq<CellEntry>,
    sorted2: Seq<CellEntry>,
    bounds2: Seq<usize>,
    active2: Seq<usize>,
    groups2: Seq<LodGroup>,
)
    requires
        made >= 0,
        is_stable_sort(entries1, sorted1, from1),
        is_stable_sort(entries2, sorted2, from2),
        entries1.len() == active0.len(),
        entries2.len() == active0.len(),
        forall|i: int|
            0 <= i < entries1.len() ==> (#[trigger] entries1[i]).0 == active0[i] && limbs_value(
                entries1[i].1,
            ) == cell_key(cells[i]),
        forall|i: int|
            0 <= i < entries2.len() ==> (#[trigger] entries2[i]).0 == active0[i] && limbs_value(
                entries2[i].1,
            ) == cell_key(cells[i]),
        is_grouping(sorted1, bounds1, merge_all),
        is_grouping(sorted2, bounds2, merge_all),
        level_outcome(sorted1, bounds1, first, made, active1, groups1),
        level_outcome(sorted2, bounds2, first, made, active2, groups2),
    ensures
        active1 == active2,
        groups1.len() == groups2.len(),
        forall|g: int|
            made <= g < groups1.len() ==> (#[trigger] groups1[g]).merged == groups2[g].merged
                && groups1[g].members@ == groups2[g].members@,
{
    lemma_entries_agree(active0, cells, entries1, entries2);
    lemma_stable_sort_unique(entries1, sorted1, from1, sorted2, from2);
    lemma_grouping_unique(sorted1, bounds1, bounds2, merge_all);
    lemma_outcome_unique(sorted1, bounds1, first, made, active1, groups1, active2, groups2);
}

/// The state of the clustering: the levels of the splats, the splats at
/// hand, and the merges made.
pub struct LodBuilder {
    initial: usize,
    levels: Vec<i32>,
    parent: Vec<usize>,
    frontier: usize,
    level: i32,
    active: Vec<usize>,
    groups: Vec<LodGroup>,
    linked: usize,
}

impl LodBuilder {
    /// Number of splats that the scene had before any merge.
    pub closed spec fn initial(&self) -> nat {
        self.initial as nat
    }

    /// The level of every splat, merged ones behind the others.
    pub closed spec fn levels(&self) -> Seq<i32> {
        self.levels@
    }

    /// The parent of every splat; `usize::MAX` where it has none yet.
    pub closed spec fn parents(&self) -> Seq<usize> {
        self.parent@
    }

    /// How many of the splats of the scene have come to hand.
    pub closed spec fn frontier(&self) -> nat {
        self.frontier as nat
    }

    /// The level that is worked on.
    pub closed spec fn level(&self) -> i32 {
        self.level
    }

    /// The splats at hand.
    pub closed spec fn active(&self) -> Seq<usize> {
        self.active@
    }

    /// The merges made, in their order.
    pub closed spec fn groups(&self) -> Seq<LodGroup> {
        self.groups@
    }

    /// Whether the state is one that building reaches.
    ///
    /// Every splat is a child in one merge, or at hand, or yet to come to
    /// hand. A merged splat has a higher index and a higher level than its
    /// children. No splat at hand lies above the level that is worked on.
    #[verifier::opaque]
    pub closed spec fn wf(&self) -> bool {
        let total = self.levels@.len();
        let groups = self.groups@;
        &&& total == self.initial + groups.len()
        &&& self.parent@.len() == total
        &&& total < usize::MAX
        &&& self.frontier <= self.initial
        &&& all_distinct(self.active@)
        &&& forall|k: int|
            0 <= k < self.active@.len() ==> {
                let a = #[trigger] self.active@[k];
                &&& a < total
                &&& self.parent@[a as int] == usize::MAX
                &&& self.levels@[a as int] <= self.level
                &&& (a < self.frontier || a >= self.initial)
            }
        &&& forall|g: int|
            0 <= g < groups.len() ==> {
                &&& (#[trigger] groups[g]).merged == self.initial + g
                &&& all_distinct(groups[g].members@)
                &&& groups[g].members@.len() >= 2
            }
        &&& forall|g: int, k: int|
            0 <= g < groups.len() && 0 <= k < groups[g].members@.len() ==> {
                let c = #[trigger] groups[g].members@[k];
                &&& c < groups[g].merged
                &&& self.parent@[c as int] == groups[g].merged
                &&& self.levels@[c as int] < self.levels@[groups[g].merged as int]
            }
        &&& forall|i: int|
            self.frontier <= i < self.initial ==> #[trigger] self.parent@[i] == usize::MAX
        &&& self.linked == sum_members(groups, 0, groups.len() as int)
        &&& self.linked + self.active@.len() + (self.initial - self.frontier) == total
    }

    /// A builder for a scene whose splats, sorted by their size, have the
    /// given levels. The lowest level is worked on first. `None` for a scene
    /// without splats, or one that is too large.
    pub fn new(leaf_levels: Vec<i32>) -> (r: Option<Self>)
        ensures
            r.is_some() <==> 0 < leaf_levels@.len() < usize::MAX,
            r matches Some(b) ==> b.wf() && b.initial() == leaf_levels@.len() && b.levels()
                == leaf_levels@ && b.frontier() == 0 && b.active().len() == 0 && b.groups().len()
                == 0 && b.level() == leaf_levels@[0],
    {
        let n = leaf_levels.len();
        if n == 0 || n == usize::MAX {
            return None;
        }
        proof {
            reveal(LodBuilder::wf);
        }
        let mut parent: Vec<usize> = Vec::new();
        parent.resize(n, usize::MAX);
        let level = leaf_levels[0];
        Some(
            LodBuilder {
                initial: n,
                levels: leaf_levels,
                parent,
                frontier: 0,
                level,
                active: Vec::new(),
                groups: Vec::new(),
                linked: 0,
            },
        )
    }

    /// The level that is worked on.
    pub fn current_level(&self) -> (level: i32)
        ensures
            level == self.level(),
    {
        self.level
    }

    /// The splats at hand.
    pub fn active_splats(&self) -> (active: &Vec<usize>)
        ensures
            active@ == self.active(),
    {
        &self.active
    }

    /// The merges made, in their order.
    pub fn merges(&self) -> (groups: &Vec<LodGroup>)
        ensures
            groups@ == self.groups(),
    {
        &self.groups
    }

    /// Number of splats, merged ones counted in.
    pub fn num_splats(&self) -> (n: usize)
        ensures
            n == self.levels().len(),
    {
        self.levels.len()
    }

    /// Takes to hand the splats of the scene that do not lie above the level
    /// that is worked on: from where the last call stopped, up to the first
    /// that lies above.
    pub fn advance_frontier(&mut self)
        requires
            old(self).wf(),
        ensures
            final(self).wf(),
            final(self).initial() == old(self).initial(),
            final(self).levels() == old(self).levels(),
            final(self).parents() == old(self).parents(),
            final(self).groups() == old(self).groups(),
            final(self).level() == old(self).level(),
            old(self).frontier() <= final(self).frontier() <= final(self).initial(),
            final(self).active() == old(self).active() + Seq::new(
                (final(self).frontier() - old(self).frontier()) as nat,
                |k: int| (old(self).frontier() + k) as usize,
            ),
            forall|i: int|
                old(self).frontier() <= i < final(self).frontier() ==> final(self).levels()[i]
                    <= final(self).level(),
            final(self).frontier() < final(self).initial() ==> final(self).levels()[final(self).frontier() as int]
                > final(self).level(),
    {
        let ghost start = self.frontier;
        let ghost active0 = self.active@;
        proof {
            self.lemma_sizes();
        }
        assert(self.active@ =~= active0 + Seq::new(0, |k: int| (start + k) as usize));
        while self.frontier < self.initial && self.levels[self.frontier] <= self.level
            invariant
                self.wf(),
                self.initial <= self.levels@.len(),
                self.initial == old(self).initial,
                self.levels == old(self).levels,
                self.parent == old(self).parent,
                self.groups == old(self).groups,
                self.level == old(self).level,
                start == old(self).frontier,
                active0 == old(self).active@,
                start <= self.frontier <= self.initial,
                self.active@ == active0 + Seq::new(
                    (self.frontier - start) as nat,
                    |k: int| (start + k) as usize,
                ),
                forall|i: int| start <= i < self.frontier ==> self.levels@[i] <= self.level,
            decreases self.initial - self.frontier,
        {
            let f = self.frontier;
            let ghost before = self.active@;
            proof {
                reveal(LodBuilder::wf);
            }
            self.active.push(f);
            self.frontier = f + 1;
            proof {
                assert(self.active@ =~= active0 + Seq::new(
                    (self.frontier - start) as nat,
                    |k: int| (start + k) as usize,
                ));
                assert forall|i: int, j: int| 0 <= i < j < self.active@.len() implies self.active@[i]
                    != self.active@[j] by {
                    if j == before.len() {
                        assert(before[i] < f || before[i] >= self.initial);
                    }
                }
            }
        }
    }
}

/// How many of the runs `0..r` that `bounds` cuts hold more than one entry.
pub open spec fn merged_runs(bounds: Seq<usize>, r: int) -> nat
    decreases r,
{
    if r <= 0 {
        0
    } else if bounds[r] - bounds[r - 1] > 1 {
        merged_runs(bounds, r - 1) + 1
    } else {
        merged_runs(bounds, r - 1)
    }
}

/// The splats of the entries `a..b`.
pub open spec fn run_members(sorted: Seq<CellEntry>, a: int, b: int) -> Seq<usize> {
    Seq::new((b - a) as nat, |k: int| sorted[a + k].0)
}

/// Whether `active` and `groups` hold what run `r` leaves: a run of one
/// entry leaves its splat at hand; a longer run is merged and leaves the
/// merged splat at hand. The merged splats get the indices from `first` on
/// in the order of the runs.
pub open spec fn outcome_at(
    sorted: Seq<CellEntry>,
    bounds: Seq<usize>,
    first: int,
    made_before: int,
    active: Seq<usize>,
    groups: Seq<LodGroup>,
    r: int,
) -> bool {
    if bounds[r + 1] - bounds[r] > 1 {
        let g = made_before + merged_runs(bounds, r);
        &&& 0 <= g < groups.len()
        &&& active[r] == first + merged_runs(bounds, r)
        &&& groups[g].merged == active[r]
        &&& groups[g].members@ == run_members(sorted, bounds[r] as int, bounds[r + 1] as int)
    } else {
        active[r] == sorted[bounds[r] as int].0
    }
}

/// Whether `active` and `groups` are what the runs of `sorted` leave.
pub open spec fn level_outcome(
    sorted: Seq<CellEntry>,
    bounds: Seq<usize>,
    first: int,
    made_before: int,
    active: Seq<usize>,
    groups: Seq<LodGroup>,
) -> bool {
    &&& active.len() == bounds.len() - 1
    &&& groups.len() == made_before + merged_runs(bounds, bounds.len() - 1)
    &&& forall|r: int|
        0 <= r < bounds.len() - 1 ==> #[trigger] outcome_at(
            sorted,
            bounds,
            first,
            made_before,
            active,
            groups,
            r,
        )
}

/// What a level starts from: the sorted entries and their cuts, and the
/// state of the builder before the level is merged.
pub ghost struct LevelPlan {
    pub sorted: Seq<CellEntry>,
    pub bounds: Seq<usize>,
    pub levels0: Seq<i32>,
    pub parent0: Seq<usize>,
    pub groups0: Seq<LodGroup>,
    pub level0: i32,
}

/// Links the splats of the entries `a..b` to their parent.
fn link_run(parent: &mut Vec<usize>, sorted: &Vec<CellEntry>, a: usize, b: usize, merged: usize) -> (members:
    Members)
    requires
        a <= b <= sorted@.len(),
        forall|j: int| 0 <= j < sorted@.len() ==> (#[trigger] sorted@[j]).0 < old(parent)@.len(),
    ensures
        final(parent)@.len() == old(parent)@.len(),
        members@ == run_members(sorted@, a as int, b as int),
        forall|j: int| a <= j < b ==> final(parent)@[(#[trigger] sorted@[j]).0 as int] == merged,
        forall|p: int|
            0 <= p < old(parent)@.len() && !run_holds(sorted@, a as int, b as int, p)
                ==> final(parent)@[p] == old(parent)@[p],
{
    let mut members = members_new();
    assert(members@ =~= run_members(sorted@, a as int, a as int));
    let mut i: usize = a;
    while i < b
        invariant
            a <= i <= b <= sorted@.len(),
            parent@.len() == old(parent)@.len(),
            members@ == run_members(sorted@, a as int, i as int),
            forall|j: int| 0 <= j < sorted@.len() ==> (#[trigger] sorted@[j]).0 < parent@.len(),
            forall|j: int| a <= j < i ==> parent@[(#[trigger] sorted@[j]).0 as int] == merged,
            forall|p: int|
                0 <= p < parent@.len() && !run_holds(sorted@, a as int, i as int, p) ==> parent@[p]
                    == old(parent)@[p],
        decreases b - i,
    {
        let node = sorted[i].0;
        let ghost before = parent@;
        members_push(&mut members, node);
        parent[node] = merged;
        assert(members@ =~= run_members(sorted@, a as int, i + 1));
        proof {
            assert forall|p: int|
                0 <= p < parent@.len() && !run_holds(sorted@, a as int, i + 1, p) implies parent@[p]
                == old(parent)@[p] by {
                assert(sorted@[i as int].0 != p) by {
                    if sorted@[i as int].0 == p {
                        assert(a <= i < i + 1 && sorted@[i as int].0 == p);
                    }
                }
                if run_holds(sorted@, a as int, i as int, p) {
                    let j = choose|j: int| a <= j < i && (#[trigger] sorted@[j]).0 == p;
                    assert(a <= j < i + 1 && sorted@[j].0 == p);
                }
            }
            assert forall|j: int| a <= j < i + 1 implies parent@[(#[trigger] sorted@[j]).0 as int]
                == merged by {
                if j < i {
                    assert(before[sorted@[j].0 as int] == merged);
                }
            }
        }
        i += 1;
    }
    members
}

/// Whether one of the entries `a..b` holds the splat `p`.
pub open spec fn run_holds(sorted: Seq<CellEntry>, a: int, b: int, p: int) -> bool {
    exists|j: int| a <= j < b && (#[trigger] sorted[j]).0 == p
}

impl LodBuilder {
    /// What holds of the plan of a level.
    #[verifier::opaque]
    closed spec fn plan_ok(&self, p: LevelPlan) -> bool {
        let n = p.sorted.len();
        let total0 = p.levels0.len();
        let g0 = p.groups0.len();
        &&& p.bounds.len() >= 1
        &&& p.bounds[0] == 0
        &&& p.bounds.last() == n
        &&& forall|g: int| 0 <= g < p.bounds.len() - 1 ==> #[trigger] p.bounds[g] < p.bounds[g + 1]
        &&& total0 == p.parent0.len()
        &&& total0 + n < usize::MAX
        &&& total0 == self.initial + g0
        &&& p.level0 < i32::MAX
        &&& self.frontier <= self.initial
        &&& forall|i: int|
            0 <= i < n ==> {
                let a = (#[trigger] p.sorted[i]).0;
                &&& a < total0
                &&& p.parent0[a as int] == usize::MAX
                &&& p.levels0[a as int] <= p.level0
                &&& (a < self.frontier || a >= self.initial)
            }
        &&& forall|i: int, j: int| 0 <= i < j < n ==> p.sorted[i].0 != p.sorted[j].0
        &&& forall|g: int, k: int|
            0 <= g < g0 && 0 <= k < p.groups0[g].members@.len() ==> {
                let c = #[trigger] p.groups0[g].members@[k];
                &&& c < p.groups0[g].merged
                &&& p.parent0[c as int] == p.groups0[g].merged
                &&& p.levels0[c as int] < p.levels0[p.groups0[g].merged as int]
            }
        &&& forall|g: int|
            0 <= g < g0 ==> (#[trigger] p.groups0[g]).merged == self.initial + g && all_distinct(
                p.groups0[g].members@,
            ) && p.groups0[g].members@.len() >= 2
        &&& forall|i: int|
            self.frontier <= i < self.initial ==> #[trigger] p.parent0[i] == usize::MAX
    }

    /// What holds of the state while the runs of a level are merged, `made`
    /// merges made.
    #[verifier::opaque]
    closed spec fn state_ok(&self, p: LevelPlan, made: int) -> bool {
        let total0 = p.levels0.len();
        let g0 = p.groups0.len();
        &&& self.level == p.level0
        &&& self.groups@.len() == g0 + made
        &&& self.levels@.len() == total0 + made
        &&& self.parent@.len() == self.levels@.len()
        &&& forall|i: int| 0 <= i < total0 ==> self.levels@[i] == p.levels0[i]
        &&& forall|i: int| total0 <= i < self.levels@.len() ==> self.levels@[i] == p.level0 + 1
        &&& forall|i: int| total0 <= i < self.parent@.len() ==> self.parent@[i] == usize::MAX
        &&& forall|g: int| 0 <= g < g0 ==> self.groups@[g] == p.groups0[g]
        &&& forall|i: int|
            0 <= i < total0 && p.parent0[i] != usize::MAX ==> self.parent@[i] == p.parent0[i]
        &&& forall|i: int|
            self.frontier <= i < self.initial ==> #[trigger] self.parent@[i] == usize::MAX
        &&& forall|g: int|
            g0 <= g < self.groups@.len() ==> (#[trigger] self.groups@[g]).merged == self.initial
                + g && all_distinct(self.groups@[g].members@) && self.groups@[g].members@.len() >= 2
        &&& forall|g: int, k: int|
            g0 <= g < self.groups@.len() && 0 <= k < self.groups@[g].members@.len() ==> {
                let c = #[trigger] self.groups@[g].members@[k];
                &&& c < total0
                &&& self.parent@[c as int] == self.groups@[g].merged
                &&& p.levels0[c as int] <= p.level0
            }
        &&& self.linked == sum_members(self.groups@, 0, self.groups@.len() as int)
    }

    /// What holds of the splats at hand for the next level, `r` runs done.
    #[verifier::opaque]
    closed spec fn next_ok(&self, p: LevelPlan, r: int, next: Seq<usize>) -> bool {
        let n = p.sorted.len();
        let total0 = p.levels0.len();
        &&& 0 <= r <= p.bounds.len() - 1
        &&& merged_runs(p.bounds, r) <= r
        &&& r <= p.bounds[r] <= n
        &&& total0 <= self.levels@.len()
        &&& self.parent@.len() == self.levels@.len()
        &&& forall|i: int|
            p.bounds[r] <= i < n ==> self.parent@[(#[trigger] p.sorted[i]).0 as int] == usize::MAX
        &&& self.linked + next.len() + (n - p.bounds[r]) + (self.initial - self.frontier)
            == self.levels@.len()
        &&& next.len() == r
        &&& all_distinct(next)
        &&& forall|q: int|
            0 <= q < r ==> {
                let a = #[trigger] next[q];
                &&& a < self.levels@.len()
                &&& self.parent@[a as int] == usize::MAX
                &&& (a < total0 ==> run_holds(p.sorted, 0, p.bounds[r] as int, a as int))
                &&& (a >= total0 ==> a < total0 + merged_runs(p.bounds, r))
                &&& (a < self.frontier || a >= self.initial)
            }
        &&& level_outcome(
            p.sorted,
            p.bounds.subrange(0, r + 1),
            total0 as int,
            p.groups0.len() as int,
            next,
            self.groups@,
        )
    }

    /// What holds while the runs of a level are merged, `r` of them done
    /// and `next` at hand for the next level.
    closed spec fn mid(&self, p: LevelPlan, r: int, next: Seq<usize>) -> bool {
        &&& self.plan_ok(p)
        &&& self.state_ok(p, merged_runs(p.bounds, r) as int)
        &&& self.next_ok(p, r, next)
    }

    /// Keeps the splat of a run of one entry at hand.
    fn keep_single(
        &mut self,
        sorted: &Vec<CellEntry>,
        bounds: &Vec<usize>,
        r: usize,
        next: &mut Vec<usize>,
        Ghost(p): Ghost<LevelPlan>,
    )
        requires
            old(self).mid(p, r as int, old(next)@),
            sorted@ == p.sorted,
            bounds@ == p.bounds,
            r < bounds@.len() - 1,
            bounds@[r + 1] - bounds@[r as int] == 1,
        ensures
            final(self).mid(p, r + 1, final(next)@),
            *final(self) == *old(self),
    {
        proof {
            reveal(LodBuilder::plan_ok);
            reveal(LodBuilder::next_ok);
            lemma_bounds_below(p.bounds, r + 1);
        }
        let a = bounds[r];
        let node = sorted[a].0;
        let ghost next_before = next@;
        next.push(node);
        proof {
            let total0 = p.levels0.len();
            let b = bounds@[r + 1];
            assert(p.sorted[a as int].0 == node);
            assert(self.parent@[node as int] == usize::MAX);
            assert(node < total0);
            assert(merged_runs(p.bounds, r + 1) == merged_runs(p.bounds, r as int));
            assert forall|q: int| 0 <= q < r + 1 implies {
                let x = #[trigger] next@[q];
                &&& x < self.levels@.len()
                &&& self.parent@[x as int] == usize::MAX
                &&& (x < total0 ==> run_holds(p.sorted, 0, b as int, x as int))
                &&& (x >= total0 ==> x < total0 + merged_runs(p.bounds, r + 1))
                &&& (x < self.frontier || x >= self.initial)
            } by {
                let x = next@[q];
                if q < r {
                    assert(x == next_before[q]);
                    if x < total0 {
                        let i = choose|i: int| 0 <= i < a && (#[trigger] p.sorted[i]).0 == x;
                        assert(0 <= i < b && p.sorted[i].0 == x);
                    }
                } else {
                    assert(p.sorted[a as int].0 == x);
                }
            }
            assert forall|x: int, y: int| 0 <= x < y < next@.len() implies next@[x] != next@[y] by {
                if y == r {
                    let v = next_before[x];
                    if v < total0 {
                        let i = choose|i: int| 0 <= i < a && (#[trigger] p.sorted[i]).0 == v;
                        assert(p.sorted[i].0 != p.sorted[a as int].0);
                    }
                }
            }
            lemma_outcome_step(
                p.sorted,
                p.bounds,
                r as int,
                total0 as int,
                p.groups0.len() as int,
                next_before,
                self.groups@,
                next@,
                self.groups@,
            );
        }
    }

    /// Merges a run of more than one entry: the merged splat gets the next
    /// index and the next level and is at hand; the splats of the run get it
    /// as their parent.
    #[verifier::rlimit(60)]
    fn merge_run(
        &mut self,
        sorted: &Vec<CellEntry>,
        bounds: &Vec<usize>,
        r: usize,
        next: &mut Vec<usize>,
        Ghost(p): Ghost<LevelPlan>,
    )
        requires
            old(self).mid(p, r as int, old(next)@),
            sorted@ == p.sorted,
            bounds@ == p.bounds,
            r < bounds@.len() - 1,
            bounds@[r + 1] - bounds@[r as int] > 1,
        ensures
            final(self).mid(p, r + 1, final(next)@),
            final(self).initial == old(self).initial,
            final(self).frontier == old(self).frontier,
            final(self).active == old(self).active,
            final(self).level == old(self).level,
    {
        proof {
            reveal(LodBuilder::plan_ok);
            reveal(LodBuilder::state_ok);
            reveal(LodBuilder::next_ok);
            lemma_bounds_below(p.bounds, r + 1);
        }
        let a = bounds[r];
        let b = bounds[r + 1];
        let ghost total0 = p.levels0.len();
        let ghost g0 = p.groups0.len();
        let ghost n = p.sorted.len();
        let ghost made = merged_runs(p.bounds, r as int);
        let ghost groups_before = self.groups@;
        let ghost next_before = next@;
        let ghost parent_before = self.parent@;
        let merged = self.levels.len();
        let members = link_run(&mut self.parent, sorted, a, b, merged);
        self.levels.push(self.level + 1);
        self.parent.push(usize::MAX);
        let count = b - a;
        self.groups.push(LodGroup { merged, members });
        self.linked = self.linked + count;
        next.push(merged);
        proof {
            let gs = self.groups@;
            let gi = gs.len() - 1;
            assert(merged_runs(p.bounds, r + 1) == made + 1);
            lemma_sum_members_prefix(gs, groups_before, 0, gi);
            assert(gs[gi].members@.len() == count);
            assert forall|x: int, y: int|
                0 <= x < y < gs[gi].members@.len() implies gs[gi].members@[x]
                != gs[gi].members@[y] by {
                assert(p.sorted[a + x].0 != p.sorted[a + y].0);
            }
            assert forall|i: int| b <= i < n implies self.parent@[(#[trigger] p.sorted[i]).0 as int]
                == usize::MAX by {
                let v = p.sorted[i].0 as int;
                if run_holds(p.sorted, a as int, b as int, v) {
                    let j = choose|j: int| a <= j < b && (#[trigger] p.sorted[j]).0 == v;
                    assert(p.sorted[j].0 != p.sorted[i].0);
                }
                assert(parent_before[v] == usize::MAX);
            }
            assert forall|i: int|
                0 <= i < total0 && p.parent0[i] != usize::MAX implies self.parent@[i]
                == p.parent0[i] by {
                if run_holds(p.sorted, a as int, b as int, i) {
                    let j = choose|j: int| a <= j < b && (#[trigger] p.sorted[j]).0 == i;
                    assert(p.parent0[p.sorted[j].0 as int] == usize::MAX);
                }
            }
            assert forall|i: int| self.frontier <= i < self.initial implies #[trigger] self.parent@[i]
                == usize::MAX by {
                if run_holds(p.sorted, a as int, b as int, i) {
                    let j = choose|j: int| a <= j < b && (#[trigger] p.sorted[j]).0 == i;
                    assert(p.sorted[j].0 < self.frontier || p.sorted[j].0 >= self.initial);
                }
                assert(parent_before[i] == usize::MAX);
            }
            assert forall|g: int, k: int|
                g0 <= g < gs.len() && 0 <= k < gs[g].members@.len() implies {
                let c = #[trigger] gs[g].members@[k];
                &&& c < total0
                &&& self.parent@[c as int] == gs[g].merged
                &&& p.levels0[c as int] <= p.level0
            } by {
                let c = gs[g].members@[k];
                if g < gi {
                    assert(gs[g] == groups_before[g]);
                    assert(groups_before[g].members@[k] == c);
                    assert(parent_before[c as int] == gs[g].merged);
                    assert(gs[g].merged == self.initial + g);
                    if run_holds(p.sorted, a as int, b as int, c as int) {
                        let j = choose|j: int| a <= j < b && (#[trigger] p.sorted[j]).0 == c;
                        assert(parent_before[p.sorted[j].0 as int] == usize::MAX);
                    }
                } else {
                    assert(c == p.sorted[a + k].0);
                }
            }
            assert forall|g: int|
                g0 <= g < gs.len() implies (#[trigger] gs[g]).merged == self.initial + g
                && all_distinct(gs[g].members@) && gs[g].members@.len() >= 2 by {
                if g < gi {
                    assert(gs[g] == groups_before[g]);
                }
            }
            assert forall|q: int| 0 <= q < r + 1 implies {
                let x = #[trigger] next@[q];
                &&& x < self.levels@.len()
                &&& self.parent@[x as int] == usize::MAX
                &&& (x < total0 ==> run_holds(p.sorted, 0, b as int, x as int))
                &&& (x >= total0 ==> x < total0 + merged_runs(p.bounds, r + 1))
                &&& (x < self.frontier || x >= self.initial)
            } by {
                let x = next@[q];
                if q < r {
                    assert(x == next_before[q]);
                    assert(parent_before[x as int] == usize::MAX);
                    if x < total0 {
                        let i = choose|i: int| 0 <= i < a && (#[trigger] p.sorted[i]).0 == x;
                        assert(0 <= i < b && p.sorted[i].0 == x);
                        if run_holds(p.sorted, a as int, b as int, x as int) {
                            let j = choose|j: int| a <= j < b && (#[trigger] p.sorted[j]).0 == x;
                            assert(p.sorted[i].0 != p.sorted[j].0);
                        }
                    }
                }
            }
            assert forall|x: int, y: int| 0 <= x < y < next@.len() implies next@[x] != next@[y] by {
                if y == r {
                    assert(next_before[x] < merged);
                }
            }
            assert forall|g: int| 0 <= g < g0 implies self.groups@[g] == p.groups0[g] by {
                assert(groups_before[g] == p.groups0[g]);
            }
            lemma_outcome_step(
                p.sorted,
                p.bounds,
                r as int,
                total0 as int,
                g0 as int,
                next_before,
                groups_before,
                next@,
                gs,
            );
        }
    }

    /// The state before the runs of a level are merged.
    proof fn lemma_mid_start(&self, p: LevelPlan, before: &LodBuilder)
        requires
            before.wf(),
            p.levels0 == before.levels@,
            p.parent0 == before.parent@,
            p.groups0 == before.groups@,
            p.level0 == before.level,
            before.level < i32::MAX,
            p.levels0.len() + p.sorted.len() < usize::MAX,
            p.sorted.len() == before.active@.len(),
            self.initial == before.initial,
            self.frontier == before.frontier,
            self.levels == before.levels,
            self.parent == before.parent,
            self.groups == before.groups,
            self.level == before.level,
            self.linked == before.linked,
            self.active == before.active,
            p.bounds.len() >= 1,
            p.bounds[0] == 0,
            p.bounds.last() == p.sorted.len(),
            forall|g: int| 0 <= g < p.bounds.len() - 1 ==> #[trigger] p.bounds[g] < p.bounds[g + 1],
            forall|i: int|
                0 <= i < p.sorted.len() ==> hit_by(before.active@, (#[trigger] p.sorted[i]).0 as int),
            forall|i: int, j: int| 0 <= i < j < p.sorted.len() ==> p.sorted[i].0 != p.sorted[j].0,
        ensures
            self.mid(p, 0, Seq::empty()),
    {
        reveal(LodBuilder::wf);
        reveal(LodBuilder::plan_ok);
        reveal(LodBuilder::state_ok);
        reveal(LodBuilder::next_ok);
        assert forall|i: int| 0 <= i < p.sorted.len() implies {
            let a = (#[trigger] p.sorted[i]).0;
            &&& a < p.levels0.len()
            &&& p.parent0[a as int] == usize::MAX
            &&& p.levels0[a as int] <= p.level0
            &&& (a < self.frontier || a >= self.initial)
        } by {
            assert(hit_by(before.active@, p.sorted[i].0 as int));
            let k = choose|k: int|
                0 <= k < before.active@.len() && #[trigger] before.active@[k] == p.sorted[i].0 as int;
            assert(before.active@[k] == p.sorted[i].0);
        }
        assert(p.bounds.subrange(0, 1).len() == 1);
        assert(merged_runs(p.bounds.subrange(0, 1), 0) == 0);
    }

    /// When all runs are merged, the state is one that building reaches,
    /// once the splats at hand and the level are those of the next level.
    proof fn lemma_mid_done(&self, p: LevelPlan, mid: &LodBuilder, before: &LodBuilder)
        requires
            before.wf(),
            mid.mid(p, p.bounds.len() - 1, self.active@),
            self.initial == mid.initial,
            self.frontier == mid.frontier,
            self.levels == mid.levels,
            self.parent == mid.parent,
            self.groups == mid.groups,
            self.linked == mid.linked,
            self.level == p.level0 + 1,
            p.groups0 == before.groups@,
            p.levels0 == before.levels@,
            p.parent0 == before.parent@,
            mid.initial == before.initial,
        ensures
            self.wf(),
            self.levels@.len() >= p.levels0.len(),
            self.levels@.subrange(0, p.levels0.len() as int) == p.levels0,
            forall|i: int| p.levels0.len() <= i < self.levels@.len() ==> self.levels@[i] == p.level0 + 1,
            self.groups@.len() >= p.groups0.len(),
            self.groups@.subrange(0, p.groups0.len() as int) == p.groups0,
            level_outcome(
                p.sorted,
                p.bounds,
                p.levels0.len() as int,
                p.groups0.len() as int,
                self.active@,
                self.groups@,
            ),
    {
        reveal(LodBuilder::wf);
        reveal(LodBuilder::plan_ok);
        reveal(LodBuilder::state_ok);
        reveal(LodBuilder::next_ok);
        let runs = p.bounds.len() - 1;
        let total0 = p.levels0.len();
        let g0 = p.groups0.len();
        assert(p.bounds.subrange(0, runs + 1) =~= p.bounds);
        assert(self.levels@.subrange(0, total0 as int) =~= p.levels0);
        assert(self.groups@.subrange(0, g0 as int) =~= p.groups0);
        assert(p.bounds[runs] == p.sorted.len());
        assert forall|g: int, k: int|
            0 <= g < self.groups@.len() && 0 <= k < self.groups@[g].members@.len() implies {
            let c = #[trigger] self.groups@[g].members@[k];
            &&& c < self.groups@[g].merged
            &&& self.parent@[c as int] == self.groups@[g].merged
            &&& self.levels@[c as int] < self.levels@[self.groups@[g].merged as int]
        } by {
            let c = self.groups@[g].members@[k];
            if g < g0 {
                assert(self.groups@[g] == p.groups0[g]);
                assert(p.groups0[g].members@[k] == c);
                assert(p.parent0[c as int] == p.groups0[g].merged);
            }
        }
        assert forall|g: int| 0 <= g < self.groups@.len() implies {
            &&& (#[trigger] self.groups@[g]).merged == self.initial + g
            &&& all_distinct(self.groups@[g].members@)
            &&& self.groups@[g].members@.len() >= 2
        } by {
            if g < g0 {
                assert(self.groups@[g] == p.groups0[g]);
            }
        }
    }

    /// Ends the work on a level: the splats at hand are sorted by the Morton
    /// keys of their cells and cut into the runs of one cell; every run of
    /// more than one splat is merged. The merged splats get the next free
    /// indices, in the order of the runs, and the next level. They and the
    /// splats that were alone in their cells are at hand for the next level,
    /// which is then worked on. Returned is the number of cells.
    ///
    /// With `merge_all`, all splats at hand are taken as one cell.
    #[verifier::rlimit(50)]
    pub fn merge_level(&mut self, cells: &[[i64; 3]], merge_all: bool) -> (r: Result<
        usize,
        LodError,
    >)
        requires
            old(self).wf(),
            cells@.len() == old(self).active().len(),
        ensures
            final(self).wf(),
            final(self).initial() == old(self).initial(),
            final(self).frontier() == old(self).frontier(),
            r is Ok <==> old(self).level() < i32::MAX && old(self).levels().len() + old(self).active().len() < usize::MAX,
            r == Err::<usize, LodError>(LodError::LevelOverflow) <==> old(self).level()
                == i32::MAX,
            r == Err::<usize, LodError>(LodError::TooManySplats) <==> old(self).level() < i32::MAX
                && old(self).levels().len() + old(self).active().len() >= usize::MAX,
            r.is_err() ==> final(self).levels() == old(self).levels() && final(self).groups()
                == old(self).groups() && final(self).active() == old(self).active() && final(self).level()
                == old(self).level(),
            r matches Ok(cell_count) ==> {
                &&& final(self).level() == old(self).level() + 1
                &&& cell_count == final(self).active().len()
                &&& final(self).levels().len() >= old(self).levels().len()
                &&& final(self).levels().subrange(0, old(self).levels().len() as int) == old(self).levels()
                &&& forall|i: int|
                    old(self).levels().len() <= i < final(self).levels().len() ==> final(self).levels()[i]
                        == old(self).level() + 1
                &&& final(self).groups().len() >= old(self).groups().len()
                &&& final(self).groups().subrange(0, old(self).groups().len() as int) == old(self).groups()
                &&& exists|from: Seq<usize>, entries: Seq<CellEntry>, sorted: Seq<CellEntry>, bounds: Seq<usize>|
                    {
                        &&& is_stable_sort(entries, sorted, from)
                        &&& entries.len() == old(self).active().len()
                        &&& forall|i: int|
                            0 <= i < entries.len() ==> (#[trigger] entries[i]).0 == old(self).active()[i]
                                && limbs_value(entries[i].1) == cell_key(cells@[i])
                        &&& is_grouping(sorted, bounds, merge_all)
                        &&& level_outcome(
                            sorted,
                            bounds,
                            old(self).levels().len() as int,
                            old(self).groups().len() as int,
                            final(self).active(),
                            final(self).groups(),
                        )
                    }
            },
    {
        if self.level == i32::MAX {
            return Err(LodError::LevelOverflow);
        }
        let total0 = self.levels.len();
        let n = self.active.len();
        if n >= usize::MAX - total0 {
            return Err(LodError::TooManySplats);
        }
        proof {
            self.lemma_sizes();
        }
        let sorted = sort_active(self.active.as_slice(), cells);
        let bounds = cut_groups(sorted.as_slice(), merge_all);
        let ghost active0 = self.active@;
        let ghost (from, entries) = choose|from: Seq<usize>, entries: Seq<CellEntry>|
            is_stable_sort(entries, sorted@, from) && entries.len() == active0.len() && forall|
                i: int,
            |
                0 <= i < entries.len() ==> (#[trigger] entries[i]).0 == active0[i] && limbs_value(
                    entries[i].1,
                ) == cell_key(cells@[i]);
        let ghost p = LevelPlan {
            sorted: sorted@,
            bounds: bounds@,
            levels0: self.levels@,
            parent0: self.parent@,
            groups0: self.groups@,
            level0: self.level,
        };
        let mut next: Vec<usize> = Vec::new();
        let runs = bounds.len() - 1;
        let mut r: usize = 0;
        proof {
            lemma_sorted_from_active(active0, entries, sorted@, from);
            self.lemma_mid_start(p, &*old(self));
        }
        while r < runs
            invariant
                r <= runs,
                runs == bounds@.len() - 1,
                sorted@ == p.sorted,
                bounds@ == p.bounds,
                self.mid(p, r as int, next@),
                self.initial == old(self).initial,
                self.frontier == old(self).frontier,
                self.level == old(self).level,
                self.level < i32::MAX,
                forall|g: int| 0 <= g < bounds@.len() - 1 ==> #[trigger] bounds@[g] < bounds@[g + 1],
            decreases runs - r,
        {
            assert(bounds@[r as int] < bounds@[r + 1]);
            if bounds[r + 1] - bounds[r] > 1 {
                self.merge_run(&sorted, &bounds, r, &mut next, Ghost(p));
            } else {
                self.keep_single(&sorted, &bounds, r, &mut next, Ghost(p));
            }
            r += 1;
        }
        let ghost mid_state = *self;
        self.active = next;
        self.level = self.level + 1;
        proof {
            self.lemma_mid_done(p, &mid_state, &*old(self));
        }
        Ok(runs)
    }
}

/// Sorted entries hold the splats that were at hand, each once.
proof fn lemma_sorted_from_active(
    active0: Seq<usize>,
    entries: Seq<CellEntry>,
    sorted: Seq<CellEntry>,
    from: Seq<usize>,
)
    requires
        all_distinct(active0),
        is_stable_sort(entries, sorted, from),
        entries.len() == active0.len(),
        forall|i: int| 0 <= i < entries.len() ==> (#[trigger] entries[i]).0 == active0[i],
    ensures
        sorted.len() == active0.len(),
        forall|i: int| 0 <= i < sorted.len() ==> hit_by(active0, (#[trigger] sorted[i]).0 as int),
        forall|i: int, j: int| 0 <= i < j < sorted.len() ==> sorted[i].0 != sorted[j].0,
{
    let n = sorted.len();
    assert forall|i: int| 0 <= i < n implies hit_by(active0, (#[trigger] sorted[i]).0 as int) by {
        assert(sorted[i] == entries[from[i] as int]);
        assert(from[i] < n);
        let k = from[i] as int;
        assert(entries[k].0 == active0[k]);
        assert(0 <= k < active0.len() && active0[k] == sorted[i].0);
    }
    assert forall|i: int, j: int| 0 <= i < j < n implies sorted[i].0 != sorted[j].0 by {
        assert(sorted[i] == entries[from[i] as int]);
        assert(sorted[j] == entries[from[j] as int]);
        assert(from[i] < n && from[j] < n);
        assert(entries[from[i] as int].0 == active0[from[i] as int]);
        assert(entries[from[j] as int].0 == active0[from[j] as int]);
        assert(from[i] != from[j]);
        if from[i] < from[j] {
            assert(active0[from[i] as int] != active0[from[j] as int]);
        } else {
            assert(active0[from[j] as int] != active0[from[i] as int]);
        }
    }
}

proof fn lemma_bounds_below(bounds: Seq<usize>, g: int)
    requires
        0 <= g < bounds.len(),
        forall|k: int| 0 <= k < bounds.len() - 1 ==> #[trigger] bounds[k] < bounds[k + 1],
    ensures
        bounds[g] <= bounds.last(),
    decreases bounds.len() - g,
{
    if g < bounds.len() - 1 {
        assert(bounds[g] < bounds[g + 1]);
        lemma_bounds_below(bounds, g + 1);
    }
}

proof fn lemma_merged_runs_prefix(a: Seq<usize>, b: Seq<usize>, r: int)
    requires
        0 <= r < a.len(),
        r < b.len(),
        forall|k: int| 0 <= k <= r ==> a[k] == b[k],
    ensures
        merged_runs(a, r) == merged_runs(b, r),
    decreases r,
{
    if r > 0 {
        lemma_merged_runs_prefix(a, b, r - 1);
    }
}

/// The outcome of the runs `0..r` and of the run `r` is the outcome of the
/// runs `0..r + 1`.
proof fn lemma_outcome_step(
    sorted: Seq<CellEntry>,
    bounds: Seq<usize>,
    r: int,
    first: int,
    made_before: int,
    active0: Seq<usize>,
    groups0: Seq<LodGroup>,
    active1: Seq<usize>,
    groups1: Seq<LodGroup>,
)
    requires
        0 <= r < bounds.len() - 1,
        0 <= made_before,
        level_outcome(sorted, bounds.subrange(0, r + 1), first, made_before, active0, groups0),
        active1.len() == r + 1,
        forall|q: int| 0 <= q < r ==> active1[q] == active0[q],
        groups0.len() <= groups1.len(),
        forall|g: int| 0 <= g < groups0.len() ==> groups1[g] == groups0[g],
        if bounds[r + 1] - bounds[r] > 1 {
            &&& groups1.len() == groups0.len() + 1
            &&& active1[r] == first + merged_runs(bounds, r)
            &&& groups1[groups0.len() as int].merged == active1[r]
            &&& groups1[groups0.len() as int].members@ == run_members(
                sorted,
                bounds[r] as int,
                bounds[r + 1] as int,
            )
        } else {
            groups1.len() == groups0.len() && active1[r] == sorted[bounds[r] as int].0
        },
    ensures
        level_outcome(sorted, bounds.subrange(0, r + 2), first, made_before, active1, groups1),
{
    let b0 = bounds.subrange(0, r + 1);
    let b1 = bounds.subrange(0, r + 2);
    lemma_merged_runs_prefix(b0, bounds, r);
    lemma_merged_runs_prefix(b1, bounds, r + 1);
    lemma_merged_runs_prefix(b1, bounds, r);
    assert(b1[r] == bounds[r] && b1[r + 1] == bounds[r + 1]);
    assert(groups0.len() == made_before + merged_runs(bounds, r));
    assert forall|q: int| 0 <= q < b1.len() - 1 implies #[trigger] outcome_at(
        sorted,
        b1,
        first,
        made_before,
        active1,
        groups1,
        q,
    ) by {
        lemma_merged_runs_prefix(b1, bounds, q);
        if q < r {
            lemma_merged_runs_prefix(b0, bounds, q);
            assert(b0[q] == b1[q] && b0[q + 1] == b1[q + 1]);
            assert(outcome_at(sorted, b0, first, made_before, active0, groups0, q));
            assert(active0[q] == active1[q]);
            if b0[q + 1] - b0[q] > 1 {
                let g = made_before + merged_runs(b0, q);
                assert(groups1[g] == groups0[g]);
            }
        } else {
            assert(q == r);
        }
    }
}

proof fn lemma_merged_runs_below(bounds: Seq<usize>, q: int, r: int)
    requires
        0 <= q < r,
    ensures
        merged_runs(bounds, q) <= merged_runs(bounds, r),
        bounds[q + 1] - bounds[q] > 1 ==> merged_runs(bounds, q) < merged_runs(bounds, r),
    decreases r - q,
{
    if q + 1 < r {
        lemma_merged_runs_below(bounds, q, r - 1);
    }
}

/// The tree laid out for streaming: the new order of the splats, and for
/// every new place the child range and the level of the splat there.
pub struct LodLayout {
    /// For every new place the index that its splat had while the tree was
    /// built.
    pub order: Vec<usize>,
    /// For every new place the new place of the first child; 0 for a leaf.
    pub child_start: Vec<usize>,
    /// For every new place the number of children; 0 for a leaf.
    pub child_count: Vec<usize>,
    /// For every new place the level.
    pub levels: Vec<i32>,
}

impl LodLayout {
    /// Whether the layout is the one of the tree that `b` built.
    ///
    /// The order holds every splat once, the root first. A splat of the
    /// scene is a leaf. A merged splat has the splats of its merge as its
    /// children; they stand side by side in their order. Every child range
    /// lies within the splats, and a parent lies above its children.
    pub open spec fn lays_out(&self, b: &LodBuilder) -> bool {
        let total = b.levels().len() as int;
        &&& self.order@.len() == total
        &&& self.child_start@.len() == total
        &&& self.child_count@.len() == total
        &&& self.levels@.len() == total
        &&& is_permutation(self.order@)
        &&& b.frontier() == b.initial()
        &&& b.active().len() == 1
        &&& self.order@[0] == b.active()[0]
        &&& forall|p: int| 0 <= p < total ==> #[trigger] self.levels@[p] == b.levels()[self.order@[p] as int]
        &&& forall|p: int|
            0 <= p < total && b.initial() > self.order@[p] ==> (#[trigger] self.child_count@[p]) == 0
                && self.child_start@[p] == 0
        &&& forall|p: int|
            0 <= p < total && self.order@[p] >= b.initial() ==> {
                let g = self.order@[p] - b.initial();
                &&& #[trigger] self.child_count@[p] == b.groups()[g].members@.len()
                &&& self.child_count@[p] >= 1
                &&& 1 <= self.child_start@[p]
                &&& self.child_start@[p] + self.child_count@[p] <= total
                &&& forall|k: int|
                    0 <= k < self.child_count@[p] ==> #[trigger] self.order@[self.child_start@[p] + k]
                        == b.groups()[g].members@[k]
            }
    }
}

/// The root followed by the children of the merges `0..k`, merge after
/// merge.
pub closed spec fn flat_order(groups: Seq<LodGroup>, root: usize, k: int) -> Seq<usize>
    decreases k,
{
    if k <= 0 {
        seq![root]
    } else {
        flat_order(groups, root, k - 1) + groups[k - 1].members@
    }
}

/// For every place of `flat_order` the merge and the child that it holds.
pub closed spec fn flat_src(groups: Seq<LodGroup>, k: int) -> Seq<(int, int)>
    decreases k,
{
    if k <= 0 {
        seq![(-1int, -1int)]
    } else {
        flat_src(groups, k - 1) + Seq::new(groups[k - 1].members@.len(), |j: int| (k - 1, j))
    }
}

/// What `flat_order` holds, place by place.
proof fn lemma_flat(groups: Seq<LodGroup>, root: usize, k: int)
    requires
        0 <= k <= groups.len(),
    ensures
        flat_order(groups, root, k).len() == 1 + sum_members(groups, 0, k),
        flat_src(groups, k).len() == 1 + sum_members(groups, 0, k),
        flat_order(groups, root, k)[0] == root,
        forall|pos: int|
            1 <= pos < flat_order(groups, root, k).len() ==> {
                let (g, j) = #[trigger] flat_src(groups, k)[pos];
                &&& 0 <= g < k
                &&& 0 <= j < groups[g].members@.len()
                &&& flat_order(groups, root, k)[pos] == groups[g].members@[j]
                &&& 1 + sum_members(groups, 0, g) + j == pos
            },
    decreases k,
{
    if k > 0 {
        lemma_flat(groups, root, k - 1);
        let before = flat_order(groups, root, k - 1);
        let src = flat_src(groups, k - 1);
        let n0 = before.len() as int;
        assert forall|pos: int| 1 <= pos < flat_order(groups, root, k).len() implies {
            let (g, j) = #[trigger] flat_src(groups, k)[pos];
            &&& 0 <= g < k
            &&& 0 <= j < groups[g].members@.len()
            &&& flat_order(groups, root, k)[pos] == groups[g].members@[j]
            &&& 1 + sum_members(groups, 0, g) + j == pos
        } by {
            if pos < n0 {
                assert(flat_src(groups, k)[pos] == src[pos]);
                assert(flat_order(groups, root, k)[pos] == before[pos]);
            } else {
                assert(flat_src(groups, k)[pos] == (k - 1, pos - n0));
                assert(flat_order(groups, root, k)[pos] == groups[k - 1].members@[pos - n0]);
            }
        }
    }
}

/// Whether a splat is a child in a merge.
pub closed spec fn is_child(b: &LodBuilder, c: int) -> bool {
    exists|g: int, k: int|
        0 <= g < b.groups@.len() && 0 <= k < b.groups@[g].members@.len()
            && #[trigger] b.groups@[g].members@[k] == c
}

/// Whether every splat but the root is a child in a merge.
pub closed spec fn covered(b: &LodBuilder) -> bool {
    forall|c: int| 0 <= c < b.levels@.len() && c != b.active@[0] ==> #[trigger] is_child(b, c)
}

/// The highest level among the first `k` of these splats, `k` being 1 at
/// least.
pub open spec fn top_level(levels: Seq<i32>, members: Seq<usize>, k: int) -> int
    decreases k,
{
    if k <= 1 {
        levels[members[0] as int] as int
    } else {
        let top = top_level(levels, members, k - 1);
        let level = levels[members[k - 1] as int] as int;
        if level > top {
            level
        } else {
            top
        }
    }
}

/// Where the laying out of a tree in bands stands.
pub struct Bands {
    /// The splats that are placed.
    pub order: Seq<usize>,
    /// For every place the start of its children, once they are placed.
    pub child_start: Seq<usize>,
    /// For every place the number of its children, once they are placed.
    pub child_count: Seq<usize>,
    /// The merges that are taken apart in this band, each with the place
    /// of its merged splat; the last is taken first.
    pub waiting: Seq<(usize, usize)>,
    /// The merges that are put off to the next band.
    pub deferred: Seq<(usize, usize)>,
    /// The level at the top of the band.
    pub band: int,
}

/// A splat joins the order. The merge of a merged splat is put off to the
/// next band if its children all lie two levels or more below the top
/// of the band; else it comes to wait in this band.
pub open spec fn band_placed(b: &LodBuilder, st: Bands, node: usize) -> Bands {
    let st1 = if node >= b.initial() {
        let h = (node - b.initial()) as usize;
        let item = (h, st.order.len() as usize);
        let members = b.groups()[h as int].members@;
        if top_level(b.levels(), members, members.len() as int) <= st.band - 2 {
            Bands { deferred: st.deferred.push(item), ..st }
        } else {
            Bands { waiting: st.waiting.push(item), ..st }
        }
    } else {
        st
    };
    Bands { order: st.order.push(node), ..st1 }
}

/// The first `k` children of merge `g` join the order, one after the other.
pub open spec fn band_children(b: &LodBuilder, st: Bands, g: int, k: int) -> Bands
    decreases k,
{
    if k <= 0 {
        st
    } else {
        band_placed(b, band_children(b, st, g, k - 1), b.groups()[g].members@[k - 1])
    }
}

/// The merge that waits last is taken apart: its children join the order
/// side by side, and the place of its merged splat gets their range.
pub open spec fn band_taken(b: &LodBuilder, st: Bands) -> Bands {
    let (g, at) = st.waiting.last();
    let len = b.groups()[g as int].members@.len();
    band_children(
        b,
        Bands {
            waiting: st.waiting.drop_last(),
            child_start: st.child_start.update(at as int, st.order.len() as usize),
            child_count: st.child_count.update(at as int, len as usize),
            ..st
        },
        g as int,
        len as int,
    )
}

/// The next band starts, two levels lower: the merges that were put off
/// come to wait, the one that was put off first to be taken first.
pub open spec fn band_next(st: Bands) -> Bands {
    Bands {
        waiting: st.waiting + Seq::new(
            st.deferred.len(),
            |i: int| st.deferred[st.deferred.len() - 1 - i],
        ),
        deferred: Seq::empty(),
        band: st.band - 2,
        ..st
    }
}

/// How many splats are yet to be placed.
pub open spec fn bands_left(b: &LodBuilder, st: Bands) -> nat {
    if b.levels().len() > st.order.len() {
        (b.levels().len() - st.order.len()) as nat
    } else {
        0
    }
}

/// The laying out at its end: merges are taken apart while one waits, and
/// bands follow one another while a merge is put off.
pub open spec fn bands_run(b: &LodBuilder, st: Bands) -> Bands
    decreases
            bands_left(b, st),
            (if st.waiting.len() == 0 {
                1int
            } else {
                0int
            }),
{
    if st.waiting.len() == 0 {
        if st.deferred.len() == 0 {
            st
        } else {
            bands_run(b, band_next(st))
        }
    } else {
        let next = band_taken(b, st);
        if st.order.len() < next.order.len() <= b.levels().len() {
            bands_run(b, next)
        } else {
            st
        }
    }
}

/// The layout of a tree in bands of two levels: the root is placed first,
/// in a band whose top is the level below the one that the builder stands
/// at, and the laying out runs to its end.
pub open spec fn banded_layout(b: &LodBuilder) -> Bands {
    let total = b.levels().len();
    bands_run(
        b,
        band_placed(
            b,
            Bands {
                order: Seq::empty(),
                child_start: Seq::new(total, |i: int| 0usize),
                child_count: Seq::new(total, |i: int| 0usize),
                waiting: Seq::empty(),
                deferred: Seq::empty(),
                band: b.level() - 1,
            },
            b.active()[0],
        ),
    )
}

/// Whether a merge that is yet to be taken apart is known by the place of
/// its merged splat in the order.
pub closed spec fn item_ok(b: &LodBuilder, order: Seq<usize>, item: (usize, usize)) -> bool {
    &&& item.0 < b.groups@.len()
    &&& item.1 < order.len()
    &&& order[item.1 as int] == b.initial + item.0
}

/// Whether an order in the making is sound: behind the root every place
/// holds a child of a merge that was taken apart, the children of such a
/// merge stand side by side from its start on, the merged splat stands at
/// its place and holds the range of its children, and no other place holds
/// a range.
#[verifier::opaque]
pub closed spec fn banded(
    b: &LodBuilder,
    order: Seq<usize>,
    src: Seq<(int, int)>,
    child_start: Seq<usize>,
    child_count: Seq<usize>,
    group_start: Seq<usize>,
    placed_at: Seq<usize>,
    taken: Seq<bool>,
) -> bool {
    let total = b.levels@.len();
    let gcount = b.groups@.len();
    &&& 1 <= order.len() <= total
    &&& src.len() == order.len()
    &&& order[0] == b.active@[0]
    &&& forall|q: int| 0 <= q < order.len() ==> #[trigger] order[q] < total
    &&& forall|pos: int|
        1 <= pos < order.len() ==> {
            let (g, k) = #[trigger] src[pos];
            &&& 0 <= g < gcount
            &&& taken[g]
            &&& 0 <= k < b.groups@[g].members@.len()
            &&& order[pos] == b.groups@[g].members@[k]
            &&& group_start[g] + k == pos
        }
    &&& forall|g: int|
        0 <= g < gcount && #[trigger] taken[g] ==> {
            let at = placed_at[g] as int;
            &&& at < order.len()
            &&& order[at] == b.initial + g
            &&& child_start[at] == group_start[g]
            &&& child_count[at] == b.groups@[g].members@.len()
            &&& 1 <= group_start[g]
            &&& group_start[g] + b.groups@[g].members@.len() <= order.len()
            &&& forall|k: int|
                0 <= k < b.groups@[g].members@.len() ==> #[trigger] order[group_start[g] + k]
                    == b.groups@[g].members@[k]
        }
    &&& forall|p: int|
        0 <= p < total && (#[trigger] child_count[p] != 0 || child_start[p] != 0) ==> p < order.len()
            && order[p] >= b.initial && taken[order[p] - b.initial]
}

/// Whether a merge is taken apart, or waits to be.
pub closed spec fn touched(
    taken: Seq<bool>,
    waiting: Seq<(usize, usize)>,
    deferred: Seq<(usize, usize)>,
    h: int,
) -> bool {
    ||| (0 <= h < taken.len() && taken[h])
    ||| exists|i: int| 0 <= i < waiting.len() && (#[trigger] waiting[i]).0 == h
    ||| exists|i: int| 0 <= i < deferred.len() && (#[trigger] deferred[i]).0 == h
}

/// Whether the merges that wait are sound: each is known by the place of
/// its merged splat and is not taken apart yet, none waits twice, and the
/// merge of every merged splat in the order is taken apart or waits.
#[verifier::opaque]
pub closed spec fn queues_ok(
    b: &LodBuilder,
    order: Seq<usize>,
    taken: Seq<bool>,
    waiting: Seq<(usize, usize)>,
    deferred: Seq<(usize, usize)>,
) -> bool {
    &&& taken.len() == b.groups@.len()
    &&& forall|i: int|
        0 <= i < waiting.len() ==> item_ok(b, order, #[trigger] waiting[i]) && !taken[waiting[i].0 as int]
    &&& forall|i: int|
        0 <= i < deferred.len() ==> item_ok(b, order, #[trigger] deferred[i])
            && !taken[deferred[i].0 as int]
    &&& forall|i: int, j: int|
        0 <= i < j < waiting.len() ==> (#[trigger] waiting[i]).0 != (#[trigger] waiting[j]).0
    &&& forall|i: int, j: int|
        0 <= i < j < deferred.len() ==> (#[trigger] deferred[i]).0 != (#[trigger] deferred[j]).0
    &&& forall|i: int, j: int|
        0 <= i < waiting.len() && 0 <= j < deferred.len() ==> (#[trigger] waiting[i]).0 != (
        #[trigger] deferred[j]).0
    &&& forall|pos: int|
        0 <= pos < order.len() && (#[trigger] order[pos]) >= b.initial ==> touched(
            taken,
            waiting,
            deferred,
            order[pos] - b.initial,
        )
}

/// The number of children of the merges among the first `k` that are taken
/// apart.
pub closed spec fn sum_taken(groups: Seq<LodGroup>, taken: Seq<bool>, k: int) -> nat
    decreases k,
{
    if k <= 0 {
        0
    } else {
        sum_taken(groups, taken, k - 1) + (if taken[k - 1] {
            groups[k - 1].members@.len()
        } else {
            0
        })
    }
}

/// The children of the merges that are taken apart are among the children
/// of all merges; they are all of them where every merge is taken apart.
proof fn lemma_sum_taken_le(groups: Seq<LodGroup>, taken: Seq<bool>, k: int)
    requires
        0 <= k <= groups.len(),
        taken.len() == groups.len(),
    ensures
        sum_taken(groups, taken, k) <= sum_members(groups, 0, k),
        (forall|g: int| 0 <= g < k ==> taken[g]) ==> sum_taken(groups, taken, k) == sum_members(
            groups,
            0,
            k,
        ),
    decreases k,
{
    if k > 0 {
        lemma_sum_taken_le(groups, taken, k - 1);
    }
}

/// While no merge is taken apart, none of their children is counted.
proof fn lemma_sum_taken_none(groups: Seq<LodGroup>, taken: Seq<bool>, k: int)
    requires
        0 <= k <= taken.len(),
        forall|g: int| 0 <= g < taken.len() ==> !taken[g],
    ensures
        sum_taken(groups, taken, k) == 0,
    decreases k,
{
    if k > 0 {
        lemma_sum_taken_none(groups, taken, k - 1);
    }
}

/// Taking one more merge apart adds its children.
proof fn lemma_sum_taken_set(groups: Seq<LodGroup>, taken: Seq<bool>, g: int, k: int)
    requires
        0 <= g < groups.len(),
        0 <= k <= groups.len(),
        taken.len() == groups.len(),
        !taken[g],
    ensures
        sum_taken(groups, taken.update(g, true), k) == sum_taken(groups, taken, k) + (if g < k {
            groups[g].members@.len()
        } else {
            0
        }),
    decreases k,
{
    if k > 0 {
        lemma_sum_taken_set(groups, taken, g, k - 1);
    }
}

/// A merge that waits at the top is not taken apart; taken apart, it
/// leaves the others as they wait.
proof fn lemma_queue_pop(
    b: &LodBuilder,
    order: Seq<usize>,
    taken: Seq<bool>,
    waiting: Seq<(usize, usize)>,
    deferred: Seq<(usize, usize)>,
)
    requires
        queues_ok(b, order, taken, waiting, deferred),
        waiting.len() > 0,
    ensures
        waiting.last().0 < b.groups@.len(),
        waiting.last().1 < order.len(),
        order[waiting.last().1 as int] == b.initial + waiting.last().0,
        !taken[waiting.last().0 as int],
        queues_ok(b, order, taken.update(waiting.last().0 as int, true), waiting.drop_last(), deferred),
{
    reveal(queues_ok);
    let last = waiting.len() - 1;
    let g = waiting.last().0 as int;
    let rest = waiting.drop_last();
    let after = taken.update(g, true);
    assert(item_ok(b, order, waiting[last]));
    assert forall|i: int| 0 <= i < rest.len() implies item_ok(b, order, #[trigger] rest[i])
        && !after[rest[i].0 as int] by {
        assert(item_ok(b, order, waiting[i]));
        assert(waiting[i].0 != waiting[last].0);
    }
    assert forall|i: int| 0 <= i < deferred.len() implies item_ok(b, order, #[trigger] deferred[i])
        && !after[deferred[i].0 as int] by {
        assert(waiting[last].0 != deferred[i].0);
    }
    assert forall|i: int, j: int| 0 <= i < j < rest.len() implies (#[trigger] rest[i]).0 != (
    #[trigger] rest[j]).0 by {
        assert(waiting[i].0 != waiting[j].0);
    }
    assert forall|i: int, j: int| 0 <= i < rest.len() && 0 <= j < deferred.len() implies (
    #[trigger] rest[i]).0 != (#[trigger] deferred[j]).0 by {
        assert(waiting[i].0 != deferred[j].0);
    }
    assert forall|pos: int| 0 <= pos < order.len() && (#[trigger] order[pos]) >= b.initial implies touched(
        after,
        rest,
        deferred,
        order[pos] - b.initial,
    ) by {
        let h = order[pos] - b.initial;
        assert(touched(taken, waiting, deferred, h));
        if 0 <= h < taken.len() && taken[h] {
        } else if exists|i: int| 0 <= i < waiting.len() && (#[trigger] waiting[i]).0 == h {
            let i = choose|i: int| 0 <= i < waiting.len() && (#[trigger] waiting[i]).0 == h;
            if i < last {
                assert(rest[i].0 == h);
            }
        } else {
            let i = choose|i: int| 0 <= i < deferred.len() && (#[trigger] deferred[i]).0 == h;
            assert(deferred[i].0 == h);
        }
    }
}

/// A merge that waits for the next band comes to wait at the top.
proof fn lemma_queue_move(
    b: &LodBuilder,
    order: Seq<usize>,
    taken: Seq<bool>,
    waiting: Seq<(usize, usize)>,
    deferred: Seq<(usize, usize)>,
)
    requires
        queues_ok(b, order, taken, waiting, deferred),
        deferred.len() > 0,
    ensures
        queues_ok(b, order, taken, waiting.push(deferred.last()), deferred.drop_last()),
{
    reveal(queues_ok);
    let last = deferred.len() - 1;
    let item = deferred.last();
    let w = waiting.push(item);
    let d = deferred.drop_last();
    assert forall|i: int| 0 <= i < w.len() implies item_ok(b, order, #[trigger] w[i])
        && !taken[w[i].0 as int] by {
        if i < waiting.len() {
            assert(item_ok(b, order, waiting[i]));
        } else {
            assert(item_ok(b, order, deferred[last]));
        }
    }
    assert forall|i: int| 0 <= i < d.len() implies item_ok(b, order, #[trigger] d[i])
        && !taken[d[i].0 as int] by {
        assert(item_ok(b, order, deferred[i]));
    }
    assert forall|i: int, j: int| 0 <= i < j < w.len() implies (#[trigger] w[i]).0 != (
    #[trigger] w[j]).0 by {
        if j < waiting.len() {
            assert(waiting[i].0 != waiting[j].0);
        } else {
            assert(waiting[i].0 != deferred[last].0);
        }
    }
    assert forall|i: int, j: int| 0 <= i < j < d.len() implies (#[trigger] d[i]).0 != (
    #[trigger] d[j]).0 by {
        assert(deferred[i].0 != deferred[j].0);
    }
    assert forall|i: int, j: int| 0 <= i < w.len() && 0 <= j < d.len() implies (#[trigger] w[i]).0
        != (#[trigger] d[j]).0 by {
        if i < waiting.len() {
            assert(waiting[i].0 != deferred[j].0);
        } else {
            assert(deferred[j].0 != deferred[last].0);
        }
    }
    assert forall|pos: int| 0 <= pos < order.len() && (#[trigger] order[pos]) >= b.initial implies touched(
        taken,
        w,
        d,
        order[pos] - b.initial,
    ) by {
        let h = order[pos] - b.initial;
        assert(touched(taken, waiting, deferred, h));
        if 0 <= h < taken.len() && taken[h] {
        } else if exists|i: int| 0 <= i < waiting.len() && (#[trigger] waiting[i]).0 == h {
            let i = choose|i: int| 0 <= i < waiting.len() && (#[trigger] waiting[i]).0 == h;
            assert(w[i].0 == h);
        } else {
            let i = choose|i: int| 0 <= i < deferred.len() && (#[trigger] deferred[i]).0 == h;
            if i < last {
                assert(d[i].0 == h);
            } else {
                assert(w[waiting.len() as int].0 == h);
            }
        }
    }
}

/// A splat joins the order; if it is a merged one, its merge, which
/// neither is taken apart nor waits, comes to wait.
proof fn lemma_queue_push(
    b: &LodBuilder,
    order0: Seq<usize>,
    taken: Seq<bool>,
    waiting0: Seq<(usize, usize)>,
    deferred0: Seq<(usize, usize)>,
    node: usize,
    waiting: Seq<(usize, usize)>,
    deferred: Seq<(usize, usize)>,
)
    requires
        queues_ok(b, order0, taken, waiting0, deferred0),
        node < b.initial ==> waiting == waiting0 && deferred == deferred0,
        node >= b.initial ==> {
            let item = ((node - b.initial) as usize, order0.len() as usize);
            &&& node - b.initial < b.groups@.len()
            &&& order0.len() <= usize::MAX
            &&& !taken[node - b.initial]
            &&& forall|i: int| 0 <= i < waiting0.len() ==> (#[trigger] waiting0[i]).0 != node - b.initial
            &&& forall|i: int| 0 <= i < deferred0.len() ==> (#[trigger] deferred0[i]).0 != node - b.initial
            &&& ((waiting == waiting0.push(item) && deferred == deferred0) || (waiting == waiting0
                && deferred == deferred0.push(item)))
        },
    ensures
        queues_ok(b, order0.push(node), taken, waiting, deferred),
{
    reveal(queues_ok);
    let order = order0.push(node);
    let n0 = order0.len() as int;
    assert forall|i: int| 0 <= i < waiting.len() implies item_ok(b, order, #[trigger] waiting[i])
        && !taken[waiting[i].0 as int] by {
        if i < waiting0.len() {
            assert(item_ok(b, order0, waiting0[i]));
            assert(order[waiting0[i].1 as int] == order0[waiting0[i].1 as int]);
        }
    }
    assert forall|i: int| 0 <= i < deferred.len() implies item_ok(b, order, #[trigger] deferred[i])
        && !taken[deferred[i].0 as int] by {
        if i < deferred0.len() {
            assert(item_ok(b, order0, deferred0[i]));
            assert(order[deferred0[i].1 as int] == order0[deferred0[i].1 as int]);
        }
    }
    assert forall|i: int, j: int| 0 <= i < j < waiting.len() implies (#[trigger] waiting[i]).0 != (
    #[trigger] waiting[j]).0 by {
        if j < waiting0.len() {
            assert(waiting0[i].0 != waiting0[j].0);
        } else {
            assert(waiting0[i].0 != node - b.initial);
        }
    }
    assert forall|i: int, j: int| 0 <= i < j < deferred.len() implies (#[trigger] deferred[i]).0
        != (#[trigger] deferred[j]).0 by {
        if j < deferred0.len() {
            assert(deferred0[i].0 != deferred0[j].0);
        } else {
            assert(deferred0[i].0 != node - b.initial);
        }
    }
    assert forall|i: int, j: int| 0 <= i < waiting.len() && 0 <= j < deferred.len() implies (
    #[trigger] waiting[i]).0 != (#[trigger] deferred[j]).0 by {
        if i < waiting0.len() && j < deferred0.len() {
            assert(waiting0[i].0 != deferred0[j].0);
        } else if i < waiting0.len() {
            assert(waiting0[i].0 != node - b.initial);
        } else {
            assert(deferred0[j].0 != node - b.initial);
        }
    }
    assert forall|pos: int| 0 <= pos < order.len() && (#[trigger] order[pos]) >= b.initial implies touched(
        taken,
        waiting,
        deferred,
        order[pos] - b.initial,
    ) by {
        let h = order[pos] - b.initial;
        if pos < n0 {
            assert(order[pos] == order0[pos]);
            assert(touched(taken, waiting0, deferred0, h));
            if 0 <= h < taken.len() && taken[h] {
            } else if exists|i: int| 0 <= i < waiting0.len() && (#[trigger] waiting0[i]).0 == h {
                let i = choose|i: int| 0 <= i < waiting0.len() && (#[trigger] waiting0[i]).0 == h;
                assert(waiting[i].0 == h);
            } else {
                let i = choose|i: int| 0 <= i < deferred0.len() && (#[trigger] deferred0[i]).0 == h;
                assert(deferred[i].0 == h);
            }
        } else {
            if waiting.len() > waiting0.len() {
                assert(waiting[waiting0.len() as int].0 == h);
            } else {
                assert(deferred[deferred0.len() as int].0 == h);
            }
        }
    }
}

/// While a merge is taken apart, a child of it that is yet to join the
/// order is not in the order: its merge, if it has one, neither is taken
/// apart nor waits.
proof fn lemma_fresh(
    b: &LodBuilder,
    order0: Seq<usize>,
    src0: Seq<(int, int)>,
    cs0: Seq<usize>,
    cc0: Seq<usize>,
    starts0: Seq<usize>,
    placed0: Seq<usize>,
    taken0: Seq<bool>,
    order: Seq<usize>,
    taken: Seq<bool>,
    waiting: Seq<(usize, usize)>,
    deferred: Seq<(usize, usize)>,
    g: int,
    k: int,
)
    requires
        b.wf(),
        b.active@.len() == 1,
        banded(b, order0, src0, cs0, cc0, starts0, placed0, taken0),
        taken0.len() == b.groups@.len(),
        placed0.len() == b.groups@.len(),
        0 <= g < b.groups@.len(),
        !taken0[g],
        taken == taken0.update(g, true),
        0 <= k < b.groups@[g].members@.len(),
        order.len() == order0.len() + k,
        order.subrange(0, order0.len() as int) == order0,
        forall|j: int| 0 <= j < k ==> #[trigger] order[order0.len() + j] == b.groups@[g].members@[j],
        queues_ok(b, order, taken, waiting, deferred),
        b.groups@[g].members@[k] >= b.initial,
    ensures
        b.groups@[g].members@[k] - b.initial < b.groups@.len(),
        !taken[b.groups@[g].members@[k] - b.initial],
        forall|i: int|
            0 <= i < waiting.len() ==> (#[trigger] waiting[i]).0 != b.groups@[g].members@[k] - b.initial,
        forall|i: int|
            0 <= i < deferred.len() ==> (#[trigger] deferred[i]).0 != b.groups@[g].members@[k]
                - b.initial,
{
    reveal(LodBuilder::wf);
    reveal(banded);
    reveal(queues_ok);
    let node = b.groups@[g].members@[k];
    let h = node - b.initial;
    let n0 = order0.len() as int;
    assert(b.groups@[g].merged == b.initial + g);
    assert(node < b.groups@[g].merged);
    assert(b.parent@[node as int] == b.initial + g);
    // The splat stands nowhere in the order.
    assert forall|p: int| 0 <= p < order.len() implies order[p] != node by {
        if p < n0 {
            assert(order[p] == order.subrange(0, n0)[p]);
            if p == 0 {
                assert(b.parent@[b.active@[0] as int] == usize::MAX);
            } else {
                let (g1, k1) = src0[p];
                assert(taken0[g1]);
                if order0[p] == node {
                    assert(b.parent@[b.groups@[g1].members@[k1] as int] == b.groups@[g1].merged);
                    assert(b.groups@[g1].merged == b.initial + g1);
                }
            }
        } else {
            assert(order[n0 + (p - n0)] == b.groups@[g].members@[p - n0]);
            assert(all_distinct(b.groups@[g].members@));
        }
    }
    if taken[h] {
        assert(taken0[h]);
        let at = placed0[h] as int;
        assert(order0[at] == b.initial + h);
        assert(order[at] == order.subrange(0, n0)[at]);
    }
    assert forall|i: int| 0 <= i < waiting.len() implies (#[trigger] waiting[i]).0 != h by {
        assert(item_ok(b, order, waiting[i]));
        if waiting[i].0 == h {
            assert(order[waiting[i].1 as int] == node);
        }
    }
    assert forall|i: int| 0 <= i < deferred.len() implies (#[trigger] deferred[i]).0 != h by {
        assert(item_ok(b, order, deferred[i]));
        if deferred[i].0 == h {
            assert(order[deferred[i].1 as int] == node);
        }
    }
}

/// Once no merge waits, the merge `g` is taken apart: its merged splat is
/// the root, or a child of a merge behind it, which is taken apart.
proof fn lemma_taken_from(
    b: &LodBuilder,
    order: Seq<usize>,
    src: Seq<(int, int)>,
    cs: Seq<usize>,
    cc: Seq<usize>,
    starts: Seq<usize>,
    placed: Seq<usize>,
    taken: Seq<bool>,
    g: int,
)
    requires
        b.wf(),
        b.active@.len() == 1,
        covered(b),
        banded(b, order, src, cs, cc, starts, placed, taken),
        queues_ok(b, order, taken, Seq::empty(), Seq::empty()),
        0 <= g < b.groups@.len(),
    ensures
        taken[g],
    decreases b.groups@.len() - g,
{
    b.lemma_group_bound(g);
    let m = b.initial + g;
    if m == b.active@[0] {
        reveal(banded);
        reveal(queues_ok);
        assert(order[0] >= b.initial);
        assert(touched(taken, Seq::empty(), Seq::empty(), order[0] - b.initial));
    } else {
        assert(is_child(b, m));
        let (g1, k1) = choose|g1: int, k1: int|
            0 <= g1 < b.groups@.len() && 0 <= k1 < b.groups@[g1].members@.len()
                && #[trigger] b.groups@[g1].members@[k1] == m;
        b.lemma_member_bound(g1, k1);
        lemma_taken_from(b, order, src, cs, cc, starts, placed, taken, g1);
        reveal(banded);
        reveal(queues_ok);
        let pos = starts[g1] + k1;
        assert(order[pos] == b.groups@[g1].members@[k1]);
        assert(order[pos] >= b.initial);
        assert(touched(taken, Seq::empty(), Seq::empty(), order[pos] - b.initial));
    }
}

/// Taking a merge apart keeps an order in the making sound.
proof fn lemma_banded_step(
    b: &LodBuilder,
    order0: Seq<usize>,
    src0: Seq<(int, int)>,
    cs0: Seq<usize>,
    cc0: Seq<usize>,
    starts0: Seq<usize>,
    placed0: Seq<usize>,
    taken0: Seq<bool>,
    order: Seq<usize>,
    src: Seq<(int, int)>,
    cs: Seq<usize>,
    cc: Seq<usize>,
    starts: Seq<usize>,
    placed: Seq<usize>,
    taken: Seq<bool>,
    g: int,
    at: int,
)
    requires
        b.wf(),
        banded(b, order0, src0, cs0, cc0, starts0, placed0, taken0),
        cs0.len() == b.levels@.len(),
        cc0.len() == b.levels@.len(),
        starts0.len() == b.groups@.len(),
        placed0.len() == b.groups@.len(),
        taken0.len() == b.groups@.len(),
        0 <= g < b.groups@.len(),
        !taken0[g],
        0 <= at < order0.len(),
        order0[at] == b.initial + g,
        cs == cs0.update(at, order0.len() as usize),
        cc == cc0.update(at, b.groups@[g].members@.len() as usize),
        starts == starts0.update(g, order0.len() as usize),
        placed == placed0.update(g, at as usize),
        taken == taken0.update(g, true),
        order.len() == order0.len() + b.groups@[g].members@.len(),
        order.len() <= b.levels@.len(),
        src.len() == order.len(),
        order.subrange(0, order0.len() as int) == order0,
        src.subrange(0, order0.len() as int) == src0,
        forall|j: int|
            0 <= j < b.groups@[g].members@.len() ==> #[trigger] order[order0.len() + j]
                == b.groups@[g].members@[j],
        forall|j: int|
            0 <= j < b.groups@[g].members@.len() ==> #[trigger] src[order0.len() + j] == (g, j),
    ensures
        banded(b, order, src, cs, cc, starts, placed, taken),
{
    reveal(banded);
    let total = b.levels@.len();
    let gcount = b.groups@.len();
    let n0 = order0.len() as int;
    let len = b.groups@[g].members@.len() as int;
    b.lemma_group_bound(g);
    b.lemma_sizes();
    assert forall|q: int| 0 <= q < order.len() implies #[trigger] order[q] < total by {
        if q < n0 {
            assert(order[q] == order.subrange(0, n0)[q]);
        } else {
            assert(order[n0 + (q - n0)] == b.groups@[g].members@[q - n0]);
            b.lemma_member_bound(g, q - n0);
        }
    }
    assert(order[0] == order.subrange(0, n0)[0]);
    assert forall|pos: int| 1 <= pos < order.len() implies {
        let (h, k) = #[trigger] src[pos];
        &&& 0 <= h < gcount
        &&& taken[h]
        &&& 0 <= k < b.groups@[h].members@.len()
        &&& order[pos] == b.groups@[h].members@[k]
        &&& starts[h] + k == pos
    } by {
        if pos < n0 {
            assert(src[pos] == src.subrange(0, n0)[pos]);
            assert(order[pos] == order.subrange(0, n0)[pos]);
            let (h, k) = src0[pos];
            assert(taken0[h]);
            assert(h != g);
        } else {
            assert(src[n0 + (pos - n0)] == (g, pos - n0));
            assert(order[n0 + (pos - n0)] == b.groups@[g].members@[pos - n0]);
        }
    }
    assert forall|h: int| 0 <= h < gcount && #[trigger] taken[h] implies {
        let a = placed[h] as int;
        &&& a < order.len()
        &&& order[a] == b.initial + h
        &&& cs[a] == starts[h]
        &&& cc[a] == b.groups@[h].members@.len()
        &&& 1 <= starts[h]
        &&& starts[h] + b.groups@[h].members@.len() <= order.len()
        &&& forall|k: int|
            0 <= k < b.groups@[h].members@.len() ==> #[trigger] order[starts[h] + k]
                == b.groups@[h].members@[k]
    } by {
        if h == g {
            assert(order[at] == order.subrange(0, n0)[at]);
        } else {
            assert(taken0[h]);
            let a = placed0[h] as int;
            assert(order[a] == order.subrange(0, n0)[a]);
            assert(a != at);
            assert forall|k: int| 0 <= k < b.groups@[h].members@.len() implies #[trigger] order[starts[h]
                + k] == b.groups@[h].members@[k] by {
                assert(order[starts0[h] + k] == order.subrange(0, n0)[starts0[h] + k]);
                assert(order0[starts0[h] + k] == b.groups@[h].members@[k]);
            }
        }
    }
    assert forall|p: int|
        0 <= p < total && (#[trigger] cc[p] != 0 || cs[p] != 0) implies p < order.len() && order[p]
        >= b.initial && taken[order[p] - b.initial] by {
        if p == at {
            assert(order[at] == order.subrange(0, n0)[at]);
        } else {
            assert(cc[p] == cc0[p] && cs[p] == cs0[p]);
            assert(cc0[p] != 0 || cs0[p] != 0);
            assert(p < n0);
            assert(order[p] == order.subrange(0, n0)[p]);
        }
    }
}

/// Whether place `j` lies in the child range of place `p`.
pub open spec fn in_child_range(l: &LodLayout, p: int, j: int) -> bool {
    0 <= p < l.order@.len() && l.child_start@[p] <= j < l.child_start@[p] + l.child_count@[p]
}

/// In a layout every place but the first lies in the child range of
/// exactly one place, and the first, which holds the root, lies in none.
pub proof fn lemma_layout_one_parent(l: &LodLayout, b: &LodBuilder, j: int)
    requires
        b.wf(),
        l.lays_out(b),
        0 <= j < l.order@.len(),
    ensures
        j == 0 ==> forall|p: int| !in_child_range(l, p, j),
        j > 0 ==> exists|p: int| in_child_range(l, p, j),
        forall|p: int, q: int| in_child_range(l, p, j) && in_child_range(l, q, j) ==> p == q,
{
    reveal(LodBuilder::wf);
    let c = l.order@[j];
    let root = b.active@[0];
    // A place in whose range `j` lies holds the merged splat of a merge
    // that has the splat at `j` as a child.
    assert forall|p: int| in_child_range(l, p, j) implies l.order@[p] >= b.initial
        && b.parent@[c as int] == l.order@[p] by {
        if l.order@[p] < b.initial {
            assert(l.child_count@[p] == 0);
        } else {
            let g = l.order@[p] - b.initial;
            let k = j - l.child_start@[p];
            assert(l.child_count@[p] == b.groups@[g].members@.len());
            assert(l.order@[l.child_start@[p] + k] == b.groups@[g].members@[k]);
            assert(b.groups@[g].merged == b.initial + g);
            assert(b.parent@[b.groups@[g].members@[k] as int] == b.groups@[g].merged);
        }
    }
    assert forall|p: int, q: int| in_child_range(l, p, j) && in_child_range(l, q, j) implies p
        == q by {
        if p < q {
            assert(l.order@[p] != l.order@[q]);
        } else if q < p {
            assert(l.order@[q] != l.order@[p]);
        }
    }
    if j == 0 {
        assert(b.parent@[root as int] == usize::MAX);
    } else {
        assert(l.order@[0] != l.order@[j]);
        b.lemma_covered();
        assert(is_child(b, c as int));
        let (g, k) = choose|g: int, k: int|
            0 <= g < b.groups@.len() && 0 <= k < b.groups@[g].members@.len()
                && #[trigger] b.groups@[g].members@[k] == c as int;
        lemma_permutation_onto(l.order@);
        assert(hit_by(l.order@, b.initial + g));
        let p = choose|p: int| 0 <= p < l.order@.len() && #[trigger] l.order@[p] == b.initial + g;
        assert(l.child_count@[p] == b.groups@[g].members@.len());
        let at = l.child_start@[p] + k;
        assert(l.order@[at] == b.groups@[g].members@[k]);
        if at < j {
            assert(l.order@[at] != l.order@[j]);
        } else if j < at {
            assert(l.order@[j] != l.order@[at]);
        }
        assert(in_child_range(l, p, j));
    }
}

/// In a layout every child range lies within the splats.
pub proof fn lemma_layout_children_in_bounds(l: &LodLayout, b: &LodBuilder, p: int)
    requires
        l.lays_out(b),
        0 <= p < l.order@.len(),
    ensures
        l.child_count@[p] == 0 || l.child_start@[p] + l.child_count@[p] <= l.order@.len(),
{
    if l.order@[p] >= b.initial() {
        assert(l.child_count@[p] == b.groups()[l.order@[p] - b.initial()].members@.len());
    } else {
        assert(l.child_count@[p] == 0);
    }
}

/// In a layout every parent lies above its children.
pub proof fn lemma_layout_parent_above_children(l: &LodLayout, b: &LodBuilder, p: int, k: int)
    requires
        b.wf(),
        l.lays_out(b),
        0 <= p < l.order@.len(),
        0 <= k < l.child_count@[p],
    ensures
        0 <= l.child_start@[p] + k < l.levels@.len(),
        l.levels@[p] > l.levels@[l.child_start@[p] + k],
{
    if l.order@[p] >= b.initial() {
        let g = l.order@[p] - b.initial();
        assert(l.child_count@[p] == b.groups()[g].members@.len());
        b.lemma_group_index(l.order@[p] as int);
        b.lemma_parent_above_children(g, k);
        let c = l.child_start@[p] + k;
        assert(l.order@[c] == b.groups()[g].members@[k]);
        assert(l.levels@[c] == b.levels()[l.order@[c] as int]);
        assert(l.levels@[p] == b.levels()[l.order@[p] as int]);
    } else {
        assert(l.child_count@[p] == 0);
    }
}

impl LodBuilder {
    /// A merged splat is the parent of the merge of its index.
    pub proof fn lemma_group_index(&self, node: int)
        requires
            self.wf(),
            self.initial() <= node < self.levels().len(),
        ensures
            0 <= node - self.initial() < self.groups().len(),
            self.groups()[node - self.initial()].merged == node,
    {
        reveal(LodBuilder::wf);
        assert(self.groups@[node - self.initial].merged == self.initial + (node - self.initial));
    }

    /// No splat at hand lies above the level that is worked on; it is a
    /// splat of the scene that has come to hand, or a merged one.
    pub proof fn lemma_active_within_level(&self, k: int)
        requires
            self.wf(),
            0 <= k < self.active().len(),
        ensures
            self.active()[k] < self.levels().len(),
            self.levels()[self.active()[k] as int] <= self.level(),
            self.active()[k] < self.frontier() || self.active()[k] >= self.initial(),
    {
        reveal(LodBuilder::wf);
    }

    /// Whether the work on the levels can end once this level is done:
    /// every splat of the scene has come to hand, and no two of the cells of
    /// the splats at hand lie more than one cell apart on any axis.
    pub fn level_done(&self, cells: &[[i64; 3]]) -> (done: bool)
        ensures
            done == (self.frontier() == self.initial() && cells_close(cells@)),
    {
        if self.frontier != self.initial {
            return false;
        }
        let n = cells.len();
        if n == 0 {
            return true;
        }
        let mut low: [i64; 3] = cells[0];
        let mut high: [i64; 3] = cells[0];
        let ghost mut at_low: Seq<int> = seq![0int, 0int, 0int];
        let ghost mut at_high: Seq<int> = seq![0int, 0int, 0int];
        let mut i: usize = 1;
        while i < n
            invariant
                1 <= i <= n,
                n == cells@.len(),
                at_low.len() == 3,
                at_high.len() == 3,
                forall|a: int, d: int|
                    0 <= a < i && 0 <= d < 3 ==> low[d] <= #[trigger] cell_at(cells@, a, d) <= high[d],
                forall|d: int|
                    0 <= d < 3 ==> 0 <= #[trigger] at_low[d] < i && cell_at(cells@, at_low[d], d)
                        == low[d],
                forall|d: int|
                    0 <= d < 3 ==> 0 <= #[trigger] at_high[d] < i && cell_at(cells@, at_high[d], d)
                        == high[d],
            decreases n - i,
        {
            let c = cells[i];
            let ghost low0 = low;
            let ghost high0 = high;
            let ghost at_low0 = at_low;
            let ghost at_high0 = at_high;
            let mut d: usize = 0;
            while d < 3
                invariant
                    d <= 3,
                    i < n,
                    n == cells@.len(),
                    c == cells@[i as int],
                    at_low.len() == 3,
                    at_high.len() == 3,
                    forall|e: int|
                        0 <= e < 3 ==> low[e] <= low0[e] && high0[e] <= high[e] && (e < d ==> low[e]
                            <= c[e] <= high[e]),
                    forall|e: int|
                        0 <= e < 3 ==> ((#[trigger] at_low[e] == at_low0[e] && low[e] == low0[e]) || (
                        at_low[e] == i && low[e] == c[e])),
                    forall|e: int|
                        0 <= e < 3 ==> ((#[trigger] at_high[e] == at_high0[e] && high[e] == high0[e])
                            || (at_high[e] == i && high[e] == c[e])),
                decreases 3 - d,
            {
                if c[d] < low[d] {
                    low[d] = c[d];
                    proof {
                        at_low = at_low.update(d as int, i as int);
                    }
                }
                if c[d] > high[d] {
                    high[d] = c[d];
                    proof {
                        at_high = at_high.update(d as int, i as int);
                    }
                }
                d += 1;
            }
            proof {
                assert forall|a: int, e: int| 0 <= a < i + 1 && 0 <= e < 3 implies low[e]
                    <= #[trigger] cell_at(cells@, a, e) <= high[e] by {
                    if a < i {
                        assert(low0[e] <= cell_at(cells@, a, e) <= high0[e]);
                    }
                }
                assert forall|e: int| 0 <= e < 3 implies 0 <= #[trigger] at_low[e] < i + 1 && cell_at(
                    cells@,
                    at_low[e],
                    e,
                ) == low[e] by {
                    assert(0 <= at_low0[e] < i);
                }
                assert forall|e: int| 0 <= e < 3 implies 0 <= #[trigger] at_high[e] < i + 1
                    && cell_at(cells@, at_high[e], e) == high[e] by {
                    assert(0 <= at_high0[e] < i);
                }
            }
            i += 1;
        }
        let close = high[0] as i128 - low[0] as i128 <= 1 && high[1] as i128 - low[1] as i128 <= 1
            && high[2] as i128 - low[2] as i128 <= 1;
        proof {
            if close {
                assert forall|a: int, b: int, d: int|
                    0 <= a < cells@.len() && 0 <= b < cells@.len() && 0 <= d < 3 implies #[trigger] cell_at(
                    cells@,
                    a,
                    d,
                ) - #[trigger] cell_at(cells@, b, d) <= 1 by {
                    assert(low[d] <= cell_at(cells@, a, d) <= high[d]);
                    assert(low[d] <= cell_at(cells@, b, d) <= high[d]);
                }
            } else {
                let d = if high[0] - low[0] > 1 {
                    0int
                } else if high[1] - low[1] > 1 {
                    1int
                } else {
                    2int
                };
                assert(0 <= at_high[d] < n && 0 <= at_low[d] < n);
                assert(cell_at(cells@, at_high[d], d) - cell_at(cells@, at_low[d], d) > 1);
            }
        }
        close
    }

    /// How many splats of the scene have come to hand.
    pub fn consumed(&self) -> (n: usize)
        ensures
            n == self.frontier(),
    {
        self.frontier
    }

    /// Whether the tree is built: every splat of the scene has come to hand
    /// and one splat, the root, is left at hand.
    pub fn is_done(&self) -> (done: bool)
        ensures
            done == (self.frontier() == self.initial() && self.active().len() == 1),
    {
        self.frontier == self.initial && self.active.len() == 1
    }

    /// In a tree that is built, a parent lies above its children.
    pub proof fn lemma_parent_above_children(&self, g: int, k: int)
        requires
            self.wf(),
            0 <= g < self.groups().len(),
            0 <= k < self.groups()[g].members@.len(),
        ensures
            self.groups()[g].merged == self.initial() + g,
            self.groups()[g].members@[k] < self.groups()[g].merged,
            self.groups()[g].merged < self.levels().len(),
            self.levels()[self.groups()[g].members@[k] as int] < self.levels()[self.groups()[g].merged as int],
    {
        reveal(LodBuilder::wf);
        let c = self.groups@[g].members@[k];
        assert(self.groups@[g].merged == self.initial + g);
    }

    /// A child of a merge is a splat below the merged one.
    proof fn lemma_member_bound(&self, g: int, k: int)
        requires
            self.wf(),
            0 <= g < self.groups@.len(),
            0 <= k < self.groups@[g].members@.len(),
        ensures
            self.groups@[g].members@[k] < self.initial + g,
            self.initial + g < self.levels@.len(),
            self.groups@[g].members@.len() >= 2,
    {
        reveal(LodBuilder::wf);
        assert(self.groups@[g].merged == self.initial + g);
    }

    /// A merge has two children or more, and its merged splat is a splat.
    proof fn lemma_group_bound(&self, g: int)
        requires
            self.wf(),
            0 <= g < self.groups@.len(),
        ensures
            self.groups@[g].members@.len() >= 2,
            self.initial + g < self.levels@.len(),
            self.levels@.len() < usize::MAX,
    {
        reveal(LodBuilder::wf);
    }

    /// The highest level among the children of merge `g`.
    fn top_child_level(&self, g: usize) -> (top: i32)
        requires
            self.wf(),
            g < self.groups@.len(),
        ensures
            top == top_level(
                self.levels@,
                self.groups@[g as int].members@,
                self.groups@[g as int].members@.len() as int,
            ),
    {
        let members = self.groups[g].children();
        proof {
            self.lemma_group_bound(g as int);
            self.lemma_member_bound(g as int, 0);
        }
        let mut top: i32 = self.levels[members[0]];
        let mut k: usize = 1;
        while k < members.len()
            invariant
                self.wf(),
                g < self.groups@.len(),
                members@ == self.groups@[g as int].members@,
                1 <= k <= members@.len(),
                top == top_level(self.levels@, members@, k as int),
            decreases members@.len() - k,
        {
            proof {
                self.lemma_member_bound(g as int, k as int);
            }
            let level = self.levels[members[k]];
            if level > top {
                top = level;
            }
            k += 1;
        }
        top
    }

    /// Starts the next band: the merges that were put off come to wait, the
    /// one that was put off first at the top.
    fn next_band(
        &self,
        waiting: &mut Vec<(usize, usize)>,
        deferred: &mut Vec<(usize, usize)>,
        Ghost(order): Ghost<Seq<usize>>,
        Ghost(taken): Ghost<Seq<bool>>,
    )
        requires
            queues_ok(self, order, taken, old(waiting)@, old(deferred)@),
        ensures
            queues_ok(self, order, taken, final(waiting)@, final(deferred)@),
            final(deferred)@.len() == 0,
            final(waiting)@.len() == old(waiting)@.len() + old(deferred)@.len(),
            forall|i: int|
                0 <= i < old(waiting)@.len() ==> #[trigger] final(waiting)@[i] == old(waiting)@[i],
            forall|j: int|
                old(waiting)@.len() <= j < final(waiting)@.len() ==> #[trigger] final(waiting)@[j]
                    == old(deferred)@[old(waiting)@.len() + old(deferred)@.len() - 1 - j],
    {
        let ghost w0 = waiting@;
        let ghost d0 = deferred@;
        while deferred.len() > 0
            invariant
                queues_ok(self, order, taken, waiting@, deferred@),
                deferred@.len() <= d0.len(),
                deferred@ == d0.subrange(0, deferred@.len() as int),
                waiting@.len() == w0.len() + (d0.len() - deferred@.len()),
                forall|i: int| 0 <= i < w0.len() ==> #[trigger] waiting@[i] == w0[i],
                forall|j: int|
                    w0.len() <= j < waiting@.len() ==> #[trigger] waiting@[j] == d0[w0.len() + d0.len()
                        - 1 - j],
            decreases deferred@.len(),
        {
            proof {
                lemma_queue_move(self, order, taken, waiting@, deferred@);
            }
            let ghost rest = deferred@;
            let item = deferred.pop().unwrap();
            waiting.push(item);
            assert(deferred@ =~= d0.subrange(0, deferred@.len() as int));
        }
    }

    /// Lays the tree out in bands of two levels, as a stream of chunks asks
    /// for: `None` while the tree is not built.
    ///
    /// The root comes first. The merges are then taken apart, each into
    /// its children side by side. A merge whose children all lie two levels
    /// or more below the top of the band waits for the next band, which
    /// starts two levels lower; the others are taken apart at once, the
    /// one that was met last first. The merges that wait are taken in the
    /// order in which they were met.
    fn banded_order(&self) -> (r: Option<LodLayout>)
        requires
            self.wf(),
        ensures
            r.is_some() <==> self.frontier() == self.initial() && self.active().len() == 1,
            r matches Some(l) ==> l.lays_out(self) && l.order@ == banded_layout(self).order
                && l.child_start@ == banded_layout(self).child_start && l.child_count@
                == banded_layout(self).child_count,
    {
        if !self.is_done() {
            return None;
        }
        proof {
            self.lemma_sizes();
        }
        let total = self.levels.len();
        let gcount = self.groups.len();
        let root = self.active[0];
        let mut order: Vec<usize> = Vec::new();
        order.push(root);
        let mut child_start: Vec<usize> = Vec::new();
        child_start.resize(total, 0usize);
        let mut child_count: Vec<usize> = Vec::new();
        child_count.resize(total, 0usize);
        let ghost mut group_start: Seq<usize> = Seq::new(gcount as nat, |g: int| 0usize);
        let ghost mut placed_at: Seq<usize> = Seq::new(gcount as nat, |g: int| 0usize);
        let ghost mut taken: Seq<bool> = Seq::new(gcount as nat, |g: int| false);
        let ghost mut src: Seq<(int, int)> = seq![(-1int, -1int)];
        let mut waiting: Vec<(usize, usize)> = Vec::new();
        let mut deferred: Vec<(usize, usize)> = Vec::new();
        let mut band: i128 = self.level as i128 - 1;
        let ghost none: Seq<(usize, usize)> = Seq::empty();
        let ghost first = Bands {
            order: Seq::empty(),
            child_start: child_start@,
            child_count: child_count@,
            waiting: none,
            deferred: none,
            band: band as int,
        };
        proof {
            assert(child_start@ =~= Seq::new(total as nat, |i: int| 0usize));
            assert(child_count@ =~= Seq::new(total as nat, |i: int| 0usize));
            reveal(banded);
            reveal(queues_ok);
            assert(waiting@ =~= none);
            assert(deferred@ =~= none);
            assert(queues_ok(self, Seq::<usize>::empty(), taken, none, none));
            lemma_sum_taken_none(self.groups@, taken, gcount as int);
        }
        if root >= self.initial {
            let h = root - self.initial;
            if self.top_child_level(h) as i128 <= band - 2 {
                deferred.push((h, 0));
            } else {
                waiting.push((h, 0));
            }
        }
        proof {
            lemma_queue_push(
                self,
                Seq::<usize>::empty(),
                taken,
                none,
                none,
                root,
                waiting@,
                deferred@,
            );
            assert(order@ =~= Seq::<usize>::empty().push(root));
        }
        let ghost target = banded_layout(self);
        assert(target == bands_run(self, band_placed(self, first, root)));
        loop
            invariant
                bands_run(
                    self,
                    Bands {
                        order: order@,
                        child_start: child_start@,
                        child_count: child_count@,
                        waiting: waiting@,
                        deferred: deferred@,
                        band: band as int,
                    },
                ) == target,
                self.wf(),
                self.active@.len() == 1,
                self.frontier == self.initial,
                total == self.levels@.len(),
                gcount == self.groups@.len(),
                total == self.initial + gcount,
                root == self.active@[0],
                child_start@.len() == total,
                child_count@.len() == total,
                group_start.len() == gcount,
                placed_at.len() == gcount,
                taken.len() == gcount,
                i32::MIN - 1 - 2 * (order@.len() + (if waiting@.len() == 0 {
                    0int
                } else {
                    1int
                })) <= band <= i32::MAX,
                1 <= order@.len() <= total,
                src.len() == order@.len(),
                order@.len() == 1 + sum_taken(self.groups@, taken, gcount as int),
                banded(self, order@, src, child_start@, child_count@, group_start, placed_at, taken),
                queues_ok(self, order@, taken, waiting@, deferred@),
            ensures
                waiting@.len() == 0,
                deferred@.len() == 0,
                target == (Bands {
                    order: order@,
                    child_start: child_start@,
                    child_count: child_count@,
                    waiting: waiting@,
                    deferred: deferred@,
                    band: band as int,
                }),
            decreases
                    total - order@.len(),
                    (if waiting@.len() == 0 {
                        1int
                    } else {
                        0int
                    }),
        {
            if waiting.len() == 0 {
                if deferred.len() == 0 {
                    break ;
                }
                let ghost w = Bands {
                    order: order@,
                    child_start: child_start@,
                    child_count: child_count@,
                    waiting: waiting@,
                    deferred: deferred@,
                    band: band as int,
                };
                self.next_band(&mut waiting, &mut deferred, Ghost(order@), Ghost(taken));
                band = band - 2;
                proof {
                    assert(waiting@ =~= band_next(w).waiting);
                    assert(deferred@ =~= band_next(w).deferred);
                }
            } else {
                proof {
                    lemma_queue_pop(self, order@, taken, waiting@, deferred@);
                }
                let ghost w = Bands {
                    order: order@,
                    child_start: child_start@,
                    child_count: child_count@,
                    waiting: waiting@,
                    deferred: deferred@,
                    band: band as int,
                };
                let (g, at) = waiting.pop().unwrap();
                let members = self.groups[g].children();
                let len = members.len();
                let start = order.len();
                proof {
                    self.lemma_group_bound(g as int);
                    lemma_sum_taken_set(self.groups@, taken, g as int, gcount as int);
                    lemma_sum_taken_le(self.groups@, taken.update(g as int, true), gcount as int);
                    self.lemma_linked_bound(0);
                }
                let ghost order0 = order@;
                let ghost src0 = src;
                let ghost starts0 = group_start;
                let ghost placed0 = placed_at;
                let ghost taken0 = taken;
                let ghost cs0 = child_start@;
                let ghost cc0 = child_count@;
                child_start[at] = start;
                child_count[at] = len;
                proof {
                    group_start = group_start.update(g as int, start);
                    placed_at = placed_at.update(g as int, at);
                    taken = taken.update(g as int, true);
                }
                let ghost popped = Bands {
                    order: order@,
                    child_start: child_start@,
                    child_count: child_count@,
                    waiting: waiting@,
                    deferred: deferred@,
                    band: band as int,
                };
                let mut k: usize = 0;
                while k < len
                    invariant
                        band_children(self, popped, g as int, k as int) == (Bands {
                            order: order@,
                            child_start: child_start@,
                            child_count: child_count@,
                            waiting: waiting@,
                            deferred: deferred@,
                            band: band as int,
                        }),
                        self.wf(),
                        self.active@.len() == 1,
                        g < gcount,
                        gcount == self.groups@.len(),
                        total == self.levels@.len(),
                        total == self.initial + gcount,
                        members@ == self.groups@[g as int].members@,
                        len == members@.len(),
                        k <= len,
                        start == order0.len(),
                        start + len <= total,
                        order@.len() == start + k,
                        src.len() == order@.len(),
                        order@.subrange(0, start as int) == order0,
                        src.subrange(0, start as int) == src0,
                        forall|j: int| 0 <= j < k ==> #[trigger] order@[start + j] == members@[j],
                        forall|j: int| 0 <= j < k ==> #[trigger] src[start + j] == (g as int, j),
                        -0x1_0000_0000_0000_0000_0000 <= band <= i32::MAX,
                        banded(self, order0, src0, cs0, cc0, starts0, placed0, taken0),
                        taken0.len() == gcount,
                        placed0.len() == gcount,
                        !taken0[g as int],
                        taken == taken0.update(g as int, true),
                        queues_ok(self, order@, taken, waiting@, deferred@),
                    decreases len - k,
                {
                    let node = members[k];
                    proof {
                        self.lemma_member_bound(g as int, k as int);
                    }
                    let ghost held = waiting@;
                    let ghost kept = deferred@;
                    let ghost before = order@;
                    if node >= self.initial {
                        proof {
                            lemma_fresh(
                                self,
                                order0,
                                src0,
                                cs0,
                                cc0,
                                starts0,
                                placed0,
                                taken0,
                                order@,
                                taken,
                                waiting@,
                                deferred@,
                                g as int,
                                k as int,
                            );
                        }
                        let h = node - self.initial;
                        let place = order.len();
                        if self.top_child_level(h) as i128 <= band - 2 {
                            deferred.push((h, place));
                        } else {
                            waiting.push((h, place));
                        }
                    }
                    order.push(node);
                    proof {
                        lemma_queue_push(self, before, taken, held, kept, node, waiting@, deferred@);
                        src = src.push((g as int, k as int));
                        assert(order@.subrange(0, start as int) =~= order0);
                        assert(src.subrange(0, start as int) =~= src0);
                    }
                    k += 1;
                }
                proof {
                    assert(band_taken(self, w) == (Bands {
                        order: order@,
                        child_start: child_start@,
                        child_count: child_count@,
                        waiting: waiting@,
                        deferred: deferred@,
                        band: band as int,
                    }));
                    lemma_banded_step(
                        self,
                        order0,
                        src0,
                        cs0,
                        cc0,
                        starts0,
                        placed0,
                        taken0,
                        order@,
                        src,
                        child_start@,
                        child_count@,
                        group_start,
                        placed_at,
                        taken,
                        g as int,
                        at as int,
                    );
                }
            }
        }
        proof {
            self.lemma_covered();
            assert(waiting@ =~= none);
            assert(deferred@ =~= none);
            assert forall|g: int| 0 <= g < gcount implies #[trigger] taken[g] by {
                lemma_taken_from(
                    self,
                    order@,
                    src,
                    child_start@,
                    child_count@,
                    group_start,
                    placed_at,
                    taken,
                    g,
                );
            }
            lemma_sum_taken_le(self.groups@, taken, gcount as int);
            self.lemma_linked_bound(0);
            assert(order@.len() == total);
        }

        let mut levels: Vec<i32> = Vec::new();
        let mut p: usize = 0;
        proof {
            reveal(banded);
        }
        while p < total
            invariant
                p <= total,
                total == self.levels@.len(),
                order@.len() == total,
                levels@.len() == p,
                forall|q: int| 0 <= q < total ==> #[trigger] order@[q] < total,
                forall|q: int| 0 <= q < p ==> #[trigger] levels@[q] == self.levels@[order@[q] as int],
            decreases total - p,
        {
            levels.push(self.levels[order[p]]);
            p += 1;
        }
        let layout = LodLayout { order, child_start, child_count, levels };
        proof {
            self.lemma_order_distinct(layout.order@, src, group_start);
            self.lemma_members_nonempty();
            assert forall|p: int| 0 <= p < total && layout.order@[p] >= self.initial implies {
                let g = layout.order@[p] - self.initial;
                &&& #[trigger] layout.child_count@[p] == self.groups@[g].members@.len()
                &&& layout.child_count@[p] >= 1
                &&& 1 <= layout.child_start@[p]
                &&& layout.child_start@[p] + layout.child_count@[p] <= total
                &&& forall|k: int|
                    0 <= k < layout.child_count@[p] ==> #[trigger] layout.order@[layout.child_start@[p] + k]
                        == self.groups@[g].members@[k]
            } by {
                let g = layout.order@[p] - self.initial;
                assert(taken[g]);
                let at = placed_at[g] as int;
                assert(layout.order@[at] == self.initial + g);
                if at < p {
                    assert(layout.order@[at] != layout.order@[p]);
                }
                if p < at {
                    assert(layout.order@[p] != layout.order@[at]);
                }
                assert(at == p);
            }
        }
        Some(layout)
    }

    /// Lays the tree out for streaming: the root first, the children of
    /// every merge side by side, in bands of two levels from the top.
    /// `None` while the tree is not built.
    pub fn linearize(&self) -> (r: Option<LodLayout>)
        requires
            self.wf(),
        ensures
            r.is_some() <==> self.frontier() == self.initial() && self.active().len() == 1,
            r matches Some(l) ==> l.lays_out(self) && l.order@ == banded_layout(self).order
                && l.child_start@ == banded_layout(self).child_start && l.child_count@
                == banded_layout(self).child_count,
    {
        self.banded_order()
    }

    /// The splats are those of the scene and the merged ones; the splats at
    /// hand are among them, each once.
    proof fn lemma_sizes(&self)
        requires
            self.wf(),
        ensures
            self.levels@.len() == self.initial + self.groups@.len(),
            self.levels@.len() < usize::MAX,
            self.parent@.len() == self.levels@.len(),
            self.frontier <= self.initial,
            all_distinct(self.active@),
            forall|k: int| 0 <= k < self.active@.len() ==> #[trigger] self.active@[k] < self.levels@.len(),
    {
        reveal(LodBuilder::wf);
    }

    /// The children of the merges from `start` on are fewer than the splats.
    proof fn lemma_linked_bound(&self, start: int)
        requires
            self.wf(),
            0 <= start <= self.groups@.len(),
            self.active@.len() >= 1,
        ensures
            1 + sum_members(self.groups@, start, self.groups@.len() as int) <= self.levels@.len(),
            self.frontier == self.initial && self.active@.len() == 1 ==> 1 + sum_members(
                self.groups@,
                0,
                self.groups@.len() as int,
            ) == self.levels@.len(),
    {
        reveal(LodBuilder::wf);
        lemma_sum_members_split(self.groups@, 0, start, self.groups@.len() as int);
    }

    /// Every merge has children.
    proof fn lemma_members_nonempty(&self)
        requires
            self.wf(),
        ensures
            forall|g: int| 0 <= g < self.groups@.len() ==> (#[trigger] self.groups@[g]).members@.len() >= 1,
    {
        reveal(LodBuilder::wf);
    }

    /// In a tree that is built every splat but the root is a child in a
    /// merge.
    proof fn lemma_covered(&self)
        requires
            self.wf(),
            self.frontier == self.initial,
            self.active@.len() == 1,
        ensures
            covered(self),
    {
        let groups = self.groups@;
        let gcount = groups.len() as int;
        let root = self.active@[0];
        let order = flat_order(groups, root, gcount);
        let src = flat_src(groups, gcount);
        lemma_flat(groups, root, gcount);
        self.lemma_linked_bound(0);
        self.lemma_sizes();
        let starts = Seq::new(gcount as nat, |g: int| (1 + sum_members(groups, 0, g)) as usize);
        assert forall|pos: int| 1 <= pos < order.len() implies {
            let (g, k) = #[trigger] src[pos];
            &&& 0 <= g < self.groups@.len()
            &&& 0 <= k < self.groups@[g].members@.len()
            &&& order[pos] == self.groups@[g].members@[k]
            &&& starts[g] + k == pos
        } by {
            let (g, k) = src[pos];
            assert(1 + sum_members(groups, 0, g) + k == pos);
        }
        self.lemma_order_distinct(order, src, starts);
        lemma_permutation_onto(order);
        assert forall|c: int|
            0 <= c < self.levels@.len() && c != self.active@[0] implies #[trigger] is_child(
            self,
            c,
        ) by {
            assert(hit_by(order, c));
            let pos = choose|i: int| 0 <= i < order.len() && #[trigger] order[i] == c;
            assert(pos != 0);
            let (g, k) = src[pos];
            assert(self.groups@[g].members@[k] == c);
        }
    }

    /// An order that takes each place of each merge once, behind the root,
    /// holds no splat twice.
    proof fn lemma_order_distinct(&self, order: Seq<usize>, src: Seq<(int, int)>, group_start: Seq<usize>)
        requires
            self.wf(),
            self.active@.len() == 1,
            order.len() == self.levels@.len(),
            src.len() == order.len(),
            order[0] == self.active@[0],
            forall|pos: int|
                1 <= pos < order.len() ==> {
                    let (g, k) = #[trigger] src[pos];
                    &&& 0 <= g < self.groups@.len()
                    &&& 0 <= k < self.groups@[g].members@.len()
                    &&& order[pos] == self.groups@[g].members@[k]
                    &&& group_start[g] + k == pos
                },
        ensures
            is_permutation(order),
    {
        reveal(LodBuilder::wf);
        let total = self.levels@.len();
        assert(self.active@[0] < total);
        assert forall|i: int| 0 <= i < order.len() implies #[trigger] order[i] < order.len() by {
            if i >= 1 {
                let (g, k) = src[i];
                let c = self.groups@[g].members@[k];
                assert(c < self.groups@[g].merged);
                assert(self.groups@[g].merged == self.initial + g);
            }
        }
        assert forall|i: int, j: int| 0 <= i < j < order.len() implies order[i] != order[j] by {
            let (gj, kj) = src[j];
            let cj = self.groups@[gj].members@[kj];
            assert(self.parent@[cj as int] == self.groups@[gj].merged);
            assert(self.groups@[gj].merged == self.initial + gj);
            if i == 0 {
                assert(self.parent@[self.active@[0] as int] == usize::MAX);
            } else {
                let (gi, ki) = src[i];
                let ci = self.groups@[gi].members@[ki];
                assert(self.parent@[ci as int] == self.groups@[gi].merged);
                assert(self.groups@[gi].merged == self.initial + gi);
                if gi == gj {
                    assert(ki != kj);
                    assert(all_distinct(self.groups@[gi].members@));
                    if ki < kj {
                        assert(self.groups@[gi].members@[ki] != self.groups@[gi].members@[kj]);
                    } else {
                        assert(self.groups@[gi].members@[kj] != self.groups@[gi].members@[ki]);
                    }
                }
            }
        }
    }
}

} // verus!
