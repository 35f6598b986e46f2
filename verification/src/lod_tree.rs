//! Loaded LoD trees and their traversal: which nodes of the trees of a
//! frame's instances are shown, within a budget of splats, and which chunks
//! were looked at.

use vstd::prelude::*;
use crate::splat_encode::{decode_lod_tree, LodNode};

verus! {

/// Splats in a chunk, the unit of paging.
pub const CHUNK_SPLATS: u32 = 65536;

/// The id of the first tree that a registry gives out.
pub const FIRST_LOD_ID: u32 = 1000;

/// The lengths of the index lists that a traversal gives out are multiples
/// of this.
pub const TRAVERSE_ROW: usize = 16384;

/// A loaded tree: its nodes, and which page holds which chunk. In both
/// mappings 0 stands for nothing, but page 0 and chunk 0 stand for each
/// other.
pub struct LodTree {
    /// The nodes, by paged index.
    pub splats: Vec<LodNode>,
    /// For every page the chunk that it holds.
    pub page_to_chunk: Vec<u32>,
    /// For every chunk the page that holds it.
    pub chunk_to_page: Vec<u32>,
}

/// `a / b`, rounded up.
pub open spec fn ceil_div(a: nat, b: nat) -> nat {
    if a % b == 0 {
        a / b
    } else {
        a / b + 1
    }
}

/// Pages that `count` splats take.
pub fn pages_of(count: u32) -> (pages: u32)
    ensures
        pages == ceil_div(count as nat, 65536),
        pages <= 65536,
{
    if count % CHUNK_SPLATS == 0 {
        count / CHUNK_SPLATS
    } else {
        count / CHUNK_SPLATS + 1
    }
}

/// Whether a node is a leaf at the origin without size.
pub open spec fn is_empty_node(node: LodNode) -> bool {
    node_fields(node) == (0u16, 0u16, 0u16, 0u16, 0u16, 0u32)
}

/// A leaf at the origin without size.
pub fn empty_node() -> (node: LodNode)
    ensures
        is_empty_node(node),
{
    LodNode { center: [0, 0, 0], size: 0, child_count: 0, child_start: 0 }
}

/// The node that the four words at `4 * i` of `words` hold.
pub open spec fn node_at(words: Seq<u32>, i: int) -> (u16, u16, u16, u16, u16, u32) {
    (
        (words[4 * i] % 0x1_0000) as u16,
        (words[4 * i] / 0x1_0000) as u16,
        (words[4 * i + 1] % 0x1_0000) as u16,
        (words[4 * i + 1] / 0x1_0000) as u16,
        (words[4 * i + 2] % 0x1_0000) as u16,
        words[4 * i + 3],
    )
}

/// The fields of a node, in the order of its record.
pub open spec fn node_fields(n: LodNode) -> (u16, u16, u16, u16, u16, u32) {
    (n.center[0], n.center[1], n.center[2], n.size, n.child_count, n.child_start)
}

/// Whether `after` is `before` with the chunks of `count` splats from the
/// chunk of `chunk_base` on put into the pages from the page of `page_base`
/// on: page and chunk of the same place stand for each other, places that
/// are new and not named stand for nothing, and all others are as before.
pub open spec fn pages_put(before: LodTree, after: LodTree, page_base: u32, chunk_base: u32, count: u32) -> bool {
    let pages = ceil_div(count as nat, 65536);
    let (p0, c0) = (page_base / 65536, chunk_base / 65536);
    &&& after.page_to_chunk@.len() == (if p0 + pages > before.page_to_chunk@.len() {
        (p0 + pages) as nat
    } else {
        before.page_to_chunk@.len()
    })
    &&& after.chunk_to_page@.len() == (if c0 + pages > before.chunk_to_page@.len() {
        (c0 + pages) as nat
    } else {
        before.chunk_to_page@.len()
    })
    &&& forall|i: int|
        0 <= i < after.page_to_chunk@.len() ==> #[trigger] after.page_to_chunk@[i] == (if p0 <= i < p0
            + pages {
            (c0 + (i - p0)) as u32
        } else if i < before.page_to_chunk@.len() {
            before.page_to_chunk@[i]
        } else {
            0
        })
    &&& forall|i: int|
        0 <= i < after.chunk_to_page@.len() ==> #[trigger] after.chunk_to_page@[i] == (if c0 <= i < c0
            + pages {
            (p0 + (i - c0)) as u32
        } else if i < before.chunk_to_page@.len() {
            before.chunk_to_page@[i]
        } else {
            0
        })
}

/// Whether `after` is `before` with the chunks of `count` splats from the
/// chunk of `chunk_base` on taken out of the pages from the page of
/// `page_base` on: these places stand for nothing, as far as the mappings
/// have them, and all others are as before.
pub open spec fn pages_cleared(before: LodTree, after: LodTree, page_base: u32, chunk_base: u32, count: u32) -> bool {
    let pages = ceil_div(count as nat, 65536);
    let (p0, c0) = (page_base / 65536, chunk_base / 65536);
    &&& after.page_to_chunk@.len() == before.page_to_chunk@.len()
    &&& after.chunk_to_page@.len() == before.chunk_to_page@.len()
    &&& forall|i: int|
        0 <= i < after.page_to_chunk@.len() ==> #[trigger] after.page_to_chunk@[i] == (if p0 <= i < p0
            + pages {
            0
        } else {
            before.page_to_chunk@[i]
        })
    &&& forall|i: int|
        0 <= i < after.chunk_to_page@.len() ==> #[trigger] after.chunk_to_page@[i] == (if c0 <= i < c0
            + pages {
            0
        } else {
            before.chunk_to_page@[i]
        })
}

/// Whether the nodes of `after` are those of `before` with `count` nodes
/// read from `words` into the places from `base` on: where `before` is too
/// short the nodes are twice as many, or as many as needed if that is
/// more, and new places that are not read hold leaves.
pub open spec fn data_set(before: LodTree, after: LodTree, base: int, count: int, words: Seq<u32>) -> bool {
    &&& after.splats@.len() == (if base + count <= before.splats@.len() {
        before.splats@.len()
    } else if 2 * before.splats@.len() >= base + count {
        2 * before.splats@.len()
    } else {
        (base + count) as nat
    })
    &&& forall|i: int|
        0 <= i < count ==> node_fields(#[trigger] after.splats@[base + i]) == node_at(words, i)
    &&& forall|j: int|
        0 <= j < before.splats@.len() && !(base <= j < base + count) ==> #[trigger] after.splats@[j]
            == before.splats@[j]
    &&& forall|j: int|
        before.splats@.len() <= j < after.splats@.len() && !(base <= j < base + count)
            ==> is_empty_node(#[trigger] after.splats@[j])
}

/// Why chunks cannot be put into the pages of a tree, if they cannot: the
/// words are too few for the nodes, the nodes end behind what the machine
/// can count, or the tree is too long to grow.
pub open spec fn insert_error(
    trees: Map<u32, LodTree>,
    lod_id: u32,
    page_base: u32,
    count: u32,
    words: Seq<u32>,
) -> Option<LodTreeError> {
    if words.len() < 4 * count || page_base + count > usize::MAX {
        Some(LodTreeError::ShortData)
    } else if trees.dom().contains(lod_id) && 2 * trees[lod_id].splats@.len() > usize::MAX {
        Some(LodTreeError::TooManySplats)
    } else {
        None
    }
}

/// Whether `after` holds the trees of `before` with chunks of the tree
/// `lod_id` put into pages and their nodes read; a tree that is not there
/// is made.
pub open spec fn tree_inserted(
    before: Map<u32, LodTree>,
    after: Map<u32, LodTree>,
    lod_id: u32,
    page_base: u32,
    chunk_base: u32,
    count: u32,
    words: Seq<u32>,
) -> bool {
    &&& after.dom() == before.dom().insert(lod_id)
    &&& forall|other: u32|
        other != lod_id && before.dom().contains(other) ==> #[trigger] after[other] == before[other]
    &&& exists|start: LodTree|
        {
            &&& (if before.dom().contains(lod_id) {
                start == before[lod_id]
            } else {
                no_tree(start)
            })
            &&& #[trigger] pages_put(start, after[lod_id], page_base, chunk_base, count)
            &&& data_set(start, after[lod_id], page_base as int, count as int, words)
        }
}

/// Whether `after` holds the trees of `before` with chunks of the tree
/// `lod_id` taken out of their pages; a tree that is not there is made.
pub open spec fn tree_cleared(
    before: Map<u32, LodTree>,
    after: Map<u32, LodTree>,
    lod_id: u32,
    page_base: u32,
    chunk_base: u32,
    count: u32,
) -> bool {
    &&& after.dom() == before.dom().insert(lod_id)
    &&& forall|other: u32|
        other != lod_id && before.dom().contains(other) ==> #[trigger] after[other] == before[other]
    &&& exists|start: LodTree|
        {
            &&& (if before.dom().contains(lod_id) {
                start == before[lod_id]
            } else {
                no_tree(start)
            })
            &&& #[trigger] pages_cleared(start, after[lod_id], page_base, chunk_base, count)
            &&& after[lod_id].splats == start.splats
        }
}

/// Whether `mids` are the trees on the way from `before` to `after` while
/// the first `k` entries are put in, one after the other, none of them
/// failing.
pub open spec fn put_steps(
    mids: Seq<Map<u32, LodTree>>,
    before: Map<u32, LodTree>,
    after: Map<u32, LodTree>,
    lod_ids: Seq<u32>,
    page_bases: Seq<u32>,
    chunk_bases: Seq<u32>,
    counts: Seq<u32>,
    words: Seq<Vec<u32>>,
    k: int,
) -> bool {
    &&& mids.len() == k + 1
    &&& mids[0] == before
    &&& mids[k] == after
    &&& forall|j: int|
        0 <= j < k ==> insert_error(
            #[trigger] mids[j],
            lod_ids[j],
            page_bases[j],
            counts[j],
            words[j]@,
        ).is_none() && tree_inserted(
            mids[j],
            mids[j + 1],
            lod_ids[j],
            page_bases[j],
            chunk_bases[j],
            counts[j],
            words[j]@,
        )
}

/// Whether `after` holds the trees of `before` with the first `k` entries
/// put in, one after the other, none of them failing.
pub open spec fn trees_put(
    before: Map<u32, LodTree>,
    after: Map<u32, LodTree>,
    lod_ids: Seq<u32>,
    page_bases: Seq<u32>,
    chunk_bases: Seq<u32>,
    counts: Seq<u32>,
    words: Seq<Vec<u32>>,
    k: int,
) -> bool {
    exists|mids: Seq<Map<u32, LodTree>>| #[trigger]
        put_steps(mids, before, after, lod_ids, page_bases, chunk_bases, counts, words, k)
}

/// Whether `mids` are the trees on the way from `before` to `after` while
/// the first `k` entries are taken out of their pages, one after the other.
pub open spec fn clear_steps(
    mids: Seq<Map<u32, LodTree>>,
    before: Map<u32, LodTree>,
    after: Map<u32, LodTree>,
    lod_ids: Seq<u32>,
    page_bases: Seq<u32>,
    chunk_bases: Seq<u32>,
    counts: Seq<u32>,
    k: int,
) -> bool {
    &&& mids.len() == k + 1
    &&& mids[0] == before
    &&& mids[k] == after
    &&& forall|j: int|
        0 <= j < k ==> tree_cleared(
            #[trigger] mids[j],
            mids[j + 1],
            lod_ids[j],
            page_bases[j],
            chunk_bases[j],
            counts[j],
        )
}

/// Whether `after` holds the trees of `before` with the first `k` entries
/// taken out of their pages, one after the other.
pub open spec fn trees_cleared(
    before: Map<u32, LodTree>,
    after: Map<u32, LodTree>,
    lod_ids: Seq<u32>,
    page_bases: Seq<u32>,
    chunk_bases: Seq<u32>,
    counts: Seq<u32>,
    k: int,
) -> bool {
    exists|mids: Seq<Map<u32, LodTree>>| #[trigger]
        clear_steps(mids, before, after, lod_ids, page_bases, chunk_bases, counts, k)
}

/// The trees that the first `k` instances name, each once, in the order in
/// which they are first named.
pub open spec fn first_ids(lod_ids: Seq<u32>, k: int) -> Seq<u32>
    decreases k,
{
    if k <= 0 {
        Seq::empty()
    } else if is_first(lod_ids, k - 1) {
        first_ids(lod_ids, k - 1).push(lod_ids[k - 1])
    } else {
        first_ids(lod_ids, k - 1)
    }
}

/// The ids of a list of trees with their pages.
pub open spec fn listed_ids(pages: Seq<(u32, Vec<u32>)>) -> Seq<u32> {
    Seq::new(pages.len(), |i: int| pages[i].0)
}

/// Whether a list gives, for every tree that is named, in the order in
/// which the trees are first named, the page of every chunk.
pub open spec fn pages_listed(pages: Seq<(u32, Vec<u32>)>, trees: Map<u32, LodTree>, lod_ids: Seq<u32>) -> bool {
    &&& listed_ids(pages) == first_ids(lod_ids, lod_ids.len() as int)
    &&& forall|q: int|
        0 <= q < pages.len() ==> trees.dom().contains((#[trigger] pages[q]).0) && pages[q].1@
            == trees[pages[q].0].chunk_to_page@
}

/// A tree without splats and without chunks.
pub open spec fn no_tree(t: LodTree) -> bool {
    t.splats@.len() == 0 && t.page_to_chunk@.len() == 0 && t.chunk_to_page@.len() == 0
}

impl LodTree {
    /// A tree of `num_splats` splats without nodes yet, every chunk in the
    /// page of its number.
    pub fn new(num_splats: u32) -> (tree: Self)
        ensures
            tree.splats@.len() == 0,
            tree.page_to_chunk@.len() == ceil_div(num_splats as nat, 65536),
            tree.chunk_to_page@.len() == ceil_div(num_splats as nat, 65536),
            forall|i: int| 0 <= i < tree.page_to_chunk@.len() ==> tree.page_to_chunk@[i] == i,
            forall|i: int| 0 <= i < tree.chunk_to_page@.len() ==> tree.chunk_to_page@[i] == i,
    {
        let pages = pages_of(num_splats);
        let mut page_to_chunk: Vec<u32> = Vec::new();
        let mut chunk_to_page: Vec<u32> = Vec::new();
        let mut page: u32 = 0;
        while page < pages
            invariant
                page <= pages,
                page_to_chunk@.len() == page,
                chunk_to_page@.len() == page,
                forall|i: int| 0 <= i < page ==> page_to_chunk@[i] == i,
                forall|i: int| 0 <= i < page ==> chunk_to_page@[i] == i,
            decreases pages - page,
        {
            page_to_chunk.push(page);
            chunk_to_page.push(page);
            page += 1;
        }
        LodTree { splats: Vec::new(), page_to_chunk, chunk_to_page }
    }

    /// Reads `count` nodes from `words`, four words each, into the places
    /// from `base` on. Where the tree is too short it grows to twice its
    /// length, or to what is needed if that is more; new places hold empty
    /// leaves.
    pub fn set_data(&mut self, base: usize, count: usize, words: &[u32])
        requires
            base + count <= usize::MAX,
            2 * old(self).splats@.len() <= usize::MAX,
            words@.len() >= 4 * count,
        ensures
            final(self).page_to_chunk == old(self).page_to_chunk,
            final(self).chunk_to_page == old(self).chunk_to_page,
            data_set(*old(self), *final(self), base as int, count as int, words@),
            final(self).splats@.len() == (if base + count <= old(self).splats@.len() {
                old(self).splats@.len()
            } else if 2 * old(self).splats@.len() >= base + count {
                2 * old(self).splats@.len()
            } else {
                (base + count) as nat
            }),
            forall|i: int|
                0 <= i < count ==> node_fields(#[trigger] final(self).splats@[base + i]) == node_at(
                    words@,
                    i,
                ),
            forall|j: int|
                0 <= j < old(self).splats@.len() && !(base <= j < base + count) ==> final(self).splats@[j] == old(self).splats@[j],
            forall|j: int|
                old(self).splats@.len() <= j < final(self).splats@.len() && !(base <= j < base
                    + count) ==> is_empty_node(#[trigger] final(self).splats@[j]),
    {
        let len = self.splats.len();
        if base + count > len {
            let new_size = if len * 2 > base + count {
                len * 2
            } else {
                base + count
            };
            self.splats.resize(new_size, empty_node());
        }
        let given = words.len();
        let total = self.splats.len();
        let mut i: usize = 0;
        while i < count
            invariant
                i <= count,
                total == self.splats@.len(),
                given == words@.len(),
                given >= 4 * count,
                base + count <= self.splats@.len(),
                self.page_to_chunk == old(self).page_to_chunk,
                self.chunk_to_page == old(self).chunk_to_page,
                self.splats@.len() == (if base + count <= old(self).splats@.len() {
                    old(self).splats@.len()
                } else if 2 * old(self).splats@.len() >= base + count {
                    2 * old(self).splats@.len()
                } else {
                    (base + count) as nat
                }),
                forall|k: int|
                    0 <= k < i ==> node_fields(#[trigger] self.splats@[base + k]) == node_at(
                        words@,
                        k,
                    ),
                forall|j: int|
                    0 <= j < old(self).splats@.len() && !(base <= j < base + i) ==> self.splats@[j]
                        == old(self).splats@[j],
                forall|j: int|
                    old(self).splats@.len() <= j < self.splats@.len() && !(base <= j < base + i)
                        ==> is_empty_node(#[trigger] self.splats@[j]),
            decreases count - i,
        {
            let w = [words[4 * i], words[4 * i + 1], words[4 * i + 2], words[4 * i + 3]];
            let node = decode_lod_tree(&w);
            self.splats[base + i] = node;
            i += 1;
        }
    }

    /// Makes room for `pages` pages from `base_page` on and as many chunks
    /// from `base_chunk` on; new places stand for nothing.
    fn reserve_pages(&mut self, base_page: u32, base_chunk: u32, pages: u32)
        requires
            pages <= 65536,
            base_page < 65536,
            base_chunk < 65536,
        ensures
            final(self).splats == old(self).splats,
            final(self).page_to_chunk@.len() == (if base_page + pages > old(self).page_to_chunk@.len() {
                (base_page + pages) as nat
            } else {
                old(self).page_to_chunk@.len()
            }),
            final(self).chunk_to_page@.len() == (if base_chunk + pages > old(self).chunk_to_page@.len() {
                (base_chunk + pages) as nat
            } else {
                old(self).chunk_to_page@.len()
            }),
            forall|i: int|
                0 <= i < final(self).page_to_chunk@.len() ==> final(self).page_to_chunk@[i] == (if i
                    < old(self).page_to_chunk@.len() {
                    old(self).page_to_chunk@[i]
                } else {
                    0
                }),
            forall|i: int|
                0 <= i < final(self).chunk_to_page@.len() ==> final(self).chunk_to_page@[i] == (if i
                    < old(self).chunk_to_page@.len() {
                    old(self).chunk_to_page@[i]
                } else {
                    0
                }),
    {
        let page_end = (base_page + pages) as usize;
        let chunk_end = (base_chunk + pages) as usize;
        if page_end > self.page_to_chunk.len() {
            self.page_to_chunk.resize(page_end, 0u32);
        }
        if chunk_end > self.chunk_to_page.len() {
            self.chunk_to_page.resize(chunk_end, 0u32);
        }
    }

    /// Puts the chunks of `count` splats from the chunk of `chunk_base` on
    /// into the pages from the page of `page_base` on: page and chunk of the
    /// same place stand for each other. The mappings grow as needed.
    pub fn insert_pages(&mut self, page_base: u32, chunk_base: u32, count: u32)
        ensures
            final(self).splats == old(self).splats,
            pages_put(*old(self), *final(self), page_base, chunk_base, count),
            final(self).page_to_chunk@.len() >= old(self).page_to_chunk@.len(),
            final(self).chunk_to_page@.len() >= old(self).chunk_to_page@.len(),
            final(self).page_to_chunk@.len() >= page_base / 65536 + ceil_div(count as nat, 65536),
            final(self).chunk_to_page@.len() >= chunk_base / 65536 + ceil_div(count as nat, 65536),
            forall|i: int|
                0 <= i < final(self).page_to_chunk@.len() ==> #[trigger] final(self).page_to_chunk@[i]
                    == (if page_base / 65536 <= i < page_base / 65536 + ceil_div(
                    count as nat,
                    65536,
                ) {
                    (chunk_base / 65536 + (i - page_base / 65536)) as u32
                } else if i < old(self).page_to_chunk@.len() {
                    old(self).page_to_chunk@[i]
                } else {
                    0
                }),
            forall|i: int|
                0 <= i < final(self).chunk_to_page@.len() ==> #[trigger] final(self).chunk_to_page@[i]
                    == (if chunk_base / 65536 <= i < chunk_base / 65536 + ceil_div(
                    count as nat,
                    65536,
                ) {
                    (page_base / 65536 + (i - chunk_base / 65536)) as u32
                } else if i < old(self).chunk_to_page@.len() {
                    old(self).chunk_to_page@[i]
                } else {
                    0
                }),
    {
        let pages = pages_of(count);
        let base_page = page_base / CHUNK_SPLATS;
        let base_chunk = chunk_base / CHUNK_SPLATS;
        self.reserve_pages(base_page, base_chunk, pages);
        let ghost p2c = self.page_to_chunk@;
        let ghost c2p = self.chunk_to_page@;
        let mut page: u32 = 0;
        while page < pages
            invariant
                page <= pages <= 65536,
                base_page < 65536,
                base_chunk < 65536,
                self.splats == old(self).splats,
                self.page_to_chunk@.len() == p2c.len(),
                self.chunk_to_page@.len() == c2p.len(),
                base_page + pages <= p2c.len(),
                base_chunk + pages <= c2p.len(),
                forall|i: int|
                    0 <= i < p2c.len() ==> #[trigger] self.page_to_chunk@[i] == (if base_page <= i
                        < base_page + page {
                        (base_chunk + (i - base_page)) as u32
                    } else {
                        p2c[i]
                    }),
                forall|i: int|
                    0 <= i < c2p.len() ==> #[trigger] self.chunk_to_page@[i] == (if base_chunk <= i
                        < base_chunk + page {
                        (base_page + (i - base_chunk)) as u32
                    } else {
                        c2p[i]
                    }),
            decreases pages - page,
        {
            self.page_to_chunk[(base_page + page) as usize] = base_chunk + page;
            self.chunk_to_page[(base_chunk + page) as usize] = base_page + page;
            page += 1;
        }
    }

    /// Takes the chunks of `count` splats from the chunk of `chunk_base` on
    /// out of the pages from the page of `page_base` on: the places stand
    /// for nothing. Places that the mappings do not have are passed over.
    pub fn clear_pages(&mut self, page_base: u32, chunk_base: u32, count: u32)
        ensures
            final(self).splats == old(self).splats,
            pages_cleared(*old(self), *final(self), page_base, chunk_base, count),
            final(self).page_to_chunk@.len() == old(self).page_to_chunk@.len(),
            final(self).chunk_to_page@.len() == old(self).chunk_to_page@.len(),
            forall|i: int|
                0 <= i < final(self).page_to_chunk@.len() ==> #[trigger] final(self).page_to_chunk@[i]
                    == (if page_base / 65536 <= i < page_base / 65536 + ceil_div(
                    count as nat,
                    65536,
                ) {
                    0
                } else {
                    old(self).page_to_chunk@[i]
                }),
            forall|i: int|
                0 <= i < final(self).chunk_to_page@.len() ==> #[trigger] final(self).chunk_to_page@[i]
                    == (if chunk_base / 65536 <= i < chunk_base / 65536 + ceil_div(
                    count as nat,
                    65536,
                ) {
                    0
                } else {
                    old(self).chunk_to_page@[i]
                }),
    {
        let pages = pages_of(count);
        let base_page = page_base / CHUNK_SPLATS;
        let base_chunk = chunk_base / CHUNK_SPLATS;
        let plen = self.page_to_chunk.len();
        let clen = self.chunk_to_page.len();
        let mut page: u32 = 0;
        while page < pages
            invariant
                page <= pages <= 65536,
                base_page < 65536,
                base_chunk < 65536,
                self.splats == old(self).splats,
                plen == old(self).page_to_chunk@.len(),
                clen == old(self).chunk_to_page@.len(),
                self.page_to_chunk@.len() == plen,
                self.chunk_to_page@.len() == clen,
                forall|i: int|
                    0 <= i < plen ==> #[trigger] self.page_to_chunk@[i] == (if base_page <= i
                        < base_page + page {
                        0
                    } else {
                        old(self).page_to_chunk@[i]
                    }),
                forall|i: int|
                    0 <= i < clen ==> #[trigger] self.chunk_to_page@[i] == (if base_chunk <= i
                        < base_chunk + page {
                        0
                    } else {
                        old(self).chunk_to_page@[i]
                    }),
            decreases pages - page,
        {
            let p = (base_page + page) as usize;
            if p < plen {
                self.page_to_chunk[p] = 0;
            }
            let c = (base_chunk + page) as usize;
            if c < clen {
                self.chunk_to_page[c] = 0;
            }
            page += 1;
        }
    }

    /// Whether the chunk of a splat is in a page: chunk 0 always is; another
    /// chunk is if the mapping has it and gives it a page.
    pub open spec fn resident(&self, index: u32) -> bool {
        let chunk = index / 65536;
        chunk == 0 || (chunk < self.chunk_to_page@.len() && self.chunk_to_page@[chunk as int] != 0)
    }

    /// Whether the chunk of a splat is in a page.
    pub fn is_resident(&self, index: u32) -> (r: bool)
        ensures
            r == self.resident(index),
    {
        let chunk = (index / CHUNK_SPLATS) as usize;
        if chunk != 0 {
            if chunk >= self.chunk_to_page.len() {
                return false;
            } else if self.chunk_to_page[chunk] == 0 {
                return false;
            }
        }
        true
    }

    /// Whether the chunks of the first and the last child of a node are in
    /// pages.
    pub fn children_resident(&self, child_count: u16, child_start: u32) -> (r: bool)
        requires
            child_count >= 1,
            child_start + child_count - 1 <= u32::MAX,
        ensures
            r == (self.resident(child_start) && self.resident(
                (child_start + child_count - 1) as u32,
            )),
    {
        self.is_resident(child_start) && self.is_resident(child_start + (child_count as u32 - 1))
    }
}

/// The hasher state of the registry's map.
#[verifier::external_type_specification]
#[verifier::external_body]
pub struct ExRandomState(ahash::RandomState);

/// The map of the registry.
#[verifier::external_type_specification]
#[verifier::external_body]
#[verifier::reject_recursive_types(K)]
#[verifier::reject_recursive_types(V)]
#[verifier::reject_recursive_types(S)]
pub struct ExAHashMap<K, V, S>(ahash::AHashMap<K, V, S>);

/// The map of a registry: trees by their ids.
pub type TreeMap = ahash::AHashMap<u32, LodTree>;

/// The trees that a registry map holds, by their ids.
pub uninterp spec fn tree_map(m: TreeMap) -> Map<u32, LodTree>;

/// `ahash::AHashMap::with_capacity`: a map that holds nothing, with room
/// for `capacity` entries.
#[verifier::external_body]
fn registry_with_capacity(capacity: usize) -> (registry: TreeMap)
    ensures
        forall|id: u32| !tree_map(registry).dom().contains(id),
{
    ahash::AHashMap::with_capacity(capacity)
}

/// `ahash::AHashMap::insert`: the map holds the tree under the id, in
/// place of what it held under it; all else stays.
#[verifier::external_body]
fn registry_insert(m: &mut TreeMap, id: u32, tree: LodTree)
    ensures
        tree_map(*final(m)) == tree_map(*old(m)).insert(id, tree),
{
    m.insert(id, tree);
}

/// `ahash::AHashMap::remove`: the map no longer holds the id; returned is
/// what it held under it, if anything.
#[verifier::external_body]
fn registry_remove(m: &mut TreeMap, id: u32) -> (r: Option<LodTree>)
    ensures
        tree_map(*final(m)) == tree_map(*old(m)).remove(id),
        r == (if tree_map(*old(m)).dom().contains(id) {
            Some(tree_map(*old(m))[id])
        } else {
            None
        }),
{
    m.remove(&id)
}

/// `ahash::AHashMap::get`: what the map holds under the id, if anything.
#[verifier::external_body]
fn registry_get(m: &TreeMap, id: u32) -> (r: Option<&LodTree>)
    ensures
        r == (if tree_map(*m).dom().contains(id) {
            Some(&tree_map(*m)[id])
        } else {
            None
        }),
{
    m.get(&id)
}

/// `<[u32]>::sort_unstable` of std: the numbers in rising order, none lost
/// or added.
#[verifier::external_body]
fn sort_indices(v: &mut Vec<u32>)
    ensures
        final(v)@.len() == old(v)@.len(),
        final(v)@.to_multiset() == old(v)@.to_multiset(),
        forall|i: int, j: int| 0 <= i <= j < final(v)@.len() ==> final(v)@[i] <= final(v)@[j],
{
    v.sort_unstable();
}

/// The loaded trees of a process, by their ids.
pub struct LodState {
    next_id: u32,
    lod_trees: TreeMap,
}

/// Why a call on the registry fails.
#[derive(Debug, Clone, Copy, PartialEq, Eq, Structural)]
pub enum LodTreeError {
    /// No tree has the id.
    UnknownTree(u32),
    /// A tree names a node or a chunk that it does not have, or a node is
    /// reached twice.
    CorruptTree(u32),
    /// The node records are fewer than the nodes.
    ShortData,
    /// All ids are given out.
    NoFreeId,
    /// The lists of a call differ in length.
    LengthMismatch,
    /// The tree cannot grow any more.
    TooManySplats,
}

impl LodState {
    /// The trees, by their ids.
    pub closed spec fn trees(&self) -> Map<u32, LodTree> {
        tree_map(self.lod_trees)
    }

    /// The id that the next tree gets.
    pub closed spec fn next_id(&self) -> u32 {
        self.next_id
    }

    /// A registry without trees. The first tree gets the id 1000.
    pub fn new() -> (s: Self)
        ensures
            s.trees() == Map::<u32, LodTree>::empty(),
            s.next_id() == 1000,
    {
        let s = LodState { next_id: FIRST_LOD_ID, lod_trees: registry_with_capacity(0) };
        assert(s.trees() =~= Map::<u32, LodTree>::empty());
        s
    }

    /// Whether a tree has the id.
    pub fn has_tree(&self, lod_id: u32) -> (r: bool)
        ensures
            r == self.trees().dom().contains(lod_id),
    {
        registry_get(&self.lod_trees, lod_id).is_some()
    }

    /// How a chunk of a tree is paged: the page of the chunk, 0 where it
    /// has none; `None` for an unknown tree or chunk.
    pub fn page_of_chunk(&self, lod_id: u32, chunk: usize) -> (r: Option<u32>)
        ensures
            r == (if self.trees().dom().contains(lod_id) && chunk
                < self.trees()[lod_id].chunk_to_page@.len() {
                Some(self.trees()[lod_id].chunk_to_page@[chunk as int])
            } else {
                None
            }),
    {
        match registry_get(&self.lod_trees, lod_id) {
            None => None,
            Some(tree) => if chunk < tree.chunk_to_page.len() {
                Some(tree.chunk_to_page[chunk])
            } else {
                None
            },
        }
    }

    /// The node at a place in the pages of a tree; `None` for an unknown
    /// tree or a place behind its pages.
    pub fn node(&self, lod_id: u32, index: u32) -> (r: Option<LodNode>)
        ensures
            r.is_some() <==> self.trees().dom().contains(lod_id) && index
                < self.trees()[lod_id].splats@.len(),
            r matches Some(n) ==> node_fields(n) == node_fields(
                self.trees()[lod_id].splats@[index as int],
            ),
    {
        match registry_get(&self.lod_trees, lod_id) {
            None => None,
            Some(tree) => if (index as usize) < tree.splats.len() {
                Some(tree.splats[index as usize])
            } else {
                None
            },
        }
    }

    /// Loads a tree of `num_splats` nodes from their records, every chunk in
    /// the page of its number, and gives it the next id. Returned are the
    /// id and the page of every chunk.
    pub fn init_lod_tree(&mut self, num_splats: u32, words: &[u32]) -> (r: Result<
        (u32, Vec<u32>),
        LodTreeError,
    >)
        ensures
            r is Ok <==> old(self).next_id() < u32::MAX && words@.len() >= 4 * num_splats,
            r == Err::<(u32, Vec<u32>), LodTreeError>(LodTreeError::NoFreeId) <==> old(self).next_id() == u32::MAX,
            r == Err::<(u32, Vec<u32>), LodTreeError>(LodTreeError::ShortData) <==> old(self).next_id() < u32::MAX && words@.len() < 4 * num_splats,
            r.is_err() ==> final(self).trees() == old(self).trees() && final(self).next_id() == old(self).next_id(),
            r matches Ok((id, pages)) ==> {
                &&& id == old(self).next_id()
                &&& final(self).next_id() == id + 1
                &&& final(self).trees().dom() == old(self).trees().dom().insert(id)
                &&& forall|other: u32|
                    other != id && old(self).trees().dom().contains(other) ==> final(self).trees()[other] == old(self).trees()[other]
                &&& final(self).trees()[id].splats@.len() == num_splats
                &&& forall|i: int|
                    0 <= i < num_splats ==> node_fields(
                        #[trigger] final(self).trees()[id].splats@[i],
                    ) == node_at(words@, i)
                &&& pages@ == final(self).trees()[id].chunk_to_page@
                &&& pages@.len() == ceil_div(num_splats as nat, 65536)
                &&& forall|c: int| 0 <= c < pages@.len() ==> pages@[c] == c
                &&& final(self).trees()[id].page_to_chunk@.len() == ceil_div(num_splats as nat, 65536)
                &&& forall|p: int|
                    0 <= p < final(self).trees()[id].page_to_chunk@.len() ==> final(self).trees()[id].page_to_chunk@[p]
                        == p
            },
    {
        if self.next_id == u32::MAX {
            return Err(LodTreeError::NoFreeId);
        }
        if words.len() / 4 < num_splats as usize {
            return Err(LodTreeError::ShortData);
        }
        let lod_id = self.next_id;
        let mut tree = LodTree::new(num_splats);
        tree.set_data(0, num_splats as usize, words);
        let mut pages: Vec<u32> = Vec::new();
        let mut c: usize = 0;
        while c < tree.chunk_to_page.len()
            invariant
                c <= tree.chunk_to_page@.len(),
                pages@ == tree.chunk_to_page@.subrange(0, c as int),
            decreases tree.chunk_to_page@.len() - c,
        {
            pages.push(tree.chunk_to_page[c]);
            assert(pages@ =~= tree.chunk_to_page@.subrange(0, c + 1));
            c += 1;
        }
        assert(pages@ =~= tree.chunk_to_page@);
        assert(tree.splats@.len() == num_splats);
        assert forall|i: int| 0 <= i < num_splats implies node_fields(#[trigger] tree.splats@[i])
            == node_at(words@, i) by {
            assert(node_fields(tree.splats@[0 + i]) == node_at(words@, i));
        }
        assert(forall|c: int| 0 <= c < pages@.len() ==> pages@[c] == c);
        assert(pages@.len() == ceil_div(num_splats as nat, 65536));
        registry_insert(&mut self.lod_trees, lod_id, tree);
        self.next_id = lod_id + 1;
        assert(self.trees().dom() =~= old(self).trees().dom().insert(lod_id));
        assert(self.trees()[lod_id] == tree);
        Ok((lod_id, pages))
    }

    /// Drops the tree of the id, if there is one.
    pub fn dispose_lod_tree(&mut self, lod_id: u32)
        ensures
            final(self).trees() == old(self).trees().remove(lod_id),
            final(self).next_id() == old(self).next_id(),
    {
        let _ = registry_remove(&mut self.lod_trees, lod_id);
    }

    /// Puts chunks of a tree into pages and reads their nodes; a tree that
    /// is not there yet is made. Returned is the page of every chunk.
    pub fn insert_lod_tree(
        &mut self,
        lod_id: u32,
        page_base: u32,
        chunk_base: u32,
        count: u32,
        words: &[u32],
    ) -> (r: Result<Vec<u32>, LodTreeError>)
        ensures
            final(self).next_id() == old(self).next_id(),
            r.is_err() ==> final(self).trees() == old(self).trees(),
            match insert_error(old(self).trees(), lod_id, page_base, count, words@) {
                Some(e) => r == Err::<Vec<u32>, LodTreeError>(e),
                None => r is Ok && tree_inserted(
                    old(self).trees(),
                    final(self).trees(),
                    lod_id,
                    page_base,
                    chunk_base,
                    count,
                    words@,
                ),
            },
            r matches Ok(pages) ==> {
                &&& final(self).trees().dom() == old(self).trees().dom().insert(lod_id)
                &&& forall|other: u32|
                    other != lod_id && old(self).trees().dom().contains(other) ==> final(self).trees()[other] == old(self).trees()[other]
                &&& pages@ == final(self).trees()[lod_id].chunk_to_page@
                &&& pages@.len() >= chunk_base / 65536 + ceil_div(count as nat, 65536)
                &&& forall|c: int|
                    chunk_base / 65536 <= c < chunk_base / 65536 + ceil_div(count as nat, 65536)
                        ==> #[trigger] pages@[c] == page_base / 65536 + (c - chunk_base / 65536)
                &&& forall|i: int|
                    0 <= i < count ==> node_fields(
                        #[trigger] final(self).trees()[lod_id].splats@[page_base + i],
                    ) == node_at(words@, i)
            },
    {
        if words.len() / 4 < count as usize || page_base as usize > usize::MAX - count as usize {
            return Err(LodTreeError::ShortData);
        }
        let mut tree = match registry_remove(&mut self.lod_trees, lod_id) {
            Some(tree) => tree,
            None => LodTree::new(0),
        };
        let len = tree.splats.len();
        if len > usize::MAX / 2 {
            registry_insert(&mut self.lod_trees, lod_id, tree);
            proof {
                assert(tree_map(self.lod_trees) =~= old(self).trees()) by {
                    assert(old(self).trees().dom().contains(lod_id));
                }
            }
            return Err(LodTreeError::TooManySplats);
        }
        let ghost start = tree;
        tree.insert_pages(page_base, chunk_base, count);
        let ghost paged = tree;
        tree.set_data(page_base as usize, count as usize, words);
        proof {
            assert(pages_put(start, tree, page_base, chunk_base, count));
            assert(data_set(start, tree, page_base as int, count as int, words@));
        }
        let mut pages: Vec<u32> = Vec::new();
        let mut c: usize = 0;
        while c < tree.chunk_to_page.len()
            invariant
                c <= tree.chunk_to_page@.len(),
                pages@ == tree.chunk_to_page@.subrange(0, c as int),
            decreases tree.chunk_to_page@.len() - c,
        {
            pages.push(tree.chunk_to_page[c]);
            assert(pages@ =~= tree.chunk_to_page@.subrange(0, c + 1));
            c += 1;
        }
        assert(pages@ =~= tree.chunk_to_page@);
        registry_insert(&mut self.lod_trees, lod_id, tree);
        assert(final(self).trees().dom() =~= old(self).trees().dom().insert(lod_id));
        proof {
            assert(self.trees()[lod_id] == tree);
            assert(pages_put(start, self.trees()[lod_id], page_base, chunk_base, count));
            assert(data_set(start, self.trees()[lod_id], page_base as int, count as int, words@));
        }
        Ok(pages)
    }

    /// Takes chunks of a tree out of their pages; a tree that is not there
    /// yet is made. Returned is the page of every chunk.
    pub fn clear_lod_tree(&mut self, lod_id: u32, page_base: u32, chunk_base: u32, count: u32) -> (pages:
        Vec<u32>)
        ensures
            final(self).next_id() == old(self).next_id(),
            final(self).trees().dom() == old(self).trees().dom().insert(lod_id),
            forall|other: u32|
                other != lod_id && old(self).trees().dom().contains(other) ==> final(self).trees()[other]
                    == old(self).trees()[other],
            pages@ == final(self).trees()[lod_id].chunk_to_page@,
            tree_cleared(
                old(self).trees(),
                final(self).trees(),
                lod_id,
                page_base,
                chunk_base,
                count,
            ),
            forall|c: int|
                chunk_base / 65536 <= c < chunk_base / 65536 + ceil_div(count as nat, 65536) && c
                    < pages@.len() ==> #[trigger] pages@[c] == 0,
    {
        let mut tree = match registry_remove(&mut self.lod_trees, lod_id) {
            Some(tree) => tree,
            None => LodTree::new(0),
        };
        let ghost start = tree;
        tree.clear_pages(page_base, chunk_base, count);
        assert(pages_cleared(start, tree, page_base, chunk_base, count));
        let mut pages: Vec<u32> = Vec::new();
        let mut c: usize = 0;
        while c < tree.chunk_to_page.len()
            invariant
                c <= tree.chunk_to_page@.len(),
                pages@ == tree.chunk_to_page@.subrange(0, c as int),
            decreases tree.chunk_to_page@.len() - c,
        {
            pages.push(tree.chunk_to_page[c]);
            assert(pages@ =~= tree.chunk_to_page@.subrange(0, c + 1));
            c += 1;
        }
        assert(pages@ =~= tree.chunk_to_page@);
        registry_insert(&mut self.lod_trees, lod_id, tree);
        assert(final(self).trees().dom() =~= old(self).trees().dom().insert(lod_id));
        proof {
            assert(self.trees()[lod_id] == tree);
            assert(pages_cleared(start, self.trees()[lod_id], page_base, chunk_base, count));
        }
        pages
    }
}

/// A node that waits to be looked at: its pixel scale, its instance and
/// its paged index.
pub type FrontierEntry = (u32, u32, u32);

/// The order in which nodes are looked at: by pixel scale, then by
/// instance, then by paged index.
pub open spec fn entry_le(a: FrontierEntry, b: FrontierEntry) -> bool {
    a.0 < b.0 || (a.0 == b.0 && (a.1 < b.1 || (a.1 == b.1 && a.2 <= b.2)))
}

fn entry_le_exec(a: &FrontierEntry, b: &FrontierEntry) -> (r: bool)
    ensures
        r == entry_le(*a, *b),
{
    a.0 < b.0 || (a.0 == b.0 && (a.1 < b.1 || (a.1 == b.1 && a.2 <= b.2)))
}

/// The place of the node that is looked at next: the last in the order.
pub fn max_index(frontier: &Vec<FrontierEntry>) -> (at: usize)
    requires
        frontier@.len() > 0,
    ensures
        at < frontier@.len(),
        at == top_at(frontier@, frontier@.len() as int),
        forall|i: int| 0 <= i < frontier@.len() ==> entry_le(frontier@[i], frontier@[at as int]),
{
    let mut at: usize = 0;
    let mut i: usize = 1;
    while i < frontier.len()
        invariant
            1 <= i <= frontier@.len(),
            at < i,
            at == top_at(frontier@, i as int),
            forall|k: int| 0 <= k < i ==> entry_le(frontier@[k], frontier@[at as int]),
        decreases frontier@.len() - i,
    {
        if !entry_le_exec(&frontier[i], &frontier[at]) {
            at = i;
        }
        i += 1;
    }
    at
}

/// What a traversal gives out for an instance.
pub struct TraverseOutput {
    /// The id of the tree.
    pub lod_id: u32,
    /// Number of nodes that are shown.
    pub num_splats: usize,
    /// The paged indices of the nodes that are shown, rising, then zeros up
    /// to a multiple of 16 384.
    pub indices: Vec<u32>,
}

/// What a traversal gives out.
pub struct TraverseResult {
    /// For every instance its nodes.
    pub instances: Vec<TraverseOutput>,
    /// The chunks that were looked at, each with the id of its tree, in the
    /// order in which they were first looked at.
    pub chunks: Vec<(u32, u32)>,
}

/// The number of indices in the first `k` lists.
pub open spec fn total_len(outs: Seq<Vec<u32>>, k: int) -> nat
    decreases k,
{
    if k <= 0 {
        0
    } else {
        total_len(outs, k - 1) + outs[k - 1]@.len()
    }
}

proof fn lemma_total_len_push(a: Seq<Vec<u32>>, b: Seq<Vec<u32>>, at: int, k: int)
    requires
        0 <= at < a.len(),
        a.len() == b.len(),
        0 <= k <= a.len(),
        forall|i: int| 0 <= i < a.len() && i != at ==> a[i] == b[i],
        b[at]@.len() == a[at]@.len() + 1,
    ensures
        total_len(b, k) == total_len(a, k) + (if at < k {
            1nat
        } else {
            0nat
        }),
    decreases k,
{
    if k > 0 {
        lemma_total_len_push(a, b, at, k - 1);
    }
}

proof fn lemma_total_len_zero(a: Seq<Vec<u32>>, k: int)
    requires
        0 <= k <= a.len(),
        forall|i: int| 0 <= i < a.len() ==> (#[trigger] a[i])@.len() == 0,
    ensures
        total_len(a, k) == 0,
    decreases k,
{
    if k > 0 {
        lemma_total_len_zero(a, k - 1);
    }
}

/// The place of the node that is looked at next among the first `k` that
/// wait: the last in the order; of equal ones the first.
pub open spec fn top_at(waiting: Seq<FrontierEntry>, k: int) -> int
    decreases k,
{
    if k <= 1 {
        0
    } else {
        let at = top_at(waiting, k - 1);
        if entry_le(waiting[k - 1], waiting[at]) {
            at
        } else {
            k - 1
        }
    }
}

/// The chunks that were looked at, after the chunk of a splat of a tree is
/// looked at: it joins them if it is new.
pub open spec fn touch(chunks: Seq<(u32, u32)>, lod_id: u32, splat_index: u32) -> Seq<(u32, u32)> {
    let c = (lod_id, (splat_index / 65536) as u32);
    if chunks.contains(c) {
        chunks
    } else {
        chunks.push(c)
    }
}

/// A list of lists with `v` added to list `i`.
pub open spec fn add_to(lists: Seq<Seq<u32>>, i: int, v: u32) -> Seq<Seq<u32>> {
    lists.update(i, lists[i].push(v))
}

/// A list without entry `at`: the last entry takes its place.
pub open spec fn without(waiting: Seq<FrontierEntry>, at: int) -> Seq<FrontierEntry> {
    waiting.update(at, waiting.last()).drop_last()
}

/// Where a traversal stands.
pub struct Walk {
    /// The nodes that wait to be looked at: pixel scale, instance, paged
    /// index.
    pub waiting: Seq<FrontierEntry>,
    /// For every instance the nodes that are shown.
    pub shown: Seq<Seq<u32>>,
    /// The chunks that were looked at, in the order in which they were
    /// first looked at.
    pub chunks: Seq<(u32, u32)>,
    /// How many nodes wait or are shown.
    pub count: nat,
}

/// What a traversal works on: the trees, the instances, the measure and
/// the limits.
pub struct Scene {
    pub trees: Map<u32, LodTree>,
    pub lod_ids: Seq<u32>,
    pub key: spec_fn(usize, u32) -> u32,
    pub limit: u32,
    pub max_splats: nat,
}

impl Scene {
    /// The tree of an instance.
    pub open spec fn tree(&self, inst: int) -> LodTree {
        self.trees[self.lod_ids[inst]]
    }
}

/// The walk with the roots of the first `k` instances waiting. A tree
/// without nodes is corrupt.
pub open spec fn walk_seed(sc: Scene, k: int) -> Result<Walk, LodTreeError>
    decreases k,
{
    if k <= 0 {
        Ok(
            Walk {
                waiting: Seq::empty(),
                shown: Seq::new(sc.lod_ids.len(), |i: int| Seq::<u32>::empty()),
                chunks: Seq::empty(),
                count: 0,
            },
        )
    } else {
        match walk_seed(sc, k - 1) {
            Err(e) => Err(e),
            Ok(w) => if sc.tree(k - 1).splats@.len() == 0 {
                Err(LodTreeError::CorruptTree(sc.lod_ids[k - 1]))
            } else {
                Ok(
                    Walk {
                        waiting: w.waiting.push(((sc.key)((k - 1) as usize, 0u32), (k - 1) as u32, 0u32)),
                        shown: w.shown,
                        chunks: touch(w.chunks, sc.lod_ids[k - 1], 0),
                        count: w.count + 1,
                    },
                )
            },
        }
    }
}

/// The walk after the first `c` children of a node of an instance took the
/// place of the node: a child is found through the page of its chunk; it
/// is shown if it is no larger than the limit, else it waits. A child
/// whose chunk, page or place the tree does not have makes the tree
/// corrupt.
pub open spec fn walk_children(sc: Scene, w: Walk, inst: int, node: LodNode, c: int) -> Result<
    Walk,
    LodTreeError,
>
    decreases c,
{
    if c <= 0 {
        Ok(w)
    } else {
        match walk_children(sc, w, inst, node, c - 1) {
            Err(e) => Err(e),
            Ok(w1) => {
                let tree = sc.tree(inst);
                let child_index = node.child_start + (c - 1);
                let chunk = child_index / 65536;
                if chunk >= tree.chunk_to_page@.len() || tree.chunk_to_page@[chunk] >= 65536 {
                    Err(LodTreeError::CorruptTree(sc.lod_ids[inst]))
                } else {
                    let paged = tree.chunk_to_page@[chunk] * 65536 + child_index % 65536;
                    if paged >= tree.splats@.len() {
                        Err(LodTreeError::CorruptTree(sc.lod_ids[inst]))
                    } else {
                        let scale = (sc.key)(inst as usize, paged as u32);
                        if scale <= sc.limit {
                            Ok(Walk { shown: add_to(w1.shown, inst, paged as u32), ..w1 })
                        } else {
                            Ok(
                                Walk {
                                    waiting: w1.waiting.push((scale, inst as u32, paged as u32)),
                                    ..w1
                                },
                            )
                        }
                    }
                }
            },
        }
    }
}

/// What looking at the next node does to a walk.
pub enum WalkStep {
    /// The traversal ends here.
    Stop,
    /// The tree of that id is corrupt.
    Corrupt(u32),
    /// The traversal goes on from this walk.
    Go(Walk),
}

/// Looks at the node that waits with the largest pixel scale.
///
/// The traversal ends if the node is no larger than the limit. A leaf is
/// shown. The traversal ends if the children in the place of their parent
/// would make more nodes than the budget allows. Else the chunks of the
/// first and of the last child are looked at; where one of the two is in
/// no page the node is shown itself, else its children take its place.
pub open spec fn walk_step(sc: Scene, w: Walk) -> WalkStep {
    let at = top_at(w.waiting, w.waiting.len() as int);
    let (scale, inst, paged) = w.waiting[at];
    let tree = sc.tree(inst as int);
    let node = tree.splats@[paged as int];
    let id = sc.lod_ids[inst as int];
    if scale <= sc.limit {
        WalkStep::Stop
    } else if node.child_count == 0 {
        WalkStep::Go(
            Walk { waiting: without(w.waiting, at), shown: add_to(w.shown, inst as int, paged), ..w },
        )
    } else if w.count + node.child_count - 1 > sc.max_splats {
        WalkStep::Stop
    } else if node.child_start + node.child_count - 1 > u32::MAX {
        WalkStep::Corrupt(id)
    } else {
        let last = (node.child_start + node.child_count - 1) as u32;
        let chunks = touch(touch(w.chunks, id, node.child_start), id, last);
        if !(tree.resident(node.child_start) && tree.resident(last)) {
            WalkStep::Go(
                Walk {
                    waiting: without(w.waiting, at),
                    shown: add_to(w.shown, inst as int, paged),
                    chunks,
                    count: w.count,
                },
            )
        } else {
            let start = Walk { waiting: without(w.waiting, at), shown: w.shown, chunks, count: w.count };
            match walk_children(sc, start, inst as int, node, node.child_count as int) {
                Err(LodTreeError::CorruptTree(bad)) => WalkStep::Corrupt(bad),
                Err(_) => WalkStep::Corrupt(id),
                Ok(w2) => WalkStep::Go(
                    Walk { count: (w.count + node.child_count - 1) as nat, ..w2 },
                ),
            }
        }
    }
}

/// The walk when the traversal ends, if nodes are looked at `fuel` times
/// at most; a walk that asks for more is one of a corrupt tree.
pub open spec fn walk_run(sc: Scene, w: Walk, fuel: nat) -> Result<Walk, LodTreeError>
    decreases fuel,
{
    if w.waiting.len() == 0 {
        Ok(w)
    } else {
        let top = w.waiting[top_at(w.waiting, w.waiting.len() as int)];
        if top.0 <= sc.limit {
            Ok(w)
        } else if fuel == 0 {
            Err(LodTreeError::CorruptTree(sc.lod_ids[top.1 as int]))
        } else {
            match walk_step(sc, w) {
                WalkStep::Stop => Ok(w),
                WalkStep::Corrupt(id) => Err(LodTreeError::CorruptTree(id)),
                WalkStep::Go(next) => walk_run(sc, next, (fuel - 1) as nat),
            }
        }
    }
}

/// The walk after the first `k` of the nodes that still wait are shown:
/// each is shown, and its chunk, found through its page, is looked at.
pub open spec fn walk_drain(sc: Scene, w: Walk, k: int) -> Result<Walk, LodTreeError>
    decreases k,
{
    if k <= 0 {
        Ok(w)
    } else {
        match walk_drain(sc, w, k - 1) {
            Err(e) => Err(e),
            Ok(w1) => {
                let (scale, inst, paged) = w.waiting[k - 1];
                let tree = sc.tree(inst as int);
                let page = paged / 65536;
                if page >= tree.page_to_chunk@.len() || tree.page_to_chunk@[page as int] >= 65536 {
                    Err(LodTreeError::CorruptTree(sc.lod_ids[inst as int]))
                } else {
                    let splat_index = tree.page_to_chunk@[page as int] * 65536 + paged % 65536;
                    Ok(
                        Walk {
                            shown: add_to(w1.shown, inst as int, paged),
                            chunks: touch(w1.chunks, sc.lod_ids[inst as int], splat_index as u32),
                            ..w1
                        },
                    )
                }
            },
        }
    }
}

/// The nodes of the trees of the first `k` instances together, as far as
/// 64 bits count.
pub open spec fn walk_fuel(sc: Scene, k: int) -> nat
    decreases k,
{
    if k <= 0 {
        0
    } else {
        let sum = walk_fuel(sc, k - 1) + sc.tree(k - 1).splats@.len();
        if sum > u64::MAX {
            u64::MAX as nat
        } else {
            sum
        }
    }
}

/// The first instance among the first `k` whose tree is not loaded.
pub open spec fn first_unknown(sc: Scene, k: int) -> Option<u32>
    decreases k,
{
    if k <= 0 {
        None
    } else {
        match first_unknown(sc, k - 1) {
            Some(id) => Some(id),
            None => if sc.trees.dom().contains(sc.lod_ids[k - 1]) {
                None
            } else {
                Some(sc.lod_ids[k - 1])
            },
        }
    }
}

/// The walk of a whole traversal: the roots wait, nodes are looked at
/// until the traversal ends, and the nodes that still wait are shown.
pub open spec fn walk_of(sc: Scene) -> Result<Walk, LodTreeError> {
    let n = sc.lod_ids.len() as int;
    if n > u32::MAX {
        Err(LodTreeError::LengthMismatch)
    } else {
        match first_unknown(sc, n) {
            Some(id) => Err(LodTreeError::UnknownTree(id)),
            None => match walk_seed(sc, n) {
                Err(e) => Err(e),
                Ok(w) => match walk_run(sc, w, walk_fuel(sc, n)) {
                    Err(e) => Err(e),
                    Ok(w1) => walk_drain(sc, w1, w1.waiting.len() as int),
                },
            },
        }
    }
}

/// The budget stops the traversal at a root: where the one instance has a
/// root that is larger than the limit and has more children than the
/// budget allows, the walk shows the root and nothing else, and looks at
/// the chunk of the root alone.
pub proof fn lemma_budget_stop(sc: Scene)
    requires
        sc.lod_ids.len() == 1,
        sc.trees.dom().contains(sc.lod_ids[0]),
        sc.tree(0).splats@.len() >= 1,
        sc.tree(0).page_to_chunk@.len() >= 1,
        sc.tree(0).page_to_chunk@[0] == 0,
        (sc.key)(0usize, 0u32) > sc.limit,
        sc.tree(0).splats@[0].child_count > sc.max_splats,
    ensures
        walk_of(sc) == Ok::<Walk, LodTreeError>(
            Walk {
                waiting: seq![((sc.key)(0usize, 0u32), 0u32, 0u32)],
                shown: seq![seq![0u32]],
                chunks: seq![(sc.lod_ids[0], 0u32)],
                count: 1,
            },
        ),
{
    let id = sc.lod_ids[0];
    let entry = ((sc.key)(0usize, 0u32), 0u32, 0u32);
    let none: Seq<(u32, u32)> = Seq::empty();
    reveal_with_fuel(first_unknown, 2);
    reveal_with_fuel(walk_seed, 2);
    reveal_with_fuel(walk_fuel, 2);
    reveal_with_fuel(walk_drain, 2);
    assert(first_unknown(sc, 1).is_none());
    let empty = Walk {
        waiting: Seq::empty(),
        shown: Seq::new(1, |i: int| Seq::<u32>::empty()),
        chunks: none,
        count: 0,
    };
    assert(walk_seed(sc, 0) == Ok::<Walk, LodTreeError>(empty));
    assert(!none.contains((id, 0u32)));
    assert(touch(none, id, 0) == none.push((id, 0u32)));
    let seeded = Walk {
        waiting: empty.waiting.push(entry),
        shown: empty.shown,
        chunks: none.push((id, 0u32)),
        count: 1,
    };
    assert(walk_seed(sc, 1) == Ok::<Walk, LodTreeError>(seeded));
    assert(seeded.waiting.len() == 1);
    assert(top_at(seeded.waiting, 1) == 0);
    assert(seeded.waiting[0] == entry);
    assert(walk_fuel(sc, 1) >= 1);
    assert(walk_step(sc, seeded) == WalkStep::Stop);
    assert(walk_run(sc, seeded, walk_fuel(sc, 1)) == Ok::<Walk, LodTreeError>(seeded));
    assert(walk_drain(sc, seeded, 0) == Ok::<Walk, LodTreeError>(seeded));
    assert(seeded.chunks[0] == (id, 0u32));
    assert(seeded.chunks.contains((id, 0u32)));
    assert(touch(seeded.chunks, id, 0) == seeded.chunks);
    let last = Walk { shown: add_to(seeded.shown, 0, 0u32), chunks: seeded.chunks, ..seeded };
    assert(walk_drain(sc, seeded, 1) == Ok::<Walk, LodTreeError>(last));
    assert(last.waiting =~= seq![entry]);
    assert(last.shown =~= seq![seq![0u32]]);
    assert(last.shown[0] =~= seq![0u32]);
    assert(last.chunks =~= seq![(id, 0u32)]);
}

/// Whether an output shows the nodes of a list for a tree: in rising
/// order, followed by zeros up to a multiple of 16 384.
pub open spec fn shows(out: TraverseOutput, lod_id: u32, list: Seq<u32>) -> bool {
    &&& out.lod_id == lod_id
    &&& out.num_splats == list.len()
    &&& out.indices@.len() % 16384 == 0
    &&& out.num_splats <= out.indices@.len() < out.num_splats + 16384
    &&& out.indices@.subrange(0, out.num_splats as int).to_multiset() == list.to_multiset()
    &&& forall|a: int, b: int| 0 <= a <= b < out.num_splats ==> out.indices@[a] <= out.indices@[b]
    &&& forall|k: int| out.num_splats <= k < out.indices@.len() ==> out.indices@[k] == 0
}

/// The pixel scale that a measure gives for a node of an instance.
pub open spec fn key_of<F: Fn(usize, u32) -> u32>(pixel_scale: F) -> spec_fn(usize, u32) -> u32 {
    |i: usize, p: u32| choose|k: u32| call_ensures(pixel_scale, (i, p), k)
}

/// Whether a measure gives one pixel scale for a node of an instance,
/// whenever it is asked.
pub open spec fn measures<F: Fn(usize, u32) -> u32>(pixel_scale: F) -> bool {
    forall|i: usize, p: u32, a: u32, b: u32|
        #[trigger] call_ensures(pixel_scale, (i, p), a) && #[trigger] call_ensures(
            pixel_scale,
            (i, p),
            b,
        ) ==> a == b
}

/// The lists that a vector of vectors holds.
pub open spec fn lists_of(outs: Seq<Vec<u32>>) -> Seq<Seq<u32>> {
    Seq::new(outs.len(), |i: int| outs[i]@)
}

/// The walk that the state of a traversal stands for.
pub open spec fn walk_at(
    waiting: Seq<FrontierEntry>,
    outs: Seq<Vec<u32>>,
    chunks: Seq<(u32, u32)>,
    count: usize,
) -> Walk {
    Walk { waiting, shown: lists_of(outs), chunks, count: count as nat }
}

proof fn lemma_lists_push(before: Seq<Vec<u32>>, after: Seq<Vec<u32>>, inst: int, v: u32)
    requires
        0 <= inst < before.len(),
        after.len() == before.len(),
        forall|i: int| 0 <= i < before.len() && i != inst ==> after[i] == before[i],
        after[inst]@ == before[inst]@.push(v),
    ensures
        lists_of(after) == add_to(lists_of(before), inst, v),
{
    assert(lists_of(after) =~= add_to(lists_of(before), inst, v));
}

proof fn lemma_first_unknown_stays(sc: Scene, k: int, j: int, id: u32)
    requires
        0 <= k <= j,
        first_unknown(sc, k) == Some(id),
    ensures
        first_unknown(sc, j) == Some(id),
    decreases j - k,
{
    if k < j {
        lemma_first_unknown_stays(sc, k, j - 1, id);
    }
}

proof fn lemma_seed_err_stays(sc: Scene, k: int, j: int, e: LodTreeError)
    requires
        0 <= k <= j,
        walk_seed(sc, k) == Err::<Walk, LodTreeError>(e),
    ensures
        walk_seed(sc, j) == Err::<Walk, LodTreeError>(e),
    decreases j - k,
{
    if k < j {
        lemma_seed_err_stays(sc, k, j - 1, e);
    }
}

proof fn lemma_children_err_stays(sc: Scene, w: Walk, inst: int, node: LodNode, c: int, j: int, e: LodTreeError)
    requires
        0 <= c <= j,
        walk_children(sc, w, inst, node, c) == Err::<Walk, LodTreeError>(e),
    ensures
        walk_children(sc, w, inst, node, j) == Err::<Walk, LodTreeError>(e),
    decreases j - c,
{
    if c < j {
        lemma_children_err_stays(sc, w, inst, node, c, j - 1, e);
    }
}

proof fn lemma_drain_err_stays(sc: Scene, w: Walk, k: int, j: int, e: LodTreeError)
    requires
        0 <= k <= j,
        walk_drain(sc, w, k) == Err::<Walk, LodTreeError>(e),
    ensures
        walk_drain(sc, w, j) == Err::<Walk, LodTreeError>(e),
    decreases j - k,
{
    if k < j {
        lemma_drain_err_stays(sc, w, k, j - 1, e);
    }
}

/// A measure that gives one pixel scale gives the one that it stands for.
proof fn lemma_key<F: Fn(usize, u32) -> u32>(pixel_scale: F, i: usize, p: u32, k: u32)
    requires
        measures(pixel_scale),
        call_ensures(pixel_scale, (i, p), k),
    ensures
        key_of(pixel_scale)(i, p) == k,
{
    let c = choose|c: u32| call_ensures(pixel_scale, (i, p), c);
    assert(call_ensures(pixel_scale, (i, p), c));
}

/// The number of nodes that the first `k` outputs show.
pub open spec fn shown_total(outs: Seq<TraverseOutput>, k: int) -> nat
    decreases k,
{
    if k <= 0 {
        0
    } else {
        shown_total(outs, k - 1) + outs[k - 1].num_splats as nat
    }
}

/// Whether no root is larger on screen than the limit, whatever the
/// measure gives for it.
pub open spec fn roots_within<F: Fn(usize, u32) -> u32>(pixel_scale: F, n: nat, limit: u32) -> bool {
    forall|i: usize, k: u32| i < n && #[trigger] call_ensures(pixel_scale, (i, 0u32), k) ==> k <= limit
}

/// Whether the roots wait, each no larger than the limit, and nothing is
/// shown yet.
pub open spec fn roots_wait(frontier: Seq<FrontierEntry>, outs: Seq<Vec<u32>>, n: int, limit: u32) -> bool {
    &&& frontier.len() == n
    &&& forall|j: int|
        0 <= j < n ==> (#[trigger] frontier[j]).1 == j && frontier[j].2 == 0 && frontier[j].0
            <= limit
    &&& forall|j: int| 0 <= j < outs.len() ==> (#[trigger] outs[j])@.len() == 0
}

proof fn lemma_shown_prefix(a: Seq<TraverseOutput>, b: Seq<TraverseOutput>, k: int)
    requires
        0 <= k <= a.len(),
        k <= b.len(),
        forall|q: int| 0 <= q < k ==> a[q] == b[q],
    ensures
        shown_total(a, k) == shown_total(b, k),
    decreases k,
{
    if k > 0 {
        lemma_shown_prefix(a, b, k - 1);
    }
}

/// Whether every index of every list is a node of the tree of its
/// instance.
pub open spec fn outputs_in_trees(outs: Seq<Vec<u32>>, trees: Seq<&LodTree>) -> bool {
    forall|i: int, k: int|
        0 <= i < outs.len() && 0 <= k < outs[i]@.len() ==> (#[trigger] outs[i]@[k])
            < trees[i].splats@.len()
}

/// Whether an output is one of a tree of that id with `nodes` nodes: the
/// indices that are shown rise and are nodes of the tree; zeros follow them
/// up to a multiple of 16 384.
pub open spec fn output_ok(out: TraverseOutput, lod_id: u32, nodes: nat) -> bool {
    &&& out.lod_id == lod_id
    &&& out.indices@.len() % 16384 == 0
    &&& out.num_splats <= out.indices@.len() < out.num_splats + 16384
    &&& forall|a: int, b: int| 0 <= a <= b < out.num_splats ==> out.indices@[a] <= out.indices@[b]
    &&& forall|k: int| 0 <= k < out.num_splats ==> out.indices@[k] < nodes
    &&& forall|k: int| out.num_splats <= k < out.indices@.len() ==> out.indices@[k] == 0
}

/// Whether `tree` is the tree that the registry holds under `lod_id`.
pub open spec fn tree_of(trees: Map<u32, LodTree>, lod_id: u32, tree: &LodTree) -> bool {
    trees.dom().contains(lod_id) && *tree == trees[lod_id]
}

/// Whether instance `s` is the first of its tree.
pub open spec fn is_first(lod_ids: Seq<u32>, s: int) -> bool {
    forall|j: int| 0 <= j < s ==> lod_ids[j] != lod_ids[s]
}

/// The marks of the chunks that were looked at, by the ids of their trees.
pub type FlagMap = ahash::AHashMap<u32, Vec<bool>>;

/// The marks that a map holds, by the ids of the trees.
pub uninterp spec fn flag_map(m: FlagMap) -> Map<u32, Seq<bool>>;

/// `AHashMap::new`: a map without marks.
#[verifier::external_body]
fn flags_new() -> (m: FlagMap)
    ensures
        forall|id: u32| !flag_map(m).dom().contains(id),
{
    ahash::AHashMap::new()
}

/// `AHashMap::entry` with `Entry::or_default`: the marks of a tree, to be
/// read and changed in place; a tree that had none gets an empty list.
/// Claimed: what is handed out is what the map held for the tree, or an
/// empty list, and what it is changed to is what the map holds for the tree
/// afterwards; the marks of all other trees stay.
#[verifier::external_body]
fn flags_of(m: &mut FlagMap, id: u32) -> (flags: &mut Vec<bool>)
    ensures
        flags@ == (if flag_map(*old(m)).dom().contains(id) {
            flag_map(*old(m))[id]
        } else {
            Seq::<bool>::empty()
        }),
        flag_map(*final(m)) == flag_map(*old(m)).insert(id, final(flags)@),
{
    m.entry(id).or_default()
}

/// Whether the marks agree with the list: a chunk of a tree is marked
/// exactly if it is listed.
pub open spec fn marks_agree(marks: Map<u32, Seq<bool>>, chunks: Seq<(u32, u32)>) -> bool {
    forall|id: u32, c: int|
        0 <= c < 65536 ==> ((marks.dom().contains(id) && c < marks[id].len() && marks[id][c])
            <==> #[trigger] chunks.contains((id, c as u32)))
}

/// Marks the chunk of a splat as looked at, and lists it if it was not
/// marked.
fn touch_chunk(touched: &mut FlagMap, chunks: &mut Vec<(u32, u32)>, lod_id: u32, splat_index: u32)
    requires
        marks_agree(flag_map(*old(touched)), old(chunks)@),
    ensures
        marks_agree(flag_map(*final(touched)), final(chunks)@),
        final(chunks)@ == touch(old(chunks)@, lod_id, splat_index),
{
    let chunk = (splat_index / CHUNK_SPLATS) as usize;
    let ghost marks0 = flag_map(*touched);
    let ghost chunks0 = chunks@;
    let flags = flags_of(touched, lod_id);
    let ghost flags0 = flags@;
    if chunk >= flags.len() {
        flags.resize(chunk + 1, false);
    }
    let ghost flags1 = flags@;
    assert(forall|c: int| 0 <= c < flags0.len() ==> flags1[c] == flags0[c]);
    assert(forall|c: int| flags0.len() <= c < flags1.len() ==> !flags1[c]);
    assert((chunk < flags0.len() && flags0[chunk as int]) <==> chunks0.contains(
        (lod_id, chunk as u32),
    ));
    if !flags[chunk] {
        flags[chunk] = true;
        chunks.push((lod_id, chunk as u32));
        assert(chunks@[chunks0.len() as int] == (lod_id, chunk as u32));
    }
    let ghost flags2 = flags@;
    proof {
        let marks = flag_map(*touched);
        assert(marks == marks0.insert(lod_id, flags2));
        assert forall|id: u32, c: int| 0 <= c < 65536 implies ((marks.dom().contains(id) && c
            < marks[id].len() && marks[id][c]) <==> #[trigger] chunks@.contains((id, c as u32))) by {
            let entry = (id, c as u32);
            assert((marks0.dom().contains(id) && c < marks0[id].len() && marks0[id][c])
                <==> chunks0.contains(entry));
            if chunks@.len() > chunks0.len() {
                assert(chunks@ == chunks0.push((lod_id, chunk as u32)));
                if chunks0.contains(entry) {
                    let k = choose|k: int| 0 <= k < chunks0.len() && chunks0[k] == entry;
                    assert(chunks@[k] == entry);
                }
                if chunks@.contains(entry) && !chunks0.contains(entry) {
                    let k = choose|k: int| 0 <= k < chunks@.len() && chunks@[k] == entry;
                    if k < chunks0.len() {
                        assert(chunks0[k] == entry);
                    }
                    assert(entry == (lod_id, chunk as u32));
                }
            }
            if id == lod_id {
                if c == chunk {
                    assert(flags2[c]);
                    if chunks@.len() == chunks0.len() {
                        assert(chunks0.contains(entry));
                    } else {
                        assert(chunks@[chunks0.len() as int] == entry);
                    }
                } else {
                    if c < flags2.len() {
                        assert(flags2[c] == flags1[c]);
                    }
                }
            }
        }
    }
}

/// The first instance of the tree of instance `i`: instances of one tree
/// share what is known of its chunks.
fn first_with_id(lod_ids: &[u32], i: usize) -> (first: usize)
    requires
        i < lod_ids@.len(),
    ensures
        first <= i,
        lod_ids@[first as int] == lod_ids@[i as int],
        forall|j: int| 0 <= j < first ==> lod_ids@[j] != lod_ids@[i as int],
{
    let mut j: usize = 0;
    while j < i
        invariant
            j <= i < lod_ids@.len(),
            forall|k: int| 0 <= k < j ==> lod_ids@[k] != lod_ids@[i as int],
        decreases i - j,
    {
        if lod_ids[j] == lod_ids[i] {
            return j;
        }
        j += 1;
    }
    i
}

/// Pads a list with zeros to a multiple of 16 384.
fn pad_row(indices: &mut Vec<u32>)
    ensures
        final(indices)@.len() % 16384 == 0,
        final(indices)@.len() >= old(indices)@.len(),
        final(indices)@.len() < old(indices)@.len() + 16384,
        final(indices)@.subrange(0, old(indices)@.len() as int) == old(indices)@,
        forall|k: int| old(indices)@.len() <= k < final(indices)@.len() ==> final(indices)@[k] == 0,
{
    let len = indices.len();
    let rest = len % TRAVERSE_ROW;
    if rest != 0 {
        let add = TRAVERSE_ROW - rest;
        let mut k: usize = 0;
        while k < add
            invariant
                k <= add,
                add + rest == 16384,
                rest == len % 16384,
                len == old(indices)@.len(),
                indices@.len() == len + k,
                indices@.subrange(0, len as int) == old(indices)@,
                forall|j: int| len <= j < indices@.len() ==> indices@[j] == 0,
            decreases add - k,
        {
            indices.push(0);
            assert(indices@.subrange(0, len as int) =~= old(indices)@);
            k += 1;
        }
    } else {
        assert(indices@.subrange(0, len as int) =~= old(indices)@);
    }
}

impl LodState {
    /// Puts chunks of trees into pages and reads their nodes, entry after
    /// entry: entry `k` names a tree, a page, a chunk, a number of splats
    /// and their node records. Returned is, for every tree that is named, in
    /// the order in which the trees are first named, the page of every chunk
    /// once all entries are done. At the first entry that fails the call
    /// ends; the entries before it stay done.
    pub fn insert_lod_trees(
        &mut self,
        lod_ids: &[u32],
        page_bases: &[u32],
        chunk_bases: &[u32],
        counts: &[u32],
        words: &[Vec<u32>],
    ) -> (r: Result<Vec<(u32, Vec<u32>)>, LodTreeError>)
        ensures
            final(self).next_id() == old(self).next_id(),
            !(page_bases@.len() == lod_ids@.len() && chunk_bases@.len() == lod_ids@.len()
                && counts@.len() == lod_ids@.len() && words@.len() == lod_ids@.len()) ==> r
                == Err::<Vec<(u32, Vec<u32>)>, LodTreeError>(LodTreeError::LengthMismatch)
                && final(self).trees() == old(self).trees(),
            page_bases@.len() == lod_ids@.len() && chunk_bases@.len() == lod_ids@.len()
                && counts@.len() == lod_ids@.len() && words@.len() == lod_ids@.len() ==> match r {
                Ok(pages) => trees_put(
                    old(self).trees(),
                    final(self).trees(),
                    lod_ids@,
                    page_bases@,
                    chunk_bases@,
                    counts@,
                    words@,
                    lod_ids@.len() as int,
                ) && pages_listed(pages@, final(self).trees(), lod_ids@),
                Err(e) => exists|k: int|
                    0 <= k < lod_ids@.len() && #[trigger] trees_put(
                        old(self).trees(),
                        final(self).trees(),
                        lod_ids@,
                        page_bases@,
                        chunk_bases@,
                        counts@,
                        words@,
                        k,
                    ) && insert_error(
                        final(self).trees(),
                        lod_ids@[k],
                        page_bases@[k],
                        counts@[k],
                        words@[k]@,
                    ) == Some(e),
            },
    {
        let n = lod_ids.len();
        if page_bases.len() != n || chunk_bases.len() != n || counts.len() != n || words.len()
            != n {
            return Err(LodTreeError::LengthMismatch);
        }
        let mut k: usize = 0;
        let ghost mut mids: Seq<Map<u32, LodTree>> = seq![self.trees()];
        while k < n
            invariant
                k <= n,
                n == lod_ids@.len(),
                n == page_bases@.len(),
                n == chunk_bases@.len(),
                n == counts@.len(),
                n == words@.len(),
                self.next_id() == old(self).next_id(),
                forall|j: int| 0 <= j < k ==> self.trees().dom().contains(#[trigger] lod_ids@[j]),
                put_steps(
                    mids,
                    old(self).trees(),
                    self.trees(),
                    lod_ids@,
                    page_bases@,
                    chunk_bases@,
                    counts@,
                    words@,
                    k as int,
                ),
            decreases n - k,
        {
            let ghost before = self.trees();
            match self.insert_lod_tree(
                lod_ids[k],
                page_bases[k],
                chunk_bases[k],
                counts[k],
                words[k].as_slice(),
            ) {
                Err(e) => {
                    proof {
                        assert(self.trees() == before);
                        assert(put_steps(
                            mids,
                            old(self).trees(),
                            self.trees(),
                            lod_ids@,
                            page_bases@,
                            chunk_bases@,
                            counts@,
                            words@,
                            k as int,
                        ));
                        assert(trees_put(
                            old(self).trees(),
                            self.trees(),
                            lod_ids@,
                            page_bases@,
                            chunk_bases@,
                            counts@,
                            words@,
                            k as int,
                        ));
                        assert(insert_error(
                            self.trees(),
                            lod_ids@[k as int],
                            page_bases@[k as int],
                            counts@[k as int],
                            words@[k as int]@,
                        ) == Some(e));
                    }
                    return Err(e);
                },
                Ok(_) => {},
            }
            proof {
                assert forall|j: int| 0 <= j < k + 1 implies self.trees().dom().contains(
                    #[trigger] lod_ids@[j],
                ) by {
                    if j < k {
                        assert(before.dom().contains(lod_ids@[j]));
                    }
                }
                let prev = mids;
                mids = mids.push(self.trees());
                assert forall|j: int| 0 <= j < k + 1 implies insert_error(
                    #[trigger] mids[j],
                    lod_ids@[j],
                    page_bases@[j],
                    counts@[j],
                    words@[j]@,
                ).is_none() && tree_inserted(
                    mids[j],
                    mids[j + 1],
                    lod_ids@[j],
                    page_bases@[j],
                    chunk_bases@[j],
                    counts@[j],
                    words@[j]@,
                ) by {
                    if j < k {
                        assert(mids[j] == prev[j]);
                        assert(mids[j + 1] == prev[j + 1]);
                    } else {
                        assert(mids[j] == before);
                    }
                }
            }
            k += 1;
        }
        let pages = self.pages_of_trees(lod_ids);
        Ok(pages)
    }

    /// Takes chunks of trees out of their pages, entry after entry. Returned
    /// is, for every tree that is named, in the order in which the trees
    /// are first named, the page of every chunk once all entries are done.
    pub fn clear_lod_trees(
        &mut self,
        lod_ids: &[u32],
        page_bases: &[u32],
        chunk_bases: &[u32],
        counts: &[u32],
    ) -> (r: Result<Vec<(u32, Vec<u32>)>, LodTreeError>)
        ensures
            final(self).next_id() == old(self).next_id(),
            r is Err <==> !(page_bases@.len() == lod_ids@.len() && chunk_bases@.len()
                == lod_ids@.len() && counts@.len() == lod_ids@.len()),
            r matches Err(e) ==> e == LodTreeError::LengthMismatch && final(self).trees() == old(self).trees(),
            r matches Ok(pages) ==> trees_cleared(
                old(self).trees(),
                final(self).trees(),
                lod_ids@,
                page_bases@,
                chunk_bases@,
                counts@,
                lod_ids@.len() as int,
            ) && pages_listed(pages@, final(self).trees(), lod_ids@),
    {
        let n = lod_ids.len();
        if page_bases.len() != n || chunk_bases.len() != n || counts.len() != n {
            return Err(LodTreeError::LengthMismatch);
        }
        let mut k: usize = 0;
        let ghost mut mids: Seq<Map<u32, LodTree>> = seq![self.trees()];
        while k < n
            invariant
                k <= n,
                n == lod_ids@.len(),
                n == page_bases@.len(),
                n == chunk_bases@.len(),
                n == counts@.len(),
                self.next_id() == old(self).next_id(),
                forall|j: int| 0 <= j < k ==> self.trees().dom().contains(#[trigger] lod_ids@[j]),
                clear_steps(
                    mids,
                    old(self).trees(),
                    self.trees(),
                    lod_ids@,
                    page_bases@,
                    chunk_bases@,
                    counts@,
                    k as int,
                ),
            decreases n - k,
        {
            let ghost before = self.trees();
            let _ = self.clear_lod_tree(lod_ids[k], page_bases[k], chunk_bases[k], counts[k]);
            proof {
                assert forall|j: int| 0 <= j < k + 1 implies self.trees().dom().contains(
                    #[trigger] lod_ids@[j],
                ) by {
                    if j < k {
                        assert(before.dom().contains(lod_ids@[j]));
                    }
                }
                let prev = mids;
                mids = mids.push(self.trees());
                assert forall|j: int| 0 <= j < k + 1 implies tree_cleared(
                    #[trigger] mids[j],
                    mids[j + 1],
                    lod_ids@[j],
                    page_bases@[j],
                    chunk_bases@[j],
                    counts@[j],
                ) by {
                    if j < k {
                        assert(mids[j] == prev[j]);
                        assert(mids[j + 1] == prev[j + 1]);
                    } else {
                        assert(mids[j] == before);
                    }
                }
            }
            k += 1;
        }
        let pages = self.pages_of_trees(lod_ids);
        Ok(pages)
    }

    /// For every tree that is named, in the order in which the trees are
    /// first named, the page of every chunk.
    fn pages_of_trees(&self, lod_ids: &[u32]) -> (pages: Vec<(u32, Vec<u32>)>)
        requires
            forall|j: int| 0 <= j < lod_ids@.len() ==> self.trees().dom().contains(#[trigger] lod_ids@[j]),
        ensures
            pages_listed(pages@, self.trees(), lod_ids@),
    {
        let mut pages: Vec<(u32, Vec<u32>)> = Vec::new();
        let mut k: usize = 0;
        assert(listed_ids(pages@) =~= first_ids(lod_ids@, 0));
        while k < lod_ids.len()
            invariant
                k <= lod_ids@.len(),
                forall|j: int|
                    0 <= j < lod_ids@.len() ==> self.trees().dom().contains(#[trigger] lod_ids@[j]),
                listed_ids(pages@) == first_ids(lod_ids@, k as int),
                forall|q: int|
                    0 <= q < pages@.len() ==> self.trees().dom().contains((#[trigger] pages@[q]).0)
                        && pages@[q].1@ == self.trees()[pages@[q].0].chunk_to_page@,
            decreases lod_ids@.len() - k,
        {
            let first = first_with_id(lod_ids, k);
            if first == k {
                assert(is_first(lod_ids@, k as int));
                assert(self.trees().dom().contains(lod_ids@[k as int]));
                match registry_get(&self.lod_trees, lod_ids[k]) {
                    None => {},
                    Some(tree) => {
                        let mut list: Vec<u32> = Vec::new();
                        let mut c: usize = 0;
                        while c < tree.chunk_to_page.len()
                            invariant
                                c <= tree.chunk_to_page@.len(),
                                list@ == tree.chunk_to_page@.subrange(0, c as int),
                            decreases tree.chunk_to_page@.len() - c,
                        {
                            list.push(tree.chunk_to_page[c]);
                            assert(list@ =~= tree.chunk_to_page@.subrange(0, c + 1));
                            c += 1;
                        }
                        assert(list@ =~= tree.chunk_to_page@);
                        let ghost seen = pages@;
                        pages.push((lod_ids[k], list));
                        proof {
                            assert(listed_ids(pages@) =~= listed_ids(seen).push(lod_ids@[k as int]));
                            assert forall|q: int| 0 <= q < pages@.len() implies self.trees().dom().contains(
                                (#[trigger] pages@[q]).0,
                            ) && pages@[q].1@ == self.trees()[pages@[q].0].chunk_to_page@ by {
                                if q < seen.len() {
                                    assert(pages@[q] == seen[q]);
                                }
                            }
                        }
                    },
                }
            } else {
                assert(!is_first(lod_ids@, k as int)) by {
                    assert(lod_ids@[first as int] == lod_ids@[k as int]);
                }
            }
            k += 1;
        }
        pages
    }

    /// What a traversal of these instances works on.
    pub open spec fn scene<F: Fn(usize, u32) -> u32>(
        &self,
        max_splats: usize,
        pixel_scale_limit: u32,
        lod_ids: Seq<u32>,
        pixel_scale: F,
    ) -> Scene {
        Scene {
            trees: self.trees(),
            lod_ids,
            key: key_of(pixel_scale),
            limit: pixel_scale_limit,
            max_splats: max_splats as nat,
        }
    }

    /// Chooses the nodes that are shown of the trees of a frame's instances.
    ///
    /// `pixel_scale` gives the pixel scale of a node of an instance, as a
    /// number that rises with it. The nodes that wait are looked at from the
    /// largest pixel scale down, until the largest is no more than
    /// `pixel_scale_limit`, or until taking a node apart into its children
    /// would show more than `max_splats` nodes. A leaf is shown. A node whose
    /// children are not all in pages is shown itself. Else its children wait
    /// in its place, but for those of no more than the limit, which are
    /// shown. In the end all nodes that still wait are shown.
    #[verifier::spinoff_prover]
    #[verifier::rlimit(60)]
    pub fn traverse_lod_trees<F: Fn(usize, u32) -> u32>(
        &self,
        max_splats: usize,
        pixel_scale_limit: u32,
        lod_ids: &[u32],
        pixel_scale: F,
    ) -> (r: Result<TraverseResult, LodTreeError>)
        requires
            forall|i: usize, p: u32| call_requires(pixel_scale, (i, p)),
        ensures
            r matches Err(LodTreeError::UnknownTree(id)) ==> !self.trees().dom().contains(id),
            (forall|i: int| 0 <= i < lod_ids@.len() ==> self.trees().dom().contains(lod_ids@[i]))
                ==> !(r matches Err(LodTreeError::UnknownTree(_))),
            r matches Ok(res) ==> {
                &&& res.instances@.len() == lod_ids@.len()
                &&& forall|i: int|
                    0 <= i < lod_ids@.len() ==> self.trees().dom().contains(#[trigger] lod_ids@[i])
                &&& forall|i: int|
                    0 <= i < lod_ids@.len() ==> #[trigger] output_ok(
                        res.instances@[i],
                        lod_ids@[i],
                        self.trees()[lod_ids@[i]].splats@.len(),
                    )
                &&& lod_ids@.len() <= shown_total(res.instances@, lod_ids@.len() as int)
                &&& shown_total(res.instances@, lod_ids@.len() as int) <= max_splats
                    || shown_total(res.instances@, lod_ids@.len() as int) == lod_ids@.len()
                &&& roots_within(pixel_scale, lod_ids@.len(), pixel_scale_limit) ==> forall|i: int|
                    0 <= i < lod_ids@.len() ==> (#[trigger] res.instances@[i]).num_splats == 1
                        && res.instances@[i].indices@[0] == 0
            },
            measures(pixel_scale) ==> match walk_of(
                self.scene(max_splats, pixel_scale_limit, lod_ids@, pixel_scale),
            ) {
                Err(e) => r matches Err(e2) && e2 == e,
                Ok(w) => r matches Ok(res) && res.chunks@ == w.chunks && forall|i: int|
                    0 <= i < lod_ids@.len() ==> #[trigger] shows(
                        res.instances@[i],
                        lod_ids@[i],
                        w.shown[i],
                    ),
            },
    {
        let n = lod_ids.len();
        let ghost small = roots_within(pixel_scale, n as nat, pixel_scale_limit);
        let ghost sc = self.scene(max_splats, pixel_scale_limit, lod_ids@, pixel_scale);
        let ghost det = measures(pixel_scale);
        if n > u32::MAX as usize {
            return Err(LodTreeError::LengthMismatch);
        }
        let mut trees: Vec<&LodTree> = Vec::new();
        let mut outputs: Vec<Vec<u32>> = Vec::new();
        let mut touched = flags_new();
        let mut fuel: u64 = 0;
        let mut i: usize = 0;
        while i < n
            invariant
                i <= n,
                n == lod_ids@.len(),
                trees@.len() == i,
                outputs@.len() == i,
                forall|k: int|
                    0 <= k < i ==> #[trigger] tree_of(self.trees(), lod_ids@[k], trees@[k]),
                forall|k: int| 0 <= k < i ==> (#[trigger] outputs@[k])@.len() == 0,
                n <= u32::MAX,
                sc == self.scene(max_splats, pixel_scale_limit, lod_ids@, pixel_scale),
                first_unknown(sc, i as int).is_none(),
                fuel == walk_fuel(sc, i as int),
            decreases n - i,
        {
            match registry_get(&self.lod_trees, lod_ids[i]) {
                None => {
                    proof {
                        lemma_first_unknown_stays(sc, i + 1, n as int, lod_ids@[i as int]);
                    }
                    return Err(LodTreeError::UnknownTree(lod_ids[i]));
                },
                Some(tree) => {
                    assert(tree_of(self.trees(), lod_ids@[i as int], tree));
                    let ghost known = trees@;
                    let len = tree.splats.len() as u64;
                    fuel = if len > u64::MAX - fuel {
                        u64::MAX
                    } else {
                        fuel + len
                    };
                    trees.push(tree);
                    outputs.push(Vec::new());
                    proof {
                        assert forall|k: int| 0 <= k < i + 1 implies #[trigger] tree_of(
                            self.trees(),
                            lod_ids@[k],
                            trees@[k],
                        ) by {
                            if k < i {
                                assert(tree_of(self.trees(), lod_ids@[k], known[k]));
                                assert(trees@[k] == known[k]);
                            }
                        }
                    }
                },
            }
            i += 1;
        }
        let ghost all_trees = trees@;
        let mut chunks: Vec<(u32, u32)> = Vec::new();
        let mut frontier: Vec<FrontierEntry> = Vec::new();
        let mut num_splats: usize = 0;
        let mut i: usize = 0;
        proof {
            assert forall|k: int| 0 <= k < n implies (#[trigger] lists_of(outputs@)[k])
                =~= Seq::<u32>::empty() by {
                assert(outputs@[k]@.len() == 0);
            }
            assert(lists_of(outputs@) =~= Seq::new(n as nat, |i: int| Seq::<u32>::empty()));
        }
        while i < n
            invariant
                i <= n,
                n <= u32::MAX,
                n == lod_ids@.len(),
                trees@.len() == n,
                outputs@.len() == n,
                trees@ == all_trees,
                num_splats == i,
                frontier@.len() == i,
                sc == self.scene(max_splats, pixel_scale_limit, lod_ids@, pixel_scale),
                det == measures(pixel_scale),
                first_unknown(sc, n as int).is_none(),
                forall|k: int|
                    0 <= k < n ==> #[trigger] tree_of(self.trees(), lod_ids@[k], trees@[k]),
                marks_agree(flag_map(touched), chunks@),
                det ==> walk_seed(sc, i as int) == Ok::<Walk, LodTreeError>(
                    walk_at(frontier@, outputs@, chunks@, num_splats),
                ),
                forall|i: usize, p: u32| call_requires(pixel_scale, (i, p)),
                forall|k: int| 0 <= k < n ==> (#[trigger] outputs@[k])@.len() == 0,
                forall|k: int|
                    0 <= k < i ==> (#[trigger] frontier@[k]).1 == k && frontier@[k].2 == 0
                        && call_ensures(pixel_scale, (k as usize, 0u32), frontier@[k].0),
                forall|k: int|
                    0 <= k < frontier@.len() ==> (#[trigger] frontier@[k]).1 < n && frontier@[k].2
                        < trees@[frontier@[k].1 as int].splats@.len(),
            decreases n - i,
        {
            assert(tree_of(self.trees(), lod_ids@[i as int], trees@[i as int]));
            if trees[i].splats.len() == 0 {
                proof {
                    if det {
                        lemma_seed_err_stays(
                            sc,
                            i + 1,
                            n as int,
                            LodTreeError::CorruptTree(lod_ids@[i as int]),
                        );
                    }
                }
                return Err(LodTreeError::CorruptTree(lod_ids[i]));
            }
            let scale = pixel_scale(i, 0);
            proof {
                if det {
                    lemma_key(pixel_scale, i, 0, scale);
                }
            }
            frontier.push((scale, i as u32, 0));
            num_splats = num_splats + 1;
            touch_chunk(&mut touched, &mut chunks, lod_ids[i], 0);
            i += 1;
        }
        let ghost seeded = walk_at(frontier@, outputs@, chunks@, num_splats);
        let ghost fuel0 = fuel as nat;
        proof {
            lemma_total_len_zero(outputs@, n as int);
            if small {
                assert forall|j: int| 0 <= j < n implies (#[trigger] frontier@[j]).0
                    <= pixel_scale_limit by {
                    assert(call_ensures(pixel_scale, (j as usize, 0u32), frontier@[j].0));
                }
            }
        }
        let mut failure: Option<LodTreeError> = None;
        loop
            invariant_except_break
                failure.is_none(),
                num_splats == frontier@.len() + total_len(outputs@, n as int),
                n <= num_splats,
                num_splats <= max_splats || num_splats == n,
                det ==> walk_run(
                    sc,
                    walk_at(frontier@, outputs@, chunks@, num_splats),
                    fuel as nat,
                ) == walk_run(sc, seeded, fuel0),
            invariant
                small ==> roots_wait(frontier@, outputs@, n as int, pixel_scale_limit),
                n <= u32::MAX,
                n == lod_ids@.len(),
                trees@ == all_trees,
                trees@.len() == n,
                outputs@.len() == n,
                forall|i: usize, p: u32| call_requires(pixel_scale, (i, p)),
                outputs_in_trees(outputs@, trees@),
                sc == self.scene(max_splats, pixel_scale_limit, lod_ids@, pixel_scale),
                det == measures(pixel_scale),
                forall|k: int|
                    0 <= k < n ==> #[trigger] tree_of(self.trees(), lod_ids@[k], trees@[k]),
                marks_agree(flag_map(touched), chunks@),
                forall|k: int|
                    0 <= k < frontier@.len() ==> (#[trigger] frontier@[k]).1 < n && frontier@[k].2
                        < trees@[frontier@[k].1 as int].splats@.len(),
            ensures
                trees@.len() == n,
                outputs@.len() == n,
                outputs_in_trees(outputs@, trees@),
                failure matches Some(e) ==> e is CorruptTree,
                failure.is_none() ==> num_splats == frontier@.len() + total_len(outputs@, n as int)
                    && n <= num_splats && (num_splats <= max_splats || num_splats == n),
                small ==> roots_wait(frontier@, outputs@, n as int, pixel_scale_limit),
                marks_agree(flag_map(touched), chunks@),
                det ==> match failure {
                    Some(e) => walk_run(sc, seeded, fuel0) == Err::<Walk, LodTreeError>(e),
                    None => walk_run(sc, seeded, fuel0) == Ok::<Walk, LodTreeError>(
                        walk_at(frontier@, outputs@, chunks@, num_splats),
                    ),
                },
                forall|k: int|
                    0 <= k < frontier@.len() ==> (#[trigger] frontier@[k]).1 < n && frontier@[k].2
                        < trees@[frontier@[k].1 as int].splats@.len(),
            decreases fuel,
        {
            let ghost w = walk_at(frontier@, outputs@, chunks@, num_splats);
            let ghost fuel1 = fuel as nat;
            if frontier.len() == 0 {
                break ;
            }
            let at = max_index(&frontier);
            let (scale, inst_index, paged_index) = frontier[at];
            if scale <= pixel_scale_limit {
                break ;
            }
            assert(!small);
            if fuel == 0 {
                failure = Some(LodTreeError::CorruptTree(lod_ids[inst_index as usize]));
                break ;
            }
            fuel = fuel - 1;
            let inst = inst_index as usize;
            let tree = trees[inst];
            assert(tree_of(self.trees(), lod_ids@[inst as int], trees@[inst as int]));
            assert(sc.tree(inst as int) == *tree);
            let node = tree.splats[paged_index as usize];
            if node.child_count == 0 {
                let ghost before = outputs@;
                let _ = frontier.swap_remove(at);
                let mut list: Vec<u32> = Vec::new();
                std::mem::swap(&mut list, &mut outputs[inst]);
                list.push(paged_index);
                std::mem::swap(&mut list, &mut outputs[inst]);
                proof {
                    lemma_total_len_push(before, outputs@, inst as int, n as int);
                    lemma_lists_push(before, outputs@, inst as int, paged_index);
                    assert(walk_step(sc, w) == WalkStep::Go(
                        walk_at(frontier@, outputs@, chunks@, num_splats),
                    ));
                }
            } else {
                let count = node.child_count as usize;
                if count - 1 > max_splats || num_splats > max_splats - (count - 1) {
                    assert(walk_step(sc, w) == WalkStep::Stop);
                    break ;
                }
                let new_num = num_splats - 1 + count;
                if node.child_start > u32::MAX - (node.child_count as u32 - 1) {
                    assert(walk_step(sc, w) == WalkStep::Corrupt(lod_ids@[inst as int]));
                    failure = Some(LodTreeError::CorruptTree(lod_ids[inst]));
                    break ;
                }
                let _ = frontier.swap_remove(at);
                let last_child = node.child_start + (node.child_count as u32 - 1);
                touch_chunk(&mut touched, &mut chunks, lod_ids[inst], node.child_start);
                touch_chunk(&mut touched, &mut chunks, lod_ids[inst], last_child);
                if !tree.children_resident(node.child_count, node.child_start) {
                    let ghost before = outputs@;
                    let mut list: Vec<u32> = Vec::new();
                    std::mem::swap(&mut list, &mut outputs[inst]);
                    list.push(paged_index);
                    std::mem::swap(&mut list, &mut outputs[inst]);
                    proof {
                        lemma_total_len_push(before, outputs@, inst as int, n as int);
                        lemma_lists_push(before, outputs@, inst as int, paged_index);
                        assert(walk_step(sc, w) == WalkStep::Go(
                            walk_at(frontier@, outputs@, chunks@, num_splats),
                        ));
                    }
                } else {
                    let mut child: u32 = 0;
                    let ghost waiting = frontier@.len();
                    let ghost shown = total_len(outputs@, n as int);
                    let ghost start = walk_at(frontier@, outputs@, chunks@, num_splats);
                    while child < node.child_count as u32
                        invariant_except_break
                            failure.is_none(),
                        invariant
                            !small,
                            trees@ == all_trees,
                            sc == self.scene(max_splats, pixel_scale_limit, lod_ids@, pixel_scale),
                            det == measures(pixel_scale),
                            sc.tree(inst as int) == *tree,
                            marks_agree(flag_map(touched), chunks@),
                            det && failure.is_none() ==> walk_children(
                                sc,
                                start,
                                inst as int,
                                node,
                                child as int,
                            ) == Ok::<Walk, LodTreeError>(
                                walk_at(frontier@, outputs@, chunks@, num_splats),
                            ),
                            det && failure.is_some() ==> walk_children(
                                sc,
                                start,
                                inst as int,
                                node,
                                node.child_count as int,
                            ) == Err::<Walk, LodTreeError>(
                                LodTreeError::CorruptTree(lod_ids@[inst as int]),
                            ),
                            child <= node.child_count,
                            node.child_start + node.child_count - 1 <= u32::MAX,
                            inst < n,
                            n <= u32::MAX,
                            inst_index == inst,
                            n == lod_ids@.len(),
                            trees@.len() == n,
                            outputs@.len() == n,
                            tree == trees@[inst as int],
                            forall|i: usize, p: u32| call_requires(pixel_scale, (i, p)),
                            frontier@.len() + total_len(outputs@, n as int) == waiting + shown
                                + child,
                            outputs_in_trees(outputs@, trees@),
                            forall|k: int|
                                0 <= k < frontier@.len() ==> (#[trigger] frontier@[k]).1 < n
                                    && frontier@[k].2 < trees@[frontier@[k].1 as int].splats@.len(),
                        ensures
                            !small,
                            trees@.len() == n,
                            outputs@.len() == n,
                            outputs_in_trees(outputs@, trees@),
                            marks_agree(flag_map(touched), chunks@),
                            failure matches Some(e) ==> e == LodTreeError::CorruptTree(
                                lod_ids@[inst as int],
                            ),
                            det ==> walk_children(
                                sc,
                                start,
                                inst as int,
                                node,
                                node.child_count as int,
                            ) == (match failure {
                                Some(e) => Err::<Walk, LodTreeError>(e),
                                None => Ok::<Walk, LodTreeError>(
                                    walk_at(frontier@, outputs@, chunks@, num_splats),
                                ),
                            }),
                            failure.is_none() ==> frontier@.len() + total_len(outputs@, n as int)
                                == waiting + shown + node.child_count,
                            forall|k: int|
                                0 <= k < frontier@.len() ==> (#[trigger] frontier@[k]).1 < n
                                    && frontier@[k].2 < trees@[frontier@[k].1 as int].splats@.len(),
                        decreases node.child_count - child,
                    {
                        let child_index = node.child_start + child;
                        let child_chunk = (child_index / CHUNK_SPLATS) as usize;
                        let ghost bad = LodTreeError::CorruptTree(lod_ids@[inst as int]);
                        if child_chunk >= tree.chunk_to_page.len() {
                            proof {
                                if det {
                                    lemma_children_err_stays(
                                        sc,
                                        start,
                                        inst as int,
                                        node,
                                        child + 1,
                                        node.child_count as int,
                                        bad,
                                    );
                                }
                            }
                            failure = Some(LodTreeError::CorruptTree(lod_ids[inst]));
                            break ;
                        }
                        let child_page = tree.chunk_to_page[child_chunk];
                        if child_page >= CHUNK_SPLATS {
                            proof {
                                if det {
                                    lemma_children_err_stays(
                                        sc,
                                        start,
                                        inst as int,
                                        node,
                                        child + 1,
                                        node.child_count as int,
                                        bad,
                                    );
                                }
                            }
                            failure = Some(LodTreeError::CorruptTree(lod_ids[inst]));
                            break ;
                        }
                        let paged_child = child_page * CHUNK_SPLATS + child_index % CHUNK_SPLATS;
                        if paged_child as usize >= tree.splats.len() {
                            proof {
                                if det {
                                    lemma_children_err_stays(
                                        sc,
                                        start,
                                        inst as int,
                                        node,
                                        child + 1,
                                        node.child_count as int,
                                        bad,
                                    );
                                }
                            }
                            failure = Some(LodTreeError::CorruptTree(lod_ids[inst]));
                            break ;
                        }
                        let child_scale = pixel_scale(inst, paged_child);
                        proof {
                            if det {
                                lemma_key(pixel_scale, inst, paged_child, child_scale);
                            }
                        }
                        if child_scale <= pixel_scale_limit {
                            let ghost before = outputs@;
                            let mut list: Vec<u32> = Vec::new();
                            std::mem::swap(&mut list, &mut outputs[inst]);
                            list.push(paged_child);
                            std::mem::swap(&mut list, &mut outputs[inst]);
                            proof {
                                lemma_total_len_push(before, outputs@, inst as int, n as int);
                                lemma_lists_push(before, outputs@, inst as int, paged_child);
                            }
                        } else {
                            frontier.push((child_scale, inst_index, paged_child));
                        }
                        child += 1;
                    }
                    if failure.is_some() {
                        assert(det ==> walk_step(sc, w) == WalkStep::Corrupt(lod_ids@[inst as int]));
                        break ;
                    }
                    num_splats = new_num;
                    assert(det ==> walk_step(sc, w) == WalkStep::Go(
                        walk_at(frontier@, outputs@, chunks@, num_splats),
                    ));
                }
            }
        }
        proof {
            if det {
                assert(walk_seed(sc, n as int) == Ok::<Walk, LodTreeError>(seeded));
                assert(fuel0 == walk_fuel(sc, n as int));
            }
        }
        match failure {
            Some(e) => {
                return Err(e);
            },
            None => {},
        }
        let ghost ran = walk_at(frontier@, outputs@, chunks@, num_splats);
        let mut k: usize = 0;
        while k < frontier.len()
            invariant
                k <= frontier@.len(),
                n == lod_ids@.len(),
                n <= u32::MAX,
                trees@ == all_trees,
                trees@.len() == n,
                outputs@.len() == n,
                outputs_in_trees(outputs@, trees@),
                sc == self.scene(max_splats, pixel_scale_limit, lod_ids@, pixel_scale),
                first_unknown(sc, n as int).is_none(),
                forall|j: int|
                    0 <= j < n ==> #[trigger] tree_of(self.trees(), lod_ids@[j], trees@[j]),
                marks_agree(flag_map(touched), chunks@),
                det == measures(pixel_scale),
                ran.waiting == frontier@,
                det ==> walk_seed(sc, n as int) == Ok::<Walk, LodTreeError>(seeded),
                det ==> walk_run(sc, seeded, walk_fuel(sc, n as int)) == Ok::<Walk, LodTreeError>(
                    ran,
                ),
                det ==> walk_drain(sc, ran, k as int) == Ok::<Walk, LodTreeError>(
                    walk_at(frontier@, outputs@, chunks@, num_splats),
                ),
                num_splats == frontier@.len() - k + total_len(outputs@, n as int),
                small ==> frontier@.len() == n && forall|j: int|
                    0 <= j < n ==> (#[trigger] frontier@[j]).1 == j && frontier@[j].2 == 0,
                small ==> forall|j: int|
                    0 <= j < n ==> if j < k {
                        (#[trigger] outputs@[j])@ == seq![0u32]
                    } else {
                        outputs@[j]@.len() == 0
                    },
                forall|j: int|
                    0 <= j < frontier@.len() ==> (#[trigger] frontier@[j]).1 < n && frontier@[j].2
                        < trees@[frontier@[j].1 as int].splats@.len(),
            decreases frontier@.len() - k,
        {
            let (_, inst_index, paged_index) = frontier[k];
            let inst = inst_index as usize;
            let tree = trees[inst];
            let ghost before = outputs@;
            let mut list: Vec<u32> = Vec::new();
            std::mem::swap(&mut list, &mut outputs[inst]);
            list.push(paged_index);
            std::mem::swap(&mut list, &mut outputs[inst]);
            proof {
                lemma_total_len_push(before, outputs@, inst as int, n as int);
                lemma_lists_push(before, outputs@, inst as int, paged_index);
                assert(tree_of(self.trees(), lod_ids@[inst as int], trees@[inst as int]));
                if small {
                    assert(inst == k);
                    assert(before[k as int]@.len() == 0);
                    assert(outputs@[k as int]@ =~= seq![0u32]);
                    assert forall|j: int| 0 <= j < n implies if j < k + 1 {
                        (#[trigger] outputs@[j])@ == seq![0u32]
                    } else {
                        outputs@[j]@.len() == 0
                    } by {
                        if j != k {
                            assert(outputs@[j] == before[j]);
                        }
                    }
                }
            }
            let page = (paged_index / CHUNK_SPLATS) as usize;
            if page >= tree.page_to_chunk.len() {
                proof {
                    if det {
                        lemma_drain_err_stays(
                            sc,
                            ran,
                            k + 1,
                            frontier@.len() as int,
                            LodTreeError::CorruptTree(lod_ids@[inst as int]),
                        );
                    }
                }
                return Err(LodTreeError::CorruptTree(lod_ids[inst]));
            }
            let chunk = tree.page_to_chunk[page];
            if chunk >= CHUNK_SPLATS {
                proof {
                    if det {
                        lemma_drain_err_stays(
                            sc,
                            ran,
                            k + 1,
                            frontier@.len() as int,
                            LodTreeError::CorruptTree(lod_ids@[inst as int]),
                        );
                    }
                }
                return Err(LodTreeError::CorruptTree(lod_ids[inst]));
            }
            let splat_index = chunk * CHUNK_SPLATS + paged_index % CHUNK_SPLATS;
            touch_chunk(&mut touched, &mut chunks, lod_ids[inst], splat_index);
            k += 1;
        }
        let ghost walked = walk_at(frontier@, outputs@, chunks@, num_splats);
        proof {
            if det {
                assert(walk_of(sc) == Ok::<Walk, LodTreeError>(walked));
            }
        }
        let mut instances: Vec<TraverseOutput> = Vec::new();
        let mut i: usize = 0;
        let ghost lists = outputs@;
        while i < n
            invariant
                i <= n,
                n == lod_ids@.len(),
                trees@ == all_trees,
                trees@.len() == n,
                outputs@.len() == n,
                lists.len() == n,
                instances@.len() == i,
                outputs_in_trees(outputs@, trees@),
                forall|q: int| i <= q < n ==> #[trigger] outputs@[q] == lists[q],
                shown_total(instances@, i as int) == total_len(lists, i as int),
                forall|q: int| 0 <= q < i ==> #[trigger] shows(instances@[q], lod_ids@[q], lists[q]@),
                small ==> forall|q: int| 0 <= q < n ==> (#[trigger] lists[q])@ == seq![0u32],
                small ==> forall|q: int|
                    0 <= q < i ==> (#[trigger] instances@[q]).num_splats == 1
                        && instances@[q].indices@[0] == 0,
                forall|q: int|
                    0 <= q < i ==> #[trigger] output_ok(
                        instances@[q],
                        lod_ids@[q],
                        trees@[q].splats@.len(),
                    ),
            decreases n - i,
        {
            let ghost outs_before = outputs@;
            let ghost done_before = instances@;
            let mut indices: Vec<u32> = Vec::new();
            std::mem::swap(&mut indices, &mut outputs[i]);
            let ghost unsorted = indices@;
            assert(unsorted == outs_before[i as int]@);
            sort_indices(&mut indices);
            let ghost sorted = indices@;
            let num = indices.len();
            proof {
                unsorted.to_multiset_ensures();
                sorted.to_multiset_ensures();
                assert forall|k: int| 0 <= k < num implies sorted[k] < trees@[i as int].splats@.len() by {
                    assert(sorted.contains(sorted[k]));
                    assert(sorted.to_multiset().count(sorted[k]) > 0);
                    assert(unsorted.to_multiset().count(sorted[k]) > 0);
                    assert(unsorted.contains(sorted[k]));
                    let j = choose|j: int| 0 <= j < unsorted.len() && unsorted[j] == sorted[k];
                    assert(outs_before[i as int]@[j] < trees@[i as int].splats@.len());
                }
                assert(outputs_in_trees(outputs@, trees@)) by {
                    assert forall|a: int, b: int|
                        0 <= a < outputs@.len() && 0 <= b < outputs@[a]@.len() implies (
                    #[trigger] outputs@[a]@[b]) < trees@[a].splats@.len() by {
                        assert(outputs@[a] == outs_before[a]);
                        assert(outs_before[a]@[b] < trees@[a].splats@.len());
                    }
                }
            }
            pad_row(&mut indices);
            proof {
                assert forall|k: int| 0 <= k < num implies indices@[k] == sorted[k] by {
                    assert(indices@.subrange(0, num as int)[k] == sorted[k]);
                }
            }
            let out = TraverseOutput { lod_id: lod_ids[i], num_splats: num, indices };
            assert(out.indices@.len() % 16384 == 0);
            assert(out.num_splats <= out.indices@.len() < out.num_splats + 16384);
            assert forall|a: int, b: int| 0 <= a <= b < out.num_splats implies out.indices@[a]
                <= out.indices@[b] by {
                assert(out.indices@[a] == sorted[a]);
                assert(out.indices@[b] == sorted[b]);
            }
            assert forall|k: int| 0 <= k < out.num_splats implies out.indices@[k] < trees@[i as int].splats@.len() by {
                assert(out.indices@[k] == sorted[k]);
            }
            assert(forall|k: int| out.num_splats <= k < out.indices@.len() ==> out.indices@[k] == 0);
            assert(output_ok(out, lod_ids@[i as int], trees@[i as int].splats@.len()));
            assert(out.indices@.subrange(0, num as int) =~= sorted);
            assert(shows(out, lod_ids@[i as int], unsorted));
            instances.push(out);
            proof {
                lemma_shown_prefix(instances@, done_before, i as int);
                assert(outs_before[i as int] == lists[i as int]);
                assert forall|q: int| 0 <= q < i + 1 implies #[trigger] shows(
                    instances@[q],
                    lod_ids@[q],
                    lists[q]@,
                ) by {
                    if q < i {
                        assert(instances@[q] == done_before[q]);
                    }
                }
                if small {
                    assert(unsorted =~= seq![0u32]);
                    assert(sorted.contains(sorted[0]));
                    assert(sorted.to_multiset().count(sorted[0]) > 0);
                    assert(unsorted.to_multiset().count(sorted[0]) > 0);
                    assert(unsorted.contains(sorted[0]));
                    assert(instances@[i as int].indices@[0] == sorted[0]);
                    assert forall|q: int| 0 <= q < i + 1 implies (#[trigger] instances@[q]).num_splats
                        == 1 && instances@[q].indices@[0] == 0 by {
                        if q < i {
                            assert(instances@[q] == done_before[q]);
                        }
                    }
                }
                assert forall|q: int| i + 1 <= q < n implies #[trigger] outputs@[q] == lists[q] by {
                    assert(outputs@[q] == outs_before[q]);
                }
                assert forall|q: int| 0 <= q < i + 1 implies #[trigger] output_ok(
                    instances@[q],
                    lod_ids@[q],
                    trees@[q].splats@.len(),
                ) by {
                    if q < i {
                        assert(instances@[q] == done_before[q]);
                        assert(output_ok(done_before[q], lod_ids@[q], trees@[q].splats@.len()));
                    }
                }
            }
            i += 1;
        }
        let res = TraverseResult { instances, chunks };
        proof {
            if det {
                assert forall|q: int| 0 <= q < lod_ids@.len() implies #[trigger] shows(
                    res.instances@[q],
                    lod_ids@[q],
                    walked.shown[q],
                ) by {
                    assert(shows(res.instances@[q], lod_ids@[q], lists[q]@));
                    assert(walked.shown[q] == lists[q]@);
                }
            }
            assert forall|q: int| 0 <= q < lod_ids@.len() implies self.trees().dom().contains(
                lod_ids@[q],
            ) && #[trigger] output_ok(
                res.instances@[q],
                lod_ids@[q],
                self.trees()[lod_ids@[q]].splats@.len(),
            ) by {
                assert(tree_of(self.trees(), lod_ids@[q], all_trees[q]));
                assert(output_ok(res.instances@[q], lod_ids@[q], trees@[q].splats@.len()));
            }
        }
        proof {
            assert forall|q: int| 0 <= q < lod_ids@.len() implies self.trees().dom().contains(
                #[trigger] lod_ids@[q],
            ) by {
                assert(tree_of(self.trees(), lod_ids@[q], all_trees[q]));
            }
            assert forall|q: int| 0 <= q < lod_ids@.len() implies #[trigger] output_ok(
                res.instances@[q],
                lod_ids@[q],
                self.trees()[lod_ids@[q]].splats@.len(),
            ) by {
                assert(tree_of(self.trees(), lod_ids@[q], all_trees[q]));
                assert(output_ok(res.instances@[q], lod_ids@[q], trees@[q].splats@.len()));
            }
        }
        Ok(res)
    }
}

} // verus!
