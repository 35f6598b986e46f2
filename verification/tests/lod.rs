use spark_lib::lod_tree::{max_index, pages_of, LodState, LodTree, LodTreeError};
use spark_lib::quick_lod::{cut_groups, sort_active, LodBuilder, LodError};

#[test]
fn entries_are_sorted_by_morton_key_and_keep_their_order() {
    let active = [10usize, 11, 12, 13, 14];
    let cells = [[1i64, 0, 0], [0, 0, 0], [1, 0, 0], [0, 1, 0], [0, 0, 0]];
    let sorted = sort_active(&active, &cells);
    let order: Vec<usize> = sorted.iter().map(|e| e.0).collect();
    assert_eq!(order, vec![11, 14, 10, 12, 13]);
    assert_eq!(sorted[0].1, [0, 0, 0]);
    assert_eq!(sorted[2].1, [1, 0, 0]);
    assert_eq!(sorted[4].1, [2, 0, 0]);
    assert_eq!(cut_groups(&sorted, false), vec![0, 2, 4, 5]);
    assert_eq!(cut_groups(&sorted, true), vec![0, 5]);
    assert_eq!(cut_groups(&[], false), vec![0]);
    assert_eq!(cut_groups(&[], true), vec![0]);
}

#[test]
fn negative_cells_have_keys_of_their_own() {
    let sorted = sort_active(&[0, 1], &[[-1, -1, -1], [0, 0, 0]]);
    assert_eq!(sorted[0].0, 1);
    assert_eq!(sorted[1].1, [u64::MAX, u64::MAX, u64::MAX]);
    assert_eq!(cut_groups(&sorted, false), vec![0, 1, 2]);
}

fn build() -> LodBuilder {
    let mut b = LodBuilder::new(vec![0, 0, 0, 1]).unwrap();
    assert_eq!(b.current_level(), 0);
    b.advance_frontier();
    assert_eq!(b.active_splats(), &vec![0, 1, 2]);
    assert!(!b.is_done());
    assert!(b.linearize().is_none());
    let cells = b.merge_level(&[[0, 0, 0], [0, 0, 0], [5, 0, 0]], false).unwrap();
    assert_eq!(cells, 2);
    assert_eq!(b.active_splats(), &vec![4, 2]);
    assert_eq!(b.current_level(), 1);
    assert_eq!(b.num_splats(), 5);
    b.advance_frontier();
    assert_eq!(b.active_splats(), &vec![4, 2, 3]);
    let cells = b.merge_level(&[[0, 0, 0], [1, 0, 0], [1, 1, 0]], true).unwrap();
    assert_eq!(cells, 1);
    assert_eq!(b.active_splats(), &vec![5]);
    assert!(b.is_done());
    b
}

#[test]
fn builder_merges_cells_and_lays_the_tree_out() {
    let b = build();
    let merges = b.merges();
    assert_eq!(merges.len(), 2);
    assert_eq!((merges[0].merged, merges[0].children().to_vec()), (4, vec![0, 1]));
    assert_eq!((merges[1].merged, merges[1].children().to_vec()), (5, vec![4, 2, 3]));
    let layout = b.linearize().unwrap();
    assert_eq!(layout.order, vec![5, 4, 2, 3, 0, 1]);
    assert_eq!(layout.child_start, vec![1, 4, 0, 0, 0, 0]);
    assert_eq!(layout.child_count, vec![3, 2, 0, 0, 0, 0]);
    assert_eq!(layout.levels, vec![2, 1, 0, 1, 0, 0]);
    let n = layout.order.len();
    for p in 0..n {
        let (start, count) = (layout.child_start[p], layout.child_count[p]);
        assert!(count == 0 || start + count <= n);
        for c in start..start + count {
            assert!(layout.levels[p] > layout.levels[c]);
        }
    }
}

#[test]
fn layout_takes_the_merge_met_last_first_within_a_band() {
    let mut b = LodBuilder::new(vec![0, 0, 0, 0]).unwrap();
    b.advance_frontier();
    let near = [0i64, 0, 0];
    let far = [9i64, 0, 0];
    assert_eq!(b.merge_level(&[near, near, far, far], false), Ok(2));
    assert_eq!(b.active_splats(), &vec![4, 5]);
    assert_eq!(b.merge_level(&[near, far], false), Ok(2));
    assert_eq!(b.merge_level(&[near, far], false), Ok(2));
    assert_eq!(b.merges().len(), 2);
    assert_eq!(b.merge_level(&[near, near], false), Ok(1));
    assert_eq!(b.current_level(), 4);
    assert!(b.is_done());
    let layout = b.linearize().unwrap();
    assert_eq!(layout.order, vec![6, 4, 5, 2, 3, 0, 1]);
    assert_eq!(layout.child_start, vec![1, 5, 3, 0, 0, 0, 0]);
    assert_eq!(layout.child_count, vec![2, 2, 2, 0, 0, 0, 0]);
    assert_eq!(layout.levels, vec![4, 1, 1, 0, 0, 0, 0]);
}

#[test]
fn builder_runs_alike_on_the_same_input() {
    let a = build().linearize().unwrap();
    let b = build().linearize().unwrap();
    assert_eq!(a.order, b.order);
    assert_eq!(a.child_start, b.child_start);
    assert_eq!(a.child_count, b.child_count);
    assert_eq!(a.levels, b.levels);
}

#[test]
fn builder_of_one_splat_is_done_once_it_is_at_hand() {
    assert!(LodBuilder::new(vec![]).is_none());
    let mut b = LodBuilder::new(vec![-3]).unwrap();
    assert_eq!(b.current_level(), -3);
    b.advance_frontier();
    assert!(b.is_done());
    let layout = b.linearize().unwrap();
    assert_eq!(layout.order, vec![0]);
    assert_eq!(layout.child_count, vec![0]);
    assert_eq!(layout.levels, vec![-3]);
}

#[test]
fn builder_refuses_a_level_that_does_not_fit() {
    let mut b = LodBuilder::new(vec![i32::MAX, i32::MAX]).unwrap();
    b.advance_frontier();
    assert_eq!(b.merge_level(&[[0, 0, 0], [0, 0, 0]], false), Err(LodError::LevelOverflow));
    assert_eq!(b.active_splats(), &vec![0, 1]);
}

fn node(child_count: u16, child_start: u32) -> [u32; 4] {
    [0x3c00_3c00, 0x4000_3c00, child_count as u32, child_start]
}

fn words(nodes: &[[u32; 4]]) -> Vec<u32> {
    nodes.iter().flat_map(|n| n.iter().copied()).collect()
}

#[test]
fn pages_are_counted_and_mapped() {
    assert_eq!(pages_of(0), 0);
    assert_eq!(pages_of(1), 1);
    assert_eq!(pages_of(65536), 1);
    assert_eq!(pages_of(65537), 2);
    assert_eq!(pages_of(u32::MAX), 65536);
    let mut tree = LodTree::new(200_000);
    assert_eq!(tree.page_to_chunk, vec![0, 1, 2, 3]);
    assert_eq!(tree.chunk_to_page, vec![0, 1, 2, 3]);
    tree.insert_pages(5 << 16, 2 << 16, 65537);
    assert_eq!(tree.page_to_chunk, vec![0, 1, 2, 3, 0, 2, 3]);
    assert_eq!(tree.chunk_to_page, vec![0, 1, 5, 6]);
    tree.clear_pages(1 << 16, 1 << 16, 1);
    assert_eq!(tree.page_to_chunk, vec![0, 0, 2, 3, 0, 2, 3]);
    assert_eq!(tree.chunk_to_page, vec![0, 0, 5, 6]);
    assert!(tree.is_resident(70));
    assert!(!tree.is_resident(65536 + 70));
    assert!(tree.is_resident((2 << 16) + 1));
    assert!(!tree.is_resident(4 << 16));
    assert!(tree.children_resident(5, 65530 + (1 << 17)));
    assert!(!tree.children_resident(5, 65534));
    // Slots that the mappings do not have are passed over.
    tree.clear_pages(100 << 16, 100 << 16, 65536);
    assert_eq!(tree.chunk_to_page, vec![0, 0, 5, 6]);
}

#[test]
fn tree_data_is_read_from_node_records() {
    let mut tree = LodTree::new(3);
    tree.set_data(0, 3, &words(&[node(2, 1), node(0, 0), node(0, 0)]));
    assert_eq!(tree.splats.len(), 3);
    assert_eq!(tree.splats[0].child_count, 2);
    assert_eq!(tree.splats[0].child_start, 1);
    assert_eq!(tree.splats[0].center, [0x3c00, 0x3c00, 0x3c00]);
    assert_eq!(tree.splats[0].size, 0x4000);
    tree.set_data(4, 1, &words(&[node(7, 9)]));
    assert_eq!(tree.splats.len(), 6);
    assert_eq!(tree.splats[3].child_count, 0);
    assert_eq!(tree.splats[4].child_count, 7);
    tree.set_data(1, 1, &words(&[node(1, 2)]));
    assert_eq!(tree.splats.len(), 6);
    assert_eq!(tree.splats[1].child_start, 2);
}

#[test]
fn registry_gives_ids_from_1000() {
    let mut state = LodState::new();
    assert!(!state.has_tree(1000));
    let (a, pages) = state.init_lod_tree(2, &words(&[node(1, 1), node(0, 0)])).unwrap();
    assert_eq!((a, pages), (1000, vec![0]));
    let (b, pages) = state.init_lod_tree(0, &[]).unwrap();
    assert_eq!((b, pages), (1001, vec![]));
    assert_eq!(state.init_lod_tree(2, &[0; 7]).err(), Some(LodTreeError::ShortData));
    assert!(state.has_tree(1000) && state.has_tree(1001) && !state.has_tree(1002));
    state.dispose_lod_tree(1000);
    assert!(!state.has_tree(1000));
    state.dispose_lod_tree(1000);
    let (c, _) = state.init_lod_tree(0, &[]).unwrap();
    assert_eq!(c, 1002);
    assert_eq!(state.page_of_chunk(1001, 0), None);
}

#[test]
fn frontier_looks_at_the_largest_first() {
    assert_eq!(max_index(&vec![(5, 0, 0)]), 0);
    assert_eq!(max_index(&vec![(5, 0, 9), (7, 0, 1), (7, 1, 0), (6, 9, 9)]), 2);
    assert_eq!(max_index(&vec![(5, 2, 9), (5, 2, 10), (5, 1, 99)]), 1);
}

fn wide_tree(children: u16) -> Vec<u32> {
    let mut nodes = vec![node(children, 1)];
    nodes.extend((0..children).map(|_| node(0, 0)));
    words(&nodes)
}

#[test]
fn traversal_stops_at_the_budget() {
    let mut state = LodState::new();
    let (id, _) = state.init_lod_tree(2001, &wide_tree(2000)).unwrap();
    let res = state.traverse_lod_trees(1024, 10, &[id], |_, _| 100).unwrap();
    assert_eq!(res.instances.len(), 1);
    assert_eq!(res.instances[0].lod_id, id);
    assert_eq!(res.instances[0].num_splats, 1);
    assert_eq!(res.instances[0].indices.len(), 16384);
    assert!(res.instances[0].indices.iter().all(|&i| i == 0));
    assert_eq!(res.chunks, vec![(id, 0)]);
}

#[test]
fn traversal_within_the_budget_shows_the_children() {
    let mut state = LodState::new();
    let (id, _) = state.init_lod_tree(2001, &wide_tree(2000)).unwrap();
    let res = state.traverse_lod_trees(2000, 10, &[id], |_, _| 100).unwrap();
    assert_eq!(res.instances[0].num_splats, 2000);
    let want: Vec<u32> = (1..=2000).collect();
    assert_eq!(res.instances[0].indices[..2000], want[..]);
    assert_eq!(res.instances[0].indices.len(), 16384);
    // A root that is small enough is shown itself.
    let res = state.traverse_lod_trees(2000, 100, &[id], |_, _| 100).unwrap();
    assert_eq!(res.instances[0].num_splats, 1);
    // Children that are small enough are shown without waiting.
    let res = state
        .traverse_lod_trees(2000, 10, &[id], |_, p| if p == 0 { 100 } else { 5 })
        .unwrap();
    assert_eq!(res.instances[0].num_splats, 2000);
}

#[test]
fn traversal_takes_the_largest_apart_first() {
    // 0 -> 1, 2;  1 -> 3, 4;  2 -> 5, 6
    let tree = words(&[
        node(2, 1),
        node(2, 3),
        node(2, 5),
        node(0, 0),
        node(0, 0),
        node(0, 0),
        node(0, 0),
    ]);
    let mut state = LodState::new();
    let (id, _) = state.init_lod_tree(7, &tree).unwrap();
    let scale = |_: usize, p: u32| [90, 50, 80, 40, 40, 40, 40][p as usize];
    // Room for three: the root and then node 2 are taken apart.
    let res = state.traverse_lod_trees(3, 10, &[id], scale).unwrap();
    assert_eq!(res.instances[0].indices[..3], [1, 5, 6]);
    assert_eq!(res.instances[0].num_splats, 3);
    let res = state.traverse_lod_trees(4, 10, &[id], scale).unwrap();
    assert_eq!(res.instances[0].indices[..4], [3, 4, 5, 6]);
    let res = state.traverse_lod_trees(2, 10, &[id], scale).unwrap();
    assert_eq!(res.instances[0].indices[..2], [1, 2]);
    // Two instances of one tree share the budget.
    let res = state.traverse_lod_trees(3, 10, &[id, id], scale).unwrap();
    assert_eq!(res.instances.len(), 2);
    assert_eq!(res.instances[0].num_splats + res.instances[1].num_splats, 3);
    assert_eq!(res.instances[1].indices[..2], [1, 2]);
    assert_eq!(res.instances[0].indices[..1], [0]);
    assert_eq!(res.chunks, vec![(id, 0)]);
}

#[test]
fn traversal_shows_a_parent_whose_children_are_not_in_pages() {
    let mut nodes = vec![node(0, 0); 65546];
    nodes[0] = node(4, 65536);
    let mut state = LodState::new();
    let (id, pages) = state.init_lod_tree(65546, &words(&nodes)).unwrap();
    assert_eq!(pages, vec![0, 1]);
    let res = state.traverse_lod_trees(100, 10, &[id], |_, _| 50).unwrap();
    assert_eq!(res.instances[0].indices[..4], [65536, 65537, 65538, 65539]);
    assert_eq!(res.chunks, vec![(id, 0), (id, 1)]);

    assert_eq!(state.clear_lod_tree(id, 1 << 16, 1 << 16, 10), vec![0, 0]);
    let res = state.traverse_lod_trees(100, 10, &[id], |_, _| 50).unwrap();
    assert_eq!(res.instances[0].num_splats, 1);
    assert_eq!(res.instances[0].indices[0], 0);
    assert_eq!(res.chunks, vec![(id, 0), (id, 1)]);

    // The chunk comes back in another page.
    let pages = state.insert_lod_tree(id, 2 << 16, 1 << 16, 10, &words(&nodes[1..11])).unwrap();
    assert_eq!(pages, vec![0, 2]);
    assert_eq!(state.page_of_chunk(id, 1), Some(2));
    let res = state.traverse_lod_trees(100, 10, &[id], |_, _| 50).unwrap();
    let first = 2 << 16;
    assert_eq!(res.instances[0].indices[..4], [first, first + 1, first + 2, first + 3]);
}

#[test]
fn traversal_errors() {
    let mut state = LodState::new();
    assert_eq!(
        state.traverse_lod_trees(10, 0, &[1000], |_, _| 1).err(),
        Some(LodTreeError::UnknownTree(1000))
    );
    let (empty, _) = state.init_lod_tree(0, &[]).unwrap();
    assert_eq!(
        state.traverse_lod_trees(10, 0, &[empty], |_, _| 1).err(),
        Some(LodTreeError::CorruptTree(empty))
    );
    // A node whose children lie behind the tree.
    let (bad, _) = state.init_lod_tree(1, &words(&[node(2, 5)])).unwrap();
    assert_eq!(
        state.traverse_lod_trees(10, 0, &[bad], |_, _| 1).err(),
        Some(LodTreeError::CorruptTree(bad))
    );
    // A node that is its own child.
    let (cycle, _) = state.init_lod_tree(1, &words(&[node(1, 0)])).unwrap();
    assert_eq!(
        state.traverse_lod_trees(10, 0, &[cycle], |_, _| 1).err(),
        Some(LodTreeError::CorruptTree(cycle))
    );
    assert!(state.traverse_lod_trees(10, 0, &[], |_, _| 1).unwrap().instances.is_empty());
}

#[test]
fn chunks_of_several_trees_are_put_into_pages() {
    let mut state = LodState::new();
    let (a, _) = state.init_lod_tree(2, &words(&[node(1, 1), node(0, 0)])).unwrap();
    let (b, _) = state.init_lod_tree(1, &words(&[node(0, 0)])).unwrap();
    let one = words(&[node(3, 4)]);
    let pages = state
        .insert_lod_trees(&[b, a, b], &[2 << 16, 1 << 16, 3 << 16], &[1 << 16, 2 << 16, 3 << 16], &[1, 1, 1], &[
            one.clone(),
            one.clone(),
            one.clone(),
        ])
        .unwrap();
    assert_eq!(pages, vec![(b, vec![0, 2, 0, 3]), (a, vec![0, 0, 1])]);
    assert_eq!(state.page_of_chunk(a, 2), Some(1));
    assert_eq!(state.node(b, 2 << 16).map(|n| (n.child_count, n.child_start)), Some((3, 4)));
    assert_eq!(state.node(a, 0).map(|n| n.child_count), Some(1));
    assert!(state.node(a, 5 << 16).is_none());
    assert!(state.node(77, 0).is_none());

    let pages = state.clear_lod_trees(&[b, 77], &[2 << 16, 0], &[1 << 16, 0], &[1, 1]).unwrap();
    assert_eq!(pages[0], (b, vec![0, 0, 0, 3]));
    assert_eq!(state.page_of_chunk(b, 1), Some(0));

    assert_eq!(
        state.insert_lod_trees(&[a], &[0, 0], &[0], &[1], &[one.clone()]).err(),
        Some(LodTreeError::LengthMismatch)
    );
    assert_eq!(
        state.clear_lod_trees(&[a], &[0], &[0], &[]).err(),
        Some(LodTreeError::LengthMismatch)
    );
    assert_eq!(
        state.insert_lod_trees(&[a], &[0], &[0], &[2], &[one]).err(),
        Some(LodTreeError::ShortData)
    );
}

#[test]
fn levels_end_when_all_is_at_hand_and_the_cells_are_close() {
    let mut b = LodBuilder::new(vec![0, 0, 5]).unwrap();
    b.advance_frontier();
    // A splat of the scene is yet to come.
    assert!(!b.level_done(&[[0, 0, 0], [1, 0, 0]]));
    let mut b = LodBuilder::new(vec![0, 0]).unwrap();
    b.advance_frontier();
    assert!(b.level_done(&[[0, 0, 0], [1, 1, -1]]));
    assert!(b.level_done(&[[-1, 7, 0], [0, 8, 0]]));
    assert!(!b.level_done(&[[0, 0, 0], [0, 2, 0]]));
    assert!(!b.level_done(&[[i64::MIN, 0, 0], [i64::MAX, 0, 0]]));
    assert!(b.level_done(&[]));
}
