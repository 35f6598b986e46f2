use spark_lib::quick_lod::{order_by_keys, LodLayout};
use spark_lib::decoder::SplatInit;
use spark_lib::gsplat::{
    apply_swaps, check_permutation, compute_swaps, permute, retain_marked, zero_splat,
    GsplatArray,
};

#[test]
fn permutation_is_checked() {
    assert!(check_permutation(&[]));
    assert!(check_permutation(&[2, 0, 1]));
    assert!(!check_permutation(&[0, 0, 1]));
    assert!(!check_permutation(&[0, 3, 1]));
}

#[test]
fn permute_puts_old_entries_at_new_places() {
    let index_map = [3usize, 0, 4, 1, 2, 5];
    let mut data = vec![10, 11, 12, 13, 14, 15];
    permute(&mut data, &index_map);
    assert_eq!(data, vec![13, 10, 14, 11, 12, 15]);
}

#[test]
fn swaps_follow_the_cycles() {
    assert_eq!(compute_swaps(&[0, 1, 2]), vec![]);
    assert_eq!(compute_swaps(&[1, 0]), vec![(0, 1)]);
    let index_map = [2usize, 0, 1];
    let swaps = compute_swaps(&index_map);
    assert!(swaps.len() <= 3);
    let mut data = vec!['a', 'b', 'c'];
    apply_swaps(&mut data, &swaps);
    assert_eq!(data, vec!['c', 'a', 'b']);
}

#[test]
fn retain_keeps_marked_entries_in_order() {
    let mut data = vec![1, 2, 3, 4, 5];
    retain_marked(&mut data, &[true, false, true, false, true]);
    assert_eq!(data, vec![1, 3, 5]);
}

fn splat(tag: u32) -> spark_lib::gsplat::Gsplat {
    let mut g = zero_splat();
    g.center = [tag, tag + 1, tag + 2];
    g.opacity = tag as u16;
    g
}

#[test]
fn array_permutes_all_parallel_arrays_alike() {
    let mut a = GsplatArray::new_capacity(4, 1);
    for i in 0..4u32 {
        let index = a.push_splat(splat(100 * i), Some([i as u16; 9]), None, None);
        assert_eq!(index, i as usize);
    }
    a.permute(&[2, 3, 0, 1]);
    assert_eq!(a.len(), 4);
    assert_eq!(a.sh1.len(), 4);
    assert_eq!(a.sh2.len(), 0);
    for (new, old) in [(0usize, 2u32), (1, 3), (2, 0), (3, 1)] {
        assert_eq!(a.get(new).center[0], 100 * old);
        assert_eq!(a.sh1[new], [old as u16; 9]);
    }
}

#[test]
fn array_retains_splats_with_their_harmonics() {
    let mut a = GsplatArray::new_capacity(0, 2);
    for i in 0..3u32 {
        a.push_splat(splat(i), Some([i as u16; 9]), Some([i as u16 + 10; 15]), None);
    }
    a.retain(&[false, true, true]);
    assert_eq!(a.count(), 2);
    assert_eq!(a.get(0).center[0], 1);
    assert_eq!(a.sh1[1], [2; 9]);
    assert_eq!(a.sh2[0], [11; 15]);
}

#[test]
fn init_makes_aligned_arrays() {
    let mut a = GsplatArray::new();
    a.init_splats(&SplatInit { num_splats: 5, max_sh_degree: 3, lod_tree: true });
    assert_eq!(a.len(), 5);
    assert_eq!(a.extras.len(), 5);
    assert_eq!(a.sh1.len(), 5);
    assert_eq!(a.sh2.len(), 5);
    assert_eq!(a.sh3.len(), 5);
    assert!(a.has_lod_tree());
    assert!(a.check_children());
    a.init_splats(&SplatInit { num_splats: 2, max_sh_degree: 0, lod_tree: false });
    assert_eq!(a.len(), 2);
    assert_eq!(a.extras.len(), 0);
    assert_eq!(a.sh1.len(), 0);
    assert!(!a.has_lod_tree());
}

#[test]
fn setters_overwrite_overlapping_ranges() {
    let mut a = GsplatArray::new();
    a.init_splats(&SplatInit { num_splats: 3, max_sh_degree: 0, lod_tree: false });
    a.set_center(0, 3, &[1, 2, 3, 4, 5, 6, 7, 8, 9]);
    a.set_center(1, 2, &[40, 50, 60, 70, 80, 90]);
    a.set_opacity(0, 3, &[1, 2, 3]);
    a.set_rgb(2, 1, &[7, 7, 7]);
    a.set_scale(0, 1, &[8, 8, 8]);
    a.set_quat(1, 1, &[1, 2, 3, 4]);
    a.set_rgba(0, 1, &[9, 9, 9, 99]);
    assert_eq!(a.get(0).center, [1, 2, 3]);
    assert_eq!(a.get(1).center, [40, 50, 60]);
    assert_eq!(a.get(2).center, [70, 80, 90]);
    assert_eq!(a.get(0).opacity, 99);
    assert_eq!(a.get(0).rgb, [9, 9, 9]);
    assert_eq!(a.get(1).opacity, 2);
    assert_eq!(a.get(2).rgb, [7, 7, 7]);
    assert_eq!(a.get(0).ln_scales, [8, 8, 8]);
    assert_eq!(a.get(1).quaternion, [1, 2, 3, 4]);
}

#[test]
fn child_ranges_are_set_and_read_back() {
    let mut a = GsplatArray::new();
    a.init_splats(&SplatInit { num_splats: 4, max_sh_degree: 0, lod_tree: true });
    a.set_child_start(0, 4, &[1, 0, 3, 0]);
    a.set_child_count(0, 4, &[2, 0, 1, 0]);
    assert_eq!(a.get_child_count(0, 4), vec![2, 0, 1, 0]);
    assert_eq!(a.get_child_start(0, 4), vec![1, 0, 3, 0]);
    assert!(a.check_children());
    // A later call on an overlapping range wins.
    a.set_child_count(2, 1, &[5]);
    assert_eq!(a.get_child_count(2, 1), vec![5]);
    assert_eq!(a.get_child_start(2, 1), vec![3]);
    assert!(!a.check_children());
    // A count without a start makes a range from 0.
    a.set_child_count(1, 1, &[2]);
    assert_eq!(a.get_child_start(1, 1), vec![0]);
    // A start without a count makes one child.
    a.set_child_start(3, 1, &[2]);
    assert_eq!(a.get_child_count(3, 1), vec![1]);
}

#[test]
fn bands_are_set_where_the_array_holds_them() {
    let mut a = GsplatArray::new();
    a.init_splats(&SplatInit { num_splats: 3, max_sh_degree: 2, lod_tree: false });
    let sh1: Vec<u16> = (100..118).collect();
    let sh2: Vec<u16> = (200..230).collect();
    let sh3: Vec<u16> = (300..342).collect();
    a.set_sh(1, 2, &sh1, &sh2, &sh3);
    assert_eq!(a.sh1[0], [0; 9]);
    assert_eq!(a.sh1[1], [100, 101, 102, 103, 104, 105, 106, 107, 108]);
    assert_eq!(a.sh1[2], [109, 110, 111, 112, 113, 114, 115, 116, 117]);
    assert_eq!(a.sh2[2][0], 215);
    assert_eq!(a.sh2[2][14], 229);
    assert!(a.sh3.is_empty());
    a.set_sh(0, 1, &[], &sh2, &[]);
    assert_eq!(a.sh1[0], [0; 9]);
    assert_eq!(a.sh2[0][14], 214);
    a.set_sh1(0, 1, &sh1);
    assert_eq!(a.sh1[0][8], 108);
    assert!(a.is_wf());
}

#[test]
fn a_subset_holds_the_range_of_every_array() {
    let mut a = GsplatArray::new();
    a.init_splats(&SplatInit { num_splats: 4, max_sh_degree: 1, lod_tree: true });
    a.set_opacity(0, 4, &[10, 11, 12, 13]);
    a.set_sh1(0, 4, &(0..36).collect::<Vec<u16>>());
    a.set_child_start(0, 4, &[1, 0, 0, 0]);
    a.set_child_count(0, 4, &[3, 0, 0, 0]);
    let part = a.clone_subset(1, 2);
    assert!(part.is_wf());
    assert_eq!(part.max_sh_degree, 1);
    assert_eq!(part.len(), 2);
    assert_eq!(part.splats[0].opacity, 11);
    assert_eq!(part.splats[1].opacity, 12);
    assert_eq!(part.sh1[0][0], 9);
    assert_eq!(part.sh1[1][8], 26);
    assert_eq!(part.extras.len(), 2);
    assert!(part.sh2.is_empty());
    let whole = a.clone_subset(0, 4);
    assert_eq!(whole.extras[0].child_count, 3);
    assert_eq!(a.clone_subset(4, 0).len(), 0);
}

#[test]
fn sorting_by_keys_keeps_the_order_of_equal_keys() {
    assert_eq!(order_by_keys(&[5, 1, 5, 0, 1]), vec![3, 1, 4, 0, 2]);
    assert_eq!(order_by_keys(&[]), Vec::<usize>::new());
    let mut a = GsplatArray::new();
    a.init_splats(&SplatInit { num_splats: 5, max_sh_degree: 1, lod_tree: false });
    a.set_opacity(0, 5, &[10, 11, 12, 13, 14]);
    a.set_sh1(0, 5, &(0..45).collect::<Vec<u16>>());
    let order = a.sort_by(&[5, 1, 5, 0, 1]);
    assert_eq!(order, vec![3, 1, 4, 0, 2]);
    let opacities: Vec<u16> = a.splats.iter().map(|s| s.opacity).collect();
    assert_eq!(opacities, vec![13, 11, 14, 10, 12]);
    assert_eq!(a.sh1[0][0], 27);
    assert_eq!(a.sh1[4][0], 18);
    assert!(a.is_wf());
    a.sh1.pop();
    assert!(!a.is_wf());
}

#[test]
fn swaps_walk_the_cycles() {
    assert_eq!(compute_swaps(&[2, 0, 1]), vec![(0, 1), (0, 2)]);
    assert_eq!(compute_swaps(&[0, 1, 2]), vec![]);
    assert_eq!(compute_swaps(&[1, 0, 3, 2]), vec![(0, 1), (2, 3)]);
    let mut data = vec!['a', 'b', 'c'];
    apply_swaps(&mut data, &compute_swaps(&[2, 0, 1]));
    assert_eq!(data, vec!['c', 'a', 'b']);
}

#[test]
fn a_layout_gives_ranges_and_parents() {
    let mut a = GsplatArray::new();
    a.init_splats(&SplatInit { num_splats: 4, max_sh_degree: 0, lod_tree: true });
    a.set_opacity(0, 4, &[10, 11, 12, 13]);
    let layout = LodLayout {
        order: vec![3, 2, 0, 1],
        child_start: vec![1, 2, 0, 0],
        child_count: vec![1, 2, 0, 0],
        levels: vec![2, 1, 0, 0],
    };
    assert!(a.apply_layout(&layout));
    let opacities: Vec<u16> = a.splats.iter().map(|s| s.opacity).collect();
    assert_eq!(opacities, vec![13, 12, 10, 11]);
    let ranges: Vec<(usize, usize)> =
        a.extras.iter().map(|e| (e.child_start, e.child_count)).collect();
    assert_eq!(ranges, vec![(1, 1), (2, 2), (0, 0), (0, 0)]);
    let parents: Vec<usize> = a.extras.iter().map(|e| e.parent).collect();
    assert_eq!(parents, vec![usize::MAX, 0, 1, 1]);
    assert!(a.check_children());

    // A layout that does not fit leaves the array as it is.
    let wrong = LodLayout {
        order: vec![0, 1, 2, 3],
        child_start: vec![3, 0, 0, 0],
        child_count: vec![2, 0, 0, 0],
        levels: vec![0; 4],
    };
    assert!(!a.apply_layout(&wrong));
    let twice = LodLayout {
        order: vec![0, 0, 2, 3],
        child_start: vec![0; 4],
        child_count: vec![0; 4],
        levels: vec![0; 4],
    };
    assert!(!a.apply_layout(&twice));
    let after: Vec<u16> = a.splats.iter().map(|s| s.opacity).collect();
    assert_eq!(after, vec![13, 12, 10, 11]);
}
