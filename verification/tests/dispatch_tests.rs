use merkle_accel::dispatch::{
    GridSize, LevelPass, digest_buffer_bytes, get_size_for_count, leaves_buffer_bytes,
    level_passes, thread_group_count, uniforms_for_level,
};
use merkle_accel::params::derive_params;

#[test]
fn small_counts_fill_one_row() {
    assert_eq!(get_size_for_count(1), GridSize { width: 1, height: 1, depth: 1 });
    assert_eq!(get_size_for_count(100), GridSize { width: 100, height: 1, depth: 1 });
    assert_eq!(get_size_for_count(32768), GridSize { width: 32768, height: 1, depth: 1 });
}

#[test]
fn large_counts_tile_into_rows() {
    assert_eq!(get_size_for_count(65536), GridSize { width: 32768, height: 2, depth: 1 });
    assert_eq!(get_size_for_count(131072), GridSize { width: 32768, height: 4, depth: 1 });
}

#[test]
fn uneven_counts_get_an_extra_row() {
    // A count just over the limit still has every group covered.
    assert_eq!(get_size_for_count(32769), GridSize { width: 32768, height: 2, depth: 1 });
    assert_eq!(get_size_for_count(65537), GridSize { width: 32768, height: 3, depth: 1 });
    let g = get_size_for_count(100000);
    assert_eq!(g, GridSize { width: 32768, height: 4, depth: 1 });
    assert!(g.width * g.height >= 100000);
}

#[test]
fn thread_groups_cover_the_work() {
    // (8192 + 32) / 32 == 257 groups in one row.
    assert_eq!(thread_group_count(8192, 32), GridSize { width: 257, height: 1, depth: 1 });
    assert_eq!(thread_group_count(31, 32), GridSize { width: 1, height: 1, depth: 1 });
}

#[test]
fn uniforms_carry_the_layout_words() {
    let p = derive_params(8192, 4, 4).unwrap();
    let u = uniforms_for_level(&p, 3);
    assert_eq!(u.level, 3);
    assert_eq!(u.tree_length, 1022);
    assert_eq!(u.num_layers, 9);
    assert_eq!(u.leaf_length, 4);
    assert_eq!(u.to_words(), [3, 1022, 9, 4]);
}

#[test]
fn one_pass_per_remaining_layer() {
    let p = derive_params(8192, 4, 4).unwrap();
    let passes = level_passes(&p);
    assert_eq!(passes.len(), 8);
    assert_eq!(passes[0], LevelPass { level: 1, work_items: 4096 });
    assert_eq!(passes[1], LevelPass { level: 2, work_items: 2048 });
    assert_eq!(passes[7], LevelPass { level: 8, work_items: 32 });
}

#[test]
fn buffer_sizes_count_eight_byte_words() {
    let p = derive_params(8192, 4, 4).unwrap();
    // 16352 digests of four 8-byte field elements each.
    assert_eq!(digest_buffer_bytes(&p), 16352 * 32);
    // 8192 leaves of four 8-byte field elements each.
    assert_eq!(leaves_buffer_bytes(&p), 8192 * 4 * 8);
}
