use block_model::block::{BlockCoordinates, BlockIndex, BlockInterface, BlockSize, SimpleBlock};
use block_model::block_model::{
    BlockModel, BlockModelError, SquareAdj, SquarePreds, SquareSuccs,
};

fn unit_size() -> BlockSize {
    BlockSize { x_size: 1, y_size: 1, z_size: 1 }
}

fn simple(x: i64, y: i64, z: i64, size: BlockSize) -> SimpleBlock {
    SimpleBlock {
        coords: BlockCoordinates { x, y, z },
        size,
        ind: BlockIndex::default(),
    }
}

fn ind(i: usize, j: usize, k: usize) -> BlockIndex {
    BlockIndex { i, j, k }
}

/// All eight unit-cube corners, loaded unindexed: a full 2x2x2 model.
fn corner_model() -> BlockModel<SimpleBlock> {
    let s = unit_size();
    let mut blocks = Vec::new();
    for x in 0..2 {
        for y in 0..2 {
            for z in 0..2 {
                blocks.push(simple(x, y, z, s));
            }
        }
    }
    BlockModel::from_unindexed(blocks).unwrap()
}

#[test]
fn from_indexed_places_each_block() {
    let s = unit_size();
    let blocks = vec![simple(0, 0, 0, s), simple(5, 5, 5, s)];
    let inds = vec![ind(0, 0, 0), ind(1, 2, 3)];
    let model = BlockModel::from_indexed(blocks, inds);
    assert_eq!(model.extents(), (2, 3, 4));
    let cell = model.block(ind(1, 2, 3));
    assert_eq!(cell.as_ref().unwrap().coordinates(), BlockCoordinates { x: 5, y: 5, z: 5 });
    assert!(model.block(ind(0, 0, 0)).is_some());
    assert!(model.block(ind(1, 0, 0)).is_none());
    assert!(model.block(ind(0, 2, 3)).is_none());
}

#[test]
fn from_indexed_last_write_wins() {
    let s = unit_size();
    let blocks = vec![simple(1, 0, 0, s), simple(2, 0, 0, s), simple(3, 0, 0, s)];
    let inds = vec![ind(0, 0, 0), ind(0, 0, 0), ind(1, 0, 0)];
    let model = BlockModel::from_indexed(blocks, inds);
    // The later pairing at (0,0,0) overwrote the earlier one.
    assert_eq!(model.block(ind(0, 0, 0)).as_ref().unwrap().coordinates().x, 2);
    assert_eq!(model.block(ind(1, 0, 0)).as_ref().unwrap().coordinates().x, 3);
}

#[test]
fn block_mut_updates_one_cell() {
    let mut model = corner_model();
    *model.block_mut(ind(0, 1, 0)) = None;
    assert!(model.block(ind(0, 1, 0)).is_none());
    assert!(model.block(ind(1, 1, 0)).is_some());
    let replacement = simple(9, 9, 9, unit_size());
    *model.block_mut(ind(0, 1, 0)) = Some(replacement.clone());
    assert_eq!(model.block(ind(0, 1, 0)).as_ref().unwrap(), &replacement);
}

#[test]
fn unindexed_corners_fill_the_grid() {
    // Origin (0,0,0), uniform unit size, all eight corners present.
    let model = corner_model();
    assert_eq!(model.extents(), (2, 2, 2));
    for i in 0..2 {
        for j in 0..2 {
            for k in 0..2 {
                let cell = model.block(ind(i, j, k));
                let b = cell.as_ref().expect("corner cell must be occupied");
                assert_eq!(b.index(), ind(i, j, k));
                assert_eq!(
                    b.coordinates(),
                    BlockCoordinates { x: i as i64, y: j as i64, z: k as i64 }
                );
            }
        }
    }
}

#[test]
fn unindexed_roundtrips_coordinates() {
    // index * size + origin reproduces each original coordinate.
    let s = BlockSize { x_size: 3, y_size: 5, z_size: 2 };
    let coords = [(-3i64, 10i64, 4i64), (0, 0, 0), (3, 5, 2), (6, 10, 8)];
    let mut blocks = Vec::new();
    for (x, y, z) in coords {
        blocks.push(simple(x, y, z, s));
    }
    let model = BlockModel::from_unindexed(blocks).unwrap();
    let (ni, nj, nk) = model.extents();
    let (ox, oy, oz) = (-3i64, 0i64, 0i64);
    let mut seen = 0;
    for i in 0..ni {
        for j in 0..nj {
            for k in 0..nk {
                if let Some(b) = model.block(ind(i, j, k)).as_ref() {
                    seen += 1;
                    let c = b.coordinates();
                    assert_eq!(c.x, ox + i as i64 * s.x_size);
                    assert_eq!(c.y, oy + j as i64 * s.y_size);
                    assert_eq!(c.z, oz + k as i64 * s.z_size);
                }
            }
        }
    }
    assert_eq!(seen, 4);
}

#[test]
fn unindexed_empty_batch_is_rejected() {
    let blocks: Vec<SimpleBlock> = Vec::new();
    match BlockModel::from_unindexed(blocks) {
        Err(e) => assert_eq!(e, BlockModelError::InconsistentBlockSize),
        Ok(_) => panic!("an empty batch must be rejected"),
    }
}

#[test]
fn unindexed_mixed_sizes_are_rejected() {
    let a = simple(0, 0, 0, unit_size());
    let b = simple(1, 0, 0, BlockSize { x_size: 2, y_size: 1, z_size: 1 });
    match BlockModel::from_unindexed(vec![a, b]) {
        Err(e) => assert_eq!(e, BlockModelError::InconsistentBlockSize),
        Ok(_) => panic!("mixed sizes must be rejected"),
    }
}

#[test]
fn unindexed_misaligned_coordinate_is_rejected() {
    // The second block sits half a cell away from the origin: the load
    // must fail rather than silently truncate.
    let s = BlockSize { x_size: 2, y_size: 2, z_size: 2 };
    let a = simple(0, 0, 0, s);
    let b = simple(1, 0, 0, s);
    match BlockModel::from_unindexed(vec![a, b]) {
        Err(e) => assert_eq!(e, BlockModelError::MisalignedCoordinate),
        Ok(_) => panic!("a misaligned coordinate must be rejected"),
    }
}

#[test]
fn preds_empty_at_topmost_layer() {
    let model = corner_model();
    assert_eq!(model.dependent_block_inds(ind(0, 0, 1), SquarePreds), vec![]);
    assert_eq!(model.dependent_block_inds(ind(1, 1, 1), SquarePreds), vec![]);
}

#[test]
fn succs_empty_at_bottom_layer() {
    let model = corner_model();
    assert_eq!(model.dependent_block_inds(ind(0, 0, 0), SquareSuccs), vec![]);
    assert_eq!(model.dependent_block_inds(ind(1, 1, 0), SquareSuccs), vec![]);
}

#[test]
fn footprint_clamps_at_the_corner() {
    // On a full 2x2x2 grid, the footprint of a corner center clamps to
    // the 2x2 square on the target layer: four entries, none of them
    // out of range.
    let model = corner_model();
    let expected = vec![ind(0, 0, 0), ind(0, 1, 0), ind(1, 0, 0), ind(1, 1, 0)];
    assert_eq!(model.dependent_block_inds(ind(0, 0, 1), SquareSuccs), expected);
    let expected_up = vec![ind(0, 0, 1), ind(0, 1, 1), ind(1, 0, 1), ind(1, 1, 1)];
    assert_eq!(model.dependent_block_inds(ind(0, 0, 0), SquarePreds), expected_up);
}

#[test]
fn preds_ignore_occupancy() {
    let s = unit_size();
    // Two blocks on a 1x1x2 column; the lower cell stays empty.
    let blocks = vec![simple(0, 0, 0, s)];
    let inds = vec![ind(0, 0, 0)];
    let model = BlockModel::from_indexed(blocks, inds);
    let tall = BlockModel::from_indexed(
        vec![simple(0, 0, 0, s)],
        vec![ind(0, 0, 1)],
    );
    assert_eq!(model.extents(), (1, 1, 1));
    assert_eq!(tall.extents(), (1, 1, 2));
    // The layer below exists but is unoccupied; it is listed anyway.
    assert!(tall.block(ind(0, 0, 0)).is_none());
    assert_eq!(tall.dependent_block_inds(ind(0, 0, 0), SquarePreds), vec![ind(0, 0, 1)]);
    assert_eq!(tall.dependent_block_inds(ind(0, 0, 1), SquareSuccs), vec![ind(0, 0, 0)]);
}

#[test]
fn adjacency_filters_by_occupancy_and_keeps_center() {
    let s = unit_size();
    // A 3x3x1 plate with only the center and one corner occupied.
    let blocks = vec![simple(1, 1, 0, s), simple(0, 0, 0, s), simple(2, 2, 0, s)];
    let inds = vec![ind(1, 1, 0), ind(0, 0, 0), ind(2, 2, 0)];
    let model = BlockModel::from_indexed(blocks, inds);
    assert_eq!(model.extents(), (3, 3, 1));
    let adj = model.dependent_block_inds(ind(1, 1, 0), SquareAdj);
    // Only occupied cells of the 3x3 footprint, the center included.
    assert_eq!(adj, vec![ind(0, 0, 0), ind(1, 1, 0), ind(2, 2, 0)]);
    // An unoccupied center is not listed for its own neighborhood.
    let adj_empty_center = model.dependent_block_inds(ind(1, 0, 0), SquareAdj);
    assert_eq!(adj_empty_center, vec![ind(0, 0, 0), ind(1, 1, 0)]);
}

#[test]
fn adjacency_on_full_layer_lists_whole_footprint() {
    let model = corner_model();
    let adj = model.dependent_block_inds(ind(0, 0, 0), SquareAdj);
    assert_eq!(adj, vec![ind(0, 0, 0), ind(0, 1, 0), ind(1, 0, 0), ind(1, 1, 0)]);
}

#[test]
fn interior_footprint_has_nine_entries() {
    let s = unit_size();
    let mut blocks = Vec::new();
    let mut inds = Vec::new();
    for i in 0..3 {
        for j in 0..3 {
            for k in 0..2 {
                blocks.push(simple(i as i64, j as i64, k as i64, s));
                inds.push(ind(i, j, k));
            }
        }
    }
    let model = BlockModel::from_indexed(blocks, inds);
    let preds = model.dependent_block_inds(ind(1, 1, 0), SquarePreds);
    assert_eq!(preds.len(), 9);
    for b in &preds {
        assert_eq!(b.k, 1);
    }
    assert_eq!(preds[0], ind(0, 0, 1));
    assert_eq!(preds[8], ind(2, 2, 1));
}

#[test]
fn set_index_records_placement() {
    let mut b = simple(4, 4, 4, unit_size());
    assert_eq!(b.index(), BlockIndex::default());
    b.set_index(ind(1, 2, 3));
    assert_eq!(b.index(), ind(1, 2, 3));
    assert_eq!(b.coordinates(), BlockCoordinates { x: 4, y: 4, z: 4 });
    assert_eq!(b.size(), unit_size());
}

#[test]
fn block_index_orders_lexicographically() {
    assert!(ind(0, 9, 9) < ind(1, 0, 0));
    assert!(ind(1, 0, 9) < ind(1, 1, 0));
    assert!(ind(1, 1, 0) < ind(1, 1, 2));
    assert_eq!(ind(1, 1, 1), ind(1, 1, 1));
}
