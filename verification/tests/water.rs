use aoc::y18_water::{
    BlockRange, BlockRangeRow, BlockRect, Error, FlowEnd, FlowEndType, UnderGroundMap, WaterMap,
    WaterRow, WaterRowRange,
};

#[test]
fn block_range_combine_and_len() {
    let mut r = BlockRange::beg_end(1, 3);
    assert!(r.combine(&BlockRange::beg_end(3, 5)));
    assert_eq!(r, BlockRange::beg_end(1, 5));
    assert_eq!(r.len(), 4);
    assert!(!r.combine(&BlockRange::beg_len(7, 2)));
    assert_eq!(r, BlockRange::beg_end(1, 5));
}

#[test]
fn block_range_row_merges_ranges() {
    let mut row = BlockRangeRow::new();
    row.add_range(&BlockRange::beg_end(8, 9));
    row.add_range(&BlockRange::beg_end(2, 3));
    row.add_range(&BlockRange::beg_end(5, 6));
    assert_eq!(row.search_arr(), vec![2, 3, 5, 6, 8, 9]);
    row.add_range(&BlockRange::beg_end(3, 5));
    assert_eq!(row.search_arr(), vec![2, 6, 8, 9]);
    row.add_range(&BlockRange::beg_end(0, 20));
    assert_eq!(row.search_arr(), vec![0, 20]);
}

#[test]
fn rect_rows_walk_top_to_bottom() {
    let rect = BlockRect::from_range(&BlockRange::beg_end(2, 4), &BlockRange::beg_end(1, 3));
    let mut rows = rect.rows();
    assert_eq!(rows.next(), Some((2, BlockRange::beg_end(1, 3))));
    assert_eq!(rows.next(), Some((3, BlockRange::beg_end(1, 3))));
    assert_eq!(rows.next(), None);
}

fn basin() -> UnderGroundMap {
    let mut map = UnderGroundMap::new();
    map.add_row_range(10, &BlockRange::beg_end(0, 10));
    map.add_row_range(9, &BlockRange::beg_end(2, 3));
    map.add_row_range(9, &BlockRange::beg_end(8, 9));
    map
}

#[test]
fn underground_map_ranges_and_blocks() {
    let mut map = UnderGroundMap::new();
    let rect = BlockRect::from_range(&BlockRange::beg_end(1, 4), &BlockRange::beg_end(2, 5));
    map.add_rect(&rect);
    assert_eq!(map.vert_range(), 1..4);
    assert_eq!(map.horz_range(), 0..5);
    assert!(map.is_blocked(1, 2));
    assert!(map.is_blocked(3, 4));
    assert!(!map.is_blocked(1, 5));
    assert!(!map.is_blocked(0, 2));
    assert!(!map.is_blocked(4, 3));
    assert_eq!(UnderGroundMap::new().vert_range(), 0..1);
}

#[test]
fn search_same_col_range_cases() {
    let map = basin();
    assert_eq!(map.search_same_col_range(9, 5), (FlowEndType::Leak, 3, 8));
    assert_eq!(map.search_same_col_range(9, 2), (FlowEndType::Block, 2, 3));
    assert_eq!(map.search_same_col_range(9, 3), (FlowEndType::Leak, 3, 8));
    assert_eq!(map.search_same_col_range(9, 20), (FlowEndType::Leak, 9, usize::MAX));
    assert_eq!(map.search_same_col_range(4, 20), (FlowEndType::Leak, 0, usize::MAX));
    assert_eq!(map.search_row(10), vec![0, 10]);
}

#[test]
fn flow_hort_between_walls() {
    let map = basin();
    match map.flow_hort(9, 5) {
        Ok((l, r)) => {
            assert_eq!(l, FlowEnd::block(2));
            assert_eq!(r, FlowEnd::block(8));
        }
        Err(_) => panic!("expected water to rest"),
    }
}

#[test]
fn flow_hort_over_the_edge() {
    let mut map = UnderGroundMap::new();
    map.add_row_range(10, &BlockRange::beg_end(0, 10));
    match map.flow_hort(9, 5) {
        Ok((l, r)) => {
            assert_eq!(l, FlowEnd::block(0));
            assert_eq!(r, FlowEnd::leak(10));
        }
        Err(_) => panic!("expected a flow"),
    }
}

#[test]
fn flow_hort_errors() {
    let map = basin();
    assert!(matches!(map.flow_hort(9, 2), Err(Error::WaterFlowThroughClay(p)) if p.r == 9 && p.c == 2));
    assert!(matches!(map.flow_hort(5, 5), Err(Error::WaterBlockedByGhost(p)) if p.r == 6 && p.c == 5));
}

#[test]
fn water_row_counts() {
    let mut row = WaterRow::new();
    row.add_range(&WaterRowRange::reach(&BlockRange::beg_end(2, 6)));
    row.add_range(&WaterRowRange::rest(&BlockRange::beg_end(3, 5)));
    assert_eq!(row.count_water(), (2, 2));
}

#[test]
fn water_map_counts_only_vertical_range() {
    let mut water = WaterMap::new(&(1..20));
    water.add_row_range(5, &WaterRowRange::reach(&BlockRange::beg_end(2, 6)));
    water.add_row_range(5, &WaterRowRange::rest(&BlockRange::beg_end(3, 5)));
    water.add_row_range(7, &WaterRowRange::reach(&BlockRange::beg_end(0, 3)));
    water.add_row_range(30, &WaterRowRange::reach(&BlockRange::beg_end(0, 100)));
    assert_eq!(water.count_water(), (5, 2));
    assert_eq!(water.horz_range(), 0..6);
    assert!(water.is_in_vert_range(1));
    assert!(!water.is_in_vert_range(20));
}
