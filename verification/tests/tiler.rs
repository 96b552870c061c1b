//! Tile ids, buckets and bit sets.

use shashlik_tiles::bitset::BitSet;
use shashlik_tiles::store::{
    file_len, node_store_matches, resolve_refs, PackedCoord, SparseStoreBuilder,
};
use shashlik_tiles::tile::{Tile, TileRange};
use shashlik_tiles::tiler::{bucket_local_id, bucket_local_xyz, demorton2, morton2, TileParams};

#[test]
fn morton_known_values() {
    assert_eq!(morton2(0, 0), 0);
    assert_eq!(morton2(1, 0), 1);
    assert_eq!(morton2(0, 1), 2);
    assert_eq!(morton2(1, 1), 3);
    assert_eq!(morton2(2, 0), 4);
    assert_eq!(morton2(3, 3), 15);
}

#[test]
fn morton_roundtrips() {
    for &(x, y) in &[(0u32, 0u32), (1, 2), (12345, 6789), (16383, 16383)] {
        assert_eq!(demorton2(morton2(x, y)), (x, y));
    }
}

#[test]
fn tile_id_decodes_and_routes_across_zooms() {
    let p = TileParams::standard(); // grid z14, bucket z6
    for z in p.min_zoom..=p.grid_zoom {
        let max = (1u32 << z) - 1;
        for &(x, y) in &[(0u32, 0u32), (1, 2), (max, max), (max / 3, max / 7)] {
            let id = p.tile_id(x, y, z);
            // Global id decodes to the exact tile with no bucket context.
            let t = p.tile(id);
            assert_eq!((t.x, t.y, t.z), (x, y, z), "decode at z{z}");
            // Routes into range from the id alone; at/below the grid it's exactly the
            // tile's coarse Morton-prefix cell.
            let b = p.route(id);
            assert!(b < p.bucket_count(), "bucket in range at z{z}");
            if z >= p.bucket_zoom {
                let lz = z - p.bucket_zoom;
                assert_eq!(b, morton2(x >> lz, y >> lz) as u32, "prefix at z{z}");
            }
        }
    }
}

#[test]
fn bucket_local_id_roundtrips() {
    let bz = 6u8;
    for z in bz..=14 {
        let lz = z - bz;
        for &(bx, by) in &[(0u32, 0u32), (13, 27), (63, 63)] {
            let bucket = morton2(bx, by) as u32;
            let max = (1u32 << lz) - 1;
            for &(ox, oy) in &[(0u32, 0u32), (1, 0), (0, 1), (max, max)] {
                // Mask offsets into [0, 2^lz) so lz==0 (single-tile bucket) doesn't
                // fabricate coords in a neighbouring bucket.
                let (ox, oy) = (ox & max, oy & max);
                let (x, y) = ((bx << lz) | ox, (by << lz) | oy);
                let id = bucket_local_id(bz, bucket, x, y, z);
                assert_eq!(bucket_local_xyz(bz, bucket, id), (x, y, z));
            }
        }
    }
}

#[test]
fn local_coordinates_are_clamped_to_the_tile() {
    let p = TileParams::standard();
    assert_eq!(p.clamp_local(-5), 0);
    assert_eq!(p.clamp_local(100), 100);
    assert_eq!(p.clamp_local(9000), 8192);
    assert_eq!(p.at_zoom(3).clamp_tile(100), 7);
}

#[test]
fn tile_range_enumerates_row_major() {
    let r = TileRange::new(3, 1, 2, 4, 5);
    assert_eq!(r.len(), 4);
    let tiles: Vec<(u32, u32)> = r.tiles().iter().map(|t| (t.x, t.y)).collect();
    assert_eq!(tiles, vec![(1, 4), (2, 4), (1, 5), (2, 5)]);
}

#[test]
fn spanning_orders_its_corners() {
    let r = TileRange::spanning(5, Tile::new(7, 1, 5), Tile::new(3, 9, 5));
    assert_eq!((r.min_x, r.max_x, r.min_y, r.max_y), (3, 7, 1, 9));
    assert!(!r.is_empty());
    assert_eq!(r.len(), 45);
}

#[test]
fn parents_and_children_are_inverse() {
    let t = Tile::new(5, 9, 4);
    for c in t.children() {
        assert_eq!(c.parent(), Some(t));
    }
    assert_eq!(Tile::new(0, 0, 0).parent(), None);
}

#[test]
fn rank_matches_naive() {
    // Spread ids across several blocks and word boundaries.
    let ids = [
        0u64, 1, 63, 64, 65, 127, 1023, 1024, 4096, 4097, 9999, 10_000,
    ];
    let cap = 10_001;
    let mut bits = BitSet::with_capacity(cap);
    for &id in &ids {
        bits.set(id);
    }
    let ranked = bits.into_ranked();

    assert_eq!(ranked.len(), ids.len() as u64);

    // rank(id) == count of set ids strictly below id, for every position.
    for id in 0..cap {
        let naive = ids.iter().filter(|&&x| x < id).count() as u64;
        assert_eq!(ranked.rank(id), naive, "rank mismatch at id {id}");
    }

    // Set ids map to contiguous 0..len ordinals; unset ids yield None.
    let mut sorted = ids;
    sorted.sort_unstable();
    for (ordinal, &id) in sorted.iter().enumerate() {
        assert_eq!(ranked.rank_if_set(id), Some(ordinal as u64));
    }
    assert_eq!(ranked.rank_if_set(2), None);
    assert_eq!(ranked.rank_if_set(cap + 5), None);
}

#[test]
fn test_and_set_reports_prior_state() {
    let mut bits = BitSet::with_capacity(200);
    // First touch is unset; subsequent touches are set.
    assert!(!bits.test_and_set(64));
    assert!(bits.test_and_set(64));
    assert!(bits.test_and_set(64));
    // A different bit in the same word is independent.
    assert!(!bits.test_and_set(65));
    assert!(bits.contains(64));
    assert!(bits.contains(65));
    assert!(!bits.contains(66));
    assert_eq!(bits.count_ones(), 2);
}

#[test]
fn empty_bitset() {
    let ranked = BitSet::with_capacity(0).into_ranked();
    assert!(ranked.is_empty());
    assert_eq!(ranked.len(), 0);
    assert_eq!(ranked.rank_if_set(0), None);
}

#[test]
fn roundtrip_packed_coords() {
    let ids = [5u64, 9, 128, 4096];
    let mut bits = BitSet::with_capacity(4097);
    for &id in &ids {
        bits.set(id);
    }
    let coord = |id: u64| PackedCoord {
        lon_e7: id as i32,
        lat_e7: -(id as i32),
    };

    let ranked = bits.into_ranked();
    let mut map = vec![0u8; file_len(&ranked).unwrap()];
    assert_eq!(map.len(), 32);
    assert!(node_store_matches(Some(32), 4));
    assert!(!node_store_matches(Some(40), 4));
    assert!(!node_store_matches(None, 4));
    assert!(node_store_matches(Some(1), 0));
    let builder = SparseStoreBuilder::create(ranked);
    for &id in &ids {
        builder.set(&mut map, id, coord(id));
    }
    // Unset ids are ignored.
    builder.set(&mut map, 6, PackedCoord { lon_e7: 7, lat_e7: 7 });
    let store = builder.finish();

    assert_eq!(store.len(), ids.len() as u64);
    for &id in &ids {
        assert_eq!(store.get(&map, id), Some(coord(id)));
    }
    assert_eq!(store.get(&map, 6), None);
    assert_eq!(store.get(&map, 10_000), None);
    assert_eq!(
        resolve_refs(&store, &map, &vec![9, 6, -1, 5]),
        vec![coord(9), coord(5)]
    );
}
