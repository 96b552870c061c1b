//! The archive container: directories, header, writing and reading.

use shashlik_tiles::archive::PmTilesWriter;
use shashlik_tiles::hilbert::{hilbert, tile_id};
use shashlik_tiles::metadata::parse_zoom_levels;
use shashlik_tiles::pmtiles::{
    build_directories, find_entry, parse_directory, resolve, serialize_directory, DirEntry, Header,
    Located, COMPRESSION_NONE, HEADER_LEN, MAGIC, TILE_TYPE_UNKNOWN, VERSION,
};
use shashlik_tiles::reader::{
    coalesce_blocks, distinct_sorted, is_addressable, locate_in, plan_fetch, slice_tiles,
    zoom_levels, ArchiveError, LeafCache, PmTilesReader,
};
use shashlik_tiles::tile::Tile;
use std::sync::Arc;

#[test]
fn hilbert_and_tile_id() {
    assert_eq!(tile_id(0, 0, 0), 0);
    let mut z1: Vec<u64> = [(0, 0), (0, 1), (1, 1), (1, 0)]
        .iter()
        .map(|&(x, y)| tile_id(1, x, y))
        .collect();
    z1.sort_unstable();
    assert_eq!(z1, vec![1, 2, 3, 4]);
}

#[test]
fn hilbert_visits_every_cell_once_and_moves_by_one() {
    let n = 8u32;
    let mut at = vec![None; 64];
    for x in 0..n {
        for y in 0..n {
            let d = hilbert(3, x, y) as usize;
            assert!(at[d].is_none());
            at[d] = Some((x as i32, y as i32));
        }
    }
    for d in 1..64 {
        let (a, b) = (at[d - 1].unwrap(), at[d].unwrap());
        assert_eq!((a.0 - b.0).abs() + (a.1 - b.1).abs(), 1);
    }
    assert_eq!(tile_id(3, 0, 0), 1 + 4 + 16);
}

#[test]
fn directory_roundtrip_with_runs_and_shared_offsets() {
    let entries = vec![
        DirEntry {
            tile_id: 0,
            offset: 0,
            length: 10,
            run_length: 1,
        },
        DirEntry {
            tile_id: 1,
            offset: 10,
            length: 20,
            run_length: 3,
        }, // run
        DirEntry {
            tile_id: 4,
            offset: 10,
            length: 20,
            run_length: 1,
        }, // shared offset? no, dedup
        DirEntry {
            tile_id: 5,
            offset: 30,
            length: 5,
            run_length: 1,
        },
    ];
    let bytes = serialize_directory(&entries);
    assert_eq!(parse_directory(&bytes).unwrap(), entries);
}

#[test]
fn truncated_directories_are_refused() {
    let entries: Vec<DirEntry> = (0..5u64)
        .map(|i| DirEntry {
            tile_id: i * 300,
            offset: i * 1000,
            length: 200,
            run_length: 1,
        })
        .collect();
    let bytes = serialize_directory(&entries);
    for n in 0..bytes.len() {
        assert_eq!(parse_directory(&bytes[..n]), None, "cut at {n}");
    }
    assert_eq!(parse_directory(&bytes), Some(entries));
}

#[test]
fn directories_split_into_leaves_in_order() {
    let entries: Vec<DirEntry> = (0..5000u64)
        .map(|i| DirEntry {
            tile_id: i * 7,
            offset: i * 10,
            length: 10,
            run_length: 1,
        })
        .collect();
    let (root, leaves) = build_directories(&entries, 300);
    assert!(root.len() <= 300);
    let pointers = parse_directory(&root).unwrap();
    let mut joined = Vec::new();
    let mut end = 0;
    for p in &pointers {
        assert!(p.is_leaf());
        assert_eq!(p.offset, end);
        end += p.length as u64;
        let leaf = parse_directory(&leaves[p.offset as usize..end as usize]).unwrap();
        assert_eq!(leaf[0].tile_id, p.tile_id);
        joined.extend(leaf);
    }
    assert_eq!(end as usize, leaves.len());
    assert_eq!(joined, entries);
    let (root, leaves) = build_directories(&entries[..20], 300);
    assert!(leaves.is_empty());
    assert_eq!(parse_directory(&root).unwrap(), entries[..20].to_vec());
}

#[test]
fn find_entry_covers_runs_and_leaves() {
    let entries = vec![
        DirEntry {
            tile_id: 10,
            offset: 0,
            length: 5,
            run_length: 3,
        }, // covers 10,11,12
        DirEntry {
            tile_id: 100,
            offset: 0,
            length: 40,
            run_length: 0,
        }, // leaf pointer
    ];
    assert!(find_entry(&entries, 9).is_none()); // before all
    assert_eq!(find_entry(&entries, 11).unwrap().tile_id, 10); // inside run
    assert!(find_entry(&entries, 13).is_none()); // past the run, before leaf
    assert!(find_entry(&entries, 500).unwrap().is_leaf()); // descend leaf
}

#[test]
fn header_roundtrip() {
    let h = Header {
        root_offset: 127,
        root_length: 40,
        metadata_offset: 167,
        metadata_length: 12,
        leaf_offset: 179,
        leaf_length: 0,
        data_offset: 179,
        data_length: 4096,
        num_addressed: 100,
        num_entries: 90,
        num_contents: 88,
        clustered: false,
        internal_compression: COMPRESSION_NONE,
        tile_compression: COMPRESSION_NONE,
        tile_type: TILE_TYPE_UNKNOWN,
        min_zoom: 3,
        max_zoom: 14,
        bounds: [-1, -2, 3, 4],
        center_zoom: 3,
        center: [1, 1],
    };
    assert_eq!(Header::parse(&h.to_bytes()), Some(h));
}

#[test]
fn foreign_headers_are_refused() {
    assert_eq!(Header::parse(&[0u8; HEADER_LEN]), None);
    assert_eq!(Header::parse(b"PMTiles"), None);
    let mut bytes = vec![0u8; HEADER_LEN];
    bytes[..7].copy_from_slice(&MAGIC);
    bytes[7] = VERSION + 1;
    assert_eq!(Header::parse(&bytes), None);
    bytes[7] = VERSION;
    assert!(Header::parse(&bytes).is_some());
}

#[test]
fn malformed_directories_are_refused() {
    assert_eq!(parse_directory(&[]), None);
    // One entry promised, nothing behind it.
    assert_eq!(parse_directory(&[1]), None);
    // A first entry whose offset says "behind the one before".
    assert_eq!(parse_directory(&[1, 0, 1, 1, 0]), None);
    assert_eq!(
        parse_directory(&[1, 5, 1, 7, 1]),
        Some(vec![DirEntry {
            tile_id: 5,
            offset: 0,
            length: 7,
            run_length: 1
        }])
    );
}

#[test]
fn merges_adjacent_and_within_gap() {
    // 0..100 and 100..150 are adjacent; 170..200 is a 20-byte gap (< 64).
    // All fold into one block; the far range stays separate.
    let ranges = [(0u64, 100usize), (100, 50), (170, 30), (100_000, 10)];
    let blocks = coalesce_blocks(&ranges, 64);
    assert_eq!(blocks, vec![(0, 200), (100_000, 10)]);
}

#[test]
fn gap_larger_than_threshold_splits() {
    let ranges = [(0u64, 10usize), (100, 10)]; // gap 90 > 64
    assert_eq!(coalesce_blocks(&ranges, 64), vec![(0, 10), (100, 10)]);
}

#[test]
fn nested_range_does_not_shrink_block() {
    // A fully-contained range must not truncate the enclosing block.
    let ranges = [(0u64, 100usize), (10, 20)];
    assert_eq!(coalesce_blocks(&ranges, 0), vec![(0, 100)]);
}

#[test]
fn zero_gap_only_merges_touching() {
    let ranges = [(0u64, 50usize), (50, 50), (101, 10)];
    assert_eq!(coalesce_blocks(&ranges, 0), vec![(0, 100), (101, 10)]);
}

#[test]
fn far_ranges_are_planned_too() {
    let far = u64::MAX - 100;
    let ranges = [(0u64, 10usize), (far, 40), (far + 50, 50)];
    assert_eq!(coalesce_blocks(&ranges, 64), vec![(0, 10), (far, 100)]);
    assert_eq!(coalesce_blocks(&ranges, 0), vec![(0, 10), (far, 40), (far + 50, 50)]);
    assert_eq!(coalesce_blocks(&[], 64), Vec::new());
}

#[test]
fn batch_is_planned_fetched_and_sliced() {
    let places = vec![
        Some((70_000_000u64, 3u32)),
        None,
        Some((10, 4)),
        Some((10, 4)),
        Some((14, 2)),
    ];
    assert_eq!(
        distinct_sorted(&places),
        vec![(10, 4), (14, 2), (70_000_000, 3)]
    );
    let blocks = plan_fetch(&places);
    assert_eq!(blocks, vec![(10, 6), (70_000_000, 3)]);
    let fetched = vec![b"abcdef".to_vec(), b"xyz".to_vec()];
    let tiles = slice_tiles(&places, &blocks, &fetched);
    assert_eq!(tiles[0].as_deref(), Some(b"xyz".as_ref()));
    assert_eq!(tiles[1], None);
    assert_eq!(tiles[2].as_deref(), Some(b"abcd".as_ref()));
    assert_eq!(tiles[3].as_deref(), Some(b"abcd".as_ref()));
    assert_eq!(tiles[4].as_deref(), Some(b"ef".as_ref()));
}

/// Assemble the archive's bytes: what the writer heads, then the planned pieces of the
/// appended data.
fn assemble(writer: &PmTilesWriter, data: &[u8]) -> (Header, Vec<u8>) {
    let archive = writer.finish([0, 0, 0, 0]);
    let mut bytes = archive.head.clone();
    for &(offset, length) in &archive.plan {
        bytes.extend_from_slice(&data[offset as usize..offset as usize + length as usize]);
    }
    (archive.header, bytes)
}

fn write(writer: &mut PmTilesWriter, data: &mut Vec<u8>, tile: Tile, blob: &[u8]) {
    if writer.write(tile, blob) {
        data.extend_from_slice(blob);
    }
}

fn read(header: &Header, bytes: &[u8], tile: Tile) -> Option<Vec<u8>> {
    let id = tile_id(tile.z, tile.x, tile.y);
    let root = &bytes[header.root_offset as usize..][..header.root_length as usize];
    let mut dir = parse_directory(root).unwrap();
    loop {
        match resolve(&dir, id) {
            Located::Absent => return None,
            Located::Data { offset, length } => {
                let at = (header.data_offset + offset) as usize;
                return Some(bytes[at..at + length as usize].to_vec());
            }
            Located::Leaf { offset, length } => {
                let at = (header.leaf_offset + offset) as usize;
                dir = parse_directory(&bytes[at..at + length as usize]).unwrap();
            }
        }
    }
}

#[test]
fn writes_readable_header() {
    let mut w = PmTilesWriter::new();
    let mut data = Vec::new();
    write(&mut w, &mut data, Tile::new(0, 0, 0), b"tile-a");
    write(&mut w, &mut data, Tile::new(1, 1, 1), b"tile-b-bigger");
    write(&mut w, &mut data, Tile::new(3, 5, 3), b"c");
    let (_, bytes) = assemble(&w, &data);

    assert_eq!(&bytes[0..7], &MAGIC);
    assert_eq!(bytes[7], VERSION);
    let header = Header::parse(&bytes).unwrap();
    assert_eq!(header.num_entries, 3);
    // Tile data section holds exactly the three blobs.
    assert_eq!(
        header.data_length as usize,
        "tile-a".len() + "tile-b-bigger".len() + "c".len()
    );
    assert_eq!(header.data_offset + header.data_length, bytes.len() as u64);
    assert_eq!((header.min_zoom, header.max_zoom), (0, 3));
    // The archive's own metadata lists no levels: the whole range is there.
    let metadata = &bytes[header.metadata_offset as usize..][..header.metadata_length as usize];
    assert_eq!(metadata, br#"{"format":"shashlik-maptile"}"#);
    assert_eq!(zoom_levels(&header, metadata), vec![0, 1, 2, 3]);
    let listed = br#"{"format":"shashlik-maptile","zoom_levels":[0,3]}"#;
    assert_eq!(zoom_levels(&header, listed), vec![0, 3]);
}

#[test]
fn metadata_lists_levels() {
    let levels = |text: &str| parse_zoom_levels(text.as_bytes());
    assert_eq!(levels(r#"{"zoom_levels":[5, 8,11 , 14]}"#), Some(vec![5, 8, 11, 14]));
    assert_eq!(levels("{ \"zoom_levels\" :\n [ 7 ] }"), Some(vec![7]));
    assert_eq!(levels(r#"{"a":1,"zoom_levels":[255]}"#), Some(vec![255]));
    for text in [
        "",
        "{}",
        r#"{"format":"shashlik-maptile"}"#,
        r#"{"zoom_levels":[]}"#,
        r#"{"zoom_levels":[256]}"#,
        r#"{"zoom_levels":[1,]}"#,
        r#"{"zoom_levels":[1 2]}"#,
        r#"{"zoom_levels":[1"#,
        r#"{"zoom_levels":14}"#,
        r#"{"zoom_levels""#,
    ] {
        assert_eq!(levels(text), None, "{text}");
    }
}

#[test]
fn writer_reader_roundtrip() {
    // ~6000 distinct tiles (unique content) — well past the root's limit, so the writer
    // emits leaf directories and the reader must descend them.
    const N: u32 = 6000;
    let mut w = PmTilesWriter::new();
    let mut data = Vec::new();
    for x in 0..N {
        let blob = format!("tile-{x}");
        write(&mut w, &mut data, Tile::new(x, 0, 13), blob.as_bytes());
    }
    let (header, bytes) = assemble(&w, &data);
    assert_eq!(header.min_zoom, 13);
    assert_eq!(header.max_zoom, 13);
    assert!(header.leaf_length > 0);

    // Sample present tiles across the id space (exercises leaf descent).
    for x in [0u32, 1, 1234, 4095, 4096, 5999] {
        let got = read(&header, &bytes, Tile::new(x, 0, 13));
        assert_eq!(got.as_deref(), Some(format!("tile-{x}").as_bytes()));
    }
    // A tile that was never written.
    assert!(read(&header, &bytes, Tile::new(N, 0, 13)).is_none());
}

#[test]
fn equal_contents_are_stored_once_and_runs_collapse() {
    let mut w = PmTilesWriter::new();
    let mut data = Vec::new();
    // Ids 1 to 4 in order, three of them with the same content.
    let mut tiles: Vec<Tile> = vec![
        Tile::new(0, 0, 1),
        Tile::new(0, 1, 1),
        Tile::new(1, 1, 1),
        Tile::new(1, 0, 1),
    ];
    tiles.sort_by_key(|t| tile_id(t.z, t.x, t.y));
    for (i, &t) in tiles.iter().enumerate() {
        let blob: &[u8] = if i < 3 { b"ocean" } else { b"land" };
        write(&mut w, &mut data, t, blob);
    }
    assert_eq!(data, b"oceanland");
    let (header, bytes) = assemble(&w, &data);
    assert_eq!(header.num_addressed, 4);
    assert_eq!(header.num_entries, 2);
    assert_eq!(header.num_contents, 2);
    assert!(header.clustered);
    for (i, &t) in tiles.iter().enumerate() {
        let blob: &[u8] = if i < 3 { b"ocean" } else { b"land" };
        assert_eq!(read(&header, &bytes, t).as_deref(), Some(blob));
    }
}

#[test]
fn directories_split_past_the_root_limit() {
    let entries: Vec<DirEntry> = (0..20_000u64)
        .map(|i| DirEntry {
            tile_id: 2 * i,
            offset: 100 * i,
            length: 100,
            run_length: 1,
        })
        .collect();
    let (root, leaves) = build_directories(&entries, 16_384);
    assert!(!leaves.is_empty());
    let dir = parse_directory(&root).unwrap();
    assert!(dir.iter().all(|e| e.is_leaf()));
    let (root, leaves) = build_directories(&entries[..3], 16_384);
    assert!(leaves.is_empty());
    assert_eq!(parse_directory(&root).unwrap(), &entries[..3]);
}

#[test]
fn leaf_cache_forgets_the_oldest() {
    let mut cache = LeafCache::new(2);
    let dir = |id: u64| {
        Arc::new(vec![DirEntry {
            tile_id: id,
            offset: 0,
            length: 1,
            run_length: 1,
        }])
    };
    cache.insert(1, dir(1));
    cache.insert(2, dir(2));
    assert_eq!(cache.get(1).unwrap()[0].tile_id, 1);
    cache.insert(3, dir(3));
    assert!(cache.get(2).is_none(), "least recent goes");
    assert!(cache.get(1).is_some() && cache.get(3).is_some());
}

/// Read a tile through an open archive, as a transport would.
fn fetch(archive: &mut PmTilesReader, bytes: &[u8], tile: Tile) -> Option<Vec<u8>> {
    let mut at = archive.locate(tile);
    loop {
        match at {
            Located::Absent => return None,
            Located::Data { offset, length } => {
                let (o, n) = archive.data_range((offset, length as usize)).unwrap();
                return Some(bytes[o as usize..o as usize + n].to_vec());
            }
            Located::Leaf { offset, length } => {
                let dir = match archive.leaf(offset) {
                    Some(dir) => dir,
                    None => {
                        let (o, n) = archive.leaf_range(offset, length).unwrap();
                        archive
                            .add_leaf(offset, &bytes[o as usize..o as usize + n])
                            .unwrap()
                    }
                };
                at = locate_in(&dir, tile);
            }
        }
    }
}

#[test]
fn open_archive_finds_its_tiles() {
    let mut w = PmTilesWriter::new();
    let mut data = Vec::new();
    for x in 0..6000 {
        let blob = format!("tile-{x}");
        write(&mut w, &mut data, Tile::new(x, 0, 13), blob.as_bytes());
    }
    let (header, bytes) = assemble(&w, &data);
    let root = &bytes[header.root_offset as usize..][..header.root_length as usize];
    let mut archive = PmTilesReader::open(&bytes[..HEADER_LEN], root, b"{}").unwrap();
    assert_eq!(archive.zoom_levels(), &vec![13]);
    assert_eq!(archive.header(), &header);
    assert_eq!((archive.min_zoom(), archive.max_zoom()), (13, 13));
    for _ in 0..2 {
        for x in [0u32, 1234, 4095, 5999] {
            let got = fetch(&mut archive, &bytes, Tile::new(x, 0, 13));
            assert_eq!(got.as_deref(), Some(format!("tile-{x}").as_bytes()));
        }
        assert!(fetch(&mut archive, &bytes, Tile::new(6000, 0, 13)).is_none());
    }
    assert!(matches!(
        PmTilesReader::open(&bytes[1..], root, b"{}"),
        Err(ArchiveError::InvalidHeader)
    ));
    assert!(matches!(
        PmTilesReader::open(&bytes, &[], b"{}"),
        Err(ArchiveError::CorruptRoot)
    ));
    let listed = br#"{"zoom_levels":[9,13]}"#;
    let archive_of_levels = PmTilesReader::open(&bytes, root, listed).unwrap();
    assert_eq!(archive_of_levels.zoom_levels(), &vec![9, 13]);
    assert!(matches!(
        archive.add_leaf(0, &[1]),
        Err(ArchiveError::CorruptLeaf)
    ));
    assert!(is_addressable(Tile::new(7, 7, 3)));
    assert!(!is_addressable(Tile::new(8, 0, 3)));
    assert!(!is_addressable(Tile::new(0, 0, 32)));
}
