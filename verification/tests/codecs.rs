//! Varints, spill records and stored tiles.

use shashlik_tiles::compress::{
    decode_answer, decode_tile, pack_tile, stored_blob, CompressError, DecodeError,
};
use shashlik_tiles::decode::decode_uncompressed;
use shashlik_tiles::feature::{AreaKind, EdgeNode, LabelClass, PoiKind, RoadKind};
use shashlik_tiles::format::build_tile;
use shashlik_tiles::hilbert::tile_id;
use shashlik_tiles::record::{decode, encode, TileGeometry, TileRecord};
use shashlik_tiles::spill::{
    build_groups, collect_built, group_by_tile, BucketWriter, SpillRead, SpillReader, SpillWriter,
};
use shashlik_tiles::tile::Tile;
use shashlik_tiles::tiler::{morton2, TileParams};
use shashlik_tiles::varint::{read_uvarint, write_uvarint};

#[test]
fn varint_roundtrip() {
    let cases = [0u64, 1, 127, 128, 300, u32::MAX as u64, u64::MAX];
    for v in cases {
        let mut buf = Vec::new();
        write_uvarint(&mut buf, v);
        let mut cur = buf.as_slice();
        assert_eq!(read_uvarint(&mut cur), Some(v));
        assert!(cur.is_empty(), "leftover bytes for {v}");
    }
}

#[test]
fn truncated_is_none() {
    let mut cur: &[u8] = &[0x80]; // continuation bit set, no follow-up
    assert_eq!(read_uvarint(&mut cur), None);
}

#[test]
fn overlong_varint_is_none() {
    let mut cur: &[u8] = &[0xff, 0xff, 0xff, 0xff, 0xff, 0xff, 0xff, 0xff, 0xff, 0x02];
    assert_eq!(read_uvarint(&mut cur), None);
    let mut buf = Vec::new();
    write_uvarint(&mut buf, 300);
    assert_eq!(buf, vec![0xac, 0x02]);
}

fn roundtrip(record: &TileRecord) {
    let mut buf = Vec::new();
    encode(&mut buf, record);
    let mut cursor = buf.as_slice();
    let decoded = decode(&mut cursor).expect("decode");
    assert_eq!(&decoded, record);
    assert!(cursor.is_empty(), "record left trailing bytes");
}

#[test]
fn road_roundtrip() {
    roundtrip(&TileRecord {
        tile_key: 0xBEEF,
        layer: -2,
        geometry: TileGeometry::Road {
            kind: RoadKind::Motorway,
            start: EdgeNode::Connected,
            end: EdgeNode::Cut,
            coords: vec![[0, 0], [8192, -256], [-256, 8448], [123, -45]],
            lanes_forward: 3,
            lanes_backward: 0,
            name: Some("東名高速道路".to_string()),
        },
    });
}

#[test]
fn unnamed_road_roundtrip() {
    roundtrip(&TileRecord {
        tile_key: 1,
        layer: 0,
        geometry: TileGeometry::Road {
            kind: RoadKind::Residential,
            start: EdgeNode::Disconnected,
            end: EdgeNode::Disconnected,
            coords: vec![[0, 0], [10, 10]],
            lanes_forward: 1,
            lanes_backward: 1,
            name: None,
        },
    });
}

#[test]
fn building_roundtrip() {
    roundtrip(&TileRecord {
        tile_key: 3,
        layer: 0,
        geometry: TileGeometry::Area {
            kind: AreaKind::Building,
            floors: 12,
            rings: vec![vec![[0, 0], [50, 0], [50, 80], [0, 80], [0, 0]]],
            clip: vec![],
        },
    });
}

#[test]
fn label_roundtrip() {
    roundtrip(&TileRecord {
        tile_key: 42,
        layer: 0,
        geometry: TileGeometry::Label {
            class: LabelClass::City,
            anchor: [4096, 2048],
            name: "Tokyo".to_string(),
        },
    });
}

#[test]
fn area_roundtrip() {
    roundtrip(&TileRecord {
        tile_key: 7,
        layer: 0,
        geometry: TileGeometry::Area {
            kind: AreaKind::Water,
            floors: 1,
            rings: vec![
                vec![[0, 0], [4096, 0], [4096, 4096], [0, 4096], [0, 0]],
                vec![[100, 100], [200, 100], [150, 200], [100, 100]],
            ],
            clip: vec![],
        },
    });
}

#[test]
fn clipped_area_roundtrip() {
    roundtrip(&TileRecord {
        tile_key: 7,
        layer: 5,
        geometry: TileGeometry::Area {
            kind: AreaKind::Forest,
            floors: 1,
            rings: vec![vec![[0, 0], [4096, 0], [4096, 4096], [0, 4096]]],
            clip: vec![true, false, false, true],
        },
    });
}

fn stream() -> (TileRecord, TileRecord) {
    let a = TileRecord {
        tile_key: 1,
        layer: 1,
        geometry: TileGeometry::Road {
            kind: RoadKind::Residential,
            start: EdgeNode::Disconnected,
            end: EdgeNode::Disconnected,
            coords: vec![[1, 2], [3, 4]],
            lanes_forward: 2,
            lanes_backward: 2,
            name: None,
        },
    };
    let b = TileRecord {
        tile_key: 2,
        layer: 0,
        geometry: TileGeometry::Area {
            kind: AreaKind::Forest,
            floors: 1,
            rings: vec![vec![[0, 0], [10, 0], [10, 10], [0, 0]]],
            clip: vec![],
        },
    };
    (a, b)
}

#[test]
fn multi_record_stream() {
    // Records concatenate and decode back-to-back.
    let (a, b) = stream();
    let mut buf = Vec::new();
    encode(&mut buf, &a);
    encode(&mut buf, &b);
    let mut cur = buf.as_slice();
    assert_eq!(decode(&mut cur).unwrap(), a);
    assert_eq!(decode(&mut cur).unwrap(), b);
    assert!(cur.is_empty());
}

#[test]
fn truncated_records_are_none() {
    let (a, b) = stream();
    for r in [&a, &b] {
        let mut buf = Vec::new();
        encode(&mut buf, r);
        for n in 0..buf.len() {
            assert!(decode(&mut &buf[..n]).is_none(), "cut at {n}");
        }
    }
}

#[test]
fn spilled_records_come_back_in_order() {
    let params = TileParams::standard();
    let writer = SpillWriter::new(params);
    let (mut a, mut b) = stream();
    a.tile_key = params.tile_id(9, 5, 14);
    b.tile_key = params.tile_id(10, 5, 14);
    let (bucket, mut bytes) = writer.append(&a);
    assert_eq!(bucket, 0);
    bytes.extend(writer.append(&b).1);
    bytes.extend(writer.append(&a).1);
    let mut reader = SpillReader::new(&bytes);
    let mut records = Vec::new();
    loop {
        match reader.read_next() {
            SpillRead::Record(r) => records.push(r),
            SpillRead::End => break,
            SpillRead::Broken => panic!("broken spill"),
        }
    }
    assert_eq!(records, vec![a.clone(), b.clone(), a.clone()]);

    let groups = group_by_tile(records);
    assert_eq!(groups.len(), 2);
    assert_eq!(groups[0].tile_key, a.tile_key);
    assert_eq!(groups[0].records, vec![a.clone(), a]);
    assert_eq!(groups[1].records, vec![b]);
    let built = build_groups(&params, &groups, 8192).unwrap();
    assert_eq!((built[1].tile.x, built[1].tile.y, built[1].tile.z), (10, 5, 14));
    assert_eq!(decode_tile(&built[0].blob).unwrap().roads.len(), 2);
    assert_eq!(decode_tile(&built[1].blob).unwrap().areas.len(), 1);
}

#[test]
fn built_tiles_need_every_blob() {
    let tiles = vec![Tile::new(1, 2, 3), Tile::new(4, 5, 6)];
    let built = collect_built(tiles.clone(), vec![Ok(vec![1]), Ok(vec![2, 3])]).unwrap();
    assert_eq!(built.len(), 2);
    assert_eq!((built[0].tile, &built[0].blob), (tiles[0], &vec![1]));
    assert_eq!((built[1].tile, &built[1].blob), (tiles[1], &vec![2, 3]));
    assert!(collect_built(tiles, vec![Ok(vec![1]), Err(CompressError)]).is_err());
    assert!(collect_built(Vec::new(), Vec::new()).unwrap().is_empty());
}

#[test]
fn the_decompressors_answer_decides() {
    let failed = std::io::Error::from(std::io::ErrorKind::InvalidData);
    assert!(matches!(decode_answer(Err(failed)), Err(DecodeError::Compression)));
    assert!(matches!(decode_answer(Ok(vec![1, 2, 3])), Err(DecodeError::Malformed)));
    let (a, _) = stream();
    let tile = decode_answer(Ok(build_tile(&[a], 8192))).unwrap();
    assert_eq!((tile.extent, tile.roads.len()), (8192, 1));
}

#[test]
fn broken_frames_are_reported() {
    let params = TileParams::standard();
    let writer = SpillWriter::new(params);
    let (a, _) = stream();
    let (_, bytes) = writer.append(&a);
    let mut reader = SpillReader::new(&bytes[..bytes.len() - 1]);
    assert!(matches!(reader.read_next(), SpillRead::Broken));
    // A partial length ends the stream, as no length does.
    assert!(matches!(SpillReader::new(&[1, 0]).read_next(), SpillRead::End));
    // A whole frame that is no record.
    assert!(matches!(
        SpillReader::new(&[1, 0, 0, 0, 9]).read_next(),
        SpillRead::Broken
    ));
}

fn tile_records() -> Vec<TileRecord> {
    vec![
        TileRecord {
            tile_key: 5,
            layer: 1,
            geometry: TileGeometry::Road {
                kind: RoadKind::Primary,
                start: EdgeNode::Cut,
                end: EdgeNode::Connected,
                coords: vec![[0, 0], [-300, 8192], [12, 12]],
                lanes_forward: 2,
                lanes_backward: 1,
                name: Some("Hauptstraße".to_string()),
            },
        },
        TileRecord {
            tile_key: 5,
            layer: -1,
            geometry: TileGeometry::Area {
                kind: AreaKind::Water,
                floors: 1,
                rings: vec![
                    vec![[0, 0], [100, 0], [100, 100]],
                    vec![[10, 10], [20, 10], [20, 20], [10, 20]],
                ],
                clip: vec![true, false, true, false, false, false, true],
            },
        },
        TileRecord {
            tile_key: 5,
            layer: 0,
            geometry: TileGeometry::Label {
                class: LabelClass::Town,
                anchor: [7, -9],
                name: "Hauptstraße".to_string(),
            },
        },
        TileRecord {
            tile_key: 5,
            layer: 0,
            geometry: TileGeometry::Poi {
                kind: PoiKind::TrafficSignal,
                anchor: [33, 44],
            },
        },
    ]
}

#[test]
fn stored_tile_gives_its_records_back() {
    let blob = pack_tile(&tile_records(), 8192).unwrap();
    let t = decode_tile(&blob).unwrap();
    assert_eq!(t.extent, 8192);
    assert_eq!(t.roads.len(), 1);
    let r = &t.roads[0];
    assert_eq!(r.kind, RoadKind::Primary);
    assert_eq!(r.layer, 1);
    assert_eq!((r.start, r.end), (EdgeNode::Cut, EdgeNode::Connected));
    assert_eq!((r.lanes.forward, r.lanes.backward), (2, 1));
    assert_eq!(r.name.as_deref(), Some("Hauptstraße"));
    assert_eq!(r.coords, vec![[0, 0], [-300, 8192], [12, 12]]);
    assert_eq!(t.areas.len(), 1);
    assert_eq!(t.areas[0].kind, AreaKind::Water);
    assert_eq!(t.areas[0].layer, -1);
    assert_eq!(t.areas[0].rings.len(), 2);
    assert_eq!(t.areas[0].rings[1], vec![[10, 10], [20, 10], [20, 20], [10, 20]]);
    assert_eq!(
        t.areas[0].clip,
        vec![true, false, true, false, false, false, true]
    );
    assert_eq!(t.labels.len(), 1);
    assert_eq!(t.labels[0].class, LabelClass::Town);
    assert_eq!(t.labels[0].anchor, [7, -9]);
    assert_eq!(t.labels[0].name, "Hauptstraße");
    assert_eq!(t.pois.len(), 1);
    assert_eq!(t.pois[0].kind, PoiKind::TrafficSignal);
    assert_eq!(t.pois[0].anchor, [33, 44]);
}

#[test]
fn equal_names_are_stored_once() {
    let raw = build_tile(&tile_records(), 8192);
    let text = "Hauptstraße".as_bytes();
    let hits = raw.windows(text.len()).filter(|w| *w == text).count();
    assert_eq!(hits, 1);
}

#[test]
fn unreadable_tiles_are_refused() {
    assert!(matches!(
        decode_tile(b"no frame"),
        Err(DecodeError::Compression)
    ));
    let raw = build_tile(&tile_records(), 8192);
    assert!(decode_uncompressed(&raw).is_some());
    for n in 0..raw.len() {
        assert!(decode_uncompressed(&raw[..n]).is_none(), "cut at {n}");
    }
}

#[test]
fn a_compressed_blob_that_is_no_tile_is_malformed() {
    let blob = zstd::bulk::compress(b"short", 3).unwrap();
    assert!(matches!(decode_tile(&blob), Err(DecodeError::Malformed)));
}

#[test]
fn hilbert_and_morton_ids_differ() {
    assert_eq!(tile_id(1, 1, 0), 4);
    assert_eq!(morton2(1, 0), 1);
}

#[test]
fn appends_route_to_buckets_and_flush() {
    let mut files: Vec<Option<Vec<u8>>> = vec![None; 16];
    let mut writer = BucketWriter::create(16);
    for (index, bytes) in [(3u32, "hello"), (3, "world"), (7, "foo")] {
        if !writer.is_open(index) {
            files[index as usize] = Some(Vec::new());
        }
        writer.append(index);
        let file = files[index as usize].as_mut().unwrap();
        file.extend_from_slice(bytes.as_bytes());
    }
    assert_eq!(writer.finish(), vec![3, 7]);
    assert_eq!(files[3].as_deref(), Some(b"helloworld".as_ref()));
    assert_eq!(files[7].as_deref(), Some(b"foo".as_ref()));
    // Untouched buckets never created a file.
    assert!(files[0].is_none());
}

#[test]
fn the_compressors_answer_is_kept() {
    assert_eq!(stored_blob(Ok(vec![1, 2, 3])), Ok(vec![1, 2, 3]));
    let failed = std::io::Error::other("out of memory");
    assert_eq!(stored_blob(Err(failed)), Err(CompressError));
}
