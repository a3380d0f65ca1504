use cookfs::{Block, Error, Idx, Index, Kind, Node};

const MAGIC: &[u8] = b"CFS2.200";

fn file_entry(name: &str, mtime: i64, blocks: &[Block]) -> Vec<u8> {
    let mut out = vec![name.len() as u8];
    out.extend_from_slice(name.as_bytes());
    out.push(0);
    out.extend_from_slice(&mtime.to_be_bytes());
    out.extend_from_slice(&(blocks.len() as i32).to_be_bytes());
    for b in blocks {
        out.extend_from_slice(&b.page.to_be_bytes());
        out.extend_from_slice(&b.offset.to_be_bytes());
        out.extend_from_slice(&b.size.to_be_bytes());
    }
    out
}

fn dir_entry(name: &str, mtime: i64, child_count: u32, children: &[u8]) -> Vec<u8> {
    let mut out = vec![name.len() as u8];
    out.extend_from_slice(name.as_bytes());
    out.push(0);
    out.extend_from_slice(&mtime.to_be_bytes());
    out.extend_from_slice(&(-1i32).to_be_bytes());
    out.extend_from_slice(&child_count.to_be_bytes());
    out.extend_from_slice(children);
    out
}

/// One directory ("docs") holding one file ("readme.txt"), at the root.
fn one_dir_one_file_blob() -> Vec<u8> {
    let file = file_entry(
        "readme.txt",
        1_700_000_000,
        &[Block {
            page: 0,
            offset: 0,
            size: 42,
        }],
    );
    let dir = dir_entry("docs", 1_700_000_000, 1, &file);

    let mut blob = MAGIC.to_vec();
    blob.extend_from_slice(&1u32.to_be_bytes()); // root has one child
    blob.extend_from_slice(&dir);
    blob.extend_from_slice(&0u32.to_be_bytes()); // zero metadata records
    blob
}

/// The node a handle names.
fn node(index: &Index, idx: Idx) -> &Node {
    &index.nodes[la_arena::Idx::from_raw(la_arena::RawIdx::from(idx.into_raw()))]
}

#[test]
fn parse_rejects_a_blob_with_the_wrong_magic() {
    assert!(matches!(
        Index::parse(b"not the magic bytes"),
        Err(Error::BadMagic { .. })
    ));
}

#[test]
fn parse_reads_one_directory_with_one_file() {
    let blob = one_dir_one_file_blob();
    let index = Index::parse(&blob).unwrap();

    let Kind::Dir(root_children) = &node(&index, index.root).kind else {
        panic!("root must be a directory");
    };
    assert!(root_children.len() == 1);

    let dir = node(&index, root_children[0]);
    assert!(dir.name == "docs");
    assert!(dir.is_dir());

    let Kind::Dir(dir_children) = &dir.kind else {
        panic!("docs must be a directory");
    };
    assert!(dir_children.len() == 1);

    let file = node(&index, dir_children[0]);
    assert!(file.name == "readme.txt");
    assert!(!file.is_dir());
    assert!(file.size() == 42);
}

#[test]
fn walk_yields_the_full_path_for_every_node() {
    let blob = one_dir_one_file_blob();
    let index = Index::parse(&blob).unwrap();

    let paths: Vec<String> = index.walk().into_iter().map(|(path, _)| path).collect();
    assert!(paths == vec!["docs".to_owned(), "docs/readme.txt".to_owned()]);
}

#[test]
fn parse_rejects_a_blob_with_trailing_garbage() {
    let mut blob = one_dir_one_file_blob();
    blob.push(0xFF); // one byte the parser never consumes
    assert!(matches!(Index::parse(&blob), Err(Error::Desync { .. })));
}

/// A truncated fsindex must error cleanly, not panic on an out-of-bounds slice.
#[test]
fn parse_errors_instead_of_panicking_on_a_truncated_blob() {
    let mut blob = one_dir_one_file_blob();
    blob.truncate(blob.len() - 5);
    assert!(matches!(Index::parse(&blob), Err(Error::Truncated { .. })));
}

#[test]
fn parse_reports_where_a_truncated_blob_ran_out() {
    // The magic, then a child count with one byte missing.
    let mut blob = MAGIC.to_vec();
    blob.extend_from_slice(&[0, 0, 0]);
    assert!(matches!(
        Index::parse(&blob),
        Err(Error::Truncated { pos: 8, need: 4, len: 11 })
    ));
}

#[test]
fn parse_reports_the_bytes_found_in_place_of_the_magic() {
    match Index::parse(b"CFS2") {
        Err(Error::BadMagic { magic }) => assert!(magic == b"CFS2"),
        _ => panic!("expected a bad magic"),
    }
    match Index::parse(b"CFS3.200 and more") {
        Err(Error::BadMagic { magic }) => assert!(magic == b"CFS3.200"),
        _ => panic!("expected a bad magic"),
    }
}

#[test]
fn parse_reports_the_desync_position() {
    let mut blob = one_dir_one_file_blob();
    let len = blob.len();
    blob.extend_from_slice(&[1, 2, 3]);
    assert!(matches!(
        Index::parse(&blob),
        Err(Error::Desync { got, len: total }) if got == len && total == len + 3
    ));
}

#[test]
fn parse_consumes_metadata_records() {
    let mut blob = MAGIC.to_vec();
    blob.extend_from_slice(&0u32.to_be_bytes()); // an empty root
    blob.extend_from_slice(&2u32.to_be_bytes()); // two metadata records
    blob.extend_from_slice(&3u32.to_be_bytes());
    blob.extend_from_slice(b"key");
    blob.extend_from_slice(&0u32.to_be_bytes());
    let index = Index::parse(&blob).unwrap();
    assert!(index.walk().is_empty());
    assert!(index.root.into_raw() == 0);
}

#[test]
fn walk_visits_children_in_name_order_depth_first() {
    let b = |size: i32| Block {
        page: 0,
        offset: 0,
        size,
    };
    let inner = file_entry("z.txt", 0, &[b(1)]);
    let sub = dir_entry("m", 0, 1, &inner);
    let mut listing = Vec::new();
    listing.extend_from_slice(&file_entry("b.txt", 0, &[b(2)]));
    listing.extend_from_slice(&sub);
    listing.extend_from_slice(&file_entry("a.txt", 0, &[b(3)]));

    let mut blob = MAGIC.to_vec();
    blob.extend_from_slice(&3u32.to_be_bytes());
    blob.extend_from_slice(&listing);
    blob.extend_from_slice(&0u32.to_be_bytes());

    let index = Index::parse(&blob).unwrap();
    let paths: Vec<String> = index.walk().into_iter().map(|(path, _)| path).collect();
    assert!(paths == vec!["a.txt", "b.txt", "m", "m/z.txt"]);
}

#[test]
fn size_sums_a_files_blocks_and_ignores_negative_sizes() {
    let blocks = [
        Block {
            page: 0,
            offset: 0,
            size: 10,
        },
        Block {
            page: 1,
            offset: 0,
            size: -5,
        },
        Block {
            page: 2,
            offset: 0,
            size: i32::MAX,
        },
    ];
    let mut blob = MAGIC.to_vec();
    blob.extend_from_slice(&1u32.to_be_bytes());
    blob.extend_from_slice(&file_entry("f", 7, &blocks));
    blob.extend_from_slice(&0u32.to_be_bytes());
    let index = Index::parse(&blob).unwrap();
    let (path, idx) = index.walk().into_iter().next().unwrap();
    assert!(path == "f");
    let file = node(&index, idx);
    assert!(file.size() == 10 + i32::MAX as u64);
    assert!(file.mtime == 7);
    assert!(file.parent == Some(index.root));
}

#[test]
fn a_name_that_is_not_utf8_is_read_lossily() {
    let mut entry = vec![2u8, b'a', 0xFF, 0];
    entry.extend_from_slice(&0i64.to_be_bytes());
    entry.extend_from_slice(&0i32.to_be_bytes());
    let mut blob = MAGIC.to_vec();
    blob.extend_from_slice(&1u32.to_be_bytes());
    blob.extend_from_slice(&entry);
    blob.extend_from_slice(&0u32.to_be_bytes());
    let index = Index::parse(&blob).unwrap();
    let (path, _) = index.walk().into_iter().next().unwrap();
    assert!(path == "a\u{FFFD}");
}

#[test]
fn handles_round_trip_their_raw_value() {
    assert!(Idx::from_raw(17).into_raw() == 17);
}

#[test]
fn every_node_but_the_root_is_walked_once_and_listed_by_its_parent() {
    let leaf = |name: &str| {
        file_entry(
            name,
            0,
            &[Block {
                page: 0,
                offset: 0,
                size: 1,
            }],
        )
    };
    let mut deep = leaf("x");
    deep.extend_from_slice(&leaf("w"));
    let inner = dir_entry("in", 0, 2, &deep);
    let mut top = leaf("q");
    top.extend_from_slice(&inner);
    let outer = dir_entry("out", 0, 2, &top);
    let mut blob = MAGIC.to_vec();
    blob.extend_from_slice(&2u32.to_be_bytes());
    blob.extend_from_slice(&outer);
    blob.extend_from_slice(&leaf("a"));
    blob.extend_from_slice(&0u32.to_be_bytes());

    let index = Index::parse(&blob).unwrap();
    let walked = index.walk();
    let paths: Vec<&str> = walked.iter().map(|(path, _)| path.as_str()).collect();
    assert!(paths == vec!["a", "out", "out/in", "out/in/w", "out/in/x", "out/q"]);

    let mut raws: Vec<u32> = walked.iter().map(|(_, idx)| idx.into_raw()).collect();
    raws.sort_unstable();
    assert!(raws == vec![1, 2, 3, 4, 5, 6]);

    assert!(node(&index, index.root).parent.is_none());
    for (_, idx) in &walked {
        let parent = node(&index, *idx).parent.unwrap();
        let Kind::Dir(children) = &node(&index, parent).kind else {
            panic!("a parent must be a directory");
        };
        assert!(children.iter().filter(|c| **c == *idx).count() == 1);
    }
}
