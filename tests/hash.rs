use stavka::hash::{block_file_location, create_file_block_hash, FileBlockInfo};

#[test]
fn hash_of_empty_path() {
    let name = create_file_block_hash("", FileBlockInfo { block_size: 1024, block_num: 3 });
    assert_eq!(name, "c294d3380580062d.fb1024-3");
}

#[test]
fn hash_is_deterministic() {
    let block = FileBlockInfo { block_size: 65536, block_num: 12 };
    let a = create_file_block_hash("/freemoney.mp4", block);
    let b = create_file_block_hash("/freemoney.mp4", block);
    assert_eq!(a, b);
    assert_eq!(a.len(), 16 + ".fb65536-12".len());
    assert!(a.ends_with(".fb65536-12"));
    assert!(a[..16].chars().all(|c| c.is_ascii_digit() || ('a'..='f').contains(&c)));
}

#[test]
fn hash_depends_on_path() {
    let block = FileBlockInfo { block_size: 1, block_num: 0 };
    let a = create_file_block_hash("/a", block);
    let b = create_file_block_hash("/b", block);
    assert_ne!(a[..16], b[..16]);
    assert_eq!(a[16..], *".fb1-0");
}

#[test]
fn hash_trailer_extremes() {
    let name = create_file_block_hash("x", FileBlockInfo { block_size: u32::MAX, block_num: u16::MAX });
    assert!(name.ends_with(".fb4294967295-65535"));
}

#[test]
fn location_splits_hash() {
    let loc = block_file_location("0123456789abcdef.fb1024-3").unwrap();
    assert_eq!(loc.dir1, "01");
    assert_eq!(loc.dir2, "23");
    assert_eq!(loc.file_name, "45.fb1024-3");
}

#[test]
fn location_of_short_name_is_none() {
    assert!(block_file_location("0123").is_none());
}
