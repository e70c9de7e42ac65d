//! The file system.
use rcore::fs::efs::EasyFileSystem;
use rcore::fs::layout::{total_blocks, DirEntry, MAX_FILE_SIZE};
use rcore::fs::vfs::Inode;
use rcore::fs::volume::{Fault, SharedInode, Volume};

/// A file system with 8 inodes from block 5 on and 64 data blocks, and its root.
fn fresh() -> (EasyFileSystem, Inode) {
    (EasyFileSystem::new(5, 8, 20, 64), Inode::new(5, 0, 0))
}

#[test]
fn created_file_is_found() {
    let (mut fs, root) = fresh();
    assert!(root.find(&fs, "a").is_none());
    let a = root.create(&mut fs, "a").unwrap();
    assert_eq!(a.stat(&fs), (1, false, 1));
    assert_eq!(root.find(&fs, "a").unwrap().stat(&fs), (1, false, 1));
    let b = root.create(&mut fs, "b").unwrap();
    assert_eq!(b.stat(&fs), (1, false, 2));
    assert_eq!(root.find(&fs, "a").unwrap().stat(&fs).2, 1);
    assert!(root.find(&fs, "c").is_none());
    assert_eq!(root.ls(&fs), vec!["a".to_string(), "b".to_string()]);
    assert!(!fs.is_modified());
}

#[test]
fn data_blocks_have_numbers() {
    let (mut fs, root) = fresh();
    let a = root.create(&mut fs, "a").unwrap();
    assert_eq!(a.write_at(&mut fs, 0, &[7u8; 600]), 600);
    let (number, bytes) = fs.data_block(0, 0);
    assert_eq!((number, &bytes[..3]), (20, &b"a\0\0"[..]));
    assert_eq!(fs.data_block(1, 0), (21, vec![7u8; 512]));
    let (number, bytes) = fs.data_block(1, 1);
    assert_eq!((number, bytes.len()), (22, 512));
    assert_eq!((&bytes[..88], &bytes[88..]), (&[7u8; 88][..], &[0u8; 424][..]));
    let volume = Volume::new(fs);
    assert_eq!(volume.file_system().data_block(1, 0).0, 21);
}

#[test]
fn root_is_a_directory() {
    let (fs, root) = fresh();
    assert_eq!(root.stat(&fs), (1, true, 0));
    assert!(root.ls(&fs).is_empty());
}

#[test]
fn taken_name_is_refused() {
    let (mut fs, root) = fresh();
    root.create(&mut fs, "a").unwrap();
    assert!(root.create(&mut fs, "a").is_none());
    assert_eq!(root.ls(&fs).len(), 1);
    assert_eq!(fs.free_inode(), Some(2));
}

#[test]
fn inodes_have_their_places() {
    let (fs, _) = fresh();
    assert_eq!(fs.get_disk_inode_pos(0), (5, 0));
    assert_eq!(fs.get_disk_inode_pos(3), (5, 384));
    assert_eq!(fs.get_disk_inode_pos(6), (6, 256));
}

#[test]
fn link_gives_a_second_name() {
    let (mut fs, root) = fresh();
    let a = root.create(&mut fs, "a").unwrap();
    a.write_at(&mut fs, 0, b"data");
    assert_eq!(root.link_at(&mut fs, "a", "b"), 0);
    assert_eq!(a.nlinks(&fs), 2);
    let b = root.find(&fs, "b").unwrap();
    assert_eq!(b.stat(&fs), (2, false, 1));
    let mut buf = [0u8; 4];
    assert_eq!(b.read_at(&fs, 0, &mut buf), 4);
    assert_eq!(&buf, b"data");
    assert_eq!(root.ls(&fs), vec!["a".to_string(), "b".to_string()]);
}

#[test]
fn link_needs_an_old_name_and_a_free_new_one() {
    let (mut fs, root) = fresh();
    root.create(&mut fs, "a").unwrap();
    root.create(&mut fs, "b").unwrap();
    assert_eq!(root.link_at(&mut fs, "x", "y"), -1);
    assert_eq!(root.link_at(&mut fs, "a", "b"), -1);
    assert_eq!(root.link_at(&mut fs, "a", "a"), -1);
    assert_eq!(root.find(&fs, "a").unwrap().nlinks(&fs), 1);
    assert_eq!(root.ls(&fs).len(), 2);
}

#[test]
fn last_unlink_removes_the_file() {
    let (mut fs, root) = fresh();
    let before = fs.free_blocks();
    let a = root.create(&mut fs, "a").unwrap();
    root.create(&mut fs, "b").unwrap();
    root.create(&mut fs, "c").unwrap();
    a.write_at(&mut fs, 0, &[7u8; 2000]);
    assert_eq!(fs.free_blocks(), before - 1 - 4);
    assert_eq!(root.unlink_at(&mut fs, "a"), 0);
    assert_eq!(fs.free_blocks(), before - 1);
    assert_eq!(fs.free_inode(), Some(1));
    assert!(root.find(&fs, "a").is_none());
    // The last entry took the place of the one that was removed.
    assert_eq!(root.ls(&fs), vec!["c".to_string(), "b".to_string()]);
    assert_eq!(root.find(&fs, "c").unwrap().stat(&fs).2, 3);
    assert_eq!(root.unlink_at(&mut fs, "a"), -1);
}

#[test]
fn unlink_undoes_create() {
    let (mut fs, root) = fresh();
    root.create(&mut fs, "a").unwrap();
    root.create(&mut fs, "b").unwrap();
    assert_eq!(root.unlink_at(&mut fs, "b"), 0);
    assert_eq!(root.ls(&fs), vec!["a".to_string()]);
    assert_eq!(root.find(&fs, "a").unwrap().stat(&fs), (1, false, 1));
    assert!(root.find(&fs, "b").is_none());
    assert_eq!(fs.free_inode(), Some(2));
}

#[test]
fn unlink_with_links_left_keeps_the_file() {
    let (mut fs, root) = fresh();
    let a = root.create(&mut fs, "a").unwrap();
    a.write_at(&mut fs, 0, b"data");
    let free = fs.free_blocks();
    assert_eq!(root.link_at(&mut fs, "a", "b"), 0);
    assert_eq!(root.unlink_at(&mut fs, "b"), 0);
    assert_eq!(root.ls(&fs), vec!["a".to_string()]);
    assert!(root.find(&fs, "b").is_none());
    assert_eq!(root.find(&fs, "a").unwrap().nlinks(&fs), 1);
    assert_eq!(root.unlink_at(&mut fs, "b"), -1);
    let mut buf = [0u8; 4];
    assert_eq!(a.read_at(&fs, 0, &mut buf), 4);
    assert_eq!(&buf, b"data");
    assert_eq!(fs.free_blocks(), free);
    assert_eq!(fs.free_inode(), Some(2));
}

#[test]
fn either_name_can_go_first() {
    let (mut fs, root) = fresh();
    let a = root.create(&mut fs, "a").unwrap();
    assert_eq!(root.link_at(&mut fs, "a", "b"), 0);
    assert_eq!(root.unlink_at(&mut fs, "a"), 0);
    assert_eq!(root.ls(&fs), vec!["b".to_string()]);
    assert_eq!(root.find(&fs, "b").unwrap().stat(&fs), (1, false, 1));
    assert_eq!(a.nlinks(&fs), 1);
    assert_eq!(root.unlink_at(&mut fs, "b"), 0);
    assert!(root.ls(&fs).is_empty());
    assert_eq!(fs.free_inode(), Some(1));
    assert_eq!(fs.free_blocks(), 64);
}

#[test]
fn shrinking_directory_gives_its_blocks_back() {
    let mut fs = EasyFileSystem::new(5, 24, 40, 8);
    let root = Inode::new(5, 0, 0);
    for i in 0..16 {
        root.create(&mut fs, &format!("f{}", i)).unwrap();
    }
    assert_eq!(fs.free_blocks(), 7);
    root.create(&mut fs, "f16").unwrap();
    assert_eq!(fs.free_blocks(), 6);
    assert_eq!(root.unlink_at(&mut fs, "f3"), 0);
    assert_eq!(fs.free_blocks(), 7);
    assert_eq!(root.ls(&fs)[3], "f16");
    assert_eq!(root.ls(&fs).len(), 16);
}

#[test]
fn cutting_gives_blocks_back() {
    let (mut fs, root) = fresh();
    let a = root.create(&mut fs, "a").unwrap();
    a.write_at(&mut fs, 0, &[7u8; 30 * 512]);
    assert_eq!(fs.free_blocks(), 64 - 1 - 31);
    // 27 blocks need no index block.
    fs.decrease_size(1, 27 * 512);
    assert_eq!(fs.free_blocks(), 64 - 1 - 27);
    fs.decrease_size(1, 700);
    assert_eq!(fs.free_blocks(), 64 - 1 - 2);
    fs.decrease_size(1, 800);
    assert_eq!(fs.size(1), 700);
    let mut buf = [0u8; 1000];
    assert_eq!(a.read_at(&fs, 0, &mut buf), 700);
    // A block that is taken again is zero.
    a.write_at(&mut fs, 1024 + 5, &[1u8]);
    let mut buf = [9u8; 5];
    assert_eq!(a.read_at(&fs, 1024, &mut buf), 5);
    assert_eq!(buf, [0u8; 5]);
}

#[test]
fn write_then_read() {
    let (mut fs, root) = fresh();
    let a = root.create(&mut fs, "a").unwrap();
    let data: Vec<u8> = (0..1500).map(|i| (i % 251) as u8).collect();
    assert_eq!(a.write_at(&mut fs, 700, &data), 1500);
    let mut buf = vec![0xffu8; 3000];
    assert_eq!(a.read_at(&fs, 0, &mut buf), 2200);
    assert!(buf[..700].iter().all(|b| *b == 0));
    assert_eq!(&buf[700..2200], &data[..]);
    assert!(buf[2200..].iter().all(|b| *b == 0xff));
    let mut part = [0u8; 3];
    assert_eq!(a.read_at(&fs, 702, &mut part), 3);
    assert_eq!(part, [2, 3, 4]);
    assert_eq!(a.read_at(&fs, 2200, &mut part), 0);
    assert_eq!(a.read_at(&fs, 9999, &mut part), 0);
    assert_eq!(part, [2, 3, 4]);
}

#[test]
fn overwriting_keeps_the_rest() {
    let (mut fs, root) = fresh();
    let a = root.create(&mut fs, "a").unwrap();
    let b = root.create(&mut fs, "b").unwrap();
    a.write_at(&mut fs, 0, b"0123456789");
    b.write_at(&mut fs, 0, b"other");
    assert_eq!(a.write_at(&mut fs, 3, b"xy"), 2);
    let mut buf = [0u8; 10];
    assert_eq!(a.read_at(&fs, 0, &mut buf), 10);
    assert_eq!(&buf, b"012xy56789");
    assert_eq!(b.read_at(&fs, 0, &mut buf), 5);
    assert_eq!(&buf[..5], b"other");
}

#[test]
fn index_blocks_are_counted() {
    assert_eq!(total_blocks(0), 0);
    assert_eq!(total_blocks(1), 1);
    assert_eq!(total_blocks(27 * 512), 27);
    assert_eq!(total_blocks(27 * 512 + 1), 29);
    assert_eq!(total_blocks(155 * 512), 156);
    assert_eq!(total_blocks(155 * 512 + 1), 159);
    assert_eq!(total_blocks(MAX_FILE_SIZE), 16539 + 1 + 1 + 128);
    let (mut fs, root) = fresh();
    let a = root.create(&mut fs, "a").unwrap();
    let data: Vec<u8> = (0..30 * 512).map(|i| (i / 512) as u8 + 1).collect();
    a.write_at(&mut fs, 0, &data);
    assert_eq!(fs.free_blocks(), 64 - 1 - 31);
    let mut buf = vec![0u8; 30 * 512];
    assert_eq!(a.read_at(&fs, 0, &mut buf), 30 * 512);
    assert_eq!(buf, data);
}

#[test]
fn clear_gives_blocks_back() {
    let (mut fs, root) = fresh();
    let a = root.create(&mut fs, "a").unwrap();
    let before = fs.free_blocks();
    a.write_at(&mut fs, 0, &[1u8; 5000]);
    a.clear(&mut fs);
    assert_eq!(fs.free_blocks(), before);
    let mut buf = [0u8; 4];
    assert_eq!(a.read_at(&fs, 0, &mut buf), 0);
    // Blocks that are taken again are zero.
    a.write_at(&mut fs, 600, &[2u8]);
    let mut buf = [9u8; 601];
    assert_eq!(a.read_at(&fs, 0, &mut buf), 601);
    assert!(buf[..600].iter().all(|b| *b == 0));
}

#[test]
fn names_are_text() {
    let (mut fs, root) = fresh();
    root.create(&mut fs, "na\u{ef}ve").unwrap();
    root.create(&mut fs, "").unwrap();
    root.create(&mut fs, "twenty-seven-bytes-long-nam").unwrap();
    let want = vec!["na\u{ef}ve".to_string(), "".to_string(), "twenty-seven-bytes-long-nam".to_string()];
    assert_eq!(root.ls(&fs), want);
    assert_eq!(root.find(&fs, "na\u{ef}ve").unwrap().stat(&fs).2, 1);
}

#[test]
fn entries_are_laid_out() {
    let e = DirEntry::new("ab", 0x0102_0304);
    let mut raw = vec![0u8; 32];
    raw[0] = b'a';
    raw[1] = b'b';
    raw[28..].copy_from_slice(&[4, 3, 2, 1]);
    assert_eq!(e.as_bytes(), &raw[..]);
    assert_eq!(e.name(), "ab");
    assert_eq!(e.inode_id(), 0x0102_0304);
    assert!(e.name_is("ab") && !e.name_is("a") && !e.name_is("abc"));
    assert!(e.is_readable());
    assert!(!DirEntry::from_bytes(vec![0xffu8; 32]).is_readable());
    raw[0] = 0xff;
    assert!(!DirEntry::from_bytes(raw).is_readable());
}

#[test]
fn volume_refuses_what_cannot_be_done() {
    let (mut fs, root) = fresh();
    let a = root.create(&mut fs, "a").unwrap();
    let mut volume = Volume::new(fs);
    // Not a directory.
    assert!(volume.find(&a, "x").is_err());
    assert!(volume.create(&a, "x").is_err());
    assert_eq!(volume.ls(&a), Err(Fault));
    // Not in the inode area.
    let nowhere = Inode::new(40, 0, 0);
    assert_eq!(volume.nlinks(&nowhere), Err(Fault));
    assert_eq!(volume.stat(&Inode::new(5, 5, 0)), Err(Fault));
    assert_eq!(volume.clear(&nowhere), Err(Fault));
    assert_eq!(volume.ls(&nowhere), Err(Fault));
    assert_eq!(volume.read_at(&nowhere, 0, &mut [0u8; 1]), Err(Fault));
    // The name is too long.
    assert!(volume.create(&root, "twenty-eight-bytes-long-name").is_err());
    assert_eq!(volume.link_at(&root, "a", "twenty-eight-bytes-long-name"), Err(Fault));
    // No room.
    assert_eq!(volume.write_at(&a, 0, &[1u8; 64 * 512]), Err(Fault));
    assert_eq!(volume.write_at(&a, MAX_FILE_SIZE as usize, &[1u8]), Err(Fault));
    assert_eq!(volume.write_at(&a, usize::MAX, &[1u8]), Err(Fault));
    assert_eq!(volume.unlink_at(&root, "a"), Ok(0));
    assert_eq!(volume.unlink_at(&root, "a"), Ok(-1));
    for i in 0..7 {
        assert!(volume.create(&root, &format!("f{}", i)).unwrap().is_some());
    }
    // No inode is left.
    assert!(volume.create(&root, "f7").is_err());
    assert!(volume.create(&root, "f0").unwrap().is_none());
}

#[test]
fn shared_inodes_see_one_volume() {
    let (fs, root) = fresh();
    let root = SharedInode::new(root, Volume::new(fs));
    let a = root.create("a").unwrap().unwrap();
    assert!(root.create("a").unwrap().is_none());
    assert_eq!(a.write_at(2, b"xyz"), Ok(3));
    let again = root.find("a").unwrap().unwrap();
    let mut buf = [1u8; 8];
    assert_eq!(again.read_at(0, &mut buf), Ok(5));
    assert_eq!(buf, [0, 0, b'x', b'y', b'z', 1, 1, 1]);
    assert_eq!(root.link_at("a", "b"), Ok(0));
    assert_eq!(a.nlinks(), Ok(2));
    assert_eq!(a.stat(), Ok((2, false, 1)));
    assert_eq!(root.ls(), Ok(vec!["a".to_string(), "b".to_string()]));
    assert_eq!(again.clear(), Ok(()));
    assert_eq!(a.read_at(0, &mut buf), Ok(0));
    assert_eq!(root.unlink_at("c"), Ok(-1));
    assert_eq!(root.unlink_at("a"), Ok(0));
    assert_eq!(root.unlink_at("a"), Ok(-1));
    assert!(root.find("a").unwrap().is_none());
    assert_eq!(root.ls(), Ok(vec!["b".to_string()]));
    assert_eq!(root.unlink_at("b"), Ok(0));
    assert_eq!(root.ls(), Ok(vec![]));
}

#[test]
fn further_inodes_open_on_the_same_volume() {
    let (fs, root) = fresh();
    let root = SharedInode::new(root, Volume::new(fs));
    root.create("a").unwrap().unwrap();
    let a = root.beside(Inode::new(5, 128, 1));
    assert_eq!(a.write_at(0, b"x"), Ok(1));
    let mut buf = [0u8; 1];
    assert_eq!(root.find("a").unwrap().unwrap().read_at(0, &mut buf), Ok(1));
    assert_eq!(&buf, b"x");
}
