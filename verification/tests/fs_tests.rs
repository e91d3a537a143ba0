use tsos_kernel::fs::{name_to_arr, FileSystem, FsNode, FsNodeKind, IMAGE_HEADER, RECORD_SIZE};

fn names(fs: &FileSystem, path: &[u8]) -> Vec<Vec<u8>> {
    fs.list_dir(path)
}

#[test]
fn fresh_fs_holds_only_root() {
    let fs = FileSystem::new();
    assert_eq!(fs.count_nodes(), 1);
    assert!(fs.path_is_dir(b"/"));
    assert!(fs.path_is_dir(b""));
    assert!(names(&fs, b"/").is_empty());
    assert_eq!(fs.resolve(b"/"), Some(0));
}

#[test]
fn mkdir_creates_directory() {
    let mut fs = FileSystem::new();
    assert!(fs.mkdir(b"/docs"));
    assert!(fs.path_is_dir(b"/docs"));
    assert!(fs.path_is_dir(b"docs/"));
    assert_eq!(names(&fs, b"/"), vec![b"docs".to_vec()]);
    assert_eq!(fs.count_nodes(), 2);
}

#[test]
fn mkdir_existing_directory_succeeds_without_change() {
    let mut fs = FileSystem::new();
    assert!(fs.mkdir(b"/a"));
    assert!(fs.mkdir(b"/a"));
    assert_eq!(fs.count_nodes(), 2);
    assert!(fs.mkdir(b"/"));
}

#[test]
fn mkdir_needs_existing_parent() {
    let mut fs = FileSystem::new();
    assert!(!fs.mkdir(b"/x/y"));
    assert_eq!(fs.count_nodes(), 1);
}

#[test]
fn mkdir_over_file_fails() {
    let mut fs = FileSystem::new();
    assert!(fs.touch(b"/f"));
    assert!(!fs.mkdir(b"/f"));
    assert!(!fs.mkdir(b"/f/g"));
}

#[test]
fn touch_creates_empty_file() {
    let mut fs = FileSystem::new();
    assert!(fs.touch(b"/notes.txt"));
    assert_eq!(fs.read_file(b"/notes.txt"), Some(vec![]));
    assert!(!fs.path_is_dir(b"/notes.txt"));
    assert!(fs.touch(b"/notes.txt"));
    assert_eq!(fs.count_nodes(), 2);
}

#[test]
fn touch_creates_missing_last_directory() {
    let mut fs = FileSystem::new();
    assert!(fs.touch(b"/dir/file"));
    assert!(fs.path_is_dir(b"/dir"));
    assert_eq!(fs.read_file(b"/dir/file"), Some(vec![]));
    assert!(!fs.touch(b"/p/q/r"));
    assert!(!fs.touch(b"/"));
}

#[test]
fn write_then_read_gives_data_back() {
    let mut fs = FileSystem::new();
    assert!(fs.touch(b"/a.txt"));
    assert!(fs.write_file(b"/a.txt", b"hello"));
    assert_eq!(fs.read_file(b"/a.txt"), Some(b"hello".to_vec()));
    assert_eq!(fs.cat(b"/a.txt"), Some(b"hello".to_vec()));
}

#[test]
fn write_keeps_first_256_bytes() {
    let mut fs = FileSystem::new();
    assert!(fs.touch(b"/big"));
    let data: Vec<u8> = (0..300u32).map(|i| (i % 251) as u8).collect();
    assert!(fs.write_file(b"/big", &data));
    assert_eq!(fs.read_file(b"/big"), Some(data[..256].to_vec()));
}

#[test]
fn write_to_missing_or_directory_fails() {
    let mut fs = FileSystem::new();
    assert!(!fs.write_file(b"/nothing", b"x"));
    assert!(fs.mkdir(b"/d"));
    assert!(!fs.write_file(b"/d", b"x"));
    assert_eq!(fs.read_file(b"/d"), None);
}

#[test]
fn cat_refuses_invalid_utf8() {
    let mut fs = FileSystem::new();
    assert!(fs.touch(b"/bin"));
    assert!(fs.write_file(b"/bin", &[0xFF, 0xFE]));
    assert_eq!(fs.read_file(b"/bin"), Some(vec![0xFF, 0xFE]));
    assert_eq!(fs.cat(b"/bin"), None);
}

#[test]
fn rm_removes_file_and_empty_directory() {
    let mut fs = FileSystem::new();
    assert!(fs.touch(b"/a"));
    assert!(fs.mkdir(b"/d"));
    assert!(fs.touch(b"/d/inner"));
    assert!(!fs.rm(b"/d"));
    assert!(fs.rm(b"/d/inner"));
    assert!(fs.rm(b"/d"));
    assert!(fs.rm(b"/a"));
    assert!(names(&fs, b"/").is_empty());
    assert!(!fs.rm(b"/a"));
    assert!(!fs.rm(b"/"));
}

#[test]
fn rm_keeps_order_of_other_entries() {
    let mut fs = FileSystem::new();
    assert!(fs.touch(b"/a"));
    assert!(fs.touch(b"/b"));
    assert!(fs.touch(b"/c"));
    assert!(fs.rm(b"/b"));
    assert_eq!(names(&fs, b"/"), vec![b"a".to_vec(), b"c".to_vec()]);
}

#[test]
fn directory_holds_at_most_sixteen_entries() {
    let mut fs = FileSystem::new();
    for i in 0..16u8 {
        let name = [b'/', b'a' + i];
        assert!(fs.touch(&name));
    }
    assert!(!fs.touch(b"/zz"));
    assert_eq!(names(&fs, b"/").len(), 16);
}

#[test]
fn long_names_keep_31_bytes() {
    let mut fs = FileSystem::new();
    let long = [b'n'; 40];
    let mut path = vec![b'/'];
    path.extend_from_slice(&long);
    assert!(fs.touch(&path));
    assert_eq!(names(&fs, b"/"), vec![vec![b'n'; 31]]);
}

#[test]
fn name_to_arr_pads_and_truncates() {
    let a = name_to_arr(b"abc");
    assert_eq!(&a[..3], b"abc");
    assert!(a[3..].iter().all(|&b| b == 0));
    let b = name_to_arr(&[b'x'; 40]);
    assert!(b[..31].iter().all(|&c| c == b'x'));
    assert_eq!(b[31], 0);
}

#[test]
fn empty_node_and_name_str() {
    let n = FsNode::empty();
    assert_eq!(n.kind, FsNodeKind::Unused);
    assert_eq!(n.data_len, 0);
    assert_eq!(n.name_str(), Vec::<u8>::new());
    let mut m = FsNode::empty();
    m.name[0] = 0xFF;
    assert_eq!(m.name_str(), b"?".to_vec());
}

#[test]
fn serialize_writes_count_and_records() {
    let mut fs = FileSystem::new();
    assert!(fs.touch(b"/f"));
    assert!(fs.write_file(b"/f", b"data"));
    let mut buf = vec![0xAAu8; 2000];
    let n = fs.serialize_to(&mut buf);
    assert_eq!(n, IMAGE_HEADER + 2 * RECORD_SIZE);
    assert_eq!(&buf[..8], &2u64.to_le_bytes());
    assert_eq!(buf[8], 2);
    assert_eq!(buf[9], b'/');
    let rec1 = IMAGE_HEADER + RECORD_SIZE;
    assert_eq!(buf[rec1], 1);
    assert_eq!(buf[rec1 + 1], b'f');
    assert_eq!(&buf[rec1 + 176..rec1 + 180], b"data");
    assert_eq!(&buf[rec1 + 432..rec1 + 440], &4u64.to_le_bytes());
    assert_eq!(buf[n], 0xAA);
}

#[test]
fn serialize_refuses_small_buffer() {
    let fs = FileSystem::new();
    let mut buf = vec![7u8; IMAGE_HEADER + RECORD_SIZE - 1];
    assert_eq!(fs.serialize_to(&mut buf), 0);
    assert!(buf.iter().all(|&b| b == 7));
}

#[test]
fn image_roundtrip_restores_table() {
    let mut fs = FileSystem::new();
    assert!(fs.mkdir(b"/etc"));
    assert!(fs.touch(b"/etc/motd"));
    assert!(fs.write_file(b"/etc/motd", b"welcome"));
    let mut buf = vec![0u8; 4096];
    let n = fs.serialize_to(&mut buf);
    assert!(n > 0);
    let mut other = FileSystem::new();
    assert!(other.deserialize_from(&buf[..n]));
    assert_eq!(other.count_nodes(), fs.count_nodes());
    assert_eq!(other.read_file(b"/etc/motd"), Some(b"welcome".to_vec()));
    assert_eq!(other.list_dir(b"/"), vec![b"etc".to_vec()]);
    assert!(other.path_is_dir(b"/etc"));
}

#[test]
fn deserialize_refuses_bad_images() {
    let mut fs = FileSystem::new();
    assert!(fs.touch(b"/keep"));
    assert!(!fs.deserialize_from(&[1, 0, 0]));
    let mut zero = vec![0u8; 8 + RECORD_SIZE];
    assert!(!fs.deserialize_from(&zero));
    zero[0] = 65;
    assert!(!fs.deserialize_from(&zero));
    let mut one = vec![0u8; 8 + RECORD_SIZE];
    one[0] = 1;
    one[8] = 9;
    assert!(!fs.deserialize_from(&one));
    one[8] = 2;
    one[8 + 432] = 1;
    one[8 + 433] = 1;
    assert!(!fs.deserialize_from(&one));
    one[8 + 433] = 0;
    for j in 0..16 {
        for k in 0..8 {
            one[8 + 48 + 8 * j + k] = 0xFF;
        }
    }
    one[8 + 48] = 5;
    for k in 1..8 {
        one[8 + 48 + k] = 0;
    }
    assert!(!fs.deserialize_from(&one));
    assert_eq!(fs.read_file(b"/keep"), Some(vec![]));
    assert!(!fs.deserialize_from(&one[..100]));
}

#[test]
fn deserialize_accepts_minimal_image() {
    let mut fs = FileSystem::new();
    let mut one = vec![0u8; 8 + RECORD_SIZE];
    one[0] = 1;
    one[8] = 2;
    one[9] = b'/';
    for k in 0..(16 * 8) {
        one[8 + 48 + k] = 0xFF;
    }
    assert!(fs.deserialize_from(&one));
    assert_eq!(fs.count_nodes(), 1);
    assert!(fs.path_is_dir(b"/"));
    assert!(fs.list_dir(b"/").is_empty());
}

#[test]
fn write_leaves_other_files_alone() {
    let mut fs = FileSystem::new();
    assert!(fs.touch(b"/a"));
    assert!(fs.touch(b"/b"));
    assert!(fs.write_file(b"/a", b"first"));
    assert!(fs.write_file(b"/b", b"second"));
    assert!(fs.write_file(b"/a", b"x"));
    assert_eq!(fs.read_file(b"/a"), Some(b"x".to_vec()));
    assert_eq!(fs.read_file(b"/b"), Some(b"second".to_vec()));
}

#[test]
fn touch_in_missing_directory_gives_empty_file() {
    let mut fs = FileSystem::new();
    assert!(fs.mkdir(b"/top"));
    assert!(fs.touch(b"/top/new/f"));
    assert!(fs.path_is_dir(b"/top/new"));
    assert_eq!(fs.read_file(b"/top/new/f"), Some(vec![]));
    assert!(fs.touch(b"/top/new"));
    assert!(fs.path_is_dir(b"/top/new"));
}

#[test]
fn image_brings_back_state_after_later_changes() {
    let mut fs = FileSystem::new();
    assert!(fs.mkdir(b"/etc"));
    assert!(fs.touch(b"/etc/motd"));
    assert!(fs.write_file(b"/etc/motd", b"hello"));
    let mut buf = vec![0u8; 8192];
    let n = fs.serialize_to(&mut buf);
    assert!(n > 0);
    assert!(fs.write_file(b"/etc/motd", b"changed"));
    assert!(fs.touch(b"/later"));
    assert!(fs.mkdir(b"/etc/more"));
    assert!(fs.deserialize_from(&buf[..n]));
    assert_eq!(fs.read_file(b"/etc/motd"), Some(b"hello".to_vec()));
    assert_eq!(fs.resolve(b"/later"), None);
    assert_eq!(fs.list_dir(b"/etc"), vec![b"motd".to_vec()]);
    assert_eq!(fs.list_dir(b"/"), vec![b"etc".to_vec()]);
    assert_eq!(fs.count_nodes(), 3);
}

#[test]
fn second_touch_changes_nothing_and_name_is_listed() {
    let mut fs = FileSystem::new();
    assert!(fs.touch(b"/d/f"));
    assert_eq!(fs.list_dir(b"/d"), vec![b"f".to_vec()]);
    let count = fs.count_nodes();
    assert!(fs.touch(b"/d/f"));
    assert_eq!(fs.count_nodes(), count);
    assert_eq!(fs.list_dir(b"/d"), vec![b"f".to_vec()]);
    assert_eq!(fs.read_file(b"/d/f"), Some(vec![]));
}
