use bitcask::{Directory, FilePool, WorkingFile};

fn name_of(id: usize) -> String {
    WorkingFile::from_bytes(id, Vec::new()).get_file_name()
}

#[test]
fn file_names_are_the_prefix_and_the_decimal_id() {
    assert_eq!(name_of(0), "working_file_0");
    assert_eq!(name_of(7), "working_file_7");
    assert_eq!(name_of(10), "working_file_10");
    assert_eq!(name_of(123), "working_file_123");
    assert_eq!(name_of(9000000000), "working_file_9000000000");
}

#[test]
fn segment_files_are_added_under_their_id() {
    let mut directory = Directory::new();
    assert_eq!(directory.add_file("working_file_12", vec![1]), Ok(true));
    assert_eq!(directory.add_file("working_file_0", vec![2, 2]), Ok(true));
    assert_eq!(directory.add_file("working_file_3", Vec::new()), Ok(true));
    let files = directory.files();
    assert_eq!(files.len(), 3);
    assert_eq!(files.file(0).id(), 0);
    assert_eq!(files.file(1).id(), 3);
    assert_eq!(files.file(2).id(), 12);
    assert_eq!(files.file(0).data(), &vec![2, 2]);
    assert_eq!(files.file(2).get_file_name(), "working_file_12");
}

#[test]
fn other_files_are_passed_over() {
    let mut directory = Directory::new();
    for name in [
        "bitcask.lock",
        "working_file_",
        "working_file",
        "working_file_01",
        "working_file_00",
        "working_file_1x",
        "working_file_x1",
        "working_file_-1",
        "working_file_1 ",
        "xworking_file_1",
        "Working_file_1",
        "working_file_1.bak",
        "working_file_\u{0661}",
        "",
        "working_file_99999999999999999999999999",
    ] {
        assert_eq!(directory.add_file(name, vec![1, 2, 3]), Ok(false), "{:?}", name);
    }
    assert_eq!(directory.files().len(), 0);
}

#[test]
fn the_largest_id_is_read_back() {
    let name = name_of(usize::MAX);
    let mut directory = Directory::new();
    assert_eq!(directory.add_file(&name, Vec::new()), Ok(true));
    assert_eq!(directory.files().file(0).id(), usize::MAX);
}

#[test]
fn a_second_file_of_the_same_segment_is_refused() {
    let mut directory = Directory::new();
    assert_eq!(directory.add_file("working_file_4", vec![1]), Ok(true));
    assert_eq!(directory.add_file("working_file_4", vec![2]), Err(bitcask::Error::Io));
    assert_eq!(directory.add_segment(4, vec![3]), Err(bitcask::Error::Io));
    assert_eq!(directory.files().len(), 1);
    assert_eq!(directory.files().file(0).data(), &vec![1]);
}

#[test]
fn next_id_is_the_number_of_segment_files() {
    let mut directory = Directory::new();
    assert_eq!(WorkingFile::get_working_file_id(directory.files()), 0);
    directory.add_file("working_file_0", Vec::new()).unwrap();
    directory.add_file("bitcask.lock", Vec::new()).unwrap();
    directory.add_file("working_file_1", Vec::new()).unwrap();
    assert_eq!(WorkingFile::get_working_file_id(directory.files()), 2);
}

#[test]
fn a_segment_is_not_created_twice() {
    let mut pool = FilePool::new();
    let file = WorkingFile::open(&pool, 0).unwrap();
    assert_eq!(file.id(), 0);
    assert_eq!(file.bytes_count(), 0);
    assert_eq!(pool.insert(file), Ok(()));
    assert_eq!(WorkingFile::open(&pool, 0).err(), Some(bitcask::Error::Io));
    assert!(WorkingFile::open(&pool, 1).is_ok());
}
