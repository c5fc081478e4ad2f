use tokactordb::fs::{join, parent, FileSystem, FsError, InMemoryFs, OpenFileOptions};

fn in_memory() -> FileSystem {
    FileSystem::in_memory(InMemoryFs::new())
}

#[test]
fn succeed_open_base_dir_in_memory() {
    let mut fs = in_memory();
    assert!(fs.open_base_dir().is_ok());
    assert!(fs.open_base_dir().is_ok());
}

#[test]
fn fail_open_file_with_no_write_and_truncate_in_memory() {
    let mut mem = in_memory();
    assert!(mem.open_file(OpenFileOptions::new("file").truncate()).is_err());
    assert!(mem.open_file(OpenFileOptions::new("file").create()).is_err());
}

#[test]
fn fail_to_open_cause_create_not_set_in_memory() {
    let mut mem = in_memory();
    assert!(mem.open_file(OpenFileOptions::new("file").read()).is_err());
}

#[test]
fn fail_open_file_with_create_new_because_exists_in_memory() {
    let mut mem = in_memory();
    assert!(mem.open_base_dir().is_ok());
    assert!(mem
        .open_file(OpenFileOptions::new("file").create().write())
        .is_ok());
    assert!(mem
        .open_file(OpenFileOptions::new("file").create_new().write())
        .is_err());
}

#[test]
fn fail_open_file_because_it_is_directory_in_memory() {
    let mut mem = in_memory();
    assert!(mem.open_base_dir().is_ok());
    assert!(mem.create_dir_if_not_exist("dir").is_ok());
    assert!(mem.open_file(OpenFileOptions::new("dir").create()).is_err());
}

#[test]
fn fail_to_open_file_because_no_parent_file_in_memory() {
    let mut mem = in_memory();
    assert!(mem.open_base_dir().is_ok());
    assert!(mem
        .open_file(OpenFileOptions::new("valid").write().create())
        .is_ok());
    assert!(mem
        .open_file(OpenFileOptions::new("not/valid").write().create())
        .is_err());
    assert!(mem
        .open_file(OpenFileOptions::new("still/not/valid").write().create())
        .is_err());
}

#[test]
fn fail_to_open_parent_file_not_dir_in_memory() {
    let mut mem = in_memory();
    assert!(mem.open_base_dir().is_ok());
    assert!(mem
        .open_file(OpenFileOptions::new("dir_file").write().create())
        .is_ok());
    assert!(mem
        .open_file(OpenFileOptions::new("dir_file/file").write().create())
        .is_err());
}

#[test]
fn succeed_open_file_with_no_read_or_write_in_memory() {
    let mut mem = in_memory();
    assert!(mem.open_base_dir().is_ok());
    assert!(mem
        .open_file(OpenFileOptions::new("file").write().create())
        .is_ok());
    let buffer: [u8; 1] = [1_u8; 1];
    let mut file = mem.open_file(OpenFileOptions::new("file").read()).unwrap();
    assert!(mem.write(&mut file, &buffer).is_err());
    let mut file = mem.open_file(OpenFileOptions::new("file").write()).unwrap();
    assert!(mem.read(&mut file, 1).is_err());
}

#[test]
fn succeed_open_file_with_truncate_option_in_memory() {
    let mut mem = in_memory();
    assert!(mem.open_base_dir().is_ok());
    let mut file = mem
        .open_file(OpenFileOptions::new("file").create().write())
        .unwrap();
    assert!(mem.write_all(&mut file, b"hello").is_ok());
    let mut file2 = mem
        .open_file(OpenFileOptions::new("file").truncate().write().read())
        .unwrap();
    assert_eq!(mem.read(&mut file2, 1).ok().map(|v| v.len()), Some(0));
}

#[test]
fn succeed_open_with_append_option_in_memory() {
    let mut mem = in_memory();
    assert!(mem.open_base_dir().is_ok());
    let options = OpenFileOptions::new("file").create().write().read();
    let mut file1 = mem.open_file(options.clone().truncate()).unwrap();
    assert!(mem.write_all(&mut file1, b"hello").is_ok());
    assert!(mem.flush(&file1).is_ok());
    let mut file2 = mem.open_file(options.append()).unwrap();
    assert!(mem.write_all(&mut file2, b" world").is_ok());
    assert!(mem.flush(&file2).is_ok());
    let read1 = mem.read_to_end(&mut file1).unwrap();
    assert_eq!(read1.len(), 6);
    assert_eq!(&read1[..], b" world");
    let read2 = mem.read_to_end(&mut file2).unwrap();
    assert_eq!(read2.len(), 0);
}

#[test]
fn succeed_in_writing_more_then_max_buffer_in_memory() {
    let mut mem = in_memory();
    assert!(mem.open_base_dir().is_ok());
    let options = OpenFileOptions::new("file").create().write().read();
    let buf_write = [1_u8; 16000];
    let mut file1 = mem.open_file(options.clone().truncate()).unwrap();
    assert!(mem.write_all(&mut file1, &buf_write).is_ok());
    assert!(mem.flush(&file1).is_ok());
    let mut file = mem.open_file(options).unwrap();
    let buf_read = mem.read_to_end(&mut file).unwrap();
    assert_eq!(buf_read.len(), buf_write.len());
    assert_eq!(&buf_read[..], &buf_write[..]);
}

#[test]
fn succeed_create_dir_if_not_exist_in_memory() {
    let mut mem = in_memory();
    assert!(mem.open_base_dir().is_ok());
    assert!(mem.create_dir_if_not_exist("new-dir").is_ok());
    assert!(mem.create_dir_if_not_exist("new-dir").is_ok());
    assert!(mem
        .open_file(OpenFileOptions::new("new-file").write().create())
        .is_ok());
    assert!(mem.create_dir_if_not_exist("new-file").is_err());
}

#[test]
fn fs_error_kinds() {
    let mut mem = in_memory();
    assert_eq!(
        mem.open_file(OpenFileOptions::new("f").truncate().read()).err(),
        Some(FsError::InvalidInput)
    );
    assert_eq!(
        mem.open_file(OpenFileOptions::new("f").write().create()).err(),
        Some(FsError::NotFound)
    );
    assert!(mem.open_base_dir().is_ok());
    assert!(mem.create_dir_if_not_exist("d").is_ok());
    assert_eq!(
        mem.open_file(OpenFileOptions::new("d").write()).err(),
        Some(FsError::AlreadyExists)
    );
    assert_eq!(
        mem.open_file(OpenFileOptions::new("g").read().create()).err(),
        Some(FsError::InvalidInput)
    );
    let mut f = mem.open_file(OpenFileOptions::new("g").write().create()).unwrap();
    assert_eq!(mem.read(&mut f, 4).err(), Some(FsError::PermissionDenied));
    assert_eq!(
        mem.open_file(OpenFileOptions::new("g").write().create_new()).err(),
        Some(FsError::AlreadyExists)
    );
}

#[test]
fn write_takes_at_most_the_buffer() {
    let mut mem = in_memory();
    assert!(mem.open_base_dir().is_ok());
    let mut f = mem
        .open_file(OpenFileOptions::new("w").write().create().read())
        .unwrap();
    let big = [7_u8; 5000];
    assert_eq!(mem.write(&mut f, &big).ok(), Some(4096));
    assert_eq!(mem.write(&mut f, &big[4096..]).ok(), Some(904));
    let mut r = mem.open_file(OpenFileOptions::new("w").read()).unwrap();
    assert_eq!(mem.read_to_end(&mut r).unwrap().len(), 4096);
}

#[test]
fn paths_join_and_parent() {
    assert_eq!(join(b"/", b"wal"), b"/wal".to_vec());
    assert_eq!(join(b"/db", b"wal"), b"/db/wal".to_vec());
    assert_eq!(join(b"/db", b"/abs"), b"/abs".to_vec());
    assert_eq!(parent(b"/db/wal"), Some(b"/db".to_vec()));
    assert_eq!(parent(b"/wal"), Some(b"/".to_vec()));
    assert_eq!(parent(b"/"), None);
    assert_eq!(parent(b"name"), Some(Vec::new()));
}
