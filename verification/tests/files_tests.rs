use mizeria::files::EntryKind;
use mizeria::files::Files;
use mizeria::files::FilesError;
use mizeria::helpers::map_origin_to_snapshot_path;
use mizeria::result::IntegrityCheckError;

#[test]
fn files_join_windows_verbatim_path() {
    let windows_path = "\\\\?\\C:\\dir_1\\dir_2\\file.txt";
    let rel_path = Files::join_components_to_relative_path(windows_path);
    assert_eq!(rel_path.as_str(), "C\\dir_1\\dir_2\\file.txt");
}

#[test]
fn files_join_windows_disk_path() {
    let windows_path = "C:\\dir_1\\file.txt";
    let rel_path = Files::join_components_to_relative_path(windows_path);
    assert_eq!(rel_path.as_str(), "C\\dir_1\\file.txt");
}

#[test]
fn files_join_windows_disk_only_path() {
    let windows_path = "C:\\";
    let rel_path = Files::join_components_to_relative_path(windows_path);
    assert_eq!(rel_path.as_str(), "C");

    let windows_verbatim_path = "\\\\?\\C:\\";
    let rel_path = Files::join_components_to_relative_path(windows_verbatim_path);
    assert_eq!(rel_path.as_str(), "C");
}

#[test]
fn files_join_unix_path() {
    let unix_path = "/dir_1/dir_2/file.txt";
    let rel_path = Files::join_components_to_relative_path(unix_path);
    assert_eq!(rel_path.as_str(), "dir_1/dir_2/file.txt");
}

#[test]
fn files_join_unix_root_path_only() {
    let unix_path = "/";
    let rel_path = Files::join_components_to_relative_path(unix_path);
    assert_eq!(rel_path.as_str(), "");
}

#[test]
fn snapshot_join_windows_verbatim_path() {
    let windows_path = "\\\\?\\C:\\dir_1\\dir_2\\file.txt";
    let rel_path = Files::join_components_to_relative_path(windows_path);
    assert_eq!(rel_path.as_str(), "C\\dir_1\\dir_2\\file.txt");
}

#[test]
fn snapshot_join_windows_disk_path() {
    let windows_path = "C:\\dir_1\\file.txt";
    let rel_path = Files::join_components_to_relative_path(windows_path);
    assert_eq!(rel_path.as_str(), "C\\dir_1\\file.txt");
}

#[test]
fn snapshot_join_windows_disk_only_path() {
    let windows_path = "C:\\";
    let rel_path = Files::join_components_to_relative_path(windows_path);
    assert_eq!(rel_path.as_str(), "C");

    let windows_verbatim_path = "\\\\?\\C:\\";
    let rel_path = Files::join_components_to_relative_path(windows_verbatim_path);
    assert_eq!(rel_path.as_str(), "C");
}

#[test]
fn snapshot_join_unix_path() {
    let unix_path = "/dir_1/dir_2/file.txt";
    let rel_path = Files::join_components_to_relative_path(unix_path);
    assert_eq!(rel_path.as_str(), "dir_1/dir_2/file.txt");
}

#[test]
fn snapshot_join_unix_root_path_only() {
    let unix_path = "/";
    let rel_path = Files::join_components_to_relative_path(unix_path);
    assert_eq!(rel_path.as_str(), "");
}

#[test]
fn join_unc_and_device_paths() {
    let unc = "\\\\server\\share\\dir\\file.txt";
    assert_eq!(
        Files::join_components_to_relative_path(unc).as_str(),
        "server\\share\\dir\\file.txt"
    );

    let device = "\\\\.\\COM1";
    assert_eq!(Files::join_components_to_relative_path(device).as_str(), "COM1");
}

#[test]
fn dot_segments_are_dropped() {
    let path = "/dir_1/./dir_2/../file.txt";
    assert_eq!(
        Files::join_components_to_relative_path(path).as_str(),
        "dir_1/dir_2/file.txt"
    );
}

#[test]
fn snapshot_path_mirrors_source_path_under_store_root() {
    let dest = Files::to_snapshot_path_unchecked("/backup/2021-07-15_18.34/files", "/home/u/f.txt");
    assert_eq!(dest.as_str(), "/backup/2021-07-15_18.34/files/home/u/f.txt");
}

#[test]
fn copy_entry_accounts_size_and_refuses_unknown_kinds() {
    let mut files = Files::new(String::from("/backup/snap/files"));
    assert_eq!(files.size(), 0);

    let dest = files
        .copy_entry(EntryKind::Directory, "/home/u", 0, true)
        .unwrap();
    assert_eq!(dest.as_str(), "/backup/snap/files/home/u");

    let dest = files
        .copy_entry(EntryKind::File, "/home/u/f.txt", 11, true)
        .unwrap();
    assert_eq!(dest.as_str(), "/backup/snap/files/home/u/f.txt");
    assert_eq!(files.size(), 11);

    let r = files.copy_entry(EntryKind::Other, "/dev/sda", 4, true);
    assert!(matches!(r, Err(FilesError::UnknownEntryType)));
    assert_eq!(files.size(), 11);

    let r = files.copy_entry(EntryKind::Symlink, "/home/u/link", 2, false);
    assert!(matches!(r, Err(FilesError::SymlinksUnsupported)));

    let r = files.copy_entry(EntryKind::Symlink, "/home/u/link", 2, true);
    assert!(r.is_ok());
    assert_eq!(files.size(), 13);
}

#[test]
fn files_open_sums_entry_sizes() {
    let sizes = vec![3u64, 4u64, 5u64];
    let files = Files::open(String::from("/backup/snap/files"), true, &sizes).unwrap();
    assert_eq!(files.size(), 12);

    let r = Files::open(String::from("/backup/snap/files"), false, &sizes);
    assert!(r.is_err());
}

#[test]
fn files_check_integrity_reports_present_but_not_indexed() {
    let root = "/backup/snap/files";
    let indexed = vec![String::from("/home/u")];
    let walked = vec![
        String::from("/backup/snap/files/home"),
        String::from("/backup/snap/files/home/u"),
        String::from("/backup/snap/files/home/u/stray.txt"),
    ];
    let r = Files::check_integrity(root, &indexed, &walked, true);
    match r {
        Err(IntegrityCheckError::EntryExistsButNotIndexed(p)) => {
            assert_eq!(p.as_str(), "/backup/snap/files/home/u/stray.txt");
        }
        _ => panic!("expected a present-but-not-indexed finding"),
    }
}

#[test]
fn files_check_integrity_reports_indexed_but_not_present() {
    let root = "/backup/snap/files";
    let indexed = vec![String::from("/home/u"), String::from("/home/u/f.txt")];
    let walked = vec![String::from("/backup/snap/files/home/u")];
    let r = Files::check_integrity(root, &indexed, &walked, true);
    match r {
        Err(IntegrityCheckError::EntryIndexedButNotExists(p)) => {
            assert_eq!(p.as_str(), "/home/u/f.txt");
        }
        _ => panic!("expected an indexed-but-not-present finding"),
    }
}

#[test]
fn files_check_integrity_accepts_matching_store() {
    let root = "/backup/snap/files";
    let indexed = vec![String::from("/home/u"), String::from("/home/u/f.txt")];
    let walked = vec![
        String::from("/backup/snap/files/home"),
        String::from("/backup/snap/files/home/u"),
        String::from("/backup/snap/files/home/u/f.txt"),
    ];
    assert!(matches!(Files::check_integrity(root, &indexed, &walked, true), Ok(())));

    let r = Files::check_integrity(root, &indexed, &walked, false);
    assert!(matches!(r, Err(IntegrityCheckError::FilesFolderDoesntExist)));
}

#[test]
fn test_snapshot_path_when_origin_is_absolute() {
    let origin = "/my_data/my_folder";
    let snapshot = "my_backup/files";

    let result = map_origin_to_snapshot_path(origin, snapshot);

    assert_ne!(result.as_str(), origin);
    assert_eq!(result.as_str(), "my_backup/files/files/my_data/my_folder");
}
