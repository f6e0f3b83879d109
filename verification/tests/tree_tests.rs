use fatdisk::definitions::FileNode;
use fatdisk::disk_info::FileType;

fn file(name: &str) -> FileNode {
    FileNode::File { name: String::from(name) }
}

fn dir(name: &str, files: Vec<FileNode>) -> FileNode {
    FileNode::Directory { name: String::from(name), files }
}

#[test]
fn listing_a_single_file() {
    let node = file("a.txt");
    let entries = node.list_all_files(String::new());
    assert_eq!(entries.len(), 1);
    assert_eq!(entries[0].0, "a.txt");
    assert!(matches!(entries[0].1, FileType::File));
}

#[test]
fn listing_walks_depth_first_with_paths() {
    let root = dir(
        "",
        vec![
            file("Cargo.lock"),
            file("Cargo.toml"),
            dir("target", vec![]),
            dir("src", vec![file("main.rs")]),
        ],
    );
    let entries = root.list_all_files(String::new());
    let paths: Vec<&str> = entries.iter().map(|e| e.0.as_str()).collect();
    assert_eq!(
        paths,
        vec!["", "/Cargo.lock", "/Cargo.toml", "/target", "/src", "/src/main.rs"]
    );
    assert!(matches!(entries[0].1, FileType::Directory));
    assert!(matches!(entries[1].1, FileType::File));
    assert!(matches!(entries[4].1, FileType::Directory));
    assert!(matches!(entries[5].1, FileType::File));
}

#[test]
fn listing_nested_directories() {
    let root = dir("top", vec![dir("mid", vec![file("leaf")])]);
    let entries = root.list_all_files(String::from("/base/"));
    let paths: Vec<&str> = entries.iter().map(|e| e.0.as_str()).collect();
    // A non-empty prefix extends with the directory name and a slash.
    assert_eq!(paths, vec!["/base/top", "/base/top/mid", "/base/top/mid/leaf"]);
}
