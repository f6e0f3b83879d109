use fatdisk::disk_info::virtual_disk::{FatStatus, BLOCK_COUNT};
use fatdisk::disk_info::{Directory, DiskError, DiskInfo, Fcb, FileType};

fn fresh() -> DiskInfo {
    DiskInfo::new(None)
}

fn names(dir: &Directory) -> Vec<String> {
    dir.files.iter().map(|f| f.name.clone()).collect()
}

#[test]
fn new_disk_has_root_layout() {
    let disk = fresh();
    assert_eq!(disk.cur_directory.name, "root");
    assert_eq!(names(&disk.cur_directory), vec![".", ".."]);
    assert!(matches!(disk.virtual_disk.fat[0], FatStatus::EOF));
    assert!(matches!(disk.virtual_disk.fat[1], FatStatus::UnUsed));
}

#[test]
fn new_disk_with_given_root() {
    let root = DiskInfo::new(None).cur_directory;
    let mut renamed = root;
    renamed.name = String::from("myroot");
    let disk = DiskInfo::new(Some(renamed));
    assert_eq!(disk.cur_directory.name, "myroot");
    assert_eq!(names(&disk.cur_directory), vec![".", ".."]);
}

#[test]
fn make_directory_twice_fails_duplicate() {
    let mut disk = fresh();
    let before = disk.cur_directory.files.len();
    disk.new_directory_to_disk("x").unwrap();
    assert_eq!(disk.cur_directory.files.len(), before + 1);
    assert_eq!(disk.new_directory_to_disk("x"), Err(DiskError::DuplicateName));
    assert_eq!(disk.cur_directory.files.len(), before + 1);
}

#[test]
fn make_directory_reserved_block_is_the_one_used() {
    let mut disk = fresh();
    disk.new_directory_to_disk("x").unwrap();
    let fcb = disk.cur_directory.files.last().unwrap().clone();
    assert_eq!(fcb.name, "x");
    let child = disk.get_directory_by_fcb(&fcb).unwrap();
    // The "." entry records the block reserved before the write, and the
    // first-fit allocator indeed used exactly that block.
    assert_eq!(child.files[0].first_cluster, fcb.first_cluster);
    assert_eq!(names(&child), vec![".", ".."]);
}

#[test]
fn change_directory_into_child_and_back() {
    let mut disk = fresh();
    disk.new_directory_to_disk("x").unwrap();
    let parent_names = names(&disk.cur_directory);
    let parent_name = disk.cur_directory.name.clone();
    disk.change_current_directory("x").unwrap();
    assert_eq!(disk.cur_directory.name, "x");
    assert_eq!(names(&disk.cur_directory), vec![".", ".."]);
    disk.change_current_directory("..").unwrap();
    // The reloaded parent is the pre-change parent state: same name, same
    // entries, the new child entry included.
    assert_eq!(disk.cur_directory.name, parent_name);
    assert_eq!(names(&disk.cur_directory), parent_names);
    assert_eq!(parent_names, vec![".", "..", "x"]);
}

#[test]
fn change_directory_missing_name() {
    let mut disk = fresh();
    assert_eq!(disk.change_current_directory("nope"), Err(DiskError::NotFound));
    assert_eq!(disk.cur_directory.name, "root");
}

#[test]
fn change_directory_onto_file_is_wrong_type() {
    let mut disk = fresh();
    disk.create_file_with_data("f", b"abc").unwrap();
    assert_eq!(disk.change_current_directory("f"), Err(DiskError::WrongType));
}

#[test]
fn create_and_read_file() {
    let mut disk = fresh();
    let data = b"hello block world".to_vec();
    disk.create_file_with_data("f", &data).unwrap();
    assert_eq!(disk.read_file_by_name("f").unwrap(), data);
    assert_eq!(disk.read_file_by_name("nope"), Err(DiskError::NotFound));
}

#[test]
fn read_directory_as_file_is_wrong_type() {
    let mut disk = fresh();
    disk.new_directory_to_disk("d").unwrap();
    assert_eq!(disk.read_file_by_name("d"), Err(DiskError::WrongType));
}

#[test]
fn delete_empty_directory_frees_its_chain() {
    let mut disk = fresh();
    disk.new_directory_to_disk("d").unwrap();
    let first = disk.cur_directory.files.last().unwrap().first_cluster;
    let (_, used_before, _) = disk.get_disk_info();
    disk.delete_file_by_name("d").unwrap();
    assert_eq!(names(&disk.cur_directory), vec![".", ".."]);
    assert_eq!(disk.get_file_clusters(first), Err(DiskError::CorruptChain));
    let (_, used_after, free_after) = disk.get_disk_info();
    assert!(used_after < used_before);
    assert_eq!(used_after + free_after, BLOCK_COUNT);
}

#[test]
fn delete_nonempty_directory_is_refused() {
    let mut disk = fresh();
    disk.new_directory_to_disk("d").unwrap();
    disk.change_current_directory("d").unwrap();
    disk.new_directory_to_disk("e").unwrap();
    disk.change_current_directory("..").unwrap();
    let mut before = names(&disk.cur_directory);
    assert_eq!(disk.delete_file_by_name("d"), Err(DiskError::DirectoryNotEmpty));
    // The refused delete reinserts the entry at the end; the entry set is
    // unchanged.
    let mut after = names(&disk.cur_directory);
    before.sort();
    after.sort();
    assert_eq!(after, before);
    // The inner directory can be deleted, then the outer one.
    disk.change_current_directory("d").unwrap();
    disk.delete_file_by_name("e").unwrap();
    disk.change_current_directory("..").unwrap();
    disk.delete_file_by_name("d").unwrap();
    assert_eq!(names(&disk.cur_directory), vec![".", ".."]);
}

#[test]
fn delete_missing_name() {
    let mut disk = fresh();
    assert_eq!(disk.delete_file_by_name("nope"), Err(DiskError::NotFound));
}

#[test]
fn delete_file_frees_blocks() {
    let mut disk = fresh();
    disk.create_file_with_data("f", &vec![5u8; 9000]).unwrap();
    let first = disk.cur_directory.files.last().unwrap().first_cluster;
    disk.delete_file_by_name("f").unwrap();
    assert_eq!(disk.get_file_clusters(first), Err(DiskError::CorruptChain));
    assert_eq!(disk.read_file_by_name("f"), Err(DiskError::NotFound));
}

#[test]
fn rename_file() {
    let mut disk = fresh();
    disk.create_file_with_data("old", b"x").unwrap();
    disk.rename_file_by_name("old", "new").unwrap();
    assert_eq!(disk.read_file_by_name("old"), Err(DiskError::NotFound));
    assert_eq!(disk.read_file_by_name("new").unwrap(), b"x".to_vec());
    assert_eq!(disk.rename_file_by_name("old", "newer"), Err(DiskError::NotFound));
}

#[test]
fn copy_file_duplicates_bytes_independently() {
    let mut disk = fresh();
    let data: Vec<u8> = (0..1000u32).map(|i| (i % 256) as u8).collect();
    disk.create_file_with_data("a", &data).unwrap();
    disk.copy_file_by_name("a", "b").unwrap();
    assert_eq!(disk.read_file_by_name("a").unwrap(), data);
    assert_eq!(disk.read_file_by_name("b").unwrap(), data);
    let fcb_a = disk.cur_directory.get_fcb_by_name("a").unwrap().1.clone();
    let fcb_b = disk.cur_directory.get_fcb_by_name("b").unwrap().1.clone();
    assert_ne!(fcb_a.first_cluster, fcb_b.first_cluster);
    // Freeing one file's chain leaves the other intact.
    disk.delete_file_by_name("a").unwrap();
    assert_eq!(disk.read_file_by_name("b").unwrap(), data);
}

#[test]
fn copy_missing_file() {
    let mut disk = fresh();
    assert_eq!(disk.copy_file_by_name("nope", "b"), Err(DiskError::NotFound));
}

#[test]
fn move_file_into_subdirectory() {
    let mut disk = fresh();
    let data = b"payload".to_vec();
    disk.create_file_with_data("f", &data).unwrap();
    disk.new_directory_to_disk("sub").unwrap();
    let (_, used_before, _) = disk.get_disk_info();
    disk.movie_file_by_name("f", "sub").unwrap();
    // The destination's previous chain is freed when it is rewritten, and
    // both rewritten directories still fit one block each: no block leaks.
    let (_, used_after, _) = disk.get_disk_info();
    assert_eq!(used_after, used_before);
    assert_eq!(disk.read_file_by_name("f"), Err(DiskError::NotFound));
    disk.change_current_directory("sub").unwrap();
    assert_eq!(disk.read_file_by_name("f").unwrap(), data);
}

#[test]
fn move_missing_file() {
    let mut disk = fresh();
    disk.new_directory_to_disk("sub").unwrap();
    assert_eq!(disk.movie_file_by_name("nope", "sub"), Err(DiskError::NotFound));
}

#[test]
fn move_fcb_between_in_memory_directories() {
    let mut disk = fresh();
    disk.create_file_with_data("f", b"z").unwrap();
    let mut other = Directory {
        name: String::from("other"),
        files: Vec::new(),
    };
    disk.move_fcb_between_dirs_by_name("f", &mut other).unwrap();
    assert_eq!(disk.read_file_by_name("f"), Err(DiskError::NotFound));
    assert_eq!(other.files.len(), 1);
    assert_eq!(other.files[0].name, "f");
    assert_eq!(
        disk.move_fcb_between_dirs_by_name("f", &mut other),
        Err(DiskError::NotFound)
    );
}

#[test]
fn unicode_names_survive_the_store() {
    let mut disk = fresh();
    let data = b"bytes".to_vec();
    disk.create_file_with_data("h\u{e9}llo \u{2192}", &data).unwrap();
    disk.new_directory_to_disk("\u{00fc}ber").unwrap();
    disk.change_current_directory("\u{00fc}ber").unwrap();
    assert_eq!(disk.cur_directory.name, "\u{00fc}ber");
    disk.change_current_directory("..").unwrap();
    assert_eq!(disk.read_file_by_name("h\u{e9}llo \u{2192}").unwrap(), data);
}

#[test]
fn garbage_bytes_fail_to_decode() {
    let mut disk = fresh();
    let garbage: Vec<u8> = vec![200u8; 40];
    let first = disk.write_data_to_disk(&garbage).unwrap();
    let fake = Fcb {
        name: String::from("fake"),
        file_type: FileType::Directory,
        first_cluster: first,
        length: 0,
    };
    assert!(matches!(disk.get_directory_by_fcb(&fake), Err(DiskError::DecodeError)));
}

#[test]
fn directory_mutations_persist_only_on_navigation() {
    let mut disk = fresh();
    disk.new_directory_to_disk("x").unwrap();
    disk.change_current_directory("x").unwrap();
    disk.new_directory_to_disk("y").unwrap();
    // In memory the directory already holds "y"...
    assert_eq!(disk.cur_directory.files.len(), 3);
    // ...but its stored copy does not: mutations persist only when
    // navigation flushes the directory.
    let self_fcb = disk.cur_directory.files[0].clone();
    let stored = disk.get_directory_by_fcb(&self_fcb).unwrap();
    assert_eq!(stored.files.len(), 2);
    disk.change_current_directory("y").unwrap();
    disk.change_current_directory("..").unwrap();
    let self_fcb = disk.cur_directory.files[0].clone();
    let stored = disk.get_directory_by_fcb(&self_fcb).unwrap();
    assert_eq!(stored.files.len(), 3);
}

#[test]
fn usage_partition_holds_across_a_sequence() {
    let mut disk = fresh();
    let check = |d: &DiskInfo| {
        let (_, used, free) = d.get_disk_info();
        assert_eq!(used + free, BLOCK_COUNT);
    };
    check(&disk);
    disk.create_file_with_data("f", &vec![1u8; 5000]).unwrap();
    check(&disk);
    disk.new_directory_to_disk("d").unwrap();
    check(&disk);
    disk.change_current_directory("d").unwrap();
    check(&disk);
    disk.change_current_directory("..").unwrap();
    check(&disk);
    disk.copy_file_by_name("f", "g").unwrap();
    check(&disk);
    disk.delete_file_by_name("f").unwrap();
    check(&disk);
}
