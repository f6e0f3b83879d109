use fatdisk::disk_info::virtual_disk::{FatStatus, BLOCK_COUNT, BLOCK_SIZE, EOF_BYTE};
use fatdisk::disk_info::{DiskError, DiskInfo};

fn fresh() -> DiskInfo {
    DiskInfo::new(None)
}

#[test]
fn cluster_count_exact_multiple() {
    assert_eq!(DiskInfo::calc_clusters_needed_with_eof(BLOCK_SIZE), (false, 1));
    assert_eq!(DiskInfo::calc_clusters_needed_with_eof(2 * BLOCK_SIZE), (false, 2));
}

#[test]
fn cluster_count_with_sentinel() {
    assert_eq!(DiskInfo::calc_clusters_needed_with_eof(1), (true, 1));
    assert_eq!(DiskInfo::calc_clusters_needed_with_eof(BLOCK_SIZE + 1), (true, 2));
    assert_eq!(DiskInfo::calc_clusters_needed_with_eof(BLOCK_SIZE - 1), (true, 1));
}

#[test]
fn round_trip_with_sentinel() {
    let mut disk = fresh();
    let data: Vec<u8> = (0..5000u32).map(|i| (i % 251) as u8).collect();
    let first = disk.write_data_to_disk(&data).unwrap();
    let back = disk.get_data_by_first_cluster(first).unwrap();
    assert_eq!(back, data);
}

#[test]
fn round_trip_exact_multiple() {
    let mut disk = fresh();
    let data: Vec<u8> = vec![7u8; 2 * BLOCK_SIZE];
    let first = disk.write_data_to_disk(&data).unwrap();
    let back = disk.get_data_by_first_cluster(first).unwrap();
    assert_eq!(back, data);
}

#[test]
fn round_trip_sentinel_data_containing_sentinel_byte() {
    let mut disk = fresh();
    // Payload bytes equal to the sentinel value are fine when a sentinel is
    // written: the scan stops at the marker, not inside the payload.
    let data: Vec<u8> = vec![EOF_BYTE; 100];
    let first = disk.write_data_to_disk(&data).unwrap();
    let back = disk.get_data_by_first_cluster(first).unwrap();
    assert_eq!(back, data);
}

#[test]
fn sentinel_sits_after_payload_in_final_block() {
    let mut disk = fresh();
    let data: Vec<u8> = (1..=10u8).collect();
    let first = disk.write_data_to_disk(&data).unwrap();
    let block = disk.virtual_disk.read_data_by_cluster(first);
    assert_eq!(&block[..10], &data[..]);
    assert_eq!(block[10], EOF_BYTE);
    assert!(block[11..].iter().all(|&b| b == 0));
}

#[test]
fn allocate_links_blocks_in_order() {
    let mut disk = fresh();
    let clusters = disk.allocate_free_space_on_fat(3).unwrap();
    assert_eq!(clusters.len(), 3);
    for i in 0..3 {
        for j in 0..3 {
            if i != j {
                assert_ne!(clusters[i], clusters[j]);
            }
        }
    }
    for i in 0..2 {
        match disk.virtual_disk.fat[clusters[i]] {
            FatStatus::ClusterNo(n) => assert_eq!(n, clusters[i + 1]),
            _ => panic!("inner block of the chain is not linked"),
        }
    }
    assert!(matches!(disk.virtual_disk.fat[clusters[2]], FatStatus::EOF));
    let walked = disk.get_file_clusters(clusters[0]).unwrap();
    assert_eq!(walked, clusters);
}

#[test]
fn free_chain_then_walk_fails_corrupt() {
    let mut disk = fresh();
    let data: Vec<u8> = vec![9u8; 3 * BLOCK_SIZE + 5];
    let first = disk.write_data_to_disk(&data).unwrap();
    let freed = disk.delete_space_on_fat(first).unwrap();
    assert_eq!(freed.len(), 4);
    assert_eq!(disk.get_file_clusters(first), Err(DiskError::CorruptChain));
}

#[test]
fn allocation_exhaustion_reports_no_space() {
    // Block 0 holds the root and the final table slot is reserved, so
    // BLOCK_COUNT - 2 blocks remain.
    let mut disk = fresh();
    let all = disk.allocate_free_space_on_fat(BLOCK_COUNT - 2).unwrap();
    assert_eq!(all.len(), BLOCK_COUNT - 2);
    assert_eq!(disk.allocate_free_space_on_fat(1), Err(DiskError::NoSpace));
}

#[test]
fn failed_allocation_keeps_partial_claims() {
    let mut disk = fresh();
    assert_eq!(disk.allocate_free_space_on_fat(BLOCK_COUNT), Err(DiskError::NoSpace));
    // The blocks claimed before exhaustion are not rolled back: nothing is
    // free afterwards.
    let (_, used, free) = disk.get_disk_info();
    assert_eq!(free, 1);
    assert_eq!(used, BLOCK_COUNT - 1);
    assert_eq!(disk.find_next_empty_fat(), None);
}

#[test]
fn write_without_space_reports_no_space() {
    let mut disk = fresh();
    let _ = disk.allocate_free_space_on_fat(BLOCK_COUNT - 2).unwrap();
    let data: Vec<u8> = vec![1u8; 10];
    assert_eq!(disk.write_data_to_disk(&data), Err(DiskError::NoSpace));
}

#[test]
fn usage_counts_partition_the_table() {
    let mut disk = fresh();
    let (capacity, used, free) = disk.get_disk_info();
    assert_eq!(capacity, BLOCK_SIZE * BLOCK_COUNT);
    assert_eq!(used + free, BLOCK_COUNT);
    assert_eq!(used, 1);
    let data: Vec<u8> = vec![3u8; BLOCK_SIZE + 1];
    let first = disk.write_data_to_disk(&data).unwrap();
    let (_, used2, free2) = disk.get_disk_info();
    assert_eq!(used2 + free2, BLOCK_COUNT);
    assert_eq!(used2, 3);
    disk.delete_space_on_fat(first).unwrap();
    let (_, used3, free3) = disk.get_disk_info();
    assert_eq!(used3 + free3, BLOCK_COUNT);
    assert_eq!(used3, 1);
}

#[test]
fn find_next_empty_fat_skips_used_blocks() {
    let disk = fresh();
    // Block 0 is pinned as the root's end-of-chain, so the first free block
    // is block 1.
    assert_eq!(disk.find_next_empty_fat(), Some(1));
}
