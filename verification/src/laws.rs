//! The library-wide laws: properties that relate several operations, stated
//! and proved over the same specification functions the operation contracts
//! use.

use vstd::prelude::*;

use crate::codec::spec_encode_dir;
use crate::disk_info::virtual_disk::{
    block_of, clean_tail, free_upto, is_chain, last_block_bytes, lemma_chain_unique,
    lemma_no_chain_from_unused, lemma_used_free_partition, needs_eof, spec_clusters_needed,
    used_upto, FatStatus, VirtualDisk, BLOCK_COUNT, BLOCK_SIZE, EOF_BYTE,
};
use crate::disk_info::{chain_bytes, dir_contains_name, wrote_chain, DirV, FcbV, FileType};

verus! {

/// After a payload is written to a fresh chain, walking the chain from the
/// returned first block and reading it back yields exactly that payload,
/// whichever complete chain the walk finds: there is only one.
pub proof fn lemma_write_read_round_trip(
    pre: VirtualDisk,
    post: VirtualDisk,
    data: Seq<u8>,
    first: usize,
    c: Seq<usize>,
    walked: Seq<usize>,
)
    requires
        wrote_chain(pre, post, data, first, c),
        clean_tail(data),
        is_chain(post.fat@, walked),
        walked[0] == first,
    ensures
        walked == c,
        chain_bytes(post, walked) == data,
{
    lemma_chain_unique(post.fat@, walked, c);
}

/// When the payload length is no exact multiple of the block size, the final
/// block of the written chain holds the sentinel directly after the payload
/// tail, and only zero fill after the sentinel.
pub proof fn lemma_sentinel_layout(data: Seq<u8>, m: int)
    requires
        data.len() >= 1,
        needs_eof(data.len()),
        m == spec_clusters_needed(data.len()),
    ensures
        ({
            let b = last_block_bytes(data, m, true);
            let r = data.len() - (m - 1) * BLOCK_SIZE;
            &&& b.len() == BLOCK_SIZE
            &&& 1 <= r < BLOCK_SIZE
            &&& b[r] == EOF_BYTE
            &&& (forall|j: int| r < j < BLOCK_SIZE ==> b[j] == 0u8)
            &&& b.subrange(0, r) == data.skip((m - 1) * BLOCK_SIZE)
        }),
{
    let bs = BLOCK_SIZE as int;
    let len = data.len() as int;
    vstd::arithmetic::div_mod::lemma_fundamental_div_mod(len, bs);
    vstd::arithmetic::div_mod::lemma_mod_division_less_than_divisor(len, bs);
    let q = len / bs;
    let rem = len % bs;
    assert(rem != 0);
    assert(m == q + 1);
    assert(len - (m - 1) * bs == rem) by (nonlinear_arith)
        requires
            len == bs * q + rem,
            m == q + 1,
    ;
    assert((m - 1) * bs >= 0 && (m - 1) * bs <= len) by (nonlinear_arith)
        requires
            len == bs * (m - 1) + rem,
            rem >= 0,
            m >= 1,
            bs > 0,
    ;
    let tail = data.skip((m - 1) * bs);
    let b = last_block_bytes(data, m, true);
    assert(tail.len() == rem);
    assert(b[rem as int] == EOF_BYTE);
    assert(b.subrange(0, rem as int) =~= tail);
}

/// A chain built by the allocator is the one the walk reconstructs: a table
/// admits one chain per head block.
pub proof fn lemma_allocated_chain_is_walked(
    fat: Seq<FatStatus>,
    c: Seq<usize>,
    walked: Seq<usize>,
)
    requires
        is_chain(fat, c),
        is_chain(fat, walked),
        walked[0] == c[0],
    ensures
        walked == c,
{
    lemma_chain_unique(fat, walked, c);
}

/// Once a chain is freed, no walk from its first block can succeed: the
/// entry there is free, and a chain cannot start at a free block.
pub proof fn lemma_freed_chain_unwalkable(
    fat_pre: Seq<FatStatus>,
    fat_post: Seq<FatStatus>,
    c: Seq<usize>,
    first: usize,
)
    requires
        fat_pre.len() == fat_post.len(),
        is_chain(fat_pre, c),
        c[0] == first,
        forall|k: int| 0 <= k < c.len() ==> fat_post[#[trigger] c[k] as int] is UnUsed,
    ensures
        forall|c2: Seq<usize>| !(is_chain(fat_post, c2) && c2[0] == first),
{
    assert(fat_post[first as int] is UnUsed);
    lemma_no_chain_from_unused(fat_post, first);
}

/// After a directory gains an entry, the entry's name is present, so a
/// second creation under the same name is refused as a duplicate by the
/// creation contract, and the entry count has grown by exactly one.
pub proof fn lemma_make_directory_effects(d0: DirV, d1: DirV, name: Seq<char>, rb: usize)
    requires
        d1.files == d0.files.push(
            (FcbV { name, file_type: FileType::Directory, first_cluster: rb, length: 0 }),
        ),
    ensures
        dir_contains_name(d1, name),
        d1.files.len() == d0.files.len() + 1,
{
    assert(d1.files[d0.files.len() as int].name == name);
}

/// Reinserting a removed entry at the end leaves the entry list unchanged as
/// a collection: a refused delete loses nothing.
pub proof fn lemma_rollback_preserves_entries(files: Seq<FcbV>, i: int)
    requires
        0 <= i < files.len(),
    ensures
        files.remove(i).push(files[i]).to_multiset() == files.to_multiset(),
{
    broadcast use vstd::seq_lib::group_to_multiset_ensures;

    assert(files.remove(i).push(files[i]).to_multiset() =~= files.to_multiset().remove(
        files[i],
    ).insert(files[i]));
    assert(files.to_multiset().count(files[i]) > 0) by {
        assert(files.contains(files[i]));
    }
    assert(files.to_multiset().remove(files[i]).insert(files[i]) =~= files.to_multiset());
}

/// A copied file lives on its own blocks: the fresh chain was carved out of
/// free blocks only, so it cannot meet the source chain, and the source
/// chain and its bytes survive the copy untouched.
pub proof fn lemma_copy_independent(
    pre: VirtualDisk,
    post: VirtualDisk,
    data: Seq<u8>,
    c_src: Seq<usize>,
    first: usize,
    c_new: Seq<usize>,
)
    requires
        pre.fat@.len() == BLOCK_COUNT,
        pre.data@.len() == BLOCK_COUNT * BLOCK_SIZE,
        is_chain(pre.fat@, c_src),
        wrote_chain(pre, post, data, first, c_new),
    ensures
        forall|k: int, l: int|
            0 <= k < c_src.len() && 0 <= l < c_new.len() ==> #[trigger] c_src[k] != #[trigger] c_new[l],
        is_chain(post.fat@, c_src),
        chain_bytes(post, c_src) == chain_bytes(pre, c_src),
{
    assert forall|k: int, l: int|
        0 <= k < c_src.len() && 0 <= l < c_new.len() implies #[trigger] c_src[k]
        != #[trigger] c_new[l] by {
        if c_src[k] == c_new[l] {
            assert(pre.fat@[c_new[l] as int] is UnUsed);
            if k < c_src.len() - 1 {
                assert(pre.fat@[c_src[k] as int] == FatStatus::ClusterNo(c_src[k + 1]));
            } else {
                assert(pre.fat@[c_src[k] as int] is EOF);
            }
        }
    }
    assert forall|k: int| 0 <= k < c_src.len() implies post.fat@[#[trigger] c_src[k] as int]
        == pre.fat@[c_src[k] as int] by {
        if c_new.contains(c_src[k]) {
            let l = choose|l: int| 0 <= l < c_new.len() && #[trigger] c_new[l] == c_src[k];
        }
    }
    assert forall|k: int| 0 <= k < c_src.len() implies block_of(post.data@, #[trigger] c_src[k] as int)
        == block_of(pre.data@, c_src[k] as int) by {
        if c_new.contains(c_src[k]) {
            let l = choose|l: int| 0 <= l < c_new.len() && #[trigger] c_new[l] == c_src[k];
        }
    }
    lemma_concat_blocks_congruence(pre.data@, post.data@, c_src);
}

/// Block-for-block equal contents concatenate to equal bytes.
proof fn lemma_concat_blocks_congruence(d1: Seq<u8>, d2: Seq<u8>, c: Seq<usize>)
    requires
        forall|k: int|
            0 <= k < c.len() ==> block_of(d1, #[trigger] c[k] as int) == block_of(
                d2,
                c[k] as int,
            ),
    ensures
        crate::disk_info::virtual_disk::concat_blocks(d1, c)
            == crate::disk_info::virtual_disk::concat_blocks(d2, c),
    decreases c.len(),
{
    if c.len() > 0 {
        assert(forall|k: int|
            0 <= k < c.drop_last().len() ==> #[trigger] c.drop_last()[k] == c[k]);
        lemma_concat_blocks_congruence(d1, d2, c.drop_last());
        assert(block_of(d1, c.last() as int) == block_of(d2, c.last() as int));
    }
}

/// A flushed directory survives the store: walking the chain from the first
/// block the flush returned yields exactly the flushed value's encoding, so
/// decoding — itself the proved inverse of encoding — returns the directory
/// that was flushed, every entry included.
pub proof fn lemma_flush_preserves_directory(
    pre: VirtualDisk,
    post: VirtualDisk,
    dv: DirV,
    first: usize,
    c_old: Seq<usize>,
    c_new: Seq<usize>,
    walked: Seq<usize>,
)
    requires
        crate::disk_info::flushed_dir(pre, post, dv, first, c_old, c_new),
        clean_tail(spec_encode_dir(dv)),
        is_chain(post.fat@, walked),
        walked[0] == first,
    ensures
        walked == c_new,
        chain_bytes(post, walked) == spec_encode_dir(dv),
{
    lemma_chain_unique(post.fat@, walked, c_new);
}

/// A chain whose links and blocks a disk change leaves alone keeps its
/// shape and its bytes.
proof fn lemma_chain_frame(pre: VirtualDisk, post: VirtualDisk, c_live: Seq<usize>)
    requires
        post.fat@.len() == pre.fat@.len(),
        is_chain(pre.fat@, c_live),
        forall|k: int|
            0 <= k < c_live.len() ==> post.fat@[#[trigger] c_live[k] as int] == pre.fat@[c_live[k] as int],
        forall|k: int|
            0 <= k < c_live.len() ==> block_of(post.data@, #[trigger] c_live[k] as int)
                == block_of(pre.data@, c_live[k] as int),
    ensures
        is_chain(post.fat@, c_live),
        chain_bytes(post, c_live) == chain_bytes(pre, c_live),
{
    assert(forall|k: int|
        0 <= k < c_live.len() - 1 ==> post.fat@[#[trigger] c_live[k] as int]
            == FatStatus::ClusterNo(c_live[k + 1]));
    assert(post.fat@[c_live.last() as int] is EOF);
    lemma_concat_blocks_congruence(pre.data@, post.data@, c_live);
}

/// A flush cannot disturb any other live chain: the fresh chain is carved
/// out of blocks that were free or belonged to the flushed directory's own
/// old chain, so a chain disjoint from that old chain keeps its links and
/// its bytes. In particular a child directory's chain survives its parent's
/// flush, which is what lets navigation into a fresh child and back reload
/// the parent together with the child's entry.
pub proof fn lemma_flush_preserves_other_chains(
    pre: VirtualDisk,
    post: VirtualDisk,
    dv: DirV,
    first: usize,
    c_old: Seq<usize>,
    c_new: Seq<usize>,
    c_live: Seq<usize>,
)
    requires
        pre.fat@.len() == BLOCK_COUNT,
        pre.data@.len() == BLOCK_COUNT * BLOCK_SIZE,
        crate::disk_info::flushed_dir(pre, post, dv, first, c_old, c_new),
        is_chain(pre.fat@, c_live),
        forall|k: int, l: int|
            0 <= k < c_live.len() && 0 <= l < c_old.len() ==> #[trigger] c_live[k]
                != #[trigger] c_old[l],
    ensures
        is_chain(post.fat@, c_live),
        chain_bytes(post, c_live) == chain_bytes(pre, c_live),
{
    assert forall|k: int| 0 <= k < c_live.len() implies !c_old.contains(#[trigger] c_live[k])
        && !c_new.contains(c_live[k]) by {
        if c_old.contains(c_live[k]) {
            let m = choose|m: int| 0 <= m < c_old.len() && #[trigger] c_old[m] == c_live[k];
        }
        if c_new.contains(c_live[k]) {
            let l = choose|l: int| 0 <= l < c_new.len() && #[trigger] c_new[l] == c_live[k];
            assert(pre.fat@[c_live[k] as int] is UnUsed);
            if k < c_live.len() - 1 {
                assert(pre.fat@[c_live[k] as int] == FatStatus::ClusterNo(c_live[k + 1]));
            } else {
                assert(pre.fat@[c_live[k] as int] is EOF);
            }
        }
    }
    assert forall|k: int| 0 <= k < c_live.len() implies post.fat@[#[trigger] c_live[k] as int]
        == pre.fat@[c_live[k] as int] by {
        assert(!c_old.contains(c_live[k]));
        assert(!c_new.contains(c_live[k]));
        assert(0 <= (c_live[k] as int) && (c_live[k] as int) < pre.fat@.len());
    }
    assert forall|k: int| 0 <= k < c_live.len() implies block_of(
        post.data@,
        #[trigger] c_live[k] as int,
    ) == block_of(pre.data@, c_live[k] as int) by {
        assert(!c_new.contains(c_live[k]));
        assert(0 <= (c_live[k] as int) && (c_live[k] as int) < BLOCK_COUNT);
    }
    lemma_chain_frame(pre, post, c_live);
}

/// Blocks in use and blocks free partition the allocation table: the two
/// usage counts always sum to the table's size.
pub proof fn lemma_usage_partition(fat: Seq<FatStatus>)
    ensures
        used_upto(fat, fat.len() as int) + free_upto(fat, fat.len() as int) == fat.len(),
{
    lemma_used_free_partition(fat, fat.len() as int);
}

} // verus!
