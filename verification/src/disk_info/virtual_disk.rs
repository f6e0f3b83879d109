//! The virtual block device: a fixed array of fixed-size blocks together with
//! the block allocation table (FAT) that records, for every block, whether it
//! is free, linked to a following block of the same chain, or the end of its
//! chain.

use vstd::prelude::*;

verus! {

/// Number of blocks on the virtual disk.
pub const BLOCK_COUNT: usize = 1000;

/// Size of one block in bytes.
pub const BLOCK_SIZE: usize = 4096;

/// End-of-data sentinel byte, written after the payload in the final block of
/// a chain whose length is not an exact multiple of `BLOCK_SIZE`.
pub const EOF_BYTE: u8 = 255;

/// One allocation-table entry: the state of a single block.
#[derive(Clone, Copy, PartialEq, Eq, Structural, Debug)]
pub enum FatStatus {
    /// The block is free.
    UnUsed,
    /// The block is used and the chain continues at the given block.
    ClusterNo(usize),
    /// The block is used and terminates its chain.
    EOF,
}

/// The bytes of block `c` within the data region `data`.
pub open spec fn block_of(data: Seq<u8>, c: int) -> Seq<u8> {
    data.subrange(c * BLOCK_SIZE, (c + 1) * BLOCK_SIZE)
}

/// The concatenation of the blocks listed in `clusters`, in order.
pub open spec fn concat_blocks(data: Seq<u8>, clusters: Seq<usize>) -> Seq<u8>
    decreases clusters.len(),
{
    if clusters.len() == 0 {
        Seq::<u8>::empty()
    } else {
        concat_blocks(data, clusters.drop_last()) + block_of(data, clusters.last() as int)
    }
}

/// Where the backward sentinel scan, already past the final `i - 1` bytes,
/// cuts `all`: the length of the prefix that remains. Scanning starts at
/// `i == 1` (the last byte) and inspects at most the final `BLOCK_SIZE - 1`
/// bytes.
pub open spec fn eof_scan(all: Seq<u8>, i: int) -> int
    decreases BLOCK_SIZE - i,
{
    if i < 1 || i >= BLOCK_SIZE {
        all.len() as int
    } else if all[all.len() - i] == EOF_BYTE {
        all.len() - i
    } else {
        eof_scan(all, i + 1)
    }
}

/// The result of reading a chain back: the concatenated blocks truncated at
/// the sentinel nearest the end, if one occurs in the final block.
pub open spec fn strip_eof(all: Seq<u8>) -> Seq<u8> {
    all.take(eof_scan(all, 1))
}

/// Whether writing `len` payload bytes requires an end-of-data sentinel.
pub open spec fn needs_eof(len: nat) -> bool {
    len % (BLOCK_SIZE as nat) != 0
}

/// How many blocks a payload of `len` bytes occupies, the sentinel included.
pub open spec fn spec_clusters_needed(len: nat) -> nat {
    if len % (BLOCK_SIZE as nat) == 0 {
        len / (BLOCK_SIZE as nat)
    } else {
        len / (BLOCK_SIZE as nat) + 1
    }
}

/// The bytes of the final block after a chain write: the remaining payload,
/// then the sentinel if requested, then zero fill up to `BLOCK_SIZE`.
pub open spec fn last_block_bytes(data: Seq<u8>, m: int, insert_eof: bool) -> Seq<u8> {
    let tail = data.skip((m - 1) * BLOCK_SIZE);
    let marked = if insert_eof {
        tail + seq![EOF_BYTE]
    } else {
        tail
    };
    marked + Seq::<u8>::new((BLOCK_SIZE - marked.len()) as nat, |j: int| 0u8)
}

/// In the no-sentinel case the backward scan must find nothing: the final
/// `BLOCK_SIZE - 1` payload bytes may not contain the sentinel value.
pub open spec fn clean_tail(data: Seq<u8>) -> bool {
    needs_eof(data.len()) || (forall|j: int|
        data.len() - BLOCK_SIZE < j < data.len() ==> data[j] != EOF_BYTE)
}

/// `p` follows `ClusterNo` links of `fat` from its head: every element points
/// at the next one.
pub open spec fn link_path(fat: Seq<FatStatus>, p: Seq<usize>) -> bool {
    &&& p.len() > 0
    &&& (forall|i: int| 0 <= i < p.len() ==> (p[i] as int) < fat.len())
    &&& (forall|i: int|
        0 <= i < p.len() - 1 ==> fat[p[i] as int] == FatStatus::ClusterNo(p[i + 1]))
}

/// `c` is a complete chain of `fat`: a link path that terminates in an
/// end-of-chain entry.
pub open spec fn is_chain(fat: Seq<FatStatus>, c: Seq<usize>) -> bool {
    link_path(fat, c) && fat[c.last() as int] is EOF
}

/// Every `ClusterNo` link stays inside the table.
pub open spec fn fat_closed(fat: Seq<FatStatus>) -> bool {
    forall|i: int|
        0 <= i < fat.len() ==> (#[trigger] fat[i] matches FatStatus::ClusterNo(n) ==> (n as int)
            < fat.len())
}

/// How many of the first `n` table entries are free.
pub open spec fn free_upto(fat: Seq<FatStatus>, n: int) -> nat
    decreases n,
{
    if n <= 0 {
        0
    } else {
        free_upto(fat, n - 1) + if fat[n - 1] is UnUsed {
            1nat
        } else {
            0nat
        }
    }
}

/// How many blocks the allocator can still hand out: free entries, the
/// reserved final table slot excluded.
pub open spec fn free_count(fat: Seq<FatStatus>) -> nat {
    free_upto(fat, fat.len() - 1)
}

/// How many of the first `n` table entries are in use.
pub open spec fn used_upto(fat: Seq<FatStatus>, n: int) -> nat
    decreases n,
{
    if n <= 0 {
        0
    } else {
        used_upto(fat, n - 1) + if fat[n - 1] is UnUsed {
            0nat
        } else {
            1nat
        }
    }
}

/// The table after the blocks of `c` are reclaimed: those entries free, the
/// rest as they were.
pub open spec fn fat_freed(fat: Seq<FatStatus>, c: Seq<usize>) -> Seq<FatStatus> {
    Seq::new(
        fat.len(),
        |j: int|
            if c.contains(j as usize) {
                FatStatus::UnUsed
            } else {
                fat[j]
            },
    )
}

/// `i` is the lowest-numbered free block the allocator may claim.
pub open spec fn is_first_free(fat: Seq<FatStatus>, i: int) -> bool {
    &&& 0 <= i < fat.len() - 1
    &&& fat[i] is UnUsed
    &&& (forall|j: int| 0 <= j < i ==> !(fat[j] is UnUsed))
}

/// The fixed-size block array: a data region of `BLOCK_COUNT * BLOCK_SIZE`
/// bytes and one allocation-table entry per block.
pub struct VirtualDisk {
    pub fat: Vec<FatStatus>,
    pub data: Vec<u8>,
}

impl VirtualDisk {
    /// The sizes the rest of the contracts rely on.
    pub open spec fn wf(self) -> bool {
        &&& self.fat@.len() == BLOCK_COUNT
        &&& self.data@.len() == BLOCK_COUNT * BLOCK_SIZE
        &&& fat_closed(self.fat@)
    }

    /// A fresh disk: every block free, every byte zero.
    pub fn new() -> (r: VirtualDisk)
        ensures
            r.wf(),
            forall|i: int| 0 <= i < BLOCK_COUNT ==> r.fat@[i] is UnUsed,
            forall|j: int| 0 <= j < BLOCK_COUNT * BLOCK_SIZE ==> r.data@[j] == 0u8,
    {
        let mut fat: Vec<FatStatus> = Vec::new();
        let mut i: usize = 0;
        while i < BLOCK_COUNT
            invariant
                i <= BLOCK_COUNT,
                fat@.len() == i,
                forall|k: int| 0 <= k < i ==> fat@[k] is UnUsed,
            decreases BLOCK_COUNT - i,
        {
            fat.push(FatStatus::UnUsed);
            i = i + 1;
        }
        let mut data: Vec<u8> = Vec::new();
        let mut j: usize = 0;
        while j < BLOCK_COUNT * BLOCK_SIZE
            invariant
                j <= BLOCK_COUNT * BLOCK_SIZE,
                data@.len() == j,
                forall|k: int| 0 <= k < j ==> data@[k] == 0u8,
            decreases BLOCK_COUNT * BLOCK_SIZE - j,
        {
            data.push(0u8);
            j = j + 1;
        }
        VirtualDisk { fat, data }
    }

    /// Overwrite the byte range starting at `offset` with `data`.
    pub fn insert_data_by_offset(&mut self, data: &[u8], offset: usize)
        requires
            old(self).wf(),
            offset + data@.len() <= BLOCK_COUNT * BLOCK_SIZE,
        ensures
            final(self).wf(),
            final(self).fat@ == old(self).fat@,
            final(self).data@ == old(self).data@.subrange(0, offset as int) + data@
                + old(self).data@.skip(offset + data@.len()),
    {
        let mut i: usize = 0;
        while i < data.len()
            invariant
                old(self).wf(),
                i <= data@.len(),
                offset + data@.len() <= BLOCK_COUNT * BLOCK_SIZE,
                self.fat@ == old(self).fat@,
                self.data@.len() == old(self).data@.len(),
                forall|k: int| 0 <= k < offset ==> self.data@[k] == old(self).data@[k],
                forall|k: int| 0 <= k < i ==> self.data@[offset + k] == data@[k],
                forall|k: int|
                    offset + data@.len() <= k < old(self).data@.len() ==> self.data@[k] == old(
                        self,
                    ).data@[k],
                forall|k: int|
                    offset + i <= k < old(self).data@.len() ==> self.data@[k] == old(self).data@[k],
            decreases data@.len() - i,
        {
            self.data.set(offset + i, data[i]);
            i = i + 1;
        }
        proof {
            assert(self.data@ =~= old(self).data@.subrange(0, offset as int) + data@ + old(
                self,
            ).data@.skip(offset + data@.len()));
        }
    }

    /// Overwrite block `cluster` (or the range starting there) with `data`.
    pub fn insert_data_by_cluster(&mut self, data: &[u8], cluster: usize)
        requires
            old(self).wf(),
            cluster * BLOCK_SIZE + data@.len() <= BLOCK_COUNT * BLOCK_SIZE,
        ensures
            final(self).wf(),
            final(self).fat@ == old(self).fat@,
            final(self).data@ == old(self).data@.subrange(0, cluster * BLOCK_SIZE as int) + data@
                + old(self).data@.skip(cluster * BLOCK_SIZE + data@.len()),
    {
        proof {
            assert(cluster * BLOCK_SIZE >= 0) by (nonlinear_arith);
        }
        self.insert_data_by_offset(data, cluster * BLOCK_SIZE);
    }

    /// Read one whole block.
    pub fn read_data_by_cluster(&self, cluster: usize) -> (r: Vec<u8>)
        requires
            self.wf(),
            cluster < BLOCK_COUNT,
        ensures
            r@ == block_of(self.data@, cluster as int),
            r@.len() == BLOCK_SIZE,
    {
        proof {
            assert(0 <= cluster * BLOCK_SIZE && (cluster + 1) * BLOCK_SIZE <= BLOCK_COUNT
                * BLOCK_SIZE) by (nonlinear_arith)
                requires
                    cluster < BLOCK_COUNT,
            ;
            assert((cluster + 1) * BLOCK_SIZE == cluster * BLOCK_SIZE + BLOCK_SIZE) by (nonlinear_arith);
        }
        let s = &self.data[cluster * BLOCK_SIZE..cluster * BLOCK_SIZE + BLOCK_SIZE];
        vstd::slice::slice_to_vec(s)
    }

    /// Split `data` across the listed blocks in `BLOCK_SIZE`-sized pieces.
    /// The final block receives the remaining payload, then the sentinel if
    /// `insert_eof` is set, then zero fill.
    pub fn write_data_by_clusters_with_eof(
        &mut self,
        data: &[u8],
        clusters: &[usize],
        insert_eof: bool,
    )
        requires
            old(self).wf(),
            1 <= clusters@.len() <= BLOCK_COUNT,
            forall|i: int| 0 <= i < clusters@.len() ==> clusters@[i] < BLOCK_COUNT,
            clusters@.no_duplicates(),
            (clusters@.len() - 1) * BLOCK_SIZE <= data@.len(),
            data@.len() + (if insert_eof {
                1int
            } else {
                0int
            }) <= clusters@.len() * BLOCK_SIZE,
        ensures
            final(self).wf(),
            final(self).fat@ == old(self).fat@,
            forall|i: int|
                0 <= i < clusters@.len() - 1 ==> block_of(
                    final(self).data@,
                    clusters@[i] as int,
                ) == data@.subrange(i * BLOCK_SIZE, (i + 1) * BLOCK_SIZE),
            block_of(final(self).data@, clusters@.last() as int) == last_block_bytes(
                data@,
                clusters@.len() as int,
                insert_eof,
            ),
            forall|b: int|
                0 <= b < BLOCK_COUNT && !clusters@.contains(b as usize) ==> block_of(
                    final(self).data@,
                    b,
                ) == block_of(old(self).data@, b),
    {
        let m = clusters.len();
        let mut i: usize = 0;
        while i < m - 1
            invariant
                self.wf(),
                old(self).wf(),
                i <= m - 1,
                m == clusters@.len(),
                1 <= m <= BLOCK_COUNT,
                forall|k: int| 0 <= k < m ==> clusters@[k] < BLOCK_COUNT,
                clusters@.no_duplicates(),
                (m - 1) * BLOCK_SIZE <= data@.len(),
                self.fat@ == old(self).fat@,
                self.data@.len() == old(self).data@.len(),
                forall|k: int|
                    0 <= k < i ==> block_of(self.data@, clusters@[k] as int) == data@.subrange(
                        k * BLOCK_SIZE,
                        (k + 1) * BLOCK_SIZE,
                    ),
                forall|b: int|
                    0 <= b < BLOCK_COUNT && !clusters@.take(i as int).contains(b as usize)
                        ==> block_of(self.data@, b) == block_of(old(self).data@, b),
            decreases m - 1 - i,
        {
            proof {
                lemma_mul_le(i + 1, m - 1, BLOCK_SIZE as int);
                assert((i + 1) * BLOCK_SIZE == i * BLOCK_SIZE + BLOCK_SIZE) by (nonlinear_arith);
                assert(i * BLOCK_SIZE >= 0) by (nonlinear_arith);
            }
            let ghost prev = self.data@;
            let piece = &data[i * BLOCK_SIZE..i * BLOCK_SIZE + BLOCK_SIZE];
            let c = clusters[i];
            proof {
                assert(c * BLOCK_SIZE + BLOCK_SIZE <= BLOCK_COUNT * BLOCK_SIZE) by (nonlinear_arith)
                    requires
                        (c as int) < BLOCK_COUNT,
                ;
            }
            self.insert_data_by_cluster(piece, c);
            proof {
                lemma_insert_block_effect(prev, self.data@, c as int, piece@);
                assert(clusters@.take(i + 1).drop_last() =~= clusters@.take(i as int));
                assert forall|b: int|
                    0 <= b < BLOCK_COUNT && !(#[trigger] clusters@.take(i + 1).contains(
                        b as usize,
                    )) implies !(clusters@.take(i as int).contains(b as usize)) && b
                    != c as int by {
                    if b == c as int {
                        assert(clusters@.take(i + 1)[i as int] == c);
                        assert(clusters@.take(i + 1).contains(b as usize));
                    }
                    if clusters@.take(i as int).contains(b as usize) {
                        let t = choose|t: int|
                            0 <= t < i && #[trigger] clusters@.take(i as int)[t] == b as usize;
                        assert(clusters@.take(i + 1)[t] == b as usize);
                        assert(clusters@.take(i + 1).contains(b as usize));
                    }
                }
            }
            i = i + 1;
        }
        // The final block: remaining payload, optional sentinel, zero fill.
        proof {
            lemma_mul_le(m - 1, m - 1, BLOCK_SIZE as int);
            assert((m - 1) * BLOCK_SIZE >= 0) by (nonlinear_arith)
                requires
                    m >= 1,
            ;
            assert(m * BLOCK_SIZE == (m - 1) * BLOCK_SIZE + BLOCK_SIZE) by (nonlinear_arith);
        }
        let mut buffer: Vec<u8> = Vec::new();
        let tail_start = (m - 1) * BLOCK_SIZE;
        let mut k: usize = tail_start;
        while k < data.len()
            invariant
                tail_start <= k <= data@.len(),
                tail_start == (m - 1) * BLOCK_SIZE,
                buffer@ == data@.subrange(tail_start as int, k as int),
            decreases data@.len() - k,
        {
            buffer.push(data[k]);
            proof {
                assert(buffer@ =~= data@.subrange(tail_start as int, k + 1));
            }
            k = k + 1;
        }
        proof {
            assert(buffer@ =~= data@.skip(tail_start as int));
        }
        if insert_eof {
            buffer.push(EOF_BYTE);
        }
        let ghost marked = buffer@;
        while buffer.len() < BLOCK_SIZE
            invariant
                marked.len() <= BLOCK_SIZE,
                buffer@.len() <= BLOCK_SIZE,
                buffer@ == marked + Seq::<u8>::new((buffer@.len() - marked.len()) as nat, |j: int| 0u8),
            decreases BLOCK_SIZE - buffer@.len(),
        {
            buffer.push(0u8);
            proof {
                assert(buffer@ =~= marked + Seq::<u8>::new(
                    (buffer@.len() - marked.len()) as nat,
                    |j: int| 0u8,
                ));
            }
        }
        let ghost prev = self.data@;
        let c = clusters[m - 1];
        proof {
            assert(c * BLOCK_SIZE + BLOCK_SIZE <= BLOCK_COUNT * BLOCK_SIZE) by (nonlinear_arith)
                requires
                    (c as int) < BLOCK_COUNT,
            ;
        }
        self.insert_data_by_cluster(buffer.as_slice(), c);
        proof {
            lemma_insert_block_effect(prev, self.data@, c as int, buffer@);
            assert(buffer@ =~= last_block_bytes(data@, m as int, insert_eof));
            assert(clusters@.last() == clusters@[m - 1]);
            assert forall|b: int|
                0 <= b < BLOCK_COUNT && !(#[trigger] clusters@.contains(b as usize)) implies !(
            clusters@.take(m - 1).contains(b as usize)) && b != c as int by {
                if b == c as int {
                    assert(clusters@[m - 1] == c);
                    assert(clusters@.contains(b as usize));
                }
                if clusters@.take(m - 1).contains(b as usize) {
                    let t = choose|t: int|
                        0 <= t < m - 1 && #[trigger] clusters@.take(m - 1)[t] == b as usize;
                    assert(clusters@[t] == b as usize);
                    assert(clusters@.contains(b as usize));
                }
            }
        }
    }

    /// Read the listed blocks back as one byte sequence, then truncate at the
    /// sentinel nearest the end of the final block, if any.
    pub fn read_data_by_clusters_without_eof(&self, clusters: &[usize]) -> (r: Vec<u8>)
        requires
            self.wf(),
            1 <= clusters@.len() <= BLOCK_COUNT,
            forall|i: int| 0 <= i < clusters@.len() ==> clusters@[i] < BLOCK_COUNT,
        ensures
            r@ == strip_eof(concat_blocks(self.data@, clusters@)),
            r@.len() >= 1,
    {
        let mut data: Vec<u8> = Vec::new();
        let mut i: usize = 0;
        while i < clusters.len()
            invariant
                self.wf(),
                i <= clusters@.len(),
                clusters@.len() <= BLOCK_COUNT,
                forall|k: int| 0 <= k < clusters@.len() ==> clusters@[k] < BLOCK_COUNT,
                data@ == concat_blocks(self.data@, clusters@.take(i as int)),
                data@.len() == i * BLOCK_SIZE,
            decreases clusters@.len() - i,
        {
            let mut buffer = self.read_data_by_cluster(clusters[i]);
            data.append(&mut buffer);
            proof {
                assert(clusters@.take(i + 1).drop_last() =~= clusters@.take(i as int));
                assert(clusters@.take(i + 1).last() == clusters@[i as int]);
                assert((i + 1) * BLOCK_SIZE == i * BLOCK_SIZE + BLOCK_SIZE) by (nonlinear_arith);
            }
            i = i + 1;
        }
        proof {
            assert(clusters@.take(clusters@.len() as int) =~= clusters@);
            lemma_mul_le(1, clusters@.len() as int, BLOCK_SIZE as int);
        }
        let ghost all = data@;
        // Backward scan for the sentinel, over the final block only.
        let mut j: usize = 1;
        let mut cut: usize = data.len();
        let mut found: bool = false;
        while j < BLOCK_SIZE && !found
            invariant
                1 <= j <= BLOCK_SIZE,
                all == data@,
                data@.len() >= BLOCK_SIZE,
                !found ==> cut == all.len() && eof_scan(all, 1) == eof_scan(all, j as int),
                found ==> cut == eof_scan(all, 1) && 1 <= cut <= all.len(),
            decreases BLOCK_SIZE - j + (if found {
                0int
            } else {
                1int
            }),
        {
            if data[data.len() - j] == EOF_BYTE {
                found = true;
                cut = data.len() - j;
            } else {
                j = j + 1;
            }
        }
        data.truncate(cut);
        data
    }
}

/// Replacing one whole block leaves every other block as it was.
proof fn lemma_insert_block_effect(prev: Seq<u8>, cur: Seq<u8>, c: int, written: Seq<u8>)
    requires
        prev.len() == BLOCK_COUNT * BLOCK_SIZE,
        0 <= c < BLOCK_COUNT,
        written.len() == BLOCK_SIZE,
        cur == prev.subrange(0, c * BLOCK_SIZE) + written + prev.skip(c * BLOCK_SIZE + BLOCK_SIZE),
    ensures
        block_of(cur, c) == written,
        forall|b: int| 0 <= b < BLOCK_COUNT && b != c ==> block_of(cur, b) == block_of(prev, b),
{
    assert(0 <= c * BLOCK_SIZE && c * BLOCK_SIZE + BLOCK_SIZE <= BLOCK_COUNT * BLOCK_SIZE)
        by (nonlinear_arith)
        requires
            0 <= c < BLOCK_COUNT,
    ;
    assert((c + 1) * BLOCK_SIZE == c * BLOCK_SIZE + BLOCK_SIZE) by (nonlinear_arith);
    assert(cur.len() == prev.len());
    assert(block_of(cur, c) =~= written);
    assert forall|b: int| 0 <= b < BLOCK_COUNT && b != c implies block_of(cur, b) == block_of(
        prev,
        b,
    ) by {
        assert(0 <= b * BLOCK_SIZE && b * BLOCK_SIZE + BLOCK_SIZE <= BLOCK_COUNT * BLOCK_SIZE)
            by (nonlinear_arith)
            requires
                0 <= b < BLOCK_COUNT,
        ;
        assert((b + 1) * BLOCK_SIZE == b * BLOCK_SIZE + BLOCK_SIZE) by (nonlinear_arith);
        assert(b < c ==> (b + 1) * BLOCK_SIZE <= c * BLOCK_SIZE) by (nonlinear_arith);
        assert(b > c ==> b * BLOCK_SIZE >= (c + 1) * BLOCK_SIZE) by (nonlinear_arith);
        assert forall|x: int| b * BLOCK_SIZE <= x < (b + 1) * BLOCK_SIZE implies cur[x] == prev[x] by {
        }
        assert(block_of(cur, b) =~= block_of(prev, b));
    }
}

/// Two link paths of the same table that start at the same block agree on
/// their common prefix: each entry determines the next block.
pub proof fn lemma_link_path_agree(fat: Seq<FatStatus>, p: Seq<usize>, q: Seq<usize>)
    requires
        link_path(fat, p),
        link_path(fat, q),
        p[0] == q[0],
    ensures
        forall|i: int| 0 <= i < p.len() && i < q.len() ==> p[i] == q[i],
    decreases p.len(),
{
    if p.len() > 1 && q.len() > 1 {
        assert(fat[p[0] as int] == FatStatus::ClusterNo(p[1]));
        assert(fat[q[0] as int] == FatStatus::ClusterNo(q[1]));
        let p1 = p.skip(1);
        let q1 = q.skip(1);
        assert(link_path(fat, p1)) by {
            assert(forall|i: int| 0 <= i < p1.len() ==> p1[i] == p[i + 1]);
        }
        assert(link_path(fat, q1)) by {
            assert(forall|i: int| 0 <= i < q1.len() ==> q1[i] == q[i + 1]);
        }
        lemma_link_path_agree(fat, p1, q1);
        assert(forall|i: int|
            1 <= i < p.len() && i < q.len() ==> p[i] == p1[i - 1] && q[i] == q1[i - 1]);
    }
}

/// A table admits at most one chain from a given head block.
pub proof fn lemma_chain_unique(fat: Seq<FatStatus>, c1: Seq<usize>, c2: Seq<usize>)
    requires
        is_chain(fat, c1),
        is_chain(fat, c2),
        c1[0] == c2[0],
    ensures
        c1 == c2,
{
    lemma_link_path_agree(fat, c1, c2);
    if c1.len() < c2.len() {
        assert(c1.last() == c2[c1.len() - 1]);
        assert(fat[c2[c1.len() - 1] as int] == FatStatus::ClusterNo(c2[c1.len() as int]));
    } else if c2.len() < c1.len() {
        assert(c2.last() == c1[c2.len() - 1]);
        assert(fat[c1[c2.len() - 1] as int] == FatStatus::ClusterNo(c1[c2.len() as int]));
    }
    assert(c1 =~= c2);
}

/// No chain can start at a free block.
pub proof fn lemma_no_chain_from_unused(fat: Seq<FatStatus>, first: usize)
    requires
        (first as int) < fat.len(),
        fat[first as int] is UnUsed,
    ensures
        forall|c: Seq<usize>| !(is_chain(fat, c) && c[0] == first),
{
    assert forall|c: Seq<usize>| !(is_chain(fat, c) && c[0] == first) by {
        if is_chain(fat, c) && c[0] == first {
            if c.len() == 1 {
                assert(fat[c.last() as int] is EOF);
            } else {
                assert(fat[c[0] as int] == FatStatus::ClusterNo(c[1]));
            }
        }
    }
}

/// A link path that runs into a free block rules out any complete chain from
/// the same head.
pub proof fn lemma_link_path_dead_end(fat: Seq<FatStatus>, p: Seq<usize>)
    requires
        link_path(fat, p),
        fat[p.last() as int] is UnUsed,
    ensures
        forall|c: Seq<usize>| !(is_chain(fat, c) && c[0] == p[0]),
{
    assert forall|c: Seq<usize>| !(is_chain(fat, c) && c[0] == p[0]) by {
        if is_chain(fat, c) && c[0] == p[0] {
            lemma_link_path_agree(fat, p, c);
            if p.len() <= c.len() {
                assert(p.last() == c[p.len() - 1]);
                if p.len() == c.len() {
                    assert(fat[c.last() as int] is EOF);
                } else {
                    assert(fat[c[p.len() - 1] as int] == FatStatus::ClusterNo(c[p.len() as int]));
                }
            } else {
                assert(c.last() == p[c.len() - 1]);
                assert(fat[p[c.len() - 1] as int] == FatStatus::ClusterNo(p[c.len() as int]));
            }
        }
    }
}

/// Distinct block numbers below a bound cannot outnumber the bound.
pub proof fn lemma_distinct_bounded_len(c: Seq<usize>, n: int)
    requires
        c.no_duplicates(),
        forall|i: int| 0 <= i < c.len() ==> (#[trigger] c[i] as int) < n,
        n >= 0,
    ensures
        c.len() <= n,
{
    let ci = c.map_values(|x: usize| x as int);
    assert(ci.no_duplicates()) by {
        assert(forall|i: int, j: int|
            0 <= i < c.len() && 0 <= j < c.len() && i != j ==> ci[i] != ci[j]);
    }
    ci.unique_seq_to_set();
    assert(ci.to_set().subset_of(vstd::set_lib::set_int_range(0, n))) by {
        assert forall|x: int| ci.to_set().contains(x) implies 0 <= x < n by {
            let t = choose|t: int| 0 <= t < ci.len() && ci[t] == x;
            assert(c[t] as int == x);
        }
    }
    vstd::set_lib::lemma_int_range(0, n);
    vstd::set_lib::lemma_len_subset(ci.to_set(), vstd::set_lib::set_int_range(0, n));
}

/// A chain never visits a block twice: its suffixes are chains themselves,
/// and chains from one head are unique.
pub proof fn lemma_chain_no_duplicates(fat: Seq<FatStatus>, c: Seq<usize>)
    requires
        is_chain(fat, c),
    ensures
        c.no_duplicates(),
{
    assert forall|i: int, j: int|
        0 <= i < c.len() && 0 <= j < c.len() && i != j implies c[i] != c[j] by {
        if c[i] == c[j] {
            let lo = if i < j {
                i
            } else {
                j
            };
            let hi = if i < j {
                j
            } else {
                i
            };
            let ci = c.skip(lo);
            let cj = c.skip(hi);
            assert(forall|k: int| 0 <= k < ci.len() ==> ci[k] == c[k + lo]);
            assert(forall|k: int| 0 <= k < cj.len() ==> cj[k] == c[k + hi]);
            assert(is_chain(fat, ci));
            assert(is_chain(fat, cj));
            assert(ci[0] == cj[0]);
            lemma_chain_unique(fat, ci, cj);
            assert(ci.len() == cj.len());
        }
    }
}

/// How a single-entry update moves the free-entry count of a prefix.
pub proof fn lemma_free_upto_update(fat1: Seq<FatStatus>, fat2: Seq<FatStatus>, k: int, n: int)
    requires
        fat1.len() == fat2.len(),
        0 <= k < fat1.len(),
        n <= fat1.len(),
        forall|j: int| 0 <= j < fat1.len() && j != k ==> fat1[j] == fat2[j],
    ensures
        k < n ==> free_upto(fat2, n) as int == free_upto(fat1, n) + (if fat2[k] is UnUsed {
            1int
        } else {
            0int
        }) - (if fat1[k] is UnUsed {
            1int
        } else {
            0int
        }),
        k >= n ==> free_upto(fat2, n) == free_upto(fat1, n),
    decreases n,
{
    if n > 0 {
        lemma_free_upto_update(fat1, fat2, k, n - 1);
    }
}

/// A prefix without free entries counts zero, and conversely.
pub proof fn lemma_free_upto_zero(fat: Seq<FatStatus>, n: int)
    requires
        n <= fat.len(),
        forall|j: int| 0 <= j < n ==> !(fat[j] is UnUsed),
    ensures
        free_upto(fat, n) == 0,
    decreases n,
{
    if n > 0 {
        lemma_free_upto_zero(fat, n - 1);
    }
}

/// Every table entry is either used or free: the two counts partition the
/// prefix.
pub proof fn lemma_used_free_partition(fat: Seq<FatStatus>, n: int)
    requires
        0 <= n <= fat.len(),
    ensures
        used_upto(fat, n) + free_upto(fat, n) == n,
    decreases n,
{
    if n > 0 {
        lemma_used_free_partition(fat, n - 1);
    }
}

/// The concatenation of the first `k` blocks of a written chain is the first
/// `k * BLOCK_SIZE` bytes of the payload.
proof fn lemma_concat_written_prefix(
    disk: Seq<u8>,
    data: Seq<u8>,
    clusters: Seq<usize>,
    k: int,
)
    requires
        0 <= k <= clusters.len() - 1,
        (clusters.len() - 1) * BLOCK_SIZE <= data.len(),
        forall|i: int|
            0 <= i < clusters.len() - 1 ==> block_of(disk, clusters[i] as int) == data.subrange(
                i * BLOCK_SIZE,
                (i + 1) * BLOCK_SIZE,
            ),
    ensures
        concat_blocks(disk, clusters.take(k)) == data.take(k * BLOCK_SIZE),
    decreases k,
{
    lemma_mul_le(k, clusters.len() - 1, BLOCK_SIZE as int);
    assert(k * BLOCK_SIZE >= 0) by (nonlinear_arith)
        requires
            k >= 0,
    ;
    if k == 0 {
        assert(concat_blocks(disk, clusters.take(0)) =~= data.take(0));
    } else {
        lemma_concat_written_prefix(disk, data, clusters, k - 1);
        assert(clusters.take(k).drop_last() =~= clusters.take(k - 1));
        assert(clusters.take(k).last() == clusters[k - 1]);
        assert((k - 1) * BLOCK_SIZE == k * BLOCK_SIZE - BLOCK_SIZE) by (nonlinear_arith);
        assert(data.take((k - 1) * BLOCK_SIZE) + data.subrange(
            (k - 1) * BLOCK_SIZE,
            k * BLOCK_SIZE,
        ) =~= data.take(k * BLOCK_SIZE));
    }
}

/// Where the backward scan stops when the byte `i` from the end is the
/// sentinel and everything nearer the end is not.
proof fn lemma_eof_scan_hit(all: Seq<u8>, k: int, i: int)
    requires
        1 <= k <= i < BLOCK_SIZE,
        i < all.len(),
        all[all.len() - i] == EOF_BYTE,
        forall|x: int| all.len() - i < x <= all.len() - k ==> all[x] != EOF_BYTE,
    ensures
        eof_scan(all, k) == all.len() - i,
    decreases i - k,
{
    if k < i {
        lemma_eof_scan_hit(all, k + 1, i);
    }
}

/// Where the backward scan stops when the final block holds no sentinel at
/// all: nothing is cut.
proof fn lemma_eof_scan_miss(all: Seq<u8>, k: int)
    requires
        1 <= k <= BLOCK_SIZE,
        BLOCK_SIZE <= all.len(),
        forall|x: int| all.len() - BLOCK_SIZE < x <= all.len() - k ==> all[x] != EOF_BYTE,
    ensures
        eof_scan(all, k) == all.len(),
    decreases BLOCK_SIZE - k,
{
    if k < BLOCK_SIZE {
        lemma_eof_scan_miss(all, k + 1);
    }
}

/// Reading a chain back yields exactly the payload that was written: the
/// round trip over one write. In the no-sentinel case the payload's final
/// partial-scan window must be free of the sentinel value, since nothing then
/// distinguishes payload bytes from it.
pub proof fn lemma_chain_round_trip(
    disk: Seq<u8>,
    data: Seq<u8>,
    clusters: Seq<usize>,
    insert_eof: bool,
)
    requires
        1 <= clusters.len() <= BLOCK_COUNT,
        data.len() > 0,
        insert_eof == needs_eof(data.len()),
        clusters.len() == spec_clusters_needed(data.len()),
        clean_tail(data),
        forall|i: int|
            0 <= i < clusters.len() - 1 ==> block_of(disk, clusters[i] as int) == data.subrange(
                i * BLOCK_SIZE,
                (i + 1) * BLOCK_SIZE,
            ),
        block_of(disk, clusters.last() as int) == last_block_bytes(
            data,
            clusters.len() as int,
            insert_eof,
        ),
    ensures
        strip_eof(concat_blocks(disk, clusters)) == data,
{
    let m = clusters.len() as int;
    let len = data.len() as int;
    let bs = BLOCK_SIZE as int;
    vstd::arithmetic::div_mod::lemma_fundamental_div_mod(len, bs);
    vstd::arithmetic::div_mod::lemma_mod_division_less_than_divisor(len, bs);
    let r = len % bs;
    assert((m - 1) * bs <= len && len <= m * bs) by (nonlinear_arith)
        requires
            len == bs * (len / bs) + r,
            0 <= r < bs,
            m == if r == 0 {
                len / bs
            } else {
                len / bs + 1
            },
    ;
    let all = concat_blocks(disk, clusters);
    lemma_concat_written_prefix(disk, data, clusters, m - 1);
    assert(clusters.take(m - 1) =~= clusters.drop_last());
    let tail = data.skip((m - 1) * bs);
    let marked = if insert_eof {
        tail + seq![EOF_BYTE]
    } else {
        tail
    };
    let zeros = Seq::<u8>::new((bs - marked.len()) as nat, |j: int| 0u8);
    assert(all == data.take((m - 1) * bs) + (marked + zeros));
    assert((m - 1) * bs >= 0) by (nonlinear_arith)
        requires
            m >= 1,
            bs >= 0,
    ;
    assert(data.take((m - 1) * bs) + tail =~= data);
    if insert_eof {
        assert(r != 0);
        assert(len == (m - 1) * bs + r) by (nonlinear_arith)
            requires
                len == bs * (len / bs) + r,
                m == len / bs + 1,
        ;
        assert(all =~= data + seq![EOF_BYTE] + zeros);
        assert(all.len() == m * bs) by (nonlinear_arith)
            requires
                all.len() == (m - 1) * bs + (tail.len() + 1) + (bs - (tail.len() + 1)),
        ;
        let i = all.len() - len;
        assert(i == bs - r) by (nonlinear_arith)
            requires
                all.len() == m * bs,
                len == (m - 1) * bs + r,
                i == all.len() - len,
        ;
        assert(all[len] == EOF_BYTE);
        assert forall|x: int| all.len() - i < x <= all.len() - 1 implies all[x] != EOF_BYTE by {
            assert(x > len);
            assert(all[x] == zeros[x - len - 1]);
        }
        lemma_mul_le(1, m, bs);
        lemma_eof_scan_hit(all, 1, i);
        assert(strip_eof(all) =~= data);
    } else {
        assert(r == 0);
        assert(len == m * bs) by (nonlinear_arith)
            requires
                len == bs * (len / bs) + r,
                r == 0,
                m == len / bs,
        ;
        assert(marked.len() == len - (m - 1) * bs);
        assert(marked.len() == bs) by (nonlinear_arith)
            requires
                marked.len() == len - (m - 1) * bs,
                len == m * bs,
        ;
        assert(zeros.len() == 0);
        assert(all =~= data);
        assert forall|x: int|
            all.len() - BLOCK_SIZE < x <= all.len() - 1 implies all[x] != EOF_BYTE by {
            assert(all[x] == data[x]);
            assert(len - BLOCK_SIZE < x < len);
        }
        lemma_mul_le(1, m, bs);
        lemma_eof_scan_miss(all, 1);
        assert(strip_eof(all) =~= data);
    }
}

/// Two to-scale multiplications compare as their left factors do.
proof fn lemma_mul_le(a: int, b: int, s: int)
    requires
        a <= b,
        s >= 0,
    ensures
        a * s <= b * s,
{
    assert(a * s <= b * s) by (nonlinear_arith)
        requires
            a <= b,
            s >= 0,
    ;
}

} // verus!
