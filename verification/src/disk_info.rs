//! The disk manager: owns the virtual disk and the in-memory current
//! directory, and exposes every file and directory operation.
//!
//! Directory mutations are applied to the in-memory current directory and
//! persisted lazily: the directory is re-encoded and written to a freshly
//! allocated chain (the old chain freed) only when navigation flushes it.

pub mod virtual_disk;

use vstd::prelude::*;

use crate::disk_info::virtual_disk::{
    block_of, clean_tail, concat_blocks, free_count, free_upto, is_chain, is_first_free,
    lemma_chain_round_trip, lemma_chain_unique, lemma_distinct_bounded_len, lemma_free_upto_update,
    lemma_free_upto_zero, lemma_link_path_dead_end, link_path, needs_eof, spec_clusters_needed,
    strip_eof, used_upto, FatStatus, VirtualDisk, BLOCK_COUNT, BLOCK_SIZE,
};

use crate::codec::{
    decode_directory, encode_directory, spec_encode_dir, spec_encode_fcb, spec_encode_fcbs,
};
use vstd::string::StrSliceExecFns;

verus! {

/// The error kinds every operation reports instead of failing fatally.
#[derive(Clone, Copy, PartialEq, Eq, Structural, Debug)]
pub enum DiskError {
    /// Not enough free blocks to satisfy an allocation.
    NoSpace,
    /// A chain walk ran into a free entry before its end-of-chain mark.
    CorruptChain,
    /// No entry of the given name exists in the directory at hand.
    NotFound,
    /// The directory already holds an entry of the given name.
    DuplicateName,
    /// The directory still holds entries besides "." and "..".
    DirectoryNotEmpty,
    /// The entry found is a file where a directory was needed, or the other
    /// way round.
    WrongType,
    /// Stored bytes do not form a valid directory encoding.
    DecodeError,
}

/// What a directory entry refers to.
#[derive(Clone, Copy, PartialEq, Eq, Structural, Debug)]
pub enum FileType {
    File,
    Directory,
}

/// One directory entry: a file control block.
pub struct Fcb {
    /// Entry name.
    pub name: String,
    /// Whether the entry is a file or a directory.
    pub file_type: FileType,
    /// First block of the entry's chain.
    pub first_cluster: usize,
    /// Payload length in bytes; authoritative for files only.
    pub length: usize,
}

/// The mathematical value of an `Fcb`.
#[verifier::ext_equal]
pub struct FcbV {
    pub name: Seq<char>,
    pub file_type: FileType,
    pub first_cluster: usize,
    pub length: usize,
}

impl View for Fcb {
    type V = FcbV;

    open spec fn view(&self) -> FcbV {
        FcbV {
            name: self.name@,
            file_type: self.file_type,
            first_cluster: self.first_cluster,
            length: self.length,
        }
    }
}

impl Clone for Fcb {
    fn clone(&self) -> (r: Fcb)
        ensures
            r == *self,
    {
        Fcb {
            name: self.name.clone(),
            file_type: self.file_type,
            first_cluster: self.first_cluster,
            length: self.length,
        }
    }
}

/// A directory: its own name and the ordered entry list. The first two
/// entries are always "." (the directory itself) and ".." (its parent), in
/// that order.
pub struct Directory {
    pub name: String,
    pub files: Vec<Fcb>,
}

/// The mathematical value of a `Directory`.
#[verifier::ext_equal]
pub struct DirV {
    pub name: Seq<char>,
    pub files: Seq<FcbV>,
}

/// The entry list as mathematical values.
pub open spec fn views_of(files: Seq<Fcb>) -> Seq<FcbV> {
    files.map_values(|f: Fcb| f@)
}

impl View for Directory {
    type V = DirV;

    open spec fn view(&self) -> DirV {
        DirV { name: self.name@, files: views_of(self.files@) }
    }
}

impl Clone for Directory {
    fn clone(&self) -> (r: Directory)
        ensures
            r@ == self@,
    {
        let mut files: Vec<Fcb> = Vec::new();
        let mut i: usize = 0;
        while i < self.files.len()
            invariant
                i <= self.files@.len(),
                files@.len() == i,
                forall|k: int| 0 <= k < i ==> files@[k] == self.files@[k],
            decreases self.files@.len() - i,
        {
            files.push(self.files[i].clone());
            i = i + 1;
        }
        let r = Directory { name: self.name.clone(), files };
        proof {
            assert(r@.files =~= self@.files);
            assert(r@ =~= self@);
        }
        r
    }
}

/// The directory layout every operation preserves: at least the "." and ".."
/// entries, in that order, both directories, and every recorded block number
/// on the disk.
pub open spec fn dir_wf(d: DirV) -> bool {
    &&& d.files.len() >= 2
    &&& d.files[0].name == "."@
    &&& d.files[1].name == ".."@
    &&& d.files[0].file_type is Directory
    &&& d.files[1].file_type is Directory
    &&& forall|i: int| 0 <= i < d.files.len() ==> (#[trigger] d.files[i]).first_cluster < BLOCK_COUNT
}

/// Whether the directory holds an entry of the given name.
pub open spec fn dir_contains_name(d: DirV, name: Seq<char>) -> bool {
    exists|i: int| 0 <= i < d.files.len() && (#[trigger] d.files[i]).name == name
}

impl Directory {
    /// An empty directory shell; the caller appends "." and ".." before use.
    pub fn new(name: &str) -> (r: Directory)
        ensures
            r@.name == name@,
            r@.files.len() == 0,
    {
        let r = Directory { name: name.to_owned(), files: Vec::with_capacity(2) };
        proof {
            assert(r@.files =~= Seq::<FcbV>::empty());
        }
        r
    }

    /// Linear scan for the first entry of the given name; its index and the
    /// entry itself.
    pub fn get_fcb_by_name(&self, name: &str) -> (r: Option<(usize, &Fcb)>)
        ensures
            match r {
                Some((i, f)) => {
                    &&& (i as int) < self@.files.len()
                    &&& self@.files[i as int].name == name@
                    &&& *f == self.files@[i as int]
                    &&& forall|j: int| 0 <= j < i ==> (#[trigger] self@.files[j]).name != name@
                },
                None => !dir_contains_name(self@, name@),
            },
    {
        let key: String = name.to_owned();
        let mut i: usize = 0;
        while i < self.files.len()
            invariant
                i <= self.files@.len(),
                key@ == name@,
                forall|j: int| 0 <= j < i ==> (#[trigger] self@.files[j]).name != name@,
            decreases self.files@.len() - i,
        {
            if self.files[i].name == key {
                return Some((i, &self.files[i]));
            }
            i = i + 1;
        }
        None
    }

    /// Linear scan for the first entry of the given name; its index only.
    pub fn get_index_by_name(&self, name: &str) -> (r: Option<usize>)
        ensures
            match r {
                Some(i) => {
                    &&& (i as int) < self@.files.len()
                    &&& self@.files[i as int].name == name@
                    &&& forall|j: int| 0 <= j < i ==> (#[trigger] self@.files[j]).name != name@
                },
                None => !dir_contains_name(self@, name@),
            },
    {
        let key: String = name.to_owned();
        let mut i: usize = 0;
        while i < self.files.len()
            invariant
                i <= self.files@.len(),
                key@ == name@,
                forall|j: int| 0 <= j < i ==> (#[trigger] self@.files[j]).name != name@,
            decreases self.files@.len() - i,
        {
            if self.files[i].name == key {
                return Some(i);
            }
            i = i + 1;
        }
        None
    }
}

/// The bytes read back from chain `c`: its blocks in order, the sentinel and
/// what follows it stripped.
pub open spec fn chain_bytes(disk: VirtualDisk, c: Seq<usize>) -> Seq<u8> {
    strip_eof(concat_blocks(disk.data@, c))
}

/// The whole effect of writing payload `data` onto a freshly allocated chain
/// `c` starting at `first`: the chain is terminated and made of blocks that
/// were free, everything off the chain is untouched, and reading the chain
/// back yields the payload wherever the sentinel scan can tell payload from
/// padding.
pub open spec fn wrote_chain(
    pre: VirtualDisk,
    post: VirtualDisk,
    data: Seq<u8>,
    first: usize,
    c: Seq<usize>,
) -> bool {
    &&& post.fat@.len() == pre.fat@.len()
    &&& is_chain(post.fat@, c)
    &&& c.len() == spec_clusters_needed(data.len())
    &&& c[0] == first
    &&& c.no_duplicates()
    &&& is_first_free(pre.fat@, first as int)
    &&& forall|i: int|
        0 <= i < c.len() ==> (#[trigger] c[i] as int) < pre.fat@.len() - 1 && pre.fat@[c[i] as int]
            is UnUsed
    &&& forall|j: int|
        0 <= j < pre.fat@.len() && !c.contains(j as usize) ==> post.fat@[j] == pre.fat@[j]
    &&& forall|b: int|
        0 <= b < BLOCK_COUNT && !c.contains(b as usize) ==> block_of(post.data@, b) == block_of(
            pre.data@,
            b,
        )
    &&& free_count(post.fat@) + c.len() == free_count(pre.fat@)
    &&& (clean_tail(data) ==> chain_bytes(post, c) == data)
}

/// The chain count of any non-empty payload is at least one block, and the
/// payload fits the counted blocks with room for the sentinel where one is
/// due.
pub proof fn lemma_clusters_needed_bounds(len: int)
    requires
        len >= 1,
    ensures
        ({
            let m = spec_clusters_needed(len as nat) as int;
            &&& m >= 1
            &&& (m - 1) * BLOCK_SIZE <= len
            &&& len + (if needs_eof(len as nat) {
                1int
            } else {
                0int
            }) <= m * BLOCK_SIZE
        }),
{
    let bs = BLOCK_SIZE as int;
    vstd::arithmetic::div_mod::lemma_fundamental_div_mod(len, bs);
    vstd::arithmetic::div_mod::lemma_mod_division_less_than_divisor(len, bs);
    let q = len / bs;
    let r = len % bs;
    let m = spec_clusters_needed(len as nat) as int;
    assert(q >= 0) by (nonlinear_arith)
        requires
            len == bs * q + r,
            len >= 1,
            0 <= r < bs,
            bs > 0,
    ;
    if r == 0 {
        assert(m == q);
        assert(q >= 1) by (nonlinear_arith)
            requires
                len == bs * q,
                len >= 1,
                q >= 0,
        ;
        assert((m - 1) * bs <= len && len <= m * bs) by (nonlinear_arith)
            requires
                len == bs * m,
                bs > 0,
                m >= 1,
        ;
    } else {
        assert(m == q + 1);
        assert((m - 1) * bs <= len && len + 1 <= m * bs) by (nonlinear_arith)
            requires
                len == bs * (m - 1) + r,
                0 < r < bs,
                m >= 1,
    ;
    }
}

/// The directory value a fresh child is built as: itself at the block
/// reserved for it, its parent at the parent's own first block.
pub open spec fn child_dir_view(name: Seq<char>, parent_first: usize, rb: usize) -> DirV {
    DirV {
        name,
        files: seq![
            (FcbV { name: "."@, file_type: FileType::Directory, first_cluster: rb, length: 0 }),
            (FcbV {
                name: ".."@,
                file_type: FileType::Directory,
                first_cluster: parent_first,
                length: 0,
            }),
        ],
    }
}

/// The root directory synthesized when none is given.
pub open spec fn default_root_view() -> DirV {
    DirV {
        name: "root"@,
        files: seq![
            (FcbV { name: "."@, file_type: FileType::Directory, first_cluster: 0, length: 0 }),
            (FcbV { name: ".."@, file_type: FileType::Directory, first_cluster: 0, length: 0 }),
        ],
    }
}

/// A block number takes the same room on disk whatever its value: the size
/// of a child directory's encoding does not depend on the reserved block.
pub proof fn lemma_child_len_indep(name: Seq<char>, p: usize, rb1: usize, rb2: usize)
    ensures
        spec_encode_dir(child_dir_view(name, p, rb1)).len() == spec_encode_dir(
            child_dir_view(name, p, rb2),
        ).len(),
{
    vstd::bytes::lemma_auto_spec_u64_to_from_le_bytes();
    let f1 = child_dir_view(name, p, rb1).files;
    let f2 = child_dir_view(name, p, rb2).files;
    assert(f1.drop_last() =~= seq![f1[0]]);
    assert(f2.drop_last() =~= seq![f2[0]]);
    assert(seq![f1[0]].drop_last() =~= Seq::<FcbV>::empty());
    assert(seq![f2[0]].drop_last() =~= Seq::<FcbV>::empty());
    assert(spec_encode_fcbs(f1) == spec_encode_fcbs(seq![f1[0]]) + spec_encode_fcb(f1[1]));
    assert(spec_encode_fcbs(f2) == spec_encode_fcbs(seq![f2[0]]) + spec_encode_fcb(f2[1]));
    assert(spec_encode_fcbs(seq![f1[0]]) == spec_encode_fcbs(Seq::<FcbV>::empty())
        + spec_encode_fcb(f1[0]));
    assert(spec_encode_fcbs(seq![f2[0]]) == spec_encode_fcbs(Seq::<FcbV>::empty())
        + spec_encode_fcb(f2[0]));
}

/// `i` is the index of the first entry of directory `d` named `name`.
pub open spec fn first_match(d: DirV, name: Seq<char>, i: int) -> bool {
    &&& 0 <= i < d.files.len()
    &&& d.files[i].name == name
    &&& forall|j: int| 0 <= j < i ==> (#[trigger] d.files[j]).name != name
}

/// A directory has at most one first entry of a given name.
pub proof fn lemma_first_match_unique(d: DirV, name: Seq<char>, i: int, j: int)
    requires
        first_match(d, name, i),
        first_match(d, name, j),
    ensures
        i == j,
{
    if i < j {
        assert(d.files[i].name != name);
    }
    if j < i {
        assert(d.files[j].name != name);
    }
}

/// The length of the leading slash-free run of `s`.
pub open spec fn first_sep(s: Seq<char>) -> nat
    decreases s.len(),
{
    if s.len() == 0 {
        0
    } else if s[0] == '/' {
        0
    } else {
        1 + first_sep(s.drop_first())
    }
}

/// The non-empty components of a slash-separated path, in order.
pub open spec fn spec_split_path(s: Seq<char>) -> Seq<Seq<char>>
    decreases s.len(),
{
    if s.len() == 0 {
        Seq::<Seq<char>>::empty()
    } else if s[0] == '/' {
        spec_split_path(s.drop_first())
    } else {
        let k = if first_sep(s) as int <= s.len() {
            first_sep(s) as int
        } else {
            s.len() as int
        };
        seq![s.take(k)] + spec_split_path(s.skip(k))
    }
}

/// Where the leading component ends: right before the first slash, or at the
/// end when there is none.
pub proof fn lemma_first_sep_at(s: Seq<char>, k: int)
    requires
        0 <= k <= s.len(),
        forall|j: int| 0 <= j < k ==> s[j] != '/',
        k == s.len() || s[k] == '/',
    ensures
        first_sep(s) == k,
    decreases k,
{
    if k == 0 {
    } else {
        assert(s[0] != '/');
        lemma_first_sep_at(s.drop_first(), k - 1);
    }
}

/// One resolution step: the entry of `d` named `comp` is a directory whose
/// stored chain holds the encoding of the well-formed directory `dv`.
pub open spec fn resolve_step(disk: VirtualDisk, d: DirV, comp: Seq<char>, dv: DirV) -> bool {
    exists|i: int, c: Seq<usize>|
        {
            &&& #[trigger] first_match(d, comp, i)
            &&& d.files[i].file_type is Directory
            &&& #[trigger] is_chain(disk.fat@, c)
            &&& c[0] == d.files[i].first_cluster
            &&& chain_bytes(disk, c) == spec_encode_dir(dv)
            &&& dir_wf(dv)
        }
}

/// The component list `comps` leads from `d0` to `dest` on the given disk,
/// one stored directory at a time.
pub open spec fn resolves_to(disk: VirtualDisk, d0: DirV, comps: Seq<Seq<char>>, dest: DirV) -> bool
    decreases comps.len(),
{
    if comps.len() == 0 {
        dest == d0
    } else {
        exists|dv: DirV|
            #[trigger] resolve_step(disk, d0, comps[0], dv) && resolves_to(
                disk,
                dv,
                comps.drop_first(),
                dest,
            )
    }
}

/// Resolving one component more than a prefix is resolving the prefix and
/// then taking one step.
pub proof fn lemma_resolve_snoc(
    disk: VirtualDisk,
    d0: DirV,
    comps: Seq<Seq<char>>,
    k: int,
    d2: DirV,
)
    requires
        0 <= k < comps.len(),
    ensures
        resolves_to(disk, d0, comps.take(k + 1), d2) <==> exists|d1: DirV|
            #[trigger] resolves_to(disk, d0, comps.take(k), d1) && resolve_step(
                disk,
                d1,
                comps[k],
                d2,
            ),
    decreases k,
{
    let pre = comps.take(k + 1);
    assert(pre[0] == comps[0]);
    if k == 0 {
        assert(pre.drop_first() =~= comps.take(0));
        if resolves_to(disk, d0, pre, d2) {
            let dv = choose|dv: DirV|
                #[trigger] resolve_step(disk, d0, pre[0], dv) && resolves_to(
                    disk,
                    dv,
                    pre.drop_first(),
                    d2,
                );
            assert(d2 == dv);
            assert(resolves_to(disk, d0, comps.take(0), d0) && resolve_step(
                disk,
                d0,
                comps[0],
                d2,
            ));
        }
        if exists|d1: DirV|
            #[trigger] resolves_to(disk, d0, comps.take(0), d1) && resolve_step(
                disk,
                d1,
                comps[0],
                d2,
            ) {
            let d1 = choose|d1: DirV|
                #[trigger] resolves_to(disk, d0, comps.take(0), d1) && resolve_step(
                    disk,
                    d1,
                    comps[0],
                    d2,
                );
            assert(d1 == d0);
            assert(resolve_step(disk, d0, pre[0], d2) && resolves_to(
                disk,
                d2,
                pre.drop_first(),
                d2,
            ));
        }
    } else {
        assert(pre.drop_first() =~= comps.drop_first().take(k));
        assert(comps.take(k)[0] == comps[0]);
        assert(comps.take(k).drop_first() =~= comps.drop_first().take(k - 1));
        assert(comps.drop_first()[k - 1] == comps[k]);
        if resolves_to(disk, d0, pre, d2) {
            let dv = choose|dv: DirV|
                #[trigger] resolve_step(disk, d0, pre[0], dv) && resolves_to(
                    disk,
                    dv,
                    pre.drop_first(),
                    d2,
                );
            lemma_resolve_snoc(disk, dv, comps.drop_first(), k - 1, d2);
            let d1 = choose|d1: DirV|
                #[trigger] resolves_to(disk, dv, comps.drop_first().take(k - 1), d1)
                    && resolve_step(disk, d1, comps.drop_first()[k - 1], d2);
            assert(resolve_step(disk, d0, comps.take(k)[0], dv) && resolves_to(
                disk,
                dv,
                comps.take(k).drop_first(),
                d1,
            ));
            assert(resolves_to(disk, d0, comps.take(k), d1) && resolve_step(
                disk,
                d1,
                comps[k],
                d2,
            ));
        }
        if exists|d1: DirV|
            #[trigger] resolves_to(disk, d0, comps.take(k), d1) && resolve_step(
                disk,
                d1,
                comps[k],
                d2,
            ) {
            let d1 = choose|d1: DirV|
                #[trigger] resolves_to(disk, d0, comps.take(k), d1) && resolve_step(
                    disk,
                    d1,
                    comps[k],
                    d2,
                );
            let dv = choose|dv: DirV|
                #[trigger] resolve_step(disk, d0, comps.take(k)[0], dv) && resolves_to(
                    disk,
                    dv,
                    comps.take(k).drop_first(),
                    d1,
                );
            lemma_resolve_snoc(disk, dv, comps.drop_first(), k - 1, d2);
            assert(resolves_to(disk, dv, comps.drop_first().take(k - 1), d1) && resolve_step(
                disk,
                d1,
                comps.drop_first()[k - 1],
                d2,
            ));
            assert(resolves_to(disk, dv, comps.drop_first().take(k), d2));
            assert(resolve_step(disk, d0, pre[0], dv) && resolves_to(
                disk,
                dv,
                pre.drop_first(),
                d2,
            ));
        }
    }
}

/// A full resolution passes through a unique waypoint after any number of
/// components: the prefix resolves to it and the rest leads on to the
/// destination.
pub proof fn lemma_resolve_prefix(
    disk: VirtualDisk,
    d0: DirV,
    comps: Seq<Seq<char>>,
    dest: DirV,
    k: int,
)
    requires
        resolves_to(disk, d0, comps, dest),
        0 <= k <= comps.len(),
    ensures
        exists|dk: DirV|
            #[trigger] resolves_to(disk, d0, comps.take(k), dk) && resolves_to(
                disk,
                dk,
                comps.skip(k),
                dest,
            ),
    decreases k,
{
    if k == 0 {
        assert(comps.skip(0) =~= comps);
        assert(resolves_to(disk, d0, comps.take(0), d0) && resolves_to(disk, d0, comps, dest));
    } else {
        lemma_resolve_prefix(disk, d0, comps, dest, k - 1);
        let dk1 = choose|dk: DirV|
            #[trigger] resolves_to(disk, d0, comps.take(k - 1), dk) && resolves_to(
                disk,
                dk,
                comps.skip(k - 1),
                dest,
            );
        let tail = comps.skip(k - 1);
        assert(tail[0] == comps[k - 1]);
        assert(tail.drop_first() =~= comps.skip(k));
        let dv = choose|dv: DirV|
            #[trigger] resolve_step(disk, dk1, tail[0], dv) && resolves_to(
                disk,
                dv,
                tail.drop_first(),
                dest,
            );
        lemma_resolve_snoc(disk, d0, comps, k - 1, dv);
        assert(resolves_to(disk, d0, comps.take(k - 1), dk1) && resolve_step(
            disk,
            dk1,
            comps[k - 1],
            dv,
        ));
        assert(resolves_to(disk, d0, comps.take(k), dv) && resolves_to(
            disk,
            dv,
            comps.skip(k),
            dest,
        ));
    }
}

/// The whole effect of flushing directory value `dv`: its old chain (from
/// its own recorded first block) is freed, a fresh chain holds its encoding,
/// and everything off those two chains is untouched.
pub open spec fn flushed_dir(
    pre: VirtualDisk,
    post: VirtualDisk,
    dv: DirV,
    first: usize,
    c_old: Seq<usize>,
    c_new: Seq<usize>,
) -> bool {
    &&& post.fat@.len() == pre.fat@.len()
    &&& post.data@.len() == pre.data@.len()
    &&& is_chain(pre.fat@, c_old)
    &&& c_old[0] == dv.files[0].first_cluster
    &&& is_chain(post.fat@, c_new)
    &&& c_new[0] == first
    &&& c_new.no_duplicates()
    &&& c_new.len() == spec_clusters_needed(spec_encode_dir(dv).len())
    &&& forall|i: int|
        0 <= i < c_new.len() ==> (#[trigger] c_new[i] as int) < pre.fat@.len() - 1 && (
        pre.fat@[c_new[i] as int] is UnUsed || c_old.contains(c_new[i]))
    &&& free_count(post.fat@) + c_new.len() == free_count(
        crate::disk_info::virtual_disk::fat_freed(pre.fat@, c_old),
    )
    &&& (clean_tail(spec_encode_dir(dv)) ==> chain_bytes(post, c_new) == spec_encode_dir(dv))
    &&& forall|j: int|
        0 <= j < pre.fat@.len() && !c_old.contains(j as usize) && !c_new.contains(j as usize)
            ==> post.fat@[j] == pre.fat@[j]
    &&& forall|i: int|
        0 <= i < c_old.len() && !c_new.contains(#[trigger] c_old[i]) ==> post.fat@[c_old[i] as int]
            is UnUsed
    &&& forall|b: int|
        0 <= b < BLOCK_COUNT && !c_new.contains(b as usize) ==> block_of(post.data@, b) == block_of(
            pre.data@,
            b,
        )
}

/// The current directory as it is flushed during a move: the moved entry,
/// the first one named `file_name`, taken out.
pub open spec fn move_source_dir(pre: DiskInfo, i: int) -> DirV {
    DirV { name: pre.cur_directory@.name, files: pre.cur_directory@.files.remove(i) }
}

/// A move completed: the entry left the current directory, the flushed
/// current directory went to disk, and whatever directory the path resolves
/// to over that flushed state was rewritten with the entry appended.
pub open spec fn move_completed(pre: DiskInfo, post: DiskInfo, file_name: Seq<char>, path: Seq<char>) -> bool {
    exists|i: int|
        {
            &&& #[trigger] first_match(pre.cur_directory@, file_name, i)
            &&& post.cur_directory@.files == pre.cur_directory@.files.remove(i)
            &&& post.cur_directory@.name == pre.cur_directory@.name
            &&& exists|mid: VirtualDisk, f1: usize, co1: Seq<usize>, cn1: Seq<usize>|
                {
                    &&& #[trigger] flushed_dir(
                        pre.virtual_disk,
                        mid,
                        move_source_dir(pre, i),
                        f1,
                        co1,
                        cn1,
                    )
                    &&& forall|dest: DirV|
                        #[trigger] resolves_to(
                            mid,
                            move_source_dir(pre, i),
                            spec_split_path(path),
                            dest,
                        ) ==> exists|f2: usize, co2: Seq<usize>, cn2: Seq<usize>|
                            #[trigger] flushed_dir(
                                mid,
                                post.virtual_disk,
                                (DirV {
                                    name: dest.name,
                                    files: dest.files.push(pre.cur_directory@.files[i]),
                                }),
                                f2,
                                co2,
                                cn2,
                            )
                }
        }
}

/// A move stopped during path resolution: the current directory was flushed
/// without the entry, and over that state the path leads to no directory —
/// a component is absent, names a file, or its chain is broken or does not
/// decode.
pub open spec fn move_resolution_failed(
    pre: DiskInfo,
    post: DiskInfo,
    file_name: Seq<char>,
    path: Seq<char>,
) -> bool {
    exists|i: int|
        {
            &&& #[trigger] first_match(pre.cur_directory@, file_name, i)
            &&& (exists|f: usize, co: Seq<usize>, cn: Seq<usize>|
                #[trigger] flushed_dir(
                    pre.virtual_disk,
                    post.virtual_disk,
                    move_source_dir(pre, i),
                    f,
                    co,
                    cn,
                ))
            &&& (forall|dest: DirV|
                !resolves_to(
                    post.virtual_disk,
                    move_source_dir(pre, i),
                    spec_split_path(path),
                    dest,
                ))
        }
}

/// A move stopped rewriting the destination: the path resolved, but the
/// chain the destination's own "." entry records is broken.
pub open spec fn move_dest_chain_broken(
    pre: DiskInfo,
    post: DiskInfo,
    file_name: Seq<char>,
    path: Seq<char>,
) -> bool {
    exists|i: int, dest: DirV|
        {
            &&& #[trigger] first_match(pre.cur_directory@, file_name, i)
            &&& (exists|f: usize, co: Seq<usize>, cn: Seq<usize>|
                #[trigger] flushed_dir(
                    pre.virtual_disk,
                    post.virtual_disk,
                    move_source_dir(pre, i),
                    f,
                    co,
                    cn,
                ))
            &&& #[trigger] resolves_to(
                post.virtual_disk,
                move_source_dir(pre, i),
                spec_split_path(path),
                dest,
            )
            &&& dest.files.len() >= 1
            &&& (forall|c: Seq<usize>|
                !(is_chain(post.virtual_disk.fat@, c) && c[0] == dest.files[0].first_cluster))
        }
}

/// A move ran out of blocks: either flushing the current directory without
/// the entry needed more free blocks than freeing its old chain leaves, or
/// the same holds of rewriting the resolved destination with the entry
/// appended, over the disk as the first flush left it.
pub open spec fn move_no_space(
    pre: DiskInfo,
    file_name: Seq<char>,
    path: Seq<char>,
) -> bool {
    exists|i: int|
        #[trigger] first_match(pre.cur_directory@, file_name, i) && ((exists|c_old: Seq<usize>|
            {
                &&& #[trigger] is_chain(pre.virtual_disk.fat@, c_old)
                &&& c_old[0] == pre.cur_directory@.files[0].first_cluster
                &&& free_count(
                    crate::disk_info::virtual_disk::fat_freed(pre.virtual_disk.fat@, c_old),
                ) < spec_clusters_needed(spec_encode_dir(move_source_dir(pre, i)).len())
            }) || (exists|mid: VirtualDisk, dest: DirV, c_old: Seq<usize>|
            {
                &&& (exists|f: usize, co: Seq<usize>, cn: Seq<usize>|
                    #[trigger] flushed_dir(
                        pre.virtual_disk,
                        mid,
                        move_source_dir(pre, i),
                        f,
                        co,
                        cn,
                    ))
                &&& #[trigger] resolves_to(
                    mid,
                    move_source_dir(pre, i),
                    spec_split_path(path),
                    dest,
                )
                &&& dest.files.len() >= 1
                &&& #[trigger] is_chain(mid.fat@, c_old)
                &&& c_old[0] == dest.files[0].first_cluster
                &&& free_count(crate::disk_info::virtual_disk::fat_freed(mid.fat@, c_old))
                    < spec_clusters_needed(
                    spec_encode_dir(
                        (DirV {
                            name: dest.name,
                            files: dest.files.push(pre.cur_directory@.files[i]),
                        }),
                    ).len(),
                )
            }))
}

/// Check the directory layout invariant on a freshly decoded value.
fn dir_is_wf(d: &Directory) -> (r: bool)
    ensures
        r == dir_wf(d@),
{
    if d.files.len() < 2 {
        return false;
    }
    proof {
        assert(d@.files[0] == d.files@[0]@);
        assert(d@.files[1] == d.files@[1]@);
    }
    let dot: String = ".".to_owned();
    let dotdot: String = "..".to_owned();
    if !(d.files[0].name == dot) || !(d.files[1].name == dotdot) {
        return false;
    }
    if !(matches!(d.files[0].file_type, FileType::Directory)) || !(matches!(
        d.files[1].file_type,
        FileType::Directory,
    )) {
        return false;
    }
    let mut i: usize = 0;
    while i < d.files.len()
        invariant
            i <= d.files@.len(),
            forall|k: int| 0 <= k < i ==> (#[trigger] d@.files[k]).first_cluster < BLOCK_COUNT,
        decreases d.files@.len() - i,
    {
        if d.files[i].first_cluster >= BLOCK_COUNT {
            proof {
                assert(d@.files[i as int] == d.files@[i as int]@);
            }
            return false;
        }
        i = i + 1;
    }
    true
}

/// The disk manager.
pub struct DiskInfo {
    pub virtual_disk: VirtualDisk,
    pub cur_directory: Directory,
}

impl DiskInfo {
    /// Sizes and layout every operation relies on and preserves.
    pub open spec fn wf(self) -> bool {
        &&& self.virtual_disk.wf()
        &&& dir_wf(self.cur_directory@)
    }

    /// Linear scan for the lowest-numbered free block, the reserved final
    /// table slot excluded.
    pub fn find_next_empty_fat(&self) -> (r: Option<usize>)
        requires
            self.virtual_disk.wf(),
        ensures
            match r {
                Some(i) => is_first_free(self.virtual_disk.fat@, i as int),
                None => forall|j: int|
                    0 <= j < self.virtual_disk.fat@.len() - 1 ==> !(
                    #[trigger] self.virtual_disk.fat@[j] is UnUsed),
            },
    {
        let n = self.virtual_disk.fat.len();
        let mut i: usize = 0;
        while i < n - 1
            invariant
                self.virtual_disk.wf(),
                n == self.virtual_disk.fat@.len(),
                i <= n - 1,
                forall|j: int| 0 <= j < i ==> !(#[trigger] self.virtual_disk.fat@[j] is UnUsed),
            decreases n - 1 - i,
        {
            if let FatStatus::UnUsed = self.virtual_disk.fat[i] {
                return Some(i);
            }
            i = i + 1;
        }
        None
    }

    /// Claim `clusters_needed` free blocks and link them into a chain. Each
    /// claimed block is provisionally marked end-of-chain and relinked as
    /// soon as the next one is claimed, so the chain is terminated at every
    /// step. On exhaustion the blocks already claimed stay claimed: partial
    /// failure is exposed, not rolled back.
    pub fn allocate_free_space_on_fat(&mut self, clusters_needed: usize) -> (r: Result<
        Vec<usize>,
        DiskError,
    >)
        requires
            old(self).virtual_disk.wf(),
        ensures
            final(self).virtual_disk.wf(),
            final(self).virtual_disk.data@ == old(self).virtual_disk.data@,
            final(self).cur_directory == old(self).cur_directory,
            final(self).virtual_disk.fat@.len() == old(self).virtual_disk.fat@.len(),
            match r {
                Ok(c) => {
                    &&& c@.len() == clusters_needed
                    &&& c@.no_duplicates()
                    &&& forall|i: int|
                        0 <= i < c@.len() ==> (c@[i] as int) < old(self).virtual_disk.fat@.len() - 1
                            && old(self).virtual_disk.fat@[#[trigger] c@[i] as int] is UnUsed
                    &&& clusters_needed > 0 ==> is_first_free(
                        old(self).virtual_disk.fat@,
                        c@[0] as int,
                    )
                    &&& forall|i: int, j: int|
                        #![trigger c@[i], old(self).virtual_disk.fat@[j]]
                        0 <= i < c@.len() && 0 <= j < c@[i] as int && old(
                            self,
                        ).virtual_disk.fat@[j] is UnUsed ==> c@.take(i).contains(j as usize)
                    &&& forall|i: int| 0 <= i < c@.len() - 1 ==> #[trigger] c@[i] < c@[i + 1]
                    &&& forall|i: int|
                        0 <= i < c@.len() - 1 ==> final(self).virtual_disk.fat@[#[trigger] c@[i] as int]
                            == FatStatus::ClusterNo(c@[i + 1])
                    &&& clusters_needed > 0 ==> final(self).virtual_disk.fat@[c@.last() as int] is EOF
                    &&& forall|j: int|
                        0 <= j < old(self).virtual_disk.fat@.len() && !c@.contains(j as usize)
                            ==> final(self).virtual_disk.fat@[j] == old(self).virtual_disk.fat@[j]
                    &&& clusters_needed > 0 ==> is_chain(final(self).virtual_disk.fat@, c@)
                    &&& free_count(old(self).virtual_disk.fat@) >= clusters_needed
                    &&& free_count(final(self).virtual_disk.fat@) + clusters_needed == free_count(
                        old(self).virtual_disk.fat@,
                    )
                },
                Err(e) => {
                    &&& e == DiskError::NoSpace
                    &&& free_count(old(self).virtual_disk.fat@) < clusters_needed
                    &&& forall|j: int|
                        0 <= j < old(self).virtual_disk.fat@.len() - 1 ==> !(
                        #[trigger] final(self).virtual_disk.fat@[j] is UnUsed)
                    &&& forall|j: int|
                        0 <= j < old(self).virtual_disk.fat@.len() && !(old(
                            self,
                        ).virtual_disk.fat@[j] is UnUsed) ==> final(self).virtual_disk.fat@[j]
                            == old(self).virtual_disk.fat@[j]
                },
            },
    {
        let ghost fat0 = old(self).virtual_disk.fat@;
        let mut clusters: Vec<usize> = Vec::new();
        let mut i: usize = 0;
        while i < clusters_needed
            invariant
                self.virtual_disk.wf(),
                self.virtual_disk.data@ == old(self).virtual_disk.data@,
                self.cur_directory == old(self).cur_directory,
                self.virtual_disk.fat@.len() == fat0.len(),
                fat0 == old(self).virtual_disk.fat@,
                i <= clusters_needed,
                clusters@.len() == i,
                clusters@.no_duplicates(),
                forall|k: int|
                    0 <= k < i ==> (clusters@[k] as int) < fat0.len() - 1
                        && fat0[#[trigger] clusters@[k] as int] is UnUsed,
                i > 0 ==> is_first_free(fat0, clusters@[0] as int),
                forall|k: int, j: int|
                    #![trigger clusters@[k], fat0[j]]
                    0 <= k < i && 0 <= j < clusters@[k] as int && fat0[j] is UnUsed
                        ==> clusters@.take(k).contains(j as usize),
                forall|k: int|
                    0 <= k < i - 1 ==> self.virtual_disk.fat@[#[trigger] clusters@[k] as int]
                        == FatStatus::ClusterNo(clusters@[k + 1]),
                i > 0 ==> self.virtual_disk.fat@[clusters@.last() as int] is EOF,
                forall|j: int|
                    0 <= j < fat0.len() && !clusters@.contains(j as usize)
                        ==> self.virtual_disk.fat@[j] == fat0[j],
                free_count(self.virtual_disk.fat@) + i == free_count(fat0),
            decreases clusters_needed - i,
        {
            let next = match self.find_next_empty_fat() {
                Some(c) => c,
                None => {
                    proof {
                        lemma_free_upto_zero(self.virtual_disk.fat@, fat0.len() - 1);
                        assert forall|j: int|
                            0 <= j < fat0.len() && !(fat0[j] is UnUsed) implies self.virtual_disk.fat@[j]
                            == fat0[j] by {
                            if clusters@.contains(j as usize) {
                                let t = choose|t: int|
                                    0 <= t < clusters@.len() && #[trigger] clusters@[t] == j as usize;
                                assert(fat0[j] is UnUsed);
                            }
                        }
                    }
                    return Err(DiskError::NoSpace);
                },
            };
            proof {
                if clusters@.contains(next) {
                    let t = choose|t: int|
                        0 <= t < clusters@.len() && #[trigger] clusters@[t] == next;
                    assert(t < i - 1 || t == i - 1);
                    assert(!(self.virtual_disk.fat@[next as int] is UnUsed));
                }
                assert(fat0[next as int] is UnUsed);
            }
            let ghost cl_before = clusters@;
            proof {
                assert forall|j: int|
                    0 <= j < next as int && fat0[j] is UnUsed implies cl_before.contains(
                    j as usize,
                ) by {
                    if !cl_before.contains(j as usize) {
                        assert(self.virtual_disk.fat@[j] == fat0[j]);
                    }
                }
            }
            clusters.push(next);
            proof {
                assert(clusters@.take(i as int) =~= cl_before);
                assert forall|k: int, j: int|
                    #![trigger clusters@[k], fat0[j]]
                    0 <= k < i + 1 && 0 <= j < clusters@[k] as int && fat0[j] is UnUsed implies clusters@.take(
                    k,
                ).contains(j as usize) by {
                    if k < i {
                        assert(clusters@[k] == cl_before[k]);
                        assert(cl_before.take(k).contains(j as usize));
                        let t = choose|t: int|
                            0 <= t < k && #[trigger] cl_before.take(k)[t] == j as usize;
                        assert(clusters@.take(k)[t] == j as usize);
                    } else {
                        assert(clusters@[k] == next);
                        assert(cl_before.contains(j as usize));
                        let t = choose|t: int| 0 <= t < i && #[trigger] cl_before[t] == j as usize;
                        assert(clusters@.take(k)[t] == j as usize);
                    }
                }
            }
            if i != 0 {
                let prev = clusters[i - 1];
                let ghost fat_before = self.virtual_disk.fat@;
                self.virtual_disk.fat.set(prev, FatStatus::ClusterNo(next));
                proof {
                    lemma_free_upto_update(
                        fat_before,
                        self.virtual_disk.fat@,
                        prev as int,
                        fat_before.len() - 1,
                    );
                }
            }
            let ghost fat_mid = self.virtual_disk.fat@;
            self.virtual_disk.fat.set(next, FatStatus::EOF);
            proof {
                lemma_free_upto_update(
                    fat_mid,
                    self.virtual_disk.fat@,
                    next as int,
                    fat_mid.len() - 1,
                );
                assert(clusters@.drop_last() =~= cl_before);
            }
            i = i + 1;
        }
        proof {
            if clusters_needed > 0 {
                assert(forall|k: int|
                    0 <= k < clusters@.len() ==> (#[trigger] clusters@[k] as int) < fat0.len());
            }
            assert forall|i2: int|
                0 <= i2 < clusters@.len() - 1 implies #[trigger] clusters@[i2] < clusters@[i2
                + 1] by {
                if clusters@[i2 + 1] <= clusters@[i2] {
                    if clusters@[i2 + 1] == clusters@[i2] {
                        assert(false);
                    } else {
                        assert(clusters@.take(i2).contains(clusters@[i2 + 1]));
                        let t = choose|t: int|
                            0 <= t < i2 && #[trigger] clusters@.take(i2)[t] == clusters@[i2 + 1];
                        assert(clusters@[t] == clusters@[i2 + 1]);
                    }
                }
            }
        }
        Ok(clusters)
    }

    /// Follow the chain from `first_cluster` to its end-of-chain mark,
    /// collecting the blocks in order. Running into a free entry means the
    /// chain is corrupt.
    pub fn get_file_clusters(&self, first_cluster: usize) -> (r: Result<Vec<usize>, DiskError>)
        requires
            self.virtual_disk.wf(),
            first_cluster < BLOCK_COUNT,
        ensures
            match r {
                Ok(c) => {
                    &&& is_chain(self.virtual_disk.fat@, c@)
                    &&& c@[0] == first_cluster
                    &&& c@.len() >= 1
                },
                Err(e) => {
                    &&& e == DiskError::CorruptChain
                    &&& forall|c: Seq<usize>|
                        !(is_chain(self.virtual_disk.fat@, c) && c[0] == first_cluster)
                },
            },
    {
        let ghost fat = self.virtual_disk.fat@;
        let mut clusters: Vec<usize> = Vec::new();
        clusters.push(first_cluster);
        let mut cur: usize = first_cluster;
        loop
            invariant
                self.virtual_disk.wf(),
                fat == self.virtual_disk.fat@,
                link_path(fat, clusters@),
                clusters@[0] == first_cluster,
                clusters@.last() == cur,
                clusters@.len() <= BLOCK_COUNT + 1,
            decreases BLOCK_COUNT + 1 - clusters@.len(),
        {
            // A walk longer than the table must have revisited a block: the
            // links form a cycle and no terminated chain exists.
            if clusters.len() > BLOCK_COUNT {
                proof {
                    assert forall|c: Seq<usize>|
                        !(is_chain(fat, c) && c[0] == first_cluster) by {
                        if is_chain(fat, c) && c[0] == first_cluster {
                            crate::disk_info::virtual_disk::lemma_chain_no_duplicates(fat, c);
                            crate::disk_info::virtual_disk::lemma_distinct_bounded_len(
                                c,
                                BLOCK_COUNT as int,
                            );
                            crate::disk_info::virtual_disk::lemma_link_path_agree(
                                fat,
                                clusters@,
                                c,
                            );
                            assert(clusters@[c.len() - 1] == c.last());
                            assert(fat[clusters@[c.len() - 1] as int] == FatStatus::ClusterNo(
                                clusters@[c.len() as int],
                            ));
                        }
                    }
                }
                return Err(DiskError::CorruptChain);
            }
            match self.virtual_disk.fat[cur] {
                FatStatus::ClusterNo(cluster) => {
                    let ghost cl_before = clusters@;
                    clusters.push(cluster);
                    proof {
                        assert(clusters@.drop_last() =~= cl_before);
                    }
                    cur = cluster;
                },
                FatStatus::EOF => {
                    return Ok(clusters);
                },
                FatStatus::UnUsed => {
                    proof {
                        lemma_link_path_dead_end(fat, clusters@);
                    }
                    return Err(DiskError::CorruptChain);
                },
            }
        }
    }

    /// Free the whole chain from `first_cluster`: resolve it, then mark every
    /// visited entry unused. A corrupt chain is reported and nothing changes.
    pub fn delete_space_on_fat(&mut self, first_cluster: usize) -> (r: Result<
        Vec<usize>,
        DiskError,
    >)
        requires
            old(self).virtual_disk.wf(),
            first_cluster < BLOCK_COUNT,
        ensures
            final(self).virtual_disk.wf(),
            final(self).virtual_disk.data@ == old(self).virtual_disk.data@,
            final(self).cur_directory == old(self).cur_directory,
            final(self).virtual_disk.fat@.len() == old(self).virtual_disk.fat@.len(),
            match r {
                Ok(c) => {
                    &&& is_chain(old(self).virtual_disk.fat@, c@)
                    &&& c@[0] == first_cluster
                    &&& forall|j: int|
                        0 <= j < old(self).virtual_disk.fat@.len() && !c@.contains(j as usize)
                            ==> final(self).virtual_disk.fat@[j] == old(self).virtual_disk.fat@[j]
                    &&& forall|i: int|
                        0 <= i < c@.len() ==> final(self).virtual_disk.fat@[#[trigger] c@[i] as int]
                            is UnUsed
                },
                Err(e) => {
                    &&& e == DiskError::CorruptChain
                    &&& *final(self) == *old(self)
                    &&& forall|c: Seq<usize>|
                        !(is_chain(old(self).virtual_disk.fat@, c) && c[0] == first_cluster)
                },
            },
    {
        let ghost fat0 = old(self).virtual_disk.fat@;
        let clusters = match self.get_file_clusters(first_cluster) {
            Ok(c) => c,
            Err(e) => {
                return Err(e);
            },
        };
        let mut i: usize = 0;
        while i < clusters.len()
            invariant
                self.virtual_disk.wf(),
                self.virtual_disk.data@ == old(self).virtual_disk.data@,
                self.cur_directory == old(self).cur_directory,
                self.virtual_disk.fat@.len() == fat0.len(),
                i <= clusters@.len(),
                is_chain(fat0, clusters@),
                clusters@[0] == first_cluster,
                forall|j: int|
                    0 <= j < fat0.len() && !clusters@.contains(j as usize)
                        ==> self.virtual_disk.fat@[j] == fat0[j],
                forall|k: int|
                    0 <= k < i ==> self.virtual_disk.fat@[#[trigger] clusters@[k] as int] is UnUsed,
                forall|j: int|
                    0 <= j < fat0.len() ==> self.virtual_disk.fat@[j] == fat0[j]
                        || self.virtual_disk.fat@[j] is UnUsed,
            decreases clusters@.len() - i,
        {
            let c = clusters[i];
            self.virtual_disk.fat.set(c, FatStatus::UnUsed);
            i = i + 1;
        }
        Ok(clusters)
    }

    /// How many blocks a payload of the given length needs, and whether an
    /// end-of-data sentinel must be written: none when the length is an exact
    /// multiple of the block size, one otherwise.
    pub fn calc_clusters_needed_with_eof(length: usize) -> (r: (bool, usize))
        ensures
            r.0 == needs_eof(length as nat),
            r.1 == spec_clusters_needed(length as nat),
    {
        let q = length / BLOCK_SIZE;
        let rem = length % BLOCK_SIZE;
        if rem == 0 {
            (false, q)
        } else {
            (true, q + 1)
        }
    }

    /// Total capacity in bytes, blocks in use, and blocks free: one linear
    /// scan of the allocation table. The two counts always partition the
    /// table.
    pub fn get_disk_info(&self) -> (r: (usize, usize, usize))
        requires
            self.virtual_disk.wf(),
        ensures
            r.0 == BLOCK_SIZE * BLOCK_COUNT,
            r.1 == used_upto(self.virtual_disk.fat@, self.virtual_disk.fat@.len() as int),
            r.2 == free_upto(self.virtual_disk.fat@, self.virtual_disk.fat@.len() as int),
            r.1 + r.2 == BLOCK_COUNT,
    {
        let disk_size = BLOCK_SIZE * BLOCK_COUNT;
        let mut num_used: usize = 0;
        let mut num_not_used: usize = 0;
        let mut i: usize = 0;
        while i < self.virtual_disk.fat.len()
            invariant
                self.virtual_disk.wf(),
                i <= self.virtual_disk.fat@.len(),
                num_used == used_upto(self.virtual_disk.fat@, i as int),
                num_not_used == free_upto(self.virtual_disk.fat@, i as int),
                num_used + num_not_used == i,
            decreases self.virtual_disk.fat@.len() - i,
        {
            match self.virtual_disk.fat[i] {
                FatStatus::ClusterNo(_no) => {
                    num_used = num_used + 1;
                },
                FatStatus::EOF => {
                    num_used = num_used + 1;
                },
                FatStatus::UnUsed => {
                    num_not_used = num_not_used + 1;
                },
            }
            i = i + 1;
        }
        (disk_size, num_used, num_not_used)
    }

    /// Write a payload to a freshly allocated chain and return its first
    /// block. Fails with `NoSpace` exactly when fewer free blocks remain
    /// than the payload needs.
    pub fn write_data_to_disk(&mut self, data: &[u8]) -> (r: Result<usize, DiskError>)
        requires
            old(self).virtual_disk.wf(),
            data@.len() >= 1,
        ensures
            final(self).virtual_disk.wf(),
            final(self).cur_directory == old(self).cur_directory,
            final(self).virtual_disk.fat@.len() == old(self).virtual_disk.fat@.len(),
            match r {
                Ok(first) => {
                    &&& exists|c: Seq<usize>|
                        #[trigger] wrote_chain(
                            old(self).virtual_disk,
                            final(self).virtual_disk,
                            data@,
                            first,
                            c,
                        )
                    &&& free_count(old(self).virtual_disk.fat@) >= spec_clusters_needed(
                        data@.len(),
                    )
                    &&& (first as int) < old(self).virtual_disk.fat@.len() - 1
                },
                Err(e) => {
                    &&& e == DiskError::NoSpace
                    &&& free_count(old(self).virtual_disk.fat@) < spec_clusters_needed(data@.len())
                    &&& final(self).virtual_disk.data@ == old(self).virtual_disk.data@
                    &&& forall|j: int|
                        0 <= j < old(self).virtual_disk.fat@.len() && !(old(
                            self,
                        ).virtual_disk.fat@[j] is UnUsed) ==> final(self).virtual_disk.fat@[j]
                            == old(self).virtual_disk.fat@[j]
                    &&& forall|j: int|
                        0 <= j < old(self).virtual_disk.fat@.len() - 1 ==> !(
                        #[trigger] final(self).virtual_disk.fat@[j] is UnUsed)
                },
            },
    {
        let pair = Self::calc_clusters_needed_with_eof(data.len());
        let insert_eof = pair.0;
        let clusters_needed = pair.1;
        proof {
            lemma_clusters_needed_bounds(data@.len() as int);
        }
        let clusters = match self.allocate_free_space_on_fat(clusters_needed) {
            Ok(c) => c,
            Err(e) => {
                return Err(e);
            },
        };
        proof {
            lemma_distinct_bounded_len(clusters@, BLOCK_COUNT as int);
        }
        let ghost mid = self.virtual_disk;
        self.virtual_disk.write_data_by_clusters_with_eof(data, clusters.as_slice(), insert_eof);
        proof {
            assert(is_chain(self.virtual_disk.fat@, clusters@));
            if clean_tail(data@) {
                lemma_chain_round_trip(self.virtual_disk.data@, data@, clusters@, insert_eof);
            }
            assert(wrote_chain(
                old(self).virtual_disk,
                self.virtual_disk,
                data@,
                clusters@[0],
                clusters@,
            ));
        }
        Ok(clusters[0])
    }

    /// Read back the whole payload stored on the chain from `first_cluster`.
    pub fn get_data_by_first_cluster(&self, first_cluster: usize) -> (r: Result<
        Vec<u8>,
        DiskError,
    >)
        requires
            self.virtual_disk.wf(),
            first_cluster < BLOCK_COUNT,
        ensures
            match r {
                Ok(bytes) => {
                    &&& exists|c: Seq<usize>|
                        {
                            &&& #[trigger] is_chain(self.virtual_disk.fat@, c)
                            &&& c[0] == first_cluster
                            &&& bytes@ == chain_bytes(self.virtual_disk, c)
                        }
                    &&& bytes@.len() >= 1
                },
                Err(e) => {
                    &&& e == DiskError::CorruptChain
                    &&& forall|c: Seq<usize>|
                        !(is_chain(self.virtual_disk.fat@, c) && c[0] == first_cluster)
                },
            },
    {
        let clusters = match self.get_file_clusters(first_cluster) {
            Ok(c) => c,
            Err(e) => {
                return Err(e);
            },
        };
        proof {
            crate::disk_info::virtual_disk::lemma_chain_no_duplicates(
                self.virtual_disk.fat@,
                clusters@,
            );
            lemma_distinct_bounded_len(clusters@, BLOCK_COUNT as int);
        }
        let data = self.virtual_disk.read_data_by_clusters_without_eof(clusters.as_slice());
        Ok(data)
    }

    /// Load the directory stored on the chain of a directory entry. A file
    /// entry is a `WrongType` request; bytes that do not decode to a
    /// well-formed directory are a `DecodeError`.
    pub fn get_directory_by_fcb(&self, dir_fcb: &Fcb) -> (r: Result<Directory, DiskError>)
        requires
            self.virtual_disk.wf(),
            dir_fcb@.first_cluster < BLOCK_COUNT,
        ensures
            match r {
                Ok(d) => {
                    &&& dir_wf(d@)
                    &&& exists|c: Seq<usize>|
                        {
                            &&& #[trigger] is_chain(self.virtual_disk.fat@, c)
                            &&& c[0] == dir_fcb@.first_cluster
                            &&& spec_encode_dir(d@) == chain_bytes(self.virtual_disk, c)
                        }
                },
                Err(e) => (e == DiskError::WrongType && dir_fcb@.file_type is File) || e
                    == DiskError::CorruptChain || e == DiskError::DecodeError,
            },
            dir_fcb@.file_type is File ==> r == Err::<Directory, DiskError>(DiskError::WrongType),
            r == Err::<Directory, DiskError>(DiskError::CorruptChain) ==> forall|c: Seq<usize>|
                !(is_chain(self.virtual_disk.fat@, c) && c[0] == dir_fcb@.first_cluster),
            r == Err::<Directory, DiskError>(DiskError::DecodeError) ==> exists|c: Seq<usize>|
                {
                    &&& #[trigger] is_chain(self.virtual_disk.fat@, c)
                    &&& c[0] == dir_fcb@.first_cluster
                    &&& forall|dv: DirV|
                        !(chain_bytes(self.virtual_disk, c) == #[trigger] spec_encode_dir(dv)
                            && dir_wf(dv))
                },
            forall|dv: DirV, c: Seq<usize>|
                #![trigger spec_encode_dir(dv), is_chain(self.virtual_disk.fat@, c)]
                (dir_fcb@.file_type is Directory && is_chain(self.virtual_disk.fat@, c) && c[0]
                    == dir_fcb@.first_cluster && chain_bytes(self.virtual_disk, c)
                    == spec_encode_dir(dv) && dir_wf(dv)) ==> (r matches Ok(d) && d@ == dv),
    {
        match dir_fcb.file_type {
            FileType::File => {
                return Err(DiskError::WrongType);
            },
            FileType::Directory => {},
        }
        let data = match self.get_data_by_first_cluster(dir_fcb.first_cluster) {
            Ok(d) => d,
            Err(e) => {
                return Err(e);
            },
        };
        let ghost walked = choose|c: Seq<usize>|
            {
                &&& #[trigger] is_chain(self.virtual_disk.fat@, c)
                &&& c[0] == dir_fcb@.first_cluster
                &&& data@ == chain_bytes(self.virtual_disk, c)
            };
        proof {
            assert forall|dv: DirV, c: Seq<usize>|
                #![trigger spec_encode_dir(dv), is_chain(self.virtual_disk.fat@, c)]
                (is_chain(self.virtual_disk.fat@, c) && c[0] == dir_fcb@.first_cluster
                    && chain_bytes(self.virtual_disk, c) == spec_encode_dir(
                    dv,
                )) implies data@ == spec_encode_dir(dv) by {
                lemma_chain_unique(self.virtual_disk.fat@, walked, c);
            }
        }
        let dir = match decode_directory(&data) {
            Ok(d) => d,
            Err(e) => {
                proof {
                    assert forall|dv: DirV|
                        !(chain_bytes(self.virtual_disk, walked) == #[trigger] spec_encode_dir(dv)
                            && dir_wf(dv)) by {
                        if chain_bytes(self.virtual_disk, walked) == spec_encode_dir(dv) {
                            assert(data@ == spec_encode_dir(dv));
                        }
                    }
                }
                return Err(e);
            },
        };
        if !dir_is_wf(&dir) {
            proof {
                assert forall|dv: DirV|
                    !(chain_bytes(self.virtual_disk, walked) == #[trigger] spec_encode_dir(dv)
                        && dir_wf(dv)) by {
                    if chain_bytes(self.virtual_disk, walked) == spec_encode_dir(dv) && dir_wf(
                        dv,
                    ) {
                        assert(data@ == spec_encode_dir(dv));
                        assert(dir@ == dv);
                    }
                }
            }
            return Err(DiskError::DecodeError);
        }
        Ok(dir)
    }

    /// Read the payload of a file entry. A directory entry is a `WrongType`
    /// request, reported, not fatal.
    pub fn get_file_by_fcb(&self, fcb: &Fcb) -> (r: Result<Vec<u8>, DiskError>)
        requires
            self.virtual_disk.wf(),
            fcb@.first_cluster < BLOCK_COUNT,
        ensures
            fcb@.file_type is Directory ==> r == Err::<Vec<u8>, DiskError>(DiskError::WrongType),
            match r {
                Ok(bytes) => {
                    &&& fcb@.file_type is File
                    &&& exists|c: Seq<usize>|
                        {
                            &&& #[trigger] is_chain(self.virtual_disk.fat@, c)
                            &&& c[0] == fcb@.first_cluster
                            &&& bytes@ == chain_bytes(self.virtual_disk, c)
                        }
                    &&& bytes@.len() >= 1
                },
                Err(e) => (e == DiskError::WrongType && fcb@.file_type is Directory) || (e
                    == DiskError::CorruptChain && fcb@.file_type is File && (forall|c: Seq<usize>|
                    !(is_chain(self.virtual_disk.fat@, c) && c[0] == fcb@.first_cluster))),
            },
    {
        match fcb.file_type {
            FileType::File => self.get_data_by_first_cluster(fcb.first_cluster),
            FileType::Directory => Err(DiskError::WrongType),
        }
    }

    /// Create a file in the current directory: write the payload to a fresh
    /// chain and append its entry in memory. No duplicate-name check is
    /// made. Succeeds exactly when enough free blocks remain.
    pub fn create_file_with_data(&mut self, name: &str, data: &[u8]) -> (r: Result<(), DiskError>)
        requires
            old(self).virtual_disk.wf(),
            data@.len() >= 1,
        ensures
            final(self).virtual_disk.wf(),
            final(self).virtual_disk.fat@.len() == old(self).virtual_disk.fat@.len(),
            final(self).cur_directory@.name == old(self).cur_directory@.name,
            dir_wf(old(self).cur_directory@) ==> dir_wf(final(self).cur_directory@),
            r is Ok <==> free_count(old(self).virtual_disk.fat@) >= spec_clusters_needed(
                data@.len(),
            ),
            match r {
                Ok(u) => exists|first: usize, c: Seq<usize>|
                    {
                        &&& #[trigger] wrote_chain(
                            old(self).virtual_disk,
                            final(self).virtual_disk,
                            data@,
                            first,
                            c,
                        )
                        &&& final(self).cur_directory@.files == old(
                            self,
                        ).cur_directory@.files.push(
                            (FcbV {
                                name: name@,
                                file_type: FileType::File,
                                first_cluster: first,
                                length: data@.len() as usize,
                            }),
                        )
                    },
                Err(e) => {
                    &&& e == DiskError::NoSpace
                    &&& final(self).cur_directory == old(self).cur_directory
                    &&& final(self).virtual_disk.data@ == old(self).virtual_disk.data@
                },
            },
    {
        let first_cluster = match self.write_data_to_disk(data) {
            Ok(f) => f,
            Err(e) => {
                return Err(e);
            },
        };
        let ghost files_before = self.cur_directory.files@;
        let fcb = Fcb {
            name: name.to_owned(),
            file_type: FileType::File,
            first_cluster,
            length: data.len(),
        };
        self.cur_directory.files.push(fcb);
        proof {
            assert(views_of(self.cur_directory.files@) =~= views_of(files_before).push(
                (FcbV {
                    name: name@,
                    file_type: FileType::File,
                    first_cluster,
                    length: data@.len() as usize,
                }),
            ));
            let cw = choose|c: Seq<usize>|
                #[trigger] wrote_chain(
                    old(self).virtual_disk,
                    self.virtual_disk,
                    data@,
                    first_cluster,
                    c,
                );
            assert(wrote_chain(
                old(self).virtual_disk,
                self.virtual_disk,
                data@,
                first_cluster,
                cw,
            ) && self.cur_directory@.files == old(self).cur_directory@.files.push(
                (FcbV {
                    name: name@,
                    file_type: FileType::File,
                    first_cluster,
                    length: data@.len() as usize,
                }),
            ));
        }
        Ok(())
    }

    /// Read a file of the current directory by name. An absent name, a
    /// directory entry, and a corrupt chain are each reported as their own
    /// recoverable error.
    pub fn read_file_by_name(&self, name: &str) -> (r: Result<Vec<u8>, DiskError>)
        requires
            self.wf(),
        ensures
            match r {
                Ok(bytes) => {
                    &&& exists|i: int, c: Seq<usize>|
                        {
                            &&& #[trigger] first_match(self.cur_directory@, name@, i)
                            &&& self.cur_directory@.files[i].file_type is File
                            &&& #[trigger] is_chain(self.virtual_disk.fat@, c)
                            &&& c[0] == self.cur_directory@.files[i].first_cluster
                            &&& bytes@ == chain_bytes(self.virtual_disk, c)
                        }
                    &&& bytes@.len() >= 1
                },
                Err(e) => {
                    &&& (e == DiskError::NotFound || e == DiskError::WrongType || e
                        == DiskError::CorruptChain)
                    &&& (e == DiskError::NotFound <==> !dir_contains_name(
                        self.cur_directory@,
                        name@,
                    ))
                    &&& e == DiskError::WrongType ==> exists|i: int|
                        #[trigger] first_match(self.cur_directory@, name@, i)
                            && self.cur_directory@.files[i].file_type is Directory
                    &&& e == DiskError::CorruptChain ==> exists|i: int|
                        #[trigger] first_match(self.cur_directory@, name@, i)
                            && self.cur_directory@.files[i].file_type is File && (forall|
                            c: Seq<usize>,
                        |
                            !(is_chain(self.virtual_disk.fat@, c) && c[0]
                                == self.cur_directory@.files[i].first_cluster))
                },
            },
            forall|i: int|
                #[trigger] first_match(self.cur_directory@, name@, i)
                    && self.cur_directory@.files[i].file_type is File && (exists|c: Seq<usize>|
                    #[trigger] is_chain(self.virtual_disk.fat@, c) && c[0]
                        == self.cur_directory@.files[i].first_cluster) ==> r is Ok,
    {
        let pair = match self.cur_directory.get_fcb_by_name(name) {
            Some(p) => p,
            None => {
                return Err(DiskError::NotFound);
            },
        };
        let fcb = pair.1;
        proof {
            assert(self.cur_directory@.files[pair.0 as int] == fcb@);
            assert(first_match(self.cur_directory@, name@, pair.0 as int));
            assert(dir_contains_name(self.cur_directory@, name@));
        }
        let r = self.get_file_by_fcb(fcb);
        proof {
            let i = pair.0 as int;
            if r is Ok {
                let bytes = r->Ok_0;
                let c = choose|c: Seq<usize>|
                    {
                        &&& #[trigger] is_chain(self.virtual_disk.fat@, c)
                        &&& c[0] == fcb@.first_cluster
                        &&& bytes@ == chain_bytes(self.virtual_disk, c)
                    };
                assert(first_match(self.cur_directory@, name@, i) && is_chain(
                    self.virtual_disk.fat@,
                    c,
                ) && c[0] == self.cur_directory@.files[i].first_cluster && bytes@ == chain_bytes(
                    self.virtual_disk,
                    c,
                ));
            }
        }
        r
    }

    /// Flush a directory value to disk: free the chain its own "." entry
    /// records, then write its encoding to a freshly allocated chain, whose
    /// first block is returned. The old location is never updated in place.
    pub fn save_directory_to_disk(&mut self, dir: &Directory) -> (r: Result<usize, DiskError>)
        requires
            old(self).virtual_disk.wf(),
            dir_wf(dir@),
        ensures
            final(self).virtual_disk.wf(),
            final(self).virtual_disk.fat@.len() == old(self).virtual_disk.fat@.len(),
            final(self).cur_directory == old(self).cur_directory,
            match r {
                Ok(first) => exists|c_old: Seq<usize>, c_new: Seq<usize>|
                    #[trigger] flushed_dir(
                        old(self).virtual_disk,
                        final(self).virtual_disk,
                        dir@,
                        first,
                        c_old,
                        c_new,
                    ),
                Err(e) => {
                    &&& (e == DiskError::CorruptChain || e == DiskError::NoSpace)
                    &&& e == DiskError::CorruptChain ==> *final(self) == *old(self) && (forall|
                        c: Seq<usize>,
                    |
                        !(is_chain(old(self).virtual_disk.fat@, c) && c[0]
                            == dir@.files[0].first_cluster))
                    &&& e == DiskError::NoSpace ==> exists|c_old: Seq<usize>|
                        {
                            &&& #[trigger] is_chain(old(self).virtual_disk.fat@, c_old)
                            &&& c_old[0] == dir@.files[0].first_cluster
                            &&& free_count(
                                crate::disk_info::virtual_disk::fat_freed(
                                    old(self).virtual_disk.fat@,
                                    c_old,
                                ),
                            ) < spec_clusters_needed(spec_encode_dir(dir@).len())
                        }
                },
            },
    {
        let first_old = dir.files[0].first_cluster;
        let data = encode_directory(dir);
        let c_old = match self.delete_space_on_fat(first_old) {
            Ok(c) => c,
            Err(e) => {
                return Err(e);
            },
        };
        let ghost mid = self.virtual_disk;
        proof {
            assert(mid.fat@ =~= crate::disk_info::virtual_disk::fat_freed(
                old(self).virtual_disk.fat@,
                c_old@,
            ));
        }
        let first_new = match self.write_data_to_disk(data.as_slice()) {
            Ok(f) => f,
            Err(e) => {
                return Err(e);
            },
        };
        proof {
            let c_new = choose|c: Seq<usize>|
                #[trigger] wrote_chain(mid, self.virtual_disk, data@, first_new, c);
            assert forall|i: int|
                0 <= i < c_new.len() implies (#[trigger] c_new[i] as int) < old(
                self,
            ).virtual_disk.fat@.len() - 1 && (old(
                self,
            ).virtual_disk.fat@[c_new[i] as int] is UnUsed || c_old@.contains(c_new[i])) by {
                assert(mid.fat@[c_new[i] as int] is UnUsed);
                if !c_old@.contains(c_new[i]) {
                    assert(mid.fat@[c_new[i] as int] == old(self).virtual_disk.fat@[c_new[i] as int]);
                }
            }
            assert(flushed_dir(
                old(self).virtual_disk,
                self.virtual_disk,
                dir@,
                first_new,
                c_old@,
                c_new,
            ));
        }
        Ok(first_new)
    }

    /// Create a child directory in the current directory and write it to
    /// disk; the parent gains the entry in memory only, to be flushed on the
    /// next navigation. The child's "." entry records the block reserved for
    /// it before the write, which the first-fit allocator then indeed uses:
    /// the recorded and the actual first block coincide.
    pub fn new_directory_to_disk(&mut self, name: &str) -> (r: Result<(), DiskError>)
        requires
            old(self).wf(),
        ensures
            final(self).wf(),
            final(self).virtual_disk.fat@.len() == old(self).virtual_disk.fat@.len(),
            final(self).cur_directory@.name == old(self).cur_directory@.name,
            dir_contains_name(old(self).cur_directory@, name@) <==> r == Err::<(), DiskError>(
                DiskError::DuplicateName,
            ),
            r == Err::<(), DiskError>(DiskError::DuplicateName) ==> *final(self) == *old(self),
            !dir_contains_name(old(self).cur_directory@, name@) ==> (r is Ok <==> free_count(
                old(self).virtual_disk.fat@,
            ) >= spec_clusters_needed(
                spec_encode_dir(
                    child_dir_view(name@, old(self).cur_directory@.files[0].first_cluster, 0),
                ).len(),
            )),
            match r {
                Ok(u) => exists|rb: usize, c: Seq<usize>|
                    {
                        &&& #[trigger] wrote_chain(
                            old(self).virtual_disk,
                            final(self).virtual_disk,
                            spec_encode_dir(
                                child_dir_view(
                                    name@,
                                    old(self).cur_directory@.files[0].first_cluster,
                                    rb,
                                ),
                            ),
                            rb,
                            c,
                        )
                        &&& final(self).cur_directory@.files == old(
                            self,
                        ).cur_directory@.files.push(
                            (FcbV {
                                name: name@,
                                file_type: FileType::Directory,
                                first_cluster: rb,
                                length: 0,
                            }),
                        )
                    },
                Err(e) => {
                    &&& (e == DiskError::DuplicateName || e == DiskError::NoSpace)
                    &&& final(self).cur_directory == old(self).cur_directory
                },
            },
    {
        if let Some(_fcb) = self.cur_directory.get_fcb_by_name(name) {
            return Err(DiskError::DuplicateName);
        }
        let parent_first = self.cur_directory.files[0].first_cluster;
        let reserved = match self.find_next_empty_fat() {
            Some(rb) => rb,
            None => {
                proof {
                    lemma_free_upto_zero(
                        self.virtual_disk.fat@,
                        self.virtual_disk.fat@.len() - 1,
                    );
                    lemma_clusters_needed_bounds(
                        spec_encode_dir(child_dir_view(name@, parent_first, 0)).len() as int,
                    );
                }
                return Err(DiskError::NoSpace);
            },
        };
        let mut new_directory = Directory::new(name);
        new_directory.files.push(
            Fcb {
                name: ".".to_owned(),
                file_type: FileType::Directory,
                first_cluster: reserved,
                length: 0,
            },
        );
        new_directory.files.push(
            Fcb {
                name: "..".to_owned(),
                file_type: FileType::Directory,
                first_cluster: parent_first,
                length: 0,
            },
        );
        proof {
            assert(new_directory@.files =~= child_dir_view(name@, parent_first, reserved).files);
            assert(new_directory@ =~= child_dir_view(name@, parent_first, reserved));
            lemma_child_len_indep(name@, parent_first, reserved, 0);
        }
        let bin_dir = encode_directory(&new_directory);
        let first_block = match self.write_data_to_disk(bin_dir.as_slice()) {
            Ok(f) => f,
            Err(e) => {
                return Err(e);
            },
        };
        proof {
            let c = choose|c: Seq<usize>|
                #[trigger] wrote_chain(
                    old(self).virtual_disk,
                    self.virtual_disk,
                    bin_dir@,
                    first_block,
                    c,
                );
            assert(is_first_free(old(self).virtual_disk.fat@, first_block as int));
            assert(is_first_free(old(self).virtual_disk.fat@, reserved as int));
            assert(first_block == reserved) by {
                if (first_block as int) < reserved as int {
                    assert(!(old(self).virtual_disk.fat@[first_block as int] is UnUsed));
                } else if (reserved as int) < first_block as int {
                    assert(!(old(self).virtual_disk.fat@[reserved as int] is UnUsed));
                }
            }
        }
        let ghost files_before = self.cur_directory.files@;
        self.cur_directory.files.push(
            Fcb {
                name: name.to_owned(),
                file_type: FileType::Directory,
                first_cluster: first_block,
                length: 0,
            },
        );
        proof {
            assert(views_of(self.cur_directory.files@) =~= views_of(files_before).push(
                (FcbV {
                    name: name@,
                    file_type: FileType::Directory,
                    first_cluster: reserved,
                    length: 0,
                }),
            ));
            let c = choose|c: Seq<usize>|
                #[trigger] wrote_chain(
                    old(self).virtual_disk,
                    self.virtual_disk,
                    bin_dir@,
                    reserved,
                    c,
                );
            assert(wrote_chain(
                old(self).virtual_disk,
                self.virtual_disk,
                spec_encode_dir(child_dir_view(name@, parent_first, reserved)),
                reserved,
                c,
            ));
        }
        Ok(())
    }

    /// Change the current directory: flush it to a fresh chain first, then
    /// look the name up, load the named directory's chain and make it
    /// current. On any error the in-memory current directory is unchanged.
    pub fn change_current_directory(&mut self, name: &str) -> (r: Result<(), DiskError>)
        requires
            old(self).wf(),
        ensures
            final(self).wf(),
            final(self).virtual_disk.fat@.len() == old(self).virtual_disk.fat@.len(),
            match r {
                Ok(u) => {
                    &&& exists|first: usize, c_old: Seq<usize>, c_new: Seq<usize>|
                        #[trigger] flushed_dir(
                            old(self).virtual_disk,
                            final(self).virtual_disk,
                            old(self).cur_directory@,
                            first,
                            c_old,
                            c_new,
                        )
                    &&& exists|i: int, c: Seq<usize>|
                        {
                            &&& #[trigger] first_match(old(self).cur_directory@, name@, i)
                            &&& old(self).cur_directory@.files[i].file_type is Directory
                            &&& #[trigger] is_chain(final(self).virtual_disk.fat@, c)
                            &&& c[0] == old(self).cur_directory@.files[i].first_cluster
                            &&& spec_encode_dir(final(self).cur_directory@) == chain_bytes(
                                final(self).virtual_disk,
                                c,
                            )
                        }
                },
                Err(e) => {
                    &&& final(self).cur_directory == old(self).cur_directory
                    &&& (e == DiskError::NotFound || e == DiskError::WrongType || e
                        == DiskError::CorruptChain || e == DiskError::DecodeError || e
                        == DiskError::NoSpace)
                    &&& (e == DiskError::NotFound ==> !dir_contains_name(
                        old(self).cur_directory@,
                        name@,
                    ))
                    &&& (e == DiskError::WrongType ==> exists|i: int|
                        #[trigger] first_match(old(self).cur_directory@, name@, i) && old(
                            self,
                        ).cur_directory@.files[i].file_type is File)
                    &&& (e == DiskError::NoSpace ==> exists|c_old: Seq<usize>|
                        {
                            &&& #[trigger] is_chain(old(self).virtual_disk.fat@, c_old)
                            &&& c_old[0] == old(self).cur_directory@.files[0].first_cluster
                            &&& free_count(
                                crate::disk_info::virtual_disk::fat_freed(
                                    old(self).virtual_disk.fat@,
                                    c_old,
                                ),
                            ) < spec_clusters_needed(
                                spec_encode_dir(old(self).cur_directory@).len(),
                            )
                        })
                    &&& (e == DiskError::NotFound || e == DiskError::WrongType || e
                        == DiskError::DecodeError ==> exists|
                        f: usize,
                        co: Seq<usize>,
                        cn: Seq<usize>,
                    |
                        #[trigger] flushed_dir(
                            old(self).virtual_disk,
                            final(self).virtual_disk,
                            old(self).cur_directory@,
                            f,
                            co,
                            cn,
                        ))
                    &&& (e == DiskError::DecodeError ==> exists|i: int|
                        #[trigger] first_match(old(self).cur_directory@, name@, i) && old(
                            self,
                        ).cur_directory@.files[i].file_type is Directory && (exists|c: Seq<usize>|
                            {
                                &&& #[trigger] is_chain(final(self).virtual_disk.fat@, c)
                                &&& c[0] == old(self).cur_directory@.files[i].first_cluster
                                &&& forall|dv: DirV|
                                    !(chain_bytes(final(self).virtual_disk, c)
                                        == #[trigger] spec_encode_dir(dv) && dir_wf(dv))
                            }))
                    &&& (e == DiskError::CorruptChain ==> ((forall|c: Seq<usize>|
                        !(is_chain(old(self).virtual_disk.fat@, c) && c[0] == old(
                            self,
                        ).cur_directory@.files[0].first_cluster)) && final(self).virtual_disk
                        == old(self).virtual_disk) || ((exists|
                        f: usize,
                        co: Seq<usize>,
                        cn: Seq<usize>,
                    |
                        #[trigger] flushed_dir(
                            old(self).virtual_disk,
                            final(self).virtual_disk,
                            old(self).cur_directory@,
                            f,
                            co,
                            cn,
                        )) && exists|i: int|
                        #[trigger] first_match(old(self).cur_directory@, name@, i) && old(
                            self,
                        ).cur_directory@.files[i].file_type is Directory && (forall|c: Seq<usize>|
                            !(is_chain(final(self).virtual_disk.fat@, c) && c[0] == old(
                                self,
                            ).cur_directory@.files[i].first_cluster))))
                },
            },
    {
        let snapshot = self.cur_directory.clone();
        match self.save_directory_to_disk(&snapshot) {
            Ok(_first) => {},
            Err(e) => {
                return Err(e);
            },
        }
        let pair = match self.cur_directory.get_fcb_by_name(name) {
            Some(p) => p,
            None => {
                return Err(DiskError::NotFound);
            },
        };
        let ghost idx = pair.0 as int;
        let fcb = pair.1.clone();
        proof {
            assert(first_match(old(self).cur_directory@, name@, idx));
            assert(fcb@ == old(self).cur_directory@.files[idx]);
        }
        let dir = match self.get_directory_by_fcb(&fcb) {
            Ok(d) => d,
            Err(e) => {
                return Err(e);
            },
        };
        self.cur_directory = dir;
        Ok(())
    }

    /// Free an entry's chain, refusing to delete a directory that still has
    /// entries besides "." and "..". When an index is given the entry is
    /// also removed from the current directory's list.
    fn delete_file_by_fcb_with_index(&mut self, fcb: &Fcb, index: Option<usize>) -> (r: Result<
        (),
        DiskError,
    >)
        requires
            old(self).virtual_disk.wf(),
            fcb@.first_cluster < BLOCK_COUNT,
            index matches Some(i) ==> (i as int) < old(self).cur_directory@.files.len(),
        ensures
            final(self).virtual_disk.wf(),
            final(self).virtual_disk.fat@.len() == old(self).virtual_disk.fat@.len(),
            final(self).virtual_disk.data@ == old(self).virtual_disk.data@,
            final(self).cur_directory@.name == old(self).cur_directory@.name,
            match r {
                Ok(u) => {
                    &&& exists|c: Seq<usize>|
                        {
                            &&& #[trigger] is_chain(old(self).virtual_disk.fat@, c)
                            &&& c[0] == fcb@.first_cluster
                            &&& (forall|k: int|
                                0 <= k < c.len() ==> final(self).virtual_disk.fat@[#[trigger] c[k] as int]
                                    is UnUsed)
                            &&& (forall|j: int|
                                0 <= j < old(self).virtual_disk.fat@.len() && !c.contains(
                                    j as usize,
                                ) ==> final(self).virtual_disk.fat@[j] == old(
                                    self,
                                ).virtual_disk.fat@[j])
                        }
                    &&& final(self).cur_directory@.files == (match index {
                        Some(i) => old(self).cur_directory@.files.remove(i as int),
                        None => old(self).cur_directory@.files,
                    })
                },
                Err(e) => {
                    &&& final(self).cur_directory == old(self).cur_directory
                    &&& final(self).virtual_disk.fat@ == old(self).virtual_disk.fat@
                    &&& (e == DiskError::DirectoryNotEmpty || e == DiskError::CorruptChain || e
                        == DiskError::DecodeError)
                    &&& (e == DiskError::DirectoryNotEmpty ==> fcb@.file_type is Directory
                        && exists|dv: DirV, c: Seq<usize>|
                        {
                            &&& #[trigger] is_chain(old(self).virtual_disk.fat@, c)
                            &&& c[0] == fcb@.first_cluster
                            &&& chain_bytes(old(self).virtual_disk, c) == #[trigger] spec_encode_dir(
                                dv,
                            )
                            &&& dv.files.len() > 2
                        })
                },
            },
            fcb@.file_type is File && (exists|c: Seq<usize>|
                #[trigger] is_chain(old(self).virtual_disk.fat@, c) && c[0]
                    == fcb@.first_cluster) ==> r is Ok,
            fcb@.file_type is Directory && (exists|dv: DirV, c: Seq<usize>|
                {
                    &&& #[trigger] is_chain(old(self).virtual_disk.fat@, c)
                    &&& c[0] == fcb@.first_cluster
                    &&& chain_bytes(old(self).virtual_disk, c) == #[trigger] spec_encode_dir(dv)
                    &&& dir_wf(dv)
                    &&& dv.files.len() <= 2
                }) ==> r is Ok,
            fcb@.file_type is Directory && (exists|dv: DirV, c: Seq<usize>|
                {
                    &&& #[trigger] is_chain(old(self).virtual_disk.fat@, c)
                    &&& c[0] == fcb@.first_cluster
                    &&& chain_bytes(old(self).virtual_disk, c) == #[trigger] spec_encode_dir(dv)
                    &&& dir_wf(dv)
                    &&& dv.files.len() > 2
                }) ==> r == Err::<(), DiskError>(DiskError::DirectoryNotEmpty),
    {
        if let FileType::Directory = fcb.file_type {
            let dir = match self.get_directory_by_fcb(fcb) {
                Ok(d) => d,
                Err(e) => {
                    proof {
                        if e == DiskError::WrongType {
                            assert(false);
                        }
                    }
                    return Err(e);
                },
            };
            if dir.files.len() > 2 {
                return Err(DiskError::DirectoryNotEmpty);
            }
        }
        match self.delete_space_on_fat(fcb.first_cluster) {
            Ok(_c) => {},
            Err(e) => {
                return Err(e);
            },
        }
        if let Some(i) = index {
            self.cur_directory.files.remove(i);
            proof {
                assert(views_of(self.cur_directory.files@) =~= views_of(
                    old(self).cur_directory.files@,
                ).remove(i as int));
            }
        }
        Ok(())
    }

    /// Delete an entry of the current directory by name: the entry is
    /// removed optimistically, and put back (at the end of the list) when
    /// the underlying delete refuses.
    pub fn delete_file_by_name(&mut self, name: &str) -> (r: Result<(), DiskError>)
        requires
            old(self).wf(),
            name@ != "."@,
            name@ != ".."@,
        ensures
            final(self).wf(),
            final(self).virtual_disk.fat@.len() == old(self).virtual_disk.fat@.len(),
            final(self).virtual_disk.data@ == old(self).virtual_disk.data@,
            final(self).cur_directory@.name == old(self).cur_directory@.name,
            match r {
                Ok(u) => exists|i: int, c: Seq<usize>|
                    {
                        &&& #[trigger] first_match(old(self).cur_directory@, name@, i)
                        &&& final(self).cur_directory@.files == old(
                            self,
                        ).cur_directory@.files.remove(i)
                        &&& #[trigger] is_chain(old(self).virtual_disk.fat@, c)
                        &&& c[0] == old(self).cur_directory@.files[i].first_cluster
                        &&& (forall|k: int|
                            0 <= k < c.len() ==> final(self).virtual_disk.fat@[#[trigger] c[k] as int]
                                is UnUsed)
                        &&& (forall|j: int|
                            0 <= j < old(self).virtual_disk.fat@.len() && !c.contains(j as usize)
                                ==> final(self).virtual_disk.fat@[j] == old(
                                self,
                            ).virtual_disk.fat@[j])
                    },
                Err(e) => {
                    &&& (e == DiskError::NotFound <==> !dir_contains_name(
                        old(self).cur_directory@,
                        name@,
                    ))
                    &&& (e == DiskError::NotFound ==> *final(self) == *old(self))
                    &&& final(self).virtual_disk.fat@ == old(self).virtual_disk.fat@
                    &&& (e != DiskError::NotFound ==> exists|i: int|
                        {
                            &&& #[trigger] first_match(old(self).cur_directory@, name@, i)
                            &&& final(self).cur_directory@.files == old(
                                self,
                            ).cur_directory@.files.remove(i).push(old(self).cur_directory@.files[i])
                            &&& (e == DiskError::DirectoryNotEmpty ==> old(
                                self,
                            ).cur_directory@.files[i].file_type is Directory)
                        })
                },
            },
            forall|i: int|
                #[trigger] first_match(old(self).cur_directory@, name@, i) && (
                (old(self).cur_directory@.files[i].file_type is File && exists|c: Seq<usize>|
                    #[trigger] is_chain(old(self).virtual_disk.fat@, c) && c[0] == old(
                        self,
                    ).cur_directory@.files[i].first_cluster) || (old(
                    self,
                ).cur_directory@.files[i].file_type is Directory && exists|dv: DirV, c: Seq<usize>|
                    {
                        &&& #[trigger] is_chain(old(self).virtual_disk.fat@, c)
                        &&& c[0] == old(self).cur_directory@.files[i].first_cluster
                        &&& chain_bytes(old(self).virtual_disk, c) == #[trigger] spec_encode_dir(
                            dv,
                        )
                        &&& dir_wf(dv)
                        &&& dv.files.len() <= 2
                    })) ==> r is Ok,
            forall|i: int|
                #[trigger] first_match(old(self).cur_directory@, name@, i) && old(
                    self,
                ).cur_directory@.files[i].file_type is Directory && (exists|
                    dv: DirV,
                    c: Seq<usize>,
                |
                    {
                        &&& #[trigger] is_chain(old(self).virtual_disk.fat@, c)
                        &&& c[0] == old(self).cur_directory@.files[i].first_cluster
                        &&& chain_bytes(old(self).virtual_disk, c) == #[trigger] spec_encode_dir(
                            dv,
                        )
                        &&& dir_wf(dv)
                        &&& dv.files.len() > 2
                    }) ==> r == Err::<(), DiskError>(DiskError::DirectoryNotEmpty),
    {
        let index = match self.cur_directory.get_index_by_name(name) {
            Some(i) => i,
            None => {
                return Err(DiskError::NotFound);
            },
        };
        proof {
            assert(first_match(old(self).cur_directory@, name@, index as int));
            assert(dir_contains_name(old(self).cur_directory@, name@));
            assert(index >= 2) by {
                assert(old(self).cur_directory@.files[0].name == "."@);
                assert(old(self).cur_directory@.files[1].name == ".."@);
            }
        }
        let fcb: Fcb = self.cur_directory.files.remove(index);
        proof {
            assert(views_of(self.cur_directory.files@) =~= views_of(
                old(self).cur_directory.files@,
            ).remove(index as int));
            assert(fcb@ == old(self).cur_directory@.files[index as int]);
        }
        let res = self.delete_file_by_fcb_with_index(&fcb, None);
        proof {
            assert forall|i: int|
                #[trigger] first_match(old(self).cur_directory@, name@, i) implies i
                == index as int by {
                lemma_first_match_unique(old(self).cur_directory@, name@, i, index as int);
            }
        }
        match res {
            Ok(u) => {
                proof {
                    let c = choose|c: Seq<usize>|
                        {
                            &&& #[trigger] is_chain(old(self).virtual_disk.fat@, c)
                            &&& c[0] == fcb@.first_cluster
                            &&& (forall|k: int|
                                0 <= k < c.len() ==> self.virtual_disk.fat@[#[trigger] c[k] as int]
                                    is UnUsed)
                            &&& (forall|j: int|
                                0 <= j < old(self).virtual_disk.fat@.len() && !c.contains(
                                    j as usize,
                                ) ==> self.virtual_disk.fat@[j] == old(self).virtual_disk.fat@[j])
                        };
                    assert(first_match(old(self).cur_directory@, name@, index as int) && is_chain(
                        old(self).virtual_disk.fat@,
                        c,
                    ));
                }
                Ok(())
            },
            Err(e) => {
                self.cur_directory.files.push(fcb);
                proof {
                    assert(views_of(self.cur_directory.files@) =~= views_of(
                        old(self).cur_directory.files@,
                    ).remove(index as int).push(old(self).cur_directory@.files[index as int]));
                    assert(first_match(old(self).cur_directory@, name@, index as int));
                }
                Err(e)
            },
        }
    }

    /// Rename the first entry of the given name, in place and in memory
    /// only. No collision check is made against the new name.
    pub fn rename_file_by_name(&mut self, old_name: &str, new: &str) -> (r: Result<(), DiskError>)
        requires
            old(self).wf(),
            old_name@ != "."@,
            old_name@ != ".."@,
        ensures
            final(self).wf(),
            final(self).virtual_disk == old(self).virtual_disk,
            match r {
                Ok(u) => exists|i: int|
                    {
                        &&& #[trigger] first_match(old(self).cur_directory@, old_name@, i)
                        &&& final(self).cur_directory@.files == old(
                            self,
                        ).cur_directory@.files.update(
                            i,
                            (FcbV { name: new@, ..old(self).cur_directory@.files[i] }),
                        )
                        &&& final(self).cur_directory@.name == old(self).cur_directory@.name
                    },
                Err(e) => {
                    &&& e == DiskError::NotFound
                    &&& !dir_contains_name(old(self).cur_directory@, old_name@)
                    &&& *final(self) == *old(self)
                },
            },
    {
        let pair = match self.cur_directory.get_fcb_by_name(old_name) {
            Some(p) => p,
            None => {
                return Err(DiskError::NotFound);
            },
        };
        let index = pair.0;
        let new_fcb = Fcb {
            name: new.to_owned(),
            file_type: pair.1.file_type,
            first_cluster: pair.1.first_cluster,
            length: pair.1.length,
        };
        proof {
            assert(first_match(old(self).cur_directory@, old_name@, index as int));
            assert(index >= 2) by {
                assert(old(self).cur_directory@.files[0].name == "."@);
                assert(old(self).cur_directory@.files[1].name == ".."@);
            }
        }
        self.cur_directory.files.set(index, new_fcb);
        proof {
            assert(views_of(self.cur_directory.files@) =~= views_of(
                old(self).cur_directory.files@,
            ).update(
                index as int,
                (FcbV {
                    name: new@,
                    ..old(self).cur_directory@.files[index as int]
                }),
            ));
        }
        Ok(())
    }

    /// Move an entry of the current directory into another in-memory
    /// directory: remove it here, append it there.
    pub fn move_fcb_between_dirs_by_name(&mut self, name: &str, des_dir: &mut Directory) -> (r:
        Result<(), DiskError>)
        requires
            old(self).wf(),
            name@ != "."@,
            name@ != ".."@,
        ensures
            final(self).wf(),
            final(self).virtual_disk == old(self).virtual_disk,
            final(des_dir)@.name == old(des_dir)@.name,
            match r {
                Ok(u) => exists|i: int|
                    {
                        &&& #[trigger] first_match(old(self).cur_directory@, name@, i)
                        &&& final(self).cur_directory@.files == old(
                            self,
                        ).cur_directory@.files.remove(i)
                        &&& final(des_dir)@.files == old(des_dir)@.files.push(
                            old(self).cur_directory@.files[i],
                        )
                    },
                Err(e) => {
                    &&& e == DiskError::NotFound
                    &&& !dir_contains_name(old(self).cur_directory@, name@)
                    &&& *final(self) == *old(self)
                    &&& final(des_dir)@ == old(des_dir)@
                },
            },
    {
        let index = match self.cur_directory.get_index_by_name(name) {
            Some(i) => i,
            None => {
                return Err(DiskError::NotFound);
            },
        };
        proof {
            assert(first_match(old(self).cur_directory@, name@, index as int));
            assert(index >= 2) by {
                assert(old(self).cur_directory@.files[0].name == "."@);
                assert(old(self).cur_directory@.files[1].name == ".."@);
            }
        }
        let fcb = self.cur_directory.files.remove(index);
        let ghost des_before = des_dir.files@;
        des_dir.files.push(fcb);
        proof {
            assert(views_of(self.cur_directory.files@) =~= views_of(
                old(self).cur_directory.files@,
            ).remove(index as int));
            assert(views_of(des_dir.files@) =~= views_of(des_before).push(
                old(self).cur_directory@.files[index as int],
            ));
        }
        Ok(())
    }

    /// Copy a file of the current directory under a new name: its bytes are
    /// read and written again under an independent, freshly allocated chain.
    pub fn copy_file_by_name(&mut self, raw_name: &str, new_name: &str) -> (r: Result<
        (),
        DiskError,
    >)
        requires
            old(self).wf(),
        ensures
            final(self).wf(),
            final(self).virtual_disk.fat@.len() == old(self).virtual_disk.fat@.len(),
            match r {
                Ok(u) => exists|i: int, c_src: Seq<usize>, first: usize, c_new: Seq<usize>|
                    {
                        &&& #[trigger] first_match(old(self).cur_directory@, raw_name@, i)
                        &&& old(self).cur_directory@.files[i].file_type is File
                        &&& is_chain(old(self).virtual_disk.fat@, c_src)
                        &&& c_src[0] == old(self).cur_directory@.files[i].first_cluster
                        &&& #[trigger] wrote_chain(
                            old(self).virtual_disk,
                            final(self).virtual_disk,
                            chain_bytes(old(self).virtual_disk, c_src),
                            first,
                            c_new,
                        )
                        &&& final(self).cur_directory@.files == old(
                            self,
                        ).cur_directory@.files.push(
                            (FcbV {
                                name: new_name@,
                                file_type: FileType::File,
                                first_cluster: first,
                                length: chain_bytes(
                                    old(self).virtual_disk,
                                    c_src,
                                ).len() as usize,
                            }),
                        )
                    },
                Err(e) => {
                    &&& (e == DiskError::NotFound || e == DiskError::WrongType || e
                        == DiskError::CorruptChain || e == DiskError::NoSpace)
                    &&& (e == DiskError::NotFound <==> !dir_contains_name(
                        old(self).cur_directory@,
                        raw_name@,
                    ))
                    &&& (e == DiskError::WrongType ==> exists|i: int|
                        #[trigger] first_match(old(self).cur_directory@, raw_name@, i) && old(
                            self,
                        ).cur_directory@.files[i].file_type is Directory)
                    &&& (e == DiskError::CorruptChain ==> exists|i: int|
                        #[trigger] first_match(old(self).cur_directory@, raw_name@, i) && old(
                            self,
                        ).cur_directory@.files[i].file_type is File && (forall|c: Seq<usize>|
                            !(is_chain(old(self).virtual_disk.fat@, c) && c[0] == old(
                                self,
                            ).cur_directory@.files[i].first_cluster)))
                    &&& (e == DiskError::NoSpace ==> exists|i: int, c: Seq<usize>|
                        {
                            &&& #[trigger] first_match(old(self).cur_directory@, raw_name@, i)
                            &&& old(self).cur_directory@.files[i].file_type is File
                            &&& #[trigger] is_chain(old(self).virtual_disk.fat@, c)
                            &&& c[0] == old(self).cur_directory@.files[i].first_cluster
                            &&& free_count(old(self).virtual_disk.fat@) < spec_clusters_needed(
                                chain_bytes(old(self).virtual_disk, c).len(),
                            )
                        })
                    &&& final(self).cur_directory == old(self).cur_directory
                },
            },
    {
        let data = match self.read_file_by_name(raw_name) {
            Ok(d) => d,
            Err(e) => {
                return Err(e);
            },
        };
        let r = self.create_file_with_data(new_name, data.as_slice());
        match r {
            Ok(u) => {
                proof {
                    let (i, c_src) = choose|i: int, c: Seq<usize>|
                        {
                            &&& #[trigger] first_match(old(self).cur_directory@, raw_name@, i)
                            &&& old(self).cur_directory@.files[i].file_type is File
                            &&& #[trigger] is_chain(old(self).virtual_disk.fat@, c)
                            &&& c[0] == old(self).cur_directory@.files[i].first_cluster
                            &&& data@ == chain_bytes(old(self).virtual_disk, c)
                        };
                    let (first, c_new) = choose|first: usize, c: Seq<usize>|
                        {
                            &&& #[trigger] wrote_chain(
                                old(self).virtual_disk,
                                self.virtual_disk,
                                data@,
                                first,
                                c,
                            )
                            &&& self.cur_directory@.files == old(self).cur_directory@.files.push(
                                (FcbV {
                                    name: new_name@,
                                    file_type: FileType::File,
                                    first_cluster: first,
                                    length: data@.len() as usize,
                                }),
                            )
                        };
                    assert(first_match(old(self).cur_directory@, raw_name@, i) && wrote_chain(
                        old(self).virtual_disk,
                        self.virtual_disk,
                        chain_bytes(old(self).virtual_disk, c_src),
                        first,
                        c_new,
                    ));
                }
                Ok(())
            },
            Err(e) => {
                proof {
                    let (i, c_src) = choose|i: int, c: Seq<usize>|
                        {
                            &&& #[trigger] first_match(old(self).cur_directory@, raw_name@, i)
                            &&& old(self).cur_directory@.files[i].file_type is File
                            &&& #[trigger] is_chain(old(self).virtual_disk.fat@, c)
                            &&& c[0] == old(self).cur_directory@.files[i].first_cluster
                            &&& data@ == chain_bytes(old(self).virtual_disk, c)
                        };
                    assert(first_match(old(self).cur_directory@, raw_name@, i) && is_chain(
                        old(self).virtual_disk.fat@,
                        c_src,
                    ));
                }
                Err(e)
            },
        }
    }

    /// Split a path on slashes, dropping empty components.
    fn split_path(path: &str) -> (r: Vec<String>)
        ensures
            r@.map_values(|t: String| t@) == spec_split_path(path@),
    {
        let n = path.unicode_len();
        let mut parts: Vec<String> = Vec::new();
        let mut pos: usize = 0;
        proof {
            assert(path@.skip(0) =~= path@);
            assert(parts@.map_values(|t: String| t@) =~= Seq::<Seq<char>>::empty());
        }
        while pos < n
            invariant
                pos <= n,
                n == path@.len(),
                spec_split_path(path@) == parts@.map_values(|t: String| t@) + spec_split_path(
                    path@.skip(pos as int),
                ),
            decreases n - pos,
        {
            if path.get_char(pos) == '/' {
                proof {
                    assert(path@.skip(pos as int).drop_first() =~= path@.skip(pos + 1));
                }
                pos = pos + 1;
            } else {
                let mut end: usize = pos + 1;
                while end < n && path.get_char(end) != '/'
                    invariant
                        pos < end <= n,
                        n == path@.len(),
                        forall|j: int| pos <= j < end ==> path@[j] != '/',
                    decreases n - end,
                {
                    end = end + 1;
                }
                let comp = path.substring_char(pos, end).to_owned();
                let ghost parts_pre = parts@;
                parts.push(comp);
                proof {
                    let sp = path@.skip(pos as int);
                    lemma_first_sep_at(sp, end - pos);
                    assert(sp.take(end - pos) =~= path@.subrange(pos as int, end as int));
                    assert(sp.skip(end - pos) =~= path@.skip(end as int));
                    assert(spec_split_path(sp) == seq![comp@] + spec_split_path(
                        path@.skip(end as int),
                    ));
                    assert(parts@.map_values(|t: String| t@) =~= parts_pre.map_values(
                        |t: String| t@,
                    ).push(comp@));
                    assert(parts@.map_values(|t: String| t@) + spec_split_path(
                        path@.skip(end as int),
                    ) =~= parts_pre.map_values(|t: String| t@) + spec_split_path(sp));
                }
                pos = end;
            }
        }
        proof {
            assert(path@.skip(n as int) =~= Seq::<char>::empty());
            assert(parts@.map_values(|t: String| t@) =~= parts@.map_values(|t: String| t@)
                + spec_split_path(path@.skip(n as int)));
        }
        parts
    }

    /// Move an entry into the directory named by a slash-separated path of
    /// child directories, resolved from the flushed current directory. The
    /// current directory is flushed without the entry; the destination is
    /// written to a fresh chain with the entry appended, its old chain
    /// freed.
    #[verifier::loop_isolation(false)]
    pub fn movie_file_by_name(&mut self, file_name: &str, path: &str) -> (r: Result<
        (),
        DiskError,
    >)
        requires
            old(self).wf(),
            file_name@ != "."@,
            file_name@ != ".."@,
        ensures
            final(self).wf(),
            final(self).virtual_disk.fat@.len() == old(self).virtual_disk.fat@.len(),
            match r {
                Ok(u) => move_completed(*old(self), *final(self), file_name@, path@),
                Err(e) => {
                    &&& (e == DiskError::NotFound || e == DiskError::WrongType || e
                        == DiskError::CorruptChain || e == DiskError::DecodeError || e
                        == DiskError::NoSpace)
                    &&& (!dir_contains_name(old(self).cur_directory@, file_name@) ==> e
                        == DiskError::NotFound && *final(self) == *old(self))
                    &&& (final(self).cur_directory@ == old(self).cur_directory@ || exists|i: int|
                        {
                            &&& #[trigger] first_match(old(self).cur_directory@, file_name@, i)
                            &&& final(self).cur_directory@.name == old(self).cur_directory@.name
                            &&& (final(self).cur_directory@.files == old(
                                self,
                            ).cur_directory@.files.remove(i).push(old(self).cur_directory@.files[i])
                                || final(self).cur_directory@.files == old(
                                self,
                            ).cur_directory@.files.remove(i))
                        })
                    &&& (e == DiskError::NotFound && dir_contains_name(
                        old(self).cur_directory@,
                        file_name@,
                    ) ==> move_resolution_failed(*old(self), *final(self), file_name@, path@))
                    &&& (e == DiskError::WrongType || e == DiskError::DecodeError
                        ==> move_resolution_failed(*old(self), *final(self), file_name@, path@))
                    &&& (e == DiskError::CorruptChain ==> ((forall|c: Seq<usize>|
                        !(is_chain(old(self).virtual_disk.fat@, c) && c[0] == old(
                            self,
                        ).cur_directory@.files[0].first_cluster)) && final(self).virtual_disk
                        == old(self).virtual_disk) || move_resolution_failed(
                        *old(self),
                        *final(self),
                        file_name@,
                        path@,
                    ) || move_dest_chain_broken(*old(self), *final(self), file_name@, path@))
                    &&& (e == DiskError::NoSpace ==> move_no_space(
                        *old(self),
                        file_name@,
                        path@,
                    ))
                },
            },
    {
        let index = match self.cur_directory.get_index_by_name(file_name) {
            Some(i) => i,
            None => {
                return Err(DiskError::NotFound);
            },
        };
        let ghost ix = index as int;
        proof {
            assert(first_match(old(self).cur_directory@, file_name@, ix));
            assert(dir_contains_name(old(self).cur_directory@, file_name@));
            assert(index >= 2) by {
                assert(old(self).cur_directory@.files[0].name == "."@);
                assert(old(self).cur_directory@.files[1].name == ".."@);
            }
        }
        let fcb = self.cur_directory.files.remove(index);
        proof {
            assert(views_of(self.cur_directory.files@) =~= views_of(
                old(self).cur_directory.files@,
            ).remove(ix));
            assert(fcb@ == old(self).cur_directory@.files[ix]);
        }
        let ghost start_dv = move_source_dir(*old(self), ix);
        let snapshot = self.cur_directory.clone();
        proof {
            assert(snapshot@ =~= start_dv);
        }
        match self.save_directory_to_disk(&snapshot) {
            Ok(_f) => {},
            Err(e) => {
                self.cur_directory.files.push(fcb);
                proof {
                    assert(views_of(self.cur_directory.files@) =~= views_of(
                        old(self).cur_directory.files@,
                    ).remove(ix).push(old(self).cur_directory@.files[ix]));
                    if e == DiskError::NoSpace {
                        let c_old = choose|c_old: Seq<usize>|
                            {
                                &&& #[trigger] is_chain(old(self).virtual_disk.fat@, c_old)
                                &&& c_old[0] == snapshot@.files[0].first_cluster
                                &&& free_count(
                                    crate::disk_info::virtual_disk::fat_freed(
                                        old(self).virtual_disk.fat@,
                                        c_old,
                                    ),
                                ) < spec_clusters_needed(spec_encode_dir(snapshot@).len())
                            };
                        assert(first_match(old(self).cur_directory@, file_name@, ix) && is_chain(
                            old(self).virtual_disk.fat@,
                            c_old,
                        ));
                    }
                }
                return Err(e);
            },
        }
        let ghost mid_vd = self.virtual_disk;
        let ghost flush_w = choose|f: usize, co: Seq<usize>, cn: Seq<usize>|
            #[trigger] flushed_dir(old(self).virtual_disk, mid_vd, start_dv, f, co, cn);
        let parts = Self::split_path(path);
        let ghost comps = spec_split_path(path@);
        let mut cur_directory = self.cur_directory.clone();
        proof {
            assert(cur_directory@ =~= start_dv);
            assert(comps.take(0) =~= Seq::<Seq<char>>::empty());
        }
        let mut pi: usize = 0;
        while pi < parts.len()
            invariant
                self.wf(),
                dir_wf(cur_directory@),
                self.virtual_disk == mid_vd,
                views_of(self.cur_directory.files@) == views_of(
                    old(self).cur_directory.files@,
                ).remove(ix),
                self.cur_directory@.name == old(self).cur_directory@.name,
                pi <= parts@.len(),
                resolves_to(mid_vd, start_dv, comps.take(pi as int), cur_directory@),
                forall|d2: DirV|
                    #[trigger] resolves_to(mid_vd, start_dv, comps.take(pi as int), d2) ==> d2
                        == cur_directory@,
            decreases parts@.len() - pi,
        {
            proof {
                assert(parts@[pi as int]@ == comps[pi as int]);
            }
            let part = &parts[pi];
            let pair = match cur_directory.get_fcb_by_name(part.as_str()) {
                Some(p) => p,
                None => {
                    proof {
                        assert forall|dest: DirV|
                            !resolves_to(mid_vd, start_dv, comps, dest) by {
                            if resolves_to(mid_vd, start_dv, comps, dest) {
                                lemma_resolve_prefix(mid_vd, start_dv, comps, dest, pi as int);
                                let dk = choose|dk: DirV|
                                    #[trigger] resolves_to(
                                        mid_vd,
                                        start_dv,
                                        comps.take(pi as int),
                                        dk,
                                    ) && resolves_to(mid_vd, dk, comps.skip(pi as int), dest);
                                assert(dk == cur_directory@);
                                let tail = comps.skip(pi as int);
                                assert(tail[0] == comps[pi as int]);
                                let dv = choose|dv: DirV|
                                    #[trigger] resolve_step(mid_vd, dk, tail[0], dv)
                                        && resolves_to(mid_vd, dv, tail.drop_first(), dest);
                                let (i2, c2) = choose|i2: int, c2: Seq<usize>|
                                    {
                                        &&& #[trigger] first_match(
                                            cur_directory@,
                                            comps[pi as int],
                                            i2,
                                        )
                                        &&& cur_directory@.files[i2].file_type is Directory
                                        &&& #[trigger] is_chain(mid_vd.fat@, c2)
                                        &&& c2[0] == cur_directory@.files[i2].first_cluster
                                        &&& chain_bytes(mid_vd, c2) == spec_encode_dir(dv)
                                        &&& dir_wf(dv)
                                    };
                                assert(dir_contains_name(cur_directory@, comps[pi as int]));
                            }
                        }
                    }
                    self.cur_directory.files.push(fcb);
                    proof {
                        assert(views_of(self.cur_directory.files@) =~= views_of(
                            old(self).cur_directory.files@,
                        ).remove(ix).push(old(self).cur_directory@.files[ix]));
                        assert(first_match(old(self).cur_directory@, file_name@, ix)
                            && flushed_dir(
                            old(self).virtual_disk,
                            self.virtual_disk,
                            move_source_dir(*old(self), ix),
                            flush_w.0,
                            flush_w.1,
                            flush_w.2,
                        ));
                    }
                    return Err(DiskError::NotFound);
                },
            };
            let ghost step_ix = pair.0 as int;
            let dir_fcb = pair.1.clone();
            proof {
                assert(first_match(cur_directory@, comps[pi as int], step_ix));
                assert(dir_fcb@ == cur_directory@.files[step_ix]);
            }
            let next = match self.get_directory_by_fcb(&dir_fcb) {
                Ok(d) => d,
                Err(e) => {
                    proof {
                        assert forall|dest: DirV|
                            !resolves_to(mid_vd, start_dv, comps, dest) by {
                            if resolves_to(mid_vd, start_dv, comps, dest) {
                                lemma_resolve_prefix(mid_vd, start_dv, comps, dest, pi as int);
                                let dk = choose|dk: DirV|
                                    #[trigger] resolves_to(
                                        mid_vd,
                                        start_dv,
                                        comps.take(pi as int),
                                        dk,
                                    ) && resolves_to(mid_vd, dk, comps.skip(pi as int), dest);
                                assert(dk == cur_directory@);
                                let tail = comps.skip(pi as int);
                                assert(tail[0] == comps[pi as int]);
                                let dv = choose|dv: DirV|
                                    #[trigger] resolve_step(mid_vd, dk, tail[0], dv)
                                        && resolves_to(mid_vd, dv, tail.drop_first(), dest);
                                let (i2, c2) = choose|i2: int, c2: Seq<usize>|
                                    {
                                        &&& #[trigger] first_match(
                                            cur_directory@,
                                            comps[pi as int],
                                            i2,
                                        )
                                        &&& cur_directory@.files[i2].file_type is Directory
                                        &&& #[trigger] is_chain(mid_vd.fat@, c2)
                                        &&& c2[0] == cur_directory@.files[i2].first_cluster
                                        &&& chain_bytes(mid_vd, c2) == spec_encode_dir(dv)
                                        &&& dir_wf(dv)
                                    };
                                lemma_first_match_unique(
                                    cur_directory@,
                                    comps[pi as int],
                                    i2,
                                    step_ix,
                                );
                                if e == DiskError::DecodeError {
                                    let c3 = choose|c3: Seq<usize>|
                                        {
                                            &&& #[trigger] is_chain(
                                                self.virtual_disk.fat@,
                                                c3,
                                            )
                                            &&& c3[0] == dir_fcb@.first_cluster
                                            &&& forall|dv3: DirV|
                                                !(chain_bytes(self.virtual_disk, c3)
                                                    == #[trigger] spec_encode_dir(dv3) && dir_wf(
                                                    dv3,
                                                ))
                                        };
                                    lemma_chain_unique(mid_vd.fat@, c2, c3);
                                }
                            }
                        }
                    }
                    self.cur_directory.files.push(fcb);
                    proof {
                        assert(views_of(self.cur_directory.files@) =~= views_of(
                            old(self).cur_directory.files@,
                        ).remove(ix).push(old(self).cur_directory@.files[ix]));
                        assert(first_match(old(self).cur_directory@, file_name@, ix)
                            && flushed_dir(
                            old(self).virtual_disk,
                            self.virtual_disk,
                            move_source_dir(*old(self), ix),
                            flush_w.0,
                            flush_w.1,
                            flush_w.2,
                        ));
                        assert(move_resolution_failed(*old(self), *self, file_name@, path@));
                    }
                    return Err(e);
                },
            };
            proof {
                assert(!(dir_fcb@.file_type is File));
                let c_loaded = choose|c: Seq<usize>|
                    {
                        &&& #[trigger] is_chain(self.virtual_disk.fat@, c)
                        &&& c[0] == dir_fcb@.first_cluster
                        &&& spec_encode_dir(next@) == chain_bytes(self.virtual_disk, c)
                    };
                assert(first_match(cur_directory@, comps[pi as int], step_ix)
                    && cur_directory@.files[step_ix].file_type is Directory && is_chain(
                    mid_vd.fat@,
                    c_loaded,
                ) && c_loaded[0] == cur_directory@.files[step_ix].first_cluster && chain_bytes(
                    mid_vd,
                    c_loaded,
                ) == spec_encode_dir(next@) && dir_wf(next@));
                assert(resolve_step(mid_vd, cur_directory@, comps[pi as int], next@));
                lemma_resolve_snoc(mid_vd, start_dv, comps, pi as int, next@);
                assert(resolves_to(mid_vd, start_dv, comps.take(pi as int), cur_directory@)
                    && resolve_step(mid_vd, cur_directory@, comps[pi as int], next@));
                assert forall|d2: DirV|
                    #[trigger] resolves_to(mid_vd, start_dv, comps.take(pi + 1), d2) implies d2
                    == next@ by {
                    lemma_resolve_snoc(mid_vd, start_dv, comps, pi as int, d2);
                    let d1 = choose|d1: DirV|
                        #[trigger] resolves_to(mid_vd, start_dv, comps.take(pi as int), d1)
                            && resolve_step(mid_vd, d1, comps[pi as int], d2);
                    assert(d1 == cur_directory@);
                    let (i2, c2) = choose|i2: int, c2: Seq<usize>|
                        {
                            &&& #[trigger] first_match(cur_directory@, comps[pi as int], i2)
                            &&& cur_directory@.files[i2].file_type is Directory
                            &&& #[trigger] is_chain(mid_vd.fat@, c2)
                            &&& c2[0] == cur_directory@.files[i2].first_cluster
                            &&& chain_bytes(mid_vd, c2) == spec_encode_dir(d2)
                            &&& dir_wf(d2)
                        };
                    lemma_first_match_unique(cur_directory@, comps[pi as int], i2, step_ix);
                    assert(is_chain(self.virtual_disk.fat@, c2) && c2[0]
                        == dir_fcb@.first_cluster && chain_bytes(self.virtual_disk, c2)
                        == spec_encode_dir(d2) && dir_wf(d2));
                }
            }
            cur_directory = next;
            pi = pi + 1;
        }
        proof {
            assert(comps.take(comps.len() as int) =~= comps);
        }
        let ghost dest_before = cur_directory@;
        cur_directory.files.push(fcb);
        proof {
            assert(cur_directory@.files =~= dest_before.files.push(
                old(self).cur_directory@.files[ix],
            ));
            assert(cur_directory@ =~= (DirV {
                name: dest_before.name,
                files: dest_before.files.push(old(self).cur_directory@.files[ix]),
            }));
        }
        match self.save_directory_to_disk(&cur_directory) {
            Ok(_f) => {},
            Err(e) => {
                proof {
                    if e == DiskError::CorruptChain {
                        assert(resolves_to(mid_vd, start_dv, comps, dest_before));
                        assert(cur_directory@.files[0] == dest_before.files[0]);
                        assert(first_match(old(self).cur_directory@, file_name@, ix)
                            && flushed_dir(
                            old(self).virtual_disk,
                            self.virtual_disk,
                            move_source_dir(*old(self), ix),
                            flush_w.0,
                            flush_w.1,
                            flush_w.2,
                        ) && resolves_to(
                            self.virtual_disk,
                            move_source_dir(*old(self), ix),
                            spec_split_path(path@),
                            dest_before,
                        ));
                        assert(move_dest_chain_broken(*old(self), *self, file_name@, path@));
                    }
                    if e == DiskError::NoSpace {
                        let c_old = choose|c_old: Seq<usize>|
                            {
                                &&& #[trigger] is_chain(mid_vd.fat@, c_old)
                                &&& c_old[0] == cur_directory@.files[0].first_cluster
                                &&& free_count(
                                    crate::disk_info::virtual_disk::fat_freed(
                                        mid_vd.fat@,
                                        c_old,
                                    ),
                                ) < spec_clusters_needed(spec_encode_dir(cur_directory@).len())
                            };
                        assert(cur_directory@.files[0] == dest_before.files[0]);
                        assert(first_match(old(self).cur_directory@, file_name@, ix)
                            && flushed_dir(
                            old(self).virtual_disk,
                            mid_vd,
                            move_source_dir(*old(self), ix),
                            flush_w.0,
                            flush_w.1,
                            flush_w.2,
                        ) && resolves_to(
                            mid_vd,
                            move_source_dir(*old(self), ix),
                            spec_split_path(path@),
                            dest_before,
                        ) && is_chain(mid_vd.fat@, c_old));
                        assert(move_no_space(*old(self), file_name@, path@));
                    }
                }
                return Err(e);
            },
        }
        proof {
            let (f2, co2, cn2) = choose|f2: usize, co2: Seq<usize>, cn2: Seq<usize>|
                #[trigger] flushed_dir(mid_vd, self.virtual_disk, cur_directory@, f2, co2, cn2);
            assert forall|dest: DirV|
                #[trigger] resolves_to(
                    mid_vd,
                    move_source_dir(*old(self), ix),
                    spec_split_path(path@),
                    dest,
                ) implies exists|f3: usize, co3: Seq<usize>, cn3: Seq<usize>|
                #[trigger] flushed_dir(
                    mid_vd,
                    self.virtual_disk,
                    (DirV {
                        name: dest.name,
                        files: dest.files.push(old(self).cur_directory@.files[ix]),
                    }),
                    f3,
                    co3,
                    cn3,
                ) by {
                assert(dest == dest_before);
                assert((DirV {
                    name: dest.name,
                    files: dest.files.push(old(self).cur_directory@.files[ix]),
                }) =~= cur_directory@);
                assert(flushed_dir(
                    mid_vd,
                    self.virtual_disk,
                    (DirV {
                        name: dest.name,
                        files: dest.files.push(old(self).cur_directory@.files[ix]),
                    }),
                    f2,
                    co2,
                    cn2,
                ));
            }
            assert(first_match(old(self).cur_directory@, file_name@, ix) && flushed_dir(
                old(self).virtual_disk,
                mid_vd,
                move_source_dir(*old(self), ix),
                flush_w.0,
                flush_w.1,
                flush_w.2,
            ));
            assert(move_completed(*old(self), *self, file_name@, path@));
        }
        Ok(())
    }

    /// Initialize a new disk, writing the root directory (the given one, or
    /// a synthesized default) at the bootstrap offset, outside the normal
    /// allocation path, and pinning block 0 as its end-of-chain.
    pub fn new(root_dir: Option<Directory>) -> (r: DiskInfo)
        requires
            root_dir matches Some(d) ==> dir_wf(d@) && d@.files[0].first_cluster == 0
                && spec_encode_dir(d@).len() <= BLOCK_COUNT * BLOCK_SIZE,
        ensures
            r.wf(),
            r.virtual_disk.fat@[0] is EOF,
            forall|j: int| 1 <= j < BLOCK_COUNT ==> r.virtual_disk.fat@[j] is UnUsed,
            r.cur_directory@ == (match root_dir {
                Some(d) => d@,
                None => default_root_view(),
            }),
            r.virtual_disk.data@.subrange(
                0,
                spec_encode_dir(r.cur_directory@).len() as int,
            ) == spec_encode_dir(r.cur_directory@),
    {
        let mut disk = VirtualDisk::new();
        let root = match root_dir {
            Some(d) => d,
            None => {
                let mut root = Directory::new("root");
                root.files.push(
                    Fcb {
                        name: ".".to_owned(),
                        file_type: FileType::Directory,
                        first_cluster: 0,
                        length: 0,
                    },
                );
                root.files.push(
                    Fcb {
                        name: "..".to_owned(),
                        file_type: FileType::Directory,
                        first_cluster: 0,
                        length: 0,
                    },
                );
                proof {
                    assert(root@.files =~= default_root_view().files);
                    assert(root@ =~= default_root_view());
                    lemma_default_root_enc_len();
                }
                root
            },
        };
        let dir_data = encode_directory(&root);
        disk.insert_data_by_offset(dir_data.as_slice(), 0);
        disk.fat.set(0, FatStatus::EOF);
        let r = DiskInfo { virtual_disk: disk, cur_directory: root };
        proof {
            assert(r.virtual_disk.data@.subrange(0, dir_data@.len() as int) =~= dir_data@);
        }
        r
    }
}

/// The synthesized root directory's encoding fits the disk with room to
/// spare: its names are short ASCII literals.
proof fn lemma_default_root_enc_len()
    ensures
        spec_encode_dir(default_root_view()).len() <= BLOCK_COUNT * BLOCK_SIZE,
{
    vstd::bytes::lemma_auto_spec_u64_to_from_le_bytes();
    reveal_strlit("root");
    reveal_strlit(".");
    reveal_strlit("..");
    assert(vstd::utf8::is_ascii_chars("root"@));
    assert(vstd::utf8::is_ascii_chars("."@));
    assert(vstd::utf8::is_ascii_chars(".."@));
    vstd::utf8::is_ascii_chars_encode_utf8("root"@);
    vstd::utf8::is_ascii_chars_encode_utf8("."@);
    vstd::utf8::is_ascii_chars_encode_utf8(".."@);
    let f = default_root_view().files;
    assert(f.drop_last() =~= seq![f[0]]);
    assert(seq![f[0]].drop_last() =~= Seq::<FcbV>::empty());
    assert(spec_encode_fcbs(f) == spec_encode_fcbs(seq![f[0]]) + spec_encode_fcb(f[1]));
    assert(spec_encode_fcbs(seq![f[0]]) == spec_encode_fcbs(Seq::<FcbV>::empty())
        + spec_encode_fcb(f[0]));
    assert(spec_encode_dir(default_root_view()).len() == 73);
}

} // verus!
