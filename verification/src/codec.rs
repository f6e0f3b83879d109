//! The on-disk binary layout of directories.
//!
//! Every number is a little-endian `u64`; a name is its UTF-8 byte length
//! followed by its UTF-8 bytes; an entry is name, kind tag, first block,
//! length; a directory is its name, its entry count, then the entries in
//! order. Decoding is proved to be the exact inverse of encoding.

use vstd::prelude::*;

use vstd::bytes::{
    lemma_auto_spec_u64_to_from_le_bytes, spec_u64_to_le_bytes, u64_from_le_bytes, u64_to_le_bytes,
};
use vstd::string::StrSliceExecFns;
use vstd::utf8::{
    decode_utf8, encode_utf8, encode_utf8_decode_utf8, encode_utf8_valid_utf8, valid_utf8,
};

use crate::disk_info::{DirV, Directory, DiskError, Fcb, FcbV, FileType};

verus! {

/// The tag byte a kind is stored as.
pub open spec fn kind_byte(t: FileType) -> u8 {
    match t {
        FileType::File => 0u8,
        FileType::Directory => 1u8,
    }
}

/// A name on disk: its UTF-8 byte length, then its UTF-8 bytes.
pub open spec fn spec_encode_str(s: Seq<char>) -> Seq<u8> {
    spec_u64_to_le_bytes(encode_utf8(s).len() as u64) + encode_utf8(s)
}

/// One entry on disk: name, kind tag, first block, payload length.
pub open spec fn spec_encode_fcb(f: FcbV) -> Seq<u8> {
    spec_encode_str(f.name) + seq![kind_byte(f.file_type)] + spec_u64_to_le_bytes(
        f.first_cluster as u64,
    ) + spec_u64_to_le_bytes(f.length as u64)
}

/// The entry list on disk: each entry in order.
pub open spec fn spec_encode_fcbs(fs: Seq<FcbV>) -> Seq<u8>
    decreases fs.len(),
{
    if fs.len() == 0 {
        Seq::<u8>::empty()
    } else {
        spec_encode_fcbs(fs.drop_last()) + spec_encode_fcb(fs.last())
    }
}

/// A directory on disk: its name, its entry count, then its entries.
pub open spec fn spec_encode_dir(d: DirV) -> Seq<u8> {
    spec_encode_str(d.name) + spec_u64_to_le_bytes(d.files.len() as u64) + spec_encode_fcbs(d.files)
}

/// The encoding of name `t` sits at `off` in `bytes`.
pub open spec fn str_at(bytes: Seq<u8>, off: int, t: Seq<char>) -> bool {
    &&& off + spec_encode_str(t).len() <= bytes.len()
    &&& bytes.subrange(off, off + spec_encode_str(t).len()) == spec_encode_str(t)
}

/// The encoding of entry `f` sits at `off` in `bytes`.
pub open spec fn fcb_at(bytes: Seq<u8>, off: int, f: FcbV) -> bool {
    &&& off + spec_encode_fcb(f).len() <= bytes.len()
    &&& bytes.subrange(off, off + spec_encode_fcb(f).len()) == spec_encode_fcb(f)
}

/// Appending one entry to the list appends its encoding to the bytes.
pub proof fn lemma_encode_fcbs_snoc(fs: Seq<FcbV>, i: int)
    requires
        0 <= i < fs.len(),
    ensures
        spec_encode_fcbs(fs.take(i + 1)) == spec_encode_fcbs(fs.take(i)) + spec_encode_fcb(fs[i]),
{
    assert(fs.take(i + 1).drop_last() =~= fs.take(i));
    assert(fs.take(i + 1).last() == fs[i]);
}

/// Relies on `String::from_utf8`: it returns a string holding exactly the
/// given bytes when they are valid UTF-8, and reports invalid UTF-8
/// otherwise.
#[verifier::external_body]
fn string_from_utf8(bytes: Vec<u8>) -> (r: Option<String>)
    ensures
        match r {
            Some(s) => encode_utf8(s@) == bytes@,
            None => !valid_utf8(bytes@),
        },
{
    match String::from_utf8(bytes) {
        Ok(s) => Some(s),
        Err(_) => None,
    }
}

/// Append the encoding of one name.
fn encode_str_into(out: &mut Vec<u8>, s: &str)
    ensures
        final(out)@ == old(out)@ + spec_encode_str(s@),
{
    let mut nb: Vec<u8> = s.as_bytes_vec();
    let mut lenb: Vec<u8> = u64_to_le_bytes(nb.len() as u64);
    out.append(&mut lenb);
    out.append(&mut nb);
}

/// Encode a directory for storage.
pub fn encode_directory(dir: &Directory) -> (r: Vec<u8>)
    ensures
        r@ == spec_encode_dir(dir@),
        r@.len() >= 8,
{
    let mut out: Vec<u8> = Vec::new();
    encode_str_into(&mut out, dir.name.as_str());
    let mut cnt: Vec<u8> = u64_to_le_bytes(dir.files.len() as u64);
    out.append(&mut cnt);
    let ghost header = out@;
    let mut i: usize = 0;
    while i < dir.files.len()
        invariant
            i <= dir.files@.len(),
            dir@.files.len() == dir.files@.len(),
            header == spec_encode_str(dir@.name) + spec_u64_to_le_bytes(dir@.files.len() as u64),
            out@ == header + spec_encode_fcbs(dir@.files.take(i as int)),
        decreases dir.files@.len() - i,
    {
        let f = &dir.files[i];
        encode_str_into(&mut out, f.name.as_str());
        match f.file_type {
            FileType::File => out.push(0u8),
            FileType::Directory => out.push(1u8),
        }
        let mut fc: Vec<u8> = u64_to_le_bytes(f.first_cluster as u64);
        out.append(&mut fc);
        let mut ln: Vec<u8> = u64_to_le_bytes(f.length as u64);
        out.append(&mut ln);
        proof {
            lemma_encode_fcbs_snoc(dir@.files, i as int);
            assert(dir@.files[i as int] == dir.files@[i as int]@);
            assert(out@ =~= header + spec_encode_fcbs(dir@.files.take(i + 1)));
        }
        i = i + 1;
    }
    proof {
        assert(dir@.files.take(dir@.files.len() as int) =~= dir@.files);
        lemma_auto_spec_u64_to_from_le_bytes();
    }
    out
}

/// Read one little-endian `u64` at `off`.
fn take_u64(bytes: &Vec<u8>, off: usize) -> (r: Option<(u64, usize)>)
    requires
        off <= bytes@.len(),
    ensures
        match r {
            Some(p) => (p.1 as int) == off + 8 && off + 8 <= bytes@.len() && spec_u64_to_le_bytes(
                p.0,
            ) == bytes@.subrange(off as int, off + 8),
            None => bytes@.len() < off + 8,
        },
{
    proof {
        lemma_auto_spec_u64_to_from_le_bytes();
    }
    if bytes.len() - off < 8 {
        return None;
    }
    let s = &bytes.as_slice()[off..off + 8];
    let x = u64_from_le_bytes(s);
    Some((x, off + 8))
}

/// Read one name at `off`: its byte length, then its UTF-8 bytes.
fn take_str(bytes: &Vec<u8>, off: usize) -> (r: Option<(String, usize)>)
    requires
        off <= bytes@.len(),
    ensures
        match r {
            Some(p) => off <= (p.1 as int) <= bytes@.len() && spec_encode_str(p.0@)
                == bytes@.subrange(off as int, p.1 as int),
            None => true,
        },
        forall|t: Seq<char>|
            #[trigger] str_at(bytes@, off as int, t) ==> (r matches Some(p) && p.0@ == t && (
            p.1 as int) == off + spec_encode_str(t).len()),
{
    proof {
        lemma_auto_spec_u64_to_from_le_bytes();
        broadcast use encode_utf8_valid_utf8;

    }
    let lp = match take_u64(bytes, off) {
        Some(p) => p,
        None => {
            proof {
                assert forall|t: Seq<char>| !(#[trigger] str_at(bytes@, off as int, t)) by {
                    assert(spec_encode_str(t).len() >= 8);
                }
            }
            return None;
        },
    };
    let len_u = lp.0;
    let off1 = lp.1;
    if ((bytes.len() - off1) as u64) < len_u {
        proof {
            assert forall|t: Seq<char>| !(#[trigger] str_at(bytes@, off as int, t)) by {
                if str_at(bytes@, off as int, t) {
                    lemma_str_parts(bytes@, off as int, t);
                    assert(len_u == encode_utf8(t).len() as u64);
                }
            }
        }
        return None;
    }
    let l = len_u as usize;
    let sb = vstd::slice::slice_to_vec(&bytes.as_slice()[off1..off1 + l]);
    let ghost slice_bytes = sb@;
    match string_from_utf8(sb) {
        Some(s) => {
            proof {
                assert(spec_encode_str(s@) =~= bytes@.subrange(off as int, off1 + l)) by {
                    assert(encode_utf8(s@) == slice_bytes);
                    assert(encode_utf8(s@).len() == l);
                    assert(spec_u64_to_le_bytes(len_u) == bytes@.subrange(off as int, off + 8));
                    assert(slice_bytes =~= bytes@.subrange(off1 as int, off1 + l));
                }
                assert forall|t: Seq<char>| #[trigger] str_at(bytes@, off as int, t) implies (s@
                    == t && (off1 + l as int) == off + spec_encode_str(t).len()) by {
                    lemma_str_parts(bytes@, off as int, t);
                    assert(len_u == encode_utf8(t).len() as u64);
                    assert(encode_utf8(t) =~= bytes@.subrange(off + 8, off + 8 + l));
                    assert(encode_utf8(s@) == encode_utf8(t)) by {
                        assert(slice_bytes =~= bytes@.subrange(off + 8, off + 8 + l));
                    }
                    encode_utf8_decode_utf8(s@);
                    encode_utf8_decode_utf8(t);
                    assert(decode_utf8(encode_utf8(s@)) == decode_utf8(encode_utf8(t)));
                }
            }
            Some((s, off1 + l))
        },
        None => {
            proof {
                assert forall|t: Seq<char>| !(#[trigger] str_at(bytes@, off as int, t)) by {
                    if str_at(bytes@, off as int, t) {
                        lemma_str_parts(bytes@, off as int, t);
                        assert(len_u == encode_utf8(t).len() as u64);
                        assert(encode_utf8(t) =~= bytes@.subrange(off + 8, off + 8 + l));
                        assert(slice_bytes =~= bytes@.subrange(off + 8, off + 8 + l));
                        assert(encode_utf8(t) =~= slice_bytes);
                        assert(valid_utf8(slice_bytes));
                    }
                }
            }
            None
        },
    }
}

/// How the pieces of a stored name sit inside its bytes.
proof fn lemma_str_parts(bytes: Seq<u8>, off: int, t: Seq<char>)
    requires
        0 <= off,
        str_at(bytes, off, t),
    ensures
        bytes.subrange(off, off + 8) == spec_u64_to_le_bytes(encode_utf8(t).len() as u64),
        bytes.subrange(off + 8, off + 8 + encode_utf8(t).len()) == encode_utf8(t),
{
    lemma_auto_spec_u64_to_from_le_bytes();
    let enc = spec_encode_str(t);
    assert(bytes.subrange(off, off + 8) =~= enc.subrange(0, 8));
    assert(enc.subrange(0, 8) =~= spec_u64_to_le_bytes(encode_utf8(t).len() as u64));
    assert(bytes.subrange(off + 8, off + 8 + encode_utf8(t).len()) =~= enc.subrange(
        8,
        enc.len() as int,
    ));
    assert(enc.subrange(8, enc.len() as int) =~= encode_utf8(t));
}

/// Read one entry at `off`.
fn take_fcb(bytes: &Vec<u8>, off: usize) -> (r: Option<(Fcb, usize)>)
    requires
        off <= bytes@.len(),
    ensures
        match r {
            Some(p) => off <= (p.1 as int) <= bytes@.len() && spec_encode_fcb(p.0@)
                == bytes@.subrange(off as int, p.1 as int),
            None => true,
        },
        forall|f: FcbV|
            #[trigger] fcb_at(bytes@, off as int, f) ==> (r matches Some(p) && p.0@ == f && (
            p.1 as int) == off + spec_encode_fcb(f).len()),
{
    proof {
        lemma_auto_spec_u64_to_from_le_bytes();
    }
    let sp = match take_str(bytes, off) {
        Some(p) => p,
        None => {
            proof {
                assert forall|f: FcbV| !(#[trigger] fcb_at(bytes@, off as int, f)) by {
                    if fcb_at(bytes@, off as int, f) {
                        lemma_fcb_parts(bytes@, off as int, f);
                        assert(str_at(bytes@, off as int, f.name));
                    }
                }
            }
            return None;
        },
    };
    let name = sp.0;
    let off1 = sp.1;
    proof {
        assert forall|f: FcbV| #[trigger] fcb_at(bytes@, off as int, f) implies name@ == f.name
            && (off1 as int) == off + spec_encode_str(f.name).len() by {
            lemma_fcb_parts(bytes@, off as int, f);
            assert(str_at(bytes@, off as int, f.name));
        }
    }
    if bytes.len() == off1 {
        proof {
            assert forall|f: FcbV| !(#[trigger] fcb_at(bytes@, off as int, f)) by {
                if fcb_at(bytes@, off as int, f) {
                    lemma_fcb_parts(bytes@, off as int, f);
                }
            }
        }
        return None;
    }
    let tag = bytes[off1];
    let file_type = if tag == 0u8 {
        FileType::File
    } else if tag == 1u8 {
        FileType::Directory
    } else {
        proof {
            assert forall|f: FcbV| !(#[trigger] fcb_at(bytes@, off as int, f)) by {
                if fcb_at(bytes@, off as int, f) {
                    lemma_fcb_parts(bytes@, off as int, f);
                }
            }
        }
        return None;
    };
    let off2 = off1 + 1;
    let fcp = match take_u64(bytes, off2) {
        Some(p) => p,
        None => {
            proof {
                assert forall|f: FcbV| !(#[trigger] fcb_at(bytes@, off as int, f)) by {
                    if fcb_at(bytes@, off as int, f) {
                        lemma_fcb_parts(bytes@, off as int, f);
                    }
                }
            }
            return None;
        },
    };
    let lnp = match take_u64(bytes, fcp.1) {
        Some(p) => p,
        None => {
            proof {
                assert forall|f: FcbV| !(#[trigger] fcb_at(bytes@, off as int, f)) by {
                    if fcb_at(bytes@, off as int, f) {
                        lemma_fcb_parts(bytes@, off as int, f);
                    }
                }
            }
            return None;
        },
    };
    if fcp.0 > usize::MAX as u64 || lnp.0 > usize::MAX as u64 {
        proof {
            assert forall|f: FcbV| !(#[trigger] fcb_at(bytes@, off as int, f)) by {
                if fcb_at(bytes@, off as int, f) {
                    lemma_fcb_parts(bytes@, off as int, f);
                    assert(f.first_cluster as u64 <= usize::MAX as u64);
                    assert(f.length as u64 <= usize::MAX as u64);
                }
            }
        }
        return None;
    }
    let fcb = Fcb { name, file_type, first_cluster: fcp.0 as usize, length: lnp.0 as usize };
    proof {
        assert(spec_encode_fcb(fcb@) =~= bytes@.subrange(off as int, lnp.1 as int)) by {
            assert(seq![kind_byte(fcb@.file_type)] =~= bytes@.subrange(off1 as int, off1 + 1));
        }
        assert forall|f: FcbV| #[trigger] fcb_at(bytes@, off as int, f) implies fcb@ == f && (
        lnp.1 as int) == off + spec_encode_fcb(f).len() by {
            lemma_fcb_parts(bytes@, off as int, f);
            assert(fcb@ =~= f);
        }
    }
    Some((fcb, lnp.1))
}

/// Each entry takes at least one byte on disk.
proof fn lemma_encode_fcbs_len_lb(fs: Seq<FcbV>)
    ensures
        spec_encode_fcbs(fs).len() >= fs.len(),
    decreases fs.len(),
{
    lemma_auto_spec_u64_to_from_le_bytes();
    if fs.len() > 0 {
        lemma_encode_fcbs_len_lb(fs.drop_last());
        assert(spec_encode_fcb(fs.last()).len() >= 1);
    }
}

/// How the pieces of a stored directory sit inside its bytes.
proof fn lemma_dir_parts(bytes: Seq<u8>, dv: DirV)
    requires
        bytes == spec_encode_dir(dv),
    ensures
        ({
            let a = spec_encode_str(dv.name).len() as int;
            &&& str_at(bytes, 0, dv.name)
            &&& a + 8 <= bytes.len()
            &&& bytes.subrange(a, a + 8) == spec_u64_to_le_bytes(dv.files.len() as u64)
            &&& bytes.subrange(a + 8, bytes.len() as int) == spec_encode_fcbs(dv.files)
            &&& bytes.len() == a + 8 + spec_encode_fcbs(dv.files).len()
            &&& dv.files.len() <= bytes.len()
        }),
{
    lemma_auto_spec_u64_to_from_le_bytes();
    lemma_encode_fcbs_len_lb(dv.files);
    let a = spec_encode_str(dv.name).len() as int;
    assert(bytes.subrange(0, a) =~= spec_encode_str(dv.name));
    assert(bytes.subrange(a, a + 8) =~= spec_u64_to_le_bytes(dv.files.len() as u64));
    assert(bytes.subrange(a + 8, bytes.len() as int) =~= spec_encode_fcbs(dv.files));
}

/// The encoding of a prefix of the entry list is a prefix of the encoding of
/// the whole list.
proof fn lemma_encode_fcbs_prefix(fs: Seq<FcbV>, i: int)
    requires
        0 <= i <= fs.len(),
    ensures
        spec_encode_fcbs(fs.take(i)).len() <= spec_encode_fcbs(fs).len(),
        spec_encode_fcbs(fs).subrange(
            0,
            spec_encode_fcbs(fs.take(i)).len() as int,
        ) == spec_encode_fcbs(fs.take(i)),
    decreases fs.len() - i,
{
    if i == fs.len() {
        assert(fs.take(i) =~= fs);
        assert(spec_encode_fcbs(fs).subrange(0, spec_encode_fcbs(fs).len() as int) =~= spec_encode_fcbs(
            fs,
        ));
    } else {
        lemma_encode_fcbs_prefix(fs, i + 1);
        lemma_encode_fcbs_snoc(fs, i);
        let pi = spec_encode_fcbs(fs.take(i)).len() as int;
        let pj = spec_encode_fcbs(fs.take(i + 1)).len() as int;
        assert(spec_encode_fcbs(fs).subrange(0, pi) =~= spec_encode_fcbs(fs).subrange(
            0,
            pj,
        ).subrange(0, pi));
        assert(spec_encode_fcbs(fs.take(i + 1)).subrange(0, pi) =~= spec_encode_fcbs(fs.take(i)));
    }
}

/// Where entry `i` of a stored directory sits inside its bytes.
proof fn lemma_dir_fcb_at(bytes: Seq<u8>, dv: DirV, i: int, off: int)
    requires
        bytes == spec_encode_dir(dv),
        0 <= i < dv.files.len(),
        off == spec_encode_str(dv.name).len() + 8 + spec_encode_fcbs(dv.files.take(i)).len(),
    ensures
        fcb_at(bytes, off, dv.files[i]),
        off + spec_encode_fcb(dv.files[i]).len() == spec_encode_str(dv.name).len() + 8
            + spec_encode_fcbs(dv.files.take(i + 1)).len(),
{
    lemma_dir_parts(bytes, dv);
    lemma_encode_fcbs_prefix(dv.files, i);
    lemma_encode_fcbs_prefix(dv.files, i + 1);
    lemma_encode_fcbs_snoc(dv.files, i);
    let a = spec_encode_str(dv.name).len() as int;
    let region = spec_encode_fcbs(dv.files);
    let pi = spec_encode_fcbs(dv.files.take(i)).len() as int;
    let pj = spec_encode_fcbs(dv.files.take(i + 1)).len() as int;
    let flen = spec_encode_fcb(dv.files[i]).len() as int;
    assert(pj == pi + flen);
    assert(region.subrange(pi, pj) =~= region.subrange(0, pj).subrange(pi, pj));
    assert(spec_encode_fcbs(dv.files.take(i + 1)).subrange(pi, pj) =~= spec_encode_fcb(
        dv.files[i],
    ));
    assert(bytes.subrange(off, off + flen) =~= region.subrange(pi, pj));
}

/// Decode a stored directory: the exact inverse of `encode_directory`. It
/// succeeds precisely on the byte sequences some directory encodes to, and
/// returns that directory.
#[verifier::loop_isolation(false)]
pub fn decode_directory(bytes: &Vec<u8>) -> (r: Result<Directory, DiskError>)
    ensures
        match r {
            Ok(d) => bytes@ == spec_encode_dir(d@),
            Err(e) => e == DiskError::DecodeError,
        },
        forall|dv: DirV|
            bytes@ == #[trigger] spec_encode_dir(dv) ==> (r matches Ok(d) && d@ == dv),
{
    let blen = bytes.len();
    proof {
        lemma_auto_spec_u64_to_from_le_bytes();
        assert(bytes@.len() <= usize::MAX);
    }
    let np = match take_str(bytes, 0) {
        Some(p) => p,
        None => {
            proof {
                assert forall|dv: DirV| bytes@ != #[trigger] spec_encode_dir(dv) by {
                    if bytes@ == spec_encode_dir(dv) {
                        lemma_dir_parts(bytes@, dv);
                    }
                }
            }
            return Err(DiskError::DecodeError);
        },
    };
    let name = np.0;
    let off0 = np.1;
    proof {
        assert forall|dv: DirV|
            bytes@ == #[trigger] spec_encode_dir(dv) implies name@ == dv.name && (off0 as int)
            == spec_encode_str(dv.name).len() by {
            lemma_dir_parts(bytes@, dv);
        }
    }
    let cp = match take_u64(bytes, off0) {
        Some(p) => p,
        None => {
            proof {
                assert forall|dv: DirV| bytes@ != #[trigger] spec_encode_dir(dv) by {
                    if bytes@ == spec_encode_dir(dv) {
                        lemma_dir_parts(bytes@, dv);
                    }
                }
            }
            return Err(DiskError::DecodeError);
        },
    };
    let cnt = cp.0;
    let mut off = cp.1;
    proof {
        assert forall|dv: DirV|
            bytes@ == #[trigger] spec_encode_dir(dv) implies cnt == dv.files.len() as u64 by {
            lemma_dir_parts(bytes@, dv);
            assert(spec_u64_to_le_bytes(cnt) == spec_u64_to_le_bytes(dv.files.len() as u64));
        }
    }
    let mut files: Vec<Fcb> = Vec::new();
    let mut i: u64 = 0;
    while i < cnt
        invariant
            i <= cnt,
            files@.len() == i as int,
            off <= bytes@.len(),
            name@ == np.0@,
            bytes@.subrange(0, off as int) == spec_encode_str(name@) + spec_u64_to_le_bytes(cnt)
                + spec_encode_fcbs(crate::disk_info::views_of(files@)),
            forall|dv: DirV|
                bytes@ == #[trigger] spec_encode_dir(dv) ==> (name@ == dv.name && cnt
                    == dv.files.len() as u64 && i as int <= dv.files.len()
                    && crate::disk_info::views_of(files@) == dv.files.take(i as int)),
        decreases cnt - i,
    {
        let ghost files_before = files@;
        let ghost off_before = off;
        let fp = match take_fcb(bytes, off) {
            Some(p) => p,
            None => {
                proof {
                    assert forall|dv: DirV| bytes@ != #[trigger] spec_encode_dir(dv) by {
                        if bytes@ == spec_encode_dir(dv) {
                            lemma_dir_parts(bytes@, dv);
                            assert((i as int) < dv.files.len()) by {
                                assert(dv.files.len() <= bytes@.len() <= usize::MAX);
                                if i as int >= dv.files.len() {
                                    assert(i == cnt);
                                }
                            }
                            assert(bytes@.subrange(0, off as int).len() == off as int);
                            lemma_dir_fcb_at(bytes@, dv, i as int, off as int);
                        }
                    }
                }
                return Err(DiskError::DecodeError);
            },
        };
        files.push(fp.0);
        off = fp.1;
        i = i + 1;
        proof {
            assert(crate::disk_info::views_of(files@) =~= crate::disk_info::views_of(
                files_before,
            ).push(fp.0@));
            lemma_encode_fcbs_snoc(crate::disk_info::views_of(files@), i as int - 1);
            assert(crate::disk_info::views_of(files@).take(i as int - 1) =~= crate::disk_info::views_of(
                files_before,
            ));
            assert(crate::disk_info::views_of(files@).take(i as int) =~= crate::disk_info::views_of(
                files@,
            ));
            assert(bytes@.subrange(0, off as int) =~= bytes@.subrange(0, off_before as int)
                + bytes@.subrange(off_before as int, off as int));
            assert forall|dv: DirV|
                bytes@ == #[trigger] spec_encode_dir(dv) implies (name@ == dv.name && cnt
                == dv.files.len() as u64 && i as int <= dv.files.len()
                && crate::disk_info::views_of(files@) == dv.files.take(i as int)) by {
                lemma_dir_parts(bytes@, dv);
                assert(i as int - 1 < dv.files.len()) by {
                    assert(dv.files.len() <= bytes@.len() <= usize::MAX);
                    if i as int - 1 >= dv.files.len() {
                        assert(i - 1 == cnt);
                    }
                }
                assert(bytes@.subrange(0, off_before as int).len() == off_before as int);
                lemma_dir_fcb_at(bytes@, dv, i as int - 1, off_before as int);
                assert(fcb_at(bytes@, off_before as int, dv.files[i as int - 1]));
                assert(fp.0@ == dv.files[i as int - 1]);
                assert(dv.files.take(i as int).drop_last() =~= dv.files.take(i as int - 1));
                assert(crate::disk_info::views_of(files@) =~= dv.files.take(i as int));
            }
        }
    }
    if bytes.len() != off {
        proof {
            assert forall|dv: DirV| bytes@ != #[trigger] spec_encode_dir(dv) by {
                if bytes@ == spec_encode_dir(dv) {
                    lemma_dir_parts(bytes@, dv);
                    assert(dv.files.len() <= bytes@.len() <= usize::MAX);
                    assert(cnt as int == dv.files.len());
                    assert(dv.files.take(cnt as int) =~= dv.files);
                    assert(bytes@.subrange(0, off as int).len() == off as int);
                }
            }
        }
        return Err(DiskError::DecodeError);
    }
    let d = Directory { name, files };
    proof {
        assert(bytes@.subrange(0, off as int) =~= bytes@);
        assert(d@.files.len() as u64 == cnt);
        assert(spec_encode_dir(d@) == bytes@);
        assert forall|dv: DirV| bytes@ == #[trigger] spec_encode_dir(dv) implies d@ == dv by {
            lemma_dir_parts(bytes@, dv);
            assert(dv.files.len() <= bytes@.len() <= usize::MAX);
            assert(cnt as int == dv.files.len());
            assert(dv.files.take(cnt as int) =~= dv.files);
            assert(d@ =~= dv);
        }
    }
    Ok(d)
}

/// How the pieces of a stored entry sit inside its bytes: each field's
/// encoding occupies its own subrange.
proof fn lemma_fcb_parts(bytes: Seq<u8>, off: int, f: FcbV)
    requires
        0 <= off,
        fcb_at(bytes, off, f),
    ensures
        ({
            let a = spec_encode_str(f.name).len() as int;
            &&& str_at(bytes, off, f.name)
            &&& off + a + 17 == off + spec_encode_fcb(f).len()
            &&& bytes[off + a] == kind_byte(f.file_type)
            &&& bytes.subrange(off + a + 1, off + a + 9) == spec_u64_to_le_bytes(
                f.first_cluster as u64,
            )
            &&& bytes.subrange(off + a + 9, off + a + 17) == spec_u64_to_le_bytes(f.length as u64)
        }),
{
    vstd::bytes::lemma_auto_spec_u64_to_from_le_bytes();
    let enc = spec_encode_fcb(f);
    let a = spec_encode_str(f.name).len() as int;
    assert(bytes.subrange(off, off + a) =~= enc.subrange(0, a));
    assert(enc.subrange(0, a) =~= spec_encode_str(f.name));
    assert(bytes[off + a] == enc[a]);
    assert(enc[a] == kind_byte(f.file_type));
    assert(bytes.subrange(off + a + 1, off + a + 9) =~= enc.subrange(a + 1, a + 9));
    assert(enc.subrange(a + 1, a + 9) =~= spec_u64_to_le_bytes(f.first_cluster as u64));
    assert(bytes.subrange(off + a + 9, off + a + 17) =~= enc.subrange(a + 9, a + 17));
    assert(enc.subrange(a + 9, a + 17) =~= spec_u64_to_le_bytes(f.length as u64));
}

} // verus!
