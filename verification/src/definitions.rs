//! An in-memory example file tree and its depth-first listing.

use vstd::prelude::*;

use vstd::string::StringExecFns;

use crate::disk_info::FileType;

verus! {

/// A node of the example tree: a plain file, or a directory owning its
/// children.
pub enum FileNode {
    File { name: String },
    Directory { name: String, files: Vec<FileNode> },
}

/// The prefix a directory's children are listed under: "/" below the root,
/// otherwise the directory's own path closed with a slash.
pub open spec fn spec_child_prefix(prefix: Seq<char>, name: Seq<char>) -> Seq<char> {
    if prefix.len() == 0 {
        "/"@
    } else {
        prefix + name + "/"@
    }
}

/// The depth-first listing of a tree: the node itself under the given
/// prefix, then, for a directory, every child in order under the extended
/// prefix.
pub open spec fn spec_entries(node: FileNode, prefix: Seq<char>) -> Seq<(Seq<char>, FileType)>
    decreases node,
{
    match node {
        FileNode::File { name } => seq![(prefix + name@, FileType::File)],
        FileNode::Directory { name, files } => seq![(prefix + name@, FileType::Directory)]
            + spec_entries_from(files@, spec_child_prefix(prefix, name@), 0),
    }
}

/// The listing of the children from index `i` on.
pub open spec fn spec_entries_from(
    nodes: Seq<FileNode>,
    prefix: Seq<char>,
    i: int,
) -> Seq<(Seq<char>, FileType)>
    decreases nodes, nodes.len() - i,
{
    if i < 0 || i >= nodes.len() {
        Seq::<(Seq<char>, FileType)>::empty()
    } else {
        spec_entries(nodes[i], prefix) + spec_entries_from(nodes, prefix, i + 1)
    }
}

/// The path-and-kind values of a produced listing.
pub open spec fn entry_views(entries: Seq<(String, FileType)>) -> Seq<(Seq<char>, FileType)> {
    entries.map_values(|p: (String, FileType)| (p.0@, p.1))
}

impl FileNode {
    /// List the whole tree depth first as (path, kind) pairs, ready for a
    /// renderer to print.
    pub fn list_all_files(&self, prefix: String) -> (r: Vec<(String, FileType)>)
        ensures
            entry_views(r@) == spec_entries(*self, prefix@),
        decreases *self,
    {
        let mut out: Vec<(String, FileType)> = Vec::new();
        match self {
            FileNode::File { name } => {
                let full = prefix.concat(name.as_str());
                out.push((full, FileType::File));
                proof {
                    assert(entry_views(out@) =~= spec_entries(*self, prefix@));
                }
            },
            FileNode::Directory { name, files } => {
                let full = prefix.clone().concat(name.as_str());
                out.push((full, FileType::Directory));
                let child_prefix: String = if prefix.as_str().is_empty() {
                    "/".to_owned()
                } else {
                    prefix.concat(name.as_str()).concat("/")
                };
                proof {
                    assert(child_prefix@ == spec_child_prefix(prefix@, name@));
                    assert(entry_views(out@) =~= seq![(prefix@ + name@, FileType::Directory)]);
                }
                let mut i: usize = 0;
                while i < files.len()
                    invariant
                        i <= files@.len(),
                        child_prefix@ == spec_child_prefix(prefix@, name@),
                        *self == (FileNode::Directory { name: *name, files: *files }),
                        entry_views(out@) + spec_entries_from(files@, child_prefix@, i as int)
                            == spec_entries(*self, prefix@),
                    decreases files@.len() - i,
                {
                    proof {
                        assert(decreases_to!(*self => files@[i as int]));
                    }
                    let mut sub = files[i].list_all_files(child_prefix.clone());
                    let ghost out_before = out@;
                    let ghost sub_view = sub@;
                    out.append(&mut sub);
                    proof {
                        assert(entry_views(out@) =~= entry_views(out_before) + entry_views(
                            sub_view,
                        ));
                        assert(entry_views(out@) + spec_entries_from(
                            files@,
                            child_prefix@,
                            i + 1,
                        ) =~= (entry_views(out_before) + spec_entries_from(
                            files@,
                            child_prefix@,
                            i as int,
                        )));
                    }
                    i = i + 1;
                }
            },
        }
        out
    }
}

} // verus!
