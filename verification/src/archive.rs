//! Building the virtual filesystem from raw archive bytes: the archive is
//! copied once into a shared buffer, its entries are replayed in archive
//! order, and each regular-file entry becomes a file node referencing the
//! entry's byte range within that buffer — no per-file copy. Directory
//! entries may create directories explicitly; entries of other kinds are
//! ignored, since directories are implied by file paths.

use vstd::prelude::*;

use crate::buffer::SharedBuf;
use crate::error::Error;
use crate::path::path_segs;
use crate::virtfs::{files_share, seg_views, spec_insert, FileRef, Node, NodeView};

verus! {

broadcast use vstd::seq::group_seq_axioms;

/// One archive entry, as plain values: its path, its kind (0 a regular
/// file, 1 a directory, 2 anything else), and its content's offset and size
/// within the archive bytes.
pub struct ArchiveEntry {
    pub path: String,
    pub kind: u8,
    pub offset: usize,
    pub size: usize,
}

pub open spec fn entry_views(v: Seq<ArchiveEntry>) -> Seq<(Seq<char>, u8, int, int)> {
    v.map_values(|e: ArchiveEntry| (e.path@, e.kind, e.offset as int, e.size as int))
}

/// The entry listing that the archive format gives to these bytes: a
/// function of the bytes alone; `None` when they are not a well-formed
/// archive.
pub uninterp spec fn archive_listing(b: Seq<u8>) -> Option<Seq<(Seq<char>, u8, int, int)>>;

/// Relies on tar::Archive and tar::Entry: the entry listing of an in-memory
/// sequential archive — per entry its path bytes, whether it is a regular
/// file or a directory, its content offset within the archive bytes
/// (raw_file_position) and its size — is a function of the archive bytes
/// alone, and reading a malformed archive reports an error.
#[verifier::external_body]
fn tar_listing(bytes: &Vec<u8>) -> (r: Result<Vec<ArchiveEntry>, Error>)
    ensures
        match r {
            Result::Ok(v) => archive_listing(bytes@) == Option::Some(entry_views(v@)),
            Result::Err(e) => archive_listing(bytes@) is None && e is InstantiationFailed,
        },
{
    let mut v = Vec::new();
    let mut ar = tar::Archive::new(bytes.as_slice());
    let entries = ar.entries().or(Err(Error::InstantiationFailed))?;
    for entry in entries {
        let entry = entry.or(Err(Error::InstantiationFailed))?;
        let path = String::from_utf8_lossy(&entry.path_bytes()).into_owned();
        let t = entry.header().entry_type();
        let kind = if t.is_file() { 0u8 } else if t.is_dir() { 1u8 } else { 2u8 };
        v.push(ArchiveEntry { path, kind, offset: entry.raw_file_position() as usize, size: entry.size() as usize });
    }
    Ok(v)
}

/// Replaying one entry against the tree: a regular file is inserted as a
/// file node over the shared bytes `b` (its path must have a segment and
/// its range must lie within `b`), a directory entry creates a directory
/// (one for the root is a no-op), any other kind is skipped.
pub open spec fn spec_replay_one(t: NodeView, e: (Seq<char>, u8, int, int), b: Seq<u8>) -> Option<
    NodeView,
> {
    let segs = path_segs(e.0);
    if e.1 == 0u8 {
        if segs.len() > 0 && 0 <= e.2 && 0 <= e.3 && e.2 + e.3 <= b.len() {
            spec_insert(t, segs, NodeView::File { buf: b, offset: e.2, len: e.3 })
        } else {
            Option::None
        }
    } else if e.1 == 1u8 {
        if segs.len() == 0 {
            Option::Some(t)
        } else {
            spec_insert(t, segs, NodeView::Directory(Map::empty()))
        }
    } else {
        Option::Some(t)
    }
}

/// Replaying a listing in order; the first failing entry fails the build.
pub open spec fn spec_replay(
    t: NodeView,
    es: Seq<(Seq<char>, u8, int, int)>,
    b: Seq<u8>,
) -> Option<NodeView>
    decreases es.len(),
{
    if es.len() == 0 {
        Option::Some(t)
    } else {
        match spec_replay_one(t, es[0], b) {
            Option::None => Option::None,
            Option::Some(t2) => spec_replay(t2, es.drop_first(), b),
        }
    }
}

/// The tree that the archive bytes denote: their listing replayed against
/// an empty root.
pub open spec fn spec_build(b: Seq<u8>) -> Option<NodeView> {
    match archive_listing(b) {
        Option::None => Option::None,
        Option::Some(es) => spec_replay(
            NodeView::Directory(Map::<Seq<char>, NodeView>::empty()),
            es,
            b,
        ),
    }
}

/// Insertion preserves the zero-copy sharing property: if every file of the
/// tree and of the inserted node references `b`, so does every file of the
/// result.
pub proof fn lemma_insert_files_share(t: NodeView, path: Seq<Seq<char>>, nv: NodeView, b: Seq<u8>)
    requires
        files_share(t, b),
        files_share(nv, b),
        spec_insert(t, path, nv) is Some,
    ensures
        files_share(spec_insert(t, path, nv)->0, b),
    decreases path.len(),
{
    match t {
        NodeView::File { .. } => {},
        NodeView::Directory(m) => {
            let name = path[0];
            if path.len() == 1 {
                let r = spec_insert(t, path, nv)->0;
                if m.dom().contains(name) && m[name] is Directory && nv is Directory {
                } else {
                    assert(r == NodeView::Directory(m.insert(name, nv)));
                    assert forall|n: Seq<char>|
                        m.insert(name, nv).dom().contains(n) implies files_share(
                        #[trigger] m.insert(name, nv)[n],
                        b,
                    ) by {
                        if n == name {
                        } else {
                            assert(m.dom().contains(n));
                            assert(files_share(m[n], b));
                        }
                    }
                }
            } else {
                let child = if m.dom().contains(name) {
                    m[name]
                } else {
                    NodeView::Directory(Map::<Seq<char>, NodeView>::empty())
                };
                assert(files_share(child, b));
                lemma_insert_files_share(child, path.drop_first(), nv, b);
                let c = spec_insert(child, path.drop_first(), nv)->0;
                assert forall|n: Seq<char>|
                    m.insert(name, c).dom().contains(n) implies files_share(
                    #[trigger] m.insert(name, c)[n],
                    b,
                ) by {
                    if n == name {
                    } else {
                        assert(m.dom().contains(n));
                        assert(files_share(m[n], b));
                    }
                }
            }
        },
    }
}

/// Builds the virtual filesystem tree from raw archive bytes: the archive's
/// listing replayed against an empty root over one shared copy of the
/// bytes. A malformed archive, a file entry without a path segment or with
/// a range outside the bytes, or a path collision fails the construction.
pub fn build_tree(archive: &Vec<u8>) -> (r: Result<Node, Error>)
    ensures
        match r {
            Result::Ok(t) => spec_build(archive@) == Option::Some(t.nview()) && t.wf()
                && files_share(t.nview(), archive@),
            Result::Err(e) => spec_build(archive@) is None && e is InstantiationFailed,
        },
{
    let ghost ab = archive@;
    let entries = match tar_listing(archive) {
        Result::Ok(v) => v,
        Result::Err(e) => {
            return Result::Err(e);
        },
    };
    let shared = SharedBuf::new(vstd::slice::slice_to_vec(archive.as_slice()));
    let slen = shared.len();
    let mut root = Node::empty_directory();
    let ghost all = entry_views(entries@);
    let mut idx: usize = 0;
    proof {
        assert(all.skip(0) =~= all);
    }
    while idx < entries.len()
        invariant
            idx <= entries@.len(),
            ab == archive@,
            shared@ == ab,
            slen == ab.len(),
            archive_listing(ab) == Option::Some(entry_views(entries@)),
            all == entry_views(entries@),
            root.wf(),
            files_share(root.nview(), ab),
            spec_replay(root.nview(), all.skip(idx as int), ab) == spec_replay(
                NodeView::Directory(Map::<Seq<char>, NodeView>::empty()),
                all,
                ab,
            ),
        decreases entries@.len() - idx,
    {
        let ghost ev = all[idx as int];
        let ghost old_root = root.nview();
        proof {
            assert(ev == (entries@[idx as int].path@, entries@[idx as int].kind, entries@[idx as int].offset as int, entries@[idx as int].size as int));
            assert(all.skip(idx as int)[0] == ev);
            assert(all.skip(idx as int).drop_first() =~= all.skip(idx + 1));
        }
        let kind = entries[idx].kind;
        if kind == 0u8 {
            let segs = crate::path::split_path(entries[idx].path.as_str());
            if segs.len() == 0 {
                proof {
                    assert(path_segs(ev.0).len() == 0);
                    assert(spec_replay_one(old_root, ev, ab) is None);
                    assert(spec_replay(root.nview(), all.skip(idx as int), ab) is None);
                }
                return Result::Err(Error::InstantiationFailed);
            }
            let off = entries[idx].offset;
            let sz = entries[idx].size;
            if !(off <= slen && sz <= slen - off) {
                proof {
                    assert(ev.2 + ev.3 > ab.len());
                    assert(spec_replay_one(old_root, ev, ab) is None);
                    assert(spec_replay(root.nview(), all.skip(idx as int), ab) is None);
                }
                return Result::Err(Error::InstantiationFailed);
            }
            proof {
                assert(path_segs(ev.0).len() > 0);
            }
            let node = Node::File(FileRef { buf: shared.share(), offset: off, len: sz });
            proof {
                assert(node.wf());
                assert(seg_views(segs@).skip(0) =~= path_segs(ev.0));
                assert(files_share(node.nview(), ab));
            }
            root = match root.insert_at(&segs, 0, node) {
                Result::Ok(t) => {
                    proof {
                        lemma_insert_files_share(
                            old_root,
                            path_segs(ev.0),
                            NodeView::File { buf: ab, offset: off as int, len: sz as int },
                            ab,
                        );
                    }
                    t
                },
                Result::Err(e) => {
                    proof {
                        assert(spec_replay_one(old_root, ev, ab) is None);
                    }
                    return Result::Err(e);
                },
            };
        } else if kind == 1u8 {
            let segs = crate::path::split_path(entries[idx].path.as_str());
            if segs.len() > 0 {
                let node = Node::Directory(Vec::new());
                proof {
                    assert(node.wf());
                    assert(node.nview() =~= NodeView::Directory(
                        Map::<Seq<char>, NodeView>::empty(),
                    ));
                    assert(seg_views(segs@).skip(0) =~= path_segs(ev.0));
                    assert(files_share(node.nview(), ab));
                }
                root = match root.insert_at(&segs, 0, node) {
                    Result::Ok(t) => {
                        proof {
                            lemma_insert_files_share(
                                old_root,
                                path_segs(ev.0),
                                NodeView::Directory(Map::<Seq<char>, NodeView>::empty()),
                                ab,
                            );
                        }
                        t
                    },
                    Result::Err(e) => {
                        proof {
                            assert(spec_replay_one(old_root, ev, ab) is None);
                        }
                        return Result::Err(e);
                    },
                };
            }
        }
        idx = idx + 1;
    }
    proof {
        assert(all.skip(entries@.len() as int) =~= Seq::<(Seq<char>, u8, int, int)>::empty());
    }
    Result::Ok(root)
}

} // verus!
