//! The virtual filesystem tree: a recursive structure of Directory and File
//! nodes built by replaying archive entries against one shared buffer. The
//! tree is built once, is immutable afterwards, and is exposed read-only to
//! the sandboxed workload as its root.

use vstd::prelude::*;

use crate::buffer::SharedBuf;
use crate::error::Error;
use crate::path::path_segs;

verus! {

broadcast use vstd::seq::group_seq_axioms, vstd::map::group_map_axioms;

/// The mathematical model of a node: a directory is a mapping from names to
/// child nodes (names unique, order irrelevant), a file is a byte range into
/// a shared buffer.
pub enum NodeView {
    Directory(Map<Seq<char>, NodeView>),
    File { buf: Seq<u8>, offset: int, len: int },
}

/// The bytes of a file node.
pub open spec fn file_content(t: NodeView) -> Seq<u8> {
    match t {
        NodeView::File { buf, offset, len } => buf.subrange(offset, offset + len),
        NodeView::Directory(_) => Seq::empty(),
    }
}

/// Every file node of `t` references the same underlying byte region `b`:
/// the zero-copy sharing property of a tree built from one archive.
pub open spec fn files_share(t: NodeView, b: Seq<u8>) -> bool
    decreases t,
{
    match t {
        NodeView::File { buf, .. } => buf == b,
        NodeView::Directory(m) => forall|n: Seq<char>|
            m.dom().contains(n) ==> files_share(#[trigger] m[n], b),
    }
}

/// Lookup of a path below `t`: the empty path returns `t` itself, one
/// segment steps into a directory, a missing name or a step into a file is
/// "not found".
pub open spec fn spec_lookup(t: NodeView, path: Seq<Seq<char>>) -> Option<NodeView>
    decreases path.len(),
{
    if path.len() == 0 {
        Option::Some(t)
    } else {
        match t {
            NodeView::Directory(m) => if m.dom().contains(path[0]) {
                spec_lookup(m[path[0]], path.drop_first())
            } else {
                Option::None
            },
            NodeView::File { .. } => Option::None,
        }
    }
}

/// Insertion of a node at a nonempty path below `t`. Every non-terminal
/// segment must name an existing directory or nothing (a directory is then
/// created); a file in such a position is a construction error (`None`). At
/// the terminal segment a file overwrites a previous file, a directory is
/// kept if one is already there, and a collision between a file and a
/// directory is an error.
pub open spec fn spec_insert(t: NodeView, path: Seq<Seq<char>>, nv: NodeView) -> Option<NodeView>
    decreases path.len(),
{
    match t {
        NodeView::File { .. } => Option::None,
        NodeView::Directory(m) => {
            if path.len() == 0 {
                Option::None
            } else {
                let name = path[0];
                if path.len() == 1 {
                    if m.dom().contains(name) && m[name] is Directory {
                        if nv is Directory {
                            Option::Some(t)
                        } else {
                            Option::None
                        }
                    } else if m.dom().contains(name) && nv is Directory {
                        Option::None
                    } else {
                        Option::Some(NodeView::Directory(m.insert(name, nv)))
                    }
                } else {
                    let child = if m.dom().contains(name) {
                        m[name]
                    } else {
                        NodeView::Directory(Map::empty())
                    };
                    match spec_insert(child, path.drop_first(), nv) {
                        Option::Some(c) => Option::Some(
                            NodeView::Directory(m.insert(name, c)),
                        ),
                        Option::None => Option::None,
                    }
                }
            }
        },
    }
}

/// A file node: a byte range into a shared buffer, with no per-file copy.
pub struct FileRef {
    pub buf: SharedBuf,
    pub offset: usize,
    pub len: usize,
}

/// A node of the virtual filesystem tree.
pub enum Node {
    Directory(Vec<(String, Node)>),
    File(FileRef),
}

/// The name views of a directory's entry list.
pub open spec fn seg_views(segs: Seq<String>) -> Seq<Seq<char>> {
    segs.map_values(|s: String| s@)
}

/// Names are pairwise distinct within one directory's entry list.
pub open spec fn unique_names(entries: Seq<(String, Node)>) -> bool {
    forall|i: int, j: int|
        0 <= i < j < entries.len() ==> (#[trigger] entries[i]).0@ != (#[trigger] entries[j]).0@
}

impl Node {
    /// The model of this node.
    pub open spec fn nview(self) -> NodeView
        decreases self,
    {
        match self {
            Node::Directory(entries) => NodeView::Directory(Node::dir_view(entries@)),
            Node::File(f) => NodeView::File {
                buf: f.buf@,
                offset: f.offset as int,
                len: f.len as int,
            },
        }
    }

    /// The mapping that an entry list denotes; a repeated name takes its
    /// last occurrence.
    pub open spec fn dir_view(entries: Seq<(String, Node)>) -> Map<Seq<char>, NodeView>
        decreases entries,
    {
        if entries.len() == 0 {
            Map::empty()
        } else {
            Node::dir_view(entries.drop_last()).insert(
                entries.last().0@,
                entries.last().1.nview(),
            )
        }
    }

    /// Structural well-formedness: unique names in every directory, and
    /// every file range within its buffer.
    pub open spec fn wf(self) -> bool
        decreases self,
    {
        match self {
            Node::Directory(entries) => unique_names(entries@) && forall|i: int|
                0 <= i < entries@.len() ==> (#[trigger] entries@[i]).1.wf(),
            Node::File(f) => f.offset + f.len <= f.buf@.len(),
        }
    }
}

/// A name is in the denoted mapping exactly when some entry carries it.
pub proof fn lemma_dir_view_contains(entries: Seq<(String, Node)>, n: Seq<char>)
    ensures
        Node::dir_view(entries).dom().contains(n) <==> exists|j: int|
            0 <= j < entries.len() && (#[trigger] entries[j]).0@ == n,
    decreases entries.len(),
{
    if entries.len() > 0 {
        lemma_dir_view_contains(entries.drop_last(), n);
        if entries.last().0@ == n {
            assert(entries[entries.len() - 1].0@ == n);
        } else {
            if exists|j: int| 0 <= j < entries.len() && (#[trigger] entries[j]).0@ == n {
                let j = choose|j: int| 0 <= j < entries.len() && (#[trigger] entries[j]).0@ == n;
                assert(entries.drop_last()[j].0@ == n);
            }
        }
    }
}

/// With unique names, the denoted mapping sends each entry's name to that
/// entry's node.
pub proof fn lemma_dir_view_at(entries: Seq<(String, Node)>, j: int)
    requires
        unique_names(entries),
        0 <= j < entries.len(),
    ensures
        Node::dir_view(entries).dom().contains(entries[j].0@),
        Node::dir_view(entries)[entries[j].0@] == entries[j].1.nview(),
    decreases entries.len(),
{
    lemma_dir_view_contains(entries, entries[j].0@);
    if j < entries.len() - 1 {
        assert(unique_names(entries.drop_last()));
        assert(entries.drop_last()[j] == entries[j]);
        lemma_dir_view_at(entries.drop_last(), j);
        assert(entries[j].0@ != entries.last().0@);
    }
}

/// With unique names, removing entry `j` removes exactly its name from the
/// denoted mapping.
pub proof fn lemma_dir_view_remove(entries: Seq<(String, Node)>, j: int)
    requires
        unique_names(entries),
        0 <= j < entries.len(),
    ensures
        unique_names(entries.remove(j)),
        Node::dir_view(entries.remove(j)) == Node::dir_view(entries).remove(entries[j].0@),
    decreases entries.len(),
{
    let n = entries[j].0@;
    assert forall|a: int, b: int| 0 <= a < b < entries.remove(j).len() implies (#[trigger] entries
        .remove(j)[a]).0@ != (#[trigger] entries.remove(j)[b]).0@ by {
        let a0 = if a < j {
            a
        } else {
            a + 1
        };
        let b0 = if b < j {
            b
        } else {
            b + 1
        };
        assert(entries.remove(j)[a] == entries[a0]);
        assert(entries.remove(j)[b] == entries[b0]);
    }
    if j == entries.len() - 1 {
        assert(entries.remove(j) =~= entries.drop_last());
        lemma_dir_view_contains(entries.drop_last(), n);
        assert forall|a: int| 0 <= a < entries.drop_last().len() implies (#[trigger] entries
            .drop_last()[a]).0@ != n by {
            assert(entries.drop_last()[a] == entries[a]);
        }
        assert(!Node::dir_view(entries.drop_last()).dom().contains(n));
        assert(Node::dir_view(entries.drop_last()) =~= Node::dir_view(entries).remove(n));
    } else {
        let m = entries.last().0@;
        assert(entries[entries.len() - 1].0@ == m);
        assert(n != m);
        assert(entries.remove(j).drop_last() =~= entries.drop_last().remove(j));
        assert(entries.remove(j).last() == entries.last());
        assert(unique_names(entries.drop_last())) by {
            assert forall|a: int, b: int| 0 <= a < b < entries.drop_last().len() implies (
            #[trigger] entries.drop_last()[a]).0@ != (#[trigger] entries.drop_last()[b]).0@ by {
                assert(entries.drop_last()[a] == entries[a]);
                assert(entries.drop_last()[b] == entries[b]);
            }
        }
        assert(entries.drop_last()[j] == entries[j]);
        lemma_dir_view_remove(entries.drop_last(), j);
        assert(Node::dir_view(entries.remove(j)) == Node::dir_view(
            entries.drop_last(),
        ).remove(n).insert(m, entries.last().1.nview()));
        assert(Node::dir_view(entries.drop_last()).remove(n).insert(m, entries.last().1.nview())
            =~= Node::dir_view(entries).remove(n));
    }
}

/// Appending an entry denotes insertion into the mapping, and keeps names
/// unique when the name is fresh.
pub proof fn lemma_dir_view_push(entries: Seq<(String, Node)>, p: (String, Node))
    ensures
        Node::dir_view(entries.push(p)) == Node::dir_view(entries).insert(p.0@, p.1.nview()),
        unique_names(entries) && (forall|a: int|
            0 <= a < entries.len() ==> (#[trigger] entries[a]).0@ != p.0@) ==> unique_names(
            entries.push(p),
        ),
{
    assert(entries.push(p).drop_last() =~= entries);
    assert(entries.push(p).last() == p);
    if unique_names(entries) && (forall|a: int|
        0 <= a < entries.len() ==> (#[trigger] entries[a]).0@ != p.0@) {
        assert forall|a: int, b: int| 0 <= a < b < entries.push(p).len() implies (#[trigger] entries
            .push(p)[a]).0@ != (#[trigger] entries.push(p)[b]).0@ by {
            if b < entries.len() {
                assert(entries.push(p)[a] == entries[a]);
                assert(entries.push(p)[b] == entries[b]);
            } else {
                assert(entries.push(p)[a] == entries[a]);
                assert(entries.push(p)[b] == p);
            }
        }
    }
}

/// Finds the entry carrying `name`, if any.
fn find_entry(entries: &Vec<(String, Node)>, name: &String) -> (r: Option<usize>)
    ensures
        match r {
            Option::Some(j) => j < entries@.len() && entries@[j as int].0@ == name@,
            Option::None => forall|j: int|
                0 <= j < entries@.len() ==> (#[trigger] entries@[j]).0@ != name@,
        },
{
    let mut j: usize = 0;
    while j < entries.len()
        invariant
            j <= entries@.len(),
            forall|a: int| 0 <= a < j ==> (#[trigger] entries@[a]).0@ != name@,
        decreases entries@.len() - j,
    {
        if entries[j].0 == *name {
            return Option::Some(j);
        }
        j = j + 1;
    }
    Option::None
}

impl Node {
    /// An empty root directory.
    pub fn empty_directory() -> (r: Node)
        ensures
            r.nview() == NodeView::Directory(Map::<Seq<char>, NodeView>::empty()),
            r.wf(),
    {
        let r = Node::Directory(Vec::new());
        proof {
            assert(r.nview() =~= NodeView::Directory(Map::<Seq<char>, NodeView>::empty()));
        }
        r
    }

    pub fn is_directory(&self) -> (r: bool)
        ensures
            r == (self.nview() is Directory),
    {
        match self {
            Node::Directory(_) => true,
            Node::File(_) => false,
        }
    }

    /// Inserts `node` at the path `segs[i..]` below this node, walking and
    /// creating directories for the non-terminal segments.
    pub fn insert_at(self, segs: &Vec<String>, i: usize, node: Node) -> (r: Result<Node, Error>)
        requires
            i < segs@.len(),
            self.wf(),
            node.wf(),
        ensures
            match r {
                Result::Ok(t) => Option::Some(t.nview()) == spec_insert(
                    self.nview(),
                    seg_views(segs@).skip(i as int),
                    node.nview(),
                ) && t.wf(),
                Result::Err(e) => spec_insert(
                    self.nview(),
                    seg_views(segs@).skip(i as int),
                    node.nview(),
                ) is None && e is InstantiationFailed,
            },
        decreases segs@.len() - i,
    {
        let ghost path = seg_views(segs@).skip(i as int);
        let total = segs.len();
        proof {
            assert(path.len() == segs@.len() - i);
            assert(path[0] == segs@[i as int]@);
        }
        match self {
            Node::File(_) => Result::Err(Error::InstantiationFailed),
            Node::Directory(mut entries) => {
                let ghost m = Node::dir_view(entries@);
                let name = &segs[i];
                let found = find_entry(&entries, name);
                proof {
                    lemma_dir_view_contains(entries@, name@);
                    if found is Some {
                        lemma_dir_view_at(entries@, found->0 as int);
                    }
                }
                if i + 1 == total {
                    proof {
                        assert(path.len() == 1);
                    }
                    match found {
                        Option::Some(j) => {
                            let existing_is_dir = entries[j].1.is_directory();
                            if existing_is_dir {
                                if node.is_directory() {
                                    Result::Ok(Node::Directory(entries))
                                } else {
                                    Result::Err(Error::InstantiationFailed)
                                }
                            } else if node.is_directory() {
                                Result::Err(Error::InstantiationFailed)
                            } else {
                                proof {
                                    lemma_dir_view_remove(entries@, j as int);
                                }
                                let _ = entries.remove(j);
                                let nm = name.clone();
                                proof {
                                    lemma_dir_view_push(entries@, (nm, node));
                                    assert(m.remove(name@).insert(name@, node.nview()) =~= m.insert(
                                        name@,
                                        node.nview(),
                                    ));
                                    assert forall|a: int|
                                        0 <= a < entries@.len() implies (#[trigger] entries@[a]).0@
                                        != name@ by {}
                                }
                                entries.push((nm, node));
                                Result::Ok(Node::Directory(entries))
                            }
                        },
                        Option::None => {
                            let nm = name.clone();
                            proof {
                                lemma_dir_view_push(entries@, (nm, node));
                            }
                            entries.push((nm, node));
                            Result::Ok(Node::Directory(entries))
                        },
                    }
                } else {
                    proof {
                        assert(path.len() > 1);
                        assert(path.drop_first() =~= seg_views(segs@).skip(i + 1));
                    }
                    match found {
                        Option::Some(j) => {
                            proof {
                                lemma_dir_view_remove(entries@, j as int);
                            }
                            let (nm, child) = entries.remove(j);
                            match child.insert_at(segs, i + 1, node) {
                                Result::Ok(c) => {
                                    proof {
                                        lemma_dir_view_push(entries@, (nm, c));
                                        assert(m.remove(nm@).insert(nm@, c.nview()) =~= m.insert(
                                            nm@,
                                            c.nview(),
                                        ));
                                        assert forall|a: int|
                                            0 <= a < entries@.len() implies (
                                        #[trigger] entries@[a]).0@ != nm@ by {}
                                    }
                                    entries.push((nm, c));
                                    Result::Ok(Node::Directory(entries))
                                },
                                Result::Err(e) => Result::Err(e),
                            }
                        },
                        Option::None => {
                            let fresh = Node::Directory(Vec::new());
                            proof {
                                assert(fresh.nview() =~= NodeView::Directory(
                                    Map::<Seq<char>, NodeView>::empty(),
                                ));
                            }
                            match fresh.insert_at(segs, i + 1, node) {
                                Result::Ok(c) => {
                                    let nm = name.clone();
                                    proof {
                                        lemma_dir_view_push(entries@, (nm, c));
                                    }
                                    entries.push((nm, c));
                                    Result::Ok(Node::Directory(entries))
                                },
                                Result::Err(e) => Result::Err(e),
                            }
                        },
                    }
                }
            },
        }
    }

    /// Walks the path `segs[i..]` below this node.
    pub fn lookup_segs<'a>(&'a self, segs: &Vec<String>, i: usize) -> (r: Option<&'a Node>)
        requires
            i <= segs@.len(),
            self.wf(),
        ensures
            match r {
                Option::Some(node) => spec_lookup(self.nview(), seg_views(segs@).skip(i as int))
                    == Option::Some(node.nview()) && node.wf(),
                Option::None => spec_lookup(
                    self.nview(),
                    seg_views(segs@).skip(i as int),
                ) is None,
            },
        decreases segs@.len() - i,
    {
        let ghost path = seg_views(segs@).skip(i as int);
        if i == segs.len() {
            proof {
                assert(path.len() == 0);
            }
            return Option::Some(self);
        }
        proof {
            assert(path.len() > 0);
            assert(path[0] == segs@[i as int]@);
            assert(path.drop_first() =~= seg_views(segs@).skip(i + 1));
        }
        match self {
            Node::File(_) => Option::None,
            Node::Directory(entries) => {
                let name = &segs[i];
                let found = find_entry(entries, name);
                proof {
                    lemma_dir_view_contains(entries@, name@);
                }
                match found {
                    Option::Some(j) => {
                        proof {
                            lemma_dir_view_at(entries@, j as int);
                        }
                        let pair = &entries[j];
                        pair.1.lookup_segs(segs, i + 1)
                    },
                    Option::None => Option::None,
                }
            },
        }
    }

    /// Looks up a `/`-separated path below this node; the empty path names
    /// this node itself.
    pub fn lookup<'a>(&'a self, path: &str) -> (r: Option<&'a Node>)
        requires
            self.wf(),
        ensures
            match r {
                Option::Some(node) => spec_lookup(self.nview(), path_segs(path@))
                    == Option::Some(node.nview()) && node.wf(),
                Option::None => spec_lookup(self.nview(), path_segs(path@)) is None,
            },
    {
        let segs = crate::path::split_path(path);
        proof {
            assert(seg_views(segs@).skip(0) =~= path_segs(path@));
        }
        self.lookup_segs(&segs, 0)
    }

    /// Positional read: fills as much of `dest` as the content past `offset`
    /// provides, returns how many bytes were written; 0 signals
    /// end-of-content.
    pub fn read_at(&self, dest: &mut Vec<u8>, offset: usize) -> (n: usize)
        requires
            self.wf(),
            self.nview() is File,
        ensures
            n <= old(dest)@.len(),
            offset < file_content(self.nview()).len() ==> n == vstd::math::min(
                old(dest)@.len() as int,
                file_content(self.nview()).len() - offset,
            ),
            offset >= file_content(self.nview()).len() ==> n == 0 && final(dest)@ == old(
                dest,
            )@,
            offset <= file_content(self.nview()).len() ==> final(dest)@ == file_content(
                self.nview(),
            ).subrange(offset as int, offset + n).add(old(dest)@.skip(n as int)),
    {
        match self {
            Node::Directory(_) => {
                proof {
                    assert(false);
                }
                0
            },
            Node::File(f) => {
                let avail = if offset < f.len {
                    f.len - offset
                } else {
                    proof {
                        if offset <= file_content(self.nview()).len() {
                            assert(dest@ =~= file_content(self.nview()).subrange(
                                offset as int,
                                offset as int,
                            ).add(dest@.skip(0)));
                        }
                    }
                    return 0;
                };
                let n = if dest.len() < avail {
                    dest.len()
                } else {
                    avail
                };
                let buflen = f.buf.len();
                let mut k: usize = 0;
                while k < n
                    invariant
                        n <= old(dest)@.len(),
                        k <= n,
                        offset + n <= f.len,
                        f.offset + f.len <= buflen,
                        buflen == f.buf@.len(),
                        dest@.len() == old(dest)@.len(),
                        forall|a: int| 0 <= a < k ==> dest@[a] == f.buf@[f.offset + offset + a],
                        forall|a: int| k <= a < dest@.len() ==> dest@[a] == old(dest)@[a],
                    decreases n - k,
                {
                    let b = f.buf.get(f.offset + offset + k);
                    dest[k] = b;
                    k = k + 1;
                }
                proof {
                    assert(dest@ =~= file_content(self.nview()).subrange(
                        offset as int,
                        offset + n,
                    ).add(old(dest)@.skip(n as int)));
                }
                n
            },
        }
    }

    /// Reads the whole content of a file node into a fresh buffer.
    pub fn read_all(&self) -> (r: Vec<u8>)
        requires
            self.wf(),
            self.nview() is File,
        ensures
            r@ == file_content(self.nview()),
    {
        match self {
            Node::Directory(_) => {
                proof {
                    assert(false);
                }
                Vec::new()
            },
            Node::File(f) => {
                let mut r: Vec<u8> = Vec::new();
                let buflen = f.buf.len();
                let mut k: usize = 0;
                while k < f.len
                    invariant
                        k <= f.len,
                        f.offset + f.len <= buflen,
                        buflen == f.buf@.len(),
                        r@.len() == k,
                        forall|a: int| 0 <= a < k ==> r@[a] == f.buf@[f.offset + a],
                    decreases f.len - k,
                {
                    let b = f.buf.get(f.offset + k);
                    r.push(b);
                    k = k + 1;
                }
                proof {
                    assert(r@ =~= file_content(self.nview()));
                }
                r
            },
        }
    }
}

} // verus!
