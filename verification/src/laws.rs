//! Laws of the virtual filesystem construction: what replaying an archive
//! guarantees about lookups of its entries' paths, and that a collision
//! between a file and a required directory fails the construction.

use vstd::prelude::*;

use crate::archive::{archive_listing, spec_build, spec_replay, spec_replay_one};
use crate::path::path_segs;
use crate::virtfs::{spec_insert, spec_lookup, NodeView};

verus! {

broadcast use vstd::seq::group_seq_axioms;

/// `p` is a prefix of `q`, segment for segment.
pub open spec fn is_path_prefix(p: Seq<Seq<char>>, q: Seq<Seq<char>>) -> bool {
    p.len() <= q.len() && p == q.subrange(0, p.len() as int)
}

/// A successful insertion of a file node is found again at its own path.
pub proof fn lemma_insert_lookup_same(t: NodeView, p: Seq<Seq<char>>, nv: NodeView)
    requires
        spec_insert(t, p, nv) is Some,
        nv is File,
    ensures
        spec_lookup(spec_insert(t, p, nv)->0, p) == Option::Some(nv),
    decreases p.len(),
{
    match t {
        NodeView::File { .. } => {
            assert(spec_insert(t, p, nv) is None);
            assert(false);
        },
        NodeView::Directory(m) => {
            let name = p[0];
            if p.len() == 1 {
                let t2 = spec_insert(t, p, nv)->0;
                assert(t2 == NodeView::Directory(m.insert(name, nv)));
                assert(p.drop_first() =~= Seq::<Seq<char>>::empty());
                assert(m.insert(name, nv).dom().contains(name));
                assert(spec_lookup(t2, p) == spec_lookup(nv, p.drop_first()));
                assert(spec_lookup(nv, Seq::<Seq<char>>::empty()) == Option::Some(nv));
            } else {
                let child = if m.dom().contains(name) {
                    m[name]
                } else {
                    NodeView::Directory(Map::<Seq<char>, NodeView>::empty())
                };
                lemma_insert_lookup_same(child, p.drop_first(), nv);
                let c = spec_insert(child, p.drop_first(), nv)->0;
                let t2 = spec_insert(t, p, nv)->0;
                assert(t2 == NodeView::Directory(m.insert(name, c)));
                assert(m.insert(name, c).dom().contains(name));
                assert(spec_lookup(t2, p) == spec_lookup(c, p.drop_first()));
            }
        },
    }
}

/// A successful insertion of a file node at one path leaves the file found
/// at any other path in place.
pub proof fn lemma_insert_preserves_file(
    t: NodeView,
    p: Seq<Seq<char>>,
    nv: NodeView,
    q: Seq<Seq<char>>,
    f: NodeView,
)
    requires
        spec_insert(t, p, nv) is Some,
        nv is File,
        f is File,
        spec_lookup(t, q) == Option::Some(f),
        p != q,
    ensures
        spec_lookup(spec_insert(t, p, nv)->0, q) == Option::Some(f),
    decreases p.len(),
{
    match t {
        NodeView::File { .. } => {},
        NodeView::Directory(m) => {
            let name = p[0];
            if q.len() == 0 {
                assert(spec_lookup(t, q) == Option::Some(t));
                assert(false);
            } else if q[0] != name {
                assert(m.dom().contains(q[0])) by {
                    if !m.dom().contains(q[0]) {
                        assert(spec_lookup(t, q) is None);
                    }
                }
                let t2 = spec_insert(t, p, nv)->0;
                if p.len() == 1 {
                    assert(t2 == NodeView::Directory(m.insert(name, nv)));
                } else {
                }
                match t2 {
                    NodeView::Directory(m2) => {
                        assert(m2[q[0]] == m[q[0]]);
                        assert(spec_lookup(t2, q) == spec_lookup(m2[q[0]], q.drop_first()));
                    },
                    NodeView::File { .. } => {
                        assert(false);
                    },
                }
            } else {
                // q starts with the inserted path's first segment
                assert(m.dom().contains(name)) by {
                    if !m.dom().contains(name) {
                        assert(spec_lookup(t, q) is None);
                    }
                }
                if p.len() == 1 {
                    // q is longer than p (q != p, q[0] == p[0]), so the
                    // entry at `name` is a directory the lookup descends
                    // into — and then the terminal file insertion fails.
                    if q.len() == 1 {
                        assert(q =~= p);
                        assert(false);
                    } else {
                        assert(spec_lookup(t, q) == spec_lookup(m[name], q.drop_first()));
                        match m[name] {
                            NodeView::Directory(_) => {
                                assert(spec_insert(t, p, nv) is None);
                                assert(false);
                            },
                            NodeView::File { .. } => {
                                assert(spec_lookup(m[name], q.drop_first()) is None);
                                assert(false);
                            },
                        }
                    }
                } else {
                    let child = m[name];
                    let c = spec_insert(child, p.drop_first(), nv)->0;
                    if q.drop_first() =~= p.drop_first() {
                        assert(q.len() == p.len());
                        assert forall|k: int| 0 <= k < q.len() implies q[k] == p[k] by {
                            if k >= 1 {
                                assert(q.drop_first()[k - 1] == p.drop_first()[k - 1]);
                            }
                        }
                        assert(q =~= p);
                        assert(false);
                    } else {
                        lemma_insert_preserves_file(child, p.drop_first(), nv, q.drop_first(), f);
                        let t2 = spec_insert(t, p, nv)->0;
                        assert(t2 == NodeView::Directory(m.insert(name, c)));
                        assert(spec_lookup(t2, q) == spec_lookup(c, q.drop_first()));
                    }
                }
            }
        },
    }
}

/// Replaying further file entries, none at path `q`, leaves the file found
/// at `q` in place.
pub proof fn lemma_replay_preserves_file(
    t1: NodeView,
    es: Seq<(Seq<char>, u8, int, int)>,
    b: Seq<u8>,
    q: Seq<Seq<char>>,
    f: NodeView,
)
    requires
        spec_replay(t1, es, b) is Some,
        forall|k: int| 0 <= k < es.len() ==> (#[trigger] es[k]).1 == 0u8,
        forall|k: int| 0 <= k < es.len() ==> path_segs((#[trigger] es[k]).0) != q,
        spec_lookup(t1, q) == Option::Some(f),
        f is File,
    ensures
        spec_lookup(spec_replay(t1, es, b)->0, q) == Option::Some(f),
    decreases es.len(),
{
    if es.len() > 0 {
        let e = es[0];
        let segs = path_segs(e.0);
        let t2 = spec_replay_one(t1, e, b)->0;
        assert(t2 == spec_insert(
            t1,
            segs,
            NodeView::File { buf: b, offset: e.2, len: e.3 },
        )->0);
        lemma_insert_preserves_file(
            t1,
            segs,
            NodeView::File { buf: b, offset: e.2, len: e.3 },
            q,
            f,
        );
        assert(forall|k: int|
            0 <= k < es.drop_first().len() ==> (#[trigger] es.drop_first()[k]) == es[k + 1]);
        lemma_replay_preserves_file(t2, es.drop_first(), b, q, f);
    }
}

/// Tree correctness: replaying an archive whose entries are regular files
/// at pairwise distinct paths yields a tree in which the lookup of every
/// entry's path returns a file node over exactly that entry's byte range of
/// the archive.
pub proof fn lemma_replay_lookup(
    t0: NodeView,
    es: Seq<(Seq<char>, u8, int, int)>,
    b: Seq<u8>,
    i: int,
)
    requires
        spec_replay(t0, es, b) is Some,
        forall|k: int| 0 <= k < es.len() ==> (#[trigger] es[k]).1 == 0u8,
        forall|k: int, l: int|
            0 <= k < l < es.len() ==> path_segs((#[trigger] es[k]).0) != path_segs(
                (#[trigger] es[l]).0,
            ),
        0 <= i < es.len(),
    ensures
        spec_lookup(spec_replay(t0, es, b)->0, path_segs(es[i].0)) == Option::Some(
            NodeView::File { buf: b, offset: es[i].2, len: es[i].3 },
        ),
    decreases es.len(),
{
    let e = es[0];
    let segs = path_segs(e.0);
    let nv = NodeView::File { buf: b, offset: e.2, len: e.3 };
    let t1 = spec_replay_one(t0, e, b)->0;
    assert(t1 == spec_insert(t0, segs, nv)->0);
    assert(forall|k: int|
        0 <= k < es.drop_first().len() ==> (#[trigger] es.drop_first()[k]) == es[k + 1]);
    if i == 0 {
        lemma_insert_lookup_same(t0, segs, nv);
        assert(forall|k: int|
            0 <= k < es.drop_first().len() ==> path_segs((#[trigger] es.drop_first()[k]).0)
                != segs);
        lemma_replay_preserves_file(t1, es.drop_first(), b, segs, nv);
    } else {
        lemma_replay_lookup(t1, es.drop_first(), b, i - 1);
        assert(es.drop_first()[i - 1] == es[i]);
    }
}

/// Tree correctness for a built archive: every entry of an all-file archive
/// with pairwise distinct paths is found at its own path, as a file over
/// exactly its bytes.
pub proof fn lemma_tree_correctness(
    b: Seq<u8>,
    es: Seq<(Seq<char>, u8, int, int)>,
    t: NodeView,
    i: int,
)
    requires
        archive_listing(b) == Option::Some(es),
        spec_build(b) == Option::Some(t),
        forall|k: int| 0 <= k < es.len() ==> (#[trigger] es[k]).1 == 0u8,
        forall|k: int, l: int|
            0 <= k < l < es.len() ==> path_segs((#[trigger] es[k]).0) != path_segs(
                (#[trigger] es[l]).0,
            ),
        0 <= i < es.len(),
    ensures
        spec_lookup(t, path_segs(es[i].0)) == Option::Some(
            NodeView::File { buf: b, offset: es[i].2, len: es[i].3 },
        ),
{
    lemma_replay_lookup(
        NodeView::Directory(Map::<Seq<char>, NodeView>::empty()),
        es,
        b,
        i,
    );
}

/// Inserting below a path whose strict prefix names a file fails.
pub proof fn lemma_insert_under_file_fails(
    t: NodeView,
    p: Seq<Seq<char>>,
    p2: Seq<Seq<char>>,
    nv: NodeView,
    f: NodeView,
)
    requires
        spec_lookup(t, p) == Option::Some(f),
        f is File,
        is_path_prefix(p, p2),
        p.len() < p2.len(),
    ensures
        spec_insert(t, p2, nv) is None,
    decreases p.len(),
{
    if p.len() == 0 {
        assert(t == f);
    } else {
        match t {
            NodeView::File { .. } => {},
            NodeView::Directory(m) => {
                assert(p2[0] == p[0]) by {
                    assert(p2.subrange(0, p.len() as int)[0] == p2[0]);
                }
                if m.dom().contains(p[0]) {
                    assert(p.drop_first() =~= p2.drop_first().subrange(
                        0,
                        p.drop_first().len() as int,
                    ));
                    lemma_insert_under_file_fails(
                        m[p[0]],
                        p.drop_first(),
                        p2.drop_first(),
                        nv,
                        f,
                    );
                } else {
                    assert(spec_lookup(t, p) is None);
                }
            },
        }
    }
}

/// Path collision: an all-file archive that lists a file and, later,
/// another file below it (the first's path a strict prefix of the second's)
/// fails the replay — the prefix names a file where a directory is
/// required.
pub proof fn lemma_path_collision(
    t0: NodeView,
    es: Seq<(Seq<char>, u8, int, int)>,
    b: Seq<u8>,
    i: int,
    j: int,
)
    requires
        forall|k: int| 0 <= k < es.len() ==> (#[trigger] es[k]).1 == 0u8,
        forall|k: int, l: int|
            0 <= k < l < es.len() ==> path_segs((#[trigger] es[k]).0) != path_segs(
                (#[trigger] es[l]).0,
            ),
        0 <= i < j < es.len(),
        is_path_prefix(path_segs(es[i].0), path_segs(es[j].0)),
    ensures
        spec_replay(t0, es, b) is None,
    decreases es.len(),
{
    if spec_replay(t0, es, b) is Some {
        let e = es[0];
        let segs = path_segs(e.0);
        let nv = NodeView::File { buf: b, offset: e.2, len: e.3 };
        let t1 = spec_replay_one(t0, e, b)->0;
        assert(t1 == spec_insert(t0, segs, nv)->0);
        assert(forall|k: int|
            0 <= k < es.drop_first().len() ==> (#[trigger] es.drop_first()[k]) == es[k + 1]);
        if i == 0 {
            // the prefix file is placed; replaying up to just before `j`
            // keeps it, and then inserting below it fails
            let pi = segs;
            let pj = path_segs(es[j].0);
            assert(pi.len() < pj.len()) by {
                if pi.len() == pj.len() {
                    assert(pi =~= pj);
                }
            }
            lemma_insert_lookup_same(t0, pi, nv);
            let front = es.drop_first().subrange(0, j - 1);
            let back = es.drop_first().subrange(j - 1, es.drop_first().len() as int);
            assert(es.drop_first() =~= front.add(back));
            lemma_replay_split(t1, front, back, b);
            let tmid = spec_replay(t1, front, b)->0;
            assert(forall|k: int| 0 <= k < front.len() ==> (#[trigger] front[k]) == es[k + 1]);
            assert(forall|k: int|
                0 <= k < front.len() ==> path_segs((#[trigger] front[k]).0) != pi);
            lemma_replay_preserves_file(t1, front, b, pi, nv);
            assert(back[0] == es[j]);
            assert(spec_replay(tmid, back, b) is Some);
            assert(spec_replay_one(tmid, es[j], b) is Some);
            lemma_insert_under_file_fails(
                tmid,
                pi,
                pj,
                NodeView::File { buf: b, offset: es[j].2, len: es[j].3 },
                nv,
            );
            assert(false);
        } else {
            lemma_path_collision(t1, es.drop_first(), b, i - 1, j - 1);
            assert(es.drop_first()[i - 1] == es[i]);
            assert(es.drop_first()[j - 1] == es[j]);
            assert(false);
        }
    }
}

/// Replaying a concatenation replays its parts in order.
pub proof fn lemma_replay_split(
    t: NodeView,
    xs: Seq<(Seq<char>, u8, int, int)>,
    ys: Seq<(Seq<char>, u8, int, int)>,
    b: Seq<u8>,
)
    requires
        spec_replay(t, xs.add(ys), b) is Some,
    ensures
        spec_replay(t, xs, b) is Some,
        spec_replay(spec_replay(t, xs, b)->0, ys, b) == spec_replay(t, xs.add(ys), b),
    decreases xs.len(),
{
    if xs.len() == 0 {
        assert(xs.add(ys) =~= ys);
    } else {
        assert(xs.add(ys)[0] == xs[0]);
        let t1 = spec_replay_one(t, xs[0], b)->0;
        assert(xs.add(ys).drop_first() =~= xs.drop_first().add(ys));
        lemma_replay_split(t1, xs.drop_first(), ys, b);
    }
}

/// A successful insertion of a file node at `p` creates nothing at a path
/// that is not a prefix of `p`: a lookup that found nothing still finds
/// nothing.
pub proof fn lemma_insert_preserves_none(
    t: NodeView,
    p: Seq<Seq<char>>,
    nv: NodeView,
    q: Seq<Seq<char>>,
)
    requires
        spec_insert(t, p, nv) is Some,
        nv is File,
        spec_lookup(t, q) is None,
        !is_path_prefix(q, p),
    ensures
        spec_lookup(spec_insert(t, p, nv)->0, q) is None,
    decreases p.len(),
{
    match t {
        NodeView::File { .. } => {},
        NodeView::Directory(m) => {
            let name = p[0];
            if q.len() == 0 {
                assert(spec_lookup(t, q) == Option::Some(t));
                assert(false);
            } else if q[0] != name {
                let t2 = spec_insert(t, p, nv)->0;
                if p.len() == 1 {
                    assert(t2 == NodeView::Directory(m.insert(name, nv)));
                }
                match t2 {
                    NodeView::Directory(m2) => {
                        if m2.dom().contains(q[0]) {
                            assert(m.dom().contains(q[0]));
                            assert(m2[q[0]] == m[q[0]]);
                            assert(spec_lookup(t, q) == spec_lookup(m[q[0]], q.drop_first()));
                        }
                    },
                    NodeView::File { .. } => {
                        assert(false);
                    },
                }
            } else {
                if p.len() == 1 {
                    if q.len() == 1 {
                        assert(q =~= p.subrange(0, 1));
                        assert(is_path_prefix(q, p));
                        assert(false);
                    } else {
                        let t2 = spec_insert(t, p, nv)->0;
                        assert(t2 == NodeView::Directory(m.insert(name, nv)));
                        assert(spec_lookup(t2, q) == spec_lookup(nv, q.drop_first()));
                        assert(spec_lookup(nv, q.drop_first()) is None);
                    }
                } else {
                    if q.len() == 1 {
                        assert(q =~= p.subrange(0, 1));
                        assert(is_path_prefix(q, p));
                        assert(false);
                    }
                    assert(!is_path_prefix(q.drop_first(), p.drop_first())) by {
                        if is_path_prefix(q.drop_first(), p.drop_first()) {
                            assert(q.len() <= p.len());
                            assert forall|k: int| 0 <= k < q.len() implies q[k] == p.subrange(
                                0,
                                q.len() as int,
                            )[k] by {
                                if k >= 1 {
                                    assert(q.drop_first()[k - 1] == p.drop_first().subrange(
                                        0,
                                        q.drop_first().len() as int,
                                    )[k - 1]);
                                }
                            }
                            assert(q =~= p.subrange(0, q.len() as int));
                            assert(is_path_prefix(q, p));
                        }
                    }
                    let child = if m.dom().contains(name) {
                        m[name]
                    } else {
                        NodeView::Directory(Map::<Seq<char>, NodeView>::empty())
                    };
                    if m.dom().contains(name) {
                        assert(spec_lookup(t, q) == spec_lookup(m[name], q.drop_first()));
                    } else {
                        assert(spec_lookup(child, q.drop_first()) is None);
                    }
                    lemma_insert_preserves_none(child, p.drop_first(), nv, q.drop_first());
                    let c = spec_insert(child, p.drop_first(), nv)->0;
                    let t2 = spec_insert(t, p, nv)->0;
                    assert(t2 == NodeView::Directory(m.insert(name, c)));
                    assert(spec_lookup(t2, q) == spec_lookup(c, q.drop_first()));
                }
            }
        },
    }
}

/// Replaying file entries creates nothing at a path that is not a prefix of
/// any of their paths.
pub proof fn lemma_replay_preserves_none(
    t0: NodeView,
    es: Seq<(Seq<char>, u8, int, int)>,
    b: Seq<u8>,
    q: Seq<Seq<char>>,
)
    requires
        spec_replay(t0, es, b) is Some,
        forall|k: int| 0 <= k < es.len() ==> (#[trigger] es[k]).1 == 0u8,
        forall|k: int| 0 <= k < es.len() ==> !is_path_prefix(q, path_segs((#[trigger] es[k]).0)),
        spec_lookup(t0, q) is None,
    ensures
        spec_lookup(spec_replay(t0, es, b)->0, q) is None,
    decreases es.len(),
{
    if es.len() > 0 {
        let e = es[0];
        let segs = path_segs(e.0);
        let t1 = spec_replay_one(t0, e, b)->0;
        assert(t1 == spec_insert(
            t0,
            segs,
            NodeView::File { buf: b, offset: e.2, len: e.3 },
        )->0);
        lemma_insert_preserves_none(
            t0,
            segs,
            NodeView::File { buf: b, offset: e.2, len: e.3 },
            q,
        );
        assert(forall|k: int|
            0 <= k < es.drop_first().len() ==> (#[trigger] es.drop_first()[k]) == es[k + 1]);
        lemma_replay_preserves_none(t1, es.drop_first(), b, q);
    }
}

/// Not found: in the tree built from an all-file archive, the lookup of any
/// path that is not a prefix of any entry's path — neither an entry itself
/// nor one of the directories its paths imply — returns nothing.
pub proof fn lemma_tree_not_found(
    b: Seq<u8>,
    es: Seq<(Seq<char>, u8, int, int)>,
    t: NodeView,
    q: Seq<Seq<char>>,
)
    requires
        archive_listing(b) == Option::Some(es),
        spec_build(b) == Option::Some(t),
        forall|k: int| 0 <= k < es.len() ==> (#[trigger] es[k]).1 == 0u8,
        forall|k: int| 0 <= k < es.len() ==> !is_path_prefix(q, path_segs((#[trigger] es[k]).0)),
        q.len() > 0,
    ensures
        spec_lookup(t, q) is None,
{
    let t0 = NodeView::Directory(Map::<Seq<char>, NodeView>::empty());
    assert(spec_lookup(t0, q) is None);
    lemma_replay_preserves_none(t0, es, b, q);
}

/// A successful insertion at `p` leaves a directory at every strict prefix
/// of `p`.
pub proof fn lemma_insert_creates_prefix_dirs(
    t: NodeView,
    p: Seq<Seq<char>>,
    nv: NodeView,
    q: Seq<Seq<char>>,
)
    requires
        spec_insert(t, p, nv) is Some,
        is_path_prefix(q, p),
        q.len() < p.len(),
    ensures
        spec_lookup(spec_insert(t, p, nv)->0, q) matches Some(d) && d is Directory,
    decreases q.len(),
{
    match t {
        NodeView::File { .. } => {},
        NodeView::Directory(m) => {
            let name = p[0];
            let t2 = spec_insert(t, p, nv)->0;
            if q.len() == 0 {
                assert(spec_lookup(t2, q) == Option::Some(t2));
                assert(t2 is Directory);
            } else {
                assert(q[0] == name) by {
                    assert(p.subrange(0, q.len() as int)[0] == p[0]);
                }
                assert(p.len() >= 2);
                let child = if m.dom().contains(name) {
                    m[name]
                } else {
                    NodeView::Directory(Map::<Seq<char>, NodeView>::empty())
                };
                let c = spec_insert(child, p.drop_first(), nv)->0;
                assert(t2 == NodeView::Directory(m.insert(name, c)));
                assert(is_path_prefix(q.drop_first(), p.drop_first())) by {
                    assert(q.drop_first() =~= p.drop_first().subrange(
                        0,
                        q.drop_first().len() as int,
                    ));
                }
                lemma_insert_creates_prefix_dirs(child, p.drop_first(), nv, q.drop_first());
                assert(spec_lookup(t2, q) == spec_lookup(c, q.drop_first()));
            }
        },
    }
}

/// Inserting a file exactly where a directory stands fails.
pub proof fn lemma_insert_over_dir_fails(t: NodeView, p: Seq<Seq<char>>, nv: NodeView)
    requires
        spec_lookup(t, p) matches Some(d) && d is Directory,
        p.len() > 0,
        nv is File,
    ensures
        spec_insert(t, p, nv) is None,
    decreases p.len(),
{
    match t {
        NodeView::File { .. } => {},
        NodeView::Directory(m) => {
            if m.dom().contains(p[0]) {
                if p.len() > 1 {
                    lemma_insert_over_dir_fails(m[p[0]], p.drop_first(), nv);
                    assert(spec_lookup(t, p) == spec_lookup(m[p[0]], p.drop_first()));
                    match m[p[0]] {
                        NodeView::Directory(_) => {},
                        NodeView::File { .. } => {
                            assert(spec_lookup(m[p[0]], p.drop_first()) is None);
                        },
                    }
                }
            } else {
                assert(spec_lookup(t, p) is None);
            }
        },
    }
}

/// A successful file insertion at one path keeps a directory found at any
/// other path a directory.
pub proof fn lemma_insert_preserves_dir(
    t: NodeView,
    p: Seq<Seq<char>>,
    nv: NodeView,
    q: Seq<Seq<char>>,
)
    requires
        spec_insert(t, p, nv) is Some,
        nv is File,
        spec_lookup(t, q) matches Some(d) && d is Directory,
        p != q,
    ensures
        spec_lookup(spec_insert(t, p, nv)->0, q) matches Some(d2) && d2 is Directory,
    decreases p.len(),
{
    match t {
        NodeView::File { .. } => {},
        NodeView::Directory(m) => {
            let name = p[0];
            let t2 = spec_insert(t, p, nv)->0;
            if q.len() == 0 {
                assert(spec_lookup(t, q) == Option::Some(t));
                assert(spec_lookup(t2, q) == Option::Some(t2));
                if p.len() == 1 {
                    assert(t2 == NodeView::Directory(m.insert(name, nv)));
                }
            } else if q[0] != name {
                assert(m.dom().contains(q[0])) by {
                    if !m.dom().contains(q[0]) {
                        assert(spec_lookup(t, q) is None);
                    }
                }
                if p.len() == 1 {
                    assert(t2 == NodeView::Directory(m.insert(name, nv)));
                }
                match t2 {
                    NodeView::Directory(m2) => {
                        assert(m2[q[0]] == m[q[0]]);
                        assert(spec_lookup(t2, q) == spec_lookup(m2[q[0]], q.drop_first()));
                        assert(spec_lookup(t, q) == spec_lookup(m[q[0]], q.drop_first()));
                    },
                    NodeView::File { .. } => {
                        assert(false);
                    },
                }
            } else {
                assert(m.dom().contains(name)) by {
                    if !m.dom().contains(name) {
                        assert(spec_lookup(t, q) is None);
                    }
                }
                if p.len() == 1 {
                    if q.len() == 1 {
                        assert(q =~= p);
                        assert(false);
                    } else {
                        assert(spec_lookup(t, q) == spec_lookup(m[name], q.drop_first()));
                        match m[name] {
                            NodeView::Directory(_) => {
                                assert(spec_insert(t, p, nv) is None);
                                assert(false);
                            },
                            NodeView::File { .. } => {
                                assert(spec_lookup(m[name], q.drop_first()) is None);
                                assert(false);
                            },
                        }
                    }
                } else {
                    let child = m[name];
                    let c = spec_insert(child, p.drop_first(), nv)->0;
                    assert(t2 == NodeView::Directory(m.insert(name, c)));
                    if q.len() == 1 {
                        assert(spec_lookup(t, q) == Option::Some(m[name]));
                        assert(child is Directory);
                        assert(spec_lookup(t2, q) == Option::Some(c));
                        assert(c is Directory);
                    } else if q.drop_first() =~= p.drop_first() {
                        assert(q.len() == p.len());
                        assert forall|k: int| 0 <= k < q.len() implies q[k] == p[k] by {
                            if k >= 1 {
                                assert(q.drop_first()[k - 1] == p.drop_first()[k - 1]);
                            }
                        }
                        assert(q =~= p);
                        assert(false);
                    } else {
                        assert(spec_lookup(t, q) == spec_lookup(m[name], q.drop_first()));
                        lemma_insert_preserves_dir(child, p.drop_first(), nv, q.drop_first());
                        assert(spec_lookup(t2, q) == spec_lookup(c, q.drop_first()));
                    }
                }
            }
        },
    }
}

/// Replaying file entries, none at path `q`, keeps a directory at `q` a
/// directory.
pub proof fn lemma_replay_preserves_dir(
    t1: NodeView,
    es: Seq<(Seq<char>, u8, int, int)>,
    b: Seq<u8>,
    q: Seq<Seq<char>>,
)
    requires
        spec_replay(t1, es, b) is Some,
        forall|k: int| 0 <= k < es.len() ==> (#[trigger] es[k]).1 == 0u8,
        forall|k: int| 0 <= k < es.len() ==> path_segs((#[trigger] es[k]).0) != q,
        spec_lookup(t1, q) matches Some(d) && d is Directory,
    ensures
        spec_lookup(spec_replay(t1, es, b)->0, q) matches Some(d2) && d2 is Directory,
    decreases es.len(),
{
    if es.len() > 0 {
        let e = es[0];
        let segs = path_segs(e.0);
        let t2 = spec_replay_one(t1, e, b)->0;
        assert(t2 == spec_insert(
            t1,
            segs,
            NodeView::File { buf: b, offset: e.2, len: e.3 },
        )->0);
        lemma_insert_preserves_dir(
            t1,
            segs,
            NodeView::File { buf: b, offset: e.2, len: e.3 },
            q,
        );
        assert(forall|k: int|
            0 <= k < es.drop_first().len() ==> (#[trigger] es.drop_first()[k]) == es[k + 1]);
        lemma_replay_preserves_dir(t2, es.drop_first(), b, q);
    }
}

/// Path collision, the other listing order: an all-file archive that lists
/// a file and, later, another file at a strict prefix of the first's path
/// fails the replay — a file would overwrite a required directory.
pub proof fn lemma_path_collision_prefix_later(
    t0: NodeView,
    es: Seq<(Seq<char>, u8, int, int)>,
    b: Seq<u8>,
    i: int,
    j: int,
)
    requires
        forall|k: int| 0 <= k < es.len() ==> (#[trigger] es[k]).1 == 0u8,
        forall|k: int, l: int|
            0 <= k < l < es.len() ==> path_segs((#[trigger] es[k]).0) != path_segs(
                (#[trigger] es[l]).0,
            ),
        0 <= i < j < es.len(),
        is_path_prefix(path_segs(es[j].0), path_segs(es[i].0)),
    ensures
        spec_replay(t0, es, b) is None,
    decreases es.len(),
{
    if spec_replay(t0, es, b) is Some {
        let e = es[0];
        let segs = path_segs(e.0);
        let nv = NodeView::File { buf: b, offset: e.2, len: e.3 };
        let t1 = spec_replay_one(t0, e, b)->0;
        assert(t1 == spec_insert(t0, segs, nv)->0);
        assert(forall|k: int|
            0 <= k < es.drop_first().len() ==> (#[trigger] es.drop_first()[k]) == es[k + 1]);
        if i == 0 {
            let pi = segs;
            let pj = path_segs(es[j].0);
            assert(pj.len() < pi.len()) by {
                if pj.len() == pi.len() {
                    assert(pj =~= pi);
                }
            }
            lemma_insert_creates_prefix_dirs(t0, pi, nv, pj);
            let front = es.drop_first().subrange(0, j - 1);
            let back = es.drop_first().subrange(j - 1, es.drop_first().len() as int);
            assert(es.drop_first() =~= front.add(back));
            lemma_replay_split(t1, front, back, b);
            let tmid = spec_replay(t1, front, b)->0;
            assert(forall|k: int| 0 <= k < front.len() ==> (#[trigger] front[k]) == es[k + 1]);
            assert(forall|k: int|
                0 <= k < front.len() ==> path_segs((#[trigger] front[k]).0) != pj);
            lemma_replay_preserves_dir(t1, front, b, pj);
            assert(back[0] == es[j]);
            assert(spec_replay(tmid, back, b) is Some);
            assert(spec_replay_one(tmid, es[j], b) is Some);
            assert(pj.len() > 0) by {
                if pj.len() == 0 {
                    assert(spec_replay_one(tmid, es[j], b) is None);
                }
            }
            lemma_insert_over_dir_fails(
                tmid,
                pj,
                NodeView::File { buf: b, offset: es[j].2, len: es[j].3 },
            );
            assert(false);
        } else {
            lemma_path_collision_prefix_later(t1, es.drop_first(), b, i - 1, j - 1);
            assert(es.drop_first()[i - 1] == es[i]);
            assert(es.drop_first()[j - 1] == es[j]);
            assert(false);
        }
    }
}

/// Path collision for a built archive: when one entry's path is a strict
/// prefix of another's, in whichever order the archive lists them, the
/// construction fails deterministically.
pub proof fn lemma_build_collision(
    b: Seq<u8>,
    es: Seq<(Seq<char>, u8, int, int)>,
    i: int,
    j: int,
)
    requires
        archive_listing(b) == Option::Some(es),
        forall|k: int| 0 <= k < es.len() ==> (#[trigger] es[k]).1 == 0u8,
        forall|k: int, l: int|
            0 <= k < l < es.len() ==> path_segs((#[trigger] es[k]).0) != path_segs(
                (#[trigger] es[l]).0,
            ),
        0 <= i < j < es.len(),
        is_path_prefix(path_segs(es[i].0), path_segs(es[j].0)) || is_path_prefix(
            path_segs(es[j].0),
            path_segs(es[i].0),
        ),
    ensures
        spec_build(b) is None,
{
    let t0 = NodeView::Directory(Map::<Seq<char>, NodeView>::empty());
    if is_path_prefix(path_segs(es[i].0), path_segs(es[j].0)) {
        lemma_path_collision(t0, es, b, i, j);
    } else {
        lemma_path_collision_prefix_later(t0, es, b, i, j);
    }
}

} // verus!
