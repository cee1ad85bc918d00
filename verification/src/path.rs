//! Path segmentation. Every path used against the virtual filesystem is
//! split on `/`; empty segments (leading, trailing or doubled separators)
//! carry no meaning and are dropped, so the empty path has no segments and
//! names the root.

use vstd::prelude::*;
use vstd::string::StrSliceExecFns;

verus! {

/// The segments of `p` split on `/`, empty segments included. The result
/// always has at least one element: the (possibly empty) segment after the
/// last separator.
pub open spec fn split_raw(p: Seq<char>) -> Seq<Seq<char>>
    decreases p.len(),
{
    if p.len() == 0 {
        seq![Seq::<char>::empty()]
    } else if p.last() == '/' {
        split_raw(p.drop_last()).push(Seq::<char>::empty())
    } else {
        let r = split_raw(p.drop_last());
        r.update(r.len() - 1, r.last().push(p.last()))
    }
}

pub open spec fn is_seg(s: Seq<char>) -> bool {
    s.len() > 0
}

/// The meaningful segments of a path: what `split_raw` yields, with the
/// empty segments dropped.
pub open spec fn path_segs(p: Seq<char>) -> Seq<Seq<char>> {
    split_raw(p).filter(|s: Seq<char>| is_seg(s))
}

pub proof fn lemma_split_raw_len(p: Seq<char>)
    ensures
        split_raw(p).len() >= 1,
    decreases p.len(),
{
    if p.len() != 0 {
        lemma_split_raw_len(p.drop_last());
    }
}

/// Splits a path on `/` and returns its nonempty segments.
pub fn split_path(p: &str) -> (segs: Vec<String>)
    ensures
        segs@.map_values(|s: String| s@) == path_segs(p@),
{
    let n = p.unicode_len();
    let mut segs: Vec<String> = Vec::new();
    let mut i: usize = 0;
    let mut start: usize = 0;
    proof {
        assert(p@.subrange(0, 0) =~= Seq::<char>::empty());
        assert(split_raw(p@.subrange(0, 0)) =~= seq![Seq::<char>::empty()]);
        assert(split_raw(p@.subrange(0, 0)).drop_last() =~= Seq::<Seq<char>>::empty());
        assert(Seq::<Seq<char>>::empty().filter(|s: Seq<char>| is_seg(s)) =~= Seq::<
            Seq<char>,
        >::empty());
    }
    while i < n
        invariant
            0 <= start <= i <= n,
            n == p@.len(),
            split_raw(p@.subrange(0, i as int)).last() == p@.subrange(start as int, i as int),
            split_raw(p@.subrange(0, i as int)).drop_last().filter(|s: Seq<char>| is_seg(s))
                == segs@.map_values(|s: String| s@),
        decreases n - i,
    {
        let ghost pre = p@.subrange(0, i as int);
        let ghost cur = p@.subrange(start as int, i as int);
        let c = p.get_char(i);
        proof {
            assert(p@.subrange(0, i + 1).drop_last() =~= pre);
            assert(p@.subrange(0, i + 1).last() == p@[i as int]);
        }
        if c == '/' {
            proof {
                lemma_split_raw_len(pre);
                let f = |s: Seq<char>| is_seg(s);
                let sr = split_raw(p@.subrange(0, i + 1));
                assert(sr == split_raw(pre).push(Seq::<char>::empty()));
                assert(sr.drop_last() =~= split_raw(pre));
                assert(split_raw(pre).drop_last().push(split_raw(pre).last()) =~= split_raw(pre));
                reveal_with_fuel(Seq::filter, 2);
                assert(split_raw(pre).filter(f) == if is_seg(cur) {
                    split_raw(pre).drop_last().filter(f).push(cur)
                } else {
                    split_raw(pre).drop_last().filter(f)
                });
            }
            if i > start {
                let seg = p.substring_char(start, i).to_owned();
                proof {
                    assert(seg@ == cur);
                    assert(segs@.push(seg).map_values(|s: String| s@) =~= segs@.map_values(
                        |s: String| s@,
                    ).push(cur));
                }
                segs.push(seg);
            } else {
                proof {
                    assert(cur =~= Seq::<char>::empty());
                }
            }
            start = i + 1;
            proof {
                assert(p@.subrange(start as int, i + 1) =~= Seq::<char>::empty());
            }
        } else {
            proof {
                let r = split_raw(pre);
                lemma_split_raw_len(pre);
                let sr = split_raw(p@.subrange(0, i + 1));
                assert(sr == r.update(r.len() - 1, r.last().push(p@[i as int])));
                assert(sr.drop_last() =~= r.drop_last());
                assert(sr.last() == cur.push(p@[i as int]));
                assert(cur.push(p@[i as int]) =~= p@.subrange(start as int, i + 1));
            }
        }
        i = i + 1;
    }
    proof {
        let f = |s: Seq<char>| is_seg(s);
        assert(p@.subrange(0, n as int) =~= p@);
        let sr = split_raw(p@);
        lemma_split_raw_len(p@);
        assert(sr.drop_last().push(sr.last()) =~= sr);
        reveal_with_fuel(Seq::filter, 2);
        assert(path_segs(p@) == if is_seg(p@.subrange(start as int, n as int)) {
            sr.drop_last().filter(f).push(p@.subrange(start as int, n as int))
        } else {
            sr.drop_last().filter(f)
        });
    }
    if start < n {
        let seg = p.substring_char(start, n).to_owned();
        proof {
            assert(segs@.push(seg).map_values(|s: String| s@) =~= segs@.map_values(|s: String| s@)
                .push(p@.subrange(start as int, n as int)));
        }
        segs.push(seg);
    } else {
        proof {
            assert(p@.subrange(start as int, n as int) =~= Seq::<char>::empty());
        }
    }
    segs
}

} // verus!
