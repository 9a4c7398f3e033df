use vstd::prelude::*;

use crate::codec::{lemma_views_push, views_of};
use crate::segment::{is_clean, seg_copy, seg_wf, segs_wf, SegView, Segment};

verus! {

/// Resolves `.` and `..` markers against an already-absolute accumulator:
/// the accumulator keeps its leading root marker, named segments push onto
/// it, a parent marker pops one segment but never the root, and a
/// current-directory marker changes nothing.
pub open spec fn normalize_from(acc: Seq<SegView>, rest: Seq<SegView>) -> Seq<SegView>
    decreases rest.len(),
{
    if rest.len() == 0 {
        acc
    } else {
        let step = match rest[0] {
            SegView::CurDir => acc,
            SegView::ParentDir => if acc.len() > 1 {
                acc.drop_last()
            } else {
                acc
            },
            _ => acc.push(rest[0]),
        };
        normalize_from(step, rest.skip(1))
    }
}

/// The resolved form of a path that begins with a root or prefix marker.
pub open spec fn normalize_abs(s: Seq<SegView>) -> Seq<SegView>
    recommends
        s.len() > 0,
{
    normalize_from(seq![s[0]], s.skip(1))
}

/// A sequence of `m` parent-directory markers.
pub open spec fn parents(m: nat) -> Seq<SegView> {
    Seq::new(m, |i: int| SegView::ParentDir)
}

/// Resolving a clean remainder appends it unchanged.
pub proof fn lemma_normalize_from_clean(acc: Seq<SegView>, rest: Seq<SegView>)
    requires
        is_clean(rest),
    ensures
        normalize_from(acc, rest) == acc + rest,
    decreases rest.len(),
{
    if rest.len() == 0 {
        assert(normalize_from(acc, rest) =~= acc + rest);
    } else {
        assert(!(rest[0] is CurDir || rest[0] is ParentDir));
        assert forall|i: int|
            0 <= i < rest.skip(1).len() implies !((#[trigger] rest.skip(1)[i]) is CurDir || rest.skip(
            1,
        )[i] is ParentDir) by {
            assert(rest.skip(1)[i] == rest[i + 1]);
        }
        lemma_normalize_from_clean(acc.push(rest[0]), rest.skip(1));
        assert(acc.push(rest[0]) + rest.skip(1) =~= acc + rest);
    }
}

/// A clean absolute path resolves to itself.
pub proof fn lemma_normalize_abs_clean(s: Seq<SegView>)
    requires
        s.len() > 0,
        is_clean(s),
    ensures
        normalize_abs(s) == s,
{
    assert forall|i: int|
        0 <= i < s.skip(1).len() implies !((#[trigger] s.skip(1)[i]) is CurDir || s.skip(
        1,
    )[i] is ParentDir) by {
        assert(s.skip(1)[i] == s[i + 1]);
    }
    lemma_normalize_from_clean(seq![s[0]], s.skip(1));
    assert(seq![s[0]] + s.skip(1) =~= s);
}

/// Resolution splits over concatenation of the remainder.
pub proof fn lemma_normalize_from_concat(acc: Seq<SegView>, r1: Seq<SegView>, r2: Seq<SegView>)
    ensures
        normalize_from(acc, r1 + r2) == normalize_from(normalize_from(acc, r1), r2),
    decreases r1.len(),
{
    if r1.len() == 0 {
        assert(r1 + r2 =~= r2);
    } else {
        assert((r1 + r2)[0] == r1[0]);
        assert((r1 + r2).skip(1) =~= r1.skip(1) + r2);
        let step = match r1[0] {
            SegView::CurDir => acc,
            SegView::ParentDir => if acc.len() > 1 {
                acc.drop_last()
            } else {
                acc
            },
            _ => acc.push(r1[0]),
        };
        lemma_normalize_from_concat(step, r1.skip(1), r2);
    }
}

/// Resolving `m` parent markers pops `m` segments, as long as more than the
/// root would remain.
pub proof fn lemma_normalize_from_parents(acc: Seq<SegView>, m: nat)
    requires
        m + 1 <= acc.len(),
    ensures
        normalize_from(acc, parents(m)) == acc.take(acc.len() - m),
    decreases m,
{
    if m == 0 {
        assert(acc.take(acc.len() as int) =~= acc);
    } else {
        assert(parents(m)[0] is ParentDir);
        assert(acc.len() > 1);
        assert(parents(m).skip(1) =~= parents((m - 1) as nat));
        lemma_normalize_from_parents(acc.drop_last(), (m - 1) as nat);
        assert(acc.drop_last().take(acc.len() - m) =~= acc.take(acc.len() - m));
    }
}

/// Resolution of a well-formed remainder against a non-empty well-formed
/// accumulator stays non-empty and well formed and keeps its first segment.
pub proof fn lemma_normalize_from_wf(acc: Seq<SegView>, rest: Seq<SegView>)
    requires
        acc.len() > 0,
        segs_wf(acc),
        forall|i: int|
            0 <= i < rest.len() ==> seg_wf(#[trigger] rest[i]) && !(rest[i] is Root
                || rest[i] is Prefix || rest[i] is CurDir),
    ensures
        normalize_from(acc, rest).len() > 0,
        normalize_from(acc, rest)[0] == acc[0],
        segs_wf(normalize_from(acc, rest)),
    decreases rest.len(),
{
    if rest.len() > 0 {
        let step = match rest[0] {
            SegView::CurDir => acc,
            SegView::ParentDir => if acc.len() > 1 {
                acc.drop_last()
            } else {
                acc
            },
            _ => acc.push(rest[0]),
        };
        assert(step.len() > 0);
        assert(step[0] == acc[0]);
        assert(segs_wf(step)) by {
            if rest[0] is ParentDir {
                if acc.len() > 1 {
                    assert forall|i: int| 0 <= i < step.len() implies seg_wf(
                        #[trigger] step[i],
                    ) by {
                        assert(step[i] == acc[i]);
                    }
                    assert forall|i: int| 1 <= i < step.len() implies !((#[trigger] step[i]) is Root
                        || step[i] is Prefix || step[i] is CurDir) by {
                        assert(step[i] == acc[i]);
                    }
                }
            } else {
                assert forall|i: int| 0 <= i < step.len() implies seg_wf(#[trigger] step[i]) by {
                    if i < acc.len() {
                        assert(step[i] == acc[i]);
                    } else {
                        assert(step[i] == rest[0]);
                    }
                }
                assert forall|i: int| 1 <= i < step.len() implies !((#[trigger] step[i]) is Root
                    || step[i] is Prefix || step[i] is CurDir) by {
                    if i < acc.len() {
                        assert(step[i] == acc[i]);
                    } else {
                        assert(step[i] == rest[0]);
                    }
                }
            }
        }
        assert forall|i: int|
            0 <= i < rest.skip(1).len() implies seg_wf(#[trigger] rest.skip(1)[i]) && !(rest.skip(
            1,
        )[i] is Root || rest.skip(1)[i] is Prefix || rest.skip(1)[i] is CurDir) by {
            assert(rest.skip(1)[i] == rest[i + 1]);
        }
        lemma_normalize_from_wf(step, rest.skip(1));
    }
}

/// Resolves a path that begins with a root or prefix marker, eliding `.`
/// markers and applying `..` markers without ever popping the root.
pub fn normalize_absolute(segs: &Vec<Segment>) -> (r: Vec<Segment>)
    requires
        segs@.len() > 0,
    ensures
        views_of(r@) == normalize_abs(views_of(segs@)),
        r@.len() > 0,
        r@[0]@ == segs@[0]@,
{
    let ghost v = views_of(segs@);
    let mut out: Vec<Segment> = Vec::new();
    out.push(seg_copy(&segs[0]));
    let mut i: usize = 1;
    proof {
        assert(views_of(out@) =~= seq![v[0]]);
    }
    while i < segs.len()
        invariant
            1 <= i <= segs@.len(),
            v == views_of(segs@),
            v.len() == segs@.len(),
            out@.len() >= 1,
            views_of(out@)[0] == v[0],
            normalize_from(views_of(out@), v.skip(i as int)) == normalize_abs(v),
        decreases segs@.len() - i,
    {
        let ghost out0 = out@;
        let ghost step_seg = v[i as int];
        proof {
            assert(v.skip(i as int)[0] == v[i as int]);
            assert(v.skip(i as int).skip(1) =~= v.skip(i as int + 1));
        }
        match &segs[i] {
            Segment::CurDir => {},
            Segment::ParentDir => {
                if out.len() > 1 {
                    let popped = out.pop();
                    proof {
                        assert(views_of(out@) =~= views_of(out0).drop_last());
                    }
                }
            },
            _ => {
                out.push(seg_copy(&segs[i]));
                proof {
                    lemma_views_push(out0, out@[out@.len() - 1]);
                    assert(views_of(out@) =~= views_of(out0).push(step_seg));
                }
            },
        }
        i = i + 1;
    }
    proof {
        assert(v.skip(v.len() as int) =~= Seq::<SegView>::empty());
    }
    out
}

} // verus!
