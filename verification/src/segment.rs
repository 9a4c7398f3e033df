use vstd::prelude::*;

verus! {

/// The byte used to separate path segments.
pub const SEP: u8 = 47;

/// The byte `.`, used by the current-directory and parent-directory markers.
pub const DOT: u8 = 46;

/// The byte `~`, the home-directory marker when it forms the whole first segment.
pub const TILDE: u8 = 126;

/// One component of a path: a root marker (`/`), a drive-letter prefix such as
/// `C:`, the current-directory marker (`.`), the parent-directory marker
/// (`..`), or a named segment.
#[derive(Debug)]
pub enum Segment {
    Root,
    Prefix(Vec<u8>),
    CurDir,
    ParentDir,
    Normal(Vec<u8>),
}

/// The mathematical value of a `Segment`: the same shape over `Seq<u8>`.
pub enum SegView {
    Root,
    Prefix(Seq<u8>),
    CurDir,
    ParentDir,
    Normal(Seq<u8>),
}

impl View for Segment {
    type V = SegView;

    open spec fn view(&self) -> SegView {
        match self {
            Segment::Root => SegView::Root,
            Segment::Prefix(p) => SegView::Prefix(p@),
            Segment::CurDir => SegView::CurDir,
            Segment::ParentDir => SegView::ParentDir,
            Segment::Normal(n) => SegView::Normal(n@),
        }
    }
}

/// A named segment's bytes: non-empty, free of the separator, and not one of
/// the two dot markers (those are represented by `CurDir` and `ParentDir`).
pub open spec fn name_wf(n: Seq<u8>) -> bool {
    &&& n.len() > 0
    &&& forall|i: int| 0 <= i < n.len() ==> n[i] != SEP
    &&& n != seq![DOT]
    &&& n != seq![DOT, DOT]
}

/// Well-formedness of one segment.
pub open spec fn seg_wf(s: SegView) -> bool {
    match s {
        SegView::Normal(n) => name_wf(n),
        SegView::Prefix(p) => p.len() > 0 && forall|i: int| 0 <= i < p.len() ==> p[i] != SEP,
        _ => true,
    }
}

/// Well-formedness of a whole segment sequence: every segment is well formed,
/// and a root marker, a prefix, or a current-directory marker can stand only
/// in first position.
pub open spec fn segs_wf(s: Seq<SegView>) -> bool {
    &&& forall|i: int| 0 <= i < s.len() ==> seg_wf(#[trigger] s[i])
    &&& forall|i: int|
        1 <= i < s.len() ==> !((#[trigger] s[i]) is Root || s[i] is Prefix || s[i] is CurDir)
}

/// A sequence of segments stands for an absolute path when it begins with a
/// root or drive-prefix marker.
pub open spec fn is_abs(s: Seq<SegView>) -> bool {
    s.len() > 0 && (s[0] is Root || s[0] is Prefix)
}

/// A sequence of segments is clean when it holds no `.` or `..` markers.
pub open spec fn is_clean(s: Seq<SegView>) -> bool {
    forall|i: int| 0 <= i < s.len() ==> !((#[trigger] s[i]) is CurDir || s[i] is ParentDir)
}

/// Copies a byte vector element by element.
pub fn copy_bytes(v: &Vec<u8>) -> (r: Vec<u8>)
    ensures
        r@ == v@,
{
    let mut r: Vec<u8> = Vec::new();
    let mut i: usize = 0;
    while i < v.len()
        invariant
            i <= v.len(),
            r@ == v@.take(i as int),
        decreases v.len() - i,
    {
        r.push(v[i]);
        i = i + 1;
        proof {
            assert(r@ =~= v@.take(i as int));
        }
    }
    proof {
        assert(v@.take(v@.len() as int) =~= v@);
    }
    r
}

/// Copies one segment.
pub fn seg_copy(s: &Segment) -> (r: Segment)
    ensures
        r@ == s@,
{
    match s {
        Segment::Root => Segment::Root,
        Segment::Prefix(p) => Segment::Prefix(copy_bytes(p)),
        Segment::CurDir => Segment::CurDir,
        Segment::ParentDir => Segment::ParentDir,
        Segment::Normal(n) => Segment::Normal(copy_bytes(n)),
    }
}

/// Decides equality of two segments at the level of their views.
pub fn seg_eq(a: &Segment, b: &Segment) -> (r: bool)
    ensures
        r == (a@ == b@),
{
    match (a, b) {
        (Segment::Root, Segment::Root) => true,
        (Segment::CurDir, Segment::CurDir) => true,
        (Segment::ParentDir, Segment::ParentDir) => true,
        (Segment::Prefix(x), Segment::Prefix(y)) => bytes_eq(x, y),
        (Segment::Normal(x), Segment::Normal(y)) => bytes_eq(x, y),
        _ => false,
    }
}

/// Decides equality of two byte vectors at the level of their views.
pub fn bytes_eq(a: &Vec<u8>, b: &Vec<u8>) -> (r: bool)
    ensures
        r == (a@ == b@),
{
    if a.len() != b.len() {
        proof {
            assert(a@ != b@);
        }
        return false;
    }
    let mut i: usize = 0;
    while i < a.len()
        invariant
            i <= a.len(),
            a@.len() == b@.len(),
            forall|j: int| 0 <= j < i ==> a@[j] == b@[j],
        decreases a.len() - i,
    {
        if a[i] != b[i] {
            proof {
                assert(a@ != b@);
            }
            return false;
        }
        i = i + 1;
    }
    proof {
        assert(a@ =~= b@);
    }
    true
}

} // verus!
