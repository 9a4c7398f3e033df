use vstd::prelude::*;

use crate::absolutize::absolutize_bytes;
use crate::codec::{
    ascii_bytes, join_segments, join_spec, lemma_join_ascii, lemma_parse_join,
    lemma_parse_nonempty, lemma_parse_wf, lemma_views_push, parse_segments, parse_spec, seg_bytes,
    views_of,
};
use crate::normalize::{
    lemma_normalize_abs_clean, lemma_normalize_from_clean, lemma_normalize_from_concat,
    lemma_normalize_from_parents, lemma_normalize_from_wf, normalize_abs, normalize_absolute,
    normalize_from, parents,
};
use crate::segment::{
    is_abs, is_clean, name_wf, seg_copy, seg_eq, seg_wf, segs_wf, SegView, Segment, DOT, SEP,
    TILDE,
};

verus! {

/// Why a path operation failed.
#[derive(Debug)]
pub enum CalcError {
    /// The ambient home directory is unset or empty while a leading `~`
    /// needs it, or two paths have different root markers.
    InvalidInput,
    /// The absolutization collaborator failed; its error is carried along
    /// unchanged.
    Absolutize(std::io::Error),
}

impl CalcError {
    /// True exactly on the invalid-input variant.
    pub fn is_invalid_input(&self) -> (r: bool)
        ensures
            r == (self is InvalidInput),
    {
        match self {
            CalcError::InvalidInput => true,
            CalcError::Absolutize(_) => false,
        }
    }
}

/// A filesystem path, held as its sequence of segments.
#[derive(Debug)]
pub struct CalcPath {
    segments: Vec<Segment>,
}

impl View for CalcPath {
    type V = Seq<SegView>;

    closed spec fn view(&self) -> Seq<SegView> {
        views_of(self.segments@)
    }
}

/// The home directory an ambient value provides: the parsed bytes when they
/// are set and non-empty, nothing otherwise.
pub open spec fn home_view(env_home: Option<Vec<u8>>) -> Option<Seq<SegView>> {
    match env_home {
        Some(h) => if h@.len() > 0 {
            Some(parse_spec(h@))
        } else {
            None
        },
        None => None,
    }
}

/// Whether the very first segment is the home marker `~`.
pub open spec fn starts_with_home(s: Seq<SegView>) -> bool {
    s.len() > 0 && s[0] == SegView::Normal(seq![TILDE])
}

/// Every segment's bytes are plain ASCII.
pub open spec fn ascii_segs(s: Seq<SegView>) -> bool {
    forall|i: int| 0 <= i < s.len() ==> ascii_bytes(seg_bytes(#[trigger] s[i]))
}

/// The absolutized form of a path, where it is a function of the path and
/// the ambient home directory alone: a home-led path becomes the home
/// directory followed by the remaining segments; an absolute path resolves
/// lexically (for a root-led path only its ASCII form is pinned, since the
/// bytes cross a UTF-8 boundary). Relative paths depend on the working
/// directory and are not pinned.
pub open spec fn abs_spec(s: Seq<SegView>, env_home: Option<Vec<u8>>) -> Option<Seq<SegView>> {
    if starts_with_home(s) {
        match home_view(env_home) {
            Some(h) => Some(h + s.skip(1)),
            None => None,
        }
    } else if is_abs(s) && (s[0] is Prefix || ascii_segs(s)) {
        Some(normalize_abs(s))
    } else {
        None
    }
}

/// What is known of an absolutized path `q` coming from `s`: it is non-empty
/// and well formed; where absolutization is pinned it is exactly the pinned
/// value; where `s` was not home-led it begins at a root or prefix marker.
pub open spec fn abs_ok(s: Seq<SegView>, env_home: Option<Vec<u8>>, q: Seq<SegView>) -> bool {
    &&& q.len() > 0
    &&& segs_wf(q)
    &&& (abs_spec(s, env_home) matches Some(v) ==> q == v)
    &&& (!starts_with_home(s) ==> (q[0] is Root || q[0] is Prefix))
}

impl CalcPath {
    /// Well-formedness: the segment sequence obeys `segs_wf`.
    pub open spec fn wf(&self) -> bool {
        segs_wf(self@)
    }

    /// Parses a byte path into a path value.
    pub fn parse(bytes: &Vec<u8>) -> (r: CalcPath)
        ensures
            r@ == parse_spec(bytes@),
            r.wf(),
            bytes@.len() > 0 ==> r@.len() > 0,
    {
        proof {
            lemma_parse_wf(bytes@);
            lemma_parse_nonempty(bytes@);
        }
        CalcPath { segments: parse_segments(bytes) }
    }

    /// Builds a path from segments, when they are well formed.
    pub fn from_segments(segs: Vec<Segment>) -> (r: Option<CalcPath>)
        ensures
            r matches Some(p) ==> p@ == views_of(segs@) && p.wf(),
            r is None ==> !segs_wf(views_of(segs@)),
    {
        let ghost v = views_of(segs@);
        let mut i: usize = 0;
        while i < segs.len()
            invariant
                i <= segs@.len(),
                v == views_of(segs@),
                v.len() == segs@.len(),
                forall|j: int| 0 <= j < i ==> seg_wf(#[trigger] v[j]),
                forall|j: int|
                    1 <= j < i ==> !((#[trigger] v[j]) is Root || v[j] is Prefix
                        || v[j] is CurDir),
            decreases segs@.len() - i,
        {
            let ok = match &segs[i] {
                Segment::Root => i == 0,
                Segment::Prefix(p) => i == 0 && name_ok_prefix(p),
                Segment::CurDir => i == 0,
                Segment::ParentDir => true,
                Segment::Normal(n) => name_ok(n),
            };
            if !ok {
                proof {
                    assert(v[i as int] == segs@[i as int]@);
                    assert(!segs_wf(v));
                }
                return None;
            }
            proof {
                assert(v[i as int] == segs@[i as int]@);
            }
            i = i + 1;
        }
        Some(CalcPath { segments: segs })
    }

    /// The segments of the path.
    pub fn segments(&self) -> (r: &Vec<Segment>)
        ensures
            views_of(r@) == self@,
    {
        &self.segments
    }

    /// The byte form of the path, its segments joined with the separator.
    pub fn to_bytes(&self) -> (r: Vec<u8>)
        ensures
            r@ == join_spec(self@),
    {
        join_segments(&self.segments)
    }

    /// Converts the path into an absolute path: a leading `~` segment is
    /// replaced by the ambient home directory, and every other path is
    /// handed to the absolutization collaborator, which resolves it against
    /// the working directory (an already-absolute drive-prefixed path is
    /// resolved lexically, as the collaborator does with absolute paths).
    ///
    /// An already-absolute clean path comes back unchanged, and a home-led
    /// path comes back as the home directory followed by the remaining
    /// segments.
    pub fn as_absolute_path(&self, env_home: &Option<Vec<u8>>) -> (r: Result<CalcPath, CalcError>)
        requires
            self.wf(),
        ensures
            r matches Ok(p) ==> abs_ok(self@, *env_home, p@) && p.wf(),
            abs_spec(self@, *env_home) is Some ==> r is Ok,
            starts_with_home(self@) ==> (r is Ok <==> home_view(*env_home) is Some),
            starts_with_home(self@) ==> (r matches Err(e) ==> e is InvalidInput),
            !starts_with_home(self@) ==> (r matches Err(e) ==> e is Absolutize),
            starts_with_home(self@) ==> (home_view(*env_home) matches Some(h) ==> (r matches Ok(p)
                && p@ == h + self@.skip(1))),
            is_abs(self@) && is_clean(self@) && (self@[0] is Root ==> ascii_segs(self@)) ==> (
            r matches Ok(p) && p@ == self@),
    {
        proof {
            if is_abs(self@) && is_clean(self@) {
                lemma_normalize_abs_clean(self@);
            }
        }
        let home_led = if self.segments.len() > 0 {
            match &self.segments[0] {
                Segment::Normal(n) => {
                    let t = n.len() == 1 && n[0] == TILDE;
                    proof {
                        assert(self@[0] == self.segments@[0]@);
                        if t {
                            assert(n@ =~= seq![TILDE]);
                        } else {
                            if n@ == seq![TILDE] {
                                assert(n@.len() == 1);
                                assert(n@[0] == TILDE);
                            }
                        }
                    }
                    t
                },
                _ => {
                    proof {
                        assert(self@[0] == self.segments@[0]@);
                    }
                    false
                },
            }
        } else {
            false
        };
        proof {
            assert(home_led == starts_with_home(self@));
        }
        if home_led {
            let home = match Self::home_dir(env_home) {
                Ok(h) => h,
                Err(e) => {
                    return Err(e);
                },
            };
            let ghost hview = home@;
            let ghost sview = self@;
            let CalcPath { segments: mut segs } = home;
            let mut i: usize = 1;
            proof {
                assert(views_of(segs@) =~= hview + sview.subrange(1, 1));
            }
            while i < self.segments.len()
                invariant
                    1 <= i <= self.segments@.len(),
                    sview == views_of(self.segments@),
                    sview.len() == self.segments@.len(),
                    views_of(segs@) == hview + sview.subrange(1, i as int),
                decreases self.segments@.len() - i,
            {
                let ghost segs0 = segs@;
                segs.push(seg_copy(&self.segments[i]));
                proof {
                    lemma_views_push(segs0, segs@[segs@.len() - 1]);
                    assert(sview[i as int] == self.segments@[i as int]@);
                    assert(views_of(segs@) =~= hview + sview.subrange(1, i as int + 1));
                }
                i = i + 1;
            }
            let out = CalcPath { segments: segs };
            proof {
                assert(sview.subrange(1, sview.len() as int) =~= sview.skip(1));
                assert(out@ == hview + sview.skip(1));
                assert(segs_wf(out@)) by {
                    assert forall|j: int| 0 <= j < out@.len() implies seg_wf(
                        #[trigger] out@[j],
                    ) by {
                        if j < hview.len() {
                            assert(out@[j] == hview[j]);
                        } else {
                            assert(out@[j] == sview[j - hview.len() + 1]);
                        }
                    }
                    assert forall|j: int| 1 <= j < out@.len() implies !((#[trigger] out@[j]) is Root
                        || out@[j] is Prefix || out@[j] is CurDir) by {
                        if j < hview.len() {
                            assert(out@[j] == hview[j]);
                        } else {
                            assert(out@[j] == sview[j - hview.len() + 1]);
                        }
                    }
                }
            }
            Ok(out)
        } else {
            let prefix_led = if self.segments.len() > 0 {
                match &self.segments[0] {
                    Segment::Prefix(_) => {
                        proof {
                            assert(self@[0] == self.segments@[0]@);
                        }
                        true
                    },
                    _ => {
                        proof {
                            assert(self@[0] == self.segments@[0]@);
                        }
                        false
                    },
                }
            } else {
                false
            };
            if prefix_led {
                let out_segs = normalize_absolute(&self.segments);
                let out = CalcPath { segments: out_segs };
                proof {
                    assert(seq![self@[0]].len() > 0);
                    assert(segs_wf(seq![self@[0]]));
                    assert forall|j: int|
                        0 <= j < self@.skip(1).len() implies seg_wf(#[trigger] self@.skip(1)[j])
                        && !(self@.skip(1)[j] is Root || self@.skip(1)[j] is Prefix || self@.skip(
                        1,
                    )[j] is CurDir) by {
                        assert(self@.skip(1)[j] == self@[j + 1]);
                    }
                    lemma_normalize_from_wf(seq![self@[0]], self@.skip(1));
                    assert(out@ == normalize_abs(self@));
                }
                Ok(out)
            } else {
                let b = join_segments(&self.segments);
                proof {
                    if self@.len() > 0 && self@[0] is Root {
                        lemma_parse_join(self@);
                        if ascii_segs(self@) {
                            lemma_join_ascii(self@);
                        }
                    }
                }
                match absolutize_bytes(&b) {
                    Ok(out_bytes) => {
                        let p = CalcPath::parse(&out_bytes);
                        Ok(p)
                    },
                    Err(e) => Err(CalcError::Absolutize(e)),
                }
            }
        }
    }

    /// Returns the deepest common ancestor of the two paths, both
    /// absolutized first: their root markers must be equal, and the result
    /// is the root followed by the longest common run of equal segments.
    ///
    /// Fails with the invalid-input error when the two roots differ (two
    /// different drive prefixes have no common ancestor), and propagates any
    /// absolutization failure.
    pub fn relative_root_with(&self, path_b: &CalcPath, env_home: &Option<Vec<u8>>) -> (r: Result<
        CalcPath,
        CalcError,
    >)
        requires
            self.wf(),
            path_b.wf(),
        ensures
            r matches Ok(p) ==> p.wf() && p@.len() > 0 && (exists|pa: Seq<SegView>, pb: Seq<SegView>|
                #![trigger abs_ok(self@, *env_home, pa), abs_ok(path_b@, *env_home, pb)]
                abs_ok(self@, *env_home, pa) && abs_ok(path_b@, *env_home, pb) && pa[0] == pb[0]
                    && p@ == relative_root_spec(pa, pb)),
            abs_spec(self@, *env_home) matches Some(pa) ==> (abs_spec(path_b@, *env_home) matches Some(
                pb,
            ) ==> (if pa[0] == pb[0] {
                r matches Ok(p) && p@ == relative_root_spec(pa, pb)
            } else {
                r matches Err(e) && e is InvalidInput
            })),
            starts_with_home(self@) && home_view(*env_home) is None ==> (r matches Err(e)
                && e is InvalidInput),
            starts_with_home(path_b@) && home_view(*env_home) is None ==> r is Err,
    {
        let pa = match self.as_absolute_path(env_home) {
            Ok(p) => p,
            Err(e) => {
                return Err(e);
            },
        };
        let pb = match path_b.as_absolute_path(env_home) {
            Ok(p) => p,
            Err(e) => {
                return Err(e);
            },
        };
        let ghost va = pa@;
        let ghost vb = pb@;
        proof {
            assert(va.len() == pa.segments@.len());
            assert(vb.len() == pb.segments@.len());
            assert(va[0] == pa.segments@[0]@);
            assert(vb[0] == pb.segments@[0]@);
        }
        if !seg_eq(&pa.segments[0], &pb.segments[0]) {
            return Err(CalcError::InvalidInput);
        }
        let k = common_prefix_len(&pa.segments, &pb.segments);
        proof {
            assert(lcp(va, vb) >= 1);
            lemma_lcp(va, vb);
        }
        let mut segs: Vec<Segment> = Vec::new();
        let mut i: usize = 0;
        proof {
            assert(views_of(segs@) =~= va.subrange(0, 0));
        }
        while i < k
            invariant
                i <= k,
                k <= pa.segments@.len(),
                va == views_of(pa.segments@),
                va.len() == pa.segments@.len(),
                views_of(segs@) == va.subrange(0, i as int),
            decreases k - i,
        {
            let ghost segs0 = segs@;
            segs.push(seg_copy(&pa.segments[i]));
            proof {
                lemma_views_push(segs0, segs@[segs@.len() - 1]);
                assert(va[i as int] == pa.segments@[i as int]@);
                assert(views_of(segs@) =~= va.subrange(0, i as int + 1));
            }
            i = i + 1;
        }
        let out = CalcPath { segments: segs };
        proof {
            assert(out@ == va.take(lcp(va, vb) as int));
            assert(segs_wf(out@)) by {
                assert forall|j: int| 0 <= j < out@.len() implies seg_wf(#[trigger] out@[j]) by {
                    assert(out@[j] == va[j]);
                }
                assert forall|j: int| 1 <= j < out@.len() implies !((#[trigger] out@[j]) is Root
                    || out@[j] is Prefix || out@[j] is CurDir) by {
                    assert(out@[j] == va[j]);
                }
            }
            assert(abs_ok(self@, *env_home, va) && abs_ok(path_b@, *env_home, vb) && va[0] == vb[0]
                && out@ == relative_root_spec(va, vb));
        }
        Ok(out)
    }

    /// Returns the relative path that leads from the source path's location
    /// to this path's location, both absolutized first: one parent marker
    /// for every segment the source has past their common prefix, then this
    /// path's remaining segments.
    ///
    /// Fails with the invalid-input error when the two roots differ, and
    /// propagates any absolutization failure.
    pub fn related_to(&self, src_path: &CalcPath, env_home: &Option<Vec<u8>>) -> (r: Result<
        CalcPath,
        CalcError,
    >)
        requires
            self.wf(),
            src_path.wf(),
        ensures
            r matches Ok(p) ==> p.wf() && (exists|pa: Seq<SegView>, pb: Seq<SegView>|
                #![trigger abs_ok(self@, *env_home, pa), abs_ok(src_path@, *env_home, pb)]
                abs_ok(self@, *env_home, pa) && abs_ok(src_path@, *env_home, pb) && pa[0] == pb[0]
                    && p@ == related_spec(pa, pb)),
            abs_spec(self@, *env_home) matches Some(pa) ==> (abs_spec(src_path@, *env_home) matches Some(
                pb,
            ) ==> (if pa[0] == pb[0] {
                r matches Ok(p) && p@ == related_spec(pa, pb)
            } else {
                r matches Err(e) && e is InvalidInput
            })),
            starts_with_home(self@) && home_view(*env_home) is None ==> (r matches Err(e)
                && e is InvalidInput),
            starts_with_home(src_path@) && home_view(*env_home) is None ==> r is Err,
    {
        let pa = match self.as_absolute_path(env_home) {
            Ok(p) => p,
            Err(e) => {
                return Err(e);
            },
        };
        let pb = match src_path.as_absolute_path(env_home) {
            Ok(p) => p,
            Err(e) => {
                return Err(e);
            },
        };
        let ghost va = pa@;
        let ghost vb = pb@;
        proof {
            assert(va.len() == pa.segments@.len());
            assert(vb.len() == pb.segments@.len());
            assert(va[0] == pa.segments@[0]@);
            assert(vb[0] == pb.segments@[0]@);
        }
        if !seg_eq(&pa.segments[0], &pb.segments[0]) {
            return Err(CalcError::InvalidInput);
        }
        let k = common_prefix_len(&pa.segments, &pb.segments);
        proof {
            assert(lcp(va, vb) >= 1);
            lemma_lcp(va, vb);
        }
        let mut segs: Vec<Segment> = Vec::new();
        let mut i: usize = k;
        proof {
            assert(views_of(segs@) =~= parents(0));
        }
        while i < pb.segments.len()
            invariant
                k <= i <= pb.segments@.len(),
                vb.len() == pb.segments@.len(),
                views_of(segs@) == parents((i - k) as nat),
            decreases pb.segments@.len() - i,
        {
            let ghost segs0 = segs@;
            segs.push(Segment::ParentDir);
            proof {
                lemma_views_push(segs0, segs@[segs@.len() - 1]);
                assert(views_of(segs@) =~= parents((i + 1 - k) as nat));
            }
            i = i + 1;
        }
        let ghost m = (vb.len() - k) as nat;
        let mut i2: usize = k;
        proof {
            assert(views_of(segs@) =~= parents(m) + va.subrange(k as int, k as int));
        }
        while i2 < pa.segments.len()
            invariant
                k <= i2 <= pa.segments@.len(),
                va == views_of(pa.segments@),
                va.len() == pa.segments@.len(),
                views_of(segs@) == parents(m) + va.subrange(k as int, i2 as int),
            decreases pa.segments@.len() - i2,
        {
            let ghost segs0 = segs@;
            segs.push(seg_copy(&pa.segments[i2]));
            proof {
                lemma_views_push(segs0, segs@[segs@.len() - 1]);
                assert(va[i2 as int] == pa.segments@[i2 as int]@);
                assert(views_of(segs@) =~= parents(m) + va.subrange(k as int, i2 as int + 1));
            }
            i2 = i2 + 1;
        }
        let out = CalcPath { segments: segs };
        proof {
            assert(va.subrange(k as int, va.len() as int) =~= va.skip(k as int));
            assert(out@ == related_spec(va, vb));
            assert(segs_wf(out@)) by {
                assert forall|j: int| 0 <= j < out@.len() implies seg_wf(#[trigger] out@[j]) by {
                    if j >= m {
                        assert(out@[j] == va[j - m + k]);
                    }
                }
                assert forall|j: int| 1 <= j < out@.len() implies !((#[trigger] out@[j]) is Root
                    || out@[j] is Prefix || out@[j] is CurDir) by {
                    if j >= m {
                        assert(out@[j] == va[j - m + k]);
                    }
                }
            }
            assert(abs_ok(self@, *env_home, va) && abs_ok(src_path@, *env_home, vb) && va[0]
                == vb[0] && out@ == related_spec(va, vb));
        }
        Ok(out)
    }

    /// Returns the ambient home directory as a path.
    ///
    /// Fails with the invalid-input error exactly when the ambient value is
    /// unset or empty.
    pub fn home_dir(env_home: &Option<Vec<u8>>) -> (r: Result<CalcPath, CalcError>)
        ensures
            r matches Ok(p) ==> home_view(*env_home) == Some(p@) && p.wf() && p@.len() > 0,
            r matches Err(e) ==> e is InvalidInput && home_view(*env_home) is None,
            r is Ok <==> home_view(*env_home) is Some,
    {
        match env_home {
            Some(h) => {
                if h.len() == 0 {
                    Err(CalcError::InvalidInput)
                } else {
                    Ok(CalcPath::parse(h))
                }
            },
            None => Err(CalcError::InvalidInput),
        }
    }
}

/// The length of the longest common prefix of two segment sequences.
pub open spec fn lcp(a: Seq<SegView>, b: Seq<SegView>) -> nat
    decreases a.len(),
{
    if a.len() == 0 || b.len() == 0 || a[0] != b[0] {
        0
    } else {
        1 + lcp(a.skip(1), b.skip(1))
    }
}

/// The deepest common ancestor of two absolutized paths whose roots agree:
/// the longest common segment-wise prefix.
pub open spec fn relative_root_spec(a: Seq<SegView>, b: Seq<SegView>) -> Seq<SegView> {
    a.take(lcp(a, b) as int)
}

/// The relative path from `b`'s location to `a`'s: one parent marker for
/// each segment of `b` past the common prefix, then `a`'s segments past it.
pub open spec fn related_spec(a: Seq<SegView>, b: Seq<SegView>) -> Seq<SegView> {
    parents((b.len() - lcp(a, b)) as nat) + a.skip(lcp(a, b) as int)
}

/// Basic facts of the longest common prefix.
pub proof fn lemma_lcp(a: Seq<SegView>, b: Seq<SegView>)
    ensures
        lcp(a, b) <= a.len(),
        lcp(a, b) <= b.len(),
        forall|j: int| 0 <= j < lcp(a, b) ==> a[j] == b[j],
        lcp(a, b) < a.len() && lcp(a, b) < b.len() ==> a[lcp(a, b) as int] != b[lcp(a, b) as int],
    decreases a.len(),
{
    if a.len() > 0 && b.len() > 0 && a[0] == b[0] {
        lemma_lcp(a.skip(1), b.skip(1));
        let l = lcp(a, b) as int;
        assert forall|j: int| 0 <= j < l implies a[j] == b[j] by {
            if j > 0 {
                assert(a.skip(1)[j - 1] == a[j]);
                assert(b.skip(1)[j - 1] == b[j]);
            }
        }
        if l < a.len() && l < b.len() {
            assert(a.skip(1)[l - 1] == a[l]);
            assert(b.skip(1)[l - 1] == b[l]);
        }
    }
}

/// The longest common prefix does not depend on the order of its arguments.
pub proof fn lemma_lcp_sym(a: Seq<SegView>, b: Seq<SegView>)
    ensures
        lcp(a, b) == lcp(b, a),
    decreases a.len(),
{
    if a.len() > 0 && b.len() > 0 && a[0] == b[0] {
        lemma_lcp_sym(a.skip(1), b.skip(1));
    }
}

/// An agreeing prefix that cannot be extended is the longest common prefix.
pub proof fn lemma_lcp_pin(a: Seq<SegView>, b: Seq<SegView>, k: int)
    requires
        0 <= k <= a.len(),
        k <= b.len(),
        forall|j: int| 0 <= j < k ==> a[j] == b[j],
        k == a.len() || k == b.len() || a[k] != b[k],
    ensures
        lcp(a, b) == k,
    decreases a.len(),
{
    if k == 0 {
        if a.len() > 0 && b.len() > 0 && a[0] == b[0] {
            assert(false);
        }
    } else {
        assert(a[0] == b[0]);
        assert forall|j: int| 0 <= j < k - 1 implies a.skip(1)[j] == b.skip(1)[j] by {
            assert(a.skip(1)[j] == a[j + 1]);
            assert(b.skip(1)[j] == b[j + 1]);
        }
        if k < a.len() && k < b.len() {
            assert(a.skip(1)[k - 1] == a[k]);
            assert(b.skip(1)[k - 1] == b[k]);
        }
        lemma_lcp_pin(a.skip(1), b.skip(1), k - 1);
    }
}

/// The length of the common prefix of two segment vectors.
fn common_prefix_len(a: &Vec<Segment>, b: &Vec<Segment>) -> (k: usize)
    ensures
        k == lcp(views_of(a@), views_of(b@)),
{
    let ghost va = views_of(a@);
    let ghost vb = views_of(b@);
    let mut k: usize = 0;
    loop
        invariant
            k <= va.len(),
            k <= vb.len(),
            va == views_of(a@),
            vb == views_of(b@),
            va.len() == a@.len(),
            vb.len() == b@.len(),
            forall|j: int| 0 <= j < k ==> va[j] == vb[j],
        ensures
            k <= va.len(),
            k <= vb.len(),
            forall|j: int| 0 <= j < k ==> va[j] == vb[j],
            k == va.len() || k == vb.len() || va[k as int] != vb[k as int],
        decreases va.len() - k,
    {
        if k >= a.len() || k >= b.len() {
            break;
        }
        let same = seg_eq(&a[k], &b[k]);
        proof {
            assert(va[k as int] == a@[k as int]@);
            assert(vb[k as int] == b@[k as int]@);
        }
        if !same {
            break;
        }
        k = k + 1;
    }
    proof {
        lemma_lcp_pin(va, vb, k as int);
    }
    k
}

/// The relative root does not depend on the order of the two paths.
pub proof fn lemma_relative_root_symmetric(a: Seq<SegView>, b: Seq<SegView>)
    ensures
        relative_root_spec(a, b) == relative_root_spec(b, a),
{
    lemma_lcp_sym(a, b);
    lemma_lcp(a, b);
    assert(a.take(lcp(a, b) as int) =~= b.take(lcp(b, a) as int));
}

/// The relative root is a segment-wise prefix of both paths.
pub proof fn lemma_relative_root_prefix(a: Seq<SegView>, b: Seq<SegView>)
    ensures
        relative_root_spec(a, b).is_prefix_of(a),
        relative_root_spec(a, b).is_prefix_of(b),
{
    lemma_lcp(a, b);
    let l = lcp(a, b) as int;
    assert(a.take(l) =~= a.subrange(0, l));
    assert(a.take(l) =~= b.subrange(0, l));
}

/// Resolving the relative steps against the source location yields the
/// destination: starting at absolute clean `b` that shares its root with
/// absolute clean `a`, ascending once for each of `b`'s extra segments and
/// then descending through `a`'s reconstructs `a`.
pub proof fn lemma_related_round_trip(a: Seq<SegView>, b: Seq<SegView>)
    requires
        is_abs(a),
        is_abs(b),
        is_clean(a),
        is_clean(b),
        a[0] == b[0],
    ensures
        normalize_from(b, related_spec(a, b)) == a,
{
    lemma_lcp(a, b);
    let l = lcp(a, b) as int;
    assert(l >= 1);
    let m = (b.len() - l) as nat;
    lemma_normalize_from_concat(b, parents(m), a.skip(l));
    lemma_normalize_from_parents(b, m);
    assert(b.take(b.len() - m) =~= a.take(l)) by {
        lemma_lcp(a, b);
    }
    assert forall|i: int|
        0 <= i < a.skip(l).len() implies !((#[trigger] a.skip(l)[i]) is CurDir || a.skip(
        l,
    )[i] is ParentDir) by {
        assert(a.skip(l)[i] == a[i + l]);
    }
    lemma_normalize_from_clean(a.take(l), a.skip(l));
    assert(a.take(l) + a.skip(l) =~= a);
}

/// Checks `name_wf` of a named segment's bytes.
fn name_ok(n: &Vec<u8>) -> (r: bool)
    ensures
        r == name_wf(n@),
{
    if n.len() == 0 {
        return false;
    }
    let mut i: usize = 0;
    while i < n.len()
        invariant
            i <= n@.len(),
            forall|j: int| 0 <= j < i ==> n@[j] != SEP,
        decreases n@.len() - i,
    {
        if n[i] == SEP {
            proof {
                assert(!name_wf(n@));
            }
            return false;
        }
        i = i + 1;
    }
    if n.len() == 1 && n[0] == DOT {
        proof {
            assert(n@ =~= seq![DOT]);
        }
        return false;
    }
    if n.len() == 2 && n[0] == DOT && n[1] == DOT {
        proof {
            assert(n@ =~= seq![DOT, DOT]);
        }
        return false;
    }
    proof {
        assert(n@ != seq![DOT]) by {
            if n@ == seq![DOT] {
                assert(n@.len() == 1);
                assert(n@[0] == DOT);
            }
        }
        assert(n@ != seq![DOT, DOT]) by {
            if n@ == seq![DOT, DOT] {
                assert(n@.len() == 2);
                assert(n@[0] == DOT);
                assert(n@[1] == DOT);
            }
        }
    }
    true
}

/// Checks the well-formedness of a drive-prefix marker's bytes.
fn name_ok_prefix(p: &Vec<u8>) -> (r: bool)
    ensures
        r == (p@.len() > 0 && forall|i: int| 0 <= i < p@.len() ==> p@[i] != SEP),
{
    if p.len() == 0 {
        return false;
    }
    let mut i: usize = 0;
    while i < p.len()
        invariant
            i <= p@.len(),
            forall|j: int| 0 <= j < i ==> p@[j] != SEP,
        decreases p@.len() - i,
    {
        if p[i] == SEP {
            return false;
        }
        i = i + 1;
    }
    true
}

} // verus!
