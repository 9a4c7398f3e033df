use vstd::prelude::*;

use crate::segment::{
    copy_bytes, name_wf, seg_wf, segs_wf, SegView, Segment, DOT, SEP,
};

verus! {

/// The views of a sequence of segments.
pub open spec fn views_of(s: Seq<Segment>) -> Seq<SegView> {
    s.map_values(|x: Segment| x@)
}

/// The longest separator-free prefix of `b`: the first token of a byte path.
pub open spec fn token_at(b: Seq<u8>) -> Seq<u8>
    decreases b.len(),
{
    if b.len() == 0 || b[0] == SEP {
        Seq::empty()
    } else {
        seq![b[0]] + token_at(b.skip(1))
    }
}

/// `token_at(b)` is the prefix of `b` that ends at the first separator.
pub proof fn lemma_token_at(b: Seq<u8>)
    ensures
        token_at(b).len() <= b.len(),
        b.len() > 0 && b[0] != SEP ==> token_at(b).len() >= 1,
        forall|i: int| #![trigger token_at(b)[i]]
            0 <= i < token_at(b).len() ==> token_at(b)[i] == b[i],
        forall|i: int| #![trigger b[i]] 0 <= i < token_at(b).len() ==> b[i] != SEP,
        token_at(b).len() < b.len() ==> b[token_at(b).len() as int] == SEP,
    decreases b.len(),
{
    if b.len() > 0 && b[0] != SEP {
        lemma_token_at(b.skip(1));
        assert forall|i: int| #![trigger token_at(b)[i]]
            0 <= i < token_at(b).len() implies token_at(b)[i] == b[i] by {
            if i > 0 {
                assert(token_at(b)[i] == token_at(b.skip(1))[i - 1]);
                assert(b.skip(1)[i - 1] == b[i]);
            }
        }
        assert forall|i: int| #![trigger b[i]] 0 <= i < token_at(b).len() implies b[i] != SEP by {
            if i > 0 {
                assert(b.skip(1)[i - 1] == b[i]);
                assert(b.skip(1)[i - 1] != SEP);
            }
        }
        if token_at(b).len() < b.len() {
            assert(b.skip(1)[token_at(b.skip(1)).len() as int] == b[token_at(b).len() as int]);
        }
    }
}

/// The tokens of a byte path: the maximal separator-free non-empty runs,
/// in order.
pub open spec fn tokens(b: Seq<u8>) -> Seq<Seq<u8>>
    decreases b.len(),
    via tokens_dec
{
    if b.len() == 0 {
        Seq::empty()
    } else if b[0] == SEP {
        tokens(b.skip(1))
    } else {
        seq![token_at(b)] + tokens(b.skip(token_at(b).len() as int))
    }
}

#[via_fn]
proof fn tokens_dec(b: Seq<u8>) {
    if b.len() > 0 && b[0] != SEP {
        lemma_token_at(b);
    }
}

/// Classifies tokens after the first position: `.` is elided, `..` becomes a
/// parent-directory marker, anything else a named segment.
pub open spec fn classify_rest(ts: Seq<Seq<u8>>) -> Seq<SegView>
    decreases ts.len(),
{
    if ts.len() == 0 {
        Seq::empty()
    } else {
        let rest = classify_rest(ts.skip(1));
        if ts[0] == seq![DOT] {
            rest
        } else if ts[0] == seq![DOT, DOT] {
            seq![SegView::ParentDir] + rest
        } else {
            seq![SegView::Normal(ts[0])] + rest
        }
    }
}

/// Classifies the tokens of a relative path: a leading `.` is kept as the
/// current-directory marker, the rest as in `classify_rest`.
pub open spec fn classify_rel(ts: Seq<Seq<u8>>) -> Seq<SegView> {
    if ts.len() > 0 && ts[0] == seq![DOT] {
        seq![SegView::CurDir] + classify_rest(ts.skip(1))
    } else {
        classify_rest(ts)
    }
}

/// The segments of a byte path: a leading separator becomes the root marker,
/// and the tokens follow, classified.
pub open spec fn parse_spec(b: Seq<u8>) -> Seq<SegView> {
    if b.len() == 0 {
        Seq::empty()
    } else if b[0] == SEP {
        seq![SegView::Root] + classify_rest(tokens(b))
    } else {
        classify_rel(tokens(b))
    }
}

/// The bytes a lone segment contributes to the joined form of a path.
pub open spec fn seg_bytes(s: SegView) -> Seq<u8> {
    match s {
        SegView::Root => seq![SEP],
        SegView::Prefix(p) => p,
        SegView::CurDir => seq![DOT],
        SegView::ParentDir => seq![DOT, DOT],
        SegView::Normal(n) => n,
    }
}

/// Joins segments after the root position, separated by `SEP`.
pub open spec fn join_rest(s: Seq<SegView>) -> Seq<u8>
    decreases s.len(),
{
    if s.len() == 0 {
        Seq::empty()
    } else if s.len() == 1 {
        seg_bytes(s[0])
    } else {
        seg_bytes(s[0]) + seq![SEP] + join_rest(s.skip(1))
    }
}

/// The byte form of a segment sequence: the root marker (or drive prefix)
/// followed by the remaining segments, separated by `SEP`.
pub open spec fn join_spec(s: Seq<SegView>) -> Seq<u8> {
    if s.len() == 0 {
        Seq::empty()
    } else if s[0] is Root {
        seq![SEP] + join_rest(s.skip(1))
    } else if s[0] is Prefix {
        seg_bytes(s[0]) + seq![SEP] + join_rest(s.skip(1))
    } else {
        join_rest(s)
    }
}

/// A token as the tokenizer produces it: non-empty and separator-free.
pub open spec fn tok_ok(t: Seq<u8>) -> bool {
    t.len() > 0 && forall|i: int| 0 <= i < t.len() ==> t[i] != SEP
}

/// Every token of a byte path is non-empty and separator-free.
pub proof fn lemma_tokens_wf(b: Seq<u8>)
    ensures
        forall|k: int| 0 <= k < tokens(b).len() ==> tok_ok(#[trigger] tokens(b)[k]),
    decreases b.len(),
{
    if b.len() == 0 {
    } else if b[0] == SEP {
        lemma_tokens_wf(b.skip(1));
        assert(tokens(b) == tokens(b.skip(1)));
        assert forall|k: int| 0 <= k < tokens(b).len() implies tok_ok(
            #[trigger] tokens(b)[k],
        ) by {
            assert(tok_ok(tokens(b.skip(1))[k]));
        }
    } else {
        lemma_token_at(b);
        lemma_tokens_wf(b.skip(token_at(b).len() as int));
        assert(token_at(b).len() > 0);
        assert forall|i: int| 0 <= i < token_at(b).len() implies token_at(b)[i] != SEP by {}
        assert(tok_ok(token_at(b)));
        assert forall|k: int| 0 <= k < tokens(b).len() implies tok_ok(
            #[trigger] tokens(b)[k],
        ) by {
            if k > 0 {
                assert(tokens(b)[k] == tokens(b.skip(token_at(b).len() as int))[k - 1]);
                assert(tok_ok(tokens(b.skip(token_at(b).len() as int))[k - 1]));
            }
        }
    }
}

/// A segment as classification produces it past the first position: a parent
/// marker or a well-formed named segment.
pub open spec fn rest_seg_ok(s: SegView) -> bool {
    s is ParentDir || (s is Normal && seg_wf(s))
}

/// Tokens that are non-empty and separator-free classify into well-formed
/// parent markers and named segments.
pub proof fn lemma_classify_rest_wf(ts: Seq<Seq<u8>>)
    requires
        forall|k: int| 0 <= k < ts.len() ==> tok_ok(#[trigger] ts[k]),
    ensures
        forall|j: int|
            0 <= j < classify_rest(ts).len() ==> rest_seg_ok(#[trigger] classify_rest(ts)[j]),
    decreases ts.len(),
{
    if ts.len() > 0 {
        assert(tok_ok(ts[0]));
        assert forall|k: int| 0 <= k < ts.skip(1).len() implies tok_ok(
            #[trigger] ts.skip(1)[k],
        ) by {
            assert(ts.skip(1)[k] == ts[k + 1]);
        }
        lemma_classify_rest_wf(ts.skip(1));
        let rest = classify_rest(ts.skip(1));
        if ts[0] == seq![DOT] {
        } else if ts[0] == seq![DOT, DOT] {
            assert forall|j: int| 0 <= j < classify_rest(ts).len() implies rest_seg_ok(
                #[trigger] classify_rest(ts)[j],
            ) by {
                if j > 0 {
                    assert(classify_rest(ts)[j] == rest[j - 1]);
                }
            }
        } else {
            assert(name_wf(ts[0]));
            assert(rest_seg_ok(SegView::Normal(ts[0])));
            assert forall|j: int| 0 <= j < classify_rest(ts).len() implies rest_seg_ok(
                #[trigger] classify_rest(ts)[j],
            ) by {
                if j > 0 {
                    assert(classify_rest(ts)[j] == rest[j - 1]);
                }
            }
        }
    }
}

/// Parsing yields a well-formed segment sequence.
pub proof fn lemma_parse_wf(b: Seq<u8>)
    ensures
        segs_wf(parse_spec(b)),
{
    lemma_tokens_wf(b);
    let p = parse_spec(b);
    if b.len() == 0 {
    } else if b[0] == SEP {
        lemma_classify_rest_wf(tokens(b));
        assert forall|i: int| 0 <= i < p.len() implies seg_wf(#[trigger] p[i]) && (i >= 1 ==> !(
        p[i] is Root || p[i] is Prefix || p[i] is CurDir)) by {
            if i >= 1 {
                assert(p[i] == classify_rest(tokens(b))[i - 1]);
                assert(rest_seg_ok(p[i]));
            }
        }
    } else {
        let ts = tokens(b);
        if ts.len() > 0 && ts[0] == seq![DOT] {
            assert forall|k: int| 0 <= k < ts.skip(1).len() implies tok_ok(
                #[trigger] ts.skip(1)[k],
            ) by {
                assert(ts.skip(1)[k] == ts[k + 1]);
            }
            lemma_classify_rest_wf(ts.skip(1));
            assert forall|i: int| 0 <= i < p.len() implies seg_wf(#[trigger] p[i]) && (i >= 1
                ==> !(p[i] is Root || p[i] is Prefix || p[i] is CurDir)) by {
                if i >= 1 {
                    assert(p[i] == classify_rest(ts.skip(1))[i - 1]);
                    assert(rest_seg_ok(p[i]));
                }
            }
        } else {
            lemma_classify_rest_wf(ts);
            assert forall|i: int| 0 <= i < p.len() implies seg_wf(#[trigger] p[i]) && (i >= 1
                ==> !(p[i] is Root || p[i] is Prefix || p[i] is CurDir)) by {
                assert(p[i] == classify_rest(ts)[i]);
                assert(rest_seg_ok(p[i]));
            }
        }
    }
}

/// Pushing a segment extends the sequence of views by its view.
pub proof fn lemma_views_push(s: Seq<Segment>, x: Segment)
    ensures
        views_of(s.push(x)) == views_of(s) + seq![x@],
{
    assert(views_of(s.push(x)) =~= views_of(s) + seq![x@]);
}

/// Parses a byte path into its segments.
pub fn parse_segments(bytes: &Vec<u8>) -> (r: Vec<Segment>)
    ensures
        views_of(r@) == parse_spec(bytes@),
{
    let n = bytes.len();
    let mut segs: Vec<Segment> = Vec::new();
    let rooted = n > 0 && bytes[0] == SEP;
    if rooted {
        segs.push(Segment::Root);
    }
    let mut first_token = true;
    let mut i: usize = 0;
    proof {
        assert(bytes@.skip(0) =~= bytes@);
        if rooted {
            assert(views_of(segs@) =~= seq![SegView::Root]);
        } else {
            assert(views_of(segs@) =~= Seq::<SegView>::empty());
        }
    }
    while i < n
        invariant
            i <= n,
            n == bytes@.len(),
            rooted == (bytes@.len() > 0 && bytes@[0] == SEP),
            views_of(segs@) + (if first_token && !rooted {
                classify_rel(tokens(bytes@.skip(i as int)))
            } else {
                classify_rest(tokens(bytes@.skip(i as int)))
            }) == parse_spec(bytes@),
        decreases n - i,
    {
        if bytes[i] == SEP {
            proof {
                assert(bytes@.skip(i as int).skip(1) =~= bytes@.skip(i as int + 1));
            }
            i = i + 1;
        } else {
            let ghost i0 = i as int;
            let ghost c = bytes@.skip(i0);
            let mut j = i;
            let mut tok: Vec<u8> = Vec::new();
            while j < n && bytes[j] != SEP
                invariant
                    i <= j <= n,
                    n == bytes@.len(),
                    i == i0,
                    tok@ == bytes@.subrange(i0, j as int),
                    forall|q: int| i0 <= q < j ==> bytes@[q] != SEP,
                decreases n - j,
            {
                tok.push(bytes[j]);
                j = j + 1;
                proof {
                    assert(tok@ =~= bytes@.subrange(i0, j as int));
                }
            }
            proof {
                lemma_token_at(c);
                let tl = token_at(c).len() as int;
                assert(c.len() == n - i0);
                assert forall|q: int| 0 <= q < c.len() implies c[q] == bytes@[i0 + q] by {}
                if tl < j - i0 {
                    assert(c[tl] == SEP);
                    assert(bytes@[i0 + tl] != SEP);
                    assert(false);
                }
                if tl > j - i0 {
                    assert(token_at(c)[j - i0] == c[j - i0] && c[j - i0] != SEP);
                    assert(j < n ==> bytes@[j as int] == SEP);
                    assert(j == n ==> c.len() == j - i0);
                    assert(false);
                }
                assert(token_at(c) =~= tok@);
            }
            let is_dot = tok.len() == 1 && tok[0] == DOT;
            let is_dotdot = tok.len() == 2 && tok[0] == DOT && tok[1] == DOT;
            proof {
                if is_dot {
                    assert(tok@ =~= seq![DOT]);
                } else {
                    assert(tok@ != seq![DOT]) by {
                        if tok@ == seq![DOT] {
                            assert(tok@.len() == 1);
                            assert(tok@[0] == DOT);
                        }
                    }
                }
                if is_dotdot {
                    assert(tok@ =~= seq![DOT, DOT]);
                } else {
                    assert(tok@ != seq![DOT, DOT]) by {
                        if tok@ == seq![DOT, DOT] {
                            assert(tok@.len() == 2);
                            assert(tok@[0] == DOT);
                            assert(tok@[1] == DOT);
                        }
                    }
                }
            }
            let ghost ts = tokens(c);
            let ghost segs0 = segs@;
            let ghost was_rel_head = first_token && !rooted;
            proof {
                assert(c[0] != SEP);
                assert(ts == seq![tok@] + tokens(c.skip(j - i0)));
                assert(c.skip(j - i0) =~= bytes@.skip(j as int));
                assert(ts.skip(1) =~= tokens(bytes@.skip(j as int)));
                assert(ts[0] == tok@);
            }
            if is_dot {
                if first_token && !rooted {
                    segs.push(Segment::CurDir);
                }
            } else if is_dotdot {
                segs.push(Segment::ParentDir);
            } else {
                segs.push(Segment::Normal(tok));
            }
            first_token = false;
            i = j;
            proof {
                let rest = classify_rest(tokens(bytes@.skip(i as int)));
                if was_rel_head {
                    if is_dot {
                        lemma_views_push(segs0, Segment::CurDir);
                        assert(classify_rel(ts) == seq![SegView::CurDir] + rest);
                        assert(views_of(segs@) + rest =~= views_of(segs0) + classify_rel(ts));
                    } else {
                        assert(classify_rel(ts) == classify_rest(ts));
                        if is_dotdot {
                            lemma_views_push(segs0, Segment::ParentDir);
                            assert(classify_rest(ts) == seq![SegView::ParentDir] + rest);
                            assert(views_of(segs@) + rest =~= views_of(segs0) + classify_rest(ts));
                        } else {
                            lemma_views_push(segs0, Segment::Normal(tok));
                            assert(classify_rest(ts) == seq![SegView::Normal(tok@)] + rest);
                            assert(views_of(segs@) + rest =~= views_of(segs0) + classify_rest(ts));
                        }
                    }
                } else {
                    if is_dot {
                        assert(classify_rest(ts) == rest);
                    } else if is_dotdot {
                        lemma_views_push(segs0, Segment::ParentDir);
                        assert(classify_rest(ts) == seq![SegView::ParentDir] + rest);
                        assert(views_of(segs@) + rest =~= views_of(segs0) + classify_rest(ts));
                    } else {
                        lemma_views_push(segs0, Segment::Normal(tok));
                        assert(classify_rest(ts) == seq![SegView::Normal(tok@)] + rest);
                        assert(views_of(segs@) + rest =~= views_of(segs0) + classify_rest(ts));
                    }
                }
            }
        }
    }
    proof {
        assert(bytes@.skip(n as int) =~= Seq::<u8>::empty());
        assert(views_of(segs@) + Seq::<SegView>::empty() =~= views_of(segs@));
    }
    segs
}

/// The bytes of one segment, as `seg_bytes` gives them.
pub fn seg_to_bytes(s: &Segment) -> (r: Vec<u8>)
    ensures
        r@ == seg_bytes(s@),
{
    match s {
        Segment::Root => {
            let mut v: Vec<u8> = Vec::new();
            v.push(SEP);
            proof {
                assert(v@ =~= seq![SEP]);
            }
            v
        },
        Segment::CurDir => {
            let mut v: Vec<u8> = Vec::new();
            v.push(DOT);
            proof {
                assert(v@ =~= seq![DOT]);
            }
            v
        },
        Segment::ParentDir => {
            let mut v: Vec<u8> = Vec::new();
            v.push(DOT);
            v.push(DOT);
            proof {
                assert(v@ =~= seq![DOT, DOT]);
            }
            v
        },
        Segment::Prefix(p) => copy_bytes(p),
        Segment::Normal(n) => copy_bytes(n),
    }
}

/// Joins segments back into a byte path.
pub fn join_segments(segs: &Vec<Segment>) -> (r: Vec<u8>)
    ensures
        r@ == join_spec(views_of(segs@)),
{
    let ghost v = views_of(segs@);
    let mut out: Vec<u8> = Vec::new();
    if segs.len() == 0 {
        return out;
    }
    let mut k: usize = 0;
    match &segs[0] {
        Segment::Root => {
            out.push(SEP);
            k = 1;
        },
        Segment::Prefix(p) => {
            let mut pb = copy_bytes(p);
            out.append(&mut pb);
            out.push(SEP);
            k = 1;
        },
        _ => {
            k = 0;
        },
    }
    proof {
        assert(v[0] == segs@[0]@);
        if v[0] is Root {
            assert(out@ =~= seq![SEP]);
            assert(out@ + join_rest(v.skip(1)) =~= join_spec(v));
        } else if v[0] is Prefix {
            assert(out@ =~= seg_bytes(v[0]) + seq![SEP]);
            assert(out@ + join_rest(v.skip(1)) =~= join_spec(v));
        } else {
            assert(v.skip(0) =~= v);
            assert(out@ + join_rest(v.skip(0)) =~= join_spec(v));
        }
    }
    let mut i: usize = k;
    while i < segs.len()
        invariant
            k <= i <= segs.len(),
            v == views_of(segs@),
            v.len() == segs@.len(),
            (if i == segs.len() {
                out@ == join_spec(v)
            } else if i == k {
                out@ + join_rest(v.skip(i as int)) == join_spec(v)
            } else {
                out@ + seq![SEP] + join_rest(v.skip(i as int)) == join_spec(v)
            }),
        decreases segs.len() - i,
    {
        let ghost out0 = out@;
        if i > k {
            out.push(SEP);
            proof {
                assert(out@ =~= out0 + seq![SEP]);
                assert(out@ + join_rest(v.skip(i as int)) =~= out0 + seq![SEP] + join_rest(
                    v.skip(i as int),
                ));
            }
        }
        let ghost out1 = out@;
        let mut sb = seg_to_bytes(&segs[i]);
        proof {
            assert(sb@ == seg_bytes(v[i as int]));
        }
        out.append(&mut sb);
        i = i + 1;
        proof {
            let prev = i as int - 1;
            assert(v.skip(prev).len() == v.len() - prev);
            assert(v.skip(prev)[0] == v[prev]);
            if i < segs.len() {
                assert(v.skip(prev).skip(1) =~= v.skip(i as int));
                assert(join_rest(v.skip(prev)) == seg_bytes(v[prev]) + seq![SEP] + join_rest(
                    v.skip(i as int),
                ));
                assert(out@ + seq![SEP] + join_rest(v.skip(i as int)) =~= out1 + join_rest(
                    v.skip(prev),
                ));
            } else {
                assert(v.skip(prev).len() == 1);
                assert(join_rest(v.skip(prev)) == seg_bytes(v[prev]));
                assert(out@ =~= out1 + join_rest(v.skip(prev)));
            }
        }
    }
    out
}

/// Every byte is plain ASCII, so it passes through UTF-8 conversions
/// unchanged.
pub open spec fn ascii_bytes(b: Seq<u8>) -> bool {
    forall|i: int| 0 <= i < b.len() ==> b[i] < 128
}

/// Joining segments whose bytes are all ASCII yields ASCII bytes.
proof fn lemma_join_rest_ascii(s: Seq<SegView>)
    requires
        forall|i: int| 0 <= i < s.len() ==> ascii_bytes(seg_bytes(#[trigger] s[i])),
    ensures
        ascii_bytes(join_rest(s)),
    decreases s.len(),
{
    if s.len() == 0 {
    } else if s.len() == 1 {
        assert(ascii_bytes(seg_bytes(s[0])));
    } else {
        assert(ascii_bytes(seg_bytes(s[0])));
        assert forall|i: int|
            0 <= i < s.skip(1).len() implies ascii_bytes(seg_bytes(#[trigger] s.skip(1)[i])) by {
            assert(s.skip(1)[i] == s[i + 1]);
        }
        lemma_join_rest_ascii(s.skip(1));
        let b = join_rest(s);
        let sb = seg_bytes(s[0]);
        assert forall|q: int| 0 <= q < b.len() implies b[q] < 128 by {
            if q < sb.len() {
                assert(b[q] == sb[q]);
            } else if q == sb.len() {
                assert(b[q] == SEP);
            } else {
                assert(b[q] == join_rest(s.skip(1))[q - sb.len() - 1]);
            }
        }
    }
}

/// The joined form of a path whose segments' bytes are all ASCII is ASCII.
pub proof fn lemma_join_ascii(s: Seq<SegView>)
    requires
        forall|i: int| 0 <= i < s.len() ==> ascii_bytes(seg_bytes(#[trigger] s[i])),
    ensures
        ascii_bytes(join_spec(s)),
{
    if s.len() == 0 {
    } else {
        assert forall|i: int|
            0 <= i < s.skip(1).len() implies ascii_bytes(seg_bytes(#[trigger] s.skip(1)[i])) by {
            assert(s.skip(1)[i] == s[i + 1]);
        }
        lemma_join_rest_ascii(s.skip(1));
        lemma_join_rest_ascii(s);
        let b = join_spec(s);
        if s[0] is Root {
            assert forall|q: int| 0 <= q < b.len() implies b[q] < 128 by {
                if q == 0 {
                    assert(b[q] == SEP);
                } else {
                    assert(b[q] == join_rest(s.skip(1))[q - 1]);
                }
            }
        } else if s[0] is Prefix {
            let sb = seg_bytes(s[0]);
            assert(ascii_bytes(sb));
            assert forall|q: int| 0 <= q < b.len() implies b[q] < 128 by {
                if q < sb.len() {
                    assert(b[q] == sb[q]);
                } else if q == sb.len() {
                    assert(b[q] == SEP);
                } else {
                    assert(b[q] == join_rest(s.skip(1))[q - sb.len() - 1]);
                }
            }
        }
    }
}

/// A sequence of segments that can stand after a root marker: parent markers
/// and well-formed named segments only.
pub open spec fn rest_wf(s: Seq<SegView>) -> bool {
    forall|i: int| 0 <= i < s.len() ==> rest_seg_ok(#[trigger] s[i])
}

/// The byte form of each segment, in order.
pub open spec fn seg_bytes_of(s: Seq<SegView>) -> Seq<Seq<u8>> {
    s.map_values(|x: SegView| seg_bytes(x))
}

/// When the first `l` bytes are separator-free and a separator (or the end)
/// follows, the first token is exactly those `l` bytes.
pub proof fn lemma_token_at_pins(b: Seq<u8>, l: int)
    requires
        0 <= l <= b.len(),
        forall|q: int| 0 <= q < l ==> b[q] != SEP,
        l == b.len() || b[l] == SEP,
    ensures
        token_at(b) == b.subrange(0, l),
{
    lemma_token_at(b);
    let tl = token_at(b).len() as int;
    if tl < l {
        assert(b[tl] == SEP);
        assert(false);
    }
    if tl > l {
        assert(token_at(b)[l] == b[l] && b[l] != SEP);
        assert(false);
    }
    assert(token_at(b) =~= b.subrange(0, l));
}

/// Tokenizing the joined form of root-free well-formed segments recovers each
/// segment's bytes.
proof fn lemma_tokens_of_join_rest(s: Seq<SegView>)
    requires
        rest_wf(s),
    ensures
        tokens(join_rest(s)) == seg_bytes_of(s),
    decreases s.len(),
{
    if s.len() == 0 {
        assert(tokens(join_rest(s)) =~= seg_bytes_of(s));
    } else {
        assert(rest_seg_ok(s[0]));
        let sb = seg_bytes(s[0]);
        assert(sb.len() > 0 && forall|q: int| 0 <= q < sb.len() ==> sb[q] != SEP) by {
            match s[0] {
                SegView::ParentDir => {
                    assert(sb == seq![DOT, DOT]);
                    assert(forall|q: int| 0 <= q < sb.len() ==> sb[q] == DOT);
                },
                SegView::Normal(nm) => {
                    assert(name_wf(nm));
                },
                _ => {},
            }
        }
        if s.len() == 1 {
            let b = join_rest(s);
            assert(b == sb);
            assert(b[0] != SEP);
            lemma_token_at_pins(b, b.len() as int);
            assert(token_at(b) =~= b);
            assert(b.skip(b.len() as int) =~= Seq::<u8>::empty());
            assert(tokens(b) == seq![token_at(b)] + tokens(b.skip(token_at(b).len() as int)));
            assert(tokens(Seq::<u8>::empty()) == Seq::<Seq<u8>>::empty());
            assert(tokens(b) =~= seq![sb]);
            assert(seg_bytes_of(s) =~= seq![sb]);
        } else {
            let b = join_rest(s);
            assert(b == sb + seq![SEP] + join_rest(s.skip(1)));
            assert forall|q: int| 0 <= q < sb.len() implies b[q] != SEP by {
                assert(b[q] == sb[q]);
            }
            assert(b[sb.len() as int] == SEP);
            lemma_token_at_pins(b, sb.len() as int);
            assert(token_at(b) =~= sb);
            assert(b[0] != SEP);
            assert(b.skip(sb.len() as int)[0] == SEP);
            assert(b.skip(sb.len() as int).skip(1) =~= join_rest(s.skip(1)));
            assert forall|i: int| 0 <= i < s.skip(1).len() implies rest_seg_ok(
                #[trigger] s.skip(1)[i],
            ) by {
                assert(s.skip(1)[i] == s[i + 1]);
            }
            lemma_tokens_of_join_rest(s.skip(1));
            assert(tokens(b) == seq![sb] + tokens(b.skip(sb.len() as int)));
            assert(tokens(b.skip(sb.len() as int)) == tokens(join_rest(s.skip(1))));
            assert(tokens(b) =~= seq![sb] + seg_bytes_of(s.skip(1)));
            assert(seg_bytes_of(s) =~= seq![sb] + seg_bytes_of(s.skip(1)));
        }
    }
}

/// Classifying the bytes of root-free well-formed segments recovers the
/// segments themselves.
proof fn lemma_classify_of_seg_bytes(s: Seq<SegView>)
    requires
        rest_wf(s),
    ensures
        classify_rest(seg_bytes_of(s)) == s,
    decreases s.len(),
{
    if s.len() == 0 {
        assert(classify_rest(seg_bytes_of(s)) =~= s);
    } else {
        assert(rest_seg_ok(s[0]));
        let ts = seg_bytes_of(s);
        assert(ts.len() == s.len());
        assert(ts[0] == seg_bytes(s[0]));
        assert(ts.skip(1) =~= seg_bytes_of(s.skip(1)));
        assert forall|i: int| 0 <= i < s.skip(1).len() implies rest_seg_ok(
            #[trigger] s.skip(1)[i],
        ) by {
            assert(s.skip(1)[i] == s[i + 1]);
        }
        lemma_classify_of_seg_bytes(s.skip(1));
        match s[0] {
            SegView::ParentDir => {
                assert(ts[0] == seq![DOT, DOT]);
                assert(ts[0] != seq![DOT]) by {
                    assert(ts[0].len() == 2);
                }
                assert(classify_rest(ts) == seq![SegView::ParentDir] + classify_rest(ts.skip(1)));
                assert(classify_rest(ts) =~= s);
            },
            SegView::Normal(nm) => {
                assert(name_wf(nm));
                assert(ts[0] == nm);
                assert(classify_rest(ts) == seq![SegView::Normal(nm)] + classify_rest(ts.skip(1)));
                assert(classify_rest(ts) =~= s);
            },
            _ => {
                assert(false);
            },
        }
    }
}

/// Round trip: joining a well-formed root-led segment sequence to bytes and
/// parsing the bytes back yields the same segments.
pub proof fn lemma_parse_join(s: Seq<SegView>)
    requires
        segs_wf(s),
        s.len() > 0,
        s[0] is Root,
    ensures
        parse_spec(join_spec(s)) == s,
{
    let b = join_spec(s);
    assert(b == seq![SEP] + join_rest(s.skip(1)));
    assert(b[0] == SEP);
    assert forall|i: int| 0 <= i < s.skip(1).len() implies rest_seg_ok(
        #[trigger] s.skip(1)[i],
    ) by {
        assert(s.skip(1)[i] == s[i + 1]);
        assert(seg_wf(s[i + 1]));
        assert(!(s[i + 1] is Root || s[i + 1] is Prefix || s[i + 1] is CurDir));
    }
    lemma_tokens_of_join_rest(s.skip(1));
    lemma_classify_of_seg_bytes(s.skip(1));
    assert(b.skip(1) =~= join_rest(s.skip(1)));
    assert(tokens(b) == tokens(b.skip(1)));
    assert(parse_spec(b) == seq![SegView::Root] + classify_rest(tokens(b)));
    assert(parse_spec(b) =~= s);
}

/// Parsing a non-empty byte path yields at least one segment.
pub proof fn lemma_parse_nonempty(b: Seq<u8>)
    ensures
        b.len() > 0 ==> parse_spec(b).len() > 0,
{
    if b.len() > 0 && b[0] != SEP {
        lemma_token_at(b);
        assert(tokens(b).len() > 0);
        let ts = tokens(b);
        if ts[0] == seq![DOT] {
            assert(classify_rel(ts).len() > 0);
        } else if ts[0] == seq![DOT, DOT] {
            assert(classify_rest(ts).len() > 0);
        } else {
            assert(classify_rest(ts).len() > 0);
        }
    }
}

} // verus!
