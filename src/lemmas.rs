//! Facts about splitting, joining and resolving segments.
use vstd::prelude::*;
use crate::model::{
    all_pieces, close, dot, dot_dot, is_named, is_piece, join, no_double_sep, no_sep, render, resolve,
    scan, segments, step, well_formed,
};

verus! {

/// A run without separators scans as one unfinished segment.
pub proof fn lemma_scan_no_sep(x: Seq<char>)
    requires
        no_sep(x),
    ensures
        scan(x) == (Seq::<Seq<char>>::empty(), x),
    decreases x.len(),
{
    if x.len() > 0 {
        assert(no_sep(x.drop_last()));
        lemma_scan_no_sep(x.drop_last());
        assert(x.drop_last().push(x.last()) =~= x);
    }
}

/// A run without separators is one segment, or none when empty.
pub proof fn lemma_segments_no_sep(x: Seq<char>)
    requires
        no_sep(x),
    ensures
        segments(x) == close(Seq::empty(), x),
{
    lemma_scan_no_sep(x);
}

/// Scanning past a separator starts afresh from the segments before it.
pub proof fn lemma_scan_concat(a: Seq<char>, b: Seq<char>)
    ensures
        scan(a + seq!['/'] + b) == (segments(a) + scan(b).0, scan(b).1),
    decreases b.len(),
{
    let s = a + seq!['/'] + b;
    if b.len() == 0 {
        assert(s.drop_last() =~= a);
        assert(segments(a) + scan(b).0 =~= segments(a));
    } else {
        let b1 = b.drop_last();
        lemma_scan_concat(a, b1);
        assert(s.drop_last() =~= a + seq!['/'] + b1);
        let prev = scan(b1);
        if b.last() == '/' {
            if prev.1.len() == 0 {
                assert(close(segments(a) + prev.0, prev.1) =~= segments(a) + close(prev.0, prev.1));
            } else {
                assert(close(segments(a) + prev.0, prev.1) =~= segments(a) + close(prev.0, prev.1));
            }
        }
    }
}

/// The segments on the two sides of a separator.
pub proof fn lemma_segments_concat(a: Seq<char>, b: Seq<char>)
    ensures
        segments(a + seq!['/'] + b) == segments(a) + segments(b),
{
    lemma_scan_concat(a, b);
    let sb = scan(b);
    assert(close(segments(a) + sb.0, sb.1) =~= segments(a) + close(sb.0, sb.1));
}

/// A leading separator adds no segment.
pub proof fn lemma_segments_rooted(x: Seq<char>)
    ensures
        segments(seq!['/'] + x) == segments(x),
{
    lemma_segments_concat(Seq::empty(), x);
    assert(Seq::<char>::empty() + seq!['/'] + x =~= seq!['/'] + x);
    lemma_segments_no_sep(Seq::empty());
    assert(segments(Seq::<char>::empty()) + segments(x) =~= segments(x));
}

/// Scanning yields pieces and an unfinished run without separators.
pub proof fn lemma_scan_pieces(p: Seq<char>)
    ensures
        all_pieces(scan(p).0),
        no_sep(scan(p).1),
    decreases p.len(),
{
    if p.len() > 0 {
        lemma_scan_pieces(p.drop_last());
        let prev = scan(p.drop_last());
        if p.last() != '/' {
            assert(no_sep(prev.1.push(p.last())));
        }
    }
}

/// Every segment is a piece.
pub proof fn lemma_segments_pieces(p: Seq<char>)
    ensures
        all_pieces(segments(p)),
{
    lemma_scan_pieces(p);
}

/// Extending a prefix of `p` that ends on a boundary by a run without separators.
pub proof fn lemma_prefix_split(p: Seq<char>, r: int, k: int)
    requires
        0 <= r <= k <= p.len(),
        r == 0 || p[r - 1] == '/',
        no_sep(p.subrange(r, k)),
    ensures
        segments(p.subrange(0, k)) == close(segments(p.subrange(0, r)), p.subrange(r, k)),
{
    let x = p.subrange(r, k);
    lemma_segments_no_sep(x);
    if r == 0 {
        assert(p.subrange(0, k) =~= x);
        lemma_segments_no_sep(Seq::empty());
        assert(p.subrange(0, 0) =~= Seq::<char>::empty());
    } else {
        let a = p.subrange(0, r - 1);
        assert(p.subrange(0, k) =~= a + seq!['/'] + x);
        assert(p.subrange(0, r) =~= a + seq!['/'] + Seq::<char>::empty());
        lemma_segments_concat(a, x);
        lemma_segments_concat(a, Seq::empty());
        lemma_segments_no_sep(Seq::empty());
        assert(segments(a) + Seq::<Seq<char>>::empty() =~= segments(a));
        assert(segments(a) + close(Seq::empty(), x) =~= close(segments(a), x));
    }
}

/// Joining a concatenation of stacks.
pub proof fn lemma_join_append(a: Seq<Seq<char>>, b: Seq<Seq<char>>)
    ensures
        join(a + b) == (if a.len() == 0 {
            join(b)
        } else if b.len() == 0 {
            join(a)
        } else {
            join(a) + seq!['/'] + join(b)
        }),
    decreases b.len(),
{
    if a.len() == 0 {
        assert(a + b =~= b);
    } else if b.len() == 0 {
        assert(a + b =~= a);
    } else {
        let b1 = b.drop_last();
        lemma_join_append(a, b1);
        assert((a + b).drop_last() =~= a + b1);
        if b1.len() == 0 {
            assert(b[0] == b.last());
        } else {
            assert(join(a) + seq!['/'] + join(b1) + seq!['/'] + b.last() =~= join(a) + seq!['/']
                + (join(b1) + seq!['/'] + b.last()));
        }
    }
}

/// Joining pieces: non-empty, with pieces' characters at both ends and no doubled separator.
pub proof fn lemma_join_pieces(st: Seq<Seq<char>>)
    requires
        all_pieces(st),
        st.len() > 0,
    ensures
        join(st).len() > 0,
        join(st)[0] == st[0][0],
        join(st).last() == st.last().last(),
        no_double_sep(join(st)),
        join(st)[0] != '/',
        join(st).last() != '/',
    decreases st.len(),
{
    assert(is_piece(st[0]));
    assert(is_piece(st.last()));
    if st.len() == 1 {
    } else {
        let s1 = st.drop_last();
        assert(all_pieces(s1)) by {
            assert forall|i: int| 0 <= i < s1.len() implies is_piece(#[trigger] s1[i]) by {
                assert(s1[i] == st[i]);
            }
        }
        lemma_join_pieces(s1);
        let j = join(s1);
        let x = st.last();
        let s = j + seq!['/'] + x;
        assert(s == join(st));
        assert(s[0] == j[0]);
        assert forall|i: int| 0 <= i < s.len() - 1 implies !(#[trigger] s[i] == '/' && s[i + 1]
            == '/') by {
            if i < j.len() - 1 {
                assert(s[i] == j[i] && s[i + 1] == j[i + 1]);
            } else if i == j.len() - 1 {
                assert(s[i] == j.last());
            } else if i == j.len() {
                assert(s[i + 1] == x[0]);
            } else {
                assert(s[i] == x[i - j.len() - 1]);
            }
        }
    }
}

/// Splitting a join of pieces gives the pieces back.
pub proof fn lemma_segments_join(st: Seq<Seq<char>>)
    requires
        all_pieces(st),
    ensures
        segments(join(st)) == st,
    decreases st.len(),
{
    if st.len() == 0 {
        lemma_segments_no_sep(Seq::empty());
    } else {
        let x = st.last();
        assert(is_piece(x));
        lemma_segments_no_sep(x);
        let s1 = st.drop_last();
        if s1.len() == 0 {
            assert(st[0] == x);
            assert(close(Seq::empty(), x) =~= st);
        } else {
            assert(all_pieces(s1)) by {
                assert forall|i: int| 0 <= i < s1.len() implies is_piece(#[trigger] s1[i]) by {
                    assert(s1[i] == st[i]);
                }
            }
            lemma_segments_join(s1);
            lemma_segments_concat(join(s1), x);
            assert(s1 + close(Seq::empty(), x) =~= st);
        }
    }
}

/// A well-formed stack consists of pieces.
pub proof fn lemma_well_formed_pieces(rooted: bool, st: Seq<Seq<char>>)
    requires
        well_formed(rooted, st),
    ensures
        all_pieces(st),
{
    assert forall|i: int| 0 <= i < st.len() implies is_piece(#[trigger] st[i]) by {
        if st[i] == dot_dot() {
            assert(st[i][0] == '.' && st[i][1] == '.');
        } else {
            assert(is_named(st[i]));
        }
    }
}

/// Resolution leaves a well-formed stack.
pub proof fn lemma_resolve_well_formed(rooted: bool, segs: Seq<Seq<char>>)
    requires
        all_pieces(segs),
    ensures
        well_formed(rooted, resolve(rooted, segs)),
    decreases segs.len(),
{
    if segs.len() > 0 {
        let s1 = segs.drop_last();
        assert(all_pieces(s1)) by {
            assert forall|i: int| 0 <= i < s1.len() implies is_piece(#[trigger] s1[i]) by {
                assert(s1[i] == segs[i]);
            }
        }
        lemma_resolve_well_formed(rooted, s1);
        let st = resolve(rooted, s1);
        let seg = segs.last();
        assert(is_piece(seg));
        let r = step(rooted, st, seg);
        if seg == dot() {
        } else if seg == dot_dot() {
            if st.len() > 0 && st.last() != dot_dot() {
                assert(forall|i: int| 0 <= i < r.len() ==> r[i] == st[i]);
            } else if rooted {
            } else {
                assert(forall|i: int| 0 <= i < st.len() ==> r[i] == st[i]);
                assert forall|i: int| 0 <= i < st.len() implies #[trigger] st[i] == dot_dot() by {
                    if st[i] != dot_dot() {
                        assert(st[st.len() - 1] == dot_dot());
                    }
                }
            }
        } else {
            assert(forall|i: int| 0 <= i < st.len() ==> r[i] == st[i]);
            assert(is_named(seg));
        }
    }
}

/// Resolving a well-formed stack reproduces it.
pub proof fn lemma_resolve_fixed(rooted: bool, st: Seq<Seq<char>>)
    requires
        well_formed(rooted, st),
    ensures
        resolve(rooted, st) == st,
    decreases st.len(),
{
    if st.len() > 0 {
        let s1 = st.drop_last();
        assert(well_formed(rooted, s1)) by {
            assert(forall|i: int| 0 <= i < s1.len() ==> s1[i] == st[i]);
        }
        lemma_resolve_fixed(rooted, s1);
        let x = st.last();
        assert(x == st[st.len() - 1]);
        if x == dot_dot() {
            if s1.len() > 0 {
                assert(s1.last() == st[st.len() - 2]);
            }
        } else {
            assert(is_named(x));
        }
        assert(s1.push(x) =~= st);
    }
}

/// Resolving one more segment is one more step.
pub proof fn lemma_resolve_push(rooted: bool, segs: Seq<Seq<char>>, seg: Seq<char>)
    ensures
        resolve(rooted, segs.push(seg)) == step(rooted, resolve(rooted, segs), seg),
{
    assert(segs.push(seg).drop_last() =~= segs);
}

/// Rendering a prefix of a stack of pieces gives no longer a text, and a shorter one
/// when the prefix is proper.
pub proof fn lemma_render_prefix(rooted: bool, st: Seq<Seq<char>>, k: int)
    requires
        all_pieces(st),
        0 <= k <= st.len(),
    ensures
        render(rooted, st.subrange(0, k)).len() <= render(rooted, st).len(),
        k < st.len() ==> render(rooted, st.subrange(0, k)).len() < render(rooted, st).len(),
{
    let a = st.subrange(0, k);
    let b = st.subrange(k, st.len() as int);
    assert(a + b =~= st);
    lemma_join_append(a, b);
    if k < st.len() {
        assert(all_pieces(b)) by {
            assert forall|i: int| 0 <= i < b.len() implies is_piece(#[trigger] b[i]) by {
                assert(b[i] == st[i + k]);
            }
        }
        lemma_join_pieces(b);
    }
}

/// The text of a stack of pieces is empty, or the lone root, only for the empty stack.
pub proof fn lemma_render_empty(rooted: bool, st: Seq<Seq<char>>)
    requires
        all_pieces(st),
    ensures
        join(st).len() == 0 <==> st.len() == 0,
        render(rooted, st).len() == (if rooted { 1int } else { 0 }) + join(st).len(),
{
    if st.len() > 0 {
        lemma_join_pieces(st);
    }
}

/// Pushing a piece onto a stack: its text grows by a separator, where needed, and the piece.
pub proof fn lemma_render_push(rooted: bool, st: Seq<Seq<char>>, x: Seq<char>)
    ensures
        render(rooted, st.push(x)) == render(rooted, st) + (if st.len() == 0 {
            Seq::<char>::empty()
        } else {
            seq!['/']
        }) + x,
{
    let s = st.push(x);
    assert(s.drop_last() =~= st);
    if st.len() == 0 {
        assert(s[0] == x);
        assert(join(st) + Seq::<char>::empty() + x =~= x);
        assert(render(rooted, st) + Seq::<char>::empty() + x =~= render(rooted, s));
    } else {
        assert(render(rooted, st) + seq!['/'] + x =~= render(rooted, s));
    }
}

/// Erasing the last named segment of a stack: its text is the text of the shorter
/// stack, then a separator-free tail after position `target`, which lies at or past
/// the end of the protected run of `..`.
pub proof fn lemma_erase_last(rooted: bool, st: Seq<Seq<char>>, dd: int)
    requires
        well_formed(rooted, st),
        0 <= dd < st.len(),
        forall|i: int| 0 <= i < dd ==> #[trigger] st[i] == dot_dot(),
        forall|i: int| dd <= i < st.len() ==> is_named(#[trigger] st[i]),
    ensures
        ({
            let s1 = st.drop_last();
            let out = render(rooted, st);
            let target = render(rooted, s1).len() as int;
            let floor = render(rooted, st.subrange(0, dd)).len();
            &&& floor <= target < out.len()
            &&& target == floor || out[target] == '/'
            &&& forall|j: int| target < j < out.len() ==> #[trigger] out[j] != '/'
            &&& out.subrange(0, target) == render(rooted, s1)
            &&& well_formed(rooted, s1)
            &&& s1.subrange(0, dd) == st.subrange(0, dd)
        }),
{
    let s1 = st.drop_last();
    let x = st.last();
    let out = render(rooted, st);
    assert(is_named(st[st.len() - 1]));
    assert(s1.push(x) =~= st);
    lemma_render_push(rooted, s1, x);
    assert(s1.subrange(0, dd) =~= st.subrange(0, dd));
    assert(well_formed(rooted, s1)) by {
        assert(forall|i: int| 0 <= i < s1.len() ==> s1[i] == st[i]);
    }
    lemma_well_formed_pieces(rooted, s1);
    lemma_render_prefix(rooted, s1, dd);
    let target = render(rooted, s1).len() as int;
    if s1.len() == 0 {
        assert(st.subrange(0, dd) =~= s1);
    } else {
        assert(out[target] == '/');
    }
    assert forall|j: int| target < j < out.len() implies #[trigger] out[j] != '/' by {
        if s1.len() == 0 {
            assert(out[j] == x[j - target]);
        } else {
            assert(out[j] == x[j - target - 1]);
        }
    }
    assert(out.subrange(0, target) =~= render(rooted, s1));
}

} // verus!
