//! Laws of cleaning, stated over the model and proved.
use vstd::prelude::*;
use crate::lemmas::{
    lemma_join_pieces, lemma_resolve_fixed, lemma_resolve_push, lemma_resolve_well_formed,
    lemma_segments_join, lemma_segments_no_sep, lemma_segments_pieces, lemma_segments_rooted,
    lemma_well_formed_pieces,
};
use crate::model::{
    cleaned, dot, dot_dot, dots, is_rooted, join, no_double_sep, render, resolve, segments, step,
    well_formed,
};

verus! {

/// The text of a well-formed stack that is not empty, or is rooted: it keeps the
/// rootedness, splits back into the stack, holds no redundancy and is already clean.
proof fn lemma_render_clean(rooted: bool, st: Seq<Seq<char>>)
    requires
        well_formed(rooted, st),
        rooted || st.len() > 0,
    ensures
        render(rooted, st).len() > 0,
        is_rooted(render(rooted, st)) == rooted,
        segments(render(rooted, st)) == st,
        no_double_sep(render(rooted, st)),
        render(rooted, st).last() == '/' ==> render(rooted, st) == seq!['/'],
        cleaned(render(rooted, st)) == render(rooted, st),
{
    let q = render(rooted, st);
    let j = join(st);
    lemma_well_formed_pieces(rooted, st);
    lemma_segments_join(st);
    if st.len() > 0 {
        lemma_join_pieces(st);
    }
    if rooted {
        lemma_segments_rooted(j);
        assert(q[0] == '/');
        if st.len() == 0 {
            assert(q =~= seq!['/']);
        } else {
            assert forall|i: int| 0 <= i < q.len() - 1 implies !(#[trigger] q[i] == '/' && q[i
                + 1] == '/') by {
                if i == 0 {
                    assert(q[1] == j[0]);
                } else {
                    assert(q[i] == j[i - 1] && q[i + 1] == j[i]);
                }
            }
            assert(q.last() == j.last());
        }
    }
    lemma_resolve_fixed(rooted, st);
}

/// The stack that cleaning `p` renders, and the two shapes of the result.
proof fn lemma_clean_shape(p: Seq<char>)
    ensures
        well_formed(is_rooted(p), resolve(is_rooted(p), segments(p))),
        ({
            let st = resolve(is_rooted(p), segments(p));
            if !is_rooted(p) && st.len() == 0 {
                cleaned(p) == dot()
            } else {
                cleaned(p) == render(is_rooted(p), st)
            }
        }),
{
    let rooted = is_rooted(p);
    lemma_segments_pieces(p);
    lemma_resolve_well_formed(rooted, segments(p));
    let st = resolve(rooted, segments(p));
    if rooted || st.len() > 0 {
        lemma_render_clean(rooted, st);
    }
}

/// Facts about the current-directory token as a path.
proof fn lemma_dot_clean()
    ensures
        segments(dot()) == seq![dot()],
        !is_rooted(dot()),
        no_double_sep(dot()),
        dot().last() != '/',
        cleaned(dot()) == dot(),
{
    lemma_segments_no_sep(dot());
    assert(seq![dot()] =~= Seq::<Seq<char>>::empty().push(dot()));
    lemma_resolve_push(false, Seq::empty(), dot());
}

/// Cleaning is idempotent: cleaning a clean path gives it back unchanged.
pub proof fn lemma_clean_idempotent(p: Seq<char>)
    ensures
        cleaned(cleaned(p)) == cleaned(p),
{
    lemma_clean_shape(p);
    lemma_dot_clean();
    let st = resolve(is_rooted(p), segments(p));
    if is_rooted(p) || st.len() > 0 {
        lemma_render_clean(is_rooted(p), st);
    }
}

/// The clean form of any path is non-empty; the empty path cleans to `.`.
pub proof fn lemma_clean_nonempty(p: Seq<char>)
    ensures
        cleaned(p).len() > 0,
        cleaned(Seq::empty()) == dot(),
{
    lemma_segments_no_sep(Seq::empty());
}

/// A clean path holds no doubled separator, no `.` segment unless it is `.` itself,
/// and ends with a separator only when it is the root.
pub proof fn lemma_clean_no_redundancy(p: Seq<char>)
    ensures
        no_double_sep(cleaned(p)),
        cleaned(p) != dot() ==> forall|i: int|
            0 <= i < segments(cleaned(p)).len() ==> #[trigger] segments(cleaned(p))[i] != dot(),
        cleaned(p).last() == '/' ==> cleaned(p) == seq!['/'],
{
    lemma_clean_shape(p);
    lemma_dot_clean();
    let st = resolve(is_rooted(p), segments(p));
    if is_rooted(p) || st.len() > 0 {
        lemma_render_clean(is_rooted(p), st);
        assert forall|i: int| 0 <= i < st.len() implies #[trigger] st[i] != dot() by {
            if st[i] == dot() {
                assert(st[i].len() == 1);
            }
        }
    }
}

/// The clean form starts with the separator exactly when the path does.
pub proof fn lemma_clean_rooted(p: Seq<char>)
    ensures
        is_rooted(cleaned(p)) == is_rooted(p),
{
    lemma_clean_shape(p);
    lemma_dot_clean();
    let st = resolve(is_rooted(p), segments(p));
    if is_rooted(p) || st.len() > 0 {
        lemma_render_clean(is_rooted(p), st);
    }
}

/// No `..` climbs above the root: the clean form of a rooted path holds no `..` segment.
pub proof fn lemma_clean_root_absorbs(p: Seq<char>)
    requires
        is_rooted(p),
    ensures
        is_rooted(cleaned(p)),
        forall|i: int|
            0 <= i < segments(cleaned(p)).len() ==> #[trigger] segments(cleaned(p))[i]
                != dot_dot(),
{
    lemma_clean_shape(p);
    lemma_render_clean(true, resolve(true, segments(p)));
}

/// Resolution yields at most one segment per segment resolved.
proof fn lemma_resolve_len(rooted: bool, segs: Seq<Seq<char>>)
    ensures
        resolve(rooted, segs).len() <= segs.len(),
    decreases segs.len(),
{
    if segs.len() > 0 {
        lemma_resolve_len(rooted, segs.drop_last());
    }
}

/// In a relative path, resolution keeps the leading run of `..` segments.
proof fn lemma_resolve_keeps_dots(segs: Seq<Seq<char>>, k: int)
    requires
        0 <= k <= segs.len(),
        forall|i: int| 0 <= i < k ==> #[trigger] segs[i] == dot_dot(),
    ensures
        k <= resolve(false, segs).len(),
        forall|i: int| 0 <= i < k ==> #[trigger] resolve(false, segs)[i] == dot_dot(),
    decreases segs.len(),
{
    if segs.len() > 0 {
        let s1 = segs.drop_last();
        let k1 = if k == segs.len() {
            k - 1
        } else {
            k
        };
        assert(forall|i: int| 0 <= i < k1 ==> s1[i] == segs[i]);
        lemma_resolve_keeps_dots(s1, k1);
        let st = resolve(false, s1);
        let seg = segs.last();
        let r = step(false, st, seg);
        assert(r == resolve(false, segs));
        if k == segs.len() {
            lemma_resolve_len(false, s1);
            assert(seg == segs[k - 1]);
            if st.len() > 0 {
                assert(st.last() == st[k - 2]);
            }
            assert(r == st.push(dot_dot()));
            assert(forall|i: int| 0 <= i < k1 ==> r[i] == st[i]);
        } else if seg == dot_dot() && st.len() > 0 && st.last() != dot_dot() {
            if k > 0 {
                assert(st.len() > k) by {
                    if st.len() == k {
                        assert(st.last() == st[k - 1]);
                    }
                }
            }
            assert(forall|i: int| 0 <= i < k ==> r[i] == st[i]);
        } else if seg == dot() {
        } else if seg == dot_dot() {
            assert(forall|i: int| 0 <= i < k ==> r[i] == st[i]);
        } else {
            assert(forall|i: int| 0 <= i < k ==> r[i] == st[i]);
        }
    }
}

/// A relative path keeps its leading `..` segments, however many, and in its clean
/// form every `..` segment comes before every other segment.
pub proof fn lemma_clean_keeps_ascent(p: Seq<char>, k: int)
    requires
        !is_rooted(p),
        0 <= k <= segments(p).len(),
        forall|i: int| 0 <= i < k ==> #[trigger] segments(p)[i] == dot_dot(),
    ensures
        k <= segments(cleaned(p)).len(),
        forall|i: int| 0 <= i < k ==> #[trigger] segments(cleaned(p))[i] == dot_dot(),
        forall|i: int, j: int|
            0 <= i < j < segments(cleaned(p)).len() && #[trigger] segments(cleaned(p))[j]
                == dot_dot() ==> #[trigger] segments(cleaned(p))[i] == dot_dot(),
{
    lemma_clean_shape(p);
    lemma_dot_clean();
    lemma_resolve_keeps_dots(segments(p), k);
    let st = resolve(false, segments(p));
    if st.len() > 0 {
        lemma_render_clean(false, st);
    } else {
        assert(segments(cleaned(p)) == seq![dot()]);
        assert(seq![dot()][0] == dot());
    }
}

/// A rooted path made of nothing but `..` segments, however many, cleans to the root.
pub proof fn lemma_root_absorbs_any_ascent(n: nat)
    ensures
        cleaned(seq!['/'] + join(dots(n))) == seq!['/'],
{
    let st = dots(n);
    assert(well_formed(false, st));
    lemma_well_formed_pieces(false, st);
    lemma_segments_join(st);
    lemma_segments_rooted(join(st));
    lemma_resolve_rooted_dots(n);
    assert(seq!['/'] + join(Seq::<Seq<char>>::empty()) =~= seq!['/']);
}

/// Resolving only `..` segments from the root leaves nothing.
proof fn lemma_resolve_rooted_dots(n: nat)
    ensures
        resolve(true, dots(n)) == Seq::<Seq<char>>::empty(),
    decreases n,
{
    if n > 0 {
        lemma_resolve_rooted_dots((n - 1) as nat);
        assert(dots(n).drop_last() =~= dots((n - 1) as nat));
    }
}

/// A relative path made of nothing but `..` segments, one or more, is already clean:
/// each of them is kept.
pub proof fn lemma_relative_ascent_accumulates(n: nat)
    requires
        n > 0,
    ensures
        cleaned(join(dots(n))) == join(dots(n)),
{
    let st = dots(n);
    assert(well_formed(false, st));
    lemma_render_clean(false, st);
}

} // verus!
