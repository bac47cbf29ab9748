//! The cleaning algorithm: one left-to-right pass with a backtrack floor.
use vstd::prelude::*;
use crate::lemmas::{
    lemma_erase_last, lemma_prefix_split, lemma_render_empty, lemma_render_prefix, lemma_render_push,
    lemma_resolve_push, lemma_segments_concat, lemma_segments_no_sep, lemma_segments_rooted,
    lemma_well_formed_pieces,
};
use crate::text::{chars_of, string_of};
use crate::model::{
    cleaned, dot, dot_dot, is_named, is_rooted, no_sep, render, resolve, segments,
    well_formed,
};

verus! {

/// Cleans a path lexically, without consulting any filesystem.
///
/// Runs of separators collapse to one, `.` segments vanish, each `..` erases the
/// named segment before it, a `..` that would climb above the root is dropped,
/// leading `..` segments of a relative path are kept, and a trailing separator
/// goes unless the result is the root itself. A result that would be empty is `.`.
pub fn clean(path: &str) -> (r: String)
    ensures
        r@ == cleaned(path@),
{
    let chars = chars_of(path);
    let out = clean_internal(chars.as_slice());
    string_of(out)
}

/// The position of the last separator of `out` past `floor`, or `floor` where there is none.
fn last_sep_after(out: &Vec<char>, floor: usize) -> (w: usize)
    requires
        floor < out@.len(),
    ensures
        floor <= w < out@.len(),
        w == floor || out@[w as int] == '/',
        forall|j: int| w < j < out@.len() ==> #[trigger] out@[j] != '/',
{
    let mut w = out.len() - 1;
    while w > floor && out[w] != '/'
        invariant
            floor <= w < out@.len(),
            forall|j: int| w < j < out@.len() ==> #[trigger] out@[j] != '/',
        decreases w,
    {
        w -= 1;
    }
    w
}

/// Appends the run of non-separators of `path` that starts at `r`; returns where it ends.
fn push_segment(out: &mut Vec<char>, path: &[char], r: usize) -> (k: usize)
    requires
        r < path@.len(),
    ensures
        r <= k <= path@.len(),
        k == path@.len() || path@[k as int] == '/',
        no_sep(path@.subrange(r as int, k as int)),
        final(out)@ == old(out)@ + path@.subrange(r as int, k as int),
{
    let n = path.len();
    let mut k = r;
    while k < n && path[k] != '/'
        invariant
            r <= k <= n,
            n == path@.len(),
            no_sep(path@.subrange(r as int, k as int)),
            out@ == old(out)@ + path@.subrange(r as int, k as int),
        decreases n - k,
    {
        proof {
            assert(path@.subrange(r as int, k + 1) =~= path@.subrange(r as int, k as int).push(
                path@[k as int],
            ));
        }
        out.push(path[k]);
        k += 1;
    }
    k
}

/// Cleans a path given as characters: see [`clean`].
///
/// The output grows left to right. `floor` marks the start of the part that a
/// `..` may erase: past the root separator, or past a leading run of `..`.
#[verifier::rlimit(20)]
pub fn clean_internal(path: &[char]) -> (out: Vec<char>)
    ensures
        out@ == cleaned(path@),
{
    let ghost p = path@;
    let n = path.len();
    if n == 0 {
        let out = vec!['.'];
        proof {
            lemma_segments_no_sep(p);
            assert(out@ =~= dot());
        }
        return out;
    }
    let rooted = path[0] == '/';
    let mut out: Vec<char> = Vec::with_capacity(n);
    let mut r: usize = 0;
    let mut floor: usize = 0;
    // the resolved segments of what has been read, which `out` renders, and the
    // length of their leading run of `..`
    let ghost mut st: Seq<Seq<char>> = Seq::empty();
    let ghost mut dd: nat = 0;
    if rooted {
        out.push('/');
        r = 1;
        floor = 1;
    }
    proof {
        lemma_segments_no_sep(Seq::empty());
        if rooted {
            assert(p.subrange(0, 1) =~= seq!['/'] + Seq::<char>::empty());
            lemma_segments_rooted(Seq::empty());
            assert(out@ =~= render(rooted, st));
        } else {
            assert(p.subrange(0, 0) =~= Seq::<char>::empty());
        }
        assert(st.subrange(0, 0) =~= st);
    }
    while r < n
        invariant
            p == path@,
            n == p.len(),
            n > 0,
            rooted == is_rooted(p),
            r <= n,
            rooted ==> r >= 1,
            r == 0 || r == n || p[r - 1] == '/' || p[r as int] == '/',
            st == resolve(rooted, segments(p.subrange(0, r as int))),
            well_formed(rooted, st),
            dd <= st.len(),
            forall|i: int| 0 <= i < dd ==> #[trigger] st[i] == dot_dot(),
            forall|i: int| dd <= i < st.len() ==> is_named(#[trigger] st[i]),
            rooted ==> dd == 0,
            out@ == render(rooted, st),
            floor == render(rooted, st.subrange(0, dd as int)).len(),
        decreases n - r,
    {
        proof {
            lemma_well_formed_pieces(rooted, st);
            lemma_render_empty(rooted, st);
        }
        let ghost pre = p.subrange(0, r as int);
        if path[r] == '/' || path[r] == '.' && (r + 1 == n || path[r + 1] == '/') {
            // an empty segment or `.`: nothing to write
            proof {
                if p[r as int] == '/' {
                    assert(p.subrange(0, r + 1) =~= pre + seq!['/'] + Seq::<char>::empty());
                    lemma_segments_concat(pre, Seq::empty());
                    lemma_segments_no_sep(Seq::empty());
                    assert(segments(pre) + Seq::<Seq<char>>::empty() =~= segments(pre));
                } else {
                    assert(p.subrange(r as int, r + 1) =~= dot());
                    lemma_prefix_split(p, r as int, r + 1);
                    lemma_resolve_push(rooted, segments(pre), dot());
                }
            }
            r += 1;
        } else if path[r] == '.' && path[r + 1] == '.' && (r + 2 == n || path[r + 2] == '/') {
            // `..`: erase the last named segment, keep it, or drop it at the root
            proof {
                assert(p.subrange(r as int, r + 2) =~= dot_dot());
                lemma_prefix_split(p, r as int, r + 2);
                lemma_resolve_push(rooted, segments(pre), dot_dot());
                lemma_render_prefix(rooted, st, dd as int);
                if dd == st.len() {
                    assert(st.subrange(0, dd as int) =~= st);
                }
            }
            r += 2;
            if out.len() > floor {
                let ghost s1 = st.drop_last();
                let ghost target = render(rooted, s1).len();
                proof {
                    lemma_erase_last(rooted, st, dd as int);
                }
                let w = last_sep_after(&out, floor);
                assert(w == target);
                out.truncate(w);
                proof {
                    st = s1;
                }
            } else if !rooted {
                let ghost s1 = st.push(dot_dot());
                proof {
                    if st.len() > 0 {
                        assert(st[st.len() - 1] == dot_dot());
                    }
                    lemma_render_push(rooted, st, dot_dot());
                }
                if !out.is_empty() {
                    out.push('/');
                }
                out.push('.');
                out.push('.');
                proof {
                    assert(out@ =~= render(rooted, s1));
                    assert(s1.subrange(0, dd + 1 as int) =~= s1);
                    st = s1;
                    dd = dd + 1;
                }
                floor = out.len();
            }
        } else {
            // a named segment: copy it, after a separator where one is needed
            let ghost r0 = r as int;
            if rooted && out.len() != 1 || !rooted && !out.is_empty() {
                out.push('/');
            }
            r = push_segment(&mut out, path, r);
            let ghost x = p.subrange(r0, r as int);
            proof {
                assert(x.len() > 0);
                if x.len() == 1 {
                    assert(x[0] == p[r0]);
                    assert(x != dot());
                }
                if x.len() == 2 {
                    assert(x[0] == p[r0] && x[1] == p[r0 + 1]);
                    assert(x != dot_dot());
                }
                assert(is_named(x));
                lemma_prefix_split(p, r0, r as int);
                lemma_resolve_push(rooted, segments(pre), x);
                lemma_render_push(rooted, st, x);
                let s1 = st.push(x);
                assert(out@ =~= render(rooted, s1));
                assert(s1.subrange(0, dd as int) =~= st.subrange(0, dd as int));
                assert(forall|i: int| 0 <= i < st.len() ==> s1[i] == st[i]);
                st = s1;
            }
        }
    }
    proof {
        assert(p.subrange(0, n as int) =~= p);
    }
    if out.is_empty() {
        out.push('.');
        proof {
            assert(out@ =~= dot());
        }
    }
    out
}

} // verus!
