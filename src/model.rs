//! The mathematical model of lexical path cleaning.
//!
//! A path is a sequence of characters. Splitting it on `/` and dropping the
//! empty pieces gives its segments. Resolving the segments left to right
//! against a stack (skip `.`, let `..` cancel the last named segment) gives
//! the segments of the clean path, which are joined back with `/`.
use vstd::prelude::*;

verus! {

/// The single-character current-directory token `.`.
pub open spec fn dot() -> Seq<char> {
    seq!['.']
}

/// The two-character parent-directory token `..`.
pub open spec fn dot_dot() -> Seq<char> {
    seq!['.', '.']
}

/// `s` holds no separator.
pub open spec fn no_sep(s: Seq<char>) -> bool {
    forall|i: int| 0 <= i < s.len() ==> s[i] != '/'
}

/// A segment as splitting produces it: non-empty and free of separators.
pub open spec fn is_piece(s: Seq<char>) -> bool {
    s.len() > 0 && no_sep(s)
}

/// A segment that names a directory entry: neither `.` nor `..`.
pub open spec fn is_named(s: Seq<char>) -> bool {
    is_piece(s) && s != dot() && s != dot_dot()
}

/// Every element of `st` is a piece.
pub open spec fn all_pieces(st: Seq<Seq<char>>) -> bool {
    forall|i: int| 0 <= i < st.len() ==> is_piece(#[trigger] st[i])
}

/// Adds the segment under construction to the finished ones, unless it is empty.
pub open spec fn close(done: Seq<Seq<char>>, cur: Seq<char>) -> Seq<Seq<char>> {
    if cur.len() == 0 {
        done
    } else {
        done.push(cur)
    }
}

/// Scans `p` left to right: the finished segments and the one under construction.
pub open spec fn scan(p: Seq<char>) -> (Seq<Seq<char>>, Seq<char>)
    decreases p.len(),
{
    if p.len() == 0 {
        (Seq::empty(), Seq::empty())
    } else {
        let prev = scan(p.drop_last());
        if p.last() == '/' {
            (close(prev.0, prev.1), Seq::empty())
        } else {
            (prev.0, prev.1.push(p.last()))
        }
    }
}

/// The non-empty runs of non-separator characters of `p`, in order.
pub open spec fn segments(p: Seq<char>) -> Seq<Seq<char>> {
    close(scan(p).0, scan(p).1)
}

/// One segment applied to the stack of resolved segments.
pub open spec fn step(rooted: bool, st: Seq<Seq<char>>, seg: Seq<char>) -> Seq<Seq<char>> {
    if seg == dot() {
        st
    } else if seg == dot_dot() {
        if st.len() > 0 && st.last() != dot_dot() {
            st.drop_last()
        } else if rooted {
            st
        } else {
            st.push(dot_dot())
        }
    } else {
        st.push(seg)
    }
}

/// The segments `segs` applied, left to right, to an empty stack.
pub open spec fn resolve(rooted: bool, segs: Seq<Seq<char>>) -> Seq<Seq<char>>
    decreases segs.len(),
{
    if segs.len() == 0 {
        Seq::empty()
    } else {
        step(rooted, resolve(rooted, segs.drop_last()), segs.last())
    }
}

/// The segments of `st` with one separator between neighbours.
pub open spec fn join(st: Seq<Seq<char>>) -> Seq<char>
    decreases st.len(),
{
    if st.len() == 0 {
        Seq::empty()
    } else if st.len() == 1 {
        st[0]
    } else {
        join(st.drop_last()) + seq!['/'] + st.last()
    }
}

/// The text of a stack of segments: a rooted one starts with the separator.
pub open spec fn render(rooted: bool, st: Seq<Seq<char>>) -> Seq<char> {
    if rooted {
        seq!['/'] + join(st)
    } else {
        join(st)
    }
}

/// `p` starts with the separator.
pub open spec fn is_rooted(p: Seq<char>) -> bool {
    p.len() > 0 && p[0] == '/'
}

/// The clean form of `p`: its resolved segments rendered, or `.` where that is empty.
pub open spec fn cleaned(p: Seq<char>) -> Seq<char> {
    let out = render(is_rooted(p), resolve(is_rooted(p), segments(p)));
    if out.len() == 0 {
        dot()
    } else {
        out
    }
}

/// `n` copies of `..`.
pub open spec fn dots(n: nat) -> Seq<Seq<char>> {
    Seq::new(n, |i: int| dot_dot())
}

/// A stack that resolution can leave: a run of `..` followed by named segments,
/// and no `..` at all when rooted.
pub open spec fn well_formed(rooted: bool, st: Seq<Seq<char>>) -> bool {
    &&& forall|i: int| 0 <= i < st.len() ==> #[trigger] st[i] == dot_dot() || is_named(st[i])
    &&& forall|i: int, j: int|
        0 <= i < j < st.len() && #[trigger] st[j] == dot_dot() ==> #[trigger] st[i] == dot_dot()
    &&& rooted ==> forall|i: int| 0 <= i < st.len() ==> #[trigger] st[i] != dot_dot()
}

/// No two separators stand next to each other in `s`.
pub open spec fn no_double_sep(s: Seq<char>) -> bool {
    forall|i: int| 0 <= i < s.len() - 1 ==> !(#[trigger] s[i] == '/' && s[i + 1] == '/')
}

} // verus!
