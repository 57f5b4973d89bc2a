//! Line-oriented view of a text document.
//!
//! A document is a sequence of characters; its lines are the maximal
//! line-feed-free segments between `'\n'` separators. Splitting and joining
//! are exact inverses as long as no line itself carries a line feed, which is
//! the well-formedness condition the codec maintains for every line it emits.

use vstd::prelude::*;

verus! {

/// Holds when no character of `s` is a line feed.
pub open spec fn line_free(s: Seq<char>) -> bool {
    forall|i: int| 0 <= i < s.len() ==> s[i] != '\n'
}

/// Index of the first line feed in `t`, or `t.len()` if there is none.
pub open spec fn first_nl(t: Seq<char>) -> nat
    decreases t.len(),
{
    if t.len() == 0 {
        0
    } else if t[0] == '\n' {
        0
    } else {
        1 + first_nl(t.drop_first())
    }
}

/// `first_nl` points at a line feed when there is one, and everything before
/// it is line-feed free.
pub proof fn lemma_first_nl_bounds(t: Seq<char>)
    ensures
        first_nl(t) <= t.len(),
        forall|k: int| 0 <= k < first_nl(t) ==> t[k] != '\n',
        first_nl(t) < t.len() ==> t[first_nl(t) as int] == '\n',
    decreases t.len(),
{
    if t.len() == 0 {
    } else if t[0] == '\n' {
    } else {
        lemma_first_nl_bounds(t.drop_first());
        assert forall|k: int| 0 <= k < first_nl(t) implies t[k] != '\n' by {
            if k > 0 {
                assert(t.drop_first()[k - 1] != '\n');
            }
        }
    }
}

/// `first_nl` is determined by a witness position: everything before `j` is
/// line-feed free and `j` is a line feed or the end.
pub proof fn lemma_first_nl_at(t: Seq<char>, j: int)
    requires
        0 <= j <= t.len(),
        forall|k: int| 0 <= k < j ==> t[k] != '\n',
        j < t.len() ==> t[j] == '\n',
    ensures
        first_nl(t) == j,
    decreases t.len(),
{
    if t.len() == 0 {
    } else if t[0] == '\n' {
    } else {
        assert forall|k: int| 0 <= k < j - 1 implies t.drop_first()[k] != '\n' by {
            assert(t[k + 1] != '\n');
        }
        lemma_first_nl_at(t.drop_first(), j - 1);
    }
}

/// A line-feed-free text has no line feed to find.
pub proof fn lemma_first_nl_line_free(t: Seq<char>)
    requires
        line_free(t),
    ensures
        first_nl(t) == t.len(),
{
    lemma_first_nl_at(t, t.len() as int);
}

/// In `a + '\n' + b` with `a` line-feed free, the first line feed is the
/// separator after `a`.
pub proof fn lemma_first_nl_concat(a: Seq<char>, b: Seq<char>)
    requires
        line_free(a),
    ensures
        first_nl(a + seq!['\n'] + b) == a.len(),
        (a + seq!['\n'] + b).subrange(0, a.len() as int) == a,
        (a + seq!['\n'] + b).skip(a.len() as int + 1) == b,
{
    let t = a + seq!['\n'] + b;
    assert(t[a.len() as int] == '\n');
    lemma_first_nl_at(t, a.len() as int);
    assert(t.subrange(0, a.len() as int) =~= a);
    assert(t.skip(a.len() as int + 1) =~= b);
}

/// The lines of `t`: the segments between line feeds, in order. A text with
/// no line feed is one line; every line feed separates two lines, so the
/// result never is empty.
pub open spec fn split_lines(t: Seq<char>) -> Seq<Seq<char>>
    decreases t.len(),
{
    let j = first_nl(t);
    if j >= t.len() {
        seq![t]
    } else {
        seq![t.subrange(0, j as int)] + split_lines(t.skip(j as int + 1))
    }
}

/// Rebuilds a text from its lines, separating consecutive lines by `'\n'`.
pub open spec fn join_lines(ls: Seq<Seq<char>>) -> Seq<char>
    decreases ls.len(),
{
    if ls.len() == 0 {
        Seq::empty()
    } else if ls.len() == 1 {
        ls[0]
    } else {
        ls[0] + seq!['\n'] + join_lines(ls.drop_first())
    }
}

/// Splitting the join of line-feed-free lines gives those lines back.
pub proof fn lemma_split_join(ls: Seq<Seq<char>>)
    requires
        ls.len() >= 1,
        forall|i: int| 0 <= i < ls.len() ==> line_free(#[trigger] ls[i]),
    ensures
        split_lines(join_lines(ls)) == ls,
    decreases ls.len(),
{
    if ls.len() == 1 {
        lemma_first_nl_line_free(ls[0]);
        assert(split_lines(join_lines(ls)) =~= ls);
    } else {
        let rest = ls.drop_first();
        lemma_split_join(rest);
        let t = join_lines(ls);
        lemma_first_nl_concat(ls[0], join_lines(rest));
        assert(split_lines(t) =~= ls);
    }
}

/// A join can be cut at any separator: the part before line `i`, the
/// separator, and the join of the lines from `i` on.
pub proof fn lemma_join_split(ls: Seq<Seq<char>>, i: int)
    requires
        1 <= i < ls.len(),
    ensures
        join_lines(ls) == join_lines(ls.subrange(0, i)) + seq!['\n'] + join_lines(ls.skip(i)),
    decreases i,
{
    let rest = ls.drop_first();
    if i == 1 {
        assert(ls.subrange(0, 1) =~= seq![ls[0]]);
        assert(ls.skip(1) =~= rest);
        if ls.len() == 1 {
        } else {
            assert(join_lines(ls) == ls[0] + seq!['\n'] + join_lines(rest));
        }
        assert(join_lines(seq![ls[0]]) == ls[0]);
    } else {
        lemma_join_split(rest, i - 1);
        assert(rest.subrange(0, i - 1) =~= ls.subrange(0, i).drop_first());
        assert(rest.skip(i - 1) =~= ls.skip(i));
        assert(ls.subrange(0, i).len() > 1);
        assert(join_lines(ls.subrange(0, i)) == ls.subrange(0, i)[0] + seq!['\n'] + join_lines(
            ls.subrange(0, i).drop_first(),
        ));
        assert(ls.subrange(0, i)[0] == ls[0]);
        assert(join_lines(ls) == ls[0] + seq!['\n'] + join_lines(rest));
        assert(join_lines(ls) =~= join_lines(ls.subrange(0, i)) + seq!['\n'] + join_lines(
            ls.skip(i),
        ));
    }
}

} // verus!
