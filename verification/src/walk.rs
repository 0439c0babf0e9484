//! Traversal of link lists.
//!
//! The links of a graph are a sequence of lists: `links[c]` names the cells
//! that cell `c` points at. A write marks every cell that a path of links
//! reaches from the written cell, once for each path. This module defines
//! that traversal and proves what the propagation rests on.
use vstd::prelude::*;

verus! {

/// How often `x` occurs in `s`.
pub open spec fn count(s: Seq<usize>, x: usize) -> nat
    decreases s.len(),
{
    if s.len() == 0 {
        0
    } else {
        count(s.drop_last(), x) + if s.last() == x {
            1nat
        } else {
            0nat
        }
    }
}

/// Whether `k` is the last position of `s` that holds `s[k]`.
pub open spec fn is_last(s: Seq<usize>, k: int) -> bool {
    &&& 0 <= k < s.len()
    &&& forall|j: int| k < j < s.len() ==> s[j] != s[k]
}

/// Every link names a cell, and `rank` falls along every link.
pub open spec fn is_ranking(links: Seq<Seq<usize>>, rank: Seq<nat>) -> bool {
    &&& rank.len() == links.len()
    &&& forall|c: int, k: int|
        0 <= c < links.len() && 0 <= k < links[c].len() ==> (#[trigger] links[c][k]) < links.len()
            && rank[links[c][k] as int] < rank[c]
}

/// No path of links leads from a cell back to itself.
pub open spec fn acyclic(links: Seq<Seq<usize>>) -> bool {
    exists|rank: Seq<nat>| is_ranking(links, rank)
}

/// A ranking of acyclic links.
pub open spec fn ranking(links: Seq<Seq<usize>>) -> Seq<nat> {
    choose|rank: Seq<nat>| is_ranking(links, rank)
}

/// The cells met when walking depth-first from `c`: `c` itself, then, for
/// each link of `c` in order, the cells met from its target. A cell that
/// several paths reach is met once for each path.
pub open spec fn descend(links: Seq<Seq<usize>>, c: usize) -> Seq<usize>
    decreases ranking(links)[c as int], links[c as int].len() + 1,
    when acyclic(links) && c < links.len()
{
    seq![c] + descend_from(links, c, 0)
}

/// The cells met from the links of `c` at positions `k` and later.
pub open spec fn descend_from(links: Seq<Seq<usize>>, c: usize, k: nat) -> Seq<usize>
    decreases ranking(links)[c as int], links[c as int].len() - k,
    when acyclic(links) && c < links.len()
{
    if k >= links[c as int].len() {
        Seq::empty()
    } else {
        descend(links, links[c as int][k as int]) + descend_from(links, c, k + 1)
    }
}

/// `path` follows links from its first cell to its last.
pub open spec fn is_path(links: Seq<Seq<usize>>, path: Seq<usize>) -> bool {
    &&& path.len() > 0
    &&& forall|i: int| 0 <= i < path.len() ==> (#[trigger] path[i]) < links.len()
    &&& forall|i: int|
        0 <= i < path.len() - 1 ==> links[(#[trigger] path[i]) as int].contains(path[i + 1])
}

/// Some path of links, possibly empty, leads from `from` to `to`.
pub open spec fn reaches(links: Seq<Seq<usize>>, from: usize, to: usize) -> bool {
    exists|path: Seq<usize>| is_path(links, path) && path.first() == from && path.last() == to
}

/// The count in two sequences joined is the sum of the counts in each.
pub proof fn lemma_count_add(a: Seq<usize>, b: Seq<usize>, x: usize)
    ensures
        count(a + b, x) == count(a, x) + count(b, x),
    decreases b.len(),
{
    if b.len() == 0 {
        assert(a + b =~= a);
    } else {
        lemma_count_add(a, b.drop_last(), x);
        assert((a + b).drop_last() =~= a + b.drop_last());
    }
}

/// The count in a sequence of one element.
pub proof fn lemma_count_one(c: usize, x: usize)
    ensures
        count(seq![c], x) == if c == x {
            1nat
        } else {
            0nat
        },
{
    assert(seq![c].drop_last() =~= Seq::<usize>::empty());
    assert(count(seq![c], x) == count(seq![c].drop_last(), x) + if c == x {
        1nat
    } else {
        0nat
    });
}

/// One more element counts once if it is the value counted.
pub proof fn lemma_count_push(s: Seq<usize>, c: usize, x: usize)
    ensures
        count(s.push(c), x) == count(s, x) + if c == x {
            1nat
        } else {
            0nat
        },
{
    assert(s.push(c).drop_last() =~= s);
}

/// Links that lead to older cells only form no cycle.
pub proof fn lemma_older_links_acyclic(links: Seq<Seq<usize>>)
    requires
        forall|c: int, k: int|
            0 <= c < links.len() && 0 <= k < links[c].len() ==> (#[trigger] links[c][k]) < c,
    ensures
        acyclic(links),
{
    let rank = Seq::new(links.len(), |c: int| c as nat);
    assert(is_ranking(links, rank));
}

/// A ranking of some links ranks every selection of them.
pub proof fn lemma_fewer_links_ranked(links: Seq<Seq<usize>>, fewer: Seq<Seq<usize>>, rank: Seq<nat>)
    requires
        is_ranking(links, rank),
        fewer.len() == links.len(),
        forall|c: int, k: int|
            0 <= c < fewer.len() && 0 <= k < fewer[c].len() ==> links[c].contains(
                #[trigger] fewer[c][k],
            ),
    ensures
        is_ranking(fewer, rank),
{
    assert forall|c: int, k: int| 0 <= c < fewer.len() && 0 <= k < fewer[c].len() implies (
    #[trigger] fewer[c][k]) < fewer.len() && rank[fewer[c][k] as int] < rank[c] by {
        let x = fewer[c][k];
        assert(links[c].contains(x));
        let j = choose|j: int| 0 <= j < links[c].len() && links[c][j] == x;
        assert(links[c][j] < links.len());
    }
}

/// Every cell reaches itself.
pub proof fn lemma_reaches_self(links: Seq<Seq<usize>>, c: usize)
    requires
        c < links.len(),
    ensures
        reaches(links, c, c),
{
    let path = seq![c];
    assert(is_path(links, path));
    assert(path.first() == c && path.last() == c);
}

/// A link followed by a path is a path.
pub proof fn lemma_reaches_step(links: Seq<Seq<usize>>, a: usize, b: usize, to: usize)
    requires
        a < links.len(),
        links[a as int].contains(b),
        reaches(links, b, to),
    ensures
        reaches(links, a, to),
{
    let tail = choose|path: Seq<usize>|
        is_path(links, path) && path.first() == b && path.last() == to;
    let path = seq![a] + tail;
    assert forall|i: int| 0 <= i < path.len() - 1 implies links[(#[trigger] path[i]) as int].contains(
        path[i + 1],
    ) by {
        if i > 0 {
            assert(path[i] == tail[i - 1]);
            assert(path[i + 1] == tail[i]);
        }
    }
    assert(is_path(links, path));
    assert(path.first() == a && path.last() == to);
}

/// A cell without links reaches no other cell.
pub proof fn lemma_sink_reaches_itself_only(links: Seq<Seq<usize>>, c: usize, to: usize)
    requires
        c < links.len(),
        links[c as int].len() == 0,
        reaches(links, c, to),
    ensures
        to == c,
{
    let path = choose|path: Seq<usize>|
        is_path(links, path) && path.first() == c && path.last() == to;
    if path.len() > 1 {
        assert(links[path[0] as int].contains(path[1]));
    }
}

/// One more link from `from` to `to` closes no cycle where `to` does not
/// reach `from`.
pub proof fn lemma_new_link_acyclic(
    links: Seq<Seq<usize>>,
    more: Seq<Seq<usize>>,
    from: usize,
    to: usize,
)
    requires
        acyclic(links),
        links.len() <= usize::MAX,
        from < links.len(),
        to < links.len(),
        !reaches(links, to, from),
        more == links.update(from as int, links[from as int].push(to)),
    ensures
        acyclic(more),
{
    let rank = ranking(links);
    assert(is_ranking(links, rank));
    let lift = rank[to as int] + 1;
    let up = Seq::new(
        links.len(),
        |c: int|
            if reaches(links, c as usize, from) {
                rank[c] + lift
            } else {
                rank[c]
            },
    );
    lemma_reaches_self(links, from);
    assert forall|c: int, k: int| 0 <= c < more.len() && 0 <= k < more[c].len() implies (
    #[trigger] more[c][k]) < more.len() && up[more[c][k] as int] < up[c] by {
        let x = more[c][k];
        if c == from && k == links[from as int].len() {
            assert(x == to);
        } else {
            assert(x == links[c][k]);
            assert(links[c][k] < links.len());
            if reaches(links, x, from) {
                assert(links[c].contains(x));
                assert((c as usize) as int == c);
                lemma_reaches_step(links, c as usize, x, from);
            }
        }
    }
    assert(is_ranking(more, up));
}

/// One more cell without links closes no cycle.
pub proof fn lemma_new_cell_acyclic(links: Seq<Seq<usize>>)
    requires
        acyclic(links),
    ensures
        acyclic(links.push(Seq::empty())),
{
    let rank = ranking(links);
    assert(is_ranking(links, rank));
    let more = links.push(Seq::empty());
    let up = rank.push(0);
    assert forall|c: int, k: int| 0 <= c < more.len() && 0 <= k < more[c].len() implies (
    #[trigger] more[c][k]) < more.len() && up[more[c][k] as int] < up[c] by {
        assert(more[c][k] == links[c][k]);
        assert(links[c][k] < links.len());
    }
    assert(is_ranking(more, up));
}

/// A walk meets cells of the graph only.
pub proof fn lemma_descend_range(links: Seq<Seq<usize>>, c: usize)
    requires
        acyclic(links),
        c < links.len(),
    ensures
        forall|i: int|
            0 <= i < descend(links, c).len() ==> (#[trigger] descend(links, c)[i]) < links.len(),
        descend(links, c).len() > 0,
        descend(links, c)[0] == c,
    decreases ranking(links)[c as int], links[c as int].len() + 1,
{
    lemma_descend_from_range(links, c, 0);
    let rest = descend_from(links, c, 0);
    let all = descend(links, c);
    assert(all == seq![c] + rest);
    assert forall|i: int| 0 <= i < all.len() implies (#[trigger] all[i]) < links.len() by {
        if i > 0 {
            assert(all[i] == rest[i - 1]);
        }
    }
}

/// A walk from the links of a cell meets cells of the graph only.
pub proof fn lemma_descend_from_range(links: Seq<Seq<usize>>, c: usize, k: nat)
    requires
        acyclic(links),
        c < links.len(),
    ensures
        forall|i: int|
            0 <= i < descend_from(links, c, k).len() ==> (#[trigger] descend_from(links, c, k)[i])
                < links.len(),
    decreases ranking(links)[c as int], links[c as int].len() - k,
{
    if k < links[c as int].len() {
        assert(is_ranking(links, ranking(links)));
        let child = links[c as int][k as int];
        lemma_descend_range(links, child);
        lemma_descend_from_range(links, c, k + 1);
        let part = descend(links, child);
        let rest = descend_from(links, c, k + 1);
        let all = descend_from(links, c, k);
        assert(all == part + rest);
        assert forall|i: int| 0 <= i < all.len() implies (#[trigger] all[i]) < links.len() by {
            if i < part.len() {
                assert(all[i] == part[i]);
            } else {
                assert(all[i] == rest[i - part.len()]);
            }
        }
    }
}

/// A walk from the links of a cell visits the target of each of them.
pub proof fn lemma_descend_from_has(links: Seq<Seq<usize>>, c: usize, n: nat, m: int)
    requires
        acyclic(links),
        c < links.len(),
        n <= m < links[c as int].len(),
    ensures
        exists|j: int|
            0 <= j < descend_from(links, c, n).len() && descend_from(links, c, n)[j]
                == links[c as int][m],
    decreases links[c as int].len() - n,
{
    assert(is_ranking(links, ranking(links)));
    let child = links[c as int][n as int];
    let part = descend(links, child);
    let rest = descend_from(links, c, n + 1);
    let all = descend_from(links, c, n);
    assert(all == part + rest);
    lemma_descend_range(links, child);
    if m == n {
        assert(all[0] == part[0]);
    } else {
        lemma_descend_from_has(links, c, n + 1, m);
        let j = choose|j: int| 0 <= j < rest.len() && rest[j] == links[c as int][m];
        assert(all[part.len() + j] == rest[j]);
    }
}

/// In a walk, every visit of a cell is followed by a visit of each cell
/// that the cell links to.
pub proof fn lemma_descend_follow(links: Seq<Seq<usize>>, c: usize, k: int, v: usize)
    requires
        acyclic(links),
        c < links.len(),
        0 <= k < descend(links, c).len(),
        descend(links, c)[k] < links.len(),
        links[descend(links, c)[k] as int].contains(v),
    ensures
        exists|j: int| k < j < descend(links, c).len() && descend(links, c)[j] == v,
    decreases ranking(links)[c as int], links[c as int].len() + 1,
{
    let rest = descend_from(links, c, 0);
    let all = descend(links, c);
    assert(all == seq![c] + rest);
    if k == 0 {
        let m = choose|m: int| 0 <= m < links[c as int].len() && links[c as int][m] == v;
        lemma_descend_from_has(links, c, 0, m);
        let j = choose|j: int| 0 <= j < rest.len() && rest[j] == links[c as int][m];
        assert(all[j + 1] == rest[j]);
    } else {
        assert(all[k] == rest[k - 1]);
        lemma_descend_from_follow(links, c, 0, k - 1, v);
        let j = choose|j: int| k - 1 < j < rest.len() && rest[j] == v;
        assert(all[j + 1] == rest[j]);
    }
}

/// In a walk from the links of a cell, every visit of a cell is followed by
/// a visit of each cell that the cell links to.
pub proof fn lemma_descend_from_follow(links: Seq<Seq<usize>>, c: usize, n: nat, k: int, v: usize)
    requires
        acyclic(links),
        c < links.len(),
        0 <= k < descend_from(links, c, n).len(),
        descend_from(links, c, n)[k] < links.len(),
        links[descend_from(links, c, n)[k] as int].contains(v),
    ensures
        exists|j: int|
            k < j < descend_from(links, c, n).len() && descend_from(links, c, n)[j] == v,
    decreases ranking(links)[c as int], links[c as int].len() - n,
{
    if n < links[c as int].len() {
        assert(is_ranking(links, ranking(links)));
        let child = links[c as int][n as int];
        let part = descend(links, child);
        let rest = descend_from(links, c, n + 1);
        let all = descend_from(links, c, n);
        assert(all == part + rest);
        if k < part.len() {
            assert(all[k] == part[k]);
            lemma_descend_follow(links, child, k, v);
            let j = choose|j: int| k < j < part.len() && part[j] == v;
            assert(all[j] == part[j]);
        } else {
            assert(all[k] == rest[k - part.len()]);
            lemma_descend_from_follow(links, c, n + 1, k - part.len(), v);
            let j = choose|j: int| k - part.len() < j < rest.len() && rest[j] == v;
            assert(all[part.len() + j] == rest[j]);
        }
    }
}

/// The count of a value in a first part of a sequence is at most its count
/// in the whole, and less where the value occurs later.
pub proof fn lemma_count_take(s: Seq<usize>, n: int, x: usize)
    requires
        0 <= n <= s.len(),
    ensures
        count(s.take(n), x) <= count(s, x),
        (exists|j: int| n <= j < s.len() && s[j] == x) ==> count(s.take(n), x) < count(s, x),
        (forall|j: int| n <= j < s.len() ==> s[j] != x) ==> count(s.take(n), x) == count(s, x),
    decreases s.len() - n,
{
    if n < s.len() {
        lemma_count_take(s, n + 1, x);
        assert(s.take(n + 1) =~= s.take(n).push(s[n]));
        lemma_count_push(s.take(n), s[n], x);
        if exists|j: int| n <= j < s.len() && s[j] == x {
            let j = choose|j: int| n <= j < s.len() && s[j] == x;
            if j > n {
                assert(n + 1 <= j < s.len() && s[j] == x);
            }
        }
    } else {
        assert(s.take(n) =~= s);
    }
}

/// What holds of the start of a walk and of the target of every link holds
/// of every cell that the walk visits.
pub proof fn lemma_descend_all(links: Seq<Seq<usize>>, c: usize, holds: spec_fn(usize) -> bool)
    requires
        acyclic(links),
        c < links.len(),
        holds(c),
        forall|x: int, k: int|
            0 <= x < links.len() && 0 <= k < links[x].len() ==> holds(#[trigger] links[x][k]),
    ensures
        forall|i: int| 0 <= i < descend(links, c).len() ==> holds(#[trigger] descend(links, c)[i]),
    decreases ranking(links)[c as int], links[c as int].len() + 1,
{
    lemma_descend_from_all(links, c, 0, holds);
    let rest = descend_from(links, c, 0);
    let all = descend(links, c);
    assert(all == seq![c] + rest);
    assert forall|i: int| 0 <= i < all.len() implies holds(#[trigger] all[i]) by {
        if i > 0 {
            assert(all[i] == rest[i - 1]);
        }
    }
}

/// What holds of the target of every link holds of every cell that a walk
/// from the links of a cell visits.
pub proof fn lemma_descend_from_all(
    links: Seq<Seq<usize>>,
    c: usize,
    n: nat,
    holds: spec_fn(usize) -> bool,
)
    requires
        acyclic(links),
        c < links.len(),
        forall|x: int, k: int|
            0 <= x < links.len() && 0 <= k < links[x].len() ==> holds(#[trigger] links[x][k]),
    ensures
        forall|i: int|
            0 <= i < descend_from(links, c, n).len() ==> holds(
                #[trigger] descend_from(links, c, n)[i],
            ),
    decreases ranking(links)[c as int], links[c as int].len() - n,
{
    if n < links[c as int].len() {
        assert(is_ranking(links, ranking(links)));
        let child = links[c as int][n as int];
        assert(holds(child));
        lemma_descend_all(links, child, holds);
        lemma_descend_from_all(links, c, n + 1, holds);
        let part = descend(links, child);
        let rest = descend_from(links, c, n + 1);
        let all = descend_from(links, c, n);
        assert(all == part + rest);
        assert forall|i: int| 0 <= i < all.len() implies holds(#[trigger] all[i]) by {
            if i < part.len() {
                assert(all[i] == part[i]);
            } else {
                assert(all[i] == rest[i - part.len()]);
            }
        }
    }
}

/// A value that occurs in a sequence has a last position there.
pub proof fn lemma_last_position(s: Seq<usize>, x: usize) -> (k: int)
    requires
        s.contains(x),
    ensures
        is_last(s, k),
        s[k] == x,
    decreases s.len(),
{
    let i = choose|i: int| 0 <= i < s.len() && s[i] == x;
    if s.last() == x {
        s.len() - 1
    } else {
        let front = s.drop_last();
        assert(front[i] == x);
        let k = lemma_last_position(front, x);
        assert forall|j: int| k < j < s.len() implies s[j] != s[k] by {
            if j < front.len() {
                assert(front[j] != front[k]);
            }
        }
        k
    }
}

/// A cell reaches another exactly when it is that cell or one of its links
/// leads to a cell that reaches it.
pub proof fn lemma_reaches_unfold(links: Seq<Seq<usize>>, from: usize, to: usize)
    requires
        from < links.len(),
    ensures
        reaches(links, from, to) <==> (from == to || exists|k: int|
            0 <= k < links[from as int].len() && reaches(links, #[trigger] links[from as int][k], to)),
{
    if reaches(links, from, to) && from != to {
        let path = choose|path: Seq<usize>|
            is_path(links, path) && path.first() == from && path.last() == to;
        assert(path.len() > 1);
        let tail = path.drop_first();
        assert(links[path[0] as int].contains(path[1]));
        let k = choose|k: int| 0 <= k < links[from as int].len() && links[from as int][k] == path[1];
        assert forall|i: int| 0 <= i < tail.len() implies (#[trigger] tail[i]) < links.len() by {
            assert(tail[i] == path[i + 1]);
        }
        assert forall|i: int| 0 <= i < tail.len() - 1 implies links[(#[trigger] tail[i]) as int].contains(
            tail[i + 1],
        ) by {
            assert(tail[i] == path[i + 1]);
            assert(links[path[i + 1] as int].contains(path[i + 2]));
        }
        assert(is_path(links, tail));
        assert(tail.first() == links[from as int][k] && tail.last() == to);
        assert(reaches(links, links[from as int][k], to));
    }
    if from == to {
        lemma_reaches_self(links, from);
    }
    if exists|k: int|
        0 <= k < links[from as int].len() && reaches(links, #[trigger] links[from as int][k], to) {
        let k = choose|k: int|
            0 <= k < links[from as int].len() && reaches(links, #[trigger] links[from as int][k], to);
        assert(links[from as int].contains(links[from as int][k]));
        lemma_reaches_step(links, from, links[from as int][k], to);
    }
}

/// The walk from a cell without links visits the cell alone.
pub proof fn lemma_descend_leaf(links: Seq<Seq<usize>>, c: usize)
    requires
        acyclic(links),
        c < links.len(),
        links[c as int].len() == 0,
    ensures
        descend(links, c) == seq![c],
        descend_from(links, c, 0) == Seq::<usize>::empty(),
{
    assert(descend_from(links, c, 0) =~= Seq::<usize>::empty());
    assert(descend(links, c) =~= seq![c]);
}

/// The walk from the links of a cell is the walk from their targets, one
/// after the other.
pub proof fn lemma_descend_from_step(links: Seq<Seq<usize>>, c: usize, k: nat)
    requires
        acyclic(links),
        c < links.len(),
    ensures
        descend(links, c) == seq![c] + descend_from(links, c, 0),
        k < links[c as int].len() ==> descend_from(links, c, k) == descend(
            links,
            links[c as int][k as int],
        ) + descend_from(links, c, k + 1),
        k >= links[c as int].len() ==> descend_from(links, c, k) == Seq::<usize>::empty(),
{
}

/// A value that does not occur is counted zero times.
pub proof fn lemma_count_absent(s: Seq<usize>, x: usize)
    requires
        forall|i: int| 0 <= i < s.len() ==> s[i] != x,
    ensures
        count(s, x) == 0,
    decreases s.len(),
{
    if s.len() > 0 {
        assert forall|i: int| 0 <= i < s.drop_last().len() implies s.drop_last()[i] != x by {
            assert(s.drop_last()[i] == s[i]);
        }
        lemma_count_absent(s.drop_last(), x);
        assert(s[s.len() - 1] != x);
    }
}

} // verus!
