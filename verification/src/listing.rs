//! Listings: lists of paths in the order of a depth-first walk.
//!
//! A walk that visits the directories of one level by name meets the
//! paths in the order `path_lt`. So the listing of a set of paths is the
//! one list that holds each path of the set once and is sorted by it.

use crate::path::{
    hidden, is_hidden, lemma_path_lt_asymmetric, lemma_path_lt_irreflexive, lemma_path_lt_total,
    lemma_path_lt_transitive, lemma_rank_injective, path_before, path_lt,
};
use crate::text::{copy_chars, same_chars};
use crate::tree::{are_siblings, distinct, is_last_sibling_at, lies_below, texts};
use vstd::prelude::*;

verus! {

/// The paths come in the order of a depth-first walk, none twice.
pub open spec fn strictly_sorted(paths: Seq<Seq<char>>) -> bool {
    forall|i: int, j: int| 0 <= i < j < paths.len() ==> path_lt(paths[i], paths[j])
}

/// `listing` holds the paths of `dirs`, each once, in the order of a
/// depth-first walk.
pub open spec fn is_listing(dirs: Set<Seq<char>>, listing: Seq<Seq<char>>) -> bool {
    &&& strictly_sorted(listing)
    &&& forall|p: Seq<char>| listing.contains(p) <==> dirs.contains(p)
}

/// A set of paths has one listing at most.
pub proof fn lemma_listing_unique(dirs: Set<Seq<char>>, a: Seq<Seq<char>>, b: Seq<Seq<char>>)
    requires
        is_listing(dirs, a),
        is_listing(dirs, b),
    ensures
        a == b,
    decreases a.len(),
{
    if a.len() == 0 {
        if b.len() > 0 {
            assert(b.contains(b[0]));
            assert(a.contains(b[0]));
        }
        assert(a =~= b);
    } else if b.len() == 0 {
        assert(a.contains(a[0]));
        assert(b.contains(a[0]));
    } else {
        // The last path of each listing is the greatest of the set.
        let x = a.last();
        let y = b.last();
        assert(a.contains(x));
        assert(b.contains(y));
        assert(b.contains(x));
        assert(a.contains(y));
        if x != y {
            assert(path_lt(x, y));
            assert(path_lt(y, x));
            lemma_path_lt_asymmetric(x, y);
        }
        let rest = dirs.remove(x);
        assert forall|p: Seq<char>| a.drop_last().contains(p) <==> rest.contains(p) by {
            if a.drop_last().contains(p) {
                let k = choose|k: int| 0 <= k < a.drop_last().len() && a.drop_last()[k] == p;
                assert(a[k] == p);
                assert(a.contains(p));
                assert(path_lt(a[k], x));
                lemma_path_lt_irreflexive(x);
            }
            if rest.contains(p) {
                assert(a.contains(p));
                let k = choose|k: int| 0 <= k < a.len() && a[k] == p;
                assert(a.drop_last()[k] == p);
            }
        }
        assert forall|p: Seq<char>| b.drop_last().contains(p) <==> rest.contains(p) by {
            if b.drop_last().contains(p) {
                let k = choose|k: int| 0 <= k < b.drop_last().len() && b.drop_last()[k] == p;
                assert(b[k] == p);
                assert(b.contains(p));
                assert(path_lt(b[k], y));
                lemma_path_lt_irreflexive(y);
            }
            if rest.contains(p) {
                assert(b.contains(p));
                let k = choose|k: int| 0 <= k < b.len() && b[k] == p;
                assert(b.drop_last()[k] == p);
            }
        }
        assert(strictly_sorted(a.drop_last())) by {
            assert forall|i: int, j: int| 0 <= i < j < a.drop_last().len() implies path_lt(
                a.drop_last()[i],
                a.drop_last()[j],
            ) by {
                assert(path_lt(a[i], a[j]));
            }
        }
        assert(strictly_sorted(b.drop_last())) by {
            assert forall|i: int, j: int| 0 <= i < j < b.drop_last().len() implies path_lt(
                b.drop_last()[i],
                b.drop_last()[j],
            ) by {
                assert(path_lt(b[i], b[j]));
            }
        }
        lemma_listing_unique(rest, a.drop_last(), b.drop_last());
        assert(a =~= a.drop_last().push(x));
        assert(b =~= b.drop_last().push(y));
    }
}

/// One of the first `n` paths of `all` is `q`.
spec fn among_first(all: Seq<Seq<char>>, n: int, q: Seq<char>) -> bool {
    exists|k: int| 0 <= k < n && #[trigger] all[k] == q
}

/// Being among all paths of a list is being in the list.
proof fn lemma_among_all(all: Seq<Seq<char>>)
    ensures
        forall|q: Seq<char>| #[trigger] among_first(all, all.len() as int, q) <==> all.contains(q),
{
    assert forall|q: Seq<char>| #[trigger]
        among_first(all, all.len() as int, q) <==> all.contains(q) by {
        if among_first(all, all.len() as int, q) {
            let k = choose|k: int| 0 <= k < all.len() && #[trigger] all[k] == q;
            assert(all.contains(q));
        }
        if all.contains(q) {
            let k = choose|k: int| 0 <= k < all.len() && all[k] == q;
            assert(all[k] == q);
        }
    }
}

/// The sorted list `sorted` with `p` put at its place, unless it is there.
spec fn with_path(sorted: Seq<Seq<char>>, p: Seq<char>) -> Seq<Seq<char>>
    decreases sorted.len(),
{
    if sorted.len() == 0 {
        seq![p]
    } else if sorted.last() == p {
        sorted
    } else if path_lt(sorted.last(), p) {
        sorted.push(p)
    } else {
        with_path(sorted.drop_last(), p).push(sorted.last())
    }
}

/// `with_path` keeps a list sorted and adds `p` to what it holds.
proof fn lemma_with_path(sorted: Seq<Seq<char>>, p: Seq<char>)
    requires
        strictly_sorted(sorted),
    ensures
        strictly_sorted(with_path(sorted, p)),
        forall|q: Seq<char>|
            #![trigger with_path(sorted, p).contains(q)]
            #![trigger sorted.contains(q)]
            with_path(sorted, p).contains(q) <==> sorted.contains(q) || q == p,
    decreases sorted.len(),
{
    let out = with_path(sorted, p);
    if sorted.len() == 0 {
        assert(out[0] == p);
        assert forall|q: Seq<char>| out.contains(q) <==> sorted.contains(q) || q == p by {
            if out.contains(q) {
                let k = choose|k: int| 0 <= k < out.len() && out[k] == q;
            }
        }
    } else if sorted.last() == p {
        assert(sorted.contains(p)) by {
            assert(sorted[sorted.len() - 1] == p);
        }
    } else if path_lt(sorted.last(), p) {
        assert forall|i: int, j: int| 0 <= i < j < out.len() implies path_lt(out[i], out[j]) by {
            if j == sorted.len() {
                if i < sorted.len() - 1 {
                    assert(path_lt(sorted[i], sorted[sorted.len() - 1]));
                    lemma_path_lt_transitive(sorted[i], sorted.last(), p);
                }
            } else {
                assert(path_lt(sorted[i], sorted[j]));
            }
        }
        assert forall|q: Seq<char>| out.contains(q) <==> sorted.contains(q) || q == p by {
            if out.contains(q) {
                let k = choose|k: int| 0 <= k < out.len() && out[k] == q;
                if k < sorted.len() {
                    assert(sorted[k] == q);
                }
            }
            if sorted.contains(q) {
                let k = choose|k: int| 0 <= k < sorted.len() && sorted[k] == q;
                assert(out[k] == q);
            }
            if q == p {
                assert(out[sorted.len() as int] == q);
            }
        }
    } else {
        let front = sorted.drop_last();
        let top = sorted.last();
        assert(strictly_sorted(front)) by {
            assert forall|i: int, j: int| 0 <= i < j < front.len() implies path_lt(
                front[i],
                front[j],
            ) by {
                assert(path_lt(sorted[i], sorted[j]));
            }
        }
        lemma_with_path(front, p);
        lemma_path_lt_total(top, p);
        let inner = with_path(front, p);
        assert forall|i: int, j: int| 0 <= i < j < out.len() implies path_lt(out[i], out[j]) by {
            if j == inner.len() {
                let q = inner[i];
                assert(inner.contains(q));
                if q != p {
                    let k = choose|k: int| 0 <= k < front.len() && front[k] == q;
                    assert(path_lt(sorted[k], sorted[sorted.len() - 1]));
                }
            } else {
                assert(path_lt(inner[i], inner[j]));
            }
        }
        assert forall|q: Seq<char>| out.contains(q) <==> sorted.contains(q) || q == p by {
            if out.contains(q) {
                let k = choose|k: int| 0 <= k < out.len() && out[k] == q;
                if k < inner.len() {
                    assert(inner.contains(q));
                    if q != p {
                        let m = choose|m: int| 0 <= m < front.len() && front[m] == q;
                        assert(sorted[m] == q);
                    }
                } else {
                    assert(sorted[sorted.len() - 1] == q);
                }
            }
            if sorted.contains(q) {
                let k = choose|k: int| 0 <= k < sorted.len() && sorted[k] == q;
                if k < front.len() {
                    assert(front[k] == q);
                    assert(front.contains(q));
                    assert(inner.contains(q));
                    let m = choose|m: int| 0 <= m < inner.len() && inner[m] == q;
                    assert(out[m] == q);
                } else {
                    assert(out[inner.len() as int] == q);
                }
            }
            if q == p {
                assert(inner.contains(p));
                let m = choose|m: int| 0 <= m < inner.len() && inner[m] == p;
                assert(out[m] == p);
            }
        }
    }
}

/// The listing of the paths among the first `n` of `all` that are not hidden.
spec fn listing_among(all: Seq<Seq<char>>, n: nat) -> Seq<Seq<char>>
    decreases n,
{
    if n == 0 {
        Seq::empty()
    } else if is_hidden(all[n - 1]) {
        listing_among(all, (n - 1) as nat)
    } else {
        with_path(listing_among(all, (n - 1) as nat), all[n - 1])
    }
}

/// `listing_among` is sorted and holds what it is meant to hold.
proof fn lemma_listing_among(all: Seq<Seq<char>>, n: nat)
    requires
        n <= all.len(),
    ensures
        strictly_sorted(listing_among(all, n)),
        forall|q: Seq<char>| #[trigger]
            listing_among(all, n).contains(q) <==> !is_hidden(q) && among_first(all, n as int, q),
    decreases n,
{
    let out = listing_among(all, n);
    if n == 0 {
        assert forall|q: Seq<char>| #[trigger] out.contains(q) <==> !is_hidden(q) && among_first(
            all,
            n as int,
            q,
        ) by {
            if out.contains(q) {
                let k = choose|k: int| 0 <= k < out.len() && out[k] == q;
            }
        }
    } else {
        let before = listing_among(all, (n - 1) as nat);
        lemma_listing_among(all, (n - 1) as nat);
        if !is_hidden(all[n - 1]) {
            lemma_with_path(before, all[n - 1]);
        }
        assert forall|q: Seq<char>| #[trigger] out.contains(q) <==> !is_hidden(q) && among_first(
            all,
            n as int,
            q,
        ) by {
            if among_first(all, n as int, q) {
                let k = choose|k: int| 0 <= k < n && #[trigger] all[k] == q;
                if k < n - 1 {
                    assert(among_first(all, n - 1, q));
                }
            }
            if before.contains(q) {
                let k = choose|k: int| 0 <= k < n - 1 && #[trigger] all[k] == q;
                assert(0 <= k < n && all[k] == q);
            }
            if out.contains(q) && !before.contains(q) {
                assert(all[n - 1] == q);
            }
        }
    }
}

/// What lies below a task comes in one piece, right after the task: a
/// path that comes after `p` and before a path below `p` lies below `p` too.
pub proof fn lemma_subtree_in_one_piece(p: Seq<char>, q: Seq<char>, r: Seq<char>)
    requires
        path_lt(p, q),
        path_lt(q, r),
        lies_below(r, p),
    ensures
        lies_below(q, p),
    decreases p.len(),
{
    let prefix = p.push('/');
    assert(r.take(prefix.len() as int)[0] == r[0]);
    if p.len() == 0 {
        assert(prefix[0] == '/');
        lemma_rank_injective(q[0], r[0]);
        assert(q[0] == '/');
        assert(q.take(1) =~= prefix);
    } else {
        assert(prefix[0] == p[0]);
        assert(q[0] == p[0]);
        let below = p.drop_first().push('/');
        assert(below =~= prefix.drop_first());
        assert(r.drop_first().take(below.len() as int) =~= r.take(
            prefix.len() as int,
        ).drop_first());
        lemma_subtree_in_one_piece(p.drop_first(), q.drop_first(), r.drop_first());
        assert(q.take(prefix.len() as int) =~= seq![q[0]] + q.drop_first().take(
            below.len() as int,
        ));
        assert(prefix =~= seq![p[0]] + below);
    }
}

/// In a listing the last of the tasks that share a parent is the one
/// whose path comes last in the order of paths.
pub proof fn lemma_last_sibling_is_greatest(paths: Seq<Seq<char>>, i: int, j: int)
    requires
        strictly_sorted(paths),
        0 <= i < paths.len(),
        0 <= j < paths.len(),
        are_siblings(paths, i, j),
        is_last_sibling_at(paths, j),
        i != j,
    ensures
        path_lt(paths[i], paths[j]),
{
    if j < i {
        assert(are_siblings(paths, j, i));
    }
}

/// A listing holds no path twice.
pub proof fn lemma_sorted_is_distinct(paths: Seq<Seq<char>>)
    requires
        strictly_sorted(paths),
    ensures
        distinct(paths),
{
    assert forall|i: int, j: int| 0 <= i < j < paths.len() implies paths[i] != paths[j] by {
        assert(path_lt(paths[i], paths[j]));
        lemma_path_lt_irreflexive(paths[i]);
    }
}

/// Puts `p` at its place in the sorted list, unless it is there already.
fn insert_sorted(sorted: &mut Vec<Vec<char>>, p: Vec<char>)
    requires
        strictly_sorted(texts(old(sorted)@)),
    ensures
        strictly_sorted(texts(final(sorted)@)),
        forall|q: Seq<char>|
            texts(final(sorted)@).contains(q) <==> texts(old(sorted)@).contains(q) || q == p@,
{
    let ghost before = texts(sorted@);
    let mut pos: usize = 0;
    while pos < sorted.len() && path_before(&sorted[pos], &p)
        invariant
            pos <= sorted.len(),
            before == texts(sorted@),
            forall|k: int| 0 <= k < pos ==> path_lt(#[trigger] before[k], p@),
        decreases sorted.len() - pos,
    {
        proof {
            assert(before[pos as int] == sorted@[pos as int]@);
        }
        pos += 1;
    }
    if pos < sorted.len() && same_chars(&sorted[pos], &p) {
        proof {
            assert(before[pos as int] == p@);
        }
        return ;
    }
    proof {
        if pos < before.len() {
            assert(before[pos as int] == sorted@[pos as int]@);
            lemma_path_lt_total(before[pos as int], p@);
        }
        sorted@.insert_ensures(pos as int, p);
    }
    sorted.insert(pos, p);
    proof {
        let after = texts(sorted@);
        assert(after.len() == before.len() + 1);
        assert(after[pos as int] == p@);
        assert forall|k: int| 0 <= k < pos implies after[k] == before[k] by {}
        assert forall|k: int| pos < k < after.len() implies after[k] == before[k - 1] by {
            assert(sorted@[(k - 1) + 1] == old(sorted)@[k - 1]);
        }
        assert forall|k: int| pos < k < after.len() implies path_lt(p@, #[trigger] after[k]) by {
            if k - 1 > pos {
                assert(path_lt(before[pos as int], before[k - 1]));
                lemma_path_lt_transitive(p@, before[pos as int], before[k - 1]);
            }
        }
        assert forall|i: int, j: int| 0 <= i < j < after.len() implies path_lt(
            after[i],
            after[j],
        ) by {
            if j < pos {
                assert(path_lt(before[i], before[j]));
            } else if j == pos {
                assert(path_lt(before[i], p@));
            } else if i < pos {
                assert(path_lt(before[i], before[j - 1]));
            } else if i == pos {
            } else {
                assert(path_lt(before[i - 1], before[j - 1]));
            }
        }
        assert forall|q: Seq<char>| after.contains(q) <==> before.contains(q) || q == p@ by {
            if after.contains(q) {
                let k = choose|k: int| 0 <= k < after.len() && after[k] == q;
                if k < pos {
                    assert(before[k] == q);
                } else if k > pos {
                    assert(before[k - 1] == q);
                }
            }
            if before.contains(q) {
                let k = choose|k: int| 0 <= k < before.len() && before[k] == q;
                if k < pos {
                    assert(after[k] == q);
                } else {
                    assert(after[k + 1] == q);
                }
            }
            if q == p@ {
                assert(after[pos as int] == q);
            }
        }
    }
}

/// The paths of `dirs` that are not hidden, each once, in the order of a
/// depth-first walk.
pub fn sorted_visible(dirs: &Vec<Vec<char>>) -> (r: Vec<Vec<char>>)
    ensures
        strictly_sorted(texts(r@)),
        forall|q: Seq<char>| #[trigger]
            texts(r@).contains(q) <==> !is_hidden(q) && texts(dirs@).contains(q),
{
    let ghost all = texts(dirs@);
    let mut sorted: Vec<Vec<char>> = Vec::new();
    let mut i: usize = 0;
    while i < dirs.len()
        invariant
            i <= dirs.len(),
            all == texts(dirs@),
            strictly_sorted(texts(sorted@)),
            forall|q: Seq<char>| #[trigger]
                texts(sorted@).contains(q) <==> !is_hidden(q) && among_first(all, i as int, q),
        decreases dirs.len() - i,
    {
        let ghost prev = texts(sorted@);
        proof {
            assert(all[i as int] == dirs@[i as int]@);
        }
        if !hidden(&dirs[i]) {
            let p = copy_chars(&dirs[i]);
            insert_sorted(&mut sorted, p);
        }
        proof {
            let cur = texts(sorted@);
            assert forall|q: Seq<char>| #[trigger]
                cur.contains(q) <==> !is_hidden(q) && among_first(all, i + 1, q) by {
                if among_first(all, i + 1, q) {
                    let k = choose|k: int| 0 <= k < i + 1 && #[trigger] all[k] == q;
                    if k < i {
                        assert(among_first(all, i as int, q));
                    }
                }
                if prev.contains(q) {
                    let k = choose|k: int| 0 <= k < i && #[trigger] all[k] == q;
                    assert(0 <= k < i + 1 && all[k] == q);
                }
            }
        }
        i += 1;
    }
    proof {
        lemma_among_all(all);
    }
    sorted
}

/// Every list of paths has a listing of its visible paths.
pub proof fn lemma_listing_of_visible(all: Seq<Seq<char>>) -> (listing: Seq<Seq<char>>)
    ensures
        strictly_sorted(listing),
        forall|q: Seq<char>| #[trigger] listing.contains(q) <==> !is_hidden(q) && all.contains(q),
{
    lemma_listing_among(all, all.len());
    lemma_among_all(all);
    listing_among(all, all.len())
}

} // verus!
