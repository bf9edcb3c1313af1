//! The layout of the task tree.
//!
//! The tasks come as a flat list. Where a task stands in the tree is read
//! from the paths alone: two tasks are siblings when their parent paths
//! are equal, and a task lies below another when its path continues that
//! path after a `/`. No tree is kept; every question is answered over the
//! list of paths.

use crate::path::{
    depth_of, find_last_slash, has_parent, lemma_depth_of_parent, lemma_last_slash,
    lemma_parent_shorter, parent_of, parent_path,
};
use crate::task::{task_views, TaskLine, TaskLineView};
use crate::text::{copy_chars, has_prefix, same_chars, starts_with, to_chars};
use vstd::prelude::*;

verus! {

/// The paths of a list of tasks.
pub open spec fn paths_of(tasks: Seq<TaskLineView>) -> Seq<Seq<char>> {
    Seq::new(tasks.len(), |i: int| tasks[i].path)
}

/// The texts that a list of character vectors holds.
pub open spec fn texts(v: Seq<Vec<char>>) -> Seq<Seq<char>> {
    Seq::new(v.len(), |i: int| v[i]@)
}

/// The path `q` lies below the path `p`, at any depth.
pub open spec fn lies_below(q: Seq<char>, p: Seq<char>) -> bool {
    starts_with(q, p.push('/'))
}

/// Some path of the list lies below `p`.
pub open spec fn has_children_in(paths: Seq<Seq<char>>, p: Seq<char>) -> bool {
    exists|j: int| 0 <= j < paths.len() && lies_below(#[trigger] paths[j], p)
}

/// The paths at `i` and `j` have the same parent.
pub open spec fn are_siblings(paths: Seq<Seq<char>>, i: int, j: int) -> bool {
    parent_path(paths[i]) == parent_path(paths[j])
}

/// No path after position `i` has the same parent as the path at `i`.
pub open spec fn is_last_sibling_at(paths: Seq<Seq<char>>, i: int) -> bool {
    forall|j: int| i < j < paths.len() ==> !#[trigger] are_siblings(paths, i, j)
}

/// The last position of the list that holds the path `p`, or `-1`.
pub open spec fn index_of_path(paths: Seq<Seq<char>>, p: Seq<char>) -> int
    decreases paths.len(),
{
    if paths.len() == 0 {
        -1
    } else if paths.last() == p {
        paths.len() - 1
    } else {
        index_of_path(paths.drop_last(), p)
    }
}

/// The continuation flags of a task at path `p`: one for each ancestor of
/// `p` that is in the list, from the parent outwards, saying whether that
/// ancestor has a later sibling. An ancestor that is not in the list gets
/// no flag.
pub open spec fn continuations(paths: Seq<Seq<char>>, p: Seq<char>) -> Seq<bool>
    decreases p.len(),
{
    if has_parent(p) {
        proof {
            lemma_parent_shorter(p);
        }
        let above = parent_path(p);
        let k = index_of_path(paths, above);
        if k >= 0 {
            seq![!is_last_sibling_at(paths, k)] + continuations(paths, above)
        } else {
            continuations(paths, above)
        }
    } else {
        Seq::empty()
    }
}

/// The task at `i` with its place in the tree filled in.
pub open spec fn laid_out_at(tasks: Seq<TaskLineView>, i: int) -> TaskLineView {
    let paths = paths_of(tasks);
    TaskLineView {
        has_children: has_children_in(paths, tasks[i].path),
        is_last_sibling: is_last_sibling_at(paths, i),
        ancestor_continuations: continuations(paths, tasks[i].path),
        ..tasks[i]
    }
}

/// The list with every task's place in the tree filled in.
pub open spec fn laid_out(tasks: Seq<TaskLineView>) -> Seq<TaskLineView> {
    Seq::new(tasks.len(), |i: int| laid_out_at(tasks, i))
}

/// `index_of_path` is the greatest position that holds `p`.
pub proof fn lemma_index_of_path(paths: Seq<Seq<char>>, p: Seq<char>)
    ensures
        -1 <= index_of_path(paths, p) < paths.len(),
        index_of_path(paths, p) >= 0 ==> paths[index_of_path(paths, p)] == p,
        forall|k: int| index_of_path(paths, p) < k < paths.len() ==> paths[k] != p,
    decreases paths.len(),
{
    if paths.len() > 0 && paths.last() != p {
        lemma_index_of_path(paths.drop_last(), p);
        assert forall|k: int| index_of_path(paths, p) < k < paths.len() implies paths[k] != p by {
            if k < paths.len() - 1 {
                assert(paths.drop_last()[k] == paths[k]);
            }
        }
    }
}

/// Appending a vector appends its text.
pub proof fn lemma_texts_push(v: Seq<Vec<char>>, x: Vec<char>)
    ensures
        texts(v.push(x)) == texts(v).push(x@),
{
    assert(texts(v.push(x)) =~= texts(v).push(x@));
}

/// Decides `has_children_in`.
fn any_below(paths: &Vec<Vec<char>>, p: &Vec<char>) -> (r: bool)
    ensures
        r == has_children_in(texts(paths@), p@),
{
    let mut prefix = copy_chars(p);
    prefix.push('/');
    let mut j: usize = 0;
    while j < paths.len()
        invariant
            j <= paths.len(),
            prefix@ == p@.push('/'),
            forall|k: int| 0 <= k < j ==> !lies_below(#[trigger] texts(paths@)[k], p@),
        decreases paths.len() - j,
    {
        if has_prefix(&paths[j], &prefix) {
            proof {
                assert(lies_below(texts(paths@)[j as int], p@));
            }
            return true;
        }
        j += 1;
    }
    false
}

/// Decides `is_last_sibling_at` from the parents of the paths.
fn no_later_sibling(parents: &Vec<Vec<char>>, i: usize, Ghost(paths): Ghost<Seq<Seq<char>>>) -> (r:
    bool)
    requires
        i < parents.len(),
        paths.len() == parents.len(),
        forall|k: int| 0 <= k < paths.len() ==> #[trigger] parents[k]@ == parent_path(paths[k]),
    ensures
        r == is_last_sibling_at(paths, i as int),
{
    let mut j: usize = i + 1;
    while j < parents.len()
        invariant
            i < j <= parents.len(),
            paths.len() == parents.len(),
            forall|k: int| 0 <= k < paths.len() ==> #[trigger] parents[k]@ == parent_path(paths[k]),
            forall|k: int| i < k < j ==> !#[trigger] are_siblings(paths, i as int, k),
        decreases parents.len() - j,
    {
        if same_chars(&parents[j], &parents[i]) {
            proof {
                assert(are_siblings(paths, i as int, j as int));
            }
            return false;
        }
        j += 1;
    }
    true
}

/// Computes `index_of_path`.
pub fn find_path(paths: &Vec<Vec<char>>, p: &Vec<char>) -> (r: Option<usize>)
    ensures
        match r {
            Some(k) => k < paths.len() && k == index_of_path(texts(paths@), p@),
            None => index_of_path(texts(paths@), p@) == -1,
        },
{
    let ghost all = texts(paths@);
    let mut k: usize = paths.len();
    while k > 0
        invariant
            k <= paths.len(),
            all == texts(paths@),
            forall|j: int| k <= j < paths.len() ==> all[j] != p@,
        decreases k,
    {
        if same_chars(&paths[k - 1], p) {
            proof {
                lemma_index_of_path(all, p@);
                assert(all[k - 1] == p@);
            }
            return Some(k - 1);
        }
        k -= 1;
    }
    proof {
        lemma_index_of_path(all, p@);
    }
    None
}

/// Computes `continuations`, given which tasks are last siblings.
fn continuations_of(paths: &Vec<Vec<char>>, last: &Vec<bool>, p: &Vec<char>) -> (r: Vec<bool>)
    requires
        last.len() == paths.len(),
        forall|k: int|
            0 <= k < paths.len() ==> #[trigger] last[k] == is_last_sibling_at(texts(paths@), k),
    ensures
        r@ == continuations(texts(paths@), p@),
{
    let ghost all = texts(paths@);
    let mut flags: Vec<bool> = Vec::new();
    let mut current: Vec<char> = copy_chars(p);
    proof {
        assert(flags@ + continuations(all, current@) =~= continuations(all, p@));
    }
    loop
        invariant
            all == texts(paths@),
            last.len() == paths.len(),
            forall|k: int| 0 <= k < paths.len() ==> #[trigger] last[k] == is_last_sibling_at(all, k),
            flags@ + continuations(all, current@) == continuations(all, p@),
        ensures
            flags@ == continuations(all, p@),
        decreases current.len(),
    {
        if find_last_slash(&current).is_none() {
            proof {
                assert(flags@ + Seq::<bool>::empty() =~= flags@);
            }
            break;
        }
        let above = parent_of(&current);
        proof {
            lemma_parent_shorter(current@);
        }
        let ghost rest = continuations(all, above@);
        match find_path(paths, &above) {
            Some(k) => {
                proof {
                    assert(flags@ + (seq![!last[k as int]] + rest) =~= flags@.push(!last[k as int])
                        + rest);
                }
                flags.push(!last[k]);
            },
            None => {},
        }
        current = above;
    }
    flags
}

/// Fills in where each task stands in the tree: whether it has children,
/// whether it is the last of its siblings, and its continuation flags.
/// Everything else about the tasks stays as it is.
pub fn layout_tasks(tasks: &mut Vec<TaskLine>)
    ensures
        task_views(final(tasks)@) == laid_out(task_views(old(tasks)@)),
{
    let ghost before = task_views(tasks@);
    let ghost all = paths_of(before);
    let n: usize = tasks.len();
    let mut paths: Vec<Vec<char>> = Vec::new();
    let mut parents: Vec<Vec<char>> = Vec::new();
    let mut i: usize = 0;
    while i < n
        invariant
            i <= n == tasks.len(),
            task_views(tasks@) == before,
            all == paths_of(before),
            paths.len() == i,
            parents.len() == i,
            forall|k: int| 0 <= k < i ==> #[trigger] paths[k]@ == all[k],
            forall|k: int| 0 <= k < i ==> #[trigger] parents[k]@ == parent_path(all[k]),
        decreases n - i,
    {
        let p = to_chars(tasks[i].path.as_str());
        proof {
            assert(before[i as int] == tasks@[i as int]@);
            assert(p@ == all[i as int]);
        }
        let above = parent_of(&p);
        paths.push(p);
        parents.push(above);
        i += 1;
    }
    proof {
        assert(texts(paths@) =~= all);
    }
    let mut last: Vec<bool> = Vec::new();
    let mut i: usize = 0;
    while i < n
        invariant
            i <= n == parents.len(),
            all.len() == n,
            last.len() == i,
            forall|k: int| 0 <= k < n ==> #[trigger] parents[k]@ == parent_path(all[k]),
            forall|k: int| 0 <= k < i ==> #[trigger] last[k] == is_last_sibling_at(all, k),
        decreases n - i,
    {
        let flag = no_later_sibling(&parents, i, Ghost(all));
        last.push(flag);
        i += 1;
    }
    let mut i: usize = 0;
    while i < n
        invariant
            i <= n == tasks.len(),
            before.len() == n,
            all == paths_of(before),
            texts(paths@) == all,
            paths.len() == n,
            last.len() == n,
            forall|k: int| 0 <= k < n ==> #[trigger] last[k] == is_last_sibling_at(all, k),
            forall|k: int| 0 <= k < i ==> #[trigger] tasks@[k]@ == laid_out_at(before, k),
            forall|k: int| i <= k < n ==> #[trigger] tasks@[k]@ == before[k],
        decreases n - i,
    {
        proof {
            assert(paths[i as int]@ == texts(paths@)[i as int]);
            assert(all[i as int] == before[i as int].path);
        }
        let below = any_below(&paths, &paths[i]);
        let flags = continuations_of(&paths, &last, &paths[i]);
        let ghost prior = tasks@;
        tasks[i].has_children = below;
        tasks[i].is_last_sibling = last[i];
        tasks[i].ancestor_continuations = flags;
        proof {
            assert(prior[i as int]@ == before[i as int]);
            assert(tasks@[i as int]@ =~= laid_out_at(before, i as int));
            assert forall|k: int| 0 <= k < i implies #[trigger] tasks@[k]@ == laid_out_at(
                before,
                k,
            ) by {
                assert(tasks@[k] == prior[k]);
            }
            assert forall|k: int| i < k < n implies #[trigger] tasks@[k]@ == before[k] by {
                assert(tasks@[k] == prior[k]);
            }
        }
        i += 1;
    }
    proof {
        assert(task_views(tasks@) =~= laid_out(before));
    }
}

/// Every ancestor that a path of the list names is in the list too.
pub open spec fn parent_closed(paths: Seq<Seq<char>>) -> bool {
    forall|i: int|
        0 <= i < paths.len() && has_parent(#[trigger] paths[i]) ==> paths.contains(
            parent_path(paths[i]),
        )
}

/// The ancestor of `p` that stands `k` levels above its parent.
pub open spec fn ancestor(p: Seq<char>, k: nat) -> Seq<char>
    decreases k,
{
    if k == 0 {
        parent_path(p)
    } else {
        ancestor(parent_path(p), (k - 1) as nat)
    }
}

/// A path that the list holds has a position in it.
pub proof fn lemma_index_of_member(paths: Seq<Seq<char>>, p: Seq<char>)
    requires
        paths.contains(p),
    ensures
        0 <= index_of_path(paths, p) < paths.len(),
        paths[index_of_path(paths, p)] == p,
{
    lemma_index_of_path(paths, p);
    let i = choose|i: int| 0 <= i < paths.len() && paths[i] == p;
    assert(paths[i] == p);
}

/// Building the layout of a list that is laid out already changes
/// nothing: the layout depends on the paths alone, and keeps them.
pub proof fn lemma_layout_idempotent(tasks: Seq<TaskLineView>)
    ensures
        laid_out(laid_out(tasks)) == laid_out(tasks),
        paths_of(laid_out(tasks)) == paths_of(tasks),
{
    assert(paths_of(laid_out(tasks)) =~= paths_of(tasks));
    assert(laid_out(laid_out(tasks)) =~= laid_out(tasks));
}

/// Among the tasks that share the parent of the task at `i`, exactly one
/// is marked as last sibling, and it is the one that comes last in the
/// list. The position of that task is returned.
pub proof fn lemma_one_last_sibling(paths: Seq<Seq<char>>, i: int) -> (k: int)
    requires
        0 <= i < paths.len(),
    ensures
        i <= k < paths.len(),
        are_siblings(paths, i, k),
        is_last_sibling_at(paths, k),
        forall|j: int| 0 <= j < paths.len() && are_siblings(paths, i, j) ==> j <= k,
        forall|j: int|
            0 <= j < paths.len() && are_siblings(paths, i, j) && is_last_sibling_at(paths, j) ==> j
                == k,
    decreases paths.len() - i,
{
    if is_last_sibling_at(paths, i) {
        assert forall|j: int|
            0 <= j < paths.len() && are_siblings(paths, i, j) && is_last_sibling_at(
                paths,
                j,
            ) implies j == i by {
            if j < i {
                assert(are_siblings(paths, j, i));
            }
        }
        i
    } else {
        let next = choose|j: int| i < j < paths.len() && are_siblings(paths, i, j);
        let k = lemma_one_last_sibling(paths, next);
        assert forall|j: int| 0 <= j < paths.len() && are_siblings(paths, i, j) implies j <= k by {
            assert(are_siblings(paths, next, j));
        }
        assert forall|j: int|
            0 <= j < paths.len() && are_siblings(paths, i, j) && is_last_sibling_at(
                paths,
                j,
            ) implies j == k by {
            assert(are_siblings(paths, next, j));
            if j < k {
                assert(are_siblings(paths, j, k));
            }
        }
        k
    }
}

/// In a list that holds the ancestors of all its paths, a task has one
/// continuation flag for each of its ancestors, the parent's first: the
/// flag at `k` says whether the ancestor `k` levels above the parent has
/// a later sibling.
pub proof fn lemma_continuations_per_ancestor(paths: Seq<Seq<char>>, p: Seq<char>)
    requires
        parent_closed(paths),
        paths.contains(p),
    ensures
        continuations(paths, p).len() == depth_of(p),
        forall|k: nat|
            k < depth_of(p) ==> {
                let at = index_of_path(paths, #[trigger] ancestor(p, k));
                &&& 0 <= at < paths.len()
                &&& paths[at] == ancestor(p, k)
                &&& continuations(paths, p)[k as int] == !is_last_sibling_at(paths, at)
            },
    decreases p.len(),
{
    lemma_depth_of_parent(p);
    if has_parent(p) {
        lemma_parent_shorter(p);
        let above = parent_path(p);
        let i = choose|i: int| 0 <= i < paths.len() && paths[i] == p;
        assert(has_parent(paths[i]));
        lemma_index_of_member(paths, above);
        lemma_continuations_per_ancestor(paths, above);
        let rest = continuations(paths, above);
        let here = index_of_path(paths, above);
        assert(continuations(paths, p) == seq![!is_last_sibling_at(paths, here)] + rest);
        assert forall|k: nat| k < depth_of(p) implies {
            let at = index_of_path(paths, #[trigger] ancestor(p, k));
            &&& 0 <= at < paths.len()
            &&& paths[at] == ancestor(p, k)
            &&& continuations(paths, p)[k as int] == !is_last_sibling_at(paths, at)
        } by {
            if k > 0 {
                let up = (k - 1) as nat;
                assert(ancestor(p, k) == ancestor(above, up));
                assert(continuations(paths, p)[k as int] == rest[up as int]);
            }
        }
    }
}

/// No path occurs twice in the list.
pub open spec fn distinct(paths: Seq<Seq<char>>) -> bool {
    forall|i: int, j: int| 0 <= i < j < paths.len() ==> paths[i] != paths[j]
}

/// The number of paths among the first `m` that lie below the path at `r`.
pub open spec fn below_count(paths: Seq<Seq<char>>, r: int, m: nat) -> nat
    decreases m,
{
    if m == 0 {
        0
    } else {
        below_count(paths, r, (m - 1) as nat) + if lies_below(paths[m - 1], paths[r]) {
            1nat
        } else {
            0nat
        }
    }
}

/// The number of descendants of the task at `r`.
pub open spec fn descendant_count(paths: Seq<Seq<char>>, r: int) -> nat {
    below_count(paths, r, paths.len())
}

/// Some path among the first `m` lies below the path at `r` exactly
/// when their count is not 0.
proof fn lemma_below_count_positive(paths: Seq<Seq<char>>, r: int, m: nat)
    requires
        m <= paths.len(),
    ensures
        below_count(paths, r, m) > 0 <==> exists|j: int|
            0 <= j < m && lies_below(#[trigger] paths[j], paths[r]),
    decreases m,
{
    if m > 0 {
        lemma_below_count_positive(paths, r, (m - 1) as nat);
        if lies_below(paths[m - 1], paths[r]) {
        } else if below_count(paths, r, m) > 0 {
            let j = choose|j: int| 0 <= j < m - 1 && lies_below(#[trigger] paths[j], paths[r]);
            assert(0 <= j < m && lies_below(paths[j], paths[r]));
        }
    }
}

/// A task has children exactly when it has descendants.
pub proof fn lemma_children_are_descendants(paths: Seq<Seq<char>>, r: int)
    ensures
        has_children_in(paths, paths[r]) <==> descendant_count(paths, r) > 0,
{
    lemma_below_count_positive(paths, r, paths.len());
}

/// The number of roots among the first `n` paths.
pub open spec fn root_count_upto(paths: Seq<Seq<char>>, n: nat) -> nat
    decreases n,
{
    if n == 0 {
        0
    } else {
        root_count_upto(paths, (n - 1) as nat) + if has_parent(paths[n - 1]) {
            0nat
        } else {
            1nat
        }
    }
}

/// The number of roots of the list.
pub open spec fn root_count(paths: Seq<Seq<char>>) -> nat {
    root_count_upto(paths, paths.len())
}

/// The sum of the descendant counts of the roots among the first `n` paths.
pub open spec fn root_descendants_upto(paths: Seq<Seq<char>>, n: nat) -> nat
    decreases n,
{
    if n == 0 {
        0
    } else {
        root_descendants_upto(paths, (n - 1) as nat) + if has_parent(paths[n - 1]) {
            0nat
        } else {
            descendant_count(paths, n - 1)
        }
    }
}

/// The sum of the descendant counts of all roots.
pub open spec fn root_descendants(paths: Seq<Seq<char>>) -> nat {
    root_descendants_upto(paths, paths.len())
}

/// The sum, over the roots among the first `n` paths, of the number of
/// paths among the first `m` that lie below that root.
spec fn root_descendants_among(paths: Seq<Seq<char>>, n: nat, m: nat) -> nat
    decreases n,
{
    if n == 0 {
        0
    } else {
        root_descendants_among(paths, (n - 1) as nat, m) + if has_parent(paths[n - 1]) {
            0nat
        } else {
            below_count(paths, n - 1, m)
        }
    }
}

/// Counted among all paths, the descendants of the roots are their
/// descendant counts.
proof fn lemma_root_descendants_among_all(paths: Seq<Seq<char>>, n: nat)
    ensures
        root_descendants_among(paths, n, paths.len()) == root_descendants_upto(paths, n),
    decreases n,
{
    if n > 0 {
        lemma_root_descendants_among_all(paths, (n - 1) as nat);
    }
}

/// The number of roots among the first `n` paths that the path at `j`
/// lies below.
spec fn roots_above(paths: Seq<Seq<char>>, j: int, n: nat) -> nat
    decreases n,
{
    if n == 0 {
        0
    } else {
        roots_above(paths, j, (n - 1) as nat) + if !has_parent(paths[n - 1]) && lies_below(
            paths[j],
            paths[n - 1],
        ) {
            1nat
        } else {
            0nat
        }
    }
}

/// The number of paths with a parent among the first `m`.
spec fn inner_count_upto(paths: Seq<Seq<char>>, m: nat) -> nat
    decreases m,
{
    if m == 0 {
        0
    } else {
        inner_count_upto(paths, (m - 1) as nat) + if has_parent(paths[m - 1]) {
            1nat
        } else {
            0nat
        }
    }
}

/// A path that holds a `/` has a parent.
proof fn lemma_slash_gives_parent(q: Seq<char>, k: int)
    requires
        0 <= k < q.len(),
        q[k] == '/',
    ensures
        has_parent(q),
{
    lemma_last_slash(q);
}

/// A path that lies below another has a parent.
proof fn lemma_below_has_parent(q: Seq<char>, p: Seq<char>)
    requires
        lies_below(q, p),
    ensures
        has_parent(q),
        q.len() > p.len(),
        q[p.len() as int] == '/',
        q.take(p.len() as int) == p,
{
    let prefix = p.push('/');
    assert(q.take(prefix.len() as int)[p.len() as int] == prefix[p.len() as int]);
    assert(q.take(p.len() as int) =~= q.take(prefix.len() as int).take(p.len() as int));
    assert(prefix.take(p.len() as int) =~= p);
    lemma_slash_gives_parent(q, p.len() as int);
}

/// A path lies below its parent, and below all that its parent lies below.
proof fn lemma_below_parent(q: Seq<char>)
    requires
        has_parent(q),
    ensures
        lies_below(q, parent_path(q)),
        forall|r: Seq<char>| lies_below(parent_path(q), r) ==> lies_below(q, r),
{
    lemma_last_slash(q);
    let above = parent_path(q);
    assert(q.take(above.len() as int + 1) =~= above.push('/'));
    assert forall|r: Seq<char>| lies_below(above, r) implies lies_below(q, r) by {
        let prefix = r.push('/');
        assert(q.take(prefix.len() as int) =~= above.take(prefix.len() as int));
    }
}

/// In a list that holds the ancestors of its paths, a path with a parent
/// lies below a root of the list.
proof fn lemma_root_above(paths: Seq<Seq<char>>, q: Seq<char>) -> (r: int)
    requires
        parent_closed(paths),
        paths.contains(q),
        has_parent(q),
    ensures
        0 <= r < paths.len(),
        !has_parent(paths[r]),
        lies_below(q, paths[r]),
    decreases q.len(),
{
    let i = choose|i: int| 0 <= i < paths.len() && paths[i] == q;
    assert(has_parent(paths[i]));
    let above = parent_path(q);
    lemma_parent_shorter(q);
    lemma_below_parent(q);
    if has_parent(above) {
        lemma_root_above(paths, above)
    } else {
        let r = choose|r: int| 0 <= r < paths.len() && paths[r] == above;
        r
    }
}

/// Two roots that a path lies below are the same path.
proof fn lemma_root_above_unique(q: Seq<char>, r1: Seq<char>, r2: Seq<char>)
    requires
        !has_parent(r1),
        !has_parent(r2),
        lies_below(q, r1),
        lies_below(q, r2),
    ensures
        r1 == r2,
{
    lemma_below_has_parent(q, r1);
    lemma_below_has_parent(q, r2);
    if r1.len() < r2.len() {
        assert(r2[r1.len() as int] == q[r1.len() as int]);
        lemma_slash_gives_parent(r2, r1.len() as int);
    } else if r2.len() < r1.len() {
        assert(r1[r2.len() as int] == q[r2.len() as int]);
        lemma_slash_gives_parent(r1, r2.len() as int);
    }
}

/// Where the path at `j` lies below no root among the first `n` paths,
/// `roots_above` is 0.
proof fn lemma_roots_above_none(paths: Seq<Seq<char>>, j: int, n: nat)
    requires
        forall|r: int| 0 <= r < n ==> has_parent(paths[r]) || !lies_below(paths[j], paths[r]),
    ensures
        roots_above(paths, j, n) == 0,
    decreases n,
{
    if n > 0 {
        lemma_roots_above_none(paths, j, (n - 1) as nat);
    }
}

/// Where the path at `j` lies below the root at `at` and below no other
/// root among the first `n` paths, `roots_above` is 1.
proof fn lemma_roots_above_one(paths: Seq<Seq<char>>, j: int, n: nat, at: int)
    requires
        0 <= at < n,
        !has_parent(paths[at]),
        lies_below(paths[j], paths[at]),
        forall|r: int|
            0 <= r < n && r != at ==> has_parent(paths[r]) || !lies_below(paths[j], paths[r]),
    ensures
        roots_above(paths, j, n) == 1,
    decreases n,
{
    if at == n - 1 {
        lemma_roots_above_none(paths, j, (n - 1) as nat);
    } else {
        lemma_roots_above_one(paths, j, (n - 1) as nat, at);
    }
}

/// A path with a parent lies below exactly one root, a root below none.
proof fn lemma_roots_above(paths: Seq<Seq<char>>, j: int)
    requires
        distinct(paths),
        parent_closed(paths),
        0 <= j < paths.len(),
    ensures
        roots_above(paths, j, paths.len()) == if has_parent(paths[j]) {
            1nat
        } else {
            0nat
        },
{
    let q = paths[j];
    if has_parent(q) {
        let at = lemma_root_above(paths, q);
        assert forall|r: int| 0 <= r < paths.len() && r != at implies has_parent(paths[r])
            || !lies_below(q, paths[r]) by {
            if !has_parent(paths[r]) && lies_below(q, paths[r]) {
                lemma_root_above_unique(q, paths[r], paths[at]);
            }
        }
        lemma_roots_above_one(paths, j, paths.len(), at);
    } else {
        assert forall|r: int| 0 <= r < paths.len() implies has_parent(paths[r]) || !lies_below(
            q,
            paths[r],
        ) by {
            if lies_below(q, paths[r]) {
                lemma_below_has_parent(q, paths[r]);
            }
        }
        lemma_roots_above_none(paths, j, paths.len());
    }
}

/// Counting one more path adds, for each root that the path lies below, one.
proof fn lemma_root_descendants_step(paths: Seq<Seq<char>>, n: nat, m: nat)
    ensures
        root_descendants_among(paths, n, m + 1) == root_descendants_among(paths, n, m) + roots_above(
            paths,
            m as int,
            n,
        ),
    decreases n,
{
    if n > 0 {
        lemma_root_descendants_step(paths, (n - 1) as nat, m);
    }
}

/// Among no paths, no root has a descendant.
proof fn lemma_root_descendants_none(paths: Seq<Seq<char>>, n: nat)
    ensures
        root_descendants_among(paths, n, 0) == 0,
    decreases n,
{
    if n > 0 {
        lemma_root_descendants_none(paths, (n - 1) as nat);
    }
}

/// The descendants of the roots, counted among the first `m` paths, are
/// the paths with a parent among them.
proof fn lemma_root_descendants_are_inner(paths: Seq<Seq<char>>, m: nat)
    requires
        distinct(paths),
        parent_closed(paths),
        m <= paths.len(),
    ensures
        root_descendants_among(paths, paths.len(), m) == inner_count_upto(paths, m),
    decreases m,
{
    if m == 0 {
        lemma_root_descendants_none(paths, paths.len());
    } else {
        let before = (m - 1) as nat;
        lemma_root_descendants_are_inner(paths, before);
        lemma_root_descendants_step(paths, paths.len(), before);
        lemma_roots_above(paths, before as int);
    }
}

/// Each of the first `m` paths is a root or has a parent.
proof fn lemma_roots_and_inner(paths: Seq<Seq<char>>, m: nat)
    ensures
        root_count_upto(paths, m) + inner_count_upto(paths, m) == m,
    decreases m,
{
    if m > 0 {
        lemma_roots_and_inner(paths, (m - 1) as nat);
    }
}

/// In a list without repetition that holds the ancestors of all its
/// paths, every task is a root or the descendant of exactly one root: the
/// descendant counts of the roots and the number of roots add up to the
/// number of tasks.
pub proof fn lemma_roots_cover_list(paths: Seq<Seq<char>>)
    requires
        distinct(paths),
        parent_closed(paths),
    ensures
        root_descendants(paths) + root_count(paths) == paths.len(),
{
    lemma_root_descendants_are_inner(paths, paths.len());
    lemma_root_descendants_among_all(paths, paths.len());
    lemma_roots_and_inner(paths, paths.len());
}

} // verus!
