//! Task paths: slash-separated text that names a task by its ancestors.
//!
//! The hierarchy is read from the text alone. The parent of a path is what
//! stands before its last `/`; a path without `/` is a root. Nothing else
//! is asked of a path, so these functions are total.

use crate::text::{
    copy_chars, extend_chars, from_chars, replace_all, replaced, same_chars, to_chars,
};
use vstd::prelude::*;

verus! {

/// The position of the last `/` in `p`, or `-1` if there is none.
pub open spec fn last_slash(p: Seq<char>) -> int
    decreases p.len(),
{
    if p.len() == 0 {
        -1
    } else if p.last() == '/' {
        p.len() - 1
    } else {
        last_slash(p.drop_last())
    }
}

/// `last_slash` is the greatest position that holds a `/`.
pub proof fn lemma_last_slash(p: Seq<char>)
    ensures
        -1 <= last_slash(p) < p.len(),
        last_slash(p) >= 0 ==> p[last_slash(p)] == '/',
        forall|k: int| last_slash(p) < k < p.len() ==> p[k] != '/',
    decreases p.len(),
{
    if p.len() > 0 && p.last() != '/' {
        lemma_last_slash(p.drop_last());
        assert forall|k: int| last_slash(p) < k < p.len() implies p[k] != '/' by {
            if k < p.len() - 1 {
                assert(p.drop_last()[k] == p[k]);
            }
        }
    }
}

/// A position that holds a `/` with none after it is `last_slash`.
pub proof fn lemma_last_slash_is(p: Seq<char>, i: int)
    requires
        0 <= i < p.len(),
        p[i] == '/',
        forall|k: int| i < k < p.len() ==> p[k] != '/',
    ensures
        last_slash(p) == i,
{
    lemma_last_slash(p);
}

/// Whether `p` names a task below another one.
pub open spec fn has_parent(p: Seq<char>) -> bool {
    last_slash(p) >= 0
}

/// The path of the task above `p`: the text before the last `/`,
/// and the empty text for a root.
pub open spec fn parent_path(p: Seq<char>) -> Seq<char> {
    if has_parent(p) {
        p.take(last_slash(p))
    } else {
        Seq::empty()
    }
}

/// The last segment of `p`: the text after the last `/`, and all of `p`
/// for a root.
pub open spec fn leaf_name(p: Seq<char>) -> Seq<char> {
    p.skip(last_slash(p) + 1)
}

/// The number of ancestors that `p` names: its number of `/`.
pub open spec fn depth_of(p: Seq<char>) -> nat
    decreases p.len(),
{
    if p.len() == 0 {
        0
    } else if p.last() == '/' {
        depth_of(p.drop_last()) + 1
    } else {
        depth_of(p.drop_last())
    }
}

/// A path is one level below its parent, and a root has depth 0.
pub proof fn lemma_depth_of_parent(p: Seq<char>)
    ensures
        has_parent(p) ==> depth_of(p) == depth_of(parent_path(p)) + 1,
        !has_parent(p) ==> depth_of(p) == 0,
    decreases p.len(),
{
    if p.len() > 0 {
        lemma_last_slash(p);
        if p.last() == '/' {
            assert(p.take(p.len() - 1) =~= p.drop_last());
        } else {
            lemma_depth_of_parent(p.drop_last());
            lemma_last_slash(p.drop_last());
            if has_parent(p) {
                assert(p.drop_last().take(last_slash(p)) =~= p.take(last_slash(p)));
            }
        }
    }
}

/// The parent of a path is shorter than the path.
pub proof fn lemma_parent_shorter(p: Seq<char>)
    requires
        has_parent(p),
    ensures
        parent_path(p).len() < p.len(),
{
    lemma_last_slash(p);
}

/// Finds the last `/`.
pub fn find_last_slash(p: &Vec<char>) -> (r: Option<usize>)
    ensures
        match r {
            Some(i) => i < p.len() && i == last_slash(p@),
            None => last_slash(p@) == -1,
        },
{
    let mut i: usize = p.len();
    while i > 0
        invariant
            i <= p.len(),
            forall|k: int| i <= k < p.len() ==> p@[k] != '/',
        decreases i,
    {
        if p[i - 1] == '/' {
            proof {
                lemma_last_slash_is(p@, i - 1);
            }
            return Some(i - 1);
        }
        i -= 1;
    }
    proof {
        lemma_last_slash(p@);
    }
    None
}

/// The first `n` characters of `p`.
pub(crate) fn take_chars(p: &Vec<char>, n: usize) -> (r: Vec<char>)
    requires
        n <= p.len(),
    ensures
        r@ == p@.take(n as int),
{
    let mut r: Vec<char> = Vec::new();
    let mut i: usize = 0;
    while i < n
        invariant
            i <= n <= p.len(),
            r@ == p@.take(i as int),
        decreases n - i,
    {
        r.push(p[i]);
        proof {
            assert(p@.take(i + 1) == p@.take(i as int).push(p@[i as int]));
        }
        i += 1;
    }
    r
}

/// The characters of `p` from position `n` on.
pub(crate) fn skip_chars(p: &Vec<char>, n: usize) -> (r: Vec<char>)
    requires
        n <= p.len(),
    ensures
        r@ == p@.skip(n as int),
{
    let mut r: Vec<char> = Vec::new();
    let mut i: usize = n;
    while i < p.len()
        invariant
            n <= i <= p.len(),
            r@ == p@.subrange(n as int, i as int),
        decreases p.len() - i,
    {
        r.push(p[i]);
        proof {
            assert(p@.subrange(n as int, i + 1) == p@.subrange(n as int, i as int).push(
                p@[i as int],
            ));
        }
        i += 1;
    }
    proof {
        assert(p@.subrange(n as int, p@.len() as int) =~= p@.skip(n as int));
    }
    r
}

/// Computes `parent_path`.
pub fn parent_of(p: &Vec<char>) -> (r: Vec<char>)
    ensures
        r@ == parent_path(p@),
{
    match find_last_slash(p) {
        Some(i) => take_chars(p, i),
        None => Vec::new(),
    }
}

/// Computes `leaf_name`.
pub fn leaf_of(p: &Vec<char>) -> (r: Vec<char>)
    ensures
        r@ == leaf_name(p@),
{
    match find_last_slash(p) {
        Some(i) => skip_chars(p, i + 1),
        None => {
            proof {
                assert(p@.skip(0) =~= p@);
            }
            copy_chars(p)
        },
    }
}

/// The position `i` of `p` begins a segment: it is the first position,
/// or the one after a `/`.
pub open spec fn starts_segment(p: Seq<char>, i: int) -> bool {
    i == 0 || p[i - 1] == '/'
}

/// Some segment of `p` begins with `.`: the task, or one of its
/// ancestors, is a hidden directory.
pub open spec fn is_hidden(p: Seq<char>) -> bool {
    exists|i: int| 0 <= i < p.len() && p[i] == '.' && #[trigger] starts_segment(p, i)
}

/// What is hidden hides all below it.
pub proof fn lemma_hidden_parent(p: Seq<char>)
    requires
        has_parent(p),
        is_hidden(parent_path(p)),
    ensures
        is_hidden(p),
{
    lemma_last_slash(p);
    let above = parent_path(p);
    let i = choose|i: int| 0 <= i < above.len() && above[i] == '.' && starts_segment(above, i);
    assert(starts_segment(p, i));
}

/// Decides `is_hidden`.
pub fn hidden(p: &Vec<char>) -> (r: bool)
    ensures
        r == is_hidden(p@),
{
    let mut i: usize = 0;
    while i < p.len()
        invariant
            i <= p.len(),
            forall|k: int| 0 <= k < i ==> !(p@[k] == '.' && #[trigger] starts_segment(p@, k)),
        decreases p.len() - i,
    {
        if p[i] == '.' && (i == 0 || p[i - 1] == '/') {
            proof {
                assert(starts_segment(p@, i as int));
            }
            return true;
        }
        i += 1;
    }
    false
}

/// Decides `is_hidden` for a path given as a string.
pub fn is_hidden_path(path: &str) -> (r: bool)
    ensures
        r == is_hidden(path@),
{
    let chars = to_chars(path);
    hidden(&chars)
}

/// Computes `depth_of`.
pub fn count_ancestors(p: &Vec<char>) -> (r: usize)
    ensures
        r == depth_of(p@),
{
    let mut n: usize = 0;
    let mut i: usize = 0;
    proof {
        assert(p@.take(0) =~= Seq::<char>::empty());
    }
    while i < p.len()
        invariant
            i <= p.len(),
            n <= i,
            n == depth_of(p@.take(i as int)),
        decreases p.len() - i,
    {
        proof {
            assert(p@.take(i + 1).drop_last() =~= p@.take(i as int));
            assert(p@.take(i + 1).last() == p@[i as int]);
        }
        if p[i] == '/' {
            n += 1;
        }
        i += 1;
    }
    proof {
        assert(p@.take(p@.len() as int) =~= p@);
    }
    n
}

/// The rank of a character in the order of paths: `/` comes before all
/// other characters, which follow by code point.
pub open spec fn rank(c: char) -> int {
    if c == '/' {
        0
    } else {
        c as int + 1
    }
}

/// The order in which a depth-first walk that visits the children of a
/// directory by name meets the paths: segment by segment, a path before
/// all that lies below it, names by code point.
pub open spec fn path_lt(a: Seq<char>, b: Seq<char>) -> bool
    decreases a.len(),
{
    if b.len() == 0 {
        false
    } else if a.len() == 0 {
        true
    } else if a[0] == b[0] {
        path_lt(a.drop_first(), b.drop_first())
    } else {
        rank(a[0]) < rank(b[0])
    }
}

/// No path comes before itself.
pub proof fn lemma_path_lt_irreflexive(a: Seq<char>)
    ensures
        !path_lt(a, a),
    decreases a.len(),
{
    if a.len() > 0 {
        lemma_path_lt_irreflexive(a.drop_first());
    }
}

/// The order of paths is transitive.
pub proof fn lemma_path_lt_transitive(a: Seq<char>, b: Seq<char>, c: Seq<char>)
    requires
        path_lt(a, b),
        path_lt(b, c),
    ensures
        path_lt(a, c),
    decreases a.len(),
{
    if a.len() > 0 && a[0] == b[0] && b[0] == c[0] {
        lemma_path_lt_transitive(a.drop_first(), b.drop_first(), c.drop_first());
    }
}

/// Different characters have different ranks, and no rank is below
/// that of `/`.
pub proof fn lemma_rank_injective(x: char, y: char)
    ensures
        x != y ==> rank(x) != rank(y),
        rank(x) >= rank('/'),
{
}

/// Of two different paths one comes before the other.
pub proof fn lemma_path_lt_total(a: Seq<char>, b: Seq<char>)
    ensures
        a == b || path_lt(a, b) || path_lt(b, a),
    decreases a.len(),
{
    if a.len() > 0 && b.len() > 0 {
        if a[0] == b[0] {
            lemma_path_lt_total(a.drop_first(), b.drop_first());
            if a.drop_first() == b.drop_first() {
                assert(a =~= seq![a[0]] + a.drop_first());
                assert(b =~= seq![b[0]] + b.drop_first());
            }
        } else {
            lemma_rank_injective(a[0], b[0]);
        }
    } else if a.len() == 0 && b.len() == 0 {
        assert(a =~= b);
    }
}

/// Two paths do not come before each other.
pub proof fn lemma_path_lt_asymmetric(a: Seq<char>, b: Seq<char>)
    requires
        path_lt(a, b),
    ensures
        !path_lt(b, a),
{
    if path_lt(b, a) {
        lemma_path_lt_transitive(a, b, a);
        lemma_path_lt_irreflexive(a);
    }
}

/// Paths that agree on their first `n` characters compare as what follows.
pub proof fn lemma_path_lt_skip(a: Seq<char>, b: Seq<char>, n: int)
    requires
        0 <= n <= a.len(),
        n <= b.len(),
        forall|k: int| 0 <= k < n ==> a[k] == b[k],
    ensures
        path_lt(a, b) == path_lt(a.skip(n), b.skip(n)),
    decreases n,
{
    if n > 0 {
        assert(a.drop_first().skip(n - 1) =~= a.skip(n));
        assert(b.drop_first().skip(n - 1) =~= b.skip(n));
        assert forall|k: int| 0 <= k < n - 1 implies a.drop_first()[k] == b.drop_first()[k] by {
            assert(a.drop_first()[k] == a[k + 1]);
            assert(b.drop_first()[k] == b[k + 1]);
        }
        lemma_path_lt_skip(a.drop_first(), b.drop_first(), n - 1);
    } else {
        assert(a.skip(0) =~= a);
        assert(b.skip(0) =~= b);
    }
}

/// A name: the text of one segment, without `/`.
pub open spec fn is_name(n: Seq<char>) -> bool {
    forall|k: int| 0 <= k < n.len() ==> n[k] != '/'
}

/// The order of names: character by character by code point, a name
/// before every name that continues it.
pub open spec fn name_lt(a: Seq<char>, b: Seq<char>) -> bool
    decreases a.len(),
{
    if b.len() == 0 {
        false
    } else if a.len() == 0 {
        true
    } else if a[0] == b[0] {
        name_lt(a.drop_first(), b.drop_first())
    } else {
        (a[0] as int) < (b[0] as int)
    }
}

/// Roots come in the order of their names.
pub proof fn lemma_names_in_order(a: Seq<char>, b: Seq<char>)
    requires
        is_name(a),
        is_name(b),
    ensures
        path_lt(a, b) == name_lt(a, b),
    decreases a.len(),
{
    if a.len() > 0 && b.len() > 0 {
        assert(a[0] != '/' && b[0] != '/');
        if a[0] == b[0] {
            assert(is_name(a.drop_first())) by {
                assert forall|k: int| 0 <= k < a.drop_first().len() implies a.drop_first()[k]
                    != '/' by {
                    assert(a.drop_first()[k] == a[k + 1]);
                }
            }
            assert(is_name(b.drop_first())) by {
                assert forall|k: int| 0 <= k < b.drop_first().len() implies b.drop_first()[k]
                    != '/' by {
                    assert(b.drop_first()[k] == b[k + 1]);
                }
            }
            lemma_names_in_order(a.drop_first(), b.drop_first());
        }
    }
}

/// Two paths that begin alike come in the order of what follows.
pub proof fn lemma_path_lt_after_prefix(x: Seq<char>, a: Seq<char>, b: Seq<char>)
    ensures
        path_lt(x + a, x + b) == path_lt(a, b),
{
    lemma_path_lt_skip(x + a, x + b, x.len() as int);
    assert((x + a).skip(x.len() as int) =~= a);
    assert((x + b).skip(x.len() as int) =~= b);
}

/// The tasks below one parent come in the order of their names.
pub proof fn lemma_siblings_in_order(above: Seq<char>, a: Seq<char>, b: Seq<char>)
    requires
        is_name(a),
        is_name(b),
    ensures
        path_lt(above.push('/') + a, above.push('/') + b) == name_lt(a, b),
{
    lemma_path_lt_after_prefix(above.push('/'), a, b);
    lemma_names_in_order(a, b);
}

/// A path comes before every path that continues it, so a task comes
/// after its parent.
pub proof fn lemma_prefix_comes_first(a: Seq<char>, b: Seq<char>)
    requires
        a.len() < b.len(),
        b.take(a.len() as int) == a,
    ensures
        path_lt(a, b),
{
    assert forall|k: int| 0 <= k < a.len() implies a[k] == b[k] by {
        assert(b.take(a.len() as int)[k] == b[k]);
    }
    lemma_path_lt_skip(a, b, a.len() as int);
    assert(a.skip(a.len() as int).len() == 0);
}

/// A task comes after its parent.
pub proof fn lemma_parent_comes_first(p: Seq<char>)
    requires
        has_parent(p),
    ensures
        path_lt(parent_path(p), p),
{
    lemma_last_slash(p);
    let above = parent_path(p);
    assert(p.take(above.len() as int) =~= above);
    lemma_prefix_comes_first(above, p);
}

/// Decides `rank(a) < rank(b)`.
fn rank_before(a: char, b: char) -> (r: bool)
    ensures
        r == (rank(a) < rank(b)),
{
    if a == '/' {
        b != '/'
    } else if b == '/' {
        false
    } else {
        (a as u32) < (b as u32)
    }
}

/// Decides `path_lt`.
pub fn path_before(a: &Vec<char>, b: &Vec<char>) -> (r: bool)
    ensures
        r == path_lt(a@, b@),
{
    let mut i: usize = 0;
    while i < a.len() && i < b.len()
        invariant
            i <= a.len(),
            i <= b.len(),
            forall|k: int| 0 <= k < i ==> a@[k] == b@[k],
        decreases a.len() - i,
    {
        if a[i] != b[i] {
            proof {
                lemma_path_lt_skip(a@, b@, i as int);
                assert(a@.skip(i as int)[0] == a@[i as int]);
                assert(b@.skip(i as int)[0] == b@[i as int]);
            }
            return rank_before(a[i], b[i]);
        }
        i += 1;
    }
    proof {
        lemma_path_lt_skip(a@, b@, i as int);
    }
    i < b.len()
}

/// The path `rel` taken from the directory `base`, as `PathBuf::join` of
/// the standard library forms it where `/` separates: a `rel` that begins
/// with `/` stands for itself, and else a `/` is put between the two
/// unless `base` is empty or ends with one.
pub open spec fn join_path(base: Seq<char>, rel: Seq<char>) -> Seq<char> {
    if rel.len() > 0 && rel[0] == '/' {
        rel
    } else if base.len() == 0 || base.last() == '/' {
        base + rel
    } else {
        base.push('/') + rel
    }
}

/// Computes `join_path`.
pub fn joined(base: &Vec<char>, rel: &Vec<char>) -> (r: Vec<char>)
    ensures
        r@ == join_path(base@, rel@),
{
    if rel.len() > 0 && rel[0] == '/' {
        return copy_chars(rel);
    }
    let mut r = copy_chars(base);
    if base.len() > 0 && base[base.len() - 1] != '/' {
        r.push('/');
    }
    extend_chars(&mut r, rel);
    r
}

/// The task path for a directory that the file system names `relative`
/// below the root: every backslash is a separator too, and becomes `/`.
pub open spec fn task_path(relative: Seq<char>) -> Seq<char> {
    replace_all(relative, seq!['\\'], seq!['/'])
}

/// Computes `task_path`.
pub fn task_path_of(relative: &str) -> (r: String)
    ensures
        r@ == task_path(relative@),
{
    let chars = to_chars(relative);
    let mut from: Vec<char> = Vec::new();
    from.push('\\');
    let mut to: Vec<char> = Vec::new();
    to.push('/');
    proof {
        assert(from@ =~= seq!['\\']);
        assert(to@ =~= seq!['/']);
    }
    from_chars(&replaced(&chars, &from, &to))
}

/// The position of the first `/` in `s`, or the length of `s` if there
/// is none.
pub open spec fn first_slash(s: Seq<char>) -> int
    decreases s.len(),
{
    if s.len() == 0 || s[0] == '/' {
        0
    } else {
        1 + first_slash(s.drop_first())
    }
}

/// `first_slash` is the least position that holds a `/`.
pub proof fn lemma_first_slash(s: Seq<char>)
    ensures
        0 <= first_slash(s) <= s.len(),
        first_slash(s) < s.len() ==> s[first_slash(s)] == '/',
        forall|k: int| 0 <= k < first_slash(s) ==> s[k] != '/',
    decreases s.len(),
{
    if s.len() > 0 && s[0] != '/' {
        lemma_first_slash(s.drop_first());
        assert forall|k: int| 0 <= k < first_slash(s) implies s[k] != '/' by {
            if k > 0 {
                assert(s.drop_first()[k - 1] == s[k]);
            }
        }
    }
}

/// A position with no `/` before it that holds one, or is the end, is
/// `first_slash`.
pub proof fn lemma_first_slash_is(s: Seq<char>, i: int)
    requires
        0 <= i <= s.len(),
        i < s.len() ==> s[i] == '/',
        forall|k: int| 0 <= k < i ==> s[k] != '/',
    ensures
        first_slash(s) == i,
{
    lemma_first_slash(s);
}

/// The first segment of `s`: the text before its first `/`.
pub open spec fn first_segment(s: Seq<char>) -> Seq<char> {
    s.take(first_slash(s))
}

/// What follows the first segment of `s` and the `/` after it.
pub open spec fn after_first_segment(s: Seq<char>) -> Seq<char> {
    if first_slash(s) < s.len() {
        s.skip(first_slash(s) + 1)
    } else {
        Seq::empty()
    }
}

/// A segment that names nothing: the empty segment, which a doubled or
/// a trailing `/` leaves, and the segment `.`.
pub open spec fn is_idle(segment: Seq<char>) -> bool {
    segment.len() == 0 || (segment.len() == 1 && segment[0] == '.')
}

/// `s` without the idle segments that it begins with.
pub open spec fn without_idle_start(s: Seq<char>) -> Seq<char>
    decreases s.len(),
{
    if s.len() > 0 && is_idle(first_segment(s)) {
        proof {
            lemma_first_slash(s);
        }
        without_idle_start(after_first_segment(s))
    } else {
        s
    }
}

/// `s` without the idle segments that it ends with.
pub open spec fn without_idle_end(s: Seq<char>) -> Seq<char>
    decreases s.len(),
{
    if s.len() > 0 && is_idle(leaf_name(s)) {
        proof {
            lemma_last_slash(s);
        }
        without_idle_end(parent_path(s))
    } else {
        s
    }
}

/// The path under which the host knows the file that the dashboard
/// sees at `p`. The host's files are mounted under `/host`: a path that
/// begins with `/` and whose first segment, idle segments apart, is
/// `host` becomes what follows that segment, without the idle segments
/// at either end of it; any other path stays as it is. This is what
/// `Path::strip_prefix` of the standard library gives for the prefix
/// `/host` where `/` separates, with the path itself where it fails.
pub open spec fn host_path_of(p: Seq<char>) -> Seq<char> {
    if p.len() > 0 && p[0] == '/' {
        let body = without_idle_start(p.skip(1));
        if first_segment(body) == "host"@ {
            without_idle_end(without_idle_start(after_first_segment(body)))
        } else {
            p
        }
    } else {
        p
    }
}

/// Finds the first `/`.
pub fn find_first_slash(s: &Vec<char>) -> (r: usize)
    ensures
        r <= s.len(),
        r == first_slash(s@),
{
    let mut i: usize = 0;
    while i < s.len() && s[i] != '/'
        invariant
            i <= s.len(),
            forall|k: int| 0 <= k < i ==> s@[k] != '/',
        decreases s.len() - i,
    {
        i += 1;
    }
    proof {
        lemma_first_slash_is(s@, i as int);
    }
    i
}

/// Computes `after_first_segment`, given the first `/`.
fn after_segment(s: &Vec<char>, slash: usize) -> (r: Vec<char>)
    requires
        slash == first_slash(s@),
    ensures
        r@ == after_first_segment(s@),
{
    proof {
        lemma_first_slash(s@);
    }
    if slash < s.len() {
        skip_chars(s, slash + 1)
    } else {
        Vec::new()
    }
}

/// Computes `without_idle_start`.
fn drop_idle_start(s: Vec<char>) -> (r: Vec<char>)
    ensures
        r@ == without_idle_start(s@),
{
    let ghost whole = s@;
    let mut rest = s;
    loop
        invariant
            without_idle_start(rest@) == without_idle_start(whole),
        ensures
            rest@ == without_idle_start(whole),
        decreases rest.len(),
    {
        if rest.len() == 0 {
            break;
        }
        let slash = find_first_slash(&rest);
        proof {
            lemma_first_slash(rest@);
        }
        let idle = slash == 0 || (slash == 1 && rest[0] == '.');
        if !idle {
            break;
        }
        rest = after_segment(&rest, slash);
    }
    rest
}

/// Computes `without_idle_end`.
fn drop_idle_end(s: Vec<char>) -> (r: Vec<char>)
    ensures
        r@ == without_idle_end(s@),
{
    let ghost whole = s@;
    let mut rest = s;
    loop
        invariant
            without_idle_end(rest@) == without_idle_end(whole),
        ensures
            rest@ == without_idle_end(whole),
        decreases rest.len(),
    {
        if rest.len() == 0 {
            break;
        }
        proof {
            lemma_last_slash(rest@);
        }
        let last: usize = rest.len() - 1;
        let idle = match find_last_slash(&rest) {
            Some(slash) => slash == last || (slash + 1 == last && rest[last] == '.'),
            None => last == 0 && rest[0] == '.',
        };
        if !idle {
            break;
        }
        rest = parent_of(&rest);
    }
    rest
}

/// Computes `host_path_of`.
pub fn host_path(p: &str) -> (r: String)
    ensures
        r@ == host_path_of(p@),
{
    let chars = to_chars(p);
    if chars.len() == 0 || chars[0] != '/' {
        return from_chars(&chars);
    }
    let body = drop_idle_start(skip_chars(&chars, 1));
    let slash = find_first_slash(&body);
    let first = take_chars(&body, slash);
    let mount = to_chars("host");
    if !same_chars(&first, &mount) {
        return from_chars(&chars);
    }
    let below = drop_idle_start(after_segment(&body, slash));
    from_chars(&drop_idle_end(below))
}

} // verus!
