use vstd::prelude::*;

use crate::process::{views, ProcessInfo, ProcessView};
use crate::sorting::{
    lemma_insert_position, lemma_sort_prefix_step, lemma_stable_sort_multiset,
    lemma_stable_sort_sorted, stable_sort, strict_weak_order,
};

verus! {

/// No two rows share a pid.
pub open spec fn pids_unique(s: Seq<ProcessView>) -> bool {
    forall|i: int, j: int| 0 <= i < j < s.len() ==> s[i].pid != s[j].pid
}

/// Some row has pid `p`.
pub open spec fn has_pid(s: Seq<ProcessView>, p: u32) -> bool {
    exists|j: int| 0 <= j < s.len() && s[j].pid == p
}

/// The position of the row with pid `p`.
pub open spec fn index_of_pid(s: Seq<ProcessView>, p: u32) -> int
    recommends
        has_pid(s, p),
{
    choose|j: int| 0 <= j < s.len() && s[j].pid == p
}

/// The position of the parent of row `i`, if its parent pid is set and is
/// the pid of a row of the table; otherwise the link is absent or dangling.
pub open spec fn parent_index(s: Seq<ProcessView>, i: int) -> Option<int> {
    match s[i].parent {
        Some(p) => if has_pid(s, p) {
            Some(index_of_pid(s, p))
        } else {
            None
        },
        None => None,
    }
}

/// The number of parent links from row `i` to a row without a valid parent,
/// if one is reached within `fuel` links.
pub open spec fn depth_within(s: Seq<ProcessView>, i: int, fuel: nat) -> Option<nat>
    decreases fuel,
{
    match parent_index(s, i) {
        None => Some(0),
        Some(j) => if fuel == 0 {
            None
        } else {
            match depth_within(s, j, (fuel - 1) as nat) {
                Some(d) => Some(d + 1),
                None => None,
            }
        },
    }
}

/// The depth of row `i` in the process forest: the number of parent links
/// to a row whose parent is absent or dangling. A row whose chain of parents
/// never reaches such a row (it runs into a cycle) is a root itself.
/// No chain without repetition has as many links as the table has rows, so
/// a fuel of the table's length decides.
pub open spec fn tree_depth(s: Seq<ProcessView>, i: int) -> nat {
    match depth_within(s, i, s.len()) {
        Some(d) => d,
        None => 0,
    }
}

/// The pids of row `i` and of its first `k` ancestors, from the top down.
pub open spec fn lineage(s: Seq<ProcessView>, i: int, k: nat) -> Seq<u32>
    decreases k,
{
    match parent_index(s, i) {
        Some(j) => if k == 0 {
            seq![s[i].pid]
        } else {
            lineage(s, j, (k - 1) as nat).push(s[i].pid)
        },
        None => seq![s[i].pid],
    }
}

/// The pids from the root of row `i`'s tree down to row `i`.
pub open spec fn tree_path(s: Seq<ProcessView>, i: int) -> Seq<u32> {
    lineage(s, i, tree_depth(s, i))
}

/// Lexicographic order of pid paths, a proper prefix first.
pub open spec fn path_before(a: Seq<u32>, b: Seq<u32>) -> bool
    decreases a.len(),
{
    if a.len() == 0 {
        b.len() > 0
    } else if b.len() == 0 {
        false
    } else if a[0] != b[0] {
        a[0] < b[0]
    } else {
        path_before(a.drop_first(), b.drop_first())
    }
}

/// Row positions ordered by their root paths.
pub open spec fn tree_rel(s: Seq<ProcessView>) -> spec_fn(usize, usize) -> bool {
    |a: usize, b: usize| path_before(tree_path(s, a as int), tree_path(s, b as int))
}

/// The positions of the rows in tree order.
pub open spec fn tree_indices(s: Seq<ProcessView>) -> Seq<usize> {
    stable_sort(Seq::new(s.len(), |i: int| i as usize), tree_rel(s))
}

/// Row `i` with its depth as indent.
pub open spec fn with_depth(s: Seq<ProcessView>, i: int) -> ProcessView {
    ProcessView { indent: tree_depth(s, i), ..s[i] }
}

/// The rows in depth-first order of the process forest: roots by ascending
/// pid, each followed by its children's subtrees, children by ascending pid.
/// That is the order of the rows' root paths, a path before its extensions.
pub open spec fn tree_order(s: Seq<ProcessView>) -> Seq<ProcessView> {
    tree_indices(s).map_values(|i: usize| with_depth(s, i as int))
}

/// Whether `links` holds the parent position of each row.
pub open spec fn links_of(s: Seq<ProcessView>, links: Seq<Option<usize>>) -> bool {
    &&& links.len() == s.len()
    &&& forall|i: int|
        0 <= i < s.len() ==> match #[trigger] links[i] {
            Some(j) => parent_index(s, i) == Some(j as int) && j < s.len(),
            None => parent_index(s, i) is None,
        }
}

fn find_pid(flat: &Vec<ProcessInfo>, p: u32) -> (r: Option<usize>)
    requires
        pids_unique(views(flat@)),
    ensures
        match r {
            Some(j) => j < flat@.len() && has_pid(views(flat@), p) && index_of_pid(views(flat@), p)
                == j as int,
            None => !has_pid(views(flat@), p),
        },
{
    let ghost s = views(flat@);
    let mut j: usize = 0;
    while j < flat.len()
        invariant
            s == views(flat@),
            s.len() == flat@.len(),
            pids_unique(s),
            forall|k: int| 0 <= k < j ==> s[k].pid != p,
        decreases flat@.len() - j,
    {
        if flat[j].pid == p {
            assert(s[j as int].pid == p);
            assert(has_pid(s, p));
            let ghost c = index_of_pid(s, p);
            assert(s[c].pid == p);
            assert(c == j as int);
            return Some(j);
        }
        j = j + 1;
    }
    None
}

fn parent_links(flat: &Vec<ProcessInfo>) -> (links: Vec<Option<usize>>)
    requires
        pids_unique(views(flat@)),
    ensures
        links_of(views(flat@), links@),
{
    let ghost s = views(flat@);
    let mut links: Vec<Option<usize>> = Vec::new();
    let mut i: usize = 0;
    while i < flat.len()
        invariant
            s == views(flat@),
            s.len() == flat@.len(),
            pids_unique(s),
            links@.len() == i,
            i <= flat@.len(),
            forall|k: int|
                0 <= k < i ==> match #[trigger] links@[k] {
                    Some(j) => parent_index(s, k) == Some(j as int) && j < s.len(),
                    None => parent_index(s, k) is None,
                },
        decreases flat@.len() - i,
    {
        let link = match flat[i].parent {
            Some(p) => find_pid(flat, p),
            None => None,
        };
        links.push(link);
        i = i + 1;
    }
    links
}

/// Adds `k` to a depth, if there is one.
pub open spec fn shifted(d: Option<nat>, k: nat) -> Option<nat> {
    match d {
        Some(x) => Some(x + k),
        None => None,
    }
}

fn depth_of(links: &Vec<Option<usize>>, i: usize, Ghost(s): Ghost<Seq<ProcessView>>) -> (r: usize)
    requires
        links_of(s, links@),
        i < s.len(),
    ensures
        r == tree_depth(s, i as int),
{
    let n = links.len();
    let mut cur = i;
    let mut steps: usize = 0;
    while steps < n && links[cur].is_some()
        invariant
            links_of(s, links@),
            n == s.len(),
            cur < n,
            steps <= n,
            depth_within(s, i as int, n as nat) == shifted(
                depth_within(s, cur as int, (n - steps) as nat),
                steps as nat,
            ),
        decreases n - steps,
    {
        let next = links[cur].unwrap();
        assert(depth_within(s, cur as int, (n - steps) as nat) == shifted(
            depth_within(s, next as int, (n - steps - 1) as nat),
            1,
        ));
        cur = next;
        steps = steps + 1;
    }
    if links[cur].is_some() {
        0
    } else {
        steps
    }
}

fn build_lineage(
    flat: &Vec<ProcessInfo>,
    links: &Vec<Option<usize>>,
    i: usize,
    k: usize,
) -> (r: Vec<u32>)
    requires
        links_of(views(flat@), links@),
        i < flat@.len(),
    ensures
        r@ == lineage(views(flat@), i as int, k as nat),
    decreases k,
{
    let ghost s = views(flat@);
    match links[i] {
        Some(j) => {
            if k == 0 {
                let r = vec![flat[i].pid];
                assert(r@ =~= seq![s[i as int].pid]);
                r
            } else {
                let mut r = build_lineage(flat, links, j, k - 1);
                r.push(flat[i].pid);
                r
            }
        },
        None => {
            let r = vec![flat[i].pid];
            assert(r@ =~= seq![s[i as int].pid]);
            r
        },
    }
}

/// Compares two pid paths lexicographically, a proper prefix first.
pub fn path_less(a: &Vec<u32>, b: &Vec<u32>) -> (r: bool)
    ensures
        r == path_before(a@, b@),
{
    let la = a.len();
    let lb = b.len();
    let mut i: usize = 0;
    assert(a@.skip(0) =~= a@ && b@.skip(0) =~= b@);
    while i < la && i < lb
        invariant
            la == a@.len(),
            lb == b@.len(),
            i <= la,
            i <= lb,
            path_before(a@, b@) == path_before(a@.skip(i as int), b@.skip(i as int)),
        decreases la - i,
    {
        assert(a@.skip(i as int).drop_first() =~= a@.skip(i + 1));
        assert(b@.skip(i as int).drop_first() =~= b@.skip(i + 1));
        if a[i] != b[i] {
            return a[i] < b[i];
        }
        i = i + 1;
    }
    i == la && i < lb
}

/// Orders the process table as a forest: every row exactly once, roots
/// (rows whose parent is absent, not in the table, or on a cycle) by
/// ascending pid, each followed depth-first by its children by ascending
/// pid, each row's indent set to its depth.
pub fn build_process_tree(flat: Vec<ProcessInfo>) -> (r: Vec<ProcessInfo>)
    requires
        pids_unique(views(flat@)),
    ensures
        views(r@) == tree_order(views(flat@)),
{
    let ghost s = views(flat@);
    let n = flat.len();
    let links = parent_links(&flat);
    let mut depths: Vec<usize> = Vec::new();
    let mut paths: Vec<Vec<u32>> = Vec::new();
    let mut i: usize = 0;
    while i < n
        invariant
            s == views(flat@),
            n == s.len(),
            links_of(s, links@),
            i <= n,
            depths@.len() == i,
            paths@.len() == i,
            forall|k: int| 0 <= k < i ==> depths@[k] == tree_depth(s, k),
            forall|k: int| 0 <= k < i ==> (#[trigger] paths@[k])@ == tree_path(s, k),
        decreases n - i,
    {
        let d = depth_of(&links, i, Ghost(s));
        depths.push(d);
        paths.push(build_lineage(&flat, &links, i, d));
        i = i + 1;
    }
    let ghost rel = tree_rel(s);
    let ghost input = Seq::new(n as nat, |k: int| k as usize);
    let mut order: Vec<usize> = Vec::new();
    let mut i: usize = 0;
    while i < n
        invariant
            s == views(flat@),
            n == s.len(),
            i <= n,
            paths@.len() == n,
            forall|k: int| 0 <= k < n ==> (#[trigger] paths@[k])@ == tree_path(s, k),
            input == Seq::new(n as nat, |k: int| k as usize),
            rel == tree_rel(s),
            order@ == stable_sort(input.take(i as int), rel),
            order@.len() == i,
            forall|k: int| 0 <= k < order@.len() ==> #[trigger] order@[k] < n,
        decreases n - i,
    {
        let ghost sorted = order@;
        proof {
            lemma_sort_prefix_step(input, rel, i as int);
        }
        let mut j = order.len();
        while j > 0 && path_less(&paths[i], &paths[order[j - 1]])
            invariant
                j <= order@.len(),
                sorted == order@,
                i < n,
                paths@.len() == n,
                forall|k: int| 0 <= k < n ==> (#[trigger] paths@[k])@ == tree_path(s, k),
                forall|k: int| 0 <= k < order@.len() ==> #[trigger] order@[k] < n,
                forall|k: int| j <= k < sorted.len() ==> rel(i, #[trigger] sorted[k]),
                rel == tree_rel(s),
            decreases j,
        {
            j = j - 1;
        }
        proof {
            lemma_insert_position(sorted, i, rel, j as int);
        }
        order.insert(j, i);
        assert(input[i as int] == i);
        i = i + 1;
    }
    assert(input.take(n as int) =~= input);
    let mut out: Vec<ProcessInfo> = Vec::new();
    let mut k: usize = 0;
    while k < n
        invariant
            s == views(flat@),
            n == s.len(),
            order@ == tree_indices(s),
            order@.len() == n,
            depths@.len() == n,
            forall|t: int| 0 <= t < n ==> depths@[t] == tree_depth(s, t),
            forall|t: int| 0 <= t < n ==> #[trigger] order@[t] < n,
            k <= n,
            views(out@) == tree_order(s).take(k as int),
        decreases n - k,
    {
        let idx = order[k];
        let mut row = flat[idx].duplicate();
        row.indent = depths[idx];
        assert(row@ == with_depth(s, idx as int));
        assert(tree_order(s)[k as int] == with_depth(s, idx as int));
        let ghost prev = out@;
        out.push(row);
        assert(views(out@) =~= views(prev).push(with_depth(s, idx as int)));
        assert(views(out@) =~= tree_order(s).take(k + 1));
        k = k + 1;
    }
    assert(tree_order(s).take(n as int) =~= tree_order(s));
    out
}

proof fn lemma_path_asym(a: Seq<u32>, b: Seq<u32>)
    ensures
        path_before(a, b) ==> !path_before(b, a),
    decreases a.len(),
{
    if a.len() > 0 && b.len() > 0 && a[0] == b[0] {
        lemma_path_asym(a.drop_first(), b.drop_first());
    }
}

proof fn lemma_path_trans(a: Seq<u32>, b: Seq<u32>, c: Seq<u32>)
    ensures
        path_before(a, b) && path_before(b, c) ==> path_before(a, c),
    decreases a.len(),
{
    if a.len() > 0 && b.len() > 0 && c.len() > 0 && a[0] == b[0] && b[0] == c[0] {
        lemma_path_trans(a.drop_first(), b.drop_first(), c.drop_first());
    }
}

proof fn lemma_path_total(a: Seq<u32>, b: Seq<u32>)
    ensures
        a != b ==> path_before(a, b) || path_before(b, a),
    decreases a.len(),
{
    if a.len() == 0 && b.len() == 0 {
        assert(a =~= b);
    } else if a.len() > 0 && b.len() > 0 && a[0] == b[0] {
        lemma_path_total(a.drop_first(), b.drop_first());
        if a.drop_first() == b.drop_first() {
            assert(a =~= seq![a[0]] + a.drop_first());
            assert(b =~= seq![b[0]] + b.drop_first());
        }
    }
}

/// Two paths that differ only in their last pid are ordered by that pid.
proof fn lemma_path_extend(p: Seq<u32>, x: u32, y: u32)
    ensures
        path_before(p.push(x), p.push(y)) == (x < y),
    decreases p.len(),
{
    if p.len() == 0 {
        assert(p.push(x).drop_first() =~= Seq::<u32>::empty());
        assert(p.push(y).drop_first() =~= Seq::<u32>::empty());
        assert(!path_before(Seq::<u32>::empty(), Seq::<u32>::empty()));
        assert(p.push(x)[0] == x && p.push(y)[0] == y);
    } else {
        assert(p.push(x)[0] == p[0] && p.push(y)[0] == p[0]);
        assert(p.push(x).drop_first() =~= p.drop_first().push(x));
        assert(p.push(y).drop_first() =~= p.drop_first().push(y));
        lemma_path_extend(p.drop_first(), x, y);
    }
}

/// A path comes before each of its extensions.
proof fn lemma_path_prefix(p: Seq<u32>, x: u32)
    ensures
        path_before(p, p.push(x)),
    decreases p.len(),
{
    if p.len() > 0 {
        assert(p.push(x).drop_first() =~= p.drop_first().push(x));
        lemma_path_prefix(p.drop_first(), x);
    }
}

proof fn lemma_tree_rel_order(s: Seq<ProcessView>)
    ensures
        strict_weak_order(tree_rel(s)),
{
    let rel = tree_rel(s);
    assert forall|a: usize, b: usize| #[trigger] rel(a, b) implies !rel(b, a) by {
        lemma_path_asym(tree_path(s, a as int), tree_path(s, b as int));
    }
    assert forall|a: usize, b: usize, c: usize| #[trigger] rel(a, c) implies rel(a, b) || #[trigger] rel(
        b,
        c,
    ) by {
        let (pa, pb, pc) = (tree_path(s, a as int), tree_path(s, b as int), tree_path(s, c as int));
        lemma_path_total(pa, pb);
        lemma_path_trans(pb, pa, pc);
    }
}

proof fn lemma_depth_fuel(s: Seq<ProcessView>, i: int, f1: nat, f2: nat)
    requires
        f1 <= f2,
        depth_within(s, i, f1) is Some,
    ensures
        depth_within(s, i, f2) == depth_within(s, i, f1),
    decreases f1,
{
    if let Some(j) = parent_index(s, i) {
        lemma_depth_fuel(s, j, (f1 - 1) as nat, (f2 - 1) as nat);
    }
}

proof fn lemma_path_ends_with_pid(s: Seq<ProcessView>, i: int)
    ensures
        tree_path(s, i).len() > 0,
        tree_path(s, i).last() == s[i].pid,
{
}

/// A row of positive depth hangs below its parent: its depth is one more
/// than the parent's and its root path extends the parent's by its pid.
pub proof fn lemma_depth_step(s: Seq<ProcessView>, i: int)
    requires
        0 <= i < s.len(),
        tree_depth(s, i) > 0,
    ensures
        parent_index(s, i) is Some,
        0 <= parent_index(s, i)->0 < s.len(),
        tree_depth(s, i) == tree_depth(s, parent_index(s, i)->0) + 1,
        tree_path(s, i) == tree_path(s, parent_index(s, i)->0).push(s[i].pid),
{
    let j = parent_index(s, i)->0;
    let d = tree_depth(s, i);
    lemma_depth_fuel(s, j, (s.len() - 1) as nat, s.len());
    assert(s[j].pid == s[i].parent->0);
}

/// Tree order lists every row of the table exactly once, each with its
/// depth (the number of valid parent links up to its root; 0 for a row that
/// is a root because its parent is absent, dangling or on a cycle). The rows
/// follow root-path order, so roots come by ascending pid and children of
/// one parent by ascending pid.
pub proof fn lemma_tree_order(s: Seq<ProcessView>)
    requires
        pids_unique(s),
        s.len() <= usize::MAX,
    ensures
        tree_order(s).len() == s.len(),
        tree_indices(s).to_multiset() == Seq::new(s.len(), |i: int| i as usize).to_multiset(),
        forall|x: usize| x < s.len() ==> #[trigger] tree_indices(s).to_multiset().count(x) == 1,
        forall|k: int| 0 <= k < s.len() ==> tree_indices(s)[k] < s.len(),
        forall|k: int|
            0 <= k < s.len() ==> #[trigger] tree_order(s)[k] == with_depth(s, tree_indices(s)[k] as int),
        forall|i: int|
            0 <= i < s.len() && tree_depth(s, i) > 0 ==> (parent_index(s, i) is Some && tree_depth(s, i)
                == tree_depth(s, parent_index(s, i)->0) + 1),
        forall|i: int| 0 <= i < s.len() && parent_index(s, i) is None ==> tree_depth(s, i) == 0,
        forall|k1: int, k2: int|
            0 <= k1 < k2 < s.len() ==> path_before(
                tree_path(s, #[trigger] tree_indices(s)[k1] as int),
                tree_path(s, #[trigger] tree_indices(s)[k2] as int),
            ),
        forall|k1: int, k2: int|
            0 <= k1 < k2 < s.len() && tree_depth(s, #[trigger] tree_indices(s)[k1] as int) == 0
                && tree_depth(s, #[trigger] tree_indices(s)[k2] as int) == 0 ==> s[tree_indices(
                s,
            )[k1] as int].pid < s[tree_indices(s)[k2] as int].pid,
        forall|k1: int, k2: int|
            0 <= k1 < k2 < s.len() && tree_depth(s, #[trigger] tree_indices(s)[k1] as int) > 0
                && tree_depth(s, #[trigger] tree_indices(s)[k2] as int) > 0 && parent_index(
                s,
                tree_indices(s)[k1] as int,
            ) == parent_index(s, tree_indices(s)[k2] as int) ==> s[tree_indices(s)[k1] as int].pid
                < s[tree_indices(s)[k2] as int].pid,
{
    broadcast use vstd::seq_lib::group_to_multiset_ensures;

    let n = s.len();
    let input = Seq::new(n, |i: int| i as usize);
    let rel = tree_rel(s);
    let idx = tree_indices(s);
    lemma_stable_sort_multiset(input, rel);
    lemma_tree_rel_order(s);
    lemma_stable_sort_sorted(input, rel);
    assert(input.no_duplicates());
    input.lemma_multiset_has_no_duplicates();
    assert forall|x: usize| x < n implies #[trigger] idx.to_multiset().count(x) == 1 by {
        assert(input[x as int] == x);
        assert(input.contains(x));
    }
    assert forall|k: int| 0 <= k < n implies idx[k] < n by {
        assert(idx.contains(idx[k]));
        assert(input.to_multiset().count(idx[k]) > 0);
        assert(input.contains(idx[k]));
    }
    assert forall|x: usize| idx.to_multiset().contains(x) implies idx.to_multiset().count(x) == 1 by {
        assert(input.contains(x));
    }
    idx.lemma_multiset_has_no_duplicates_conv();
    assert forall|i: int| 0 <= i < n && tree_depth(s, i) > 0 implies (parent_index(s, i) is Some
        && tree_depth(s, i) == tree_depth(s, parent_index(s, i)->0) + 1) by {
        lemma_depth_step(s, i);
    }
    assert forall|k1: int, k2: int| 0 <= k1 < k2 < n implies path_before(
        tree_path(s, #[trigger] idx[k1] as int),
        tree_path(s, #[trigger] idx[k2] as int),
    ) by {
        let (a, b) = (idx[k1] as int, idx[k2] as int);
        assert(idx[k1] < n && idx[k2] < n);
        assert(!rel(idx[k2], idx[k1]));
        assert(a != b);
        lemma_path_ends_with_pid(s, a);
        lemma_path_ends_with_pid(s, b);
        assert(s[a].pid != s[b].pid);
        lemma_path_total(tree_path(s, a), tree_path(s, b));
    }
    assert forall|k1: int, k2: int|
        0 <= k1 < k2 < n && tree_depth(s, #[trigger] idx[k1] as int) == 0 && tree_depth(
            s,
            #[trigger] idx[k2] as int,
        ) == 0 implies s[idx[k1] as int].pid < s[idx[k2] as int].pid by {
        let (a, b) = (idx[k1] as int, idx[k2] as int);
        assert(path_before(tree_path(s, a), tree_path(s, b)));
        assert(tree_path(s, a) =~= Seq::<u32>::empty().push(s[a].pid));
        assert(tree_path(s, b) =~= Seq::<u32>::empty().push(s[b].pid));
        lemma_path_extend(Seq::<u32>::empty(), s[a].pid, s[b].pid);
    }
    assert forall|k1: int, k2: int|
        0 <= k1 < k2 < n && tree_depth(s, #[trigger] idx[k1] as int) > 0 && tree_depth(
            s,
            #[trigger] idx[k2] as int,
        ) > 0 && parent_index(s, idx[k1] as int) == parent_index(
            s,
            idx[k2] as int,
        ) implies s[idx[k1] as int].pid < s[idx[k2] as int].pid by {
        let (a, b) = (idx[k1] as int, idx[k2] as int);
        assert(path_before(tree_path(s, a), tree_path(s, b)));
        lemma_depth_step(s, a);
        lemma_depth_step(s, b);
        lemma_path_extend(tree_path(s, parent_index(s, a)->0), s[a].pid, s[b].pid);
    }
}

/// In tree order a parent comes before each of its children.
pub proof fn lemma_parent_first(s: Seq<ProcessView>, i: int)
    requires
        0 <= i < s.len(),
        tree_depth(s, i) > 0,
    ensures
        path_before(tree_path(s, parent_index(s, i)->0), tree_path(s, i)),
{
    lemma_depth_step(s, i);
    lemma_path_prefix(tree_path(s, parent_index(s, i)->0), s[i].pid);
}

/// `p` is an initial part of `a`.
pub open spec fn is_prefix(p: Seq<u32>, a: Seq<u32>) -> bool {
    p.len() <= a.len() && a.take(p.len() as int) == p
}

proof fn lemma_prefix_between(p: Seq<u32>, a: Seq<u32>, b: Seq<u32>, c: Seq<u32>)
    requires
        is_prefix(p, a),
        is_prefix(p, c),
        path_before(a, b),
        path_before(b, c),
    ensures
        is_prefix(p, b),
    decreases p.len(),
{
    if p.len() == 0 {
        assert(b.take(0) =~= p);
    } else {
        assert(a[0] == p[0] && c[0] == p[0]) by {
            assert(a.take(p.len() as int)[0] == p[0]);
            assert(c.take(p.len() as int)[0] == p[0]);
        }
        assert(b.len() > 0);
        assert(b[0] == a[0]);
        assert(a.drop_first().take(p.len() - 1) =~= p.drop_first()) by {
            assert forall|i: int| 0 <= i < p.len() - 1 implies a.drop_first().take(p.len() - 1)[i]
                == p.drop_first()[i] by {
                assert(a.take(p.len() as int)[i + 1] == p[i + 1]);
            }
        }
        assert(c.drop_first().take(p.len() - 1) =~= p.drop_first()) by {
            assert forall|i: int| 0 <= i < p.len() - 1 implies c.drop_first().take(p.len() - 1)[i]
                == p.drop_first()[i] by {
                assert(c.take(p.len() as int)[i + 1] == p[i + 1]);
            }
        }
        lemma_prefix_between(p.drop_first(), a.drop_first(), b.drop_first(), c.drop_first());
        assert(b.take(p.len() as int) =~= p) by {
            assert forall|i: int| 0 <= i < p.len() implies b.take(p.len() as int)[i] == p[i] by {
                if i > 0 {
                    assert(b.drop_first().take(p.len() - 1)[i - 1] == p.drop_first()[i - 1]);
                }
            }
        }
    }
}

/// In tree order each row's subtree is one block: a row whose root path
/// extends that of an earlier row (a descendant of it, by `lemma_depth_step`)
/// has only such rows between the two.
pub proof fn lemma_subtree_contiguous(s: Seq<ProcessView>, k1: int, k2: int, k3: int)
    requires
        pids_unique(s),
        s.len() <= usize::MAX,
        0 <= k1 < k2 < k3 < s.len(),
        is_prefix(
            tree_path(s, tree_indices(s)[k1] as int),
            tree_path(s, tree_indices(s)[k3] as int),
        ),
    ensures
        is_prefix(
            tree_path(s, tree_indices(s)[k1] as int),
            tree_path(s, tree_indices(s)[k2] as int),
        ),
{
    let idx = tree_indices(s);
    lemma_tree_order(s);
    let p = tree_path(s, idx[k1] as int);
    assert(path_before(tree_path(s, idx[k1] as int), tree_path(s, idx[k2] as int)));
    assert(path_before(tree_path(s, idx[k2] as int), tree_path(s, idx[k3] as int)));
    assert(p.take(p.len() as int) =~= p);
    lemma_prefix_between(p, p, tree_path(s, idx[k2] as int), tree_path(s, idx[k3] as int));
}

} // verus!
