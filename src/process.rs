use vstd::prelude::*;

use crate::sorting::{
    lemma_insert_position, lemma_sort_prefix_step, lemma_stable_sort_multiset, lemma_stable_sort_sorted,
    sorted_by, stable_sort, strict_weak_order,
};

verus! {

/// One row of the process table. `cpu` is in hundredths of a percent;
/// `indent` is the depth of the row in tree order (0 otherwise).
#[derive(Clone, Debug)]
pub struct ProcessInfo {
    pub pid: u32,
    pub name: String,
    pub user: String,
    pub cmd: String,
    pub cpu: u32,
    pub mem_bytes: u64,
    pub parent: Option<u32>,
    pub indent: usize,
}

/// The mathematical value of a `ProcessInfo`.
pub struct ProcessView {
    pub pid: u32,
    pub name: Seq<char>,
    pub user: Seq<char>,
    pub cmd: Seq<char>,
    pub cpu: u32,
    pub mem_bytes: u64,
    pub parent: Option<u32>,
    pub indent: nat,
}

impl View for ProcessInfo {
    type V = ProcessView;

    open spec fn view(&self) -> ProcessView {
        ProcessView {
            pid: self.pid,
            name: self.name@,
            user: self.user@,
            cmd: self.cmd@,
            cpu: self.cpu,
            mem_bytes: self.mem_bytes,
            parent: self.parent,
            indent: self.indent as nat,
        }
    }
}

/// The views of a sequence of rows.
pub open spec fn views(s: Seq<ProcessInfo>) -> Seq<ProcessView> {
    s.map_values(|p: ProcessInfo| p@)
}

impl ProcessInfo {
    /// A copy of this row.
    pub fn duplicate(&self) -> (r: ProcessInfo)
        ensures
            r@ == self@,
    {
        ProcessInfo {
            pid: self.pid,
            name: self.name.clone(),
            user: self.user.clone(),
            cmd: self.cmd.clone(),
            cpu: self.cpu,
            mem_bytes: self.mem_bytes,
            parent: self.parent,
            indent: self.indent,
        }
    }
}

/// A mounted file system and its space in bytes.
#[derive(Clone, Debug)]
pub struct DiskInfo {
    pub _name: String,
    pub mount_point: String,
    pub total: u64,
    pub available: u64,
}

/// The key that process rows are ordered by.
#[derive(Clone, Copy, Debug, PartialEq, Eq, Structural)]
pub enum ProcessSort {
    Cpu,
    Memory,
    Pid,
    Name,
    User,
    Tree,
}

/// Lexicographic order of texts by code point, a proper prefix first.
pub open spec fn text_before(a: Seq<char>, b: Seq<char>) -> bool
    decreases a.len(),
{
    if a.len() == 0 {
        b.len() > 0
    } else if b.len() == 0 {
        false
    } else if a[0] != b[0] {
        (a[0] as u32) < (b[0] as u32)
    } else {
        text_before(a.drop_first(), b.drop_first())
    }
}

/// Whether `a` comes strictly before `b` in ascending order of `key`.
/// Tree order is not a comparison of two rows: under it no row precedes another.
pub open spec fn key_before(a: ProcessView, b: ProcessView, key: ProcessSort) -> bool {
    match key {
        ProcessSort::Cpu => a.cpu < b.cpu,
        ProcessSort::Memory => a.mem_bytes < b.mem_bytes,
        ProcessSort::Pid => a.pid < b.pid,
        ProcessSort::Name => text_before(a.name, b.name),
        ProcessSort::User => text_before(a.user, b.user),
        ProcessSort::Tree => false,
    }
}

/// Whether `a` comes strictly before `b` under `key` and the direction;
/// descending reverses the comparison, not the input order.
pub open spec fn precedes(a: ProcessView, b: ProcessView, key: ProcessSort, descending: bool) -> bool {
    if descending {
        key_before(b, a, key)
    } else {
        key_before(a, b, key)
    }
}

/// `precedes` as a relation, for `stable_sort`.
pub open spec fn precedes_rel(key: ProcessSort, descending: bool) -> spec_fn(ProcessView, ProcessView) -> bool {
    |a: ProcessView, b: ProcessView| precedes(a, b, key, descending)
}

/// The rows sorted stably by `key` in the given direction.
pub open spec fn sorted_rows(s: Seq<ProcessView>, key: ProcessSort, descending: bool) -> Seq<ProcessView> {
    stable_sort(s, precedes_rel(key, descending))
}

/// Compares two texts in code-point order.
pub fn text_less(a: &str, b: &str) -> (r: bool)
    ensures
        r == text_before(a@, b@),
{
    let la = a.unicode_len();
    let lb = b.unicode_len();
    let mut i: usize = 0;
    assert(a@.skip(0) =~= a@ && b@.skip(0) =~= b@);
    while i < la && i < lb
        invariant
            la == a@.len(),
            lb == b@.len(),
            i <= la,
            i <= lb,
            text_before(a@, b@) == text_before(a@.skip(i as int), b@.skip(i as int)),
        decreases la - i,
    {
        let ca = a.get_char(i);
        let cb = b.get_char(i);
        assert(a@.skip(i as int).drop_first() =~= a@.skip(i + 1));
        assert(b@.skip(i as int).drop_first() =~= b@.skip(i + 1));
        if ca != cb {
            return (ca as u32) < (cb as u32);
        }
        i = i + 1;
    }
    i == la && i < lb
}

/// Whether row `a` comes strictly before row `b` under `key` and direction.
pub fn row_precedes(a: &ProcessInfo, b: &ProcessInfo, key: ProcessSort, descending: bool) -> (r: bool)
    ensures
        r == precedes(a@, b@, key, descending),
{
    let (x, y) = if descending {
        (b, a)
    } else {
        (a, b)
    };
    match key {
        ProcessSort::Cpu => x.cpu < y.cpu,
        ProcessSort::Memory => x.mem_bytes < y.mem_bytes,
        ProcessSort::Pid => x.pid < y.pid,
        ProcessSort::Name => text_less(x.name.as_str(), y.name.as_str()),
        ProcessSort::User => text_less(x.user.as_str(), y.user.as_str()),
        ProcessSort::Tree => false,
    }
}

/// Sorts rows stably by `key` in the given direction.
pub fn sort_processes(procs: Vec<ProcessInfo>, key: ProcessSort, descending: bool) -> (r: Vec<ProcessInfo>)
    ensures
        views(r@) == sorted_rows(views(procs@), key, descending),
{
    let ghost rel = precedes_rel(key, descending);
    let ghost input = views(procs@);
    let n = procs.len();
    let mut rest = procs;
    let mut out: Vec<ProcessInfo> = Vec::new();
    let mut i: usize = 0;
    while i < n
        invariant
            i <= n,
            n == input.len(),
            views(rest@) == input.skip(i as int),
            views(out@) == stable_sort(input.take(i as int), rel),
            rel == precedes_rel(key, descending),
        decreases n - i,
    {
        let ghost before_remove = rest@;
        assert(views(before_remove).len() == before_remove.len());
        assert(views(before_remove)[0] == input[i as int]);
        let x = rest.remove(0);
        assert(views(rest@) =~= views(before_remove).skip(1));
        assert(views(rest@) =~= input.skip(i + 1));
        let ghost sorted = views(out@);
        let mut j = out.len();
        while j > 0 && row_precedes(&x, &out[j - 1], key, descending)
            invariant
                j <= out.len(),
                sorted == views(out@),
                forall|k: int| j <= k < sorted.len() ==> rel(x@, #[trigger] sorted[k]),
                rel == precedes_rel(key, descending),
            decreases j,
        {
            j = j - 1;
        }
        proof {
            lemma_insert_position(sorted, x@, rel, j as int);
            lemma_sort_prefix_step(input, rel, i as int);
        }
        out.insert(j, x);
        assert(views(out@) =~= sorted.insert(j as int, x@));
        i = i + 1;
    }
    assert(input.take(n as int) =~= input);
    out
}

proof fn lemma_text_asym(a: Seq<char>, b: Seq<char>)
    ensures
        text_before(a, b) ==> !text_before(b, a),
    decreases a.len(),
{
    if a.len() > 0 && b.len() > 0 && a[0] == b[0] {
        lemma_text_asym(a.drop_first(), b.drop_first());
    }
}

proof fn lemma_text_trans(a: Seq<char>, b: Seq<char>, c: Seq<char>)
    ensures
        text_before(a, b) && text_before(b, c) ==> text_before(a, c),
    decreases a.len(),
{
    if a.len() > 0 && b.len() > 0 && c.len() > 0 && a[0] == b[0] && b[0] == c[0] {
        lemma_text_trans(a.drop_first(), b.drop_first(), c.drop_first());
    }
}

proof fn lemma_text_total(a: Seq<char>, b: Seq<char>)
    ensures
        a != b ==> text_before(a, b) || text_before(b, a),
    decreases a.len(),
{
    if a.len() == 0 && b.len() == 0 {
        assert(a =~= b);
    } else if a.len() > 0 && b.len() > 0 && a[0] == b[0] {
        lemma_text_total(a.drop_first(), b.drop_first());
        if a.drop_first() == b.drop_first() {
            assert(a =~= seq![a[0]] + a.drop_first());
            assert(b =~= seq![b[0]] + b.drop_first());
        }
    } else if a.len() > 0 && b.len() > 0 {
        vstd::utf8::char_u32_cast(a[0], a[0] as u32);
        vstd::utf8::char_u32_cast(b[0], b[0] as u32);
    }
}

/// Comparing texts whatever lies between: if `a` precedes `c`, then `a`
/// precedes `b` or `b` precedes `c`.
proof fn lemma_text_between(a: Seq<char>, b: Seq<char>, c: Seq<char>)
    ensures
        text_before(a, c) ==> text_before(a, b) || text_before(b, c),
{
    lemma_text_total(a, b);
    lemma_text_trans(b, a, c);
}

proof fn lemma_precedes_order(key: ProcessSort, descending: bool)
    ensures
        strict_weak_order(precedes_rel(key, descending)),
{
    let rel = precedes_rel(key, descending);
    assert forall|a: ProcessView, b: ProcessView| #[trigger] rel(a, b) implies !rel(b, a) by {
        lemma_text_asym(a.name, b.name);
        lemma_text_asym(b.name, a.name);
        lemma_text_asym(a.user, b.user);
        lemma_text_asym(b.user, a.user);
    }
    assert forall|a: ProcessView, b: ProcessView, c: ProcessView| #[trigger] rel(a, c) implies rel(a, b)
        || #[trigger] rel(b, c) by {
        lemma_text_between(a.name, b.name, c.name);
        lemma_text_between(c.name, b.name, a.name);
        lemma_text_between(a.user, b.user, c.user);
        lemma_text_between(c.user, b.user, a.user);
    }
}

/// Sorting rows yields a rearrangement of them in which no row comes
/// strictly before an earlier one under the key and direction.
pub proof fn lemma_sorted_rows(s: Seq<ProcessView>, key: ProcessSort, descending: bool)
    ensures
        sorted_rows(s, key, descending).to_multiset() == s.to_multiset(),
        forall|i: int, j: int|
            0 <= i < j < s.len() ==> !precedes(
                #[trigger] sorted_rows(s, key, descending)[j],
                #[trigger] sorted_rows(s, key, descending)[i],
                key,
                descending,
            ),
{
    let rel = precedes_rel(key, descending);
    lemma_stable_sort_multiset(s, rel);
    lemma_precedes_order(key, descending);
    lemma_stable_sort_sorted(s, rel);
    let r = sorted_rows(s, key, descending);
    assert forall|i: int, j: int| 0 <= i < j < s.len() implies !precedes(
        #[trigger] r[j],
        #[trigger] r[i],
        key,
        descending,
    ) by {
        assert(sorted_by(r, rel));
        assert(!rel(r[j], r[i]));
    }
}

} // verus!
