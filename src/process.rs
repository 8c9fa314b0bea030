use vstd::prelude::*;
use vstd::string::StringSliceAdditionalSpecFns;
use vstd::utf8::encode_utf8;

verus! {

/// One process of a snapshot. Rates and usage are integers: `cpu` in tenths of
/// a percent, the others in bytes or bytes per second.
#[derive(Clone, Debug)]
pub struct ProcessRecord {
    pub pid: u32,
    pub parent_pid: Option<u32>,
    pub name: String,
    pub command: String,
    pub cpu: u64,
    pub mem: u64,
    pub read_rate: u64,
    pub write_rate: u64,
    /// False for the synthetic row of a group: it stands for no single process.
    pub actionable: bool,
}

impl ProcessRecord {
    /// A field-by-field copy.
    pub fn copy(&self) -> (r: ProcessRecord)
        ensures
            r == *self,
    {
        ProcessRecord {
            pid: self.pid,
            parent_pid: self.parent_pid,
            name: self.name.clone(),
            command: self.command.clone(),
            cpu: self.cpu,
            mem: self.mem,
            read_rate: self.read_rate,
            write_rate: self.write_rate,
            actionable: self.actionable,
        }
    }
}

/// Which part of a record a filter looks at.
#[derive(Clone, Copy, Debug, PartialEq, Eq)]
pub enum Target {
    Name,
    Command,
    Both,
}

/// A search over names and commands. The pattern is matched as a literal.
#[derive(Clone, Debug)]
pub struct Filter {
    pub pattern: String,
    pub case_sensitive: bool,
    pub whole_word: bool,
    pub target: Target,
}

/// ASCII letters fold to lower case where matching ignores case.
pub open spec fn fold(b: u8, case_sensitive: bool) -> u8 {
    if !case_sensitive && 65 <= b <= 90 {
        (b + 32) as u8
    } else {
        b
    }
}

pub open spec fn is_word_byte(b: u8) -> bool {
    (48 <= b <= 57) || (65 <= b <= 90) || (97 <= b <= 122) || b == 95 || b >= 128
}

/// `pat` occurs in `text` at byte `i`, and, for a whole-word search, stands
/// between non-word bytes or the ends of the text.
pub open spec fn occurs_at(text: Seq<u8>, pat: Seq<u8>, i: int, cs: bool, ww: bool) -> bool {
    &&& 0 <= i && i + pat.len() <= text.len()
    &&& forall|k: int| 0 <= k < pat.len() ==> fold(#[trigger] text[i + k], cs) == fold(pat[k], cs)
    &&& ww ==> (i == 0 || !is_word_byte(text[i - 1])) && (i + pat.len() == text.len()
        || !is_word_byte(text[i + pat.len()]))
}

pub open spec fn occurs(text: Seq<u8>, pat: Seq<u8>, cs: bool, ww: bool) -> bool {
    exists|i: int| occurs_at(text, pat, i, cs, ww)
}

/// The record passes the filter.
pub open spec fn passes(r: ProcessRecord, f: Filter) -> bool {
    let p = encode_utf8(f.pattern@);
    match f.target {
        Target::Name => occurs(encode_utf8(r.name@), p, f.case_sensitive, f.whole_word),
        Target::Command => occurs(encode_utf8(r.command@), p, f.case_sensitive, f.whole_word),
        Target::Both => occurs(encode_utf8(r.name@), p, f.case_sensitive, f.whole_word) || occurs(
            encode_utf8(r.command@),
            p,
            f.case_sensitive,
            f.whole_word,
        ),
    }
}


fn fold_byte(b: u8, cs: bool) -> (r: u8)
    ensures
        r == fold(b, cs),
{
    if !cs && 65 <= b && b <= 90 {
        b + 32
    } else {
        b
    }
}

fn word_byte(b: u8) -> (r: bool)
    ensures
        r == is_word_byte(b),
{
    (48 <= b && b <= 57) || (65 <= b && b <= 90) || (97 <= b && b <= 122) || b == 95 || b >= 128
}

/// Whether `pat` occurs in `text` under the given matching modes.
pub fn find_in(text: &[u8], pat: &[u8], cs: bool, ww: bool) -> (r: bool)
    ensures
        r == occurs(text@, pat@, cs, ww),
{
    let n = text.len();
    let m = pat.len();
    if m > n {
        proof {
            assert forall|i: int| !occurs_at(text@, pat@, i, cs, ww) by {}
        }
        return false;
    }
    let mut i: usize = 0;
    while i <= n - m
        invariant
            n == text@.len(),
            m == pat@.len(),
            m <= n,
            0 <= i <= n - m + 1,
            forall|q: int| 0 <= q < i ==> !occurs_at(text@, pat@, q, cs, ww),
        decreases n - m + 1 - i,
    {
        let mut k: usize = 0;
        let mut ok = true;
        while k < m
            invariant
                n == text@.len(),
                m == pat@.len(),
                i + m <= n,
                0 <= k <= m,
                ok == forall|t: int| 0 <= t < k ==> fold(#[trigger] text@[i + t], cs) == fold(pat@[t], cs),
            decreases m - k,
        {
            if fold_byte(text[i + k], cs) != fold_byte(pat[k], cs) {
                ok = false;
            }
            k = k + 1;
        }
        if ok && ww {
            if i > 0 && word_byte(text[i - 1]) {
                ok = false;
            }
            if i + m < n && word_byte(text[i + m]) {
                ok = false;
            }
        }
        if ok {
            assert(occurs_at(text@, pat@, i as int, cs, ww));
            return true;
        }
        proof {
            if occurs_at(text@, pat@, i as int, cs, ww) {
                assert forall|t: int| 0 <= t < m implies fold(#[trigger] text@[i + t], cs) == fold(pat@[t], cs) by {
                    assert(fold(text@[i as int + t], cs) == fold(pat@[t], cs));
                }
            }
        }
        if i == n - m {
            proof {
                assert forall|q: int| !occurs_at(text@, pat@, q, cs, ww) by {
                    if occurs_at(text@, pat@, q, cs, ww) {
                        assert(q <= i);
                    }
                }
            }
            return false;
        }
        i = i + 1;
    }
    proof {
        assert forall|q: int| !occurs_at(text@, pat@, q, cs, ww) by {
            if occurs_at(text@, pat@, q, cs, ww) {
                assert(q < i);
            }
        }
    }
    false
}

/// Whether record `r` passes filter `f`.
pub fn record_passes(r: &ProcessRecord, f: &Filter) -> (b: bool)
    ensures
        b == passes(*r, *f),
{
    let p = f.pattern.as_str().as_bytes();
    let name = r.name.as_str().as_bytes();
    let command = r.command.as_str().as_bytes();
    match f.target {
        Target::Name => find_in(name, p, f.case_sensitive, f.whole_word),
        Target::Command => find_in(command, p, f.case_sensitive, f.whole_word),
        Target::Both => find_in(name, p, f.case_sensitive, f.whole_word) || find_in(
            command,
            p,
            f.case_sensitive,
            f.whole_word,
        ),
    }
}

/// The records of `s` that pass `f`, in order.
pub open spec fn filtered(s: Seq<ProcessRecord>, f: Filter) -> Seq<ProcessRecord>
    decreases s.len(),
{
    if s.len() == 0 {
        Seq::empty()
    } else if passes(s.last(), f) {
        filtered(s.drop_last(), f).push(s.last())
    } else {
        filtered(s.drop_last(), f)
    }
}

/// The records of the snapshot that pass `f`, in their order.
pub fn filter_records(s: &Vec<ProcessRecord>, f: &Filter) -> (r: Vec<ProcessRecord>)
    ensures
        r@ == filtered(s@, *f),
{
    let mut r: Vec<ProcessRecord> = Vec::new();
    let mut i: usize = 0;
    while i < s.len()
        invariant
            0 <= i <= s@.len(),
            r@ == filtered(s@.take(i as int), *f),
        decreases s@.len() - i,
    {
        assert(s@.take(i as int + 1).drop_last() =~= s@.take(i as int));
        assert(s@.take(i as int + 1).last() == s@[i as int]);
        if record_passes(&s[i], f) {
            r.push(s[i].copy());
        }
        i = i + 1;
    }
    assert(s@.take(s@.len() as int) =~= s@);
    r
}


/// A column that the table can be sorted by.
#[derive(Clone, Copy, Debug, PartialEq, Eq)]
pub enum SortColumn {
    Pid,
    Cpu,
    Mem,
    ReadRate,
    WriteRate,
}

pub open spec fn metric(r: ProcessRecord, c: SortColumn) -> u64 {
    match c {
        SortColumn::Pid => r.pid as u64,
        SortColumn::Cpu => r.cpu,
        SortColumn::Mem => r.mem,
        SortColumn::ReadRate => r.read_rate,
        SortColumn::WriteRate => r.write_rate,
    }
}

fn metric_of(r: &ProcessRecord, c: SortColumn) -> (m: u64)
    ensures
        m == metric(*r, c),
{
    match c {
        SortColumn::Pid => r.pid as u64,
        SortColumn::Cpu => r.cpu,
        SortColumn::Mem => r.mem,
        SortColumn::ReadRate => r.read_rate,
        SortColumn::WriteRate => r.write_rate,
    }
}

/// `x` may stand before `y`: it comes first by the column in the given
/// direction, or the two are equal there and `x` has the lower or equal pid.
pub open spec fn no_later(x: ProcessRecord, y: ProcessRecord, c: SortColumn, descending: bool) -> bool {
    if metric(x, c) != metric(y, c) {
        if descending {
            metric(x, c) > metric(y, c)
        } else {
            metric(x, c) < metric(y, c)
        }
    } else {
        x.pid <= y.pid
    }
}

pub open spec fn sorted_by(s: Seq<ProcessRecord>, c: SortColumn, descending: bool) -> bool {
    forall|a: int, b: int| 0 <= a < b < s.len() ==> no_later(#[trigger] s[a], #[trigger] s[b], c, descending)
}

fn no_later_exec(x: &ProcessRecord, y: &ProcessRecord, c: SortColumn, descending: bool) -> (r: bool)
    ensures
        r == no_later(*x, *y, c, descending),
{
    let mx = metric_of(x, c);
    let my = metric_of(y, c);
    if mx != my {
        if descending {
            mx > my
        } else {
            mx < my
        }
    } else {
        x.pid <= y.pid
    }
}

/// Where `x` goes into the sorted sequence `t` from position `k` on: before the
/// first record that `x` must precede, else at the end. Records that tie with
/// `x` stay before it.
pub open spec fn insert_pos(t: Seq<ProcessRecord>, x: ProcessRecord, c: SortColumn, descending: bool, k: int) -> int
    decreases t.len() - k,
{
    if k >= t.len() || !no_later(t[k], x, c, descending) {
        k
    } else {
        insert_pos(t, x, c, descending, k + 1)
    }
}

/// Stable insertion sort of `s` by column `c` then pid: each record goes after
/// every earlier one that may stand before it.
pub open spec fn sort_spec(s: Seq<ProcessRecord>, c: SortColumn, descending: bool) -> Seq<ProcessRecord>
    decreases s.len(),
{
    if s.len() == 0 {
        Seq::empty()
    } else {
        let t = sort_spec(s.drop_last(), c, descending);
        t.insert(insert_pos(t, s.last(), c, descending, 0), s.last())
    }
}

proof fn lemma_insert_pos(t: Seq<ProcessRecord>, x: ProcessRecord, c: SortColumn, descending: bool, k: int, j: int)
    requires
        0 <= k <= j <= t.len(),
        forall|q: int| k <= q < j ==> no_later(#[trigger] t[q], x, c, descending),
        j == t.len() || !no_later(t[j], x, c, descending),
    ensures
        insert_pos(t, x, c, descending, k) == j,
    decreases j - k,
{
    if k < j {
        lemma_insert_pos(t, x, c, descending, k + 1, j);
    }
}

/// The records sorted by column `c` in the given direction, ties broken by pid
/// ascending; records equal in both keep their order.
pub fn sort_records(s: &Vec<ProcessRecord>, c: SortColumn, descending: bool) -> (r: Vec<ProcessRecord>)
    ensures
        r@ == sort_spec(s@, c, descending),
        r@.to_multiset() == s@.to_multiset(),
        sorted_by(r@, c, descending),
{
    broadcast use vstd::seq_lib::to_multiset_build, vstd::seq_lib::to_multiset_insert;

    let mut out: Vec<ProcessRecord> = Vec::new();
    let mut i: usize = 0;
    assert(s@.take(0) =~= out@);
    while i < s.len()
        invariant
            0 <= i <= s@.len(),
            out@.to_multiset() == s@.take(i as int).to_multiset(),
            out@ == sort_spec(s@.take(i as int), c, descending),
            sorted_by(out@, c, descending),
        decreases s@.len() - i,
    {
        let x = s[i].copy();
        let mut j: usize = 0;
        while j < out.len() && no_later_exec(&out[j], &x, c, descending)
            invariant
                0 <= j <= out@.len(),
                forall|q: int| 0 <= q < j ==> no_later(#[trigger] out@[q], x, c, descending),
            decreases out@.len() - j,
        {
            j = j + 1;
        }
        let ghost before = out@;
        proof {
            lemma_insert_pos(before, x, c, descending, 0, j as int);
            assert(s@.take(i as int + 1).drop_last() =~= s@.take(i as int));
            assert forall|q: int| j <= q < before.len() implies no_later(x, #[trigger] before[q], c, descending) by {
                assert(!no_later(before[j as int], x, c, descending));
                if q > j {
                    assert(no_later(before[j as int], before[q], c, descending));
                }
            }
        }
        out.insert(j, x);
        proof {
            assert(s@.take(i as int + 1) =~= s@.take(i as int).push(s@[i as int]));
            vstd::seq_lib::to_multiset_insert(before, j as int, x);
            vstd::seq_lib::to_multiset_build(s@.take(i as int), s@[i as int]);
            assert(out@ == before.insert(j as int, x));
            assert forall|a: int, b: int| 0 <= a < b < out@.len() implies no_later(#[trigger] out@[a], #[trigger] out@[b], c, descending) by {
                if b < j {
                    assert(out@[a] == before[a] && out@[b] == before[b]);
                } else if b == j {
                    assert(out@[a] == before[a]);
                } else if a == j {
                    assert(out@[b] == before[b - 1]);
                } else if a < j {
                    assert(out@[a] == before[a] && out@[b] == before[b - 1]);
                    assert(no_later(before[a], x, c, descending));
                    assert(no_later(x, before[b - 1], c, descending));
                } else {
                    assert(out@[a] == before[a - 1] && out@[b] == before[b - 1]);
                }
            }
        }
        i = i + 1;
    }
    assert(s@.take(s@.len() as int) =~= s@);
    out
}


/// Index of the first record of `s` with pid `pid`, where there is one.
pub open spec fn first_with_pid(s: Seq<ProcessRecord>, pid: u32) -> int {
    if exists|q: int| 0 <= q < s.len() && (#[trigger] s[q]).pid == pid {
        choose|q: int|
            0 <= q < s.len() && (#[trigger] s[q]).pid == pid && forall|t: int| 0 <= t < q ==> (#[trigger] s[t]).pid != pid
    } else {
        -1
    }
}

/// Index of the parent of record `i` in `s`, or -1 where it has none there.
pub open spec fn parent_index(s: Seq<ProcessRecord>, i: int) -> int {
    match s[i].parent_pid {
        Some(p) => first_with_pid(s, p),
        None => -1,
    }
}

/// The record `k` parent links above record `i`, or -1 where the chain ends
/// before.
#[verifier::opaque]
pub open spec fn ancestor(s: Seq<ProcessRecord>, i: int, k: nat) -> int
    decreases k,
{
    if k == 0 {
        i
    } else {
        let a = ancestor(s, i, (k - 1) as nat);
        if 0 <= a < s.len() {
            parent_index(s, a)
        } else {
            -1
        }
    }
}

/// Following parent links from record `i` comes back to it.
pub open spec fn on_cycle(s: Seq<ProcessRecord>, i: int) -> bool {
    exists|k: nat| 1 <= k <= s.len() && ancestor(s, i, k) == i
}

/// A record is a root of the tree where its parent is not in the snapshot or
/// where it lies on a cycle of parent links.
pub open spec fn is_root(s: Seq<ProcessRecord>, i: int) -> bool {
    parent_index(s, i) == -1 || on_cycle(s, i)
}

fn find_pid(s: &Vec<ProcessRecord>, pid: u32) -> (r: Option<usize>)
    ensures
        r is None ==> first_with_pid(s@, pid) == -1,
        r is Some ==> r->Some_0 < s@.len() && r->Some_0 as int == first_with_pid(s@, pid),
{
    let mut q: usize = 0;
    while q < s.len()
        invariant
            0 <= q <= s@.len(),
            forall|t: int| 0 <= t < q ==> (#[trigger] s@[t]).pid != pid,
        decreases s@.len() - q,
    {
        if s[q].pid == pid {
            proof {
                let c = first_with_pid(s@, pid);
                assert(s@[q as int].pid == pid);
                if c < q {
                    assert(s@[c].pid != pid);
                }
                if c > q {
                    assert(s@[q as int].pid != pid);
                }
            }
            return Some(q);
        }
        q = q + 1;
    }
    None
}

proof fn lemma_ancestor_step(s: Seq<ProcessRecord>, i: int, k: nat)
    ensures
        ancestor(s, i, 0) == i,
        ancestor(s, i, k + 1) == if 0 <= ancestor(s, i, k) < s.len() {
            parent_index(s, ancestor(s, i, k))
        } else {
            -1
        },
{
    reveal(ancestor);
}

proof fn lemma_ancestor_ends(s: Seq<ProcessRecord>, i: int, k: nat, m: nat)
    requires
        !(0 <= ancestor(s, i, k) < s.len()),
        k < m,
    ensures
        ancestor(s, i, m) == -1,
    decreases m - k,
{
    lemma_ancestor_step(s, i, k);
    if k + 1 < m {
        lemma_ancestor_ends(s, i, k + 1, m);
    }
}

/// The parent of each record in the process tree: `None` for a root, else the
/// index of its parent. A parent link that closes a cycle is broken by making
/// every record on the cycle a root.
pub fn build_forest(s: &Vec<ProcessRecord>) -> (r: Vec<Option<usize>>)
    ensures
        r@.len() == s@.len(),
        forall|i: int|
            0 <= i < s@.len() ==> (#[trigger] r@[i] is None <==> is_root(s@, i)),
        forall|i: int|
            0 <= i < s@.len() && r@[i] is Some ==> (#[trigger] r@[i])->Some_0 as int == parent_index(s@, i),
{
    let n = s.len();
    let mut links: Vec<Option<usize>> = Vec::new();
    let mut i: usize = 0;
    while i < n
        invariant
            n == s@.len(),
            0 <= i <= n,
            links@.len() == i,
            forall|q: int|
                0 <= q < i ==> (#[trigger] links@[q] is None <==> parent_index(s@, q) == -1)
                    && (links@[q] is Some ==> links@[q]->Some_0 as int == parent_index(s@, q)
                    && links@[q]->Some_0 < n),
        decreases n - i,
    {
        let link = match s[i].parent_pid {
            Some(p) => find_pid(s, p),
            None => None,
        };
        links.push(link);
        i = i + 1;
    }
    let mut r: Vec<Option<usize>> = Vec::new();
    let mut i: usize = 0;
    while i < n
        invariant
            n == s@.len(),
            0 <= i <= n,
            links@.len() == n,
            r@.len() == i,
            forall|q: int|
                0 <= q < n ==> (#[trigger] links@[q] is None <==> parent_index(s@, q) == -1)
                    && (links@[q] is Some ==> links@[q]->Some_0 as int == parent_index(s@, q)
                    && links@[q]->Some_0 < n),
            forall|q: int| 0 <= q < i ==> (#[trigger] r@[q] is None <==> is_root(s@, q)),
            forall|q: int|
                0 <= q < i && r@[q] is Some ==> (#[trigger] r@[q])->Some_0 as int == parent_index(s@, q),
        decreases n - i,
    {
        let first = links[i];
        let mut cycle = false;
        let mut cur: Option<usize> = first;
        let mut steps: usize = 0;
        proof {
            lemma_ancestor_step(s@, i as int, 0);
        }
        while steps < n && !cycle && cur.is_some()
            invariant
                n == s@.len(),
                i < n,
                links@.len() == n,
                forall|q: int|
                    0 <= q < n ==> (#[trigger] links@[q] is None <==> parent_index(s@, q) == -1)
                        && (links@[q] is Some ==> links@[q]->Some_0 as int == parent_index(s@, q)
                        && links@[q]->Some_0 < n),
                0 <= steps <= n,
                cur is Some ==> cur->Some_0 < n && cur->Some_0 as int == ancestor(s@, i as int, (steps + 1) as nat),
                cur is None ==> ancestor(s@, i as int, (steps + 1) as nat) == -1,
                cycle ==> on_cycle(s@, i as int),
                !cycle ==> forall|t: nat| 1 <= t < steps + 1 ==> ancestor(s@, i as int, t) != i,
            decreases n - steps, (if cycle { 0int } else { 1int }),
        {
            let c = cur.unwrap();
            if c == i {
                cycle = true;
            } else {
                proof {
                    lemma_ancestor_step(s@, i as int, (steps + 1) as nat);
                }
                cur = links[c];
                steps = steps + 1;
            }
        }
        proof {
            if !cycle {
                if cur is None {
                    assert forall|t: nat| 1 <= t <= n implies ancestor(s@, i as int, t) != i by {
                        if t > steps + 1 {
                            lemma_ancestor_ends(s@, i as int, (steps + 1) as nat, t);
                        }
                    }
                }
                assert(!on_cycle(s@, i as int));
            }
        }
        if first.is_none() || cycle {
            r.push(None);
        } else {
            r.push(first);
        }
        i = i + 1;
    }
    r
}

/// Two records that are each other's parent, and whose pids occur nowhere
/// earlier in the snapshot, lie on a cycle of parent links: both are roots of
/// the tree.
pub proof fn lemma_two_cycle_roots(s: Seq<ProcessRecord>, a: int, b: int)
    requires
        0 <= a < s.len(),
        0 <= b < s.len(),
        s[a].parent_pid == Some(s[b].pid),
        s[b].parent_pid == Some(s[a].pid),
        forall|q: int| 0 <= q < a ==> (#[trigger] s[q]).pid != s[a].pid,
        forall|q: int| 0 <= q < b ==> (#[trigger] s[q]).pid != s[b].pid,
    ensures
        is_root(s, a),
        is_root(s, b),
{
    assert(parent_index(s, a) == b) by {
        let c = first_with_pid(s, s[b].pid);
        assert(s[b].pid == s[b].pid);
        if c < b {
            assert(s[c].pid != s[b].pid);
        }
        if c > b {
            assert(s[b].pid != s[b].pid);
        }
    }
    assert(parent_index(s, b) == a) by {
        let c = first_with_pid(s, s[a].pid);
        if c < a {
            assert(s[c].pid != s[a].pid);
        }
        if c > a {
            assert(s[a].pid != s[a].pid);
        }
    }
    lemma_ancestor_step(s, a, 0);
    lemma_ancestor_step(s, a, 1);
    lemma_ancestor_step(s, b, 0);
    lemma_ancestor_step(s, b, 1);
    if a == b {
        assert(ancestor(s, a, 1) == a);
    } else {
        assert(s.len() >= 2);
        assert(ancestor(s, a, 2) == a);
        assert(ancestor(s, b, 2) == b);
    }
}


/// In a sequence sorted ascending by a column and one sorted descending, two
/// records with different pids come in opposite orders where their values in
/// the column differ, and in the same (pid) order where they are equal.
pub proof fn lemma_flip_order(
    up: Seq<ProcessRecord>,
    down: Seq<ProcessRecord>,
    c: SortColumn,
    a: int,
    b: int,
    a2: int,
    b2: int,
)
    requires
        sorted_by(up, c, false),
        sorted_by(down, c, true),
        0 <= a < b < up.len(),
        0 <= a2 < down.len(),
        0 <= b2 < down.len(),
        up[a] == down[a2],
        up[b] == down[b2],
        up[a].pid != up[b].pid,
    ensures
        metric(up[a], c) != metric(up[b], c) ==> b2 < a2,
        metric(up[a], c) == metric(up[b], c) ==> a2 < b2,
{
    assert(no_later(up[a], up[b], c, false));
    if a2 < b2 {
        assert(no_later(down[a2], down[b2], c, true));
    } else if b2 < a2 {
        assert(no_later(down[b2], down[a2], c, true));
    }
}

/// What the process table shows: an optional filter, then a sort.
#[derive(Clone, Debug)]
pub struct ViewPolicy {
    pub filter: Option<Filter>,
    pub column: SortColumn,
    pub descending: bool,
}

/// The records that the policy keeps, in the policy's order.
pub open spec fn view_spec(s: Seq<ProcessRecord>, p: ViewPolicy) -> Seq<ProcessRecord> {
    let kept = match p.filter {
        Some(f) => filtered(s, f),
        None => s,
    };
    sort_spec(kept, p.column, p.descending)
}

/// Builds the flat process table of a snapshot: a pure function of the
/// snapshot and the policy.
pub fn build(s: &Vec<ProcessRecord>, p: &ViewPolicy) -> (r: Vec<ProcessRecord>)
    ensures
        r@ == view_spec(s@, *p),
        sorted_by(r@, p.column, p.descending),
{
    match &p.filter {
        Some(f) => {
            let kept = filter_records(s, f);
            sort_records(&kept, p.column, p.descending)
        },
        None => sort_records(s, p.column, p.descending),
    }
}

} // verus!
