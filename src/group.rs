use vstd::prelude::*;
use crate::process::{metric, ProcessRecord, SortColumn};

verus! {

/// The pid shown on a group row; such a row is never actionable.
pub const GROUP_PID: u32 = 0;

/// The sum of column `c` over the records of `s` named `name`.
pub open spec fn total(s: Seq<ProcessRecord>, name: Seq<char>, c: SortColumn) -> int
    decreases s.len(),
{
    if s.len() == 0 {
        0
    } else {
        total(s.drop_last(), name, c) + if s.last().name@ == name {
            metric(s.last(), c) as int
        } else {
            0
        }
    }
}

/// `x` capped at the largest `u64`.
pub open spec fn capped(x: int) -> int {
    if x > u64::MAX {
        u64::MAX as int
    } else {
        x
    }
}

pub open spec fn summed(c: SortColumn) -> bool {
    c != SortColumn::Pid
}

/// `r` is the group row of its name over snapshot `s`.
pub open spec fn is_group_row(r: ProcessRecord, s: Seq<ProcessRecord>) -> bool {
    &&& r.pid == GROUP_PID
    &&& r.parent_pid is None
    &&& !r.actionable
    &&& forall|c: SortColumn| summed(c) ==> #[trigger] metric(r, c) as int == capped(total(s, r.name@, c))
}

#[verifier::opaque]
pub open spec fn all_group_rows(rows: Seq<ProcessRecord>, s: Seq<ProcessRecord>) -> bool {
    forall|k: int| 0 <= k < rows.len() ==> is_group_row(#[trigger] rows[k], s)
}

#[verifier::opaque]
pub open spec fn rows_named_from(rows: Seq<ProcessRecord>, s: Seq<ProcessRecord>) -> bool {
    forall|k: int|
        0 <= k < rows.len() ==> exists|i: int|
            0 <= i < s.len() && (#[trigger] s[i]).name@ == (#[trigger] rows[k]).name@
}

#[verifier::opaque]
pub open spec fn names_have_rows(rows: Seq<ProcessRecord>, s: Seq<ProcessRecord>) -> bool {
    forall|i: int|
        0 <= i < s.len() ==> exists|k: int|
            0 <= k < rows.len() && (#[trigger] rows[k]).name@ == (#[trigger] s[i]).name@
}

#[verifier::opaque]
pub open spec fn names_distinct(rows: Seq<ProcessRecord>) -> bool {
    forall|a: int, b: int|
        0 <= a < b < rows.len() ==> (#[trigger] rows[a]).name@ != (#[trigger] rows[b]).name@
}

/// `rows` are the group rows of snapshot `s`: one per distinct name of `s`, each
/// with the totals of its name.
#[verifier::opaque]
pub open spec fn groups_of(rows: Seq<ProcessRecord>, s: Seq<ProcessRecord>) -> bool {
    &&& all_group_rows(rows, s)
    &&& rows_named_from(rows, s)
    &&& names_have_rows(rows, s)
    &&& names_distinct(rows)
}

fn add_capped(a: u64, b: u64) -> (r: u64)
    ensures
        r as int == capped(a + b),
{
    if a > u64::MAX - b {
        u64::MAX
    } else {
        a + b
    }
}

proof fn lemma_total_push(s: Seq<ProcessRecord>, i: int, name: Seq<char>, c: SortColumn)
    requires
        0 <= i < s.len(),
    ensures
        total(s.take(i + 1), name, c) == total(s.take(i), name, c) + if s[i].name@ == name {
            metric(s[i], c) as int
        } else {
            0
        },
{
    assert(s.take(i + 1).drop_last() =~= s.take(i));
}

proof fn lemma_total_nonneg(s: Seq<ProcessRecord>, name: Seq<char>, c: SortColumn)
    ensures
        total(s, name, c) >= 0,
    decreases s.len(),
{
    if s.len() > 0 {
        lemma_total_nonneg(s.drop_last(), name, c);
    }
}

proof fn lemma_total_absent(s: Seq<ProcessRecord>, name: Seq<char>, c: SortColumn)
    requires
        forall|q: int| 0 <= q < s.len() ==> (#[trigger] s[q]).name@ != name,
    ensures
        total(s, name, c) == 0,
    decreases s.len(),
{
    if s.len() > 0 {
        assert(s[s.len() - 1].name@ != name);
        lemma_total_absent(s.drop_last(), name, c);
    }
}

#[verifier::rlimit(50)]
proof fn lemma_merge_rows(before: Seq<ProcessRecord>, row: ProcessRecord, j: int, s: Seq<ProcessRecord>, i: int)
    requires
        all_group_rows(before, s.take(i)),
        names_distinct(before),
        0 <= i < s.len(),
        0 <= j < before.len(),
        before[j].name@ == s[i].name@,
        row.name@ == before[j].name@,
        row.pid == GROUP_PID,
        row.parent_pid is None,
        !row.actionable,
        metric(row, SortColumn::Cpu) as int == capped(metric(before[j], SortColumn::Cpu) + metric(s[i], SortColumn::Cpu)),
        metric(row, SortColumn::Mem) as int == capped(metric(before[j], SortColumn::Mem) + metric(s[i], SortColumn::Mem)),
        metric(row, SortColumn::ReadRate) as int == capped(metric(before[j], SortColumn::ReadRate) + metric(s[i], SortColumn::ReadRate)),
        metric(row, SortColumn::WriteRate) as int == capped(metric(before[j], SortColumn::WriteRate) + metric(s[i], SortColumn::WriteRate)),
    ensures
        all_group_rows(before.update(j, row), s.take(i + 1)),
{
    reveal(all_group_rows);
    reveal(names_distinct);
    let after = before.update(j, row);
    let pre = s.take(i);
    let post = s.take(i + 1);
    assert forall|k: int| 0 <= k < after.len() implies is_group_row(#[trigger] after[k], post) by {
        assert forall|c: SortColumn| summed(c) implies #[trigger] metric(after[k], c) as int == capped(
            total(post, after[k].name@, c),
        ) by {
            lemma_total_push(s, i, after[k].name@, c);
            lemma_total_nonneg(pre, after[k].name@, c);
            assert(is_group_row(before[k], pre));
            assert(metric(before[k], c) as int == capped(total(pre, before[k].name@, c)));
            if k != j {
                if k < j {
                    assert(before[k].name@ != before[j].name@);
                } else {
                    assert(before[j].name@ != before[k].name@);
                }
            } else {
                match c {
                    SortColumn::Pid => {},
                    _ => {},
                }
            }
        }
    }
}

#[verifier::rlimit(50)]
proof fn lemma_merge_names(before: Seq<ProcessRecord>, row: ProcessRecord, j: int, s: Seq<ProcessRecord>, i: int)
    requires
        rows_named_from(before, s.take(i)),
        names_have_rows(before, s.take(i)),
        names_distinct(before),
        0 <= i < s.len(),
        0 <= j < before.len(),
        before[j].name@ == s[i].name@,
        row.name@ == before[j].name@,
    ensures
        rows_named_from(before.update(j, row), s.take(i + 1)),
        names_have_rows(before.update(j, row), s.take(i + 1)),
        names_distinct(before.update(j, row)),
{
    reveal(rows_named_from);
    reveal(names_have_rows);
    reveal(names_distinct);
    let after = before.update(j, row);
    let pre = s.take(i);
    let post = s.take(i + 1);
    assert forall|k: int| 0 <= k < after.len() implies exists|q: int|
        0 <= q < post.len() && (#[trigger] post[q]).name@ == (#[trigger] after[k]).name@ by {
        let q = choose|q: int| 0 <= q < pre.len() && (#[trigger] pre[q]).name@ == before[k].name@;
        assert(post[q] == pre[q]);
    }
    assert forall|q: int| 0 <= q < post.len() implies exists|k: int|
        0 <= k < after.len() && (#[trigger] after[k]).name@ == (#[trigger] post[q]).name@ by {
        if q < i {
            assert(post[q] == pre[q]);
            let k = choose|k: int| 0 <= k < before.len() && (#[trigger] before[k]).name@ == pre[q].name@;
            assert(after[k].name@ == post[q].name@);
        } else {
            assert(after[j].name@ == post[q].name@);
        }
    }
    assert forall|a: int, b: int| 0 <= a < b < after.len() implies (#[trigger] after[a]).name@
        != (#[trigger] after[b]).name@ by {
        assert(after[a].name@ == before[a].name@ && after[b].name@ == before[b].name@);
    }
}

proof fn lemma_merge_step(before: Seq<ProcessRecord>, row: ProcessRecord, j: int, s: Seq<ProcessRecord>, i: int)
    requires
        0 <= i < s.len(),
        groups_of(before, s.take(i)),
        0 <= j < before.len(),
        before[j].name@ == s[i].name@,
        row.name@ == before[j].name@,
        row.pid == GROUP_PID,
        row.parent_pid is None,
        !row.actionable,
        metric(row, SortColumn::Cpu) as int == capped(metric(before[j], SortColumn::Cpu) + metric(s[i], SortColumn::Cpu)),
        metric(row, SortColumn::Mem) as int == capped(metric(before[j], SortColumn::Mem) + metric(s[i], SortColumn::Mem)),
        metric(row, SortColumn::ReadRate) as int == capped(metric(before[j], SortColumn::ReadRate) + metric(s[i], SortColumn::ReadRate)),
        metric(row, SortColumn::WriteRate) as int == capped(metric(before[j], SortColumn::WriteRate) + metric(s[i], SortColumn::WriteRate)),
    ensures
        groups_of(before.update(j, row), s.take(i + 1)),
{
    reveal(groups_of);
    lemma_merge_rows(before, row, j, s, i);
    lemma_merge_names(before, row, j, s, i);
}

#[verifier::rlimit(50)]
proof fn lemma_new_step(before: Seq<ProcessRecord>, row: ProcessRecord, s: Seq<ProcessRecord>, i: int)
    requires
        0 <= i < s.len(),
        groups_of(before, s.take(i)),
        forall|k: int| 0 <= k < before.len() ==> (#[trigger] before[k]).name@ != s[i].name@,
        row.name@ == s[i].name@,
        row.pid == GROUP_PID,
        row.parent_pid is None,
        !row.actionable,
        metric(row, SortColumn::Cpu) == metric(s[i], SortColumn::Cpu),
        metric(row, SortColumn::Mem) == metric(s[i], SortColumn::Mem),
        metric(row, SortColumn::ReadRate) == metric(s[i], SortColumn::ReadRate),
        metric(row, SortColumn::WriteRate) == metric(s[i], SortColumn::WriteRate),
    ensures
        groups_of(before.push(row), s.take(i + 1)),
{
    reveal(groups_of);
    reveal(all_group_rows);
    reveal(rows_named_from);
    reveal(names_have_rows);
    reveal(names_distinct);
    let pre = s.take(i);
    let post = s.take(i + 1);
    let after = before.push(row);
    assert forall|q: int| 0 <= q < pre.len() implies (#[trigger] pre[q]).name@ != row.name@ by {
        let w = choose|w: int| 0 <= w < before.len() && (#[trigger] before[w]).name@ == pre[q].name@;
        assert(before[w].name@ != s[i].name@);
    }
    assert forall|k: int| 0 <= k < after.len() implies is_group_row(#[trigger] after[k], post) by {
        assert forall|c: SortColumn| summed(c) implies #[trigger] metric(after[k], c) as int == capped(
            total(post, after[k].name@, c),
        ) by {
            lemma_total_push(s, i, after[k].name@, c);
            if k == before.len() {
                lemma_total_absent(pre, row.name@, c);
                match c {
                    SortColumn::Pid => {},
                    _ => {},
                }
            } else {
                assert(after[k] == before[k]);
                assert(is_group_row(before[k], pre));
            }
        }
    }
    assert forall|k: int| 0 <= k < after.len() implies exists|q: int|
        0 <= q < post.len() && (#[trigger] post[q]).name@ == (#[trigger] after[k]).name@ by {
        if k < before.len() {
            assert(after[k] == before[k]);
            let q = choose|q: int| 0 <= q < pre.len() && (#[trigger] pre[q]).name@ == before[k].name@;
            assert(post[q] == pre[q]);
        } else {
            assert(post[i] == s[i]);
        }
    }
    assert forall|q: int| 0 <= q < post.len() implies exists|k: int|
        0 <= k < after.len() && (#[trigger] after[k]).name@ == (#[trigger] post[q]).name@ by {
        if q < i {
            assert(post[q] == pre[q]);
            let k = choose|k: int| 0 <= k < before.len() && (#[trigger] before[k]).name@ == pre[q].name@;
            assert(after[k] == before[k]);
        } else {
            assert(after[before.len() as int].name@ == post[q].name@);
        }
    }
    assert forall|a: int, b: int| 0 <= a < b < after.len() implies (#[trigger] after[a]).name@
        != (#[trigger] after[b]).name@ by {
        assert(after[a] == before[a]);
        if b < before.len() {
            assert(after[b] == before[b]);
        }
    }
}

proof fn lemma_groups_empty(s: Seq<ProcessRecord>)
    ensures
        groups_of(Seq::empty(), s.take(0)),
{
    reveal(groups_of);
    reveal(all_group_rows);
    reveal(rows_named_from);
    reveal(names_have_rows);
    reveal(names_distinct);
}

/// One row per distinct name of the snapshot, in the order in which the names
/// first appear, each summing (capped at the largest `u64`) the cpu, memory and
/// I/O rates of the processes of that name, with the group pid and not
/// actionable.
pub fn group_by_name(s: &Vec<ProcessRecord>) -> (r: Vec<ProcessRecord>)
    ensures
        groups_of(r@, s@),
{
    let mut rows: Vec<ProcessRecord> = Vec::new();
    let mut i: usize = 0;
    proof {
        lemma_groups_empty(s@);
        assert(rows@ =~= Seq::<ProcessRecord>::empty());
    }
    while i < s.len()
        invariant
            0 <= i <= s@.len(),
            groups_of(rows@, s@.take(i as int)),
        decreases s@.len() - i,
    {
        let rec = &s[i];
        let mut j: usize = 0;
        while j < rows.len() && !(rows[j].name == rec.name)
            invariant
                0 <= j <= rows@.len(),
                forall|q: int| 0 <= q < j ==> (#[trigger] rows@[q]).name@ != rec.name@,
            decreases rows@.len() - j,
        {
            j = j + 1;
        }
        let ghost before = rows@;
        if j < rows.len() {
            let old_row = rows.remove(j);
            let row = ProcessRecord {
                pid: GROUP_PID,
                parent_pid: None,
                name: old_row.name,
                command: old_row.command,
                cpu: add_capped(old_row.cpu, rec.cpu),
                mem: add_capped(old_row.mem, rec.mem),
                read_rate: add_capped(old_row.read_rate, rec.read_rate),
                write_rate: add_capped(old_row.write_rate, rec.write_rate),
                actionable: false,
            };
            rows.insert(j, row);
            proof {
                assert(rows@ =~= before.update(j as int, row));
                lemma_merge_step(before, row, j as int, s@, i as int);
            }
        } else {
            let row = ProcessRecord {
                pid: GROUP_PID,
                parent_pid: None,
                name: rec.name.clone(),
                command: rec.name.clone(),
                cpu: rec.cpu,
                mem: rec.mem,
                read_rate: rec.read_rate,
                write_rate: rec.write_rate,
                actionable: false,
            };
            rows.push(row);
            proof {
                lemma_new_step(before, row, s@, i as int);
            }
        }
        i = i + 1;
    }
    assert(s@.take(s@.len() as int) =~= s@);
    rows
}

} // verus!
