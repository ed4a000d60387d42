//! The process groups to signal when a worker is cleaned up: the worker's own
//! group and the group of every process that descends from it in a process
//! table.
use vstd::prelude::*;
use vstd::set_lib::{lemma_int_range, lemma_len_subset, set_int_range};
use vstd::utf8::encode_utf8;

use crate::number::{parse_i32, parse_i32_bytes, parse_u32_bytes, parse_unsigned};

verus! {

/// A process table row: process id, parent process id and process group.
pub type ProcessRow = (u32, u32, i32);

/// The row that the whitespace-separated fields of a table line give: the
/// first three fields as process id, parent and group, when all three parse.
pub open spec fn row_of(fields: Seq<Seq<char>>) -> Option<ProcessRow> {
    if fields.len() < 3 {
        None
    } else {
        match (
            parse_unsigned(encode_utf8(fields[0]), u32::MAX as nat),
            parse_unsigned(encode_utf8(fields[1]), u32::MAX as nat),
            parse_i32(encode_utf8(fields[2])),
        ) {
            (Some(p), Some(q), Some(g)) => Some((p as u32, q as u32, g as i32)),
            _ => None,
        }
    }
}

/// The rows of the lines of a table, skipping lines that give none.
pub open spec fn rows_of(lines: Seq<Seq<Seq<char>>>) -> Seq<ProcessRow>
    decreases lines.len(),
{
    if lines.len() == 0 {
        Seq::empty()
    } else {
        let rest = rows_of(lines.drop_last());
        match row_of(lines.last()) {
            Some(r) => rest.push(r),
            None => rest,
        }
    }
}

/// The texts of the fields of each line.
pub open spec fn fields_view(lines: Seq<Vec<String>>) -> Seq<Seq<Seq<char>>> {
    lines.map_values(|l: Vec<String>| l@.map_values(|f: String| f@))
}

/// The row that the fields of one table line give.
pub fn process_row(fields: &Vec<String>) -> (r: Option<ProcessRow>)
    ensures
        r == row_of(fields@.map_values(|f: String| f@)),
{
    if fields.len() < 3 {
        return None;
    }
    let ghost v = fields@.map_values(|f: String| f@);
    assert(v[0] == fields@[0]@ && v[1] == fields@[1]@ && v[2] == fields@[2]@);
    let p = parse_u32_bytes(fields[0].as_str().as_bytes());
    let q = parse_u32_bytes(fields[1].as_str().as_bytes());
    let g = parse_i32_bytes(fields[2].as_str().as_bytes());
    match (p, q, g) {
        (Some(p), Some(q), Some(g)) => Some((p, q, g)),
        _ => None,
    }
}

/// The rows of a table split into lines of fields.
pub fn process_table(lines: &Vec<Vec<String>>) -> (r: Vec<ProcessRow>)
    ensures
        r@ == rows_of(fields_view(lines@)),
{
    let mut out: Vec<ProcessRow> = Vec::new();
    let mut i: usize = 0;
    assert(fields_view(lines@).subrange(0, 0) =~= Seq::<Seq<Seq<char>>>::empty());
    while i < lines.len()
        invariant
            i <= lines.len(),
            out@ == rows_of(fields_view(lines@).subrange(0, i as int)),
        decreases lines.len() - i,
    {
        let ghost pre = fields_view(lines@).subrange(0, i + 1);
        assert(pre.drop_last() =~= fields_view(lines@).subrange(0, i as int));
        assert(pre.last() == lines@[i as int]@.map_values(|f: String| f@));
        match process_row(&lines[i]) {
            Some(row) => out.push(row),
            None => {},
        }
        i = i + 1;
    }
    assert(fields_view(lines@).subrange(0, lines.len() as int) =~= fields_view(lines@));
    out
}

/// `d` lists descendants of `root` in `table`, each brought in by the row
/// `by[k]` whose parent was listed before it.
pub open spec fn descendant_chain(table: Seq<ProcessRow>, root: u32, d: Seq<u32>, by: Seq<int>) -> bool {
    &&& d.len() >= 1
    &&& d[0] == root
    &&& by.len() == d.len()
    &&& d.no_duplicates()
    &&& forall|k: int|
        1 <= k < d.len() ==> 0 <= #[trigger] by[k] < table.len() && table[by[k]].0 == d[k]
            && d.subrange(0, k).contains(table[by[k]].1)
}

/// Every row whose parent is in `d` has its process in `d`.
pub open spec fn closed_under_children(table: Seq<ProcessRow>, d: Seq<u32>) -> bool {
    forall|i: int| 0 <= i < table.len() && d.contains(#[trigger] table[i].1) ==> d.contains(table[i].0)
}

/// The groups to signal: the root's own, and the group above 1 of each row
/// that brought in a descendant.
pub open spec fn chain_groups(table: Seq<ProcessRow>, root: u32, d: Seq<u32>, by: Seq<int>) -> Set<i32> {
    set![root as i32].union(
        Set::new(|g: i32| exists|k: int| 1 <= k < d.len() && #[trigger] table[by[k]].2 == g && g > 1),
    )
}

fn contains_u32(v: &Vec<u32>, x: u32) -> (r: bool)
    ensures
        r == v@.contains(x),
{
    let mut i: usize = 0;
    while i < v.len()
        invariant
            i <= v.len(),
            forall|j: int| 0 <= j < i ==> v@[j] != x,
        decreases v.len() - i,
    {
        if v[i] == x {
            return true;
        }
        i = i + 1;
    }
    false
}

fn contains_i32(v: &Vec<i32>, x: i32) -> (r: bool)
    ensures
        r == v@.contains(x),
{
    let mut i: usize = 0;
    while i < v.len()
        invariant
            i <= v.len(),
            forall|j: int| 0 <= j < i ==> v@[j] != x,
        decreases v.len() - i,
    {
        if v[i] == x {
            return true;
        }
        i = i + 1;
    }
    false
}

/// The process groups of `root` and of everything descending from it in
/// `table`, each once: the root's own number as a group, and every group above
/// 1 of a row that brings a new descendant in, repeated over the table until
/// no row adds one.
pub fn process_tree_groups(root: u32, table: &Vec<ProcessRow>) -> (r: Vec<i32>)
    ensures
        r@.no_duplicates(),
        exists|d: Seq<u32>, by: Seq<int>|
            #[trigger] descendant_chain(table@, root, d, by) && closed_under_children(table@, d)
                && r@.to_set() == chain_groups(table@, root, d, by),
{
    let mut desc: Vec<u32> = Vec::new();
    desc.push(root);
    let mut groups: Vec<i32> = Vec::new();
    groups.push(root as i32);
    let ghost mut by: Seq<int> = seq![0int];
    let ghost mut rows: Set<int> = Set::empty();
    proof {
        lemma_int_range(0, table@.len() as int);
        assert(desc@.no_duplicates());
        assert(groups@.to_set() =~= chain_groups(table@, root, desc@, by)) by {
            assert forall|g: i32| chain_groups(table@, root, desc@, by).contains(g) implies groups@.to_set().contains(g) by {
                assert(g == root as i32);
                assert(groups@[0] == g);
            }
        }
    }
    loop
        invariant
            descendant_chain(table@, root, desc@, by),
            groups@.no_duplicates(),
            groups@.to_set() == chain_groups(table@, root, desc@, by),
            rows.finite(),
            rows.len() + 1 == desc@.len(),
            rows.subset_of(set_int_range(0, table@.len() as int)),
            set_int_range(0, table@.len() as int).finite(),
            set_int_range(0, table@.len() as int).len() == table@.len(),
            forall|r: int| rows.contains(r) ==> desc@.contains(#[trigger] table@[r].0),
        ensures
            descendant_chain(table@, root, desc@, by),
            closed_under_children(table@, desc@),
            groups@.no_duplicates(),
            groups@.to_set() == chain_groups(table@, root, desc@, by),
        decreases table@.len() + 1 - desc@.len(),
    {
        proof {
            lemma_len_subset(rows, set_int_range(0, table@.len() as int));
        }
        let ghost start_len = desc@.len();
        let mut changed = false;
        let mut i: usize = 0;
        while i < table.len()
            invariant
                i <= table.len(),
                descendant_chain(table@, root, desc@, by),
                groups@.no_duplicates(),
                groups@.to_set() == chain_groups(table@, root, desc@, by),
                rows.finite(),
                rows.len() + 1 == desc@.len(),
                rows.subset_of(set_int_range(0, table@.len() as int)),
                forall|r: int| rows.contains(r) ==> desc@.contains(#[trigger] table@[r].0),
                changed ==> desc@.len() > start_len,
                !changed ==> desc@.len() == start_len,
                !changed ==> forall|j: int|
                    0 <= j < i && desc@.contains(#[trigger] table@[j].1) ==> desc@.contains(table@[j].0),
            decreases table.len() - i,
        {
            let (pid, parent, group) = table[i];
            if contains_u32(&desc, parent) && !contains_u32(&desc, pid) {
                let ghost old_desc = desc@;
                let ghost old_groups = groups@;
                let ghost old_by = by;
                proof {
                    assert(!rows.contains(i as int));
                    rows = rows.insert(i as int);
                    by = by.push(i as int);
                }
                desc.push(pid);
                if group > 1 && !contains_i32(&groups, group) {
                    groups.push(group);
                }
                proof {
                    let k = old_desc.len() as int;
                    assert(desc@.subrange(0, k) =~= old_desc);
                    assert forall|j: int| 1 <= j < desc@.len() implies 0 <= #[trigger] by[j] < table@.len()
                        && table@[by[j]].0 == desc@[j] && desc@.subrange(0, j).contains(table@[by[j]].1) by {
                        if j < k {
                            assert(by[j] == old_by[j]);
                            assert(desc@[j] == old_desc[j]);
                            assert(desc@.subrange(0, j) =~= old_desc.subrange(0, j));
                        }
                    }
                    assert forall|a: int, b: int| 0 <= a < desc@.len() && 0 <= b < desc@.len() && a != b implies desc@[a] != desc@[b] by {
                        if a < k && b < k {
                            assert(desc@[a] == old_desc[a] && desc@[b] == old_desc[b]);
                        } else if a < k {
                            assert(desc@[a] == old_desc[a]);
                        } else if b < k {
                            assert(desc@[b] == old_desc[b]);
                        }
                    }
                    assert forall|r: int| rows.contains(r) implies desc@.contains(#[trigger] table@[r].0) by {
                        if r != i {
                            let w = choose|w: int| 0 <= w < old_desc.len() && old_desc[w] == table@[r].0;
                            assert(desc@[w] == old_desc[w]);
                        } else {
                            assert(desc@[k] == pid);
                        }
                    }
                    let newset = Set::new(|g: i32| exists|j: int| 1 <= j < desc@.len() && #[trigger] table@[by[j]].2 == g && g > 1);
                    let oldset = Set::new(|g: i32| exists|j: int| 1 <= j < old_desc.len() && #[trigger] table@[old_by[j]].2 == g && g > 1);
                    assert(groups@.to_set() =~= chain_groups(table@, root, desc@, by)) by {
                        assert forall|g: i32| #[trigger] groups@.to_set().contains(g) == chain_groups(table@, root, desc@, by).contains(g) by {
                            if newset.contains(g) && !oldset.contains(g) {
                                let j = choose|j: int| 1 <= j < desc@.len() && #[trigger] table@[by[j]].2 == g && g > 1;
                                if j < k {
                                    assert(table@[old_by[j]].2 == g);
                                    assert(oldset.contains(g));
                                }
                                assert(j == k);
                                assert(g == group);
                                if old_groups.contains(g) {
                                } else {
                                    assert(groups@[groups@.len() - 1] == g);
                                }
                            }
                            if oldset.contains(g) {
                                let j = choose|j: int| 1 <= j < old_desc.len() && #[trigger] table@[old_by[j]].2 == g && g > 1;
                                assert(table@[by[j]].2 == g);
                                assert(newset.contains(g));
                            }
                            if groups@.to_set().contains(g) && !old_groups.to_set().contains(g) {
                                assert(g == group && group > 1);
                                assert(table@[by[k]].2 == g);
                                assert(newset.contains(g));
                            }
                            if old_groups.to_set().contains(g) {
                                let w = choose|w: int| 0 <= w < old_groups.len() && old_groups[w] == g;
                                assert(groups@[w] == g);
                            }
                        }
                    }
                    if group > 1 && !old_groups.contains(group) {
                        assert forall|a: int, b: int| 0 <= a < groups@.len() && 0 <= b < groups@.len() && a != b implies groups@[a] != groups@[b] by {
                            if a < old_groups.len() && b < old_groups.len() {
                                assert(groups@[a] == old_groups[a] && groups@[b] == old_groups[b]);
                            } else if a < old_groups.len() {
                                assert(groups@[a] == old_groups[a]);
                            } else if b < old_groups.len() {
                                assert(groups@[b] == old_groups[b]);
                            }
                        }
                    }
                }
                changed = true;
            }
            i = i + 1;
        }
        proof {
            lemma_len_subset(rows, set_int_range(0, table@.len() as int));
        }
        if !changed {
            break;
        }
    }
    groups
}

/// A process table row with the process's start time: process id, parent,
/// group and start stamp.
pub type StampedRow = (u32, u32, i32, String);

/// The view of a stamped row.
pub type StampedView = (u32, u32, i32, Seq<char>);

/// A remembered process: id, group and start stamp.
pub type KnownView = (u32, i32, Seq<char>);

/// Fields joined with single spaces.
pub open spec fn joined(fs: Seq<Seq<char>>) -> Seq<char>
    decreases fs.len(),
{
    if fs.len() == 0 {
        Seq::empty()
    } else if fs.len() == 1 {
        fs[0]
    } else {
        joined(fs.drop_last()) + " "@ + fs.last()
    }
}

/// The stamped row that the fields of a table line give: the row of its first
/// three fields, with the remaining fields, joined with single spaces, as the
/// start stamp.
pub open spec fn stamped_row_of(fields: Seq<Seq<char>>) -> Option<StampedView> {
    match row_of(fields) {
        Some(r) => Some((r.0, r.1, r.2, joined(fields.subrange(3, fields.len() as int)))),
        None => None,
    }
}

/// The stamped row that the fields of one table line give.
pub fn stamped_row(fields: &Vec<String>) -> (r: Option<StampedRow>)
    ensures
        match r {
            Some(x) => stamped_row_of(fields@.map_values(|f: String| f@)) == Some(
                (x.0, x.1, x.2, x.3@),
            ),
            None => stamped_row_of(fields@.map_values(|f: String| f@)) is None,
        },
{
    let row = match process_row(fields) {
        Some(row) => row,
        None => {
            return None;
        },
    };
    let ghost v = fields@.map_values(|f: String| f@);
    proof {
        reveal_strlit(" ");
    }
    let mut stamp = String::new();
    let mut i: usize = 3;
    assert(v.subrange(3, 3) =~= Seq::<Seq<char>>::empty());
    while i < fields.len()
        invariant
            3 <= i <= fields.len(),
            v == fields@.map_values(|f: String| f@),
            stamp@ == joined(v.subrange(3, i as int)),
        decreases fields.len() - i,
    {
        let ghost before = stamp@;
        if i > 3 {
            stamp.append(" ");
        }
        stamp.append(fields[i].as_str());
        proof {
            let w = v.subrange(3, i + 1);
            assert(w.drop_last() =~= v.subrange(3, i as int));
            assert(w.last() == fields@[i as int]@);
            if i == 3 {
                assert(w.len() == 1);
                assert(stamp@ =~= w[0]);
            } else {
                assert(stamp@ =~= before + " "@ + w.last());
            }
        }
        i = i + 1;
    }
    assert(v.subrange(3, fields.len() as int) =~= v.subrange(3, v.len() as int));
    Some((row.0, row.1, row.2, stamp))
}

/// The views of stamped rows.
pub open spec fn stamped_view(t: Seq<StampedRow>) -> Seq<StampedView> {
    t.map_values(|r: StampedRow| (r.0, r.1, r.2, r.3@))
}

/// The views of remembered processes.
pub open spec fn known_view(k: Seq<(u32, i32, String)>) -> Seq<KnownView> {
    k.map_values(|e: (u32, i32, String)| (e.0, e.1, e.2@))
}

/// A remembered process is still in the table with the same group and stamp.
pub open spec fn still_present(e: KnownView, t: Seq<StampedView>) -> bool {
    exists|i: int| 0 <= i < t.len() && #[trigger] t[i].0 == e.0 && t[i].2 == e.1 && t[i].3 == e.2
}

/// The remembered processes still present, in order.
pub open spec fn retained(k: Seq<KnownView>, t: Seq<StampedView>) -> Seq<KnownView>
    decreases k.len(),
{
    if k.len() == 0 {
        Seq::empty()
    } else {
        let rest = retained(k.drop_last(), t);
        if still_present(k.last(), t) {
            rest.push(k.last())
        } else {
            rest
        }
    }
}

/// The stamp of the first row of process `root`.
pub open spec fn first_stamp(t: Seq<StampedView>, root: u32) -> Option<Seq<char>>
    decreases t.len(),
{
    if t.len() == 0 {
        None
    } else if t[0].0 == root {
        Some(t[0].3)
    } else {
        first_stamp(t.drop_first(), root)
    }
}

/// The root's stamp kept from the first refresh that saw it.
pub open spec fn kept_stamp(old: Option<Seq<char>>, t: Seq<StampedView>, root: u32) -> Option<Seq<char>> {
    if old is None {
        first_stamp(t, root)
    } else {
        old
    }
}

/// The root is the process first seen, by its start stamp.
pub open spec fn root_matches(old: Option<Seq<char>>, t: Seq<StampedView>, root: u32) -> bool {
    first_stamp(t, root) is Some && first_stamp(t, root) == kept_stamp(old, t, root)
}

/// A row to remember given the remembered ancestors `anc`: the root itself
/// when it matches, or a child of an ancestor, in a group above 1 and with a
/// stamp.
pub open spec fn qualifies(row: StampedView, anc: Set<u32>, root: u32, rm: bool) -> bool {
    ((row.0 == root && rm) || anc.contains(row.1)) && row.2 > 1 && row.3.len() > 0
}

/// The position of process `pid` among remembered processes, or -1.
pub open spec fn known_index(k: Seq<KnownView>, pid: u32) -> int
    decreases k.len(),
{
    if k.len() == 0 {
        -1
    } else if k.last().0 == pid {
        k.len() - 1
    } else {
        known_index(k.drop_last(), pid)
    }
}

/// Remembers `e`, replacing what was remembered of the same process.
pub open spec fn upsert(k: Seq<KnownView>, e: KnownView) -> Seq<KnownView> {
    let i = known_index(k, e.0);
    if i >= 0 {
        k.update(i, e)
    } else {
        k.push(e)
    }
}

/// Remembers every qualifying row of `t` in order, a later row of a process
/// replacing an earlier one.
pub open spec fn record_all(k: Seq<KnownView>, t: Seq<StampedView>, anc: Set<u32>, root: u32, rm: bool) -> Seq<KnownView>
    decreases t.len(),
{
    if t.len() == 0 {
        k
    } else {
        let prev = record_all(k, t.drop_last(), anc, root, rm);
        if qualifies(t.last(), anc, root, rm) {
            upsert(prev, (t.last().0, t.last().2, t.last().3))
        } else {
            prev
        }
    }
}

/// The ancestors a refresh starts from: every remembered process still
/// present, and the root when it matches.
pub open spec fn seeded(anc: Seq<u32>, k: Seq<KnownView>, root: u32, rm: bool) -> bool {
    &&& forall|i: int| 0 <= i < k.len() ==> anc.contains(#[trigger] k[i].0)
    &&& rm ==> anc.contains(root)
}

/// The process ids of remembered processes.
pub open spec fn pids(k: Seq<KnownView>) -> Seq<u32> {
    k.map_values(|e: KnownView| e.0)
}

/// Each ancestor is a seed or the process of a row that qualifies given the
/// ancestors listed before it.
pub open spec fn justified(anc: Seq<u32>, k: Seq<KnownView>, t: Seq<StampedView>, root: u32, rm: bool) -> bool {
    &&& anc.no_duplicates()
    &&& forall|j: int|
        0 <= j < anc.len() ==> pids(k).contains(#[trigger] anc[j]) || (rm && anc[j] == root) || exists|i: int|
            0 <= i < t.len() && t[i].0 == anc[j] && #[trigger] qualifies(t[i], anc.subrange(0, j).to_set(), root, rm)
}

/// No row qualifying given `anc` names a process outside it.
pub open spec fn anc_closed(anc: Seq<u32>, t: Seq<StampedView>, root: u32, rm: bool) -> bool {
    forall|i: int| 0 <= i < t.len() && #[trigger] qualifies(t[i], anc.to_set(), root, rm) ==> anc.contains(t[i].0)
}

/// `after` is what a refresh from `before` and `old_stamp` remembers given
/// table `t`, with `anc` the ancestors it reached: the retained processes
/// seed it, it is closed under qualifying rows, and every qualifying row is
/// recorded in order.
pub open spec fn refreshed(
    anc: Seq<u32>,
    before: Seq<KnownView>,
    old_stamp: Option<Seq<char>>,
    t: Seq<StampedView>,
    root: u32,
    after: Seq<KnownView>,
) -> bool {
    let k = retained(before, t);
    let rm = root_matches(old_stamp, t, root);
    &&& justified(anc, k, t, root, rm)
    &&& seeded(anc, k, root, rm)
    &&& anc_closed(anc, t, root, rm)
    &&& after == record_all(k, t, anc.to_set(), root, rm)
}

/// Remembers the descendants of a worker by process id and start time across
/// refreshes, so that a process that left the worker's tree is still found
/// while it lives, and a reused process id is never mistaken for it.
pub struct ProcessRegistry {
    known: Vec<(u32, i32, String)>,
    root_stamp: Option<String>,
}

impl ProcessRegistry {
    /// The remembered processes.
    pub closed spec fn known(&self) -> Seq<KnownView> {
        known_view(self.known@)
    }

    /// The root's start stamp, once seen.
    pub closed spec fn root_stamp(&self) -> Option<Seq<char>> {
        match self.root_stamp {
            Some(s) => Some(s@),
            None => None,
        }
    }

    /// A registry that remembers nothing.
    pub fn new() -> (r: ProcessRegistry)
        ensures
            r.known() == Seq::<KnownView>::empty(),
            r.root_stamp() is None,
    {
        let r = ProcessRegistry { known: Vec::new(), root_stamp: None };
        assert(known_view(r.known@) =~= Seq::<KnownView>::empty());
        r
    }

    /// The groups of the remembered processes, each once.
    pub fn groups(&self) -> (r: Vec<i32>)
        ensures
            r@.no_duplicates(),
            r@.to_set() == self.known().map_values(|e: KnownView| e.1).to_set(),
    {
        let ghost gs = self.known().map_values(|e: KnownView| e.1);
        let mut out: Vec<i32> = Vec::new();
        let mut i: usize = 0;
        while i < self.known.len()
            invariant
                i <= self.known.len(),
                gs == known_view(self.known@).map_values(|e: KnownView| e.1),
                out@.no_duplicates(),
                out@.to_set() == gs.subrange(0, i as int).to_set(),
            decreases self.known.len() - i,
        {
            let g = self.known[i].1;
            assert(gs[i as int] == g);
            let ghost before = out@;
            if !contains_i32(&out, g) {
                out.push(g);
                proof {
                    assert forall|a: int, b: int| 0 <= a < out@.len() && 0 <= b < out@.len() && a != b implies out@[a] != out@[b] by {
                        if a < before.len() && b < before.len() {
                            assert(out@[a] == before[a] && out@[b] == before[b]);
                        } else if a < before.len() {
                            assert(out@[a] == before[a]);
                        } else if b < before.len() {
                            assert(out@[b] == before[b]);
                        }
                    }
                }
            }
            proof {
                assert(gs.subrange(0, i + 1) =~= gs.subrange(0, i as int).push(g));
                gs.subrange(0, i as int).lemma_push_to_set_commute(g);
                if before.contains(g) {
                    assert(out@ == before);
                    assert(before.to_set().insert(g) =~= before.to_set());
                } else {
                    before.lemma_push_to_set_commute(g);
                }
            }
            i = i + 1;
        }
        assert(gs.subrange(0, self.known.len() as int) =~= gs);
        out
    }

    /// Whether the row qualifies given the ancestors `anc`.
    fn row_qualifies(row: &StampedRow, anc: &Vec<u32>, root: u32, rm: bool) -> (r: bool)
        ensures
            r == qualifies((row.0, row.1, row.2, row.3@), anc@.to_set(), root, rm),
    {
        ((row.0 == root && rm) || contains_u32(anc, row.1)) && row.2 > 1 && !row.3.as_str().is_empty()
    }

    /// Refreshes the registry from a process table read now: forgets processes
    /// gone or changed, keeps the root's first stamp, and remembers every
    /// process in a group above 1 descending from a remembered process or
    /// from the root while the root is the process first seen.
    pub fn refresh(&mut self, root: u32, table: &Vec<StampedRow>)
        ensures
            final(self).root_stamp() == kept_stamp(old(self).root_stamp(), stamped_view(table@), root),
            exists|anc: Seq<u32>|
                #[trigger] refreshed(
                    anc,
                    old(self).known(),
                    old(self).root_stamp(),
                    stamped_view(table@),
                    root,
                    final(self).known(),
                ),
    {
        let ghost t = stamped_view(table@);
        let ghost old_known = self.known();
        let ghost old_stamp = self.root_stamp();
        // Forget what is gone.
        let mut kept: Vec<(u32, i32, String)> = Vec::new();
        let mut i: usize = 0;
        while i < self.known.len()
            invariant
                i <= self.known.len(),
                t == stamped_view(table@),
                old_known == known_view(self.known@),
                known_view(kept@) == retained(old_known.subrange(0, i as int), t),
            decreases self.known.len() - i,
        {
            let ghost pre = old_known.subrange(0, i + 1);
            assert(pre.drop_last() =~= old_known.subrange(0, i as int));
            let e = &self.known[i];
            let mut present = false;
            let mut j: usize = 0;
            while j < table.len()
                invariant
                    j <= table.len(),
                    t == stamped_view(table@),
                    present ==> still_present((e.0, e.1, e.2@), t),
                    !present ==> forall|x: int| 0 <= x < j ==> !(#[trigger] t[x].0 == e.0 && t[x].2 == e.1 && t[x].3 == e.2@),
                decreases table.len() - j,
            {
                assert(t[j as int] == (table@[j as int].0, table@[j as int].1, table@[j as int].2, table@[j as int].3@));
                if table[j].0 == e.0 && table[j].2 == e.1 && crate::json::str_eq(table[j].3.as_str(), e.2.as_str()) {
                    assert(t[j as int].0 == e.0 && t[j as int].2 == e.1 && t[j as int].3 == e.2@);
                    present = true;
                }
                j = j + 1;
            }
            assert(pre.last() == (e.0, e.1, e.2@));
            if present {
                let ghost before = known_view(kept@);
                kept.push((e.0, e.1, e.2.clone()));
                assert(known_view(kept@) =~= before.push((e.0, e.1, e.2@)));
            }
            i = i + 1;
        }
        assert(old_known.subrange(0, self.known.len() as int) =~= old_known);
        // The root's stamp now, and the one first seen.
        let mut current: Option<String> = None;
        let mut j: usize = 0;
        assert(t.skip(0) =~= t);
        while j < table.len()
            invariant
                j <= table.len(),
                t == stamped_view(table@),
                current is None ==> first_stamp(t, root) == first_stamp(t.skip(j as int), root),
                current matches Some(c) ==> first_stamp(t, root) == Some(c@),
            decreases table.len() - j,
        {
            assert(t.skip(j as int).drop_first() =~= t.skip(j + 1));
            assert(t.skip(j as int)[0] == t[j as int]);
            if current.is_none() && table[j].0 == root {
                current = Some(table[j].3.clone());
            }
            j = j + 1;
        }
        assert(t.skip(table.len() as int).len() == 0);
        if self.root_stamp.is_none() {
            self.root_stamp = match &current {
                Some(c) => Some(c.clone()),
                None => None,
            };
        }
        let rm = match (&current, &self.root_stamp) {
            (Some(c), Some(k)) => crate::json::str_eq(c.as_str(), k.as_str()),
            _ => false,
        };
        let ghost k = retained(old_known, t);
        assert(rm == root_matches(old_stamp, t, root));
        // The ancestors: the seeds, then everything reachable from them.
        let mut anc: Vec<u32> = Vec::new();
        let ghost mut src: Seq<int> = Seq::empty();
        let mut i: usize = 0;
        while i < kept.len()
            invariant
                i <= kept.len(),
                known_view(kept@) == k,
                anc@.no_duplicates(),
                forall|x: int| 0 <= x < i ==> anc@.contains(#[trigger] k[x].0),
                src.len() == anc@.len(),
                forall|y: int| 0 <= y < anc@.len() ==> 0 <= #[trigger] src[y] < k.len() && k[src[y]].0 == anc@[y],
            decreases kept.len() - i,
        {
            assert(k[i as int].0 == kept@[i as int].0);
            if !contains_u32(&anc, kept[i].0) {
                let ghost before = anc@;
                let ghost before_src = src;
                anc.push(kept[i].0);
                proof {
                    src = src.push(i as int);
                    assert forall|x: int| 0 <= x <= i implies anc@.contains(#[trigger] k[x].0) by {
                        if x < i {
                            let w = choose|w: int| 0 <= w < before.len() && before[w] == k[x].0;
                            assert(anc@[w] == before[w]);
                        } else {
                            assert(anc@[before.len() as int] == k[x].0);
                        }
                    }
                    assert forall|y: int| 0 <= y < anc@.len() implies 0 <= #[trigger] src[y] < k.len() && k[src[y]].0 == anc@[y] by {
                        if y < before.len() {
                            assert(anc@[y] == before[y]);
                            assert(src[y] == before_src[y]);
                        }
                    }
                    assert(anc@.no_duplicates()) by {
                        assert forall|a: int, b: int| 0 <= a < anc@.len() && 0 <= b < anc@.len() && a != b implies anc@[a] != anc@[b] by {
                            if a < before.len() && b < before.len() {
                                assert(anc@[a] == before[a] && anc@[b] == before[b]);
                            } else if a < before.len() {
                                assert(anc@[a] == before[a]);
                            } else if b < before.len() {
                                assert(anc@[b] == before[b]);
                            }
                        }
                    }
                }
            }
            i = i + 1;
        }
        assert(k.len() == kept@.len());
        if rm && !contains_u32(&anc, root) {
            let ghost before = anc@;
            let ghost before_src = src;
            anc.push(root);
            proof {
                src = src.push(-1);
                assert forall|x: int| 0 <= x < k.len() implies anc@.contains(#[trigger] k[x].0) by {
                    assert(before.contains(k[x].0));
                    let w = choose|w: int| 0 <= w < before.len() && before[w] == k[x].0;
                    assert(anc@[w] == before[w]);
                }
                assert forall|a: int, b: int| 0 <= a < anc@.len() && 0 <= b < anc@.len() && a != b implies anc@[a] != anc@[b] by {
                    if a < before.len() && b < before.len() {
                        assert(anc@[a] == before[a] && anc@[b] == before[b]);
                    } else if a < before.len() {
                        assert(anc@[a] == before[a]);
                    } else if b < before.len() {
                        assert(anc@[b] == before[b]);
                    }
                }
                assert forall|y: int| 0 <= y < anc@.len() implies (0 <= #[trigger] src[y] < k.len() && k[src[y]].0 == anc@[y]) || (src[y] == -1 && rm && anc@[y] == root) by {
                    if y < before.len() {
                        assert(anc@[y] == before[y]);
                        assert(src[y] == before_src[y]);
                    }
                }
                assert(anc@[before.len() as int] == root);
            }
        }
        assert forall|y: int| #![trigger anc@[y]] 0 <= y < anc@.len() implies pids(k).contains(anc@[y]) || (rm && anc@[y] == root) by {
            if 0 <= src[y] < k.len() && k[src[y]].0 == anc@[y] {
                assert(pids(k)[src[y]] == anc@[y]);
            }
        }
        assert(anc@.no_duplicates());
        assert(forall|y: int| #![trigger anc@[y]] 0 <= y < anc@.len() ==> pids(k).contains(anc@[y]) || (rm && anc@[y] == root));
        assert(seeded(anc@, k, root, rm));
        assert(anc@.len() <= k.len() + 1) by {
            lemma_distinct_seeds_bound(anc@, k, root, rm);
        }
        assert(justified(anc@, k, t, root, rm));
        let ghost mut rows: Set<int> = Set::empty();
        let ghost seeds = anc@.len();
        proof {
            lemma_int_range(0, t.len() as int);
        }
        loop
            invariant
                t == stamped_view(table@),
                seeded(anc@, k, root, rm),
                justified(anc@, k, t, root, rm),
                rows.finite(),
                rows.len() + seeds == anc@.len(),
                seeds <= k.len() + 1,
                rows.subset_of(set_int_range(0, t.len() as int)),
                set_int_range(0, t.len() as int).finite(),
                set_int_range(0, t.len() as int).len() == t.len(),
                forall|r: int| rows.contains(r) ==> anc@.contains(#[trigger] t[r].0),
            ensures
                seeded(anc@, k, root, rm),
                justified(anc@, k, t, root, rm),
                anc_closed(anc@, t, root, rm),
            decreases t.len() + seeds - anc@.len(),
        {
            proof {
                lemma_len_subset(rows, set_int_range(0, t.len() as int));
            }
            let ghost start_len = anc@.len();
            let mut changed = false;
            let mut i: usize = 0;
            while i < table.len()
                invariant
                    i <= table.len(),
                    t == stamped_view(table@),
                    seeded(anc@, k, root, rm),
                    justified(anc@, k, t, root, rm),
                    rows.finite(),
                    rows.len() + seeds == anc@.len(),
                    rows.subset_of(set_int_range(0, t.len() as int)),
                    forall|r: int| rows.contains(r) ==> anc@.contains(#[trigger] t[r].0),
                    changed ==> anc@.len() > start_len,
                    !changed ==> anc@.len() == start_len,
                    !changed ==> forall|x: int| 0 <= x < i && #[trigger] qualifies(t[x], anc@.to_set(), root, rm) ==> anc@.contains(t[x].0),
                decreases table.len() - i,
            {
                assert(t[i as int] == (table@[i as int].0, table@[i as int].1, table@[i as int].2, table@[i as int].3@));
                assert(t[i as int].0 == table@[i as int].0);
                if Self::row_qualifies(&table[i], &anc, root, rm) && !contains_u32(&anc, table[i].0) {
                    let ghost before = anc@;
                    proof {
                        assert(!rows.contains(i as int));
                        rows = rows.insert(i as int);
                    }
                    anc.push(table[i].0);
                    proof {
                        let n = before.len() as int;
                        assert(anc@.subrange(0, n) =~= before);
                        assert forall|x: int| 0 <= x < k.len() implies anc@.contains(#[trigger] k[x].0) by {
                            let w = choose|w: int| 0 <= w < before.len() && before[w] == k[x].0;
                            assert(anc@[w] == before[w]);
                        }
                        if rm {
                            let w = choose|w: int| 0 <= w < before.len() && before[w] == root;
                            assert(anc@[w] == before[w]);
                        }
                        assert forall|a: int, b: int| 0 <= a < anc@.len() && 0 <= b < anc@.len() && a != b implies anc@[a] != anc@[b] by {
                            if a < n && b < n {
                                assert(anc@[a] == before[a] && anc@[b] == before[b]);
                            } else if a < n {
                                assert(anc@[a] == before[a]);
                            } else if b < n {
                                assert(anc@[b] == before[b]);
                            }
                        }
                        assert forall|y: int| #![trigger anc@[y]] 0 <= y < anc@.len() implies pids(k).contains(anc@[y]) || (rm && anc@[y] == root) || exists|x: int| 0 <= x < t.len() && t[x].0 == anc@[y] && #[trigger] qualifies(t[x], anc@.subrange(0, y).to_set(), root, rm) by {
                            if y < n {
                                assert(anc@[y] == before[y]);
                                assert(anc@.subrange(0, y) =~= before.subrange(0, y));
                            } else {
                                assert(anc@.subrange(0, y) =~= before);
                                assert(t[i as int].0 == anc@[y]);
                            }
                        }
                        assert forall|r: int| rows.contains(r) implies anc@.contains(#[trigger] t[r].0) by {
                            if r != i {
                                let w = choose|w: int| 0 <= w < before.len() && before[w] == t[r].0;
                                assert(anc@[w] == before[w]);
                            } else {
                                assert(anc@[n] == t[r].0);
                            }
                        }
                    }
                    changed = true;
                }
                i = i + 1;
            }
            proof {
                lemma_len_subset(rows, set_int_range(0, t.len() as int));
            }
            if !changed {
                break;
            }
        }
        // Remember every qualifying row, a later one replacing an earlier.
        let mut i: usize = 0;
        assert(t.subrange(0, 0) =~= Seq::<StampedView>::empty());
        while i < table.len()
            invariant
                i <= table.len(),
                t == stamped_view(table@),
                known_view(kept@) == record_all(k, t.subrange(0, i as int), anc@.to_set(), root, rm),
            decreases table.len() - i,
        {
            let ghost pre = t.subrange(0, i + 1);
            assert(pre.drop_last() =~= t.subrange(0, i as int));
            assert(pre.last() == (table@[i as int].0, table@[i as int].1, table@[i as int].2, table@[i as int].3@));
            if Self::row_qualifies(&table[i], &anc, root, rm) {
                upsert_exec(&mut kept, table[i].0, table[i].2, table[i].3.clone());
            }
            i = i + 1;
        }
        assert(t.subrange(0, table.len() as int) =~= t);
        self.known = kept;
        assert(refreshed(anc@, old_known, old_stamp, t, root, self.known()));
    }
}

/// Distinct seeds are at most the remembered processes and the root.
proof fn lemma_distinct_seeds_bound(anc: Seq<u32>, k: Seq<KnownView>, root: u32, rm: bool)
    requires
        anc.no_duplicates(),
        forall|y: int| #![trigger anc[y]] 0 <= y < anc.len() ==> pids(k).contains(anc[y]) || (rm && anc[y] == root),
    ensures
        anc.len() <= k.len() + 1,
{
    let pids = k.map_values(|e: KnownView| e.0).to_set().insert(root);
    assert(anc.to_set().subset_of(pids)) by {
        assert forall|p: u32| anc.to_set().contains(p) implies pids.contains(p) by {
            let y = choose|y: int| 0 <= y < anc.len() && anc[y] == p;
            if p != root {
                let x = choose|x: int| 0 <= x < k.len() && #[trigger] k[x].0 == anc[y];
                assert(k.map_values(|e: KnownView| e.0)[x] == p);
            }
        }
    }
    k.map_values(|e: KnownView| e.0).lemma_cardinality_of_set();
    anc.unique_seq_to_set();
    lemma_len_subset(anc.to_set(), pids);
}

/// Remembers process `pid` in `group` with `stamp`, replacing an earlier
/// entry for it.
fn upsert_exec(k: &mut Vec<(u32, i32, String)>, pid: u32, group: i32, stamp: String)
    ensures
        known_view(final(k)@) == upsert(known_view(old(k)@), (pid, group, stamp@)),
{
    let ghost kv = known_view(k@);
    let mut i: usize = k.len();
    assert(kv.subrange(0, k.len() as int) =~= kv);
    while i > 0
        invariant
            i <= k.len(),
            k@ == old(k)@,
            kv == known_view(k@),
            known_index(kv, pid) == known_index(kv.subrange(0, i as int), pid),
        decreases i,
    {
        let ghost pre = kv.subrange(0, i as int);
        assert(pre.drop_last() =~= kv.subrange(0, i - 1));
        if k[i - 1].0 == pid {
            assert(pre.last().0 == pid);
            let entry = (pid, group, stamp);
            k.set(i - 1, entry);
            assert(known_view(k@) =~= kv.update(i - 1, (pid, group, entry.2@)));
            return;
        }
        i = i - 1;
    }
    assert(kv.subrange(0, 0) =~= Seq::<KnownView>::empty());
    let ghost sv = stamp@;
    k.push((pid, group, stamp));
    assert(known_view(k@) =~= kv.push((pid, group, sv)));
}

} // verus!
