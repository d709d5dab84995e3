//! The table as a whole: its records in order across all runs, and what a walk
//! that reads every block it asks for finds in them.
//!
//! [`walk`] runs a [`MftScan`](crate::mft::scan::MftScan) the way a caller does:
//! move on to the next block, read it from the volume, feed it. Once the walk has
//! ended, its entries are those of the table's records, read one after the other
//! ([`lemma_walk_reads_the_table`]).

use vstd::prelude::*;
use crate::mft::parser::{DataRun, ExtensionRecordView, ParsedRecordView};
use crate::mft::scan::{
    absorb, block_len_for, fed, listed_entries, merge_extensions, pending, record_parsed, records_from,
    records_taken, settle, walk_entries, ScanView,
};
use crate::mft::types::FileEntryView;

verus! {

/// Records in a run: its bytes divided by the record size.
pub open spec fn run_records(run: DataRun, bpc: nat, rs: nat) -> nat {
    (run.length as nat * bpc) / rs
}

/// Records in the runs from `i` up to `r` (`r` excluded).
pub open spec fn records_between(runs: Seq<DataRun>, bpc: nat, rs: nat, i: int, r: int) -> nat
    decreases r - i,
{
    if i >= r || i < 0 || i >= runs.len() {
        0
    } else {
        run_records(runs[i], bpc, rs) + records_between(runs, bpc, rs, i + 1, r)
    }
}

/// Record `q` of run `r`: its bytes on the volume, nothing for a sparse run.
pub open spec fn run_record(runs: Seq<DataRun>, bpc: nat, rs: nat, disk: Seq<u8>, r: int, q: nat) -> Option<Seq<u8>> {
    match runs[r].lcn {
        None => None,
        Some(l) => Some(disk.subrange(l * bpc + q * rs, l * bpc + (q + 1) * rs)),
    }
}

/// Record `k` of the runs from `i` on, counted from the first record of run `i`.
pub open spec fn record_in(runs: Seq<DataRun>, bpc: nat, rs: nat, disk: Seq<u8>, i: int, k: nat) -> Option<Seq<u8>>
    decreases runs.len() - i,
{
    if i < 0 || i >= runs.len() {
        None
    } else if k < run_records(runs[i], bpc, rs) {
        run_record(runs, bpc, rs, disk, i, k)
    } else {
        record_in(runs, bpc, rs, disk, i + 1, (k - run_records(runs[i], bpc, rs)) as nat)
    }
}

/// Record `k` of the table: the `k`-th record over all runs in order.
pub open spec fn table_record(runs: Seq<DataRun>, bpc: nat, rs: nat, disk: Seq<u8>, k: nat) -> Option<Seq<u8>> {
    record_in(runs, bpc, rs, disk, 0, k)
}

/// The base and extension records among the first `m` records of the table: each
/// record whose fixups hold parsed under its number, a base record kept under that
/// number with the rank of its name, an extension record added to the list.
pub open spec fn table_records(runs: Seq<DataRun>, bpc: nat, rs: nat, disk: Seq<u8>, m: nat) -> (
    Map<u64, (FileEntryView, u8)>,
    Seq<ExtensionRecordView>,
)
    decreases m,
{
    if m == 0 {
        (Map::empty(), Seq::empty())
    } else {
        let k = (m - 1) as nat;
        let (bases, exts) = table_records(runs, bpc, rs, disk, k);
        match table_record(runs, bpc, rs, disk, k) {
            Some(rec) => match record_parsed(rec, k as u64) {
                Some(ParsedRecordView::Entry { entry, name_rank }) => (
                    bases.insert(k as u64, (entry, name_rank)),
                    exts,
                ),
                Some(ParsedRecordView::Extension(e)) => (bases, exts.push(e)),
                None => (bases, exts),
            },
            None => (bases, exts),
        }
    }
}

/// The entries of the table: those of its first `m` records, where `m` is the
/// number of records of the table but no more than the runs hold; extension
/// records merged into their base records in the order of the table, then the
/// listed ones.
pub open spec fn table_entries(runs: Seq<DataRun>, bpc: nat, rs: nat, disk: Seq<u8>, total: nat) -> Map<u64, FileEntryView> {
    let held = records_from(runs, bpc, rs, 0);
    let m = if total < held { total } else { held };
    let (bases, exts) = table_records(runs, bpc, rs, disk, m);
    listed_entries(merge_extensions(bases, exts))
}

/// One step of a walk as a caller makes it: move on to the next block, read it
/// from `disk` and feed it; nothing once the walk is over.
pub open spec fn walk_step(s: ScanView, disk: Seq<u8>) -> ScanView {
    let t = settle(s);
    match pending(t) {
        Some((p, w)) => fed(t, disk.subrange(p as int, (p + w) as int)),
        None => t,
    }
}

/// The walk after `k` steps.
pub open spec fn walk(s: ScanView, disk: Seq<u8>, k: nat) -> ScanView
    decreases k,
{
    if k == 0 {
        s
    } else {
        walk_step(walk(s, disk, (k - 1) as nat), disk)
    }
}

/// One more run: the records up to `r + 1` are those up to `r` and those of run `r`.
proof fn lemma_between_step(runs: Seq<DataRun>, bpc: nat, rs: nat, i: int, r: int)
    requires
        0 <= i <= r < runs.len(),
    ensures
        records_between(runs, bpc, rs, i, r + 1) == records_between(runs, bpc, rs, i, r)
            + run_records(runs[r], bpc, rs),
    decreases r - i,
{
    if i < r {
        lemma_between_step(runs, bpc, rs, i + 1, r);
    } else {
        assert(records_between(runs, bpc, rs, r + 1, r + 1) == 0);
    }
}

/// The records of all runs from `i` on are those that `records_from` counts.
proof fn lemma_between_all(runs: Seq<DataRun>, bpc: nat, rs: nat, i: int)
    requires
        0 <= i <= runs.len(),
    ensures
        records_between(runs, bpc, rs, i, runs.len() as int) == records_from(runs, bpc, rs, i),
    decreases runs.len() - i,
{
    if i < runs.len() {
        lemma_between_all(runs, bpc, rs, i + 1);
    }
}

/// Record `q` of run `r` is the table's record after all those of the runs before.
proof fn lemma_record_in_run(runs: Seq<DataRun>, bpc: nat, rs: nat, disk: Seq<u8>, i: int, r: int, q: nat)
    requires
        0 <= i <= r < runs.len(),
        q < run_records(runs[r], bpc, rs),
    ensures
        record_in(runs, bpc, rs, disk, i, records_between(runs, bpc, rs, i, r) + q)
            == run_record(runs, bpc, rs, disk, r, q),
    decreases r - i,
{
    if i < r {
        lemma_record_in_run(runs, bpc, rs, disk, i + 1, r, q);
    }
}

/// Records that hold nothing leave the table's records as they are.
proof fn lemma_records_skip(runs: Seq<DataRun>, bpc: nat, rs: nat, disk: Seq<u8>, m1: nat, m2: nat)
    requires
        m1 <= m2,
        forall|k: nat| m1 <= k < m2 ==> #[trigger] table_record(runs, bpc, rs, disk, k) is None,
    ensures
        table_records(runs, bpc, rs, disk, m2) == table_records(runs, bpc, rs, disk, m1),
    decreases m2,
{
    if m1 < m2 {
        lemma_records_skip(runs, bpc, rs, disk, m1, (m2 - 1) as nat);
        assert(table_record(runs, bpc, rs, disk, (m2 - 1) as nat) is None);
    }
}

/// Taking `c` records of a block whose records are the table's next ones adds
/// them to the records found, in order, and leaves where the walk stands as it is.
proof fn lemma_absorb_reads(s: ScanView, disk: Seq<u8>, data: Seq<u8>, c: nat)
    requires
        s.bases == table_records(s.runs, s.bytes_per_cluster, s.record_size, disk, s.reference).0,
        s.extensions == table_records(
            s.runs,
            s.bytes_per_cluster,
            s.record_size,
            disk,
            s.reference,
        ).1,
        forall|j: nat|
            j < c ==> #[trigger] table_record(
                s.runs,
                s.bytes_per_cluster,
                s.record_size,
                disk,
                s.reference + j,
            ) == Some(data.subrange((j * s.record_size) as int, ((j + 1) * s.record_size) as int)),
    ensures
        ({
            let a = absorb(s, data, c).0;
            let t = table_records(s.runs, s.bytes_per_cluster, s.record_size, disk, s.reference + c);
            &&& a.reference == s.reference + c
            &&& a.bases == t.0
            &&& a.extensions == t.1
            &&& a.runs == s.runs
            &&& a.record_size == s.record_size
            &&& a.bytes_per_cluster == s.bytes_per_cluster
            &&& a.total_records == s.total_records
            &&& a.block_len == s.block_len
            &&& a.run_index == s.run_index
            &&& a.in_run == s.in_run
            &&& a.position == s.position
            &&& a.remaining == s.remaining
            &&& a.finished == s.finished
        }),
    decreases c,
{
    if c > 0 {
        lemma_absorb_reads(s, disk, data, (c - 1) as nat);
        let j = (c - 1) as nat;
        assert(table_record(s.runs, s.bytes_per_cluster, s.record_size, disk, s.reference + j)
            == Some(data.subrange((j * s.record_size) as int, ((j + 1) * s.record_size) as int)));
        assert(((c - 1) * s.record_size) as int == j * s.record_size);
        assert((c * s.record_size) as int == (j + 1) * s.record_size) by (nonlinear_arith)
            requires
                j == c - 1,
        ;
    }
}

/// What stays fixed over a walk and makes it read the whole table: record sizes
/// set, blocks of whole records, runs of whole records, and every run on `disk`.
pub open spec fn reads_whole_records(s: ScanView, disk: Seq<u8>) -> bool {
    &&& s.record_size > 0
    &&& s.block_len > 0
    &&& s.block_len % s.record_size == 0
    &&& forall|i: int|
        0 <= i < s.runs.len() ==> (#[trigger] s.runs[i]).length as nat * s.bytes_per_cluster
            % s.record_size == 0
    &&& forall|i: int|
        0 <= i < s.runs.len() ==> ((#[trigger] s.runs[i]).lcn matches Some(l) ==> l
            * s.bytes_per_cluster + s.runs[i].length as nat * s.bytes_per_cluster <= disk.len())
}

/// The smaller of two numbers.
pub open spec fn at_most(a: nat, b: nat) -> nat {
    if a < b {
        a
    } else {
        b
    }
}

/// Where a walk stands against the table: the records found are the table's
/// records before the next one (no further than the table's end), and, while
/// records are still due, the next record is where the walk will read.
spec fn on_table(s: ScanView, disk: Seq<u8>) -> bool {
    let runs = s.runs;
    let bpc = s.bytes_per_cluster;
    let rs = s.record_size;
    let ri = s.run_index;
    let before = records_between(runs, bpc, rs, 0, ri);
    let t = table_records(runs, bpc, rs, disk, at_most(s.reference, s.total_records));
    &&& 0 <= ri <= runs.len()
    &&& s.in_run ==> ri < runs.len()
    &&& s.reference <= records_from(runs, bpc, rs, 0)
    &&& !s.finished ==> s.reference <= records_between(
        runs,
        bpc,
        rs,
        0,
        ri + if s.in_run {
            1int
        } else {
            0int
        },
    )
    &&& (!s.finished && s.in_run && s.reference < s.total_records) ==> {
        &&& runs[ri].lcn is Some
        &&& s.reference >= before
        &&& (s.reference - before) * rs + s.remaining == runs[ri].length as nat * bpc
        &&& s.position == runs[ri].lcn.unwrap() * bpc + (s.reference - before) * rs
    }
    &&& (!s.finished && !s.in_run && s.reference < s.total_records) ==> s.reference == before
    &&& s.finished ==> (s.reference >= s.total_records || s.reference == records_from(
        runs,
        bpc,
        rs,
        0,
    ))
    &&& s.bases == t.0
    &&& s.extensions == t.1
}

/// The records of the runs before `k` are no more than those before `k2 >= k`.
proof fn lemma_between_grows(runs: Seq<DataRun>, bpc: nat, rs: nat, k: int, k2: int)
    requires
        0 <= k <= k2 <= runs.len(),
    ensures
        records_between(runs, bpc, rs, 0, k) <= records_between(runs, bpc, rs, 0, k2),
    decreases k2 - k,
{
    if k < k2 {
        lemma_between_grows(runs, bpc, rs, k, k2 - 1);
        lemma_between_step(runs, bpc, rs, 0, k2 - 1);
    }
}

/// Moving on to the next block keeps the walk on the table, changes nothing of
/// its geometry, and leaves it either ended or with a block due.
proof fn lemma_settle_on_table(s: ScanView, disk: Seq<u8>)
    requires
        reads_whole_records(s, disk),
        on_table(s, disk),
    ensures
        on_table(settle(s), disk),
        settle(s).runs == s.runs,
        settle(s).record_size == s.record_size,
        settle(s).bytes_per_cluster == s.bytes_per_cluster,
        settle(s).total_records == s.total_records,
        settle(s).block_len == s.block_len,
        !settle(s).finished ==> settle(s).in_run && settle(s).remaining > 0
            && settle(s).reference < settle(s).total_records,
    decreases (if 0 <= s.run_index <= s.runs.len() {
        (s.runs.len() - s.run_index) * 2 + (if s.in_run {
            0int
        } else {
            1int
        })
    } else {
        0
    }),
{
    let runs = s.runs;
    let bpc = s.bytes_per_cluster;
    let rs = s.record_size;
    let ri = s.run_index;
    let total_held = records_from(runs, bpc, rs, 0);
    lemma_between_all(runs, bpc, rs, 0);
    if s.finished {
    } else if s.in_run {
        if s.remaining > 0 && s.reference < s.total_records {
        } else {
            let next = ScanView { in_run: false, run_index: ri + 1, ..s };
            let before = records_between(runs, bpc, rs, 0, ri);
            lemma_between_step(runs, bpc, rs, 0, ri);
            if s.reference < s.total_records {
                let x = (s.reference - before) as nat;
                assert(x * rs == runs[ri].length as nat * bpc);
                vstd::arithmetic::div_mod::lemma_div_by_multiple(x as int, rs as int);
            }
            lemma_settle_on_table(next, disk);
        }
    } else if ri >= runs.len() {
    } else {
        let run = runs[ri];
        let bytes: nat = run.length as nat * bpc;
        let before = records_between(runs, bpc, rs, 0, ri);
        lemma_between_step(runs, bpc, rs, 0, ri);
        lemma_between_grows(runs, bpc, rs, ri + 1, runs.len() as int);
        match run.lcn {
            None => {
                let next = ScanView {
                    reference: s.reference + bytes / rs,
                    run_index: ri + 1,
                    ..s
                };
                if s.reference < s.total_records {
                    let m2 = at_most(next.reference, s.total_records);
                    assert forall|k: nat| s.reference <= k < m2 implies #[trigger] table_record(
                        runs,
                        bpc,
                        rs,
                        disk,
                        k,
                    ) is None by {
                        lemma_record_in_run(runs, bpc, rs, disk, 0, ri, (k - before) as nat);
                    }
                    lemma_records_skip(runs, bpc, rs, disk, s.reference, m2);
                }
                lemma_settle_on_table(next, disk);
            },
            Some(lcn) => {
                let next = ScanView {
                    in_run: true,
                    position: lcn as nat * bpc,
                    remaining: bytes,
                    ..s
                };
                lemma_settle_on_table(next, disk);
            },
        }
    }
}

/// Reading the due block from `disk` and feeding it keeps the walk on the table.
proof fn lemma_fed_on_table(t: ScanView, disk: Seq<u8>)
    requires
        reads_whole_records(t, disk),
        on_table(t, disk),
        !t.finished,
        t.in_run,
        t.remaining > 0,
        t.reference < t.total_records,
    ensures
        ({
            let (p, w) = pending(t).unwrap();
            let u = fed(t, disk.subrange(p as int, (p + w) as int));
            &&& pending(t) is Some
            &&& on_table(u, disk)
            &&& u.runs == t.runs
            &&& u.record_size == t.record_size
            &&& u.bytes_per_cluster == t.bytes_per_cluster
            &&& u.total_records == t.total_records
            &&& u.block_len == t.block_len
        }),
{
    let runs = t.runs;
    let bpc = t.bytes_per_cluster;
    let rs = t.record_size;
    let ri = t.run_index;
    let before = records_between(runs, bpc, rs, 0, ri);
    let l = runs[ri].lcn.unwrap();
    let bytes: nat = runs[ri].length as nat * bpc;
    let nr = run_records(runs[ri], bpc, rs);
    let x = (t.reference - before) as nat;
    let (p, w) = pending(t).unwrap();
    let data = disk.subrange(p as int, (p + w) as int);
    lemma_between_all(runs, bpc, rs, 0);
    lemma_between_step(runs, bpc, rs, 0, ri);
    lemma_between_grows(runs, bpc, rs, ri + 1, runs.len() as int);
    assert(bytes % rs == 0);
    vstd::arithmetic::div_mod::lemma_fundamental_div_mod(bytes as int, rs as int);
    assert(bytes == nr * rs);
    let a = (nr - x) as nat;
    assert(x * rs + t.remaining == bytes);
    assert(x <= nr && t.remaining == a * rs) by (nonlinear_arith)
        requires
            x * rs + t.remaining == bytes,
            bytes == nr * rs,
            rs > 0,
            a == nr - x,
    ;
    vstd::arithmetic::div_mod::lemma_fundamental_div_mod(t.block_len as int, rs as int);
    let b = t.block_len / rs;
    assert(t.block_len == b * rs);
    let c: nat = if a < b {
        a
    } else {
        b
    };
    assert((a < b) == (a * rs < b * rs)) by (nonlinear_arith)
        requires
            rs > 0,
    ;
    assert(w == c * rs);
    assert(c >= 1) by (nonlinear_arith)
        requires
            w == c * rs,
            w > 0,
            rs > 0,
    ;
    assert(p + w <= disk.len()) by (nonlinear_arith)
        requires
            p == l * bpc + x * rs,
            w == c * rs,
            c <= a,
            a == nr - x,
            x <= nr,
            bytes == nr * rs,
            l * bpc + bytes <= disk.len(),
            rs > 0,
    ;
    assert(data.len() == w);
    vstd::arithmetic::div_mod::lemma_div_by_multiple(c as int, rs as int);
    let n = data.len() / rs;
    assert(n == c);
    let count = records_taken(t, data);
    assert forall|j: nat| j < count implies #[trigger] table_record(
        runs,
        bpc,
        rs,
        disk,
        t.reference + j,
    ) == Some(data.subrange((j * rs) as int, ((j + 1) * rs) as int)) by {
        lemma_record_in_run(runs, bpc, rs, disk, 0, ri, x + j);
        assert(before + (x + j) == t.reference + j);
        assert((j + 1) * rs <= w && (x + j) * rs == x * rs + j * rs && (x + j + 1) * rs == x * rs
            + (j + 1) * rs) by (nonlinear_arith)
            requires
                j + 1 <= c,
                w == c * rs,
                rs > 0,
        ;
        assert(p == l * bpc + x * rs);
        assert(0 <= j * rs) by (nonlinear_arith);
        assert(l * bpc + (x + j) * rs == p + j * rs);
        assert(l * bpc + (x + j + 1) * rs == p + (j + 1) * rs);
        assert(p + (j + 1) * rs <= disk.len());
        assert(j * rs <= (j + 1) * rs) by (nonlinear_arith)
            requires
                rs > 0,
        ;
        assert(data.subrange((j * rs) as int, ((j + 1) * rs) as int) =~= disk.subrange(
            l * bpc + (x + j) * rs,
            l * bpc + (x + j + 1) * rs,
        ));
    }
    lemma_absorb_reads(t, disk, data, count);
    if count == n {
        assert((x + n) * rs == x * rs + n * rs && (x + n) * rs <= bytes) by (nonlinear_arith)
            requires
                n == c,
                c <= a,
                a == nr - x,
                x <= nr,
                bytes == nr * rs,
                rs > 0,
        ;
    }
}

/// Each step keeps the walk on the table and its geometry as it was.
proof fn lemma_walk_on_table(s: ScanView, disk: Seq<u8>, k: nat)
    requires
        reads_whole_records(s, disk),
        on_table(s, disk),
    ensures
        on_table(walk(s, disk, k), disk),
        walk(s, disk, k).runs == s.runs,
        walk(s, disk, k).record_size == s.record_size,
        walk(s, disk, k).bytes_per_cluster == s.bytes_per_cluster,
        walk(s, disk, k).total_records == s.total_records,
        walk(s, disk, k).block_len == s.block_len,
    decreases k,
{
    if k > 0 {
        lemma_walk_on_table(s, disk, (k - 1) as nat);
        let v = walk(s, disk, (k - 1) as nat);
        lemma_settle_on_table(v, disk);
        let t = settle(v);
        if pending(t) is Some {
            lemma_fed_on_table(t, disk);
        }
    }
}

/// Blocks of a new walk hold whole records.
pub proof fn lemma_block_len_whole(rs: nat, chunk: nat)
    requires
        rs > 0,
    ensures
        block_len_for(rs, chunk) > 0,
        block_len_for(rs, chunk) % rs == 0,
{
    let q = chunk / rs;
    if q != 0 {
        vstd::arithmetic::div_mod::lemma_mod_multiples_basic(q as int, rs as int);
        assert(q * rs > 0) by (nonlinear_arith)
            requires
                q > 0,
                rs > 0,
        ;
    } else {
        vstd::arithmetic::div_mod::lemma_mod_self_0(rs as int);
    }
}

/// A walk that starts at the table's beginning and reads every block it asks for
/// from `disk` finds, once it has ended, the entries of the table's records read
/// one after the other: a record's number is its place in the table, the records
/// of sparse runs count as empty, extension records are merged into their base
/// records in the order of the table, and the named entries that are kept are
/// listed. This holds where every run holds whole records and lies on `disk`.
pub proof fn lemma_walk_reads_the_table(s: ScanView, disk: Seq<u8>, k: nat)
    requires
        reads_whole_records(s, disk),
        s.run_index == 0,
        !s.in_run,
        !s.finished,
        s.reference == 0,
        s.bases == Map::<u64, (FileEntryView, u8)>::empty(),
        s.extensions == Seq::<ExtensionRecordView>::empty(),
        walk(s, disk, k).finished,
    ensures
        walk_entries(walk(s, disk, k)) == table_entries(
            s.runs,
            s.bytes_per_cluster,
            s.record_size,
            disk,
            s.total_records,
        ),
{
    let runs = s.runs;
    let bpc = s.bytes_per_cluster;
    let rs = s.record_size;
    assert(records_between(runs, bpc, rs, 0, 0) == 0);
    assert(table_records(runs, bpc, rs, disk, 0) == (
        Map::<u64, (FileEntryView, u8)>::empty(),
        Seq::<ExtensionRecordView>::empty(),
    ));
    assert(on_table(s, disk));
    lemma_walk_on_table(s, disk, k);
}

} // verus!
