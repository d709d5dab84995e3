//! The walk over the fragments of the table.
//!
//! The table lies on the volume in runs of clusters. [`MftScan`] holds where the
//! walk stands: [`MftScan::next_read`] names the next block to read (or `None`
//! when the walk is over), [`MftScan::feed`] takes the bytes that were read and
//! parses every whole record in them. Record numbers count through all runs: a
//! record's number is its position in the table, not on the volume. Sparse runs
//! take no reads; their records count as empty.
//!
//! Base records give the files and directories; extension records carry
//! attributes that did not fit into their base record (a better name, the size
//! of a fragmented file). [`MftScan::finish`] merges them into their base
//! records and lists the entries with a name, without the system files.

use vstd::prelude::*;
use std::collections::HashMap;
use crate::mft::types::{FileEntry, FileEntryView};
use crate::mft::parser::{
    DataRun, ExtensionRecord, ExtensionRecordView, MftParser, ParsedRecord, ParsedRecordView,
    fixup_header_ok, fixup_result, spec_parse,
};
use crate::mft::reader::{MftLayout, MftReader};
use crate::tree::builder::keys_of;
use crate::text::{decimal, push_decimal, push_str};

verus! {

broadcast use vstd::std_specs::hash::group_hash_axioms;

/// Records are read in blocks of this many bytes unless told otherwise, rounded
/// down to whole records (one record at least).
pub const READ_CHUNK_SIZE: u64 = 8388608;

/// A progress report is due every this many records.
pub const PROGRESS_INTERVAL: u64 = 16384;

/// An entry is kept unless its name starts with `$` (the system files), but for
/// `$Recycle.Bin`.
pub open spec fn kept(e: FileEntryView) -> bool {
    !(e.name.len() > 0 && e.name[0] == '$') || e.name == "$Recycle.Bin"@
}

/// An entry is listed: it has a name and is kept.
pub open spec fn listed(e: FileEntryView) -> bool {
    e.name.len() > 0 && kept(e)
}

/// What a raw record holds: what [`MftParser::parse`] finds in it after its
/// fixups, where the fixups hold.
pub open spec fn record_parsed(record: Seq<u8>, reference: u64) -> Option<ParsedRecordView> {
    if fixup_header_ok(record) && fixup_result(record).1 {
        spec_parse(fixup_result(record).0, reference)
    } else {
        None
    }
}

/// The values of a map of entries.
pub open spec fn views(m: Map<u64, FileEntry>) -> Map<u64, FileEntryView> {
    m.map_values(|e: FileEntry| e@)
}

/// The values of a map of base records with the ranks of their names.
pub open spec fn base_views(m: Map<u64, (FileEntry, u8)>) -> Map<u64, (FileEntryView, u8)> {
    m.map_values(|x: (FileEntry, u8)| (x.0@, x.1))
}

/// The values of a list of extension records.
pub open spec fn extension_views(s: Seq<ExtensionRecord>) -> Seq<ExtensionRecordView> {
    s.map_values(|e: ExtensionRecord| e@)
}

/// The base records after merging the extension record `e` into its base
/// record, where that was found: a name of a better rank replaces the base
/// record's name and parent, and the size of the first data piece replaces its
/// size unless it is a directory (whose size stays 0).
pub open spec fn merge_extension(bases: Map<u64, (FileEntryView, u8)>, e: ExtensionRecordView) -> Map<
    u64,
    (FileEntryView, u8),
> {
    if bases.contains_key(e.base_reference) {
        let (entry, rank) = bases[e.base_reference];
        let (named, new_rank) = match e.file_name {
            Some(n) => if n.rank > rank {
                (FileEntryView { name: n.name, parent_reference: n.parent_reference, ..entry }, n.rank)
            } else {
                (entry, rank)
            },
            None => (entry, rank),
        };
        let sized = match e.data_size {
            Some(size) => if named.is_directory {
                named
            } else {
                FileEntryView { size, ..named }
            },
            None => named,
        };
        bases.insert(e.base_reference, (sized, new_rank))
    } else {
        bases
    }
}

/// The base records after merging the extension records `exts`, one after the other.
pub open spec fn merge_extensions(bases: Map<u64, (FileEntryView, u8)>, exts: Seq<ExtensionRecordView>) -> Map<
    u64,
    (FileEntryView, u8),
>
    decreases exts.len(),
{
    if exts.len() == 0 {
        bases
    } else {
        merge_extension(merge_extensions(bases, exts.drop_last()), exts.last())
    }
}

/// The listed entries among the base records.
pub open spec fn listed_entries(bases: Map<u64, (FileEntryView, u8)>) -> Map<u64, FileEntryView> {
    Map::new(|k: u64| bases.contains_key(k) && listed(bases[k].0), |k: u64| bases[k].0)
}

/// The records that the runs from `i` on hold: each run's bytes divided by the
/// record size.
pub open spec fn records_from(runs: Seq<DataRun>, bpc: nat, rs: nat, i: int) -> nat
    decreases runs.len() - i,
{
    if i < 0 || i >= runs.len() {
        0
    } else {
        (runs[i].length as nat * bpc) / rs + records_from(runs, bpc, rs, i + 1)
    }
}

/// A run's bytes, and the end of a run on the volume, fit in 64 bits.
pub open spec fn run_fits(run: DataRun, bpc: nat) -> bool {
    &&& run.length * bpc <= u64::MAX
    &&& run.lcn matches Some(l) ==> l * bpc + run.length * bpc <= u64::MAX
}

/// The walk can be done in 64 bits: record and cluster sizes are set, every run
/// fits and all records together stay a progress interval below the limit.
pub open spec fn scan_fits(runs: Seq<DataRun>, bpc: nat, rs: nat) -> bool {
    &&& 0 < rs <= u32::MAX
    &&& bpc > 0
    &&& forall|i: int| 0 <= i < runs.len() ==> run_fits(#[trigger] runs[i], bpc)
    &&& records_from(runs, bpc, rs, 0) + PROGRESS_INTERVAL <= u64::MAX
}

/// Bytes per block: as many whole records as fit in `chunk` bytes, one at least.
pub open spec fn block_len_for(rs: nat, chunk: nat) -> nat {
    if chunk / rs == 0 {
        rs
    } else {
        (chunk / rs) * rs
    }
}

/// Where a walk stands.
pub struct ScanView {
    pub record_size: nat,
    pub bytes_per_cluster: nat,
    pub runs: Seq<DataRun>,
    pub total_records: nat,
    pub block_len: nat,
    /// The run being read, or the next one to start.
    pub run_index: int,
    /// Whether the run at `run_index` has been started.
    pub in_run: bool,
    /// Next byte to read on the volume.
    pub position: nat,
    /// Bytes of the current run not read yet.
    pub remaining: nat,
    /// Number of the next record.
    pub reference: nat,
    /// Record number at which the next progress report is due.
    pub next_progress: nat,
    /// The base records found, by record number, each with the rank of its name.
    pub bases: Map<u64, (FileEntryView, u8)>,
    /// The extension records found, in the order of the table.
    pub extensions: Seq<ExtensionRecordView>,
    /// How many of the base records found are listed as they stand.
    pub listed_count: nat,
    /// The walk is over.
    pub finished: bool,
}

/// The invariant of a walk: the run index in range, and all positions and
/// record numbers still to come within 64 bits.
pub open spec fn scan_wf(s: ScanView) -> bool {
    &&& scan_fits(s.runs, s.bytes_per_cluster, s.record_size)
    &&& 0 < s.block_len <= u32::MAX
    &&& s.total_records <= u64::MAX
    &&& 0 <= s.run_index <= s.runs.len()
    &&& s.in_run ==> s.run_index < s.runs.len()
    &&& s.position + s.remaining <= u64::MAX
    &&& !s.finished ==> s.reference + (if s.in_run {
        s.remaining / s.record_size
    } else {
        0
    }) + records_from(
        s.runs,
        s.bytes_per_cluster,
        s.record_size,
        s.run_index + (if s.in_run {
            1int
        } else {
            0int
        }),
    ) <= records_from(s.runs, s.bytes_per_cluster, s.record_size, 0)
    &&& s.next_progress <= s.reference + PROGRESS_INTERVAL
    &&& s.listed_count <= s.reference
}

/// The entries of a walk: its base records with their extension records merged,
/// those that are listed.
pub open spec fn walk_entries(s: ScanView) -> Map<u64, FileEntryView> {
    listed_entries(merge_extensions(s.bases, s.extensions))
}

/// The walk from a run boundary to the next block to read, or to its end: runs
/// that are done or empty are left, sparse runs counted, the next run started.
pub open spec fn settle(s: ScanView) -> ScanView
    decreases (if 0 <= s.run_index <= s.runs.len() {
        (s.runs.len() - s.run_index) * 2 + (if s.in_run {
            0int
        } else {
            1int
        })
    } else {
        0
    }),
{
    if s.finished || !(0 <= s.run_index <= s.runs.len()) {
        s
    } else if s.in_run {
        if s.remaining > 0 && s.reference < s.total_records {
            s
        } else if s.run_index >= s.runs.len() {
            ScanView { finished: true, ..s }
        } else {
            settle(ScanView { in_run: false, run_index: s.run_index + 1, ..s })
        }
    } else if s.run_index >= s.runs.len() {
        ScanView { finished: true, ..s }
    } else {
        let run = s.runs[s.run_index];
        let bytes: nat = run.length as nat * s.bytes_per_cluster;
        match run.lcn {
            None => settle(
                ScanView {
                    reference: s.reference + bytes / s.record_size,
                    run_index: s.run_index + 1,
                    ..s
                },
            ),
            Some(lcn) => settle(
                ScanView {
                    in_run: true,
                    position: lcn as nat * s.bytes_per_cluster,
                    remaining: bytes,
                    ..s
                },
            ),
        }
    }
}

/// The block due in a settled walk: its position and length.
pub open spec fn pending(s: ScanView) -> Option<(nat, nat)> {
    if !s.finished && s.in_run && s.remaining > 0 && s.reference < s.total_records {
        Some(
            (
                s.position,
                if s.remaining < s.block_len {
                    s.remaining
                } else {
                    s.block_len
                },
            ),
        )
    } else {
        None
    }
}

/// The walk after the first `k` records of `data`: a base record kept under its
/// number with the rank of its name, an extension record added to the list, the
/// number counted up, a report (number, base records listed) whenever the
/// number reaches the next report mark.
pub open spec fn absorb(s: ScanView, data: Seq<u8>, k: nat) -> (ScanView, Seq<(nat, nat)>)
    decreases k,
{
    if k == 0 {
        (s, Seq::empty())
    } else {
        let (p, reports) = absorb(s, data, (k - 1) as nat);
        let rec = data.subrange(((k - 1) * s.record_size) as int, (k * s.record_size) as int);
        let q = match record_parsed(rec, p.reference as u64) {
            Some(ParsedRecordView::Entry { entry, name_rank }) => ScanView {
                bases: p.bases.insert(p.reference as u64, (entry, name_rank)),
                listed_count: if listed(entry) {
                    p.listed_count + 1
                } else {
                    p.listed_count
                },
                ..p
            },
            Some(ParsedRecordView::Extension(e)) => ScanView { extensions: p.extensions.push(e), ..p },
            None => p,
        };
        let r = p.reference + 1;
        if r >= p.next_progress {
            (
                ScanView {
                    reference: r,
                    next_progress: p.next_progress + PROGRESS_INTERVAL as nat,
                    ..q
                },
                reports.push((r, q.listed_count)),
            )
        } else {
            (ScanView { reference: r, ..q }, reports)
        }
    }
}

/// How many records of `data` a walk takes: all whole ones, but none past the
/// table's end.
pub open spec fn records_taken(s: ScanView, data: Seq<u8>) -> nat {
    let n = data.len() / s.record_size;
    if s.reference + n <= s.total_records {
        n
    } else {
        (s.total_records - s.reference) as nat
    }
}

/// The walk after the block `data` was read: no whole record ends it; otherwise
/// the records are taken, and the walk ends if the table ended among them, or
/// moves past the block.
pub open spec fn fed(s: ScanView, data: Seq<u8>) -> ScanView {
    let n = data.len() / s.record_size;
    if n == 0 {
        ScanView { finished: true, ..s }
    } else {
        let count = records_taken(s, data);
        let p = absorb(s, data, count).0;
        if count < n {
            ScanView { finished: true, ..p }
        } else {
            ScanView {
                position: p.position + n * s.record_size,
                remaining: (p.remaining - n * s.record_size) as nat,
                ..p
            }
        }
    }
}

/// The reports made while the block `data` was taken.
pub open spec fn fed_reports(s: ScanView, data: Seq<u8>) -> Seq<(nat, nat)> {
    if data.len() / s.record_size == 0 {
        Seq::empty()
    } else {
        absorb(s, data, records_taken(s, data)).1
    }
}

/// The reports as numbers.
pub open spec fn report_values(r: Seq<(u64, u64)>) -> Seq<(nat, nat)> {
    r.map_values(|x: (u64, u64)| (x.0 as nat, x.1 as nat))
}

/// A walk over the table's runs; see the module documentation.
pub struct MftScan {
    record_size: u64,
    bytes_per_cluster: u64,
    runs: Vec<DataRun>,
    total_records: u64,
    block_len: u64,
    run_index: usize,
    in_run: bool,
    position: u64,
    remaining: u64,
    mft_reference: u64,
    next_progress: u64,
    bases: HashMap<u64, (FileEntry, u8)>,
    extensions: Vec<ExtensionRecord>,
    listed: u64,
    finished: bool,
}

impl View for MftScan {
    type V = ScanView;

    closed spec fn view(&self) -> ScanView {
        ScanView {
            record_size: self.record_size as nat,
            bytes_per_cluster: self.bytes_per_cluster as nat,
            runs: self.runs@,
            total_records: self.total_records as nat,
            block_len: self.block_len as nat,
            run_index: self.run_index as int,
            in_run: self.in_run,
            position: self.position as nat,
            remaining: self.remaining as nat,
            reference: self.mft_reference as nat,
            next_progress: self.next_progress as nat,
            bases: base_views(self.bases@),
            extensions: extension_views(self.extensions@),
            listed_count: self.listed as nat,
            finished: self.finished,
        }
    }
}

/// The sum from `i` is the run at `i` plus the sum after it.
proof fn lemma_records_from_step(runs: Seq<DataRun>, bpc: nat, rs: nat, i: int)
    requires
        0 <= i < runs.len(),
        rs > 0,
    ensures
        records_from(runs, bpc, rs, i) >= records_from(runs, bpc, rs, i + 1),
        records_from(runs, bpc, rs, i) == (runs[i].length as nat * bpc) / rs + records_from(
            runs,
            bpc,
            rs,
            i + 1,
        ),
{
    assert((runs[i].length as nat * bpc) / rs >= 0) by (nonlinear_arith)
        requires
            rs > 0,
    ;
}

/// Whether an entry is kept (see [`kept`]).
fn keeps(entry: &FileEntry) -> (r: bool)
    ensures
        r == kept(entry@),
{
    let name = entry.name.as_str();
    if name.is_empty() {
        return true;
    }
    if name.get_char(0) != '$' {
        return true;
    }
    let recycle_bin = String::from_str("$Recycle.Bin");
    entry.name == recycle_bin
}

impl MftScan {
    /// Whether a walk over `layout` with the geometry of `reader` fits in 64 bits
    /// (see [`scan_fits`]).
    pub fn fits(reader: &MftReader, layout: &MftLayout) -> (r: bool)
        ensures
            r == scan_fits(
                layout.runs@,
                reader.bytes_per_cluster as nat,
                reader.bytes_per_mft_record as nat,
            ),
    {
        let rs: u64 = reader.bytes_per_mft_record as u64;
        let bpc: u64 = reader.bytes_per_cluster;
        if rs == 0 || bpc == 0 {
            return false;
        }
        let ghost runs = layout.runs@;
        let mut i: usize = layout.runs.len();
        let mut acc: u64 = 0;
        while i > 0
            invariant
                i <= runs.len(),
                runs == layout.runs@,
                rs == reader.bytes_per_mft_record,
                bpc == reader.bytes_per_cluster,
                rs > 0,
                bpc > 0,
                acc == records_from(runs, bpc as nat, rs as nat, i as int),
                acc + PROGRESS_INTERVAL <= u64::MAX,
                forall|j: int| i <= j < runs.len() ==> run_fits(#[trigger] runs[j], bpc as nat),
            decreases i,
        {
            let run = layout.runs[i - 1];
            proof {
                lemma_records_from_step(runs, bpc as nat, rs as nat, i - 1);
            }
            if run.length > u64::MAX / bpc {
                proof {
                    assert(run.length * bpc > u64::MAX) by (nonlinear_arith)
                        requires
                            run.length > u64::MAX / bpc,
                            bpc > 0,
                    ;
                    assert(!run_fits(runs[i - 1], bpc as nat));
                }
                return false;
            }
            proof {
                assert(run.length * bpc <= u64::MAX) by (nonlinear_arith)
                    requires
                        run.length <= u64::MAX / bpc,
                        bpc > 0,
                ;
            }
            let bytes: u64 = run.length * bpc;
            match run.lcn {
                Some(lcn) => {
                    if lcn > u64::MAX / bpc {
                        proof {
                            assert(lcn * bpc > u64::MAX) by (nonlinear_arith)
                                requires
                                    lcn > u64::MAX / bpc,
                                    bpc > 0,
                            ;
                            assert(!run_fits(runs[i - 1], bpc as nat));
                        }
                        return false;
                    }
                    proof {
                        assert(lcn * bpc <= u64::MAX) by (nonlinear_arith)
                            requires
                                lcn <= u64::MAX / bpc,
                                bpc > 0,
                        ;
                    }
                    let start: u64 = lcn * bpc;
                    if start > u64::MAX - bytes {
                        proof {
                            assert(!run_fits(runs[i - 1], bpc as nat));
                        }
                        return false;
                    }
                },
                None => {},
            }
            let records: u64 = bytes / rs;
            if records > u64::MAX - PROGRESS_INTERVAL - acc {
                proof {
                    assert(records_from(runs, bpc as nat, rs as nat, 0) >= records_from(
                        runs,
                        bpc as nat,
                        rs as nat,
                        i - 1,
                    )) by {
                        lemma_records_from_grows(runs, bpc as nat, rs as nat, 0, i - 1);
                    }
                }
                return false;
            }
            acc = acc + records;
            i = i - 1;
        }
        true
    }

    /// A walk over `layout`, from the first run, with no records found yet,
    /// reading blocks of `chunk` bytes (rounded down to whole records, one record
    /// at least).
    pub fn new(reader: &MftReader, layout: MftLayout, chunk: u32) -> (r: Self)
        requires
            scan_fits(
                layout.runs@,
                reader.bytes_per_cluster as nat,
                reader.bytes_per_mft_record as nat,
            ),
        ensures
            scan_wf(r@),
            r@ == (ScanView {
                record_size: reader.bytes_per_mft_record as nat,
                bytes_per_cluster: reader.bytes_per_cluster as nat,
                runs: layout.runs@,
                total_records: layout.total_records as nat,
                block_len: block_len_for(reader.bytes_per_mft_record as nat, chunk as nat),
                run_index: 0,
                in_run: false,
                position: 0,
                remaining: 0,
                reference: 0,
                next_progress: PROGRESS_INTERVAL as nat,
                bases: Map::empty(),
                extensions: Seq::empty(),
                listed_count: 0,
                finished: false,
            }),
    {
        let rs: u64 = reader.bytes_per_mft_record as u64;
        let chunk_records: u64 = chunk as u64 / rs;
        proof {
            lemma_block_len_bound(rs as nat, chunk as nat);
        }
        let block_len: u64 = if chunk_records == 0 {
            rs
        } else {
            chunk_records * rs
        };
        let bases: HashMap<u64, (FileEntry, u8)> = HashMap::new();
        let extensions: Vec<ExtensionRecord> = Vec::new();
        let scan = MftScan {
            record_size: rs,
            bytes_per_cluster: reader.bytes_per_cluster,
            runs: layout.runs,
            total_records: layout.total_records,
            block_len,
            run_index: 0,
            in_run: false,
            position: 0,
            remaining: 0,
            mft_reference: 0,
            next_progress: PROGRESS_INTERVAL,
            bases,
            extensions,
            listed: 0,
            finished: false,
        };
        proof {
            assert(base_views(scan.bases@) =~= Map::<u64, (FileEntryView, u8)>::empty());
            assert(extension_views(scan.extensions@) =~= Seq::<ExtensionRecordView>::empty());
        }
        scan
    }

    /// Bytes per block: the largest read [`MftScan::next_read`] asks for.
    pub fn block_len(&self) -> (r: usize)
        requires
            scan_wf(self@),
        ensures
            r == self@.block_len,
    {
        self.block_len as usize
    }

    /// Number of records in the table.
    pub fn total_records(&self) -> (r: u64)
        ensures
            r == self@.total_records,
    {
        self.total_records
    }

    /// Number of base records found so far that are listed as they stand.
    pub fn found(&self) -> (r: u64)
        ensures
            r == self@.listed_count,
    {
        self.listed
    }

    /// The entries of the walk, by record number (see [`walk_entries`]): the
    /// extension records are merged into their base records, in the order of the
    /// table, and the entries with a name that are kept are listed.
    pub fn finish(self) -> (r: HashMap<u64, FileEntry>)
        ensures
            views(r@) == walk_entries(self@),
    {
        let ghost exts = extension_views(self.extensions@);
        let ghost b0 = base_views(self.bases@);
        let mut bases: HashMap<u64, (FileEntry, u8)> = self.bases;
        let extensions: Vec<ExtensionRecord> = self.extensions;
        let mut i: usize = 0;
        proof {
            assert(exts.take(0) =~= Seq::<ExtensionRecordView>::empty());
        }
        while i < extensions.len()
            invariant
                i <= extensions@.len(),
                exts == extension_views(extensions@),
                base_views(bases@) == merge_extensions(b0, exts.take(i as int)),
            decreases extensions@.len() - i,
        {
            let ext: &ExtensionRecord = &extensions[i];
            let base: u64 = ext.base_reference;
            let ghost before = base_views(bases@);
            proof {
                assert(exts.take(i + 1).drop_last() =~= exts.take(i as int));
                assert(exts.take(i + 1).last() == ext@);
            }
            match bases.remove(&base) {
                Some(found) => {
                    let (mut entry, mut rank) = found;
                    match &ext.file_name {
                        Some(n) => {
                            if n.rank > rank {
                                entry.name = n.name.clone();
                                entry.parent_reference = n.parent_reference;
                                rank = n.rank;
                            }
                        },
                        None => {},
                    }
                    match ext.data_size {
                        Some(size) => {
                            if !entry.is_directory {
                                entry.size = size;
                            }
                        },
                        None => {},
                    }
                    bases.insert(base, (entry, rank));
                    proof {
                        assert(base_views(bases@) =~= merge_extension(before, ext@));
                    }
                },
                None => {
                    proof {
                        assert(base_views(bases@) =~= before);
                    }
                },
            }
            i = i + 1;
        }
        proof {
            assert(exts.take(extensions@.len() as int) =~= exts);
        }
        let ghost merged = base_views(bases@);
        let keys: Vec<u64> = keys_of(&bases);
        let mut result: HashMap<u64, FileEntry> = HashMap::new();
        let mut k: usize = 0;
        while k < keys.len()
            invariant
                k <= keys@.len(),
                keys@.no_duplicates(),
                keys@.to_set() == merged.dom(),
                merged == merge_extensions(b0, exts),
                forall|j: int| k <= j < keys@.len() ==> #[trigger] bases@.contains_key(keys@[j])
                    && base_views(bases@)[keys@[j]] == merged[keys@[j]],
                views(result@) == Map::new(
                    |x: u64| keys@.take(k as int).contains(x) && listed(merged[x].0),
                    |x: u64| merged[x].0,
                ),
            decreases keys@.len() - k,
        {
            let key: u64 = keys[k];
            let ghost before = views(result@);
            let ghost before_result = result@;
            proof {
                assert(bases@.contains_key(keys@[k as int]));
                assert(base_views(bases@)[key] == merged[key]);
                assert(!keys@.take(k as int).contains(key)) by {
                    if keys@.take(k as int).contains(key) {
                        let j = choose|j: int| 0 <= j < k && keys@.take(k as int)[j] == key;
                        assert(keys@[j] == keys@[k as int]);
                    }
                }
            }
            match bases.remove(&key) {
                Some(found) => {
                    let (entry, _rank) = found;
                    proof {
                        assert(entry@ == merged[key].0);
                    }
                    let named: bool = !entry.name.as_str().is_empty();
                    if named && keeps(&entry) {
                        result.insert(key, entry);
                        proof {
                            assert(views(result@) =~= before.insert(key, merged[key].0));
                        }
                    } else {
                        proof {
                            assert(!listed(merged[key].0));
                        }
                    }
                },
                None => {},
            }
            proof {
                assert(keys@.take(k + 1) =~= keys@.take(k as int).push(key));
                assert forall|x: u64| keys@.take(k + 1).contains(x) <==> (keys@.take(k as int).contains(x)
                    || x == key) by {
                    if keys@.take(k + 1).contains(x) {
                        let j = choose|j: int| 0 <= j < k + 1 && #[trigger] keys@.take(k + 1)[j] == x;
                        if j < k {
                            assert(keys@.take(k as int)[j] == x);
                        }
                    }
                    if keys@.take(k as int).contains(x) {
                        let j = choose|j: int| 0 <= j < k && #[trigger] keys@.take(k as int)[j] == x;
                        assert(keys@.take(k + 1)[j] == x);
                    }
                    if x == key {
                        assert(keys@.take(k + 1)[k as int] == x);
                    }
                }
                assert forall|j: int| k + 1 <= j < keys@.len() implies #[trigger] bases@.contains_key(
                    keys@[j],
                ) && base_views(bases@)[keys@[j]] == merged[keys@[j]] by {
                    assert(keys@[j] != key);
                }
                assert(views(result@) =~= Map::new(
                    |x: u64| keys@.take(k + 1).contains(x) && listed(merged[x].0),
                    |x: u64| merged[x].0,
                ));
            }
            k = k + 1;
        }
        proof {
            assert(keys@.take(keys@.len() as int) =~= keys@);
            assert(views(result@) =~= listed_entries(merged)) by {
                assert forall|x: u64| keys@.contains(x) <==> merged.contains_key(x) by {
                    assert(keys@.to_set().contains(x) <==> keys@.contains(x));
                }
            }
        }
        result
    }
}

/// The block length is at most the larger of the chunk size and the record size.
proof fn lemma_block_len_bound(rs: nat, c: nat)
    requires
        0 < rs <= u32::MAX,
        c <= u32::MAX,
    ensures
        0 < block_len_for(rs, c) <= u32::MAX,
        c / rs != 0 ==> (c / rs) * rs <= c,
{
    if c / rs != 0 {
        assert((c / rs) * rs <= c) by (nonlinear_arith)
            requires
                rs > 0,
        ;
        assert((c / rs) * rs > 0) by (nonlinear_arith)
            requires
                rs > 0,
                c / rs != 0,
        ;
    }
}

/// The sums only grow towards the front.
proof fn lemma_records_from_grows(runs: Seq<DataRun>, bpc: nat, rs: nat, i: int, j: int)
    requires
        0 <= i <= j,
        rs > 0,
    ensures
        records_from(runs, bpc, rs, i) >= records_from(runs, bpc, rs, j),
    decreases j - i,
{
    if i < j {
        lemma_records_from_grows(runs, bpc, rs, i + 1, j);
        if i < runs.len() {
            lemma_records_from_step(runs, bpc, rs, i);
        } else {
            assert(records_from(runs, bpc, rs, i) == 0);
            assert(records_from(runs, bpc, rs, j) == 0);
        }
    }
}

impl MftScan {
    /// Moves on to the next block to read (see [`settle`]) and returns its
    /// position on the volume and its length in bytes, or `None` when the walk
    /// is over.
    pub fn next_read(&mut self) -> (r: Option<(u64, usize)>)
        requires
            scan_wf(old(self)@),
        ensures
            scan_wf(final(self)@),
            final(self)@ == settle(old(self)@),
            match pending(final(self)@) {
                Some((p, w)) => r matches Some((a, b)) && a == p && b == w,
                None => r is None,
            },
    {
        loop
            invariant
                scan_wf(self@),
                settle(self@) == settle(old(self)@),
            decreases (self.runs@.len() - self.run_index) * 2 + (if self.in_run {
                0int
            } else {
                1int
            }),
        {
            if self.finished {
                return None;
            }
            if self.in_run {
                if self.remaining > 0 && self.mft_reference < self.total_records {
                    let wanted: u64 = if self.remaining < self.block_len {
                        self.remaining
                    } else {
                        self.block_len
                    };
                    return Some((self.position, wanted as usize));
                }
                let run_count: usize = self.runs.len();
                proof {
                    assert(self.run_index < run_count);
                }
                self.in_run = false;
                self.run_index = self.run_index + 1;
            } else if self.run_index >= self.runs.len() {
                self.finished = true;
                return None;
            } else {
                let run: DataRun = self.runs[self.run_index];
                proof {
                    assert(run_fits(self.runs@[self.run_index as int], self.bytes_per_cluster as nat));
                    lemma_records_from_step(
                        self@.runs,
                        self@.bytes_per_cluster,
                        self@.record_size,
                        self.run_index as int,
                    );
                }
                let bytes: u64 = run.length * self.bytes_per_cluster;
                match run.lcn {
                    None => {
                        self.mft_reference = self.mft_reference + bytes / self.record_size;
                        self.run_index = self.run_index + 1;
                    },
                    Some(lcn) => {
                        self.position = lcn * self.bytes_per_cluster;
                        self.remaining = bytes;
                        self.in_run = true;
                    },
                }
            }
        }
    }

    /// Takes the bytes read for the pending block (as many as the volume gave,
    /// at most the block's length): every whole record in them is fixed up and
    /// parsed (see [`record_parsed`]); base records are kept by number, extension
    /// records in a list. Returns the progress reports made meanwhile, each the
    /// record number reached and the number of base records listed so far. A
    /// block without a whole record ends the walk, as does the table's last
    /// record.
    pub fn feed(&mut self, data: &[u8]) -> (reports: Vec<(u64, u64)>)
        requires
            scan_wf(old(self)@),
            pending(old(self)@) matches Some((p, w)) && data@.len() <= w,
        ensures
            scan_wf(final(self)@),
            final(self)@ == fed(old(self)@, data@),
            report_values(reports@) == fed_reports(old(self)@, data@),
    {
        let ghost s0 = self@;
        let rs: usize = self.record_size as usize;
        let data_len: usize = data.len();
        let n: usize = data_len / rs;
        let mut reports: Vec<(u64, u64)> = Vec::new();
        proof {
            assert(report_values(reports@) =~= Seq::<(nat, nat)>::empty());
        }
        if n == 0 {
            self.finished = true;
            return reports;
        }
        proof {
            vstd::arithmetic::div_mod::lemma_div_is_ordered(
                data@.len() as int,
                s0.remaining as int,
                rs as int,
            );
            assert(n * rs <= data@.len()) by (nonlinear_arith)
                requires
                    n == data@.len() / (rs as nat),
                    rs > 0,
            ;
        }
        let left: u64 = self.total_records - self.mft_reference;
        let count: usize = if (n as u64) <= left {
            n
        } else {
            left as usize
        };
        let mut k: usize = 0;
        while k < count
            invariant
                scan_wf(s0),
                s0.record_size == rs,
                0 < rs <= u32::MAX,
                n == data@.len() / (rs as nat),
                n * rs <= data@.len(),
                data@.len() == data_len,
                n <= s0.remaining / s0.record_size,
                self.record_size == s0.record_size,
                self.bytes_per_cluster == s0.bytes_per_cluster,
                self.runs@ == s0.runs,
                self.total_records == s0.total_records,
                self.block_len == s0.block_len,
                self.run_index == s0.run_index,
                self.in_run == s0.in_run,
                self.position == s0.position,
                self.remaining == s0.remaining,
                self.finished == s0.finished,
                s0.reference < s0.total_records,
                !s0.finished,
                s0.in_run,
                count == records_taken(s0, data@),
                0 < count <= n,
                k <= count,
                absorb(s0, data@, k as nat) == (self@, report_values(reports@)),
                self.mft_reference == s0.reference + k,
                self.next_progress <= self.mft_reference + PROGRESS_INTERVAL,
                self.listed <= self.mft_reference,
            decreases count - k,
        {
            proof {
                assert((k + 1) * rs <= n * rs) by (nonlinear_arith)
                    requires
                        k < n,
                ;
                assert(k * rs + rs == (k + 1) * rs) by (nonlinear_arith);
            }
            let start: usize = k * rs;
            let end: usize = start + rs;
            let mut rec: Vec<u8> = vstd::slice::slice_to_vec(&data[start..end]);
            let ghost raw = rec@;
            let ghost bases_before = self.bases@;
            let ghost extensions_before = self.extensions@;
            let ghost reports_before = reports@;
            let reference: u64 = self.mft_reference;
            if MftParser::apply_fixups(rec.as_mut_slice()) {
                match MftParser::parse(rec.as_slice(), reference) {
                    Some(ParsedRecord::Entry { entry, name_rank }) => {
                        if !entry.name.as_str().is_empty() && keeps(&entry) {
                            self.listed = self.listed + 1;
                        }
                        self.bases.insert(reference, (entry, name_rank));
                    },
                    Some(ParsedRecord::Extension(extension)) => {
                        self.extensions.push(extension);
                    },
                    None => {},
                }
            }
            proof {
                assert(raw == data@.subrange((k * rs) as int, ((k + 1) * rs) as int));
                match record_parsed(raw, reference) {
                    Some(ParsedRecordView::Entry { entry, name_rank }) => {
                        assert(base_views(self.bases@) =~= base_views(bases_before).insert(
                            reference,
                            (entry, name_rank),
                        ));
                        assert(self.extensions@ == extensions_before);
                    },
                    Some(ParsedRecordView::Extension(e)) => {
                        assert(extension_views(self.extensions@) =~= extension_views(
                            extensions_before,
                        ).push(e));
                        assert(self.bases@ == bases_before);
                    },
                    None => {
                        assert(self.bases@ == bases_before);
                        assert(self.extensions@ == extensions_before);
                    },
                }
            }
            self.mft_reference = self.mft_reference + 1;
            if self.mft_reference >= self.next_progress {
                self.next_progress = self.next_progress + PROGRESS_INTERVAL;
                let found: u64 = self.listed;
                reports.push((self.mft_reference, found));
                proof {
                    assert(report_values(reports@) =~= report_values(reports_before).push(
                        (self.mft_reference as nat, found as nat),
                    ));
                }
            }
            k = k + 1;
        }
        if count < n {
            self.finished = true;
        } else {
            let used: u64 = (n * rs) as u64;
            proof {
                assert((s0.remaining - n * rs) / (rs as int) == (s0.remaining as int) / (rs as int) - n)
                    by (nonlinear_arith)
                    requires
                        n * rs <= s0.remaining,
                        rs > 0,
                ;
            }
            self.position = self.position + used;
            self.remaining = self.remaining - used;
        }
        reports
    }
}

/// The progress text: records reached, records in all, entries found.
pub open spec fn progress_text(reference: nat, total: nat, found: nat) -> Seq<char> {
    decimal(reference) + " von "@ + decimal(total) + " Records, "@ + decimal(found)
        + " Dateien/Ordner..."@
}

/// The text at the end of a walk.
pub open spec fn final_text(found: nat) -> Seq<char> {
    decimal(found) + " Dateien/Ordner gefunden"@
}

/// The progress text for a report (see [`progress_text`]).
pub fn progress_status(reference: u64, total: u64, found: u64) -> (r: String)
    ensures
        r@ == progress_text(reference as nat, total as nat, found as nat),
{
    let mut s: String = String::new();
    push_decimal(&mut s, reference as u128);
    push_str(&mut s, " von ");
    push_decimal(&mut s, total as u128);
    push_str(&mut s, " Records, ");
    push_decimal(&mut s, found as u128);
    push_str(&mut s, " Dateien/Ordner...");
    s
}

/// The text at the end of a walk (see [`final_text`]).
pub fn final_status(found: usize) -> (r: String)
    ensures
        r@ == final_text(found as nat),
{
    let mut s: String = String::new();
    push_decimal(&mut s, found as u128);
    push_str(&mut s, " Dateien/Ordner gefunden");
    s
}

/// Every base record sits under its own record number.
pub open spec fn bases_numbered(bases: Map<u64, (FileEntryView, u8)>) -> bool {
    forall|k: u64| #[trigger] bases.contains_key(k) ==> bases[k].0.mft_reference == k
}

/// A base record found in a record carries that record's number.
pub proof fn lemma_record_parsed_numbered(record: Seq<u8>, reference: u64)
    ensures
        record_parsed(record, reference) matches Some(ParsedRecordView::Entry { entry, .. })
            ==> entry.mft_reference == reference,
{
}

/// Taking records keeps every base record under its own number.
pub proof fn lemma_absorb_numbered(s: ScanView, data: Seq<u8>, k: nat)
    requires
        bases_numbered(s.bases),
    ensures
        bases_numbered(absorb(s, data, k).0.bases),
    decreases k,
{
    if k > 0 {
        lemma_absorb_numbered(s, data, (k - 1) as nat);
        let p = absorb(s, data, (k - 1) as nat).0;
        let rec = data.subrange(((k - 1) * s.record_size) as int, (k * s.record_size) as int);
        lemma_record_parsed_numbered(rec, p.reference as u64);
    }
}

/// Merging extension records changes names, parents and sizes, not numbers.
pub proof fn lemma_merge_keeps_numbers(bases: Map<u64, (FileEntryView, u8)>, exts: Seq<ExtensionRecordView>)
    requires
        bases_numbered(bases),
    ensures
        bases_numbered(merge_extensions(bases, exts)),
    decreases exts.len(),
{
    if exts.len() > 0 {
        lemma_merge_keeps_numbers(bases, exts.drop_last());
    }
}

/// A walk keeps every base record under its own number: moving on to the next
/// block changes no record found, and a block read adds base records that carry
/// the numbers of their records.
pub proof fn lemma_walk_keeps_bases_numbered(s: ScanView, data: Seq<u8>)
    requires
        bases_numbered(s.bases),
    ensures
        bases_numbered(settle(s).bases),
        bases_numbered(fed(s, data).bases),
{
    lemma_settle_keeps_entries(s);
    if data.len() / s.record_size != 0 {
        lemma_absorb_numbered(s, data, records_taken(s, data));
    }
}

/// The entries of a walk whose base records sit under their numbers: each under
/// its own record number, with a name, and none a system file but the recycle
/// bin.
pub proof fn lemma_walk_entries_listed(s: ScanView)
    requires
        bases_numbered(s.bases),
    ensures
        forall|k: u64| #[trigger] walk_entries(s).contains_key(k) ==> {
            let e = walk_entries(s)[k];
            &&& e.mft_reference == k
            &&& e.name.len() > 0
            &&& kept(e)
        },
{
    lemma_merge_keeps_numbers(s.bases, s.extensions);
}

/// Moving on to the next block leaves the records found as they are.
pub proof fn lemma_settle_keeps_entries(s: ScanView)
    ensures
        settle(s).bases == s.bases,
        settle(s).extensions == s.extensions,
    decreases (if 0 <= s.run_index <= s.runs.len() {
        (s.runs.len() - s.run_index) * 2 + (if s.in_run {
            0int
        } else {
            1int
        })
    } else {
        0
    }),
{
    if s.finished || !(0 <= s.run_index <= s.runs.len()) {
    } else if s.in_run {
        if s.remaining > 0 && s.reference < s.total_records {
        } else if s.run_index >= s.runs.len() {
        } else {
            lemma_settle_keeps_entries(ScanView { in_run: false, run_index: s.run_index + 1, ..s });
        }
    } else if s.run_index >= s.runs.len() {
    } else {
        let run = s.runs[s.run_index];
        let bytes: nat = run.length as nat * s.bytes_per_cluster;
        match run.lcn {
            None => lemma_settle_keeps_entries(
                ScanView {
                    reference: s.reference + bytes / s.record_size,
                    run_index: s.run_index + 1,
                    ..s
                },
            ),
            Some(lcn) => lemma_settle_keeps_entries(
                ScanView {
                    in_run: true,
                    position: lcn as nat * s.bytes_per_cluster,
                    remaining: bytes,
                    ..s
                },
            ),
        }
    }
}

/// Whether a walk lists an entry depends on its name alone: it lists exactly the
/// merged base records whose name is not empty and either does not start with `$`
/// (the system files) or is `$Recycle.Bin`; hidden and system flags play no part.
pub proof fn lemma_listing_by_name_only(s: ScanView)
    ensures
        forall|k: u64|
            #[trigger] walk_entries(s).contains_key(k) <==> {
                let merged = merge_extensions(s.bases, s.extensions);
                &&& merged.contains_key(k)
                &&& merged[k].0.name.len() > 0
                &&& (merged[k].0.name[0] != '$' || merged[k].0.name == "$Recycle.Bin"@)
            },
        forall|k: u64|
            #[trigger] walk_entries(s).contains_key(k) ==> walk_entries(s)[k] == merge_extensions(
                s.bases,
                s.extensions,
            )[k].0,
{
}

} // verus!
