use vstd::prelude::*;

use crate::process::{sort_processes, sorted_rows, views, DiskInfo, ProcessInfo, ProcessSort, ProcessView};
use crate::search::{chars_of, contains_chars, contains_text, lower_of, lowercase};
use crate::dashboard::Effect;
use crate::tree::{build_process_tree, has_pid, pids_unique, tree_order};

verus! {

/// A process as the metrics provider reports it. `user` is the resolved
/// user name, absent when the user id could not be resolved; `cpu` is in
/// hundredths of a percent.
#[derive(Clone, Debug)]
pub struct RawProcess {
    pub pid: u32,
    pub name: String,
    pub user: Option<String>,
    pub cmd: String,
    pub cpu: u32,
    pub mem_bytes: u64,
    pub parent: Option<u32>,
}

/// One reading of the metrics provider. Percentages are in hundredths of a
/// percent, temperatures in thousandths of a degree Celsius, `networks` holds
/// each interface's cumulative received and transmitted bytes, and
/// `disk_sectors` the cumulative sectors read and written, if known.
#[derive(Clone, Debug)]
pub struct MetricsSample {
    pub cpu_model: String,
    pub cpu_global: u32,
    pub cpu_cores: Vec<u32>,
    pub total_memory: u64,
    pub available_memory: u64,
    pub uptime: u64,
    pub networks: Vec<(u64, u64)>,
    pub disk_sectors: Option<(u64, u64)>,
    pub disks: Vec<DiskInfo>,
    pub sensors: Vec<(String, i32)>,
    pub processes: Vec<RawProcess>,
}

/// The row made of a provider's process: an unresolved user shows as root.
pub open spec fn record_of(raw: RawProcess) -> ProcessView {
    ProcessView {
        pid: raw.pid,
        name: raw.name@,
        user: match raw.user {
            Some(u) => u@,
            None => "root"@,
        },
        cmd: raw.cmd@,
        cpu: raw.cpu,
        mem_bytes: raw.mem_bytes,
        parent: raw.parent,
        indent: 0,
    }
}

/// The rows of a process list, keeping the first row of each pid.
pub open spec fn distinct_rows(s: Seq<ProcessView>) -> Seq<ProcessView>
    decreases s.len(),
{
    if s.len() == 0 {
        s
    } else {
        let d = distinct_rows(s.drop_last());
        if has_pid(d, s.last().pid) {
            d
        } else {
            d.push(s.last())
        }
    }
}

/// The process table of a provider's list.
pub open spec fn table_of(raw: Seq<RawProcess>) -> Seq<ProcessView> {
    distinct_rows(raw.map_values(|p: RawProcess| record_of(p)))
}

/// Whether a key lists the largest values first by default.
pub open spec fn default_descending(key: ProcessSort) -> bool {
    key == ProcessSort::Cpu || key == ProcessSort::Memory
}

/// The process table as the cache exposes it under `key`: CPU and memory
/// descending, pid, name and user ascending, or tree order.
pub open spec fn ordered_rows(table: Seq<ProcessView>, key: ProcessSort) -> Seq<ProcessView> {
    if key == ProcessSort::Tree {
        tree_order(table)
    } else {
        sorted_rows(table, key, default_descending(key))
    }
}

/// Sensor readings as label text and value.
pub open spec fn reading_views(s: Seq<(String, i32)>) -> Seq<(Seq<char>, i32)> {
    s.map_values(|e: (String, i32)| (e.0@, e.1))
}

/// The readings with a positive temperature; the others are invalid.
pub open spec fn positive_readings(s: Seq<(Seq<char>, i32)>) -> Seq<(Seq<char>, i32)>
    decreases s.len(),
{
    if s.len() == 0 {
        s
    } else if s.last().1 > 0 {
        positive_readings(s.drop_last()).push(s.last())
    } else {
        positive_readings(s.drop_last())
    }
}

/// Whether a sensor label names a CPU sensor.
pub open spec fn is_cpu_label(label: Seq<char>) -> bool {
    let l = lower_of(label);
    contains_text(l, "cpu"@) || contains_text(l, "core"@) || contains_text(l, "package"@)
}

/// The number and the sum of the CPU readings among `s`.
pub open spec fn cpu_readings(s: Seq<(Seq<char>, i32)>) -> (nat, int)
    decreases s.len(),
{
    if s.len() == 0 {
        (0, 0)
    } else {
        let (n, sum) = cpu_readings(s.drop_last());
        if is_cpu_label(s.last().0) {
            (n + 1, sum + s.last().1)
        } else {
            (n, sum)
        }
    }
}

/// The mean CPU temperature of valid readings, rounded down; 0 without any.
pub open spec fn cpu_temp_of(valid: Seq<(Seq<char>, i32)>) -> int {
    let (n, sum) = cpu_readings(valid);
    if n == 0 {
        0
    } else {
        sum / (n as int)
    }
}

/// The sum of the received (`rx`) or transmitted byte counters.
pub open spec fn counter_sum(nets: Seq<(u64, u64)>, rx: bool) -> int
    decreases nets.len(),
{
    if nets.len() == 0 {
        0
    } else {
        counter_sum(nets.drop_last(), rx) + if rx {
            nets.last().0
        } else {
            nets.last().1
        }
    }
}

/// `x`, held to the range of `u64`.
pub open spec fn capped(x: int) -> u64 {
    if x < 0 {
        0
    } else if x > u64::MAX {
        u64::MAX
    } else {
        x as u64
    }
}

/// The growth of a cumulative counter since the previous sample: never
/// negative, and 0 without a previous sample.
pub open spec fn counter_rate(current: u64, previous: Option<u64>) -> u64 {
    match previous {
        Some(p) => if current >= p {
            (current - p) as u64
        } else {
            0
        },
        None => 0,
    }
}

/// The sectors-read counter of a disk sample, if any.
pub open spec fn sectors_read(d: Option<(u64, u64)>) -> Option<u64> {
    match d {
        Some((r, _)) => Some(r),
        None => None,
    }
}

/// The sectors-written counter of a disk sample, if any.
pub open spec fn sectors_written(d: Option<(u64, u64)>) -> Option<u64> {
    match d {
        Some((_, w)) => Some(w),
        None => None,
    }
}

/// The latest derived metrics: refreshed from one provider sample at a
/// time, with rates taken against the previous sample.
pub struct SysCache {
    pub cpu_model: String,
    pub cpu_cores: Vec<u32>,
    pub cpu_global: u32,
    pub cpu_temp: i32,
    pub total_mem: u64,
    pub used_mem: u64,
    pub uptime: u64,
    pub rx_rate: u64,
    pub tx_rate: u64,
    pub prev_rx: Option<u64>,
    pub prev_tx: Option<u64>,
    pub prev_disk_stats: Option<(u64, u64)>,
    pub disk_read_rate: u64,
    pub disk_write_rate: u64,
    pub sensors: Vec<(String, i32)>,
    pub disks: Vec<DiskInfo>,
    pub table: Vec<ProcessInfo>,
    pub procs: Vec<ProcessInfo>,
    pub sort_by: ProcessSort,
}

/// Bytes in a disk sector.
pub const SECTOR_BYTES: u64 = 512;

fn row_of(raw: RawProcess) -> (r: ProcessInfo)
    ensures
        r@ == record_of(raw),
{
    let user = match raw.user {
        Some(u) => u,
        None => String::from_str("root"),
    };
    ProcessInfo {
        pid: raw.pid,
        name: raw.name,
        user,
        cmd: raw.cmd,
        cpu: raw.cpu,
        mem_bytes: raw.mem_bytes,
        parent: raw.parent,
        indent: 0,
    }
}

/// Whether some row has pid `pid`.
pub fn contains_pid(rows: &Vec<ProcessInfo>, pid: u32) -> (r: bool)
    ensures
        r == has_pid(views(rows@), pid),
{
    let ghost s = views(rows@);
    let mut j: usize = 0;
    while j < rows.len()
        invariant
            s == views(rows@),
            s.len() == rows@.len(),
            forall|k: int| 0 <= k < j ==> s[k].pid != pid,
        decreases rows@.len() - j,
    {
        if rows[j].pid == pid {
            assert(s[j as int].pid == pid);
            return true;
        }
        j = j + 1;
    }
    false
}

/// Builds the process table from the provider's list: unresolved users show
/// as root, and of two entries with one pid the first is kept.
pub fn process_table(raw: Vec<RawProcess>) -> (r: Vec<ProcessInfo>)
    ensures
        views(r@) == table_of(raw@),
        pids_unique(views(r@)),
{
    let ghost mapped = raw@.map_values(|p: RawProcess| record_of(p));
    let n = raw.len();
    let mut rest = raw;
    let mut out: Vec<ProcessInfo> = Vec::new();
    let mut i: usize = 0;
    while i < n
        invariant
            i <= n,
            n == mapped.len(),
            rest@.len() == n - i,
            forall|k: int| 0 <= k < n - i ==> record_of(#[trigger] rest@[k]) == mapped[k + i],
            views(out@) == distinct_rows(mapped.take(i as int)),
            pids_unique(views(out@)),
        decreases n - i,
    {
        let p = rest.remove(0);
        let row = row_of(p);
        assert(mapped.take(i + 1).drop_last() =~= mapped.take(i as int));
        assert(mapped.take(i + 1).last() == row@);
        if !contains_pid(&out, row.pid) {
            let ghost prev = out@;
            out.push(row);
            assert(views(out@) =~= views(prev).push(row@));
        }
        i = i + 1;
    }
    assert(mapped.take(n as int) =~= mapped);
    out
}

fn copy_rows(rows: &Vec<ProcessInfo>) -> (r: Vec<ProcessInfo>)
    ensures
        views(r@) == views(rows@),
{
    let mut out: Vec<ProcessInfo> = Vec::new();
    let mut i: usize = 0;
    while i < rows.len()
        invariant
            i <= rows@.len(),
            views(out@) == views(rows@).take(i as int),
        decreases rows@.len() - i,
    {
        let ghost prev = out@;
        let row = rows[i].duplicate();
        out.push(row);
        assert(views(out@) =~= views(prev).push(row@));
        assert(views(out@) =~= views(rows@).take(i + 1));
        i = i + 1;
    }
    assert(views(rows@).take(rows@.len() as int) =~= views(rows@));
    out
}

/// Orders the process table under `key`: CPU and memory descending, pid,
/// name and user ascending (ties keep the table's order), or tree order.
pub fn top_processes(table: &Vec<ProcessInfo>, key: ProcessSort) -> (r: Vec<ProcessInfo>)
    requires
        pids_unique(views(table@)),
    ensures
        views(r@) == ordered_rows(views(table@), key),
{
    let rows = copy_rows(table);
    match key {
        ProcessSort::Tree => build_process_tree(rows),
        ProcessSort::Cpu => sort_processes(rows, key, true),
        ProcessSort::Memory => sort_processes(rows, key, true),
        _ => sort_processes(rows, key, false),
    }
}

/// Keeps the readings with a positive temperature.
pub fn valid_readings(readings: Vec<(String, i32)>) -> (r: Vec<(String, i32)>)
    ensures
        reading_views(r@) == positive_readings(reading_views(readings@)),
        forall|k: int| 0 <= k < r@.len() ==> (#[trigger] r@[k]).1 > 0,
{
    let ghost all = reading_views(readings@);
    let n = readings.len();
    let mut rest = readings;
    let mut out: Vec<(String, i32)> = Vec::new();
    let mut i: usize = 0;
    while i < n
        invariant
            i <= n,
            n == all.len(),
            rest@.len() == n - i,
            forall|k: int| 0 <= k < n - i ==> (#[trigger] rest@[k]).0@ == all[k + i].0 && rest@[k].1 == all[k + i].1,
            reading_views(out@) == positive_readings(all.take(i as int)),
            forall|k: int| 0 <= k < out@.len() ==> (#[trigger] out@[k]).1 > 0,
        decreases n - i,
    {
        let e = rest.remove(0);
        assert(all.take(i + 1).drop_last() =~= all.take(i as int));
        assert(all.take(i + 1).last() == (e.0@, e.1));
        if e.1 > 0 {
            let ghost prev = out@;
            let ghost ev = (e.0@, e.1);
            out.push(e);
            assert(reading_views(out@) =~= reading_views(prev).push(ev));
        }
        i = i + 1;
    }
    assert(all.take(n as int) =~= all);
    out
}

/// Whether a sensor label names a CPU sensor, ignoring case.
pub fn is_cpu_sensor(label: &str) -> (r: bool)
    ensures
        r == is_cpu_label(label@),
{
    let folded = lowercase(label);
    let l = chars_of(folded.as_str());
    contains_chars(&l, &chars_of("cpu")) || contains_chars(&l, &chars_of("core")) || contains_chars(
        &l,
        &chars_of("package"),
    )
}

/// The mean temperature of the CPU readings among valid ones, rounded down.
pub fn cpu_temperature(valid: &Vec<(String, i32)>) -> (r: i32)
    requires
        forall|k: int| 0 <= k < valid@.len() ==> (#[trigger] valid@[k]).1 > 0,
    ensures
        r == cpu_temp_of(reading_views(valid@)),
{
    let ghost all = reading_views(valid@);
    let mut sum: u128 = 0;
    let mut count: u64 = 0;
    let mut i: usize = 0;
    while i < valid.len()
        invariant
            i <= valid@.len(),
            all == reading_views(valid@),
            forall|k: int| 0 <= k < valid@.len() ==> (#[trigger] valid@[k]).1 > 0,
            cpu_readings(all.take(i as int)) == (count as nat, sum as int),
            count <= i,
            sum <= count * 2147483647,
        decreases valid@.len() - i,
    {
        assert(all.take(i + 1).drop_last() =~= all.take(i as int));
        assert(all.take(i + 1).last() == all[i as int]);
        if is_cpu_sensor(valid[i].0.as_str()) {
            let t = valid[i].1;
            sum = sum + t as u128;
            count = count + 1;
        }
        i = i + 1;
    }
    assert(all.take(valid@.len() as int) =~= all);
    if count == 0 {
        0
    } else {
        let mean = sum / (count as u128);
        assert(mean <= 2147483647) by (nonlinear_arith)
            requires
                sum <= count * 2147483647,
                count > 0,
                mean == sum / (count as u128),
        ;
        mean as i32
    }
}

/// The sum of the received (`rx`) or transmitted counters of all
/// interfaces, held at the largest `u64`.
pub fn counter_total(nets: &Vec<(u64, u64)>, rx: bool) -> (r: u64)
    ensures
        r == capped(counter_sum(nets@, rx)),
{
    let mut total: u64 = 0;
    let mut i: usize = 0;
    while i < nets.len()
        invariant
            i <= nets@.len(),
            total == capped(counter_sum(nets@.take(i as int), rx)),
            counter_sum(nets@.take(i as int), rx) >= 0,
        decreases nets@.len() - i,
    {
        assert(nets@.take(i + 1).drop_last() =~= nets@.take(i as int));
        let x = if rx {
            nets[i].0
        } else {
            nets[i].1
        };
        total = total.saturating_add(x);
        i = i + 1;
    }
    assert(nets@.take(nets@.len() as int) =~= nets@);
    total
}

fn sector_rate(current: u64, previous: Option<u64>) -> (r: u64)
    ensures
        r == capped(SECTOR_BYTES * counter_rate(current, previous)),
{
    let diff = match previous {
        Some(p) => current.saturating_sub(p),
        None => 0,
    };
    if diff > u64::MAX / SECTOR_BYTES {
        assert(SECTOR_BYTES * diff > u64::MAX) by (nonlinear_arith)
            requires
                diff > u64::MAX / SECTOR_BYTES,
                SECTOR_BYTES == 512,
        ;
        u64::MAX
    } else {
        assert(SECTOR_BYTES * diff <= u64::MAX) by (nonlinear_arith)
            requires
                diff <= u64::MAX / SECTOR_BYTES,
                SECTOR_BYTES == 512,
        ;
        diff * SECTOR_BYTES
    }
}

impl SysCache {
    /// The process table is keyed by pid and exposed in the order of the key.
    pub open spec fn wf(&self) -> bool {
        &&& pids_unique(views(self.table@))
        &&& views(self.procs@) == ordered_rows(views(self.table@), self.sort_by)
    }





    /// No sample has been taken yet: there is no baseline for rates.
    pub open spec fn is_fresh(&self) -> bool {
        self.prev_rx is None && self.prev_tx is None && self.prev_disk_stats is None
    }



    /// What one refresh makes of `old` with `sample`.
    pub open spec fn refreshed(old: SysCache, sample: MetricsSample, new: SysCache) -> bool {
        let rx = capped(counter_sum(sample.networks@, true));
        let tx = capped(counter_sum(sample.networks@, false));
        let valid = positive_readings(reading_views(sample.sensors@));
        &&& new.wf()
        &&& new.cpu_model@ == sample.cpu_model@
        &&& new.cpu_cores@ == sample.cpu_cores@
        &&& new.cpu_global == sample.cpu_global
        &&& new.total_mem == sample.total_memory
        &&& new.used_mem == capped(sample.total_memory - sample.available_memory)
        &&& new.uptime == sample.uptime
        &&& new.rx_rate == counter_rate(rx, old.prev_rx)
        &&& new.tx_rate == counter_rate(tx, old.prev_tx)
        &&& new.prev_rx == Some(rx)
        &&& new.prev_tx == Some(tx)
        &&& match sample.disk_sectors {
            Some((rd, wr)) => {
                &&& new.disk_read_rate == capped(
                    SECTOR_BYTES * counter_rate(rd, sectors_read(old.prev_disk_stats)),
                )
                &&& new.disk_write_rate == capped(
                    SECTOR_BYTES * counter_rate(wr, sectors_written(old.prev_disk_stats)),
                )
                &&& new.prev_disk_stats == Some((rd, wr))
            },
            None => new.disk_read_rate == 0 && new.disk_write_rate == 0 && new.prev_disk_stats
                is None,
        }
        &&& reading_views(new.sensors@) == valid
        &&& new.cpu_temp == cpu_temp_of(valid)
        &&& new.disks@ == sample.disks@
        &&& views(new.table@) == table_of(sample.processes@)
        &&& new.sort_by == old.sort_by
    }

    /// An empty cache, ordered by CPU, with no baseline for rates.
    pub fn new() -> (r: SysCache)
        ensures
            r.wf(),
            r.is_fresh(),
            r.sort_by == ProcessSort::Cpu,
            r.table@.len() == 0,
            r.procs@.len() == 0,
            r.rx_rate == 0 && r.tx_rate == 0,
    {
        let r = SysCache {
            cpu_model: String::new(),
            cpu_cores: Vec::new(),
            cpu_global: 0,
            cpu_temp: 0,
            total_mem: 0,
            used_mem: 0,
            uptime: 0,
            rx_rate: 0,
            tx_rate: 0,
            prev_rx: None,
            prev_tx: None,
            prev_disk_stats: None,
            disk_read_rate: 0,
            disk_write_rate: 0,
            sensors: Vec::new(),
            disks: Vec::new(),
            table: Vec::new(),
            procs: Vec::new(),
            sort_by: ProcessSort::Cpu,
        };
        assert(views(r.table@) =~= Seq::<ProcessView>::empty());
        assert(views(r.procs@) =~= Seq::<ProcessView>::empty());
        reveal_with_fuel(crate::sorting::stable_sort, 1);
        r
    }

    /// Takes one provider sample: rates against the previous sample (none
    /// on the first), valid sensors, the CPU temperature and the process
    /// table ordered by the current key.
    pub fn refresh(&mut self, sample: MetricsSample)
        requires
            old(self).wf(),
        ensures
            SysCache::refreshed(*old(self), sample, *final(self)),
    {
        let ghost s = sample;
        let rx = counter_total(&sample.networks, true);
        let tx = counter_total(&sample.networks, false);
        self.rx_rate = match self.prev_rx {
            Some(p) => rx.saturating_sub(p),
            None => 0,
        };
        self.tx_rate = match self.prev_tx {
            Some(p) => tx.saturating_sub(p),
            None => 0,
        };
        self.prev_rx = Some(rx);
        self.prev_tx = Some(tx);
        match sample.disk_sectors {
            Some((rd, wr)) => {
                let (prev_rd, prev_wr) = match self.prev_disk_stats {
                    Some((a, b)) => (Some(a), Some(b)),
                    None => (None, None),
                };
                self.disk_read_rate = sector_rate(rd, prev_rd);
                self.disk_write_rate = sector_rate(wr, prev_wr);
                self.prev_disk_stats = Some((rd, wr));
            },
            None => {
                self.disk_read_rate = 0;
                self.disk_write_rate = 0;
                self.prev_disk_stats = None;
            },
        }
        self.cpu_model = sample.cpu_model;
        self.cpu_cores = sample.cpu_cores;
        self.cpu_global = sample.cpu_global;
        self.total_mem = sample.total_memory;
        self.used_mem = sample.total_memory.saturating_sub(sample.available_memory);
        self.uptime = sample.uptime;
        let valid = valid_readings(sample.sensors);
        self.cpu_temp = cpu_temperature(&valid);
        self.sensors = valid;
        self.disks = sample.disks;
        let table = process_table(sample.processes);
        self.procs = top_processes(&table, self.sort_by);
        self.table = table;
    }

    /// Changes the key and orders the process table under it.
    pub fn set_sort(&mut self, key: ProcessSort)
        requires
            old(self).wf(),
        ensures
            final(self).wf(),
            *final(self) == (SysCache { procs: final(self).procs, sort_by: key, ..*old(self) }),
    {
        self.procs = top_processes(&self.table, key);
        self.sort_by = key;
    }

    /// The process rows in the order of the current key.
    pub fn processes(&self) -> (r: &[ProcessInfo])
        ensures
            r@ == self.procs@,
    {
        self.procs.as_slice()
    }

    /// The mounted file systems of the last sample.
    pub fn disks(&self) -> (r: &[DiskInfo])
        ensures
            r@ == self.disks@,
    {
        self.disks.as_slice()
    }

    /// Decides a kill request: the kill goes out for a pid of the last
    /// snapshot; for any other pid (the process is most likely gone) the
    /// request is a silent no-op.
    pub fn kill_process(&self, pid: u32) -> (r: Effect)
        ensures
            r == if has_pid(views(self.table@), pid) {
                Effect::Kill(pid)
            } else {
                Effect::Nothing
            },
    {
        if contains_pid(&self.table, pid) {
            Effect::Kill(pid)
        } else {
            Effect::Nothing
        }
    }

    /// The battery charge in hundredths of a percent: no source provides it.
    pub fn battery_percentage(&self) -> (r: Option<u32>)
        ensures
            r is None,
    {
        None
    }
}

/// Every refresh yields rates that are never negative: each is the growth
/// of the summed counter since the previous sample, or 0 when the counter
/// went back, or 0 without a previous sample.
pub proof fn lemma_rates_saturate(old: SysCache, sample: MetricsSample, new: SysCache)
    requires
        SysCache::refreshed(old, sample, new),
    ensures
        new.rx_rate >= 0,
        new.tx_rate >= 0,
        new.rx_rate as int == match old.prev_rx {
            Some(p) => if new.prev_rx->0 >= p {
                new.prev_rx->0 - p
            } else {
                0
            },
            None => 0,
        },
        new.tx_rate as int == match old.prev_tx {
            Some(p) => if new.prev_tx->0 >= p {
                new.prev_tx->0 - p
            } else {
                0
            },
            None => 0,
        },
{
}

/// The first refresh after construction reports no traffic, however large
/// the counters already are.
pub proof fn lemma_first_refresh_has_zero_rates(old: SysCache, sample: MetricsSample, new: SysCache)
    requires
        old.is_fresh(),
        SysCache::refreshed(old, sample, new),
    ensures
        new.rx_rate == 0,
        new.tx_rate == 0,
        new.disk_read_rate == 0,
        new.disk_write_rate == 0,
{
}

/// Two refreshes in a row whose network counters did not move report no
/// traffic on the second.
pub proof fn lemma_unchanged_counters_give_zero_rates(
    a: SysCache,
    first: MetricsSample,
    b: SysCache,
    second: MetricsSample,
    c: SysCache,
)
    requires
        SysCache::refreshed(a, first, b),
        SysCache::refreshed(b, second, c),
        first.networks@ == second.networks@,
    ensures
        c.rx_rate == 0,
        c.tx_rate == 0,
{
}

} // verus!
