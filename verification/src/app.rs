//! The dashboard's state: one instance owns all histories, the current
//! process snapshot, the sort/filter/selection state and the
//! configuration. It is created once at startup from CLI-derived values
//! and mutated only by the aggregation engine and by the input handlers.

use vstd::prelude::*;
use crate::gpu::{GpuInfo, GpuView};
use crate::process::{ProcessInfo, SortColumn};
use crate::ring::{RingBuffer, HISTORY_LEN};
use crate::text::{ci_eq, ci_eq_exec};

verus! {

/// Usage percentages are held in hundredths of a percent; a full scale of
/// one hundred percent is this many units.
pub const USAGE_MAX: u32 = 10_000;

/// Rolling usage history of one CPU core. The identity is stable for the
/// process lifetime; usage is in hundredths of a percent.
pub struct CpuHistory {
    pub core_name: String,
    pub usage: u32,
    pub history: RingBuffer,
}

/// The mathematical image of a core's history.
#[verifier::ext_equal]
pub ghost struct CoreView {
    pub name: Seq<char>,
    pub usage: u32,
    pub history: Seq<u64>,
}

impl View for CpuHistory {
    type V = CoreView;

    open spec fn view(&self) -> CoreView {
        CoreView { name: self.core_name@, usage: self.usage, history: self.history@ }
    }
}

impl DeepView for CpuHistory {
    type V = CoreView;

    open spec fn deep_view(&self) -> CoreView {
        self@
    }
}

/// Rolling byte counters and histories of one network interface. Created
/// on first sighting, never pruned when the interface stops reporting.
pub struct NetworkHistory {
    pub interface_name: String,
    pub rx_bytes: u64,
    pub tx_bytes: u64,
    pub rx_history: RingBuffer,
    pub tx_history: RingBuffer,
}

/// The mathematical image of an interface's history.
#[verifier::ext_equal]
pub ghost struct NetView {
    pub name: Seq<char>,
    pub rx: u64,
    pub tx: u64,
    pub rx_history: Seq<u64>,
    pub tx_history: Seq<u64>,
}

impl View for NetworkHistory {
    type V = NetView;

    open spec fn view(&self) -> NetView {
        NetView {
            name: self.interface_name@,
            rx: self.rx_bytes,
            tx: self.tx_bytes,
            rx_history: self.rx_history@,
            tx_history: self.tx_history@,
        }
    }
}

impl DeepView for NetworkHistory {
    type V = NetView;

    open spec fn deep_view(&self) -> NetView {
        self@
    }
}

/// One core's reading from the OS metric provider: identity and usage in
/// hundredths of a percent, clamped by the adapter to full scale.
pub struct CpuSample {
    pub name: String,
    pub usage: u32,
}

/// The mathematical image of a core reading.
#[verifier::ext_equal]
pub ghost struct CpuSampleView {
    pub name: Seq<char>,
    pub usage: u32,
}

impl View for CpuSample {
    type V = CpuSampleView;

    open spec fn view(&self) -> CpuSampleView {
        CpuSampleView { name: self.name@, usage: self.usage }
    }
}

impl DeepView for CpuSample {
    type V = CpuSampleView;

    open spec fn deep_view(&self) -> CpuSampleView {
        self@
    }
}

/// One interface's reading: identity and the bytes received and
/// transmitted since the previous refresh.
pub struct NetSample {
    pub name: String,
    pub rx: u64,
    pub tx: u64,
}

/// The mathematical image of an interface reading.
#[verifier::ext_equal]
pub ghost struct NetSampleView {
    pub name: Seq<char>,
    pub rx: u64,
    pub tx: u64,
}

impl View for NetSample {
    type V = NetSampleView;

    open spec fn view(&self) -> NetSampleView {
        NetSampleView { name: self.name@, rx: self.rx, tx: self.tx }
    }
}

impl DeepView for NetSample {
    type V = NetSampleView;

    open spec fn deep_view(&self) -> NetSampleView {
        self@
    }
}

/// Every core reading is within full scale.
pub open spec fn cpu_samples_wf(cs: Seq<CpuSampleView>) -> bool {
    forall|i: int| 0 <= i < cs.len() ==> (#[trigger] cs[i]).usage <= USAGE_MAX
}

/// One tick's flat adapter output: the raw readings of every source. The
/// GPU text is the external command's raw output, absent when the command
/// could not be run or failed.
pub struct SystemSample {
    pub cpus: Vec<CpuSample>,
    pub interfaces: Vec<NetSample>,
    pub processes: Vec<ProcessInfo>,
    pub gpu_text: Option<String>,
}

impl SystemSample {
    /// A sample is well formed when its core readings are within scale.
    pub open spec fn wf(&self) -> bool {
        cpu_samples_wf(self.cpus.deep_view())
    }
}

/// Core histories are well formed: usage within scale, a full window each.
pub open spec fn cpu_hist_wf(s: Seq<CoreView>) -> bool {
    forall|i: int|
        0 <= i < s.len() ==> (#[trigger] s[i]).usage <= USAGE_MAX && s[i].history.len()
            == HISTORY_LEN
}

/// Interface histories are well formed: a full window each way.
pub open spec fn net_hist_wf(s: Seq<NetView>) -> bool {
    forall|i: int|
        0 <= i < s.len() ==> (#[trigger] s[i]).rx_history.len() == HISTORY_LEN
            && s[i].tx_history.len() == HISTORY_LEN
}

/// GPU readings are well formed: a full window each.
pub open spec fn gpus_wf(s: Seq<GpuView>) -> bool {
    forall|i: int| 0 <= i < s.len() ==> (#[trigger] s[i]).history.len() == HISTORY_LEN
}

/// The whole dashboard state.
pub struct AppState {
    pub cpu_history: Vec<CpuHistory>,
    pub gpus: Option<Vec<GpuInfo>>,
    pub overall_cpu: u32,
    pub network_history: Vec<NetworkHistory>,
    pub processes: Vec<ProcessInfo>,
    pub sort_column: SortColumn,
    pub sort_ascending: bool,
    pub selected_process: usize,
    pub tick_rate_ms: u64,
    pub should_quit: bool,
    pub search_mode: bool,
    pub search_query: String,
    pub show_loopback: bool,
    pub max_processes: usize,
}

/// The sort column a configuration word names, compared without regard to
/// ASCII case; anything unrecognised falls back to the CPU column.
pub open spec fn sort_column_of(s: Seq<char>) -> SortColumn {
    if ci_eq(s, "pid"@) {
        SortColumn::Pid
    } else if ci_eq(s, "name"@) {
        SortColumn::Name
    } else if ci_eq(s, "mem"@) || ci_eq(s, "memory"@) {
        SortColumn::Memory
    } else {
        SortColumn::Cpu
    }
}

/// Parses the configured sort column name.
pub fn parse_sort_column(sort: &str) -> (c: SortColumn)
    ensures
        c == sort_column_of(sort@),
{
    if ci_eq_exec(sort, "pid") {
        SortColumn::Pid
    } else if ci_eq_exec(sort, "name") {
        SortColumn::Name
    } else if ci_eq_exec(sort, "mem") {
        SortColumn::Memory
    } else if ci_eq_exec(sort, "memory") {
        SortColumn::Memory
    } else {
        SortColumn::Cpu
    }
}

impl AppState {
    /// The state's invariant: every history holds a full window, usage
    /// figures are within scale, the snapshot respects the configured
    /// maximum, and the selection is in range or zero on an empty list.
    pub open spec fn wf(&self) -> bool {
        &&& cpu_hist_wf(self.cpu_history.deep_view())
        &&& net_hist_wf(self.network_history.deep_view())
        &&& (match self.gpus {
            Some(ref v) => gpus_wf(v.deep_view()),
            None => true,
        })
        &&& self.overall_cpu <= USAGE_MAX
        &&& self.processes@.len() <= self.max_processes
        &&& (self.selected_process < self.processes@.len() || self.selected_process == 0)
    }

    /// Creates the initial state from CLI-derived configuration: no
    /// histories yet, an empty snapshot, descending sort by the parsed
    /// column, no search, loopback hidden unless asked for.
    pub fn new(tick_rate: u64, show_loopback: bool, max_processes: usize, sort: String) -> (r: Self)
        ensures
            r.wf(),
            r.cpu_history@.len() == 0,
            r.gpus is None,
            r.overall_cpu == 0,
            r.network_history@.len() == 0,
            r.processes@.len() == 0,
            r.sort_column == sort_column_of(sort@),
            r.sort_ascending == false,
            r.selected_process == 0,
            r.tick_rate_ms == tick_rate,
            r.should_quit == false,
            r.search_mode == false,
            r.search_query@.len() == 0,
            r.show_loopback == show_loopback,
            r.max_processes == max_processes,
    {
        let sort_column = parse_sort_column(sort.as_str());
        AppState {
            cpu_history: Vec::new(),
            gpus: None,
            overall_cpu: 0,
            network_history: Vec::new(),
            processes: Vec::new(),
            sort_column,
            sort_ascending: false,
            selected_process: 0,
            tick_rate_ms: tick_rate,
            should_quit: false,
            search_mode: false,
            search_query: String::new(),
            show_loopback,
            max_processes,
        }
    }

    /// Moves the selection one row down, clamped to the last row; a no-op
    /// on an empty list.
    pub fn next_process(&mut self)
        requires
            old(self).wf(),
        ensures
            final(self).wf(),
            old(self).processes@.len() == 0 ==> *final(self) == *old(self),
            old(self).processes@.len() > 0 ==> *final(self) == (AppState {
                selected_process: if old(self).selected_process + 1 < old(self).processes@.len() {
                    (old(self).selected_process + 1) as usize
                } else {
                    (old(self).processes@.len() - 1) as usize
                },
                ..*old(self)
            }),
    {
        if self.processes.is_empty() {
            return;
        }
        let last = self.processes.len() - 1;
        if self.selected_process < last {
            self.selected_process = self.selected_process + 1;
        } else {
            self.selected_process = last;
        }
    }

    /// Moves the selection one row up, clamped to the first row; a no-op
    /// on an empty list.
    pub fn previous_process(&mut self)
        requires
            old(self).wf(),
        ensures
            final(self).wf(),
            old(self).processes@.len() == 0 ==> *final(self) == *old(self),
            old(self).processes@.len() > 0 ==> *final(self) == (AppState {
                selected_process: if old(self).selected_process == 0 {
                    0
                } else {
                    (old(self).selected_process - 1) as usize
                },
                ..*old(self)
            }),
    {
        if self.processes.is_empty() {
            return;
        }
        if self.selected_process > 0 {
            self.selected_process = self.selected_process - 1;
        }
    }
}

} // verus!
