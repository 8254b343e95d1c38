//! The aggregation engine: the single entry point invoked once per tick.
//! It reconciles the adapter output against the tracked entities, creates
//! histories for newly seen cores and interfaces, appends new samples,
//! computes the overall CPU average, rebuilds the GPU list, and replaces
//! the process snapshot.

use vstd::prelude::*;
use crate::app::{cpu_hist_wf, cpu_samples_wf, gpus_wf, net_hist_wf, AppState, CoreView, CpuHistory,
    CpuSample, CpuSampleView, NetSample, NetSampleView, NetView, NetworkHistory, SystemSample,
    USAGE_MAX};
use crate::gpu::{gpu_records, gpu_views, parse_gpu_output, GpuInfo, GpuView};
use crate::lemma_vec_deep_view;
use crate::process::{build_snapshot, snapshot_spec};
use crate::ring::{zero_history, RingBuffer, HISTORY_LEN};

verus! {

/// A usage figure in hundredths of a percent rounded to whole percent,
/// the unit the sparkline histories hold.
pub open spec fn round_percent(u: u32) -> u64 {
    (((u + 50) / 100) as u64)
}

/// The position of the core tracking this identity, `-1` when none does.
pub open spec fn find_core(s: Seq<CoreView>, name: Seq<char>) -> int
    decreases s.len(),
{
    if s.len() == 0 {
        -1
    } else if s[0].name == name {
        0
    } else if find_core(s.drop_first(), name) == -1 {
        -1
    } else {
        find_core(s.drop_first(), name) + 1
    }
}

/// The position of the interface tracking this identity, `-1` when none
/// does.
pub open spec fn find_iface(s: Seq<NetView>, name: Seq<char>) -> int
    decreases s.len(),
{
    if s.len() == 0 {
        -1
    } else if s[0].name == name {
        0
    } else if find_iface(s.drop_first(), name) == -1 {
        -1
    } else {
        find_iface(s.drop_first(), name) + 1
    }
}

/// One core reading folded into the histories: the tracked core is
/// overwritten and its window shifted, a new identity is appended with a
/// fresh window behind its first sample.
pub open spec fn apply_cpu(s: Seq<CoreView>, c: CpuSampleView) -> Seq<CoreView> {
    let j = find_core(s, c.name);
    if j >= 0 {
        s.update(
            j,
            CoreView {
                name: s[j].name,
                usage: c.usage,
                history: s[j].history.subrange(1, HISTORY_LEN as int).push(round_percent(c.usage)),
            },
        )
    } else {
        s.push(
            CoreView {
                name: c.name,
                usage: c.usage,
                history: zero_history().subrange(1, HISTORY_LEN as int).push(
                    round_percent(c.usage),
                ),
            },
        )
    }
}

/// The core histories after a tick's readings, folded in adapter order.
pub open spec fn cpu_step(s: Seq<CoreView>, cs: Seq<CpuSampleView>) -> Seq<CoreView>
    decreases cs.len(),
{
    if cs.len() == 0 {
        s
    } else {
        apply_cpu(cpu_step(s, cs.drop_last()), cs.last())
    }
}

/// One interface reading folded into the histories: the tracked interface
/// has its counters overwritten and both windows shifted; a new identity
/// is appended with untouched zero windows.
pub open spec fn apply_net(s: Seq<NetView>, c: NetSampleView) -> Seq<NetView> {
    let j = find_iface(s, c.name);
    if j >= 0 {
        s.update(
            j,
            NetView {
                name: s[j].name,
                rx: c.rx,
                tx: c.tx,
                rx_history: s[j].rx_history.subrange(1, HISTORY_LEN as int).push(c.rx),
                tx_history: s[j].tx_history.subrange(1, HISTORY_LEN as int).push(c.tx),
            },
        )
    } else {
        s.push(
            NetView {
                name: c.name,
                rx: c.rx,
                tx: c.tx,
                rx_history: zero_history(),
                tx_history: zero_history(),
            },
        )
    }
}

/// A name that denotes a loopback interface.
pub open spec fn is_loopback(name: Seq<char>) -> bool {
    name.len() >= 2 && name[0] == 'l' && name[1] == 'o'
}

/// The interface histories after a tick's readings: loopback interfaces
/// are skipped entirely unless their display is enabled; entries are
/// never pruned.
pub open spec fn net_step(s: Seq<NetView>, ifs: Seq<NetSampleView>, show_loopback: bool) -> Seq<
    NetView,
>
    decreases ifs.len(),
{
    if ifs.len() == 0 {
        s
    } else {
        let prev = net_step(s, ifs.drop_last(), show_loopback);
        if !show_loopback && is_loopback(ifs.last().name) {
            prev
        } else {
            apply_net(prev, ifs.last())
        }
    }
}

/// The sum of the readings' usages.
pub open spec fn sum_usage(cs: Seq<CpuSampleView>) -> int
    decreases cs.len(),
{
    if cs.len() == 0 {
        0
    } else {
        sum_usage(cs.drop_last()) + cs.last().usage
    }
}

/// The overall CPU figure of a tick: the arithmetic mean of the per-core
/// usages, zero when there are no cores.
pub open spec fn overall_of(cs: Seq<CpuSampleView>) -> int {
    if cs.len() == 0 {
        0
    } else {
        sum_usage(cs) / cs.len() as int
    }
}

/// The GPU field after a tick: absent when the command produced no text
/// or no valid record — the unavailable state — and otherwise the
/// readings rebuilt from scratch, each with a fresh zero window.
pub open spec fn gpu_state_of(t: Option<Seq<char>>) -> Option<Seq<GpuView>> {
    match t {
        None => None,
        Some(s) => if gpu_records(s).len() == 0 {
            None
        } else {
            Some(gpu_views(gpu_records(s)))
        },
    }
}

/// The image of an optional readings list.
pub open spec fn opt_gpus_view(g: &Option<Vec<GpuInfo>>) -> Option<Seq<GpuView>> {
    match g {
        Some(v) => Some(v.deep_view()),
        None => None,
    }
}

/// The image of an optional command output.
pub open spec fn opt_text_view(t: &Option<String>) -> Option<Seq<char>> {
    match t {
        Some(s) => Some(s@),
        None => None,
    }
}

/// The selection clamped to the new snapshot: unchanged while in range,
/// the last row when the list shrank past it, the first when the list is
/// empty.
pub open spec fn clamp_selection(sel: int, len: int) -> int {
    if len == 0 {
        0
    } else if sel < len {
        sel
    } else {
        len - 1
    }
}

/// The sum of within-scale readings is within scale times their count.
proof fn lemma_sum_usage_bound(cs: Seq<CpuSampleView>)
    requires
        cpu_samples_wf(cs),
    ensures
        0 <= sum_usage(cs) <= USAGE_MAX * cs.len(),
    decreases cs.len(),
{
    if cs.len() > 0 {
        assert(cpu_samples_wf(cs.drop_last()));
        lemma_sum_usage_bound(cs.drop_last());
        assert(cs.last().usage <= USAGE_MAX);
        assert(USAGE_MAX * (cs.len() - 1) + USAGE_MAX == USAGE_MAX * cs.len()) by (nonlinear_arith);
    }
}

/// A scan that has not met the identity: the spec search agrees with it.
proof fn lemma_find_core_scan(s: Seq<CoreView>, name: Seq<char>, i: int)
    requires
        0 <= i <= s.len(),
        forall|k: int| 0 <= k < i ==> (#[trigger] s[k]).name != name,
    ensures
        i == s.len() ==> find_core(s, name) == -1,
        i < s.len() && s[i].name == name ==> find_core(s, name) == i,
    decreases i,
{
    if i > 0 {
        assert(s[0].name != name);
        assert forall|k: int| 0 <= k < i - 1 implies (#[trigger] s.drop_first()[k]).name
            != name by {
            assert(s.drop_first()[k] == s[k + 1]);
        }
        lemma_find_core_scan(s.drop_first(), name, i - 1);
        if i < s.len() {
            assert(s.drop_first()[i - 1] == s[i]);
        }
    }
}

/// A scan that has not met the identity: the spec search agrees with it.
proof fn lemma_find_iface_scan(s: Seq<NetView>, name: Seq<char>, i: int)
    requires
        0 <= i <= s.len(),
        forall|k: int| 0 <= k < i ==> (#[trigger] s[k]).name != name,
    ensures
        i == s.len() ==> find_iface(s, name) == -1,
        i < s.len() && s[i].name == name ==> find_iface(s, name) == i,
    decreases i,
{
    if i > 0 {
        assert(s[0].name != name);
        assert forall|k: int| 0 <= k < i - 1 implies (#[trigger] s.drop_first()[k]).name
            != name by {
            assert(s.drop_first()[k] == s[k + 1]);
        }
        lemma_find_iface_scan(s.drop_first(), name, i - 1);
        if i < s.len() {
            assert(s.drop_first()[i - 1] == s[i]);
        }
    }
}

/// Finds the core tracking this identity.
fn find_core_idx(hist: &Vec<CpuHistory>, name: &String) -> (r: Option<usize>)
    ensures
        match r {
            Some(j) => j < hist@.len() && find_core(hist.deep_view(), name@) == j,
            None => find_core(hist.deep_view(), name@) == -1,
        },
{
    proof {
        lemma_vec_deep_view(hist);
    }
    let ghost s = hist.deep_view();
    let mut j: usize = 0;
    loop
        invariant
            0 <= j <= hist@.len(),
            s == hist.deep_view(),
            s.len() == hist@.len(),
            forall|t: int| 0 <= t < hist@.len() ==> s[t] == #[trigger] hist@[t].deep_view(),
            forall|k: int| 0 <= k < j ==> (#[trigger] s[k]).name != name@,
        decreases hist@.len() - j,
    {
        if j == hist.len() {
            proof {
                lemma_find_core_scan(s, name@, j as int);
            }
            return None;
        }
        if hist[j].core_name == *name {
            proof {
                lemma_find_core_scan(s, name@, j as int);
            }
            return Some(j);
        }
        j = j + 1;
    }
}

/// Finds the interface tracking this identity.
fn find_iface_idx(hist: &Vec<NetworkHistory>, name: &String) -> (r: Option<usize>)
    ensures
        match r {
            Some(j) => j < hist@.len() && find_iface(hist.deep_view(), name@) == j,
            None => find_iface(hist.deep_view(), name@) == -1,
        },
{
    proof {
        lemma_vec_deep_view(hist);
    }
    let ghost s = hist.deep_view();
    let mut j: usize = 0;
    loop
        invariant
            0 <= j <= hist@.len(),
            s == hist.deep_view(),
            s.len() == hist@.len(),
            forall|t: int| 0 <= t < hist@.len() ==> s[t] == #[trigger] hist@[t].deep_view(),
            forall|k: int| 0 <= k < j ==> (#[trigger] s[k]).name != name@,
        decreases hist@.len() - j,
    {
        if j == hist.len() {
            proof {
                lemma_find_iface_scan(s, name@, j as int);
            }
            return None;
        }
        if hist[j].interface_name == *name {
            proof {
                lemma_find_iface_scan(s, name@, j as int);
            }
            return Some(j);
        }
        j = j + 1;
    }
}

/// Whether the name denotes a loopback interface.
fn is_loopback_exec(name: &str) -> (r: bool)
    ensures
        r == is_loopback(name@),
{
    let n = name.unicode_len();
    if n < 2 {
        return false;
    }
    name.get_char(0) == 'l' && name.get_char(1) == 'o'
}

/// Folds one tick's core readings into the core histories.
fn refresh_cpu(hist: &mut Vec<CpuHistory>, cpus: &Vec<CpuSample>)
    requires
        cpu_hist_wf(old(hist).deep_view()),
        cpu_samples_wf(cpus.deep_view()),
    ensures
        final(hist).deep_view() == cpu_step(old(hist).deep_view(), cpus.deep_view()),
        cpu_hist_wf(final(hist).deep_view()),
{
    let ghost h0 = hist.deep_view();
    let ghost cs = cpus.deep_view();
    proof {
        lemma_vec_deep_view(cpus);
        assert(cs.take(0) =~= Seq::<CpuSampleView>::empty());
    }
    let mut i: usize = 0;
    while i < cpus.len()
        invariant
            0 <= i <= cpus@.len(),
            cs == cpus.deep_view(),
            cs.len() == cpus@.len(),
            forall|t: int| 0 <= t < cpus@.len() ==> cs[t] == #[trigger] cpus@[t].deep_view(),
            cpu_samples_wf(cs),
            hist.deep_view() == cpu_step(h0, cs.take(i as int)),
            cpu_hist_wf(hist.deep_view()),
        decreases cpus@.len() - i,
    {
        let ghost hprev = hist.deep_view();
        proof {
            assert(cs.take(i + 1).drop_last() =~= cs.take(i as int));
            assert(cs.take(i + 1).last() == cs[i as int]);
        }
        let c = &cpus[i];
        proof {
            assert(c.deep_view() == cs[i as int]);
            assert(c@.usage <= USAGE_MAX);
        }
        let rounded = ((c.usage + 50) / 100) as u64;
        match find_core_idx(hist, &c.name) {
            Some(j) => {
                proof {
                    lemma_vec_deep_view(hist);
                }
                let ghost hs = hist@;
                let mut e = hist.remove(j);
                proof {
                    assert(e == hs[j as int]);
                    assert(e@ == hprev[j as int]);
                }
                e.usage = c.usage;
                e.history.push(rounded);
                hist.insert(j, e);
                proof {
                    lemma_vec_deep_view(hist);
                    assert(hist@ =~= hs.update(j as int, e));
                    assert(hist.deep_view() =~= apply_cpu(hprev, cs[i as int]));
                }
            },
            None => {
                let ghost hs = hist@;
                let mut fresh = RingBuffer::new();
                fresh.push(rounded);
                let entry = CpuHistory { core_name: c.name.clone(), usage: c.usage, history: fresh };
                proof {
                    lemma_vec_deep_view(hist);
                }
                hist.push(entry);
                proof {
                    lemma_vec_deep_view(hist);
                    assert(hist@ == hs.push(entry));
                    assert(hist.deep_view() =~= apply_cpu(hprev, cs[i as int]));
                }
            },
        }
        i = i + 1;
    }
    proof {
        assert(cs.take(cs.len() as int) =~= cs);
    }
}

/// Folds one tick's interface readings into the interface histories.
fn refresh_net(hist: &mut Vec<NetworkHistory>, ifs: &Vec<NetSample>, show_loopback: bool)
    requires
        net_hist_wf(old(hist).deep_view()),
    ensures
        final(hist).deep_view() == net_step(old(hist).deep_view(), ifs.deep_view(), show_loopback),
        net_hist_wf(final(hist).deep_view()),
{
    let ghost h0 = hist.deep_view();
    let ghost ns = ifs.deep_view();
    proof {
        lemma_vec_deep_view(ifs);
        assert(ns.take(0) =~= Seq::<NetSampleView>::empty());
    }
    let mut i: usize = 0;
    while i < ifs.len()
        invariant
            0 <= i <= ifs@.len(),
            ns == ifs.deep_view(),
            ns.len() == ifs@.len(),
            forall|t: int| 0 <= t < ifs@.len() ==> ns[t] == #[trigger] ifs@[t].deep_view(),
            hist.deep_view() == net_step(h0, ns.take(i as int), show_loopback),
            net_hist_wf(hist.deep_view()),
        decreases ifs@.len() - i,
    {
        let ghost hprev = hist.deep_view();
        proof {
            assert(ns.take(i + 1).drop_last() =~= ns.take(i as int));
            assert(ns.take(i + 1).last() == ns[i as int]);
        }
        let c = &ifs[i];
        proof {
            assert(c.deep_view() == ns[i as int]);
        }
        if !show_loopback && is_loopback_exec(c.name.as_str()) {
            i = i + 1;
            continue;
        }
        match find_iface_idx(hist, &c.name) {
            Some(j) => {
                proof {
                    lemma_vec_deep_view(hist);
                }
                let ghost hs = hist@;
                let mut e = hist.remove(j);
                proof {
                    assert(e == hs[j as int]);
                    assert(e@ == hprev[j as int]);
                }
                e.rx_bytes = c.rx;
                e.tx_bytes = c.tx;
                e.rx_history.push(c.rx);
                e.tx_history.push(c.tx);
                hist.insert(j, e);
                proof {
                    lemma_vec_deep_view(hist);
                    assert(hist@ =~= hs.update(j as int, e));
                    assert(hist.deep_view() =~= apply_net(hprev, ns[i as int]));
                }
            },
            None => {
                let ghost hs = hist@;
                let entry = NetworkHistory {
                    interface_name: c.name.clone(),
                    rx_bytes: c.rx,
                    tx_bytes: c.tx,
                    rx_history: RingBuffer::new(),
                    tx_history: RingBuffer::new(),
                };
                proof {
                    lemma_vec_deep_view(hist);
                }
                hist.push(entry);
                proof {
                    lemma_vec_deep_view(hist);
                    assert(hist@ == hs.push(entry));
                    assert(hist.deep_view() =~= apply_net(hprev, ns[i as int]));
                }
            },
        }
        i = i + 1;
    }
    proof {
        assert(ns.take(ns.len() as int) =~= ns);
    }
}

/// Computes the overall CPU figure: the arithmetic mean of the per-core
/// usages, zero when there are no cores.
pub fn compute_overall(cpus: &Vec<CpuSample>) -> (r: u32)
    requires
        cpu_samples_wf(cpus.deep_view()),
    ensures
        r == overall_of(cpus.deep_view()),
        r <= USAGE_MAX,
{
    let ghost cs = cpus.deep_view();
    proof {
        lemma_vec_deep_view(cpus);
        assert(cs.take(0) =~= Seq::<CpuSampleView>::empty());
    }
    if cpus.is_empty() {
        return 0;
    }
    let mut acc: u128 = 0;
    let mut i: usize = 0;
    while i < cpus.len()
        invariant
            0 <= i <= cpus@.len(),
            cs == cpus.deep_view(),
            cs.len() == cpus@.len(),
            forall|t: int| 0 <= t < cpus@.len() ==> cs[t] == #[trigger] cpus@[t].deep_view(),
            cpu_samples_wf(cs),
            acc == sum_usage(cs.take(i as int)),
            acc <= USAGE_MAX * i,
        decreases cpus@.len() - i,
    {
        proof {
            assert(cs.take(i + 1).drop_last() =~= cs.take(i as int));
            assert(cs.take(i + 1).last() == cs[i as int]);
            assert(cs[i as int].usage <= USAGE_MAX);
            assert(USAGE_MAX * i + USAGE_MAX == USAGE_MAX * (i + 1)) by (nonlinear_arith);
            assert(USAGE_MAX * (i as int + 1) <= USAGE_MAX * 0x1_0000_0000_0000_0000int)
                by (nonlinear_arith)
                requires
                    i as int + 1 <= 0x1_0000_0000_0000_0000int,
            ;
        }
        let c = &cpus[i];
        proof {
            assert(c.deep_view() == cs[i as int]);
        }
        acc = acc + c.usage as u128;
        i = i + 1;
    }
    proof {
        assert(cs.take(cs.len() as int) =~= cs);
        lemma_sum_usage_bound(cs);
        vstd::arithmetic::div_mod::lemma_div_is_ordered(
            sum_usage(cs),
            USAGE_MAX * cs.len(),
            cs.len() as int,
        );
        vstd::arithmetic::div_mod::lemma_div_multiples_vanish(
            USAGE_MAX as int,
            cs.len() as int,
        );
        assert(USAGE_MAX * cs.len() == cs.len() * USAGE_MAX);
    }
    let n = cpus.len();
    (acc / (n as u128)) as u32
}

/// The engine's single entry point, invoked once per tick with the
/// adapter output. Folds the core and interface readings into their
/// histories, computes the overall CPU mean, rebuilds the GPU list from
/// the command output — or records it unavailable — replaces the process
/// snapshot according to the active filter, sort and limit, and clamps
/// the selection to the new list.
pub fn refresh(app: &mut AppState, sample: SystemSample)
    requires
        old(app).wf(),
        sample.wf(),
    ensures
        final(app).wf(),
        final(app).cpu_history.deep_view() == cpu_step(
            old(app).cpu_history.deep_view(),
            sample.cpus.deep_view(),
        ),
        final(app).overall_cpu == overall_of(sample.cpus.deep_view()),
        final(app).network_history.deep_view() == net_step(
            old(app).network_history.deep_view(),
            sample.interfaces.deep_view(),
            old(app).show_loopback,
        ),
        opt_gpus_view(&final(app).gpus) == gpu_state_of(opt_text_view(&sample.gpu_text)),
        final(app).processes.deep_view() == snapshot_spec(
            sample.processes.deep_view(),
            old(app).search_query@,
            old(app).sort_column,
            old(app).sort_ascending,
            old(app).max_processes as int,
        ),
        final(app).selected_process == clamp_selection(
            old(app).selected_process as int,
            final(app).processes@.len() as int,
        ),
        final(app).sort_column == old(app).sort_column,
        final(app).sort_ascending == old(app).sort_ascending,
        final(app).search_query == old(app).search_query,
        final(app).search_mode == old(app).search_mode,
        final(app).show_loopback == old(app).show_loopback,
        final(app).max_processes == old(app).max_processes,
        final(app).tick_rate_ms == old(app).tick_rate_ms,
        final(app).should_quit == old(app).should_quit,
{
    let SystemSample { cpus, interfaces, processes, gpu_text } = sample;
    refresh_cpu(&mut app.cpu_history, &cpus);
    app.overall_cpu = compute_overall(&cpus);
    let show_loopback = app.show_loopback;
    refresh_net(&mut app.network_history, &interfaces, show_loopback);
    match gpu_text {
        None => {
            app.gpus = None;
        },
        Some(t) => {
            app.gpus = parse_gpu_output(t.as_str());
            proof {
                match app.gpus {
                    Some(ref v) => {
                        assert(gpus_wf(v.deep_view()));
                    },
                    None => {},
                }
            }
        },
    }
    let snapshot = build_snapshot(
        processes,
        app.search_query.as_str(),
        app.sort_column,
        app.sort_ascending,
        app.max_processes,
    );
    app.processes = snapshot;
    if app.processes.is_empty() {
        app.selected_process = 0;
    } else if app.selected_process >= app.processes.len() {
        app.selected_process = app.processes.len() - 1;
    }
}

/// Law: a second refresh with identical adapter output grows every
/// history by exactly one push per refresh — each window keeps exactly
/// [`HISTORY_LEN`] samples after the first refresh and after the second.
pub proof fn lemma_repeat_refresh(
    h: Seq<CoreView>,
    n: Seq<NetView>,
    cs: Seq<CpuSampleView>,
    ifs: Seq<NetSampleView>,
    show_loopback: bool,
)
    requires
        cpu_hist_wf(h),
        cpu_samples_wf(cs),
        net_hist_wf(n),
    ensures
        cpu_hist_wf(cpu_step(h, cs)),
        cpu_hist_wf(cpu_step(cpu_step(h, cs), cs)),
        net_hist_wf(net_step(n, ifs, show_loopback)),
        net_hist_wf(net_step(net_step(n, ifs, show_loopback), ifs, show_loopback)),
{
    lemma_cpu_step_wf(h, cs);
    lemma_cpu_step_wf(cpu_step(h, cs), cs);
    lemma_net_step_wf(n, ifs, show_loopback);
    lemma_net_step_wf(net_step(n, ifs, show_loopback), ifs, show_loopback);
}

/// Law: the process snapshot is a function of the adapter output and the
/// filter, sort and limit configuration alone, so two refreshes under the
/// same configuration and identical adapter output produce the identical
/// snapshot.
pub proof fn lemma_snapshot_deterministic(a: AppState, b: AppState, ps: Seq<crate::process::ProcView>)
    requires
        a.search_query@ == b.search_query@,
        a.sort_column == b.sort_column,
        a.sort_ascending == b.sort_ascending,
        a.max_processes == b.max_processes,
    ensures
        snapshot_spec(ps, a.search_query@, a.sort_column, a.sort_ascending, a.max_processes as int)
            == snapshot_spec(
            ps,
            b.search_query@,
            b.sort_column,
            b.sort_ascending,
            b.max_processes as int,
        ),
{
}

/// Folding readings into well-formed core histories keeps them well
/// formed.
proof fn lemma_cpu_step_wf(h: Seq<CoreView>, cs: Seq<CpuSampleView>)
    requires
        cpu_hist_wf(h),
        cpu_samples_wf(cs),
    ensures
        cpu_hist_wf(cpu_step(h, cs)),
    decreases cs.len(),
{
    if cs.len() > 0 {
        assert(cpu_samples_wf(cs.drop_last()));
        lemma_cpu_step_wf(h, cs.drop_last());
        let prev = cpu_step(h, cs.drop_last());
        let c = cs.last();
        assert(c.usage <= USAGE_MAX);
        let j = find_core(prev, c.name);
        if j >= 0 {
            assert(j < prev.len()) by {
                lemma_find_core_in_range(prev, c.name);
            }
        }
    }
}

/// Folding readings into well-formed interface histories keeps them well
/// formed.
proof fn lemma_net_step_wf(h: Seq<NetView>, ifs: Seq<NetSampleView>, show_loopback: bool)
    requires
        net_hist_wf(h),
    ensures
        net_hist_wf(net_step(h, ifs, show_loopback)),
    decreases ifs.len(),
{
    if ifs.len() > 0 {
        lemma_net_step_wf(h, ifs.drop_last(), show_loopback);
        let prev = net_step(h, ifs.drop_last(), show_loopback);
        let c = ifs.last();
        let j = find_iface(prev, c.name);
        if j >= 0 {
            assert(j < prev.len()) by {
                lemma_find_iface_in_range(prev, c.name);
            }
        }
    }
}

/// A found core position is in range.
proof fn lemma_find_core_in_range(s: Seq<CoreView>, name: Seq<char>)
    ensures
        -1 <= find_core(s, name) < s.len(),
    decreases s.len(),
{
    if s.len() > 0 && s[0].name != name {
        lemma_find_core_in_range(s.drop_first(), name);
    }
}

/// A found interface position is in range.
proof fn lemma_find_iface_in_range(s: Seq<NetView>, name: Seq<char>)
    ensures
        -1 <= find_iface(s, name) < s.len(),
    decreases s.len(),
{
    if s.len() > 0 && s[0].name != name {
        lemma_find_iface_in_range(s.drop_first(), name);
    }
}

} // verus!
