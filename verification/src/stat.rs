//! Operation statistics: event counters, running maxima and histograms of
//! sampled values, recorded only while recording is switched on.
use vstd::prelude::*;
use vstd::multiset::Multiset;
use crate::raw::edge::Child;
use crate::raw::edge::Edge;
use crate::raw::node::Kind;
use crate::raw::node::Smo;
use crate::raw::node::live_count;
use crate::sequential::RadixMap;

verus! {

#[verifier::external_type_specification]
#[verifier::external_body]
pub struct ExCreationError(hdrhistogram::CreationError);

#[verifier::external_type_specification]
#[verifier::external_body]
pub struct ExRecordError(hdrhistogram::RecordError);

/// A histogram of sampled values, kept by `hdrhistogram::Histogram<u64>`.
#[verifier::external_body]
pub struct Distribution {
    inner: hdrhistogram::Histogram<u64>,
}

/// The values recorded in a histogram since it was made.
pub uninterp spec fn recorded(h: Distribution) -> Multiset<u64>;

/// `hdrhistogram::Histogram::new`: an auto-resizing histogram keeping
/// `sigfig` significant decimal digits. Its source fails exactly when
/// `sigfig` exceeds 5, and a new histogram holds no values.
#[verifier::external_body]
fn hdr_new(sigfig: u8) -> (r: Result<Distribution, hdrhistogram::CreationError>)
    ensures
        r is Ok <==> sigfig <= 5,
        r matches Ok(h) ==> recorded(h) =~= Multiset::empty(),
{
    hdrhistogram::Histogram::new(sigfig).map(|inner| Distribution { inner })
}

/// `hdrhistogram::Histogram::record`: adds one sample of `value`. Every
/// `Distribution` is made by `Histogram::new`, which turns auto-resizing on;
/// an auto-resizing histogram fails to record only when its number of bins
/// does not fit a `usize`, and for `u64` values with at most five
/// significant digits that number stays below seven million, so on 32- and
/// 64-bit machines the call succeeds.
#[verifier::external_body]
fn hdr_record(h: &mut Distribution, value: u64) -> (r: Result<(), hdrhistogram::RecordError>)
    ensures
        r is Ok,
        recorded(*final(h)) == recorded(*old(h)).insert(value),
{
    h.inner.record(value)
}

/// `hdrhistogram::Histogram::len`: the number of samples recorded, a count
/// its source saturates at `u64::MAX`.
#[verifier::external_body]
fn hdr_len(h: &Distribution) -> (r: u64)
    ensures
        r == (if recorded(*h).len() <= u64::MAX {
            recorded(*h).len()
        } else {
            u64::MAX as nat
        }),
{
    h.inner.len()
}

impl Distribution {
    /// The values sampled so far.
    pub open spec fn samples(&self) -> Multiset<u64> {
        recorded(*self)
    }

    /// An empty histogram keeping three significant digits.
    pub fn new() -> (r: Distribution)
        ensures
            r.samples() =~= Multiset::empty(),
    {
        hdr_new(3).unwrap()
    }

    /// Add a sample.
    pub fn record(&mut self, value: u64)
        ensures
            final(self).samples() == old(self).samples().insert(value),
    {
        let _ = hdr_record(self, value);
    }

    /// Number of samples, saturating at `u64::MAX`.
    pub fn len(&self) -> (r: u64)
        ensures
            r == (if self.samples().len() <= u64::MAX {
                self.samples().len()
            } else {
                u64::MAX as nat
            }),
    {
        hdr_len(self)
    }

}

/// Structure modifications counted by the statistics: five on nodes, two
/// on edges.
#[derive(Clone, Copy, PartialEq, Eq, Structural)]
pub enum Op {
    Shrink,
    Replace,
    Grow,
    Destroy,
    Compress,
    Create,
    Expand,
}

/// The counter of the modification `Node::replace` reports.
pub open spec fn op_of_spec(smo: Smo) -> Op {
    match smo {
        Smo::DeleteNode => Op::Destroy,
        Smo::CompressEdge => Op::Compress,
        Smo::ReplaceNode => Op::Replace,
    }
}

/// The counter of the modification `Node::replace` reports.
pub fn op_of(smo: Smo) -> (r: Op)
    ensures
        r == op_of_spec(smo),
{
    match smo {
        Smo::DeleteNode => Op::Destroy,
        Smo::CompressEdge => Op::Compress,
        Smo::ReplaceNode => Op::Replace,
    }
}

/// Events counted while recording.
#[derive(Clone, Copy, PartialEq, Eq, Structural)]
pub enum Event {
    Op(Op),
    InsertPessimistic,
    GetOrInsertPessimistic,
    Retire,
    FreeConflict,
    FreeRetire,
    FreeReclaim,
    FreeDrop,
    HazardMatch,
    ScanInsert,
    ScanUpdate,
    ScanScan,
    Node47Consistent,
    Node47CasSuccess,
    Node47CasFailure,
    LockFrozen,
    UnlockFrozen,
}

/// Running maxima kept while recording.
#[derive(Clone, Copy, PartialEq, Eq, Structural)]
pub enum Max {
    RetireCache,
}

/// Histograms filled while recording.
#[derive(Clone, Copy, PartialEq, Eq, Structural)]
pub enum Record {
    Flush,
    FreezePop,
    ReclaimDepth,
    ReclaimAge0,
    ReclaimAge1,
    ReclaimAge2,
    ReclaimAge3,
}

/// The statistics of one thread.
pub struct Thread {
    counts: Vec<u64>,
    retire_cache: u64,
    histograms: Vec<Distribution>,
}

/// Where each counter is kept.
pub open spec fn event_slot(c: Event) -> int {
    match c {
        Event::Op(Op::Shrink) => 0,
        Event::Op(Op::Replace) => 1,
        Event::Op(Op::Grow) => 2,
        Event::Op(Op::Destroy) => 3,
        Event::Op(Op::Compress) => 4,
        Event::Op(Op::Create) => 5,
        Event::Op(Op::Expand) => 6,
        Event::InsertPessimistic => 7,
        Event::GetOrInsertPessimistic => 8,
        Event::Retire => 9,
        Event::FreeConflict => 10,
        Event::FreeRetire => 11,
        Event::FreeReclaim => 12,
        Event::FreeDrop => 13,
        Event::HazardMatch => 14,
        Event::ScanInsert => 15,
        Event::ScanUpdate => 16,
        Event::ScanScan => 17,
        Event::Node47Consistent => 18,
        Event::Node47CasSuccess => 19,
        Event::Node47CasFailure => 20,
        Event::LockFrozen => 21,
        Event::UnlockFrozen => 22,
    }
}

/// Distinct events are counted apart: each has a counter of its own.
pub proof fn lemma_events_counted_apart(c: Event, d: Event)
    ensures
        0 <= event_slot(c) < COUNTERS,
        c != d ==> event_slot(c) != event_slot(d),
{
}

/// Number of counters.
pub const COUNTERS: usize = 23;

/// Where each histogram is kept.
pub open spec fn record_slot(r: Record) -> int {
    match r {
        Record::Flush => 0,
        Record::FreezePop => 1,
        Record::ReclaimDepth => 2,
        Record::ReclaimAge0 => 3,
        Record::ReclaimAge1 => 4,
        Record::ReclaimAge2 => 5,
        Record::ReclaimAge3 => 6,
    }
}

/// Distinct records are sampled apart: each has a histogram of its own.
pub proof fn lemma_records_sampled_apart(r: Record, k: Record)
    ensures
        0 <= record_slot(r) < RECORDS,
        r != k ==> record_slot(r) != record_slot(k),
{
}

/// Number of histograms.
pub const RECORDS: usize = 7;

impl Thread {
    pub closed spec fn wf(&self) -> bool {
        self.counts@.len() == COUNTERS && self.histograms@.len() == RECORDS
    }

    /// The value of counter `c`.
    pub closed spec fn count(&self, c: Event) -> u64 {
        self.counts@[event_slot(c)]
    }

    /// The running maximum `m`.
    pub closed spec fn maximum(&self, m: Max) -> u64 {
        self.retire_cache
    }

    /// The samples of histogram `r`.
    pub closed spec fn samples(&self, r: Record) -> Multiset<u64> {
        self.histograms@[record_slot(r)].samples()
    }

    /// Statistics with every counter and maximum at zero and every histogram
    /// empty.
    pub fn new() -> (r: Thread)
        ensures
            r.wf(),
            forall|c: Event| #[trigger] r.count(c) == 0,
            forall|m: Max| #[trigger] r.maximum(m) == 0,
            forall|k: Record| #[trigger] r.samples(k) =~= Multiset::empty(),
    {
        let mut counts: Vec<u64> = Vec::new();
        let mut i: usize = 0;
        while i < COUNTERS
            invariant
                i <= COUNTERS,
                counts@.len() == i,
                forall|j: int| 0 <= j < i ==> counts@[j] == 0,
            decreases COUNTERS - i,
        {
            counts.push(0);
            i += 1;
        }
        let mut histograms: Vec<Distribution> = Vec::new();
        let mut i: usize = 0;
        while i < RECORDS
            invariant
                i <= RECORDS,
                histograms@.len() == i,
                forall|j: int| 0 <= j < i ==> (#[trigger] histograms@[j]).samples() =~= Multiset::<
                    u64,
                >::empty(),
            decreases RECORDS - i,
        {
            histograms.push(Distribution::new());
            i += 1;
        }
        Thread { counts, retire_cache: 0, histograms }
    }

    /// The histogram `r`, for reporting.
    pub fn histogram(&self, r: Record) -> (h: &Distribution)
        requires
            self.wf(),
        ensures
            h.samples() == self.samples(r),
    {
        &self.histograms[record_index(r)]
    }

    /// The value of counter `c`.
    pub fn get(&self, c: Event) -> (r: u64)
        requires
            self.wf(),
        ensures
            r == self.count(c),
    {
        self.counts[event_index(c)]
    }

    /// The running maximum `m`.
    pub fn get_max(&self, m: Max) -> (r: u64)
        ensures
            r == self.maximum(m),
    {
        self.retire_cache
    }
}

fn event_index(c: Event) -> (r: usize)
    ensures
        r == event_slot(c),
{
    match c {
        Event::Op(Op::Shrink) => 0,
        Event::Op(Op::Replace) => 1,
        Event::Op(Op::Grow) => 2,
        Event::Op(Op::Destroy) => 3,
        Event::Op(Op::Compress) => 4,
        Event::Op(Op::Create) => 5,
        Event::Op(Op::Expand) => 6,
        Event::InsertPessimistic => 7,
        Event::GetOrInsertPessimistic => 8,
        Event::Retire => 9,
        Event::FreeConflict => 10,
        Event::FreeRetire => 11,
        Event::FreeReclaim => 12,
        Event::FreeDrop => 13,
        Event::HazardMatch => 14,
        Event::ScanInsert => 15,
        Event::ScanUpdate => 16,
        Event::ScanScan => 17,
        Event::Node47Consistent => 18,
        Event::Node47CasSuccess => 19,
        Event::Node47CasFailure => 20,
        Event::LockFrozen => 21,
        Event::UnlockFrozen => 22,
    }
}

fn record_index(r: Record) -> (i: usize)
    ensures
        i == record_slot(r),
{
    match r {
        Record::Flush => 0,
        Record::FreezePop => 1,
        Record::ReclaimDepth => 2,
        Record::ReclaimAge0 => 3,
        Record::ReclaimAge1 => 4,
        Record::ReclaimAge2 => 5,
        Record::ReclaimAge3 => 6,
    }
}

/// The statistics switch and the statistics of the current thread.
pub struct Stats {
    recording: bool,
    thread: Thread,
}

impl Stats {
    pub closed spec fn wf(&self) -> bool {
        self.thread.wf()
    }

    /// Whether events are being recorded.
    pub closed spec fn is_recording(&self) -> bool {
        self.recording
    }

    /// The statistics gathered.
    pub closed spec fn thread_view(&self) -> Thread {
        self.thread
    }

    /// Statistics that are not recording and hold nothing yet.
    pub fn new() -> (r: Stats)
        ensures
            r.wf(),
            !r.is_recording(),
            forall|c: Event| #[trigger] r.thread_view().count(c) == 0,
            forall|m: Max| #[trigger] r.thread_view().maximum(m) == 0,
            forall|k: Record| #[trigger] r.thread_view().samples(k) =~= Multiset::empty(),
    {
        Stats { recording: false, thread: Thread::new() }
    }

    /// The statistics gathered.
    pub fn thread(&self) -> (r: &Thread)
        ensures
            *r == self.thread_view(),
    {
        &self.thread
    }
}

/// Switch recording on.
pub fn start(stats: &mut Stats)
    ensures
        final(stats).is_recording(),
        final(stats).thread_view() == old(stats).thread_view(),
        final(stats).wf() == old(stats).wf(),
{
    stats.recording = true;
}

/// Switch recording off.
pub fn stop(stats: &mut Stats)
    ensures
        !final(stats).is_recording(),
        final(stats).thread_view() == old(stats).thread_view(),
        final(stats).wf() == old(stats).wf(),
{
    stats.recording = false;
}

/// Clear the statistics gathered, leaving the switch as it is.
pub fn reset(stats: &mut Stats)
    ensures
        final(stats).wf(),
        final(stats).is_recording() == old(stats).is_recording(),
        forall|c: Event| #[trigger] final(stats).thread_view().count(c) == 0,
        forall|m: Max| #[trigger] final(stats).thread_view().maximum(m) == 0,
        forall|k: Record| #[trigger] final(stats).thread_view().samples(k) =~= Multiset::empty(),
{
    stats.thread = Thread::new();
}

/// Count one event `c`, if recording. The count wraps around at `u64::MAX`.
pub fn increment(stats: &mut Stats, c: Event)
    requires
        old(stats).wf(),
    ensures
        final(stats).wf(),
        final(stats).is_recording() == old(stats).is_recording(),
        final(stats).thread_view().count(c) == (if old(stats).is_recording() {
            old(stats).thread_view().count(c).wrapping_add(1)
        } else {
            old(stats).thread_view().count(c)
        }),
        forall|d: Event|
            d != c ==> #[trigger] final(stats).thread_view().count(d)
                == old(stats).thread_view().count(d),
        forall|m: Max| #[trigger] final(stats).thread_view().maximum(m) == old(
            stats,
        ).thread_view().maximum(m),
        forall|k: Record| #[trigger] final(stats).thread_view().samples(k) == old(
            stats,
        ).thread_view().samples(k),
{
    if stats.recording {
        let i = event_index(c);
        let v = stats.thread.counts[i].wrapping_add(1);
        stats.thread.counts.set(i, v);
    }
}

/// Raise the running maximum `m` to `value`, if recording.
pub fn max(stats: &mut Stats, m: Max, value: u64)
    ensures
        final(stats).wf() == old(stats).wf(),
        final(stats).is_recording() == old(stats).is_recording(),
        final(stats).thread_view().maximum(m) == (if old(stats).is_recording() && value > old(
            stats,
        ).thread_view().maximum(m) {
            value
        } else {
            old(stats).thread_view().maximum(m)
        }),
        forall|c: Event| #[trigger] final(stats).thread_view().count(c) == old(
            stats,
        ).thread_view().count(c),
        forall|k: Record| #[trigger] final(stats).thread_view().samples(k) == old(
            stats,
        ).thread_view().samples(k),
{
    if stats.recording {
        match m {
            Max::RetireCache => {
                if value > stats.thread.retire_cache {
                    stats.thread.retire_cache = value;
                }
            },
        }
    }
}

/// Add `value` to histogram `r`, if recording. Returns whether a sample was
/// added, which is whether recording is on.
pub fn record(stats: &mut Stats, r: Record, value: u64) -> (added: bool)
    requires
        old(stats).wf(),
    ensures
        final(stats).wf(),
        final(stats).is_recording() == old(stats).is_recording(),
        added == old(stats).is_recording(),
        final(stats).thread_view().samples(r) == (if added {
            old(stats).thread_view().samples(r).insert(value)
        } else {
            old(stats).thread_view().samples(r)
        }),
        forall|k: Record|
            k != r ==> #[trigger] final(stats).thread_view().samples(k)
                == old(stats).thread_view().samples(k),
        forall|c: Event| #[trigger] final(stats).thread_view().count(c) == old(
            stats,
        ).thread_view().count(c),
        forall|m: Max| #[trigger] final(stats).thread_view().maximum(m) == old(
            stats,
        ).thread_view().maximum(m),
{
    if !stats.recording {
        return false;
    }
    let i = record_index(r);
    let mut h = Distribution::new();
    std::mem::swap(&mut h, &mut stats.thread.histograms[i]);
    h.record(value);
    std::mem::swap(&mut h, &mut stats.thread.histograms[i]);
    true
}

/// What `process` measures over a tree.
#[derive(Clone, Copy, PartialEq, Eq, Structural)]
pub enum Tally {
    /// The depth of each value.
    Depth,
    /// The number of key bytes on each edge that leads somewhere.
    Compression,
    /// The number of live children of each node of the kind.
    Node3,
    Node15,
    Node47,
    Node256,
}

/// Where each tally is kept.
pub open spec fn tally_slot(t: Tally) -> int {
    match t {
        Tally::Depth => 0,
        Tally::Compression => 1,
        Tally::Node3 => 2,
        Tally::Node15 => 3,
        Tally::Node47 => 4,
        Tally::Node256 => 5,
    }
}

/// Number of tallies.
pub const TALLIES: usize = 6;

fn tally_index(t: Tally) -> (r: usize)
    ensures
        r == tally_slot(t),
{
    match t {
        Tally::Depth => 0,
        Tally::Compression => 1,
        Tally::Node3 => 2,
        Tally::Node15 => 3,
        Tally::Node47 => 4,
        Tally::Node256 => 5,
    }
}

/// The tally that counts the children of nodes of `kind`.
pub open spec fn kind_tally(kind: Kind) -> Tally {
    match kind {
        Kind::Node3 => Tally::Node3,
        Kind::Node15 => Tally::Node15,
        Kind::Node47 => Tally::Node47,
        Kind::Node256 => Tally::Node256,
    }
}

/// One level further down; the depth stops growing at `u64::MAX`, which no
/// tree held in memory reaches.
pub open spec fn deeper(d: u64) -> u64 {
    if d < u64::MAX {
        (d + 1) as u64
    } else {
        d
    }
}

/// The samples of tally `t` taken from `e`, an edge at depth `d`, and
/// everything below it. An edge that leads nowhere gives none. A value gives
/// its depth and the length of its edge's key. A node gives the length of
/// its edge's key, its number of live children under its own kind, and the
/// samples of each of its edges at the next depth.
pub open spec fn census(e: Edge, d: u64, t: Tally) -> Multiset<u64>
    decreases e,
{
    match e.child {
        Child::Null => Multiset::empty(),
        Child::Value(_) => match t {
            Tally::Depth => Multiset::singleton(d),
            Tally::Compression => Multiset::singleton(e.meta.key_len() as u64),
            _ => Multiset::empty(),
        },
        Child::Node(n) => {
            let own = match t {
                Tally::Depth => Multiset::empty(),
                Tally::Compression => Multiset::singleton(e.meta.key_len() as u64),
                _ => if kind_tally(n.node_kind()) == t {
                    Multiset::singleton(live_count(n.edges@) as u64)
                } else {
                    Multiset::empty()
                },
            };
            census_all(n.edges@, deeper(d), t).add(own)
        },
    }
}

/// The samples of tally `t` from each edge of `s`, all at depth `d`.
pub open spec fn census_all(s: Seq<Edge>, d: u64, t: Tally) -> Multiset<u64>
    decreases s,
{
    if s.len() == 0 {
        Multiset::empty()
    } else {
        census_all(s.drop_last(), d, t).add(census(s[s.len() - 1], d, t))
    }
}

/// An edge leads somewhere.
pub open spec fn leads(e: Edge) -> bool {
    !(e.child is Null)
}

/// Counting the edges that lead somewhere one by one finds as many as
/// keeping them does.
proof fn lemma_live_count_filter(s: Seq<Edge>)
    ensures
        live_count(s) == s.filter(|e: Edge| leads(e)).len(),
    decreases s.len(),
{
    reveal(Seq::filter);
    if s.len() > 0 {
        lemma_live_count_filter(s.drop_last());
    }
}

/// A node's own sample in the tally of its kind is the number of its edges
/// that lead somewhere, not its number of slots; the tallies of the other
/// node kinds take nothing from it, and every tally gathers its children's
/// samples at the next depth.
pub proof fn lemma_node_tally(e: Edge, d: u64)
    requires
        e.child is Node,
    ensures
        ({
            let n = e.child->Node_0;
            let t = kind_tally(n.node_kind());
            &&& census(e, d, t) == census_all(n.edges@, deeper(d), t).insert(
                n.edges@.filter(|c: Edge| leads(c)).len() as u64,
            )
            &&& forall|u: Tally|
                u != t && u != Tally::Depth && u != Tally::Compression ==> #[trigger] census(e, d, u)
                    == census_all(n.edges@, deeper(d), u)
        }),
{
    let n = e.child->Node_0;
    lemma_live_count_filter(n.edges@);
    let t = kind_tally(n.node_kind());
    assert forall|u: Tally|
        u != t && u != Tally::Depth && u != Tally::Compression implies #[trigger] census(e, d, u)
        == census_all(n.edges@, deeper(d), u) by {
        assert(census_all(n.edges@, deeper(d), u).add(Multiset::empty()) =~= census_all(
            n.edges@,
            deeper(d),
            u,
        ));
    }
}

/// An edge that leads nowhere gives no sample; a value gives one depth
/// sample, its own depth, and one key sample, the number of bytes on its
/// edge; and a node's edge gives one key sample too, while its children are
/// one level deeper.
pub proof fn lemma_edge_tally(e: Edge, d: u64)
    ensures
        e.child is Null ==> forall|t: Tally| #[trigger] census(e, d, t) =~= Multiset::empty(),
        e.child is Value ==> census(e, d, Tally::Depth) =~= Multiset::empty().insert(d),
        e.child is Value ==> census(e, d, Tally::Compression) =~= Multiset::empty().insert(
            e.key().len() as u64,
        ),
        e.child is Node ==> census(e, d, Tally::Compression) == census_all(
            e.child->Node_0.edges@,
            deeper(d),
            Tally::Compression,
        ).insert(e.key().len() as u64),
        e.child is Node ==> census(e, d, Tally::Depth) == census_all(
            e.child->Node_0.edges@,
            deeper(d),
            Tally::Depth,
        ),
        d < u64::MAX ==> deeper(d) == d + 1,
{
    e.meta.lemma_wf_len();
    if e.child is Node {
        let n = e.child->Node_0;
        assert(census_all(n.edges@, deeper(d), Tally::Depth).add(Multiset::empty()) =~= census_all(
            n.edges@,
            deeper(d),
            Tally::Depth,
        ));
    }
}

/// Histograms of the shape of a tree, one per tally.
pub struct Process {
    histograms: Vec<Distribution>,
}

impl Process {
    pub closed spec fn wf(&self) -> bool {
        self.histograms@.len() == TALLIES
    }

    /// The samples of tally `t`.
    pub closed spec fn samples(&self, t: Tally) -> Multiset<u64> {
        self.histograms@[tally_slot(t)].samples()
    }

    fn new() -> (r: Process)
        ensures
            r.wf(),
            forall|t: Tally| #[trigger] r.samples(t) =~= Multiset::empty(),
    {
        let mut histograms: Vec<Distribution> = Vec::new();
        let mut i: usize = 0;
        while i < TALLIES
            invariant
                i <= TALLIES,
                histograms@.len() == i,
                forall|j: int| 0 <= j < i ==> (#[trigger] histograms@[j]).samples() =~= Multiset::<
                    u64,
                >::empty(),
            decreases TALLIES - i,
        {
            histograms.push(Distribution::new());
            i += 1;
        }
        Process { histograms }
    }

    /// Add `value` to tally `t`.
    fn record(&mut self, t: Tally, value: u64)
        requires
            old(self).wf(),
        ensures
            final(self).wf(),
            final(self).samples(t) == old(self).samples(t).insert(value),
            forall|u: Tally|
                tally_slot(u) != tally_slot(t) ==> #[trigger] final(self).samples(u) == old(
                    self,
                ).samples(u),
    {
        let i = tally_index(t);
        let mut h = Distribution::new();
        std::mem::swap(&mut h, &mut self.histograms[i]);
        h.record(value);
        std::mem::swap(&mut h, &mut self.histograms[i]);
    }

    /// The histogram of tally `t`.
    pub fn histogram(&self, t: Tally) -> (h: &Distribution)
        requires
            self.wf(),
        ensures
            h.samples() == self.samples(t),
    {
        &self.histograms[tally_index(t)]
    }
}

/// Add to `p` the samples of `e`, an edge at depth `d`, and of everything
/// below it, children before their node.
fn tally(e: &Edge, d: u64, p: &mut Process)
    requires
        e.wf(),
        old(p).wf(),
    ensures
        final(p).wf(),
        forall|t: Tally| #[trigger] final(p).samples(t) == old(p).samples(t).add(census(*e, d, t)),
    decreases e,
{
    let ghost p0 = *p;
    match &e.child {
        Child::Null => {
            proof {
                assert forall|t: Tally| #[trigger] p.samples(t) == p0.samples(t).add(census(*e, d, t)) by {
                    assert(p0.samples(t).add(census(*e, d, t)) =~= p0.samples(t));
                }
            }
        },
        Child::Value(_) => {
            p.record(Tally::Depth, d);
            let ghost p1 = *p;
            p.record(Tally::Compression, e.meta.bytes() as u64);
            proof {
                assert forall|t: Tally| #[trigger] p.samples(t) == p0.samples(t).add(census(*e, d, t)) by {
                    assert(p.samples(t) =~= p0.samples(t).add(census(*e, d, t)));
                }
            }
        },
        Child::Node(n) => {
            let nd = if d < u64::MAX {
                d + 1
            } else {
                d
            };
            let mut i: usize = 0;
            while i < n.edges.len()
                invariant
                    e.wf(),
                    e.child == Child::Node(*n),
                    forall|j: int| 0 <= j < n.edges@.len() ==> (#[trigger] n.edges@[j]).wf(),
                    i <= n.edges@.len(),
                    nd == deeper(d),
                    p.wf(),
                    forall|t: Tally| #[trigger] p.samples(t) == p0.samples(t).add(
                        census_all(n.edges@.take(i as int), nd, t),
                    ),
                decreases n.edges@.len() - i,
            {
                let ghost pi = *p;
                tally(&n.edges[i], nd, p);
                proof {
                    assert(n.edges@.take(i + 1).drop_last() =~= n.edges@.take(i as int));
                    assert forall|t: Tally| #[trigger] p.samples(t) == p0.samples(t).add(
                        census_all(n.edges@.take(i + 1), nd, t),
                    ) by {
                        assert(p.samples(t) =~= p0.samples(t).add(
                            census_all(n.edges@.take(i + 1), nd, t),
                        ));
                    }
                }
                i += 1;
            }
            proof {
                assert(n.edges@.take(i as int) =~= n.edges@);
            }
            let ghost p1 = *p;
            p.record(Tally::Compression, e.meta.bytes() as u64);
            let ghost p2 = *p;
            let k = match n.kind() {
                Kind::Node3 => Tally::Node3,
                Kind::Node15 => Tally::Node15,
                Kind::Node47 => Tally::Node47,
                Kind::Node256 => Tally::Node256,
            };
            p.record(k, n.len() as u64);
            proof {
                assert forall|t: Tally| #[trigger] p.samples(t) == p0.samples(t).add(census(*e, d, t)) by {
                    assert(p.samples(t) =~= p0.samples(t).add(census(*e, d, t)));
                }
            }
        },
    }
}

/// Histograms of the shape of `map`'s tree: the depth of each value, the
/// key bytes on each edge, and the live children of each node by kind.
pub fn process(map: &RadixMap) -> (p: Process)
    requires
        map.wf(),
    ensures
        p.wf(),
        forall|t: Tally| #[trigger] p.samples(t) == census(map.tree(), 0, t),
{
    let mut p = Process::new();
    tally(map.root(), 0, &mut p);
    proof {
        assert forall|t: Tally| #[trigger] p.samples(t) == census(map.tree(), 0, t) by {
            assert(p.samples(t) =~= census(map.tree(), 0, t));
        }
    }
    p
}

} // verus!
