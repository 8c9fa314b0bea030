use vstd::prelude::*;

verus! {

/// A category of telemetry.
#[derive(Clone, Copy, Debug, PartialEq, Eq, Structural)]
pub enum Domain {
    Cpu,
    Memory,
    Disk,
    Network,
    Temperature,
    Process,
}

/// One reading: a timestamp (in seconds) and a value. Counter domains store
/// cumulative values.
#[derive(Clone, Copy, Debug, PartialEq, Eq)]
pub struct TimePoint {
    pub timestamp: u64,
    pub value: u64,
}

/// The points of `s` whose timestamp lies in `[lo, hi]`, in order.
pub open spec fn select(s: Seq<TimePoint>, lo: int, hi: int) -> Seq<TimePoint>
    decreases s.len(),
{
    if s.len() == 0 {
        Seq::empty()
    } else {
        let rest = select(s.drop_last(), lo, hi);
        if lo <= s.last().timestamp as int && s.last().timestamp as int <= hi {
            rest.push(s.last())
        } else {
            rest
        }
    }
}

/// Timestamps never decrease along the series.
pub open spec fn ordered(s: Seq<TimePoint>) -> bool {
    forall|i: int, j: int| 0 <= i <= j < s.len() ==> s[i].timestamp <= s[j].timestamp
}

proof fn select_bounds(s: Seq<TimePoint>, lo: int, hi: int)
    ensures
        forall|k: int|
            0 <= k < select(s, lo, hi).len() ==> lo <= (#[trigger] select(s, lo, hi)[k]).timestamp
                <= hi,
        select(s, lo, hi).len() <= s.len(),
    decreases s.len(),
{
    if s.len() > 0 {
        select_bounds(s.drop_last(), lo, hi);
    }
}

proof fn select_ordered(s: Seq<TimePoint>, lo: int, hi: int)
    requires
        ordered(s),
    ensures
        ordered(select(s, lo, hi)),
        forall|k: int| 0 <= k < select(s, lo, hi).len() ==> s.contains(#[trigger] select(s, lo, hi)[k]),
    decreases s.len(),
{
    if s.len() > 0 {
        let t = s.drop_last();
        assert(ordered(t));
        select_ordered(t, lo, hi);
        let r = select(t, lo, hi);
        assert forall|k: int| 0 <= k < r.len() implies t.contains(#[trigger] r[k]) ==> s.contains(r[k]) by {
            if t.contains(r[k]) {
                let w = choose|w: int| 0 <= w < t.len() && t[w] == r[k];
                assert(s[w] == r[k]);
            }
        }
        assert(s[s.len() - 1] == s.last());
        assert forall|k: int| 0 <= k < r.len() implies (#[trigger] r[k]).timestamp <= s.last().timestamp by {
            let w = choose|w: int| 0 <= w < t.len() && t[w] == r[k];
            assert(s[w] == r[k]);
        }
    }
}

/// The points of `s` whose timestamp lies in `[lo, hi]`.
pub fn select_points(s: &Vec<TimePoint>, lo: u64, hi: u64) -> (r: Vec<TimePoint>)
    ensures
        r@ == select(s@, lo as int, hi as int),
{
    let mut r: Vec<TimePoint> = Vec::new();
    let mut i: usize = 0;
    while i < s.len()
        invariant
            0 <= i <= s@.len(),
            r@ == select(s@.take(i as int), lo as int, hi as int),
        decreases s@.len() - i,
    {
        let p = s[i];
        assert(s@.take(i as int + 1).drop_last() =~= s@.take(i as int));
        assert(s@.take(i as int + 1).last() == p);
        if lo <= p.timestamp && p.timestamp <= hi {
            r.push(p);
        }
        i = i + 1;
    }
    assert(s@.take(s@.len() as int) =~= s@);
    r
}

/// The rate between two readings of a counter: growth per second, zero where the
/// counter went back (a reset or a wrap) or no time passed.
pub open spec fn rate_between(a: TimePoint, b: TimePoint) -> int {
    if b.value > a.value && b.timestamp > a.timestamp {
        (b.value - a.value) as int / (b.timestamp - a.timestamp) as int
    } else {
        0
    }
}

/// `j` is the first point at or after instant `t`, and has a point before it:
/// the two straddle `t`.
pub open spec fn straddles(s: Seq<TimePoint>, j: int, t: int) -> bool {
    1 <= j < s.len() && s[j].timestamp as int >= t && (s[j - 1].timestamp as int) < t
}

/// The rate of the counter series `s` at instant `t`, from the two points that
/// straddle it; zero where no two points do.
pub fn rate_at(s: &Vec<TimePoint>, t: u64) -> (r: u64)
    requires
        ordered(s@),
    ensures
        forall|j: int| straddles(s@, j, t as int) ==> r as int == rate_between(s@[j - 1], s@[j]),
        !(exists|j: int| straddles(s@, j, t as int)) ==> r == 0,
{
    let mut j: usize = 0;
    while j < s.len() && s[j].timestamp < t
        invariant
            0 <= j <= s@.len(),
            forall|k: int| 0 <= k < j ==> (#[trigger] s@[k]).timestamp < t,
        decreases s@.len() - j,
    {
        j = j + 1;
    }
    if j == 0 || j >= s.len() {
        proof {
            assert forall|k: int| !straddles(s@, k, t as int) by {
                if straddles(s@, k, t as int) && j == 0 {
                    assert(s@[0].timestamp <= s@[k - 1].timestamp);
                }
            }
        }
        return 0;
    }
    let a = s[j - 1];
    let b = s[j];
    proof {
        assert(straddles(s@, j as int, t as int));
        assert forall|k: int| straddles(s@, k, t as int) implies k == j by {
            if k < j {
                assert(s@[k].timestamp < t);
            }
            if k > j {
                assert(s@[j as int].timestamp <= s@[k - 1].timestamp);
            }
        }
    }
    if b.value > a.value && b.timestamp > a.timestamp {
        (b.value - a.value) / (b.timestamp - a.timestamp)
    } else {
        0
    }
}


/// The stored series of one (domain, entity) pair.
#[derive(Clone, Debug)]
pub struct SeriesEntry {
    pub domain: Domain,
    pub entity: u64,
    pub points: Vec<TimePoint>,
}

/// Bounded in-memory time series, one per (domain, entity) pair of the domains
/// that the store was opened for.
#[derive(Clone, Debug)]
pub struct HistoryStore {
    retention: u64,
    domains: Vec<Domain>,
    entries: Vec<SeriesEntry>,
}

pub open spec fn keyed(e: SeriesEntry, d: Domain, entity: u64) -> bool {
    e.domain == d && e.entity == entity
}

/// `now - span`, or zero where that would be negative.
pub open spec fn since(now: u64, span: u64) -> int {
    if now >= span {
        now - span
    } else {
        0
    }
}

impl HistoryStore {
    /// Keys are unique and every series is ordered by time.
    pub closed spec fn wf(self) -> bool {
        &&& forall|i: int, j: int|
            0 <= i < j < self.entries@.len() ==> !keyed(
                #[trigger] self.entries@[i],
                self.entries@[j].domain,
                #[trigger] self.entries@[j].entity,
            )
        &&& forall|i: int| 0 <= i < self.entries@.len() ==> ordered(#[trigger] self.entries@[i].points@)
    }

    pub closed spec fn retention_spec(self) -> u64 {
        self.retention
    }

    pub closed spec fn enabled(self, d: Domain) -> bool {
        self.domains@.contains(d)
    }

    /// The series stored for `(d, entity)`; empty where there is none.
    pub closed spec fn series(self, d: Domain, entity: u64) -> Seq<TimePoint> {
        if exists|i: int| 0 <= i < self.entries@.len() && keyed(#[trigger] self.entries@[i], d, entity) {
            self.entries@[choose|i: int|
                0 <= i < self.entries@.len() && keyed(#[trigger] self.entries@[i], d, entity)].points@
        } else {
            Seq::empty()
        }
    }

    proof fn lemma_series_at(self, w: int)
        requires
            self.wf(),
            0 <= w < self.entries@.len(),
        ensures
            self.series(self.entries@[w].domain, self.entries@[w].entity) == self.entries@[w].points@,
    {
        let d = self.entries@[w].domain;
        let e = self.entries@[w].entity;
        assert(keyed(self.entries@[w], d, e));
        let c = choose|i: int| 0 <= i < self.entries@.len() && keyed(#[trigger] self.entries@[i], d, e);
        if c < w {
            assert(!keyed(self.entries@[c], self.entries@[w].domain, self.entries@[w].entity));
        }
        if w < c {
            assert(!keyed(self.entries@[w], self.entries@[c].domain, self.entries@[c].entity));
        }
    }

    /// An empty store keeping `retention` seconds of the given domains.
    pub fn new(retention: u64, domains: Vec<Domain>) -> (r: Self)
        ensures
            r.wf(),
            r.retention_spec() == retention,
            forall|d: Domain| #[trigger] r.enabled(d) <==> domains@.contains(d),
            forall|d: Domain, e: u64| #[trigger] r.series(d, e) == Seq::<TimePoint>::empty(),
    {
        HistoryStore { retention, domains, entries: Vec::new() }
    }

    pub fn retention(&self) -> (r: u64)
        ensures
            r == self.retention_spec(),
    {
        self.retention
    }

    fn is_enabled(&self, d: Domain) -> (r: bool)
        ensures
            r == self.enabled(d),
    {
        let mut i: usize = 0;
        while i < self.domains.len()
            invariant
                0 <= i <= self.domains@.len(),
                forall|k: int| 0 <= k < i ==> self.domains@[k] != d,
            decreases self.domains@.len() - i,
        {
            if self.domains[i] == d {
                assert(self.domains@[i as int] == d);
                return true;
            }
            i = i + 1;
        }
        false
    }

    fn find(&self, d: Domain, entity: u64) -> (r: Option<usize>)
        ensures
            r is Some ==> r->Some_0 < self.entries@.len() && keyed(self.entries@[r->Some_0 as int], d, entity),
            r is None ==> forall|i: int| 0 <= i < self.entries@.len() ==> !keyed(#[trigger] self.entries@[i], d, entity),
    {
        let mut i: usize = 0;
        while i < self.entries.len()
            invariant
                0 <= i <= self.entries@.len(),
                forall|k: int| 0 <= k < i ==> !keyed(#[trigger] self.entries@[k], d, entity),
            decreases self.entries@.len() - i,
        {
            if self.entries[i].domain == d && self.entries[i].entity == entity {
                return Some(i);
            }
            i = i + 1;
        }
        None
    }

    /// The points of `(d, entity)` from `now - window` to `now`; empty where the
    /// entity has no data.
    pub fn query(&self, d: Domain, entity: u64, now: u64, window: u64) -> (r: Vec<TimePoint>)
        requires
            self.wf(),
        ensures
            r@ == select(self.series(d, entity), since(now, window), now as int),
    {
        match self.find(d, entity) {
            Some(i) => {
                proof {
                    self.lemma_series_at(i as int);
                }
                let lo = if now >= window {
                    now - window
                } else {
                    0
                };
                select_points(&self.entries[i].points, lo, now)
            },
            None => Vec::new(),
        }
    }

    /// The rate of the counter series `(d, entity)` at instant `t`.
    pub fn rate(&self, d: Domain, entity: u64, t: u64) -> (r: u64)
        requires
            self.wf(),
        ensures
            forall|j: int|
                straddles(self.series(d, entity), j, t as int) ==> r as int == rate_between(
                    self.series(d, entity)[j - 1],
                    self.series(d, entity)[j],
                ),
            !(exists|j: int| straddles(self.series(d, entity), j, t as int)) ==> r == 0,
    {
        match self.find(d, entity) {
            Some(i) => {
                proof {
                    self.lemma_series_at(i as int);
                }
                rate_at(&self.entries[i].points, t)
            },
            None => {
                let empty: Vec<TimePoint> = Vec::new();
                rate_at(&empty, t)
            },
        }
    }

    proof fn lemma_series_absent(self, d: Domain, entity: u64)
        requires
            forall|i: int| 0 <= i < self.entries@.len() ==> !keyed(#[trigger] self.entries@[i], d, entity),
        ensures
            self.series(d, entity) == Seq::<TimePoint>::empty(),
    {
    }

    /// Appends reading `p` to the series of `(d, entity)`. A reading of a domain
    /// the store was not opened for, or one older than the series' last point,
    /// is dropped.
    pub fn ingest(&mut self, d: Domain, entity: u64, p: TimePoint)
        requires
            old(self).wf(),
        ensures
            final(self).wf(),
            final(self).retention_spec() == old(self).retention_spec(),
            forall|d2: Domain| #[trigger] final(self).enabled(d2) == old(self).enabled(d2),
            forall|d2: Domain, e2: u64|
                !(d2 == d && e2 == entity) ==> #[trigger] final(self).series(d2, e2) == old(self).series(d2, e2),
            final(self).series(d, entity) == if old(self).enabled(d) && (old(self).series(d, entity).len() == 0
                || old(self).series(d, entity).last().timestamp <= p.timestamp) {
                old(self).series(d, entity).push(p)
            } else {
                old(self).series(d, entity)
            },
    {
        if !self.is_enabled(d) {
            return;
        }
        let ghost prev = *self;
        match self.find(d, entity) {
            Some(i) => {
                proof {
                    prev.lemma_series_at(i as int);
                }
                let n = self.entries[i].points.len();
                if n > 0 && self.entries[i].points[n - 1].timestamp > p.timestamp {
                    return;
                }
                let mut e = self.entries.remove(i);
                e.points.push(p);
                self.entries.insert(i, e);
                proof {
                    assert(self.entries@ =~= prev.entries@.update(i as int, e));
                    let pts = e.points@;
                    assert forall|a: int, b: int| 0 <= a <= b < pts.len() implies pts[a].timestamp <= pts[b].timestamp by {
                        if b < n {
                            assert(prev.entries@[i as int].points@[a] == pts[a]);
                            assert(prev.entries@[i as int].points@[b] == pts[b]);
                        } else {
                            if a < n {
                                assert(prev.entries@[i as int].points@[a].timestamp <= prev.entries@[i as int].points@[n - 1].timestamp);
                            }
                        }
                    }
                    assert(ordered(self.entries@[i as int].points@));
                    self.lemma_series_at(i as int);
                    assert forall|d2: Domain, e2: u64|
                        !(d2 == d && e2 == entity) implies #[trigger] self.series(d2, e2) == prev.series(d2, e2) by {
                        if exists|w: int| 0 <= w < prev.entries@.len() && keyed(#[trigger] prev.entries@[w], d2, e2) {
                            let w = choose|w: int| 0 <= w < prev.entries@.len() && keyed(#[trigger] prev.entries@[w], d2, e2);
                            prev.lemma_series_at(w);
                            self.lemma_series_at(w);
                        } else {
                            assert forall|w: int| 0 <= w < self.entries@.len() implies !keyed(#[trigger] self.entries@[w], d2, e2) by {
                                if w != i {
                                    assert(self.entries@[w] == prev.entries@[w]);
                                }
                            }
                            self.lemma_series_absent(d2, e2);
                            prev.lemma_series_absent(d2, e2);
                        }
                    }
                }
            },
            None => {
                let mut points: Vec<TimePoint> = Vec::new();
                points.push(p);
                let e = SeriesEntry { domain: d, entity, points };
                self.entries.push(e);
                proof {
                    prev.lemma_series_absent(d, entity);
                    let w = prev.entries@.len() as int;
                    assert(self.entries@[w] == e);
                    self.lemma_series_at(w);
                    assert(e.points@ =~= Seq::<TimePoint>::empty().push(p));
                    assert forall|d2: Domain, e2: u64|
                        !(d2 == d && e2 == entity) implies #[trigger] self.series(d2, e2) == prev.series(d2, e2) by {
                        if exists|v: int| 0 <= v < prev.entries@.len() && keyed(#[trigger] prev.entries@[v], d2, e2) {
                            let v = choose|v: int| 0 <= v < prev.entries@.len() && keyed(#[trigger] prev.entries@[v], d2, e2);
                            prev.lemma_series_at(v);
                            assert(self.entries@[v] == prev.entries@[v]);
                            self.lemma_series_at(v);
                        } else {
                            assert forall|v: int| 0 <= v < self.entries@.len() implies !keyed(#[trigger] self.entries@[v], d2, e2) by {
                                if v < w {
                                    assert(self.entries@[v] == prev.entries@[v]);
                                }
                            }
                            self.lemma_series_absent(d2, e2);
                            prev.lemma_series_absent(d2, e2);
                        }
                    }
                }
            },
        }
    }

    /// Evicts from every series the points older than `now - retention`. After
    /// the call every stored point is at least that recent.
    pub fn prune(&mut self, now: u64)
        requires
            old(self).wf(),
        ensures
            final(self).wf(),
            final(self).retention_spec() == old(self).retention_spec(),
            forall|d2: Domain| #[trigger] final(self).enabled(d2) == old(self).enabled(d2),
            forall|d: Domain, e: u64|
                #[trigger] final(self).series(d, e) == select(
                    old(self).series(d, e),
                    since(now, old(self).retention_spec()),
                    u64::MAX as int,
                ),
            forall|d: Domain, e: u64, k: int|
                0 <= k < final(self).series(d, e).len() ==> (#[trigger] final(self).series(d, e)[k]).timestamp
                    >= since(now, final(self).retention_spec()),
    {
        let ghost prev = *self;
        let cutoff = if now >= self.retention {
            now - self.retention
        } else {
            0
        };
        let mut i: usize = 0;
        while i < self.entries.len()
            invariant
                self.retention == prev.retention,
                self.domains == prev.domains,
                self.entries@.len() == prev.entries@.len(),
                prev.wf(),
                cutoff as int == since(now, prev.retention),
                0 <= i <= self.entries@.len(),
                forall|k: int|
                    0 <= k < self.entries@.len() ==> (#[trigger] self.entries@[k]).domain == prev.entries@[k].domain
                        && self.entries@[k].entity == prev.entries@[k].entity,
                forall|k: int|
                    0 <= k < i ==> (#[trigger] self.entries@[k]).points@ == select(prev.entries@[k].points@, cutoff as int, u64::MAX as int),
                forall|k: int| i <= k < self.entries@.len() ==> #[trigger] self.entries@[k] == prev.entries@[k],
            decreases self.entries@.len() - i,
        {
            let kept = select_points(&self.entries[i].points, cutoff, u64::MAX);
            let mut e = self.entries.remove(i);
            e.points = kept;
            self.entries.insert(i, e);
            i = i + 1;
        }
        proof {
            assert forall|k: int| 0 <= k < self.entries@.len() implies ordered(#[trigger] self.entries@[k].points@) by {
                select_ordered(prev.entries@[k].points@, cutoff as int, u64::MAX as int);
            }
            assert forall|a: int, b: int|
                0 <= a < b < self.entries@.len() implies !keyed(
                    #[trigger] self.entries@[a],
                    self.entries@[b].domain,
                    #[trigger] self.entries@[b].entity,
                ) by {
                assert(!keyed(prev.entries@[a], prev.entries@[b].domain, prev.entries@[b].entity));
            }
            assert(self.wf());
            assert forall|d: Domain, e: u64|
                #[trigger] self.series(d, e) == select(prev.series(d, e), cutoff as int, u64::MAX as int) by {
                if exists|v: int| 0 <= v < prev.entries@.len() && keyed(#[trigger] prev.entries@[v], d, e) {
                    let v = choose|v: int| 0 <= v < prev.entries@.len() && keyed(#[trigger] prev.entries@[v], d, e);
                    prev.lemma_series_at(v);
                    self.lemma_series_at(v);
                } else {
                    assert forall|v: int| 0 <= v < self.entries@.len() implies !keyed(#[trigger] self.entries@[v], d, e) by {
                        assert(!keyed(prev.entries@[v], d, e));
                    }
                    self.lemma_series_absent(d, e);
                    prev.lemma_series_absent(d, e);
                    assert(select(Seq::<TimePoint>::empty(), cutoff as int, u64::MAX as int) =~= Seq::<TimePoint>::empty());
                }
            }
            assert forall|d: Domain, e: u64, k: int|
                0 <= k < self.series(d, e).len() implies (#[trigger] self.series(d, e)[k]).timestamp >= cutoff by {
                select_bounds(prev.series(d, e), cutoff as int, u64::MAX as int);
            }
        }
    }
}

} // verus!
