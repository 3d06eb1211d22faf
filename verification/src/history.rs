//! The sample history: the ranges a client may ask for, the bounded queue of
//! samples not yet written to disk, and how stored and queued samples merge
//! into the averaged points of a view.

use vstd::prelude::*;
use std::collections::VecDeque;
use crate::text::{
    chars_of, decimal, lemma_decimal_parses_back, parse_u64, parse_u64_vec, slice_vec, split_char, split_on, starts_with,
    starts_with_vec, views,
};
use crate::util::{
    join, lemma_object3, lemma_object4, list, list_text, member, number, number_text, object,
    object_text, or_null, quote, quoted, text_or_null,
    text_view, texts,
};

verus! {

// ---------------------------------------------------------------------------
// Ranges
// ---------------------------------------------------------------------------

/// A view of the history: how many minutes back, and the width in seconds of
/// the averaged points.
#[derive(Clone, Copy, Debug)]
pub struct Range {
    pub minutes: u64,
    pub resolution: u64,
}

/// The point width of each offered view: 15 minutes and one hour at 5
/// seconds, a day at a minute, a week at ten minutes, 30 days at half an hour.
pub open spec fn resolution_for(minutes: u64) -> Option<u64> {
    if minutes == 15 || minutes == 60 {
        Some(5)
    } else if minutes == 1440 {
        Some(60)
    } else if minutes == 10080 {
        Some(600)
    } else if minutes == 43200 {
        Some(1800)
    } else {
        None
    }
}

/// The range a query string asks for: the empty query is the hour view,
/// otherwise exactly `minutes=<n>` for one of the offered views.
pub open spec fn range_from(query: Seq<char>) -> Option<Range> {
    let minutes = if query.len() == 0 {
        Some(60u64)
    } else if starts_with(query, "minutes="@) {
        parse_u64(query.skip("minutes="@.len() as int))
    } else {
        None
    };
    match minutes {
        Some(m) => match resolution_for(m) {
            Some(r) => Some(Range { minutes: m, resolution: r }),
            None => None,
        },
        None => None,
    }
}

impl Range {
    /// The range of a query string such as `minutes=1440`.
    pub fn parse(query: &str) -> (r: Option<Range>)
        ensures
            r == range_from(query@),
    {
        let chars = chars_of(query);
        let minutes = if chars.len() == 0 {
            60
        } else {
            let prefix = chars_of("minutes=");
            if !starts_with_vec(&chars, &prefix) {
                return None;
            }
            let digits = crate::text::slice_vec(&chars, prefix.len(), chars.len());
            assert(digits@ =~= query@.skip(prefix@.len() as int));
            match parse_u64_vec(&digits) {
                Some(m) => m,
                None => return None,
            }
        };
        let resolution = if minutes == 15 || minutes == 60 {
            5
        } else if minutes == 1440 {
            60
        } else if minutes == 10080 {
            600
        } else if minutes == 43200 {
            1800
        } else {
            return None;
        };
        Some(Range { minutes, resolution })
    }

    /// The first second of the view that ends at `end`, and the width in
    /// seconds by which its samples are grouped: the five-second views keep
    /// every sample apart.
    pub fn window(self, end: u64) -> (r: (u64, u64))
        requires
            self.minutes * 60 <= u64::MAX,
        ensures
            r.0 == if end >= self.minutes * 60 {
                end - self.minutes * 60
            } else {
                0
            },
            r.1 == if self.resolution == 5 {
                1
            } else {
                self.resolution
            },
    {
        let start = end.saturating_sub(self.minutes * 60);
        let resolution = if self.resolution == 5 {
            1
        } else {
            self.resolution
        };
        (start, resolution)
    }
}

// ---------------------------------------------------------------------------
// The queue of unwritten samples
// ---------------------------------------------------------------------------

/// How many samples wait in memory at most while the disk cannot be written.
pub const PENDING_LIMIT: usize = 720;

/// A sample at a second, with values the history carries along.
pub struct Sample<V> {
    pub timestamp: u64,
    pub values: V,
}

/// The samples of `s` at seconds other than `t`, in order.
pub open spec fn without<V>(s: Seq<Sample<V>>, t: u64) -> Seq<Sample<V>>
    decreases s.len(),
{
    if s.len() == 0 {
        s
    } else {
        let w = without(s.drop_last(), t);
        if s.last().timestamp == t {
            w
        } else {
            w.push(s.last())
        }
    }
}

/// Whether no two samples share a second.
pub open spec fn distinct_times<V>(s: Seq<Sample<V>>) -> bool {
    forall|i: int, j: int|
        0 <= i < j < s.len() ==> #[trigger] s[i].timestamp != #[trigger] s[j].timestamp
}

/// The latest second among the samples and `base`.
pub open spec fn latest<V>(s: Seq<Sample<V>>, base: Option<u64>) -> Option<u64>
    decreases s.len(),
{
    if s.len() == 0 {
        base
    } else {
        match latest(s.drop_last(), base) {
            Some(t) => if s.last().timestamp > t {
                Some(s.last().timestamp)
            } else {
                Some(t)
            },
            None => Some(s.last().timestamp),
        }
    }
}

/// The queue after recording `p`: an earlier sample at the same second is
/// replaced, and when the queue is full the oldest sample is dropped.
pub open spec fn recorded<V>(s: Seq<Sample<V>>, p: Sample<V>) -> Seq<Sample<V>> {
    let w = without(s, p.timestamp);
    if w.len() == PENDING_LIMIT {
        w.drop_first().push(p)
    } else {
        w.push(p)
    }
}

/// Whether recording `p` drops the oldest sample.
pub open spec fn drops<V>(s: Seq<Sample<V>>, p: Sample<V>) -> bool {
    without(s, p.timestamp).len() == PENDING_LIMIT
}

proof fn lemma_without<V>(s: Seq<Sample<V>>, t: u64)
    ensures
        without(s, t).len() <= s.len(),
        forall|i: int|
            0 <= i < without(s, t).len() ==> #[trigger] without(s, t)[i].timestamp != t,
        forall|i: int|
            0 <= i < without(s, t).len() ==> exists|j: int|
                0 <= j < s.len() && s[j] == #[trigger] without(s, t)[i],
        distinct_times(s) ==> distinct_times(without(s, t)),
    decreases s.len(),
{
    if s.len() > 0 {
        let d = s.drop_last();
        lemma_without(d, t);
        let w = without(d, t);
        assert forall|i: int| 0 <= i < without(s, t).len() implies exists|j: int|
            0 <= j < s.len() && s[j] == #[trigger] without(s, t)[i] by {
            if i < w.len() {
                let j = choose|j: int| 0 <= j < d.len() && d[j] == w[i];
                assert(s[j] == d[j]);
            } else {
                assert(s[s.len() - 1] == without(s, t)[i]);
            }
        }
        if distinct_times(s) {
            assert(distinct_times(d)) by {
                assert forall|i: int, j: int| 0 <= i < j < d.len() implies #[trigger] d[i].timestamp
                    != #[trigger] d[j].timestamp by {
                    assert(d[i] == s[i] && d[j] == s[j]);
                }
            }
            let ws = without(s, t);
            assert forall|i: int, j: int| 0 <= i < j < ws.len() implies #[trigger] ws[i].timestamp
                != #[trigger] ws[j].timestamp by {
                if j == w.len() {
                    let k = choose|k: int| 0 <= k < d.len() && d[k] == w[i];
                    assert(s[k] == d[k]);
                    assert(ws[j] == s.last());
                }
            }
        }
    }
}

/// The history's queue of samples not yet on disk, what was written last,
/// and how writing went.
pub struct Store<V> {
    pending: VecDeque<Sample<V>>,
    persisted_through: Option<u64>,
    write_failed: bool,
    dropped_samples: u64,
}

impl<V> Store<V> {
    #[verifier::type_invariant]
    spec fn bounded(&self) -> bool {
        &&& self.pending@.len() <= PENDING_LIMIT
        &&& distinct_times(self.pending@)
    }

    /// The queued samples, oldest first.
    pub closed spec fn queued(&self) -> Seq<Sample<V>> {
        self.pending@
    }

    /// The latest second known to be on disk.
    pub closed spec fn persisted(&self) -> Option<u64> {
        self.persisted_through
    }

    /// Whether the last write failed.
    pub closed spec fn failing(&self) -> bool {
        self.write_failed
    }

    /// How many queued samples were dropped to keep the queue bounded.
    pub closed spec fn dropped(&self) -> u64 {
        self.dropped_samples
    }

    /// An empty queue for a history whose stored samples end at
    /// `persisted_through`.
    pub fn new(persisted_through: Option<u64>) -> (r: Store<V>)
        ensures
            r.queued().len() == 0,
            r.persisted() == persisted_through,
            !r.failing(),
            r.dropped() == 0,
    {
        Store { pending: VecDeque::new(), persisted_through, write_failed: false, dropped_samples: 0 }
    }

    /// The number of queued samples.
    pub fn pending_len(&self) -> (n: usize)
        ensures
            n == self.queued().len(),
    {
        self.pending.len()
    }

    /// The number of dropped samples.
    pub fn dropped_samples(&self) -> (n: u64)
        ensures
            n == self.dropped(),
    {
        self.dropped_samples
    }

    /// Whether recording a sample at second `timestamp` would drop the
    /// oldest queued sample: the queue is full without a sample of that second.
    pub fn would_drop(&self, timestamp: u64) -> (r: bool)
        ensures
            r == (without(self.queued(), timestamp).len() == PENDING_LIMIT),
    {
        let ghost q = self.pending@;
        let mut n: usize = 0;
        let mut i: usize = 0;
        while i < self.pending.len()
            invariant
                q == self.pending@,
                i <= q.len(),
                n == without(q.take(i as int), timestamp).len(),
                n <= i,
            decreases q.len() - i,
        {
            assert(q.take(i + 1).drop_last() =~= q.take(i as int));
            if self.pending[i].timestamp != timestamp {
                n += 1;
            }
            i += 1;
        }
        assert(q.take(q.len() as int) =~= q);
        n == PENDING_LIMIT
    }

    /// The queued sample at `i`, oldest first.
    pub fn sample(&self, i: usize) -> (r: &Sample<V>)
        requires
            i < self.queued().len(),
        ensures
            *r == self.queued()[i as int],
    {
        &self.pending[i]
    }

    /// Queues a sample: one queued earlier at the same second is replaced,
    /// and when the queue holds `PENDING_LIMIT` samples the oldest is dropped
    /// and counted. The queue never holds more, nor two samples of a second.
    pub fn record(&mut self, point: Sample<V>)
        requires
            drops(old(self).queued(), point) ==> old(self).dropped() < u64::MAX,
        ensures
            final(self).queued() == recorded(old(self).queued(), point),
            final(self).dropped() == old(self).dropped() + if drops(old(self).queued(), point) {
                1u64
            } else {
                0u64
            },
            final(self).queued().len() <= PENDING_LIMIT,
            distinct_times(final(self).queued()),
            final(self).persisted() == old(self).persisted(),
            final(self).failing() == old(self).failing(),
    {
        proof {
            use_type_invariant(&*self);
        }
        let t = point.timestamp;
        let mut old_queue: VecDeque<Sample<V>> = VecDeque::new();
        std::mem::swap(&mut old_queue, &mut self.pending);
        let ghost s = old_queue@;
        let mut kept: VecDeque<Sample<V>> = VecDeque::new();
        let ghost mut taken: int = 0;
        while old_queue.len() > 0
            invariant
                0 <= taken <= s.len(),
                old_queue@ == s.skip(taken),
                kept@ == without(s.take(taken), t),
            decreases old_queue@.len(),
        {
            let item = old_queue.pop_front().unwrap();
            proof {
                assert(s.take(taken + 1).drop_last() =~= s.take(taken));
                assert(s.take(taken + 1).last() == item);
                assert(s.skip(taken).subrange(1, s.skip(taken).len() as int) =~= s.skip(taken + 1));
            }
            if item.timestamp != t {
                kept.push_back(item);
            }
            proof {
                taken = taken + 1;
            }
        }
        assert(s.take(taken) =~= s);
        proof {
            lemma_without(s, t);
        }
        let full = kept.len() == PENDING_LIMIT;
        if full {
            kept.pop_front();
        }
        let ghost before_push = kept@;
        kept.push_back(point);
        proof {
            let w = without(s, t);
            assert(kept@ == recorded(s, point)) by {
                if full {
                    assert(before_push =~= w.drop_first());
                }
            }
            assert(distinct_times(kept@)) by {
                assert forall|i: int, j: int| 0 <= i < j < kept@.len() implies #[trigger] kept@[i].timestamp
                    != #[trigger] kept@[j].timestamp by {
                    if full {
                        assert(kept@[i] == w[i + 1]);
                        if j < kept@.len() - 1 {
                            assert(kept@[j] == w[j + 1]);
                        }
                    } else {
                        assert(kept@[i] == w[i]);
                        if j < kept@.len() - 1 {
                            assert(kept@[j] == w[j]);
                        }
                    }
                }
            }
        }
        self.pending = kept;
        if full {
            self.dropped_samples = self.dropped_samples + 1;
        }
    }

    /// Whether a write is due: nothing was ever written, or the interval
    /// between writes has passed.
    pub fn flush_due(&self, interval_elapsed: bool) -> (r: bool)
        ensures
            r == (self.persisted() is None || interval_elapsed),
    {
        self.persisted_through.is_none() || interval_elapsed
    }

    /// The queue was written: it empties, the latest second on disk advances
    /// to the latest written, and writing counts as working. Returns whether
    /// writing had failed before (it recovered).
    pub fn committed(&mut self) -> (recovered: bool)
        ensures
            recovered == old(self).failing(),
            final(self).queued().len() == 0,
            final(self).persisted() == latest(old(self).queued(), old(self).persisted()),
            !final(self).failing(),
            final(self).dropped() == old(self).dropped(),
    {
        let mut through = self.persisted_through;
        let mut i: usize = 0;
        while i < self.pending.len()
            invariant
                i <= self.pending@.len(),
                through == latest(self.pending@.take(i as int), self.persisted_through),
            decreases self.pending@.len() - i,
        {
            assert(self.pending@.take(i + 1).drop_last() =~= self.pending@.take(i as int));
            let t = self.pending[i].timestamp;
            through = match through {
                Some(p) => if t > p {
                    Some(t)
                } else {
                    Some(p)
                },
                None => Some(t),
            };
            i += 1;
        }
        assert(self.pending@.take(self.pending@.len() as int) =~= self.pending@);
        let recovered = self.write_failed;
        self.pending = VecDeque::new();
        self.persisted_through = through;
        self.write_failed = false;
        recovered
    }

    /// Writing failed; the queue stays for the next try. Returns whether
    /// this is the first failure in a row.
    pub fn write_failed(&mut self) -> (first: bool)
        ensures
            first == !old(self).failing(),
            final(self).failing(),
            final(self).queued() == old(self).queued(),
            final(self).persisted() == old(self).persisted(),
            final(self).dropped() == old(self).dropped(),
    {
        proof {
            use_type_invariant(&*self);
        }
        let first = !self.write_failed;
        self.write_failed = true;
        first
    }

    /// The history's state as JSON: `ok` or `error`, the latest second on
    /// disk, and how many samples wait and were dropped.
    pub fn status_json(&self) -> (s: String)
        ensures
            s@ == object_text(
                seq![
                    ("state"@, quoted(if self.failing() {
                        "error"@
                    } else {
                        "ok"@
                    })),
                    ("persisted_through"@, number_text(self.persisted())),
                    ("pending_samples"@, decimal(self.queued().len())),
                    ("dropped_samples"@, decimal(self.dropped() as nat)),
                ],
            ),
    {
        let state = if self.write_failed {
            quote("error")
        } else {
            quote("ok")
        };
        let fields = [
            ("state", state),
            ("persisted_through", number(self.persisted_through)),
            ("pending_samples", number(Some(self.pending.len() as u64))),
            ("dropped_samples", number(Some(self.dropped_samples))),
        ];
        let s = object(&fields);
        assert(fields@.map_values(|f: (&str, String)| (f.0@, f.1@)) =~= seq![
            ("state"@, quoted(if self.failing() {
                "error"@
            } else {
                "ok"@
            })),
            ("persisted_through"@, number_text(self.persisted())),
            ("pending_samples"@, decimal(self.queued().len())),
            ("dropped_samples"@, decimal(self.dropped() as nat)),
        ]);
        s
    }
}


// ---------------------------------------------------------------------------
// The database file
// ---------------------------------------------------------------------------

/// Whether `rest`, after a path's first component, adds nothing to it:
/// empty, or only separators and `.` components, which paths ignore there.
pub open spec fn adds_nothing(rest: Seq<char>) -> bool {
    rest.len() == 0 || (rest[0] == '/' && forall|i: int|
        0 <= i < split_char(rest, '/').len() ==> #[trigger] split_char(rest, '/')[i].len() == 0
            || split_char(rest, '/')[i] == "."@)
}

/// Whether a path names SQLite's in-memory database: as paths compare by
/// their components, `:memory:` alone, whatever separators and `.`
/// components follow it.
pub open spec fn names_memory(path: Seq<char>) -> bool {
    starts_with(path, ":memory:"@) && adds_nothing(path.skip(":memory:"@.len() as int))
}

/// Whether the history may be kept at `path`: it names a file on disk, not
/// nothing and not the in-memory database.
pub open spec fn disk_path(path: Seq<char>) -> bool {
    path.len() > 0 && !names_memory(path)
}

/// Whether the history may be kept at `path`.
pub fn on_disk(path: &str) -> (r: bool)
    ensures
        r == disk_path(path@),
{
    let p = chars_of(path);
    if p.len() == 0 {
        return false;
    }
    let m = chars_of(":memory:");
    if !starts_with_vec(&p, &m) {
        return true;
    }
    let rest = slice_vec(&p, m.len(), p.len());
    assert(rest@ =~= path@.skip(":memory:"@.len() as int));
    if rest.len() == 0 {
        return false;
    }
    if rest[0] != '/' {
        return true;
    }
    let pieces = split_on(&rest, '/');
    let dot = chars_of(".");
    let mut i: usize = 0;
    while i < pieces.len()
        invariant
            i <= pieces@.len(),
            views(pieces@) == split_char(rest@, '/'),
            dot@ == "."@,
            path@.len() > 0,
            starts_with(path@, ":memory:"@),
            rest@ == path@.skip(":memory:"@.len() as int),
            rest@.len() > 0,
            rest@[0] == '/',
            forall|j: int| 0 <= j < i ==> #[trigger] split_char(rest@, '/')[j].len() == 0
                || split_char(rest@, '/')[j] == "."@,
        decreases pieces@.len() - i,
    {
        assert(views(pieces@)[i as int] == pieces@[i as int]@);
        if pieces[i].len() != 0 && !crate::text::same(&pieces[i], &dot) {
            assert(!(split_char(rest@, '/')[i as int].len() == 0 || split_char(rest@, '/')[i as int]
                == "."@));
            assert(views(pieces@).len() == pieces@.len());
            assert(0 <= i < split_char(rest@, '/').len());
            assert(rest@[0] == '/');
            assert(!adds_nothing(rest@));
            return true;
        }
        i += 1;
    }
    false
}

/// Whether the history's table has a layout this library reads: version 1,
/// or 0 for a file that holds none yet.
pub fn supported_version(version: i64) -> (r: bool)
    ensures
        r == (version <= 1),
{
    version <= 1
}

// ---------------------------------------------------------------------------
// Views: merging stored and queued samples, and grouping them into points
// ---------------------------------------------------------------------------

/// Where a sample of a view comes from: the `i`th stored row, or the `i`th
/// queued sample.
#[derive(Clone, Copy, Debug, PartialEq, Eq, Structural)]
pub enum Source {
    Stored(usize),
    Queued(usize),
}

/// Whether a sample lies within the seconds `start..=end`.
pub open spec fn in_window<V>(s: Sample<V>, start: u64, end: u64) -> bool {
    start <= s.timestamp && s.timestamp <= end
}

/// Whether the values strictly increase.
pub open spec fn increasing(rows: Seq<u64>) -> bool {
    forall|i: int, j: int| 0 <= i < j < rows.len() ==> #[trigger] rows[i] < #[trigger] rows[j]
}

/// The second of a source.
pub open spec fn source_time<V>(src: Source, rows: Seq<u64>, queue: Seq<Sample<V>>) -> int {
    match src {
        Source::Stored(i) => rows[i as int] as int,
        Source::Queued(j) => queue[j as int].timestamp as int,
    }
}

/// Whether a source names a stored row, or a queued sample in the window.
pub open spec fn valid_source<V>(src: Source, rows: Seq<u64>, queue: Seq<Sample<V>>, start: u64, end: u64) -> bool {
    match src {
        Source::Stored(i) => i < rows.len(),
        Source::Queued(j) => j < queue.len() && in_window(queue[j as int], start, end),
    }
}

/// Whether some source in `r` is at second `t`.
pub open spec fn has_time<V>(r: Seq<Source>, rows: Seq<u64>, queue: Seq<Sample<V>>, t: int) -> bool {
    exists|k: int| 0 <= k < r.len() && source_time(r[k], rows, queue) == t
}

/// Whether `r` takes the `m`th queued sample.
pub open spec fn has_queued(r: Seq<Source>, m: int) -> bool {
    exists|k: int| 0 <= k < r.len() && r[k] == Source::Queued(m as usize)
}

/// Whether `r` is the merge of the stored rows at seconds `rows` with the
/// queued samples in the window: every second of either once, in increasing
/// order, a queued sample replacing the stored row of its second.
pub open spec fn merged<V>(r: Seq<Source>, rows: Seq<u64>, queue: Seq<Sample<V>>, start: u64, end: u64) -> bool {
    &&& forall|k: int| 0 <= k < r.len() ==> valid_source(#[trigger] r[k], rows, queue, start, end)
    &&& forall|k1: int, k2: int|
        0 <= k1 < k2 < r.len() ==> source_time(#[trigger] r[k1], rows, queue) < source_time(
            #[trigger] r[k2],
            rows,
            queue,
        )
    &&& forall|x: int| 0 <= x < rows.len() ==> #[trigger] has_time(r, rows, queue, rows[x] as int)
    &&& forall|m: int|
        0 <= m < queue.len() && in_window(queue[m], start, end) ==> #[trigger] has_queued(r, m)
    &&& forall|k: int, m: int|
        0 <= k < r.len() && 0 <= m < queue.len() && (#[trigger] r[k]) is Stored && in_window(
            #[trigger] queue[m],
            start,
            end,
        ) ==> queue[m].timestamp != rows[r[k]->Stored_0 as int]
}

/// The `resolution`-second slot that second `t` falls in.
#[verifier::opaque]
pub open spec fn slot(t: u64, resolution: u64) -> int {
    t as int / resolution as int
}

/// The groups of consecutive samples that share a point: a sample joins
/// the group of the one before it when both fall in the same `resolution`
/// seconds, and starts a group otherwise. Each group is the half-open range
/// of its positions.
pub open spec fn groups(ts: Seq<u64>, resolution: u64) -> Seq<(int, int)>
    decreases ts.len(),
{
    if ts.len() == 0 {
        Seq::<(int, int)>::empty()
    } else {
        let b = groups(ts.drop_last(), resolution);
        let n = ts.len() as int;
        if n >= 2 && slot(ts[n - 1], resolution) == slot(ts[n - 2], resolution) {
            b.update(b.len() - 1, (b.last().0, n))
        } else {
            b.push((n - 1, n))
        }
    }
}

#[verifier::spinoff_prover]
proof fn lemma_groups_shape(ts: Seq<u64>, resolution: u64)
    ensures
        ts.len() > 0 ==> groups(ts, resolution).len() > 0 && groups(ts, resolution).last().1
            == ts.len(),
        groups(ts, resolution).len() <= ts.len(),
    decreases ts.len(),
{
    if ts.len() > 0 {
        lemma_groups_shape(ts.drop_last(), resolution);
    }
}

#[verifier::spinoff_prover]
proof fn lemma_groups_cover(ts: Seq<u64>, resolution: u64)
    ensures
        ts.len() > 0 ==> groups(ts, resolution)[0].0 == 0,
        forall|k: int|
            0 <= k < groups(ts, resolution).len() ==> 0 <= #[trigger] groups(ts, resolution)[k].0
                < groups(ts, resolution)[k].1 <= ts.len(),
        forall|k: int, l: int|
            0 <= k && l == k + 1 && l < groups(ts, resolution).len() ==> #[trigger] groups(
                ts,
                resolution,
            )[k].1 == #[trigger] groups(ts, resolution)[l].0,
    decreases ts.len(),
{
    if ts.len() > 0 {
        let d = ts.drop_last();
        lemma_groups_cover(d, resolution);
        lemma_groups_shape(d, resolution);
        let b = groups(d, resolution);
        let g = groups(ts, resolution);
        let n = ts.len() as int;
        if n >= 2 && slot(ts[n - 1], resolution) == slot(ts[n - 2], resolution) {
            assert(g == b.update(b.len() - 1, (b.last().0, n)));
            assert forall|k: int, l: int| 0 <= k && l == k + 1 && l < g.len() implies #[trigger] g[k].1
                == #[trigger] g[l].0 by {
                assert(g[k] == b[k]);
                assert(b[k].1 == b[l].0);
            }
        } else {
            assert(g == b.push((n - 1, n)));
            assert forall|k: int, l: int| 0 <= k && l == k + 1 && l < g.len() implies #[trigger] g[k].1
                == #[trigger] g[l].0 by {
                assert(g[k] == b[k]);
                if l < b.len() {
                    assert(b[k].1 == b[l].0);
                }
            }
        }
    }
}

#[verifier::spinoff_prover]
proof fn lemma_groups_share(ts: Seq<u64>, resolution: u64)
    ensures
        forall|k: int, i: int|
            0 <= k < groups(ts, resolution).len() && groups(ts, resolution)[k].0 <= i
                < groups(ts, resolution)[k].1 ==> #[trigger] slot(ts[i], resolution) == slot(
                ts[#[trigger] groups(ts, resolution)[k].0],
                resolution,
            ),
    decreases ts.len(),
{
    if ts.len() > 0 {
        let d = ts.drop_last();
        let n = ts.len() as int;
        lemma_groups_share(d, resolution);
        lemma_groups_cover(d, resolution);
        lemma_groups_shape(d, resolution);
        let b = groups(d, resolution);
        let g = groups(ts, resolution);
        if n >= 2 && slot(ts[n - 1], resolution) == slot(ts[n - 2], resolution) {
            assert(g == b.update(b.len() - 1, (b.last().0, n)));
        } else {
            assert(g == b.push((n - 1, n)));
        }
        assert forall|k: int, i: int| 0 <= k < g.len() && g[k].0 <= i < g[k].1 implies #[trigger] slot(
            ts[i],
            resolution,
        ) == slot(ts[#[trigger] g[k].0], resolution) by {
            if k < b.len() && i < n - 1 {
                assert(g[k].0 == b[k].0);
                assert(d[i] == ts[i]);
                assert(d[b[k].0] == ts[b[k].0]);
                assert(slot(d[i], resolution) == slot(d[b[k].0], resolution));
            } else if k < b.len() {
                assert(k == b.len() - 1);
                assert(i == n - 1);
                assert(b[k].0 <= n - 2 < b[k].1);
                assert(d[n - 2] == ts[n - 2]);
                assert(d[b[k].0] == ts[b[k].0]);
                assert(slot(d[n - 2], resolution) == slot(d[b[k].0], resolution));
            }
        }
    }
}

#[verifier::spinoff_prover]
proof fn lemma_groups_differ(ts: Seq<u64>, resolution: u64)
    ensures
        forall|k: int|
            0 < k < groups(ts, resolution).len() ==> slot(
                ts[#[trigger] groups(ts, resolution)[k].0],
                resolution,
            ) != slot(ts[groups(ts, resolution)[k].0 - 1], resolution),
    decreases ts.len(),
{
    if ts.len() > 0 {
        let d = ts.drop_last();
        lemma_groups_differ(d, resolution);
        lemma_groups_cover(d, resolution);
        let b = groups(d, resolution);
        let g = groups(ts, resolution);
        let n = ts.len() as int;
        lemma_groups_shape(d, resolution);
        let joined = n >= 2 && slot(ts[n - 1], resolution) == slot(ts[n - 2], resolution);
        if joined {
            assert(g == b.update(b.len() - 1, (b.last().0, n)));
        } else {
            assert(g == b.push((n - 1, n)));
        }
        assert forall|k: int| 0 < k < g.len() implies slot(ts[#[trigger] g[k].0], resolution) != slot(
            ts[g[k].0 - 1],
            resolution,
        ) by {
            if k < b.len() {
                assert(g[k].0 == b[k].0);
                let s0 = b[k].0;
                assert(b[k - 1].1 == b[k].0);
                assert(0 <= b[k - 1].0 < b[k - 1].1);
                assert(b[k].0 < b[k].1 <= d.len());
                assert(0 < s0 < n);
                assert(d[s0] == ts[s0]);
                assert(d[s0 - 1] == ts[s0 - 1]);
            } else {
                assert(!joined);
                assert(g[k].0 == n - 1);
            }
        }
    }
}

/// The groups cover the positions in order, without gaps: each is a
/// non-empty run of samples in the same slot, and neighbouring groups lie
/// in different slots.
pub proof fn lemma_groups_partition(ts: Seq<u64>, resolution: u64)
    ensures
        ts.len() == 0 <==> groups(ts, resolution).len() == 0,
        ts.len() > 0 ==> groups(ts, resolution)[0].0 == 0 && groups(ts, resolution).last().1
            == ts.len(),
        forall|k: int|
            0 <= k < groups(ts, resolution).len() ==> #[trigger] groups(ts, resolution)[k].0
                < groups(ts, resolution)[k].1,
        forall|k: int, l: int|
            0 <= k && l == k + 1 && l < groups(ts, resolution).len() ==> #[trigger] groups(
                ts,
                resolution,
            )[k].1 == #[trigger] groups(ts, resolution)[l].0,
        forall|k: int, i: int|
            0 <= k < groups(ts, resolution).len() && groups(ts, resolution)[k].0 <= i
                < groups(ts, resolution)[k].1 ==> #[trigger] slot(ts[i], resolution) == slot(
                ts[#[trigger] groups(ts, resolution)[k].0],
                resolution,
            ),
        forall|k: int|
            0 < k < groups(ts, resolution).len() ==> slot(
                ts[#[trigger] groups(ts, resolution)[k].0],
                resolution,
            ) != slot(ts[groups(ts, resolution)[k].0 - 1], resolution),
{
    lemma_groups_shape(ts, resolution);
    lemma_groups_cover(ts, resolution);
    lemma_groups_share(ts, resolution);
    lemma_groups_differ(ts, resolution);
}

/// The samples of the window, as (second, position in the queue), in queue order.
fn queued_in_window<V>(queue: &VecDeque<Sample<V>>, start: u64, end: u64) -> (r: Vec<(u64, usize)>)
    ensures
        forall|y: int|
            0 <= y < r@.len() ==> (#[trigger] r@[y]).1 < queue@.len() && r@[y].0
                == queue@[r@[y].1 as int].timestamp && in_window(queue@[r@[y].1 as int], start, end),
        forall|y1: int, y2: int| 0 <= y1 < y2 < r@.len() ==> #[trigger] r@[y1].1 < #[trigger] r@[y2].1,
        forall|m: int|
            0 <= m < queue@.len() && in_window(#[trigger] queue@[m], start, end) ==> exists|y: int|
                0 <= y < r@.len() && r@[y].1 == m,
{
    let mut r: Vec<(u64, usize)> = Vec::new();
    let mut m: usize = 0;
    while m < queue.len()
        invariant
            m <= queue@.len(),
            forall|y: int|
                0 <= y < r@.len() ==> (#[trigger] r@[y]).1 < m && r@[y].0 == queue@[r@[y].1 as int].timestamp
                    && in_window(queue@[r@[y].1 as int], start, end),
            forall|y1: int, y2: int| 0 <= y1 < y2 < r@.len() ==> #[trigger] r@[y1].1 < #[trigger] r@[y2].1,
            forall|m2: int|
                0 <= m2 < m && in_window(#[trigger] queue@[m2], start, end) ==> exists|y: int|
                    0 <= y < r@.len() && r@[y].1 == m2,
        decreases queue@.len() - m,
    {
        let t = queue[m].timestamp;
        let ghost prev = r@;
        if start <= t && t <= end {
            r.push((t, m));
            assert(r@[r@.len() - 1].1 == m);
        }
        proof {
            assert forall|m2: int| 0 <= m2 < m + 1 && in_window(#[trigger] queue@[m2], start, end) implies exists|y: int|
                0 <= y < r@.len() && r@[y].1 == m2 by {
                if m2 < m {
                    let y = choose|y: int| 0 <= y < prev.len() && prev[y].1 == m2;
                    assert(r@[y] == prev[y]);
                } else {
                    assert(r@[r@.len() - 1].1 == m2);
                }
            }
        }
        m += 1;
    }
    r
}

/// Whether the seconds strictly increase.
pub open spec fn by_time(v: Seq<(u64, usize)>) -> bool {
    forall|i: int, j: int| 0 <= i < j < v.len() ==> #[trigger] v[i].0 < #[trigger] v[j].0
}

/// The entries in increasing order of their seconds, which are distinct.
fn sort_by_time(v: Vec<(u64, usize)>) -> (r: Vec<(u64, usize)>)
    requires
        forall|i: int, j: int| 0 <= i < j < v@.len() ==> #[trigger] v@[i].0 != #[trigger] v@[j].0,
    ensures
        by_time(r@),
        r@.to_set() == v@.to_set(),
        r@.len() == v@.len(),
{
    let mut r: Vec<(u64, usize)> = Vec::new();
    let mut i: usize = 0;
    while i < v.len()
        invariant
            i <= v@.len(),
            forall|a: int, b: int| 0 <= a < b < v@.len() ==> #[trigger] v@[a].0 != #[trigger] v@[b].0,
            by_time(r@),
            r@.to_set() == v@.take(i as int).to_set(),
            r@.len() == i,
        decreases v@.len() - i,
    {
        let e = v[i];
        let mut p: usize = 0;
        while p < r.len() && r[p].0 < e.0
            invariant
                p <= r@.len(),
                forall|a: int| 0 <= a < p ==> (#[trigger] r@[a]).0 < e.0,
            decreases r@.len() - p,
        {
            p += 1;
        }
        proof {
            assert forall|a: int| 0 <= a < r@.len() implies (#[trigger] r@[a]).0 != e.0 by {
                assert(r@.to_set().contains(r@[a]));
                assert(v@.take(i as int).to_set().contains(r@[a]));
                let b = choose|b: int| 0 <= b < i && v@.take(i as int)[b] == r@[a];
                assert(v@[b] == r@[a]);
            }
        }
        let ghost before = r@;
        r.insert(p, e);
        proof {
            assert(r@ =~= before.insert(p as int, e));
            assert forall|a: int, b: int| 0 <= a < b < r@.len() implies #[trigger] r@[a].0
                < #[trigger] r@[b].0 by {
                if b < p {
                } else if b == p {
                } else if a < p {
                    assert(r@[b] == before[b - 1]);
                    if b - 1 > p {
                        assert(before[p as int].0 < before[b - 1].0);
                    }
                    assert(before[p as int].0 >= e.0 && before[p as int].0 != e.0);
                } else if a == p {
                    assert(r@[b] == before[b - 1]);
                    if b - 1 > p {
                        assert(before[p as int].0 < before[b - 1].0);
                    }
                    assert(before[p as int].0 >= e.0 && before[p as int].0 != e.0);
                } else {
                    assert(r@[a] == before[a - 1]);
                    assert(r@[b] == before[b - 1]);
                }
            }
            assert(v@.take(i + 1) =~= v@.take(i as int).push(e));
            assert forall|x: (u64, usize)| #[trigger] r@.to_set().contains(x) == before.to_set().insert(e).contains(x) by {
                if r@.contains(x) {
                    let a = choose|a: int| 0 <= a < r@.len() && r@[a] == x;
                    if a < p {
                        assert(before[a] == x);
                    } else if a > p {
                        assert(before[a - 1] == x);
                    }
                }
                if before.contains(x) {
                    let a = choose|a: int| 0 <= a < before.len() && before[a] == x;
                    if a < p {
                        assert(r@[a] == x);
                    } else {
                        assert(r@[a + 1] == x);
                    }
                }
                if x == e {
                    assert(r@[p as int] == e);
                }
            }
            assert(r@.to_set() =~= before.to_set().insert(e));
            v@.take(i as int).lemma_push_to_set_commute(e);
        }
        i += 1;
    }
    assert(v@.take(v@.len() as int) =~= v@);
    r
}

impl<V> Store<V> {
    /// The samples of a view ending at `end` and starting at `start`, from
    /// the seconds `rows` of the stored rows in that window (in increasing
    /// order) and the queued samples in the window: each second once, in
    /// increasing order, a queued sample replacing the stored row of its
    /// second, so queued samples count once before and after they are written.
    pub fn merge(&self, rows: &Vec<u64>, start: u64, end: u64) -> (r: Vec<Source>)
        requires
            increasing(rows@),
        ensures
            merged(r@, rows@, self.queued(), start, end),
    {
        proof {
            use_type_invariant(self);
        }
        let ghost q = self.pending@;
        let found = queued_in_window(&self.pending, start, end);
        proof {
            assert forall|a: int, b: int| 0 <= a < b < found@.len() implies #[trigger] found@[a].0
                != #[trigger] found@[b].0 by {
                assert(found@[a].1 < found@[b].1);
            }
        }
        let pw = sort_by_time(found);
        let ghost fs = found@;
        proof {
            assert forall|y: int| 0 <= y < pw@.len() implies (#[trigger] pw@[y]).1 < q.len() && pw@[y].0
                == q[pw@[y].1 as int].timestamp && in_window(q[pw@[y].1 as int], start, end) by {
                assert(pw@.to_set().contains(pw@[y]));
                assert(fs.to_set().contains(pw@[y]));
                let z = choose|z: int| 0 <= z < fs.len() && fs[z] == pw@[y];
            }
            assert forall|m: int| 0 <= m < q.len() && in_window(#[trigger] q[m], start, end) implies exists|
                y: int,
            | 0 <= y < pw@.len() && pw@[y].1 == m by {
                let z = choose|z: int| 0 <= z < fs.len() && fs[z].1 == m;
                assert(fs.to_set().contains(fs[z]));
                assert(pw@.to_set().contains(fs[z]));
                let y = choose|y: int| 0 <= y < pw@.len() && pw@[y] == fs[z];
            }
        }
        let ghost rs = rows@;
        let mut out: Vec<Source> = Vec::new();
        let mut i: usize = 0;
        let mut j: usize = 0;
        while i < rows.len() || j < pw.len()
            invariant
                i <= rows@.len(),
                j <= pw@.len(),
                rs == rows@,
                q == self.pending@,
                increasing(rs),
                by_time(pw@),
                forall|y: int|
                    0 <= y < pw@.len() ==> (#[trigger] pw@[y]).1 < q.len() && pw@[y].0 == q[pw@[y].1 as int].timestamp
                        && in_window(q[pw@[y].1 as int], start, end),
                forall|k: int| 0 <= k < out@.len() ==> valid_source(#[trigger] out@[k], rs, q, start, end),
                forall|k1: int, k2: int|
                    0 <= k1 < k2 < out@.len() ==> source_time(#[trigger] out@[k1], rs, q) < source_time(
                        #[trigger] out@[k2],
                        rs,
                        q,
                    ),
                forall|k: int, x: int|
                    0 <= k < out@.len() && i <= x < rs.len() ==> source_time(#[trigger] out@[k], rs, q)
                        < #[trigger] rs[x],
                forall|k: int, y: int|
                    0 <= k < out@.len() && j <= y < pw@.len() ==> source_time(#[trigger] out@[k], rs, q)
                        < (#[trigger] pw@[y]).0,
                forall|x: int, y: int| 0 <= x < i && j <= y < pw@.len() ==> #[trigger] rs[x] < (#[trigger] pw@[y]).0,
                forall|y: int, x: int| 0 <= y < j && i <= x < rs.len() ==> (#[trigger] pw@[y]).0 < #[trigger] rs[x],
                forall|x: int|
                    #![trigger rs[x]]
                    0 <= x < i ==> exists|k: int|
                        0 <= k < out@.len() && source_time(#[trigger] out@[k], rs, q) == rs[x],
                forall|y: int|
                    0 <= y < j ==> exists|k: int|
                        0 <= k < out@.len() && out@[k] == Source::Queued((#[trigger] pw@[y]).1),
                forall|k: int, y: int|
                    0 <= k < out@.len() && 0 <= y < pw@.len() && (#[trigger] out@[k]) is Stored
                        ==> (#[trigger] pw@[y]).0 != rs[out@[k]->Stored_0 as int],
            decreases rows@.len() + pw@.len() - i - j,
        {
            let ghost prev = out@;
            if j < pw.len() && (i == rows.len() || pw[j].0 <= rows[i]) {
                let same = i < rows.len() && pw[j].0 == rows[i];
                out.push(Source::Queued(pw[j].1));
                let ghost t = pw@[j as int].0;
                proof {
                    assert(source_time(out@[out@.len() - 1], rs, q) == t);
                    assert forall|k: int| 0 <= k < out@.len() implies valid_source(#[trigger] out@[k], rs, q, start, end) by {
                        if k < prev.len() {
                            assert(out@[k] == prev[k]);
                        }
                    }
                    assert forall|k1: int, k2: int| 0 <= k1 < k2 < out@.len() implies source_time(#[trigger] out@[k1], rs, q)
                        < source_time(#[trigger] out@[k2], rs, q) by {
                        assert(out@[k1] == prev[k1]);
                        if k2 < prev.len() {
                            assert(out@[k2] == prev[k2]);
                        }
                    }
                }
                if same {
                    i += 1;
                }
                j += 1;
                proof {
                    assert forall|k: int, x: int| 0 <= k < out@.len() && i <= x < rs.len() implies source_time(
                        #[trigger] out@[k],
                        rs,
                        q,
                    ) < #[trigger] rs[x] by {
                        if k < prev.len() {
                            assert(out@[k] == prev[k]);
                        } else {
                            if same {
                                assert(rs[i - 1] < rs[x]);
                            } else {
                                assert(rs[i as int] <= rs[x]);
                            }
                        }
                    }
                    assert forall|k: int, y: int| 0 <= k < out@.len() && j <= y < pw@.len() implies source_time(
                        #[trigger] out@[k],
                        rs,
                        q,
                    ) < (#[trigger] pw@[y]).0 by {
                        if k < prev.len() {
                            assert(out@[k] == prev[k]);
                        } else {
                            assert(pw@[j - 1].0 < pw@[y].0);
                        }
                    }
                    assert forall|x: int, y: int| 0 <= x < i && j <= y < pw@.len() implies #[trigger] rs[x]
                        < (#[trigger] pw@[y]).0 by {
                        assert(pw@[j - 1].0 < pw@[y].0);
                    }
                    assert forall|y: int, x: int| 0 <= y < j && i <= x < rs.len() implies (#[trigger] pw@[y]).0
                        < #[trigger] rs[x] by {
                        if y == j - 1 {
                            if same {
                                assert(rs[i - 1] < rs[x]);
                            } else {
                                assert(rs[i as int] <= rs[x]);
                            }
                        }
                    }
                    assert forall|x: int| #![trigger rs[x]] 0 <= x < i implies exists|k: int|
                        0 <= k < out@.len() && source_time(#[trigger] out@[k], rs, q) == rs[x] by {
                        if same && x == i - 1 {
                            assert(source_time(out@[out@.len() - 1], rs, q) == rs[x]);
                        } else {
                            let k = choose|k: int| 0 <= k < prev.len() && source_time(#[trigger] prev[k], rs, q) == rs[x];
                            assert(out@[k] == prev[k]);
                        }
                    }
                    assert forall|y: int| 0 <= y < j implies exists|k: int|
                        0 <= k < out@.len() && out@[k] == Source::Queued((#[trigger] pw@[y]).1) by {
                        if y == j - 1 {
                            assert(out@[out@.len() - 1] == Source::Queued(pw@[y].1));
                        } else {
                            let k = choose|k: int| 0 <= k < prev.len() && prev[k] == Source::Queued(pw@[y].1);
                            assert(out@[k] == prev[k]);
                        }
                    }
                    assert forall|k: int, y: int| 0 <= k < out@.len() && 0 <= y < pw@.len() && (#[trigger] out@[k]) is Stored
                        implies (#[trigger] pw@[y]).0 != rs[out@[k]->Stored_0 as int] by {
                        assert(out@[k] == prev[k]);
                    }
                }
            } else {
                out.push(Source::Stored(i));
                proof {
                    assert forall|k: int| 0 <= k < out@.len() implies valid_source(#[trigger] out@[k], rs, q, start, end) by {
                        if k < prev.len() {
                            assert(out@[k] == prev[k]);
                        }
                    }
                    assert forall|k1: int, k2: int| 0 <= k1 < k2 < out@.len() implies source_time(#[trigger] out@[k1], rs, q)
                        < source_time(#[trigger] out@[k2], rs, q) by {
                        assert(out@[k1] == prev[k1]);
                        if k2 < prev.len() {
                            assert(out@[k2] == prev[k2]);
                        }
                    }
                    assert forall|k: int, y: int| 0 <= k < out@.len() && 0 <= y < pw@.len() && (#[trigger] out@[k]) is Stored
                        implies (#[trigger] pw@[y]).0 != rs[out@[k]->Stored_0 as int] by {
                        if k < prev.len() {
                            assert(out@[k] == prev[k]);
                        } else {
                            if y >= j {
                                assert(pw@[j as int].0 <= pw@[y].0);
                            }
                        }
                    }
                }
                i += 1;
                proof {
                    assert forall|k: int, x: int| 0 <= k < out@.len() && i <= x < rs.len() implies source_time(
                        #[trigger] out@[k],
                        rs,
                        q,
                    ) < #[trigger] rs[x] by {
                        if k < prev.len() {
                            assert(out@[k] == prev[k]);
                        }
                    }
                    assert forall|k: int, y: int| 0 <= k < out@.len() && j <= y < pw@.len() implies source_time(
                        #[trigger] out@[k],
                        rs,
                        q,
                    ) < (#[trigger] pw@[y]).0 by {
                        if k < prev.len() {
                            assert(out@[k] == prev[k]);
                        } else {
                            assert(pw@[j as int].0 <= pw@[y].0);
                        }
                    }
                    assert forall|x: int, y: int| 0 <= x < i && j <= y < pw@.len() implies #[trigger] rs[x]
                        < (#[trigger] pw@[y]).0 by {
                        if x == i - 1 {
                            assert(pw@[j as int].0 <= pw@[y].0);
                        }
                    }
                    assert forall|x: int| #![trigger rs[x]] 0 <= x < i implies exists|k: int|
                        0 <= k < out@.len() && source_time(#[trigger] out@[k], rs, q) == rs[x] by {
                        if x == i - 1 {
                            assert(source_time(out@[out@.len() - 1], rs, q) == rs[x]);
                        } else {
                            let k = choose|k: int| 0 <= k < prev.len() && source_time(#[trigger] prev[k], rs, q) == rs[x];
                            assert(out@[k] == prev[k]);
                        }
                    }
                    assert forall|y: int| 0 <= y < j implies exists|k: int|
                        0 <= k < out@.len() && out@[k] == Source::Queued((#[trigger] pw@[y]).1) by {
                        let k = choose|k: int| 0 <= k < prev.len() && prev[k] == Source::Queued(pw@[y].1);
                        assert(out@[k] == prev[k]);
                    }
                }
            }
        }
        proof {
            assert forall|m: int| 0 <= m < q.len() && in_window(#[trigger] q[m], start, end) implies exists|k: int|
                0 <= k < out@.len() && out@[k] == Source::Queued(m as usize) by {
                let y = choose|y: int| 0 <= y < pw@.len() && pw@[y].1 == m;
                let k = choose|k: int| 0 <= k < out@.len() && out@[k] == Source::Queued(pw@[y].1);
            }
            assert forall|k: int, m: int|
                0 <= k < out@.len() && 0 <= m < q.len() && (#[trigger] out@[k]) is Stored && in_window(
                    #[trigger] q[m],
                    start,
                    end,
                ) implies q[m].timestamp != rs[out@[k]->Stored_0 as int] by {
                let y = choose|y: int| 0 <= y < pw@.len() && pw@[y].1 == m;
                assert(pw@[y].0 != rs[out@[k]->Stored_0 as int]);
            }
            assert(q == self.queued());
            assert forall|x: int| 0 <= x < rows@.len() implies #[trigger] has_time(out@, rows@, q, rows@[x] as int) by {
                assert(rs[x] == rows@[x]);
                let k = choose|k: int| 0 <= k < out@.len() && source_time(#[trigger] out@[k], rs, q) == rs[x];
                assert(source_time(out@[k], rows@, q) == rows@[x]);
            }
            assert forall|m: int| 0 <= m < q.len() && in_window(q[m], start, end) implies #[trigger] has_queued(out@, m) by {
                assert(in_window(q[m], start, end));
                let y = choose|y: int| 0 <= y < pw@.len() && pw@[y].1 == m;
                let k = choose|k: int| 0 <= k < out@.len() && out@[k] == Source::Queued(pw@[y].1);
            }
            assert(merged(out@, rows@, q, start, end));
        }
        out
    }
}

/// The groups of consecutive samples, at the given seconds, that share a
/// point of `resolution` seconds, as half-open ranges of positions.
pub fn group(timestamps: &Vec<u64>, resolution: u64) -> (r: Vec<(usize, usize)>)
    requires
        resolution > 0,
    ensures
        r@.map_values(|b: (usize, usize)| (b.0 as int, b.1 as int)) == groups(timestamps@, resolution),
{
    let mut r: Vec<(usize, usize)> = Vec::new();
    let mut i: usize = 0;
    while i < timestamps.len()
        invariant
            i <= timestamps@.len(),
            resolution > 0,
            r@.map_values(|b: (usize, usize)| (b.0 as int, b.1 as int)) == groups(
                timestamps@.take(i as int),
                resolution,
            ),
        decreases timestamps@.len() - i,
    {
        let ghost t = timestamps@.take(i + 1);
        assert(t.drop_last() =~= timestamps@.take(i as int));
        proof {
            lemma_groups_shape(timestamps@.take(i as int), resolution);
        }
        let ghost before = r@;
        proof {
            reveal(slot);
        }
        if i >= 1 && timestamps[i] / resolution == timestamps[i - 1] / resolution {
            assert(t[i as int] == timestamps@[i as int] && t[i - 1] == timestamps@[i - 1]);
            let last = r.pop().unwrap();
            r.push((last.0, i + 1));
            assert(r@.map_values(|b: (usize, usize)| (b.0 as int, b.1 as int)) =~= groups(t, resolution));
        } else {
            r.push((i, i + 1));
            assert(r@.map_values(|b: (usize, usize)| (b.0 as int, b.1 as int)) =~= groups(t, resolution));
        }
        i += 1;
    }
    assert(timestamps@.take(timestamps@.len() as int) =~= timestamps@);
    r
}

/// The JSON of one history point: its second, and its CPU usage and receive
/// and transmit rates as rendered by the caller, `null` where unavailable.
pub open spec fn point_document(
    timestamp: u64,
    cpu: Option<Seq<char>>,
    rx: Option<Seq<char>>,
    tx: Option<Seq<char>>,
) -> Seq<char> {
    object_text(
        seq![
            ("timestamp"@, decimal(timestamp as nat)),
            ("cpu"@, text_or_null(cpu)),
            ("rx"@, text_or_null(rx)),
            ("tx"@, text_or_null(tx)),
        ],
    )
}

/// The JSON of one history point, from its second and its rendered values.
pub fn point_json(timestamp: u64, cpu: Option<&str>, rx: Option<&str>, tx: Option<&str>) -> (s: String)
    ensures
        s@ == point_document(timestamp, text_view(cpu), text_view(rx), text_view(tx)),
{
    let fields = [
        ("timestamp", number(Some(timestamp))),
        ("cpu", or_null(cpu)),
        ("rx", or_null(rx)),
        ("tx", or_null(tx)),
    ];
    let s = object(&fields);
    assert(fields@.map_values(|f: (&str, String)| (f.0@, f.1@)) =~= seq![
        ("timestamp"@, decimal(timestamp as nat)),
        ("cpu"@, text_or_null(text_view(cpu))),
        ("rx"@, text_or_null(text_view(rx))),
        ("tx"@, text_or_null(text_view(tx))),
    ]);
    s
}

/// The JSON summary of one reading over a view: its average and peak as
/// rendered by the caller (`null` without samples), and the sample count.
pub open spec fn summary_document(average: Option<Seq<char>>, peak: Option<Seq<char>>, samples: u64) -> Seq<char> {
    object_text(
        seq![
            ("average"@, text_or_null(average)),
            ("peak"@, text_or_null(peak)),
            ("samples"@, decimal(samples as nat)),
        ],
    )
}

/// The JSON summary of one reading over a view.
pub fn summary_json(average: Option<&str>, peak: Option<&str>, samples: u64) -> (s: String)
    ensures
        s@ == summary_document(text_view(average), text_view(peak), samples),
{
    let fields = [
        ("average", or_null(average)),
        ("peak", or_null(peak)),
        ("samples", number(Some(samples))),
    ];
    let s = object(&fields);
    assert(fields@.map_values(|f: (&str, String)| (f.0@, f.1@)) =~= seq![
        ("average"@, text_or_null(text_view(average))),
        ("peak"@, text_or_null(text_view(peak))),
        ("samples"@, decimal(samples as nat)),
    ]);
    s
}

/// The JSON of a view: its rendered points in order, the width in seconds
/// of a point, and the rendered summaries of CPU usage and of the receive
/// and transmit rates.
pub open spec fn view_document(
    points: Seq<Seq<char>>,
    resolution: u64,
    cpu: Seq<char>,
    rx: Seq<char>,
    tx: Seq<char>,
) -> Seq<char> {
    object_text(
        seq![
            ("points"@, list_text(points)),
            ("resolution_seconds"@, decimal(resolution as nat)),
            ("summary"@, object_text(seq![("cpu"@, cpu), ("rx"@, rx), ("tx"@, tx)])),
        ],
    )
}

/// The JSON of a view, from its rendered points and summaries.
pub fn view_json(points: &Vec<String>, resolution: u64, cpu: &str, rx: &str, tx: &str) -> (s: String)
    ensures
        s@ == view_document(texts(points@), resolution, cpu@, rx@, tx@),
{
    let summary_fields = [("cpu", cpu.to_owned()), ("rx", rx.to_owned()), ("tx", tx.to_owned())];
    let summary = object(&summary_fields);
    assert(summary_fields@.map_values(|f: (&str, String)| (f.0@, f.1@)) =~= seq![
        ("cpu"@, cpu@),
        ("rx"@, rx@),
        ("tx"@, tx@),
    ]);
    let fields = [
        ("points", list(points)),
        ("resolution_seconds", number(Some(resolution))),
        ("summary", summary),
    ];
    let s = object(&fields);
    assert(fields@.map_values(|f: (&str, String)| (f.0@, f.1@)) =~= seq![
        ("points"@, list_text(texts(points@))),
        ("resolution_seconds"@, decimal(resolution as nat)),
        ("summary"@, object_text(seq![("cpu"@, cpu@), ("rx"@, rx@), ("tx"@, tx@)])),
    ]);
    s
}

/// The second each point carries: that of the last sample of its group.
pub open spec fn point_second(ts: Seq<u64>, g: (int, int)) -> u64 {
    ts[g.1 - 1]
}

/// The seconds of the points that the groups of `timestamps` form: each
/// point carries the second of the last sample of its group, which for
/// samples in increasing order is the largest second of the group.
pub fn point_seconds(timestamps: &Vec<u64>, resolution: u64) -> (r: Vec<u64>)
    requires
        resolution > 0,
    ensures
        r@.len() == groups(timestamps@, resolution).len(),
        forall|k: int|
            0 <= k < r@.len() ==> r@[k] == point_second(
                timestamps@,
                #[trigger] groups(timestamps@, resolution)[k],
            ),
        increasing(timestamps@) ==> forall|k: int, i: int|
            0 <= k < r@.len() && groups(timestamps@, resolution)[k].0 <= i < groups(
                timestamps@,
                resolution,
            )[k].1 ==> #[trigger] timestamps@[i] <= #[trigger] r@[k],
{
    let g = group(timestamps, resolution);
    let ghost gs = groups(timestamps@, resolution);
    proof {
        lemma_groups_cover(timestamps@, resolution);
    }
    let mut r: Vec<u64> = Vec::new();
    let mut k: usize = 0;
    while k < g.len()
        invariant
            k <= g@.len(),
            g@.map_values(|b: (usize, usize)| (b.0 as int, b.1 as int)) == gs,
            gs == groups(timestamps@, resolution),
            forall|j: int| 0 <= j < gs.len() ==> 0 <= #[trigger] gs[j].0 < gs[j].1 <= timestamps@.len(),
            r@.len() == k,
            forall|j: int| 0 <= j < k ==> r@[j] == point_second(timestamps@, #[trigger] gs[j]),
        decreases g@.len() - k,
    {
        assert(gs[k as int] == (g@[k as int].0 as int, g@[k as int].1 as int));
        r.push(timestamps[g[k].1 - 1]);
        k += 1;
    }
    proof {
        if increasing(timestamps@) {
            assert forall|j: int, i: int|
                0 <= j < r@.len() && gs[j].0 <= i < gs[j].1 implies #[trigger] timestamps@[i]
                <= #[trigger] r@[j] by {
                let last = gs[j].1 - 1;
                if i < last {
                    assert(timestamps@[i] < timestamps@[last]);
                }
            }
        }
    }
    r
}


// ---------------------------------------------------------------------------
// Laws
// ---------------------------------------------------------------------------

/// The seconds of the sources, in order.
pub open spec fn times<V>(r: Seq<Source>, rows: Seq<u64>, queue: Seq<Sample<V>>) -> Seq<int> {
    r.map_values(|s: Source| source_time(s, rows, queue))
}

/// A view depends only on which seconds it covers: two merges that cover the
/// same seconds list the same seconds in the same order. So a queued sample
/// is shown once, at its place, before it is written and after it is
/// written, when the stored rows then hold its second and the queue is empty.
pub proof fn lemma_merge_determined<V>(
    r1: Seq<Source>,
    rows1: Seq<u64>,
    q1: Seq<Sample<V>>,
    r2: Seq<Source>,
    rows2: Seq<u64>,
    q2: Seq<Sample<V>>,
    start: u64,
    end: u64,
)
    requires
        merged(r1, rows1, q1, start, end),
        merged(r2, rows2, q2, start, end),
        forall|t: int| has_time(r1, rows1, q1, t) == has_time(r2, rows2, q2, t),
    ensures
        times(r1, rows1, q1) == times(r2, rows2, q2),
{
    let a = times(r1, rows1, q1);
    let b = times(r2, rows2, q2);
    assert forall|i: int, j: int| 0 <= i < j < a.len() implies #[trigger] a[i] < #[trigger] a[j] by {
        assert(source_time(r1[i], rows1, q1) < source_time(r1[j], rows1, q1));
    }
    assert forall|i: int, j: int| 0 <= i < j < b.len() implies #[trigger] b[i] < #[trigger] b[j] by {
        assert(source_time(r2[i], rows2, q2) < source_time(r2[j], rows2, q2));
    }
    assert forall|t: int| a.contains(t) == b.contains(t) by {
        if a.contains(t) {
            let k = choose|k: int| 0 <= k < a.len() && a[k] == t;
            assert(has_time(r1, rows1, q1, t));
            let k2 = choose|k2: int| 0 <= k2 < r2.len() && source_time(r2[k2], rows2, q2) == t;
            assert(b[k2] == t);
        }
        if b.contains(t) {
            let k = choose|k: int| 0 <= k < b.len() && b[k] == t;
            assert(has_time(r2, rows2, q2, t));
            let k1 = choose|k1: int| 0 <= k1 < r1.len() && source_time(r1[k1], rows1, q1) == t;
            assert(a[k1] == t);
        }
    }
    lemma_increasing_same_elements(a, b);
}

/// Two strictly increasing sequences with the same elements are equal.
pub proof fn lemma_increasing_same_elements(a: Seq<int>, b: Seq<int>)
    requires
        forall|i: int, j: int| 0 <= i < j < a.len() ==> #[trigger] a[i] < #[trigger] a[j],
        forall|i: int, j: int| 0 <= i < j < b.len() ==> #[trigger] b[i] < #[trigger] b[j],
        forall|t: int| a.contains(t) == b.contains(t),
    ensures
        a == b,
    decreases a.len() + b.len(),
{
    if a.len() == 0 {
        if b.len() > 0 {
            assert(b.contains(b[0]));
        }
        assert(a =~= b);
    } else if b.len() == 0 {
        assert(a.contains(a[0]));
    } else {
        let x = a.last();
        let y = b.last();
        assert(a.contains(x));
        assert(b.contains(y));
        let iy = choose|i: int| 0 <= i < a.len() && a[i] == y;
        let ix = choose|i: int| 0 <= i < b.len() && b[i] == x;
        if iy < a.len() - 1 {
            assert(a[iy] < x);
        }
        if ix < b.len() - 1 {
            assert(b[ix] < y);
        }
        assert(x == y);
        let da = a.drop_last();
        let db = b.drop_last();
        assert forall|t: int| da.contains(t) == db.contains(t) by {
            if da.contains(t) {
                let i = choose|i: int| 0 <= i < da.len() && da[i] == t;
                assert(a[i] < x);
                assert(a.contains(t));
                let j = choose|j: int| 0 <= j < b.len() && b[j] == t;
                assert(j != b.len() - 1);
                assert(db[j] == t);
            }
            if db.contains(t) {
                let i = choose|i: int| 0 <= i < db.len() && db[i] == t;
                assert(b[i] < y);
                assert(b.contains(t));
                let j = choose|j: int| 0 <= j < a.len() && a[j] == t;
                assert(j != a.len() - 1);
                assert(da[j] == t);
            }
        }
        lemma_increasing_same_elements(da, db);
        assert(a =~= da.push(x));
        assert(b =~= db.push(y));
    }
}

/// Recording keeps the queue bounded: whatever was queued and whatever is
/// recorded, the queue keeps at most `PENDING_LIMIT` samples, ends with the
/// new sample, and holds no other of its second.
pub proof fn lemma_recorded_bounded<V>(s: Seq<Sample<V>>, p: Sample<V>)
    requires
        s.len() <= PENDING_LIMIT,
    ensures
        recorded(s, p).len() <= PENDING_LIMIT,
        recorded(s, p).last() == p,
        forall|i: int| 0 <= i < recorded(s, p).len() - 1 ==> #[trigger] recorded(s, p)[i].timestamp != p.timestamp,
{
    lemma_without(s, p.timestamp);
    let w = without(s, p.timestamp);
    assert forall|i: int| 0 <= i < recorded(s, p).len() - 1 implies #[trigger] recorded(s, p)[i].timestamp
        != p.timestamp by {
        if w.len() == PENDING_LIMIT {
            assert(recorded(s, p)[i] == w[i + 1]);
        } else {
            assert(recorded(s, p)[i] == w[i]);
        }
    }
}


/// What is recorded is read back: after recording `p`, every view whose
/// window holds its second shows the newest queued sample, which is `p`.
pub proof fn lemma_recorded_visible<V>(
    s: Seq<Sample<V>>,
    p: Sample<V>,
    r: Seq<Source>,
    rows: Seq<u64>,
    start: u64,
    end: u64,
)
    requires
        s.len() <= PENDING_LIMIT,
        merged(r, rows, recorded(s, p), start, end),
        in_window(p, start, end),
    ensures
        recorded(s, p).len() > 0,
        recorded(s, p).last() == p,
        has_queued(r, recorded(s, p).len() - 1),
{
    lemma_recorded_bounded(s, p);
    let q = recorded(s, p);
    assert(q[q.len() - 1] == p);
    assert(in_window(q[q.len() - 1], start, end));
}

/// The seconds of stored rows.
pub open spec fn secs<V>(stored: Seq<(u64, V)>) -> Seq<u64> {
    stored.map_values(|e: (u64, V)| e.0)
}

/// The second and values of each source of a view, in order.
pub open spec fn values_of<V>(r: Seq<Source>, stored: Seq<(u64, V)>, queue: Seq<Sample<V>>) -> Seq<(int, V)> {
    r.map_values(
        |src: Source|
            match src {
                Source::Stored(i) => (stored[i as int].0 as int, stored[i as int].1),
                Source::Queued(j) => (queue[j as int].timestamp as int, queue[j as int].values),
            },
    )
}

/// Whether a queued sample in the window is at second `t`.
pub open spec fn queued_at<V>(queue: Seq<Sample<V>>, start: u64, end: u64, t: u64) -> bool {
    exists|m: int| 0 <= m < queue.len() && in_window(queue[m], start, end) && #[trigger] queue[m].timestamp == t
}

/// Whether the rows `after` are what writing the queued samples into the
/// rows `before` leaves in the window: each queued sample of the window, and
/// each row of `before` whose second no such sample has, and nothing else.
pub open spec fn written<V>(before: Seq<(u64, V)>, queue: Seq<Sample<V>>, after: Seq<(u64, V)>, start: u64, end: u64) -> bool {
    &&& forall|m: int|
        0 <= m < queue.len() && in_window(#[trigger] queue[m], start, end) ==> exists|i: int|
            0 <= i < after.len() && after[i] == (queue[m].timestamp, queue[m].values)
    &&& forall|x: int|
        0 <= x < before.len() && !queued_at(queue, start, end, #[trigger] before[x].0) ==> exists|i: int|
            0 <= i < after.len() && after[i] == before[x]
    &&& forall|i: int|
        0 <= i < after.len() ==> (exists|m: int|
            0 <= m < queue.len() && in_window(queue[m], start, end) && #[trigger] after[i] == (
                queue[m].timestamp,
                queue[m].values,
            )) || (exists|x: int|
            0 <= x < before.len() && after[i] == #[trigger] before[x] && !queued_at(
                queue,
                start,
                end,
                before[x].0,
            ))
}

proof fn lemma_has_time_iff<V>(r: Seq<Source>, rows: Seq<u64>, q: Seq<Sample<V>>, start: u64, end: u64, t: int)
    requires
        merged(r, rows, q, start, end),
        q.len() <= usize::MAX,
    ensures
        has_time(r, rows, q, t) <==> (exists|x: int| 0 <= x < rows.len() && rows[x] == t) || (exists|
            m: int,
        | 0 <= m < q.len() && in_window(q[m], start, end) && q[m].timestamp == t),
{
    if has_time(r, rows, q, t) {
        let k = choose|k: int| 0 <= k < r.len() && source_time(r[k], rows, q) == t;
        assert(valid_source(r[k], rows, q, start, end));
        match r[k] {
            Source::Stored(i) => {
                assert(rows[i as int] == t);
            },
            Source::Queued(j) => {
                assert(q[j as int].timestamp == t);
            },
        }
    }
    if exists|x: int| 0 <= x < rows.len() && rows[x] == t {
        let x = choose|x: int| 0 <= x < rows.len() && rows[x] == t;
        assert(has_time(r, rows, q, rows[x] as int));
    }
    if exists|m: int| 0 <= m < q.len() && in_window(q[m], start, end) && q[m].timestamp == t {
        let m = choose|m: int| 0 <= m < q.len() && in_window(q[m], start, end) && q[m].timestamp == t;
        assert(has_queued(r, m));
        let k = choose|k: int| 0 <= k < r.len() && r[k] == Source::Queued(m as usize);
        assert(source_time(r[k], rows, q) == t);
    }
}

/// Writing the queue changes no view: a view taken before the queued
/// samples are written and one taken after, when the stored rows then hold
/// what the write leaves and the queue is empty, list the same seconds with
/// the same values, in the same order. So every sample counts once, with its
/// values, before and after it is written.
pub proof fn lemma_write_keeps_view<V>(
    r1: Seq<Source>,
    s1: Seq<(u64, V)>,
    q: Seq<Sample<V>>,
    r2: Seq<Source>,
    s2: Seq<(u64, V)>,
    start: u64,
    end: u64,
)
    requires
        increasing(secs(s1)),
        increasing(secs(s2)),
        distinct_times(q),
        q.len() <= usize::MAX,
        merged(r1, secs(s1), q, start, end),
        merged(r2, secs(s2), Seq::<Sample<V>>::empty(), start, end),
        written(s1, q, s2, start, end),
    ensures
        values_of(r1, s1, q) == values_of(r2, s2, Seq::<Sample<V>>::empty()),
{
    let e = Seq::<Sample<V>>::empty();
    let rows1 = secs(s1);
    let rows2 = secs(s2);
    assert forall|t: int| has_time(r1, rows1, q, t) == has_time(r2, rows2, e, t) by {
        lemma_has_time_iff(r1, rows1, q, start, end, t);
        lemma_has_time_iff(r2, rows2, e, start, end, t);
        if has_time(r1, rows1, q, t) {
            if exists|x: int| 0 <= x < rows1.len() && rows1[x] == t {
                let x = choose|x: int| 0 <= x < rows1.len() && rows1[x] == t;
                if queued_at(q, start, end, s1[x].0) {
                    let m = choose|m: int|
                        0 <= m < q.len() && in_window(q[m], start, end) && #[trigger] q[m].timestamp
                            == s1[x].0;
                    let i = choose|i: int| 0 <= i < s2.len() && s2[i] == (q[m].timestamp, q[m].values);
                    assert(rows2[i] == t);
                } else {
                    let i = choose|i: int| 0 <= i < s2.len() && s2[i] == s1[x];
                    assert(rows2[i] == t);
                }
            } else {
                let m = choose|m: int| 0 <= m < q.len() && in_window(q[m], start, end) && q[m].timestamp == t;
                let i = choose|i: int| 0 <= i < s2.len() && s2[i] == (q[m].timestamp, q[m].values);
                assert(rows2[i] == t);
            }
        }
        if has_time(r2, rows2, e, t) {
            let i = choose|i: int| 0 <= i < rows2.len() && rows2[i] == t;
            assert(s2[i].0 == t);
            if exists|m: int|
                0 <= m < q.len() && in_window(q[m], start, end) && #[trigger] s2[i] == (
                    q[m].timestamp,
                    q[m].values,
                ) {
                let m = choose|m: int|
                    0 <= m < q.len() && in_window(q[m], start, end) && #[trigger] s2[i] == (
                        q[m].timestamp,
                        q[m].values,
                    );
                assert(q[m].timestamp == t);
            } else {
                let x = choose|x: int|
                    0 <= x < s1.len() && s2[i] == #[trigger] s1[x] && !queued_at(q, start, end, s1[x].0);
                assert(rows1[x] == t);
            }
        }
    }
    lemma_merge_determined(r1, rows1, q, r2, rows2, e, start, end);
    let a = values_of(r1, s1, q);
    let b = values_of(r2, s2, e);
    assert(times(r1, rows1, q) == times(r2, rows2, e));
    assert forall|k: int| 0 <= k < a.len() implies a[k] == b[k] by {
        assert(times(r1, rows1, q)[k] == times(r2, rows2, e)[k]);
        let t = source_time(r1[k], rows1, q);
        assert(valid_source(r1[k], rows1, q, start, end));
        assert(valid_source(r2[k], rows2, e, start, end));
        let i2 = r2[k]->Stored_0 as int;
        assert(rows2[i2] == t);
        if exists|m: int|
            0 <= m < q.len() && in_window(q[m], start, end) && #[trigger] s2[i2] == (
                q[m].timestamp,
                q[m].values,
            ) {
            let m = choose|m: int|
                0 <= m < q.len() && in_window(q[m], start, end) && #[trigger] s2[i2] == (
                    q[m].timestamp,
                    q[m].values,
                );
            match r1[k] {
                Source::Queued(j) => {
                    let j = j as int;
                    if m != j {
                        if m < j {
                            assert(q[m].timestamp != q[j].timestamp);
                        } else {
                            assert(q[j].timestamp != q[m].timestamp);
                        }
                    }
                },
                Source::Stored(i1) => {
                    assert(!(r1[k] is Stored && in_window(q[m], start, end) && q[m].timestamp
                        == rows1[r1[k]->Stored_0 as int]));
                },
            }
        } else {
            let x = choose|x: int|
                0 <= x < s1.len() && s2[i2] == #[trigger] s1[x] && !queued_at(q, start, end, s1[x].0);
            assert(rows1[x] == t);
            match r1[k] {
                Source::Queued(j) => {
                    assert(queued_at(q, start, end, s1[x].0));
                },
                Source::Stored(i1) => {
                    let i1 = i1 as int;
                    if x != i1 {
                        if x < i1 {
                            assert(rows1[x] < rows1[i1]);
                        } else {
                            assert(rows1[i1] < rows1[x]);
                        }
                    }
                },
            }
        }
    }
    assert(a =~= b);
}

/// Every view a query offers is one of five: 15 minutes or an hour at five
/// seconds, a day at a minute, a week at ten minutes, 30 days at half an
/// hour.
pub proof fn lemma_views_offered(query: Seq<char>)
    ensures
        range_from(query) matches Some(r) ==> (r.minutes == 15 && r.resolution == 5) || (r.minutes
            == 60 && r.resolution == 5) || (r.minutes == 1440 && r.resolution == 60) || (r.minutes
            == 10080 && r.resolution == 600) || (r.minutes == 43200 && r.resolution == 1800),
{
}

/// Asking for `minutes=<m>` in decimal gives the view of `m` minutes when it
/// is offered, at its resolution, and nothing otherwise; the empty query is
/// the hour view, the same as asking for it.
pub proof fn lemma_view_of_minutes(m: u64)
    ensures
        range_from("minutes="@ + decimal(m as nat)) == if m == 15 || m == 60 {
            Some(Range { minutes: m, resolution: 5 })
        } else if m == 1440 {
            Some(Range { minutes: m, resolution: 60 })
        } else if m == 10080 {
            Some(Range { minutes: m, resolution: 600 })
        } else if m == 43200 {
            Some(Range { minutes: m, resolution: 1800 })
        } else {
            None
        },
        range_from(""@) == range_from("minutes="@ + decimal(60)),
        range_from(""@) == Some(Range { minutes: 60, resolution: 5 }),
{
    reveal_strlit("minutes=");
    assert forall|k: u64| #[trigger] range_from("minutes="@ + decimal(k as nat)) == if k == 15 || k == 60 {
        Some(Range { minutes: k, resolution: 5 })
    } else if k == 1440 {
        Some(Range { minutes: k, resolution: 60 })
    } else if k == 10080 {
        Some(Range { minutes: k, resolution: 600 })
    } else if k == 43200 {
        Some(Range { minutes: k, resolution: 1800 })
    } else {
        None
    } by {
        let q = "minutes="@ + decimal(k as nat);
        lemma_decimal_parses_back(k as nat, u64::MAX as nat);
        assert(q.take("minutes="@.len() as int) =~= "minutes="@);
        assert(q.skip("minutes="@.len() as int) =~= decimal(k as nat));
        assert(q.len() > 0);
    }
    assert(""@.len() == 0) by {
        reveal_strlit("");
    }
}

/// A view's document holds, in order, its points as an array, the width of
/// a point in seconds, and a summary whose `cpu`, `rx` and `tx` members are
/// exactly the CPU, receive and transmit summaries given, in that order.
pub proof fn lemma_view_members(
    points: Seq<Seq<char>>,
    resolution: u64,
    cpu: Seq<char>,
    rx: Seq<char>,
    tx: Seq<char>,
)
    ensures
        view_document(points, resolution, cpu, rx, tx) == seq!['{'] + member("points"@, seq!['['] + join(
            points,
            seq![','],
        ) + seq![']']) + seq![','] + member("resolution_seconds"@, decimal(resolution as nat)) + seq![
            ',',
        ] + member(
            "summary"@,
            seq!['{'] + member("cpu"@, cpu) + seq![','] + member("rx"@, rx) + seq![','] + member(
                "tx"@,
                tx,
            ) + seq!['}'],
        ) + seq!['}'],
{
    lemma_object3("points"@, list_text(points), "resolution_seconds"@, decimal(resolution as nat), "summary"@,
        object_text(seq![("cpu"@, cpu), ("rx"@, rx), ("tx"@, tx)]));
    lemma_object3("cpu"@, cpu, "rx"@, rx, "tx"@, tx);
}

/// A summary's document holds, in order, the average, the peak (each
/// `null` when not given) and the number of samples.
pub proof fn lemma_summary_members(average: Option<Seq<char>>, peak: Option<Seq<char>>, samples: u64)
    ensures
        summary_document(average, peak, samples) == seq!['{'] + member(
            "average"@,
            match average {
                Some(t) => t,
                None => seq!['n', 'u', 'l', 'l'],
            },
        ) + seq![','] + member(
            "peak"@,
            match peak {
                Some(t) => t,
                None => seq!['n', 'u', 'l', 'l'],
            },
        ) + seq![','] + member("samples"@, decimal(samples as nat)) + seq!['}'],
{
    lemma_object3("average"@, text_or_null(average), "peak"@, text_or_null(peak), "samples"@, decimal(
        samples as nat,
    ));
}

/// A point's document holds, in order, its second, then its CPU usage and
/// its receive and transmit rates, each `null` when not given.
pub proof fn lemma_point_members(timestamp: u64, cpu: Option<Seq<char>>, rx: Option<Seq<char>>, tx: Option<Seq<char>>)
    ensures
        point_document(timestamp, cpu, rx, tx) == seq!['{'] + member("timestamp"@, decimal(timestamp as nat))
            + seq![','] + member(
            "cpu"@,
            match cpu {
                Some(t) => t,
                None => seq!['n', 'u', 'l', 'l'],
            },
        ) + seq![','] + member(
            "rx"@,
            match rx {
                Some(t) => t,
                None => seq!['n', 'u', 'l', 'l'],
            },
        ) + seq![','] + member(
            "tx"@,
            match tx {
                Some(t) => t,
                None => seq!['n', 'u', 'l', 'l'],
            },
        ) + seq!['}'],
{
    lemma_object4("timestamp"@, decimal(timestamp as nat), "cpu"@, text_or_null(cpu), "rx"@, text_or_null(rx),
        "tx"@, text_or_null(tx));
}
} // verus!
