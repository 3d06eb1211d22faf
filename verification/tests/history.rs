use live::history::{
    group, on_disk, point_json, point_seconds, summary_json, supported_version, view_json, Range, Sample, Source, Store,
    PENDING_LIMIT,
};
use std::collections::BTreeMap;

type Values = (Option<f64>, Option<f64>, Option<f64>);

fn point(timestamp: u64, cpu: Option<f64>) -> Sample<Values> {
    Sample { timestamp, values: (cpu, Some(100.0), None) }
}

#[derive(Debug, Default, PartialEq, Clone, Copy)]
struct Stat {
    sum: f64,
    count: u64,
    peak: Option<f64>,
}

impl Stat {
    fn add(&mut self, v: Option<f64>) {
        if let Some(v) = v {
            self.sum += v;
            self.count += 1;
            self.peak = Some(self.peak.map_or(v, |p| p.max(v)));
        }
    }
}

/// A stand-in for the on-disk table: rows by second, a write that can be
/// made to fail at one second or entirely.
struct Disk {
    rows: BTreeMap<u64, Values>,
    fail_at: Option<u64>,
    read_only: bool,
}

struct History {
    disk: Disk,
    store: Store<Values>,
    interval_elapsed: bool,
}

impl History {
    fn new() -> Self {
        History {
            disk: Disk { rows: BTreeMap::new(), fail_at: None, read_only: false },
            store: Store::new(None),
            interval_elapsed: false,
        }
    }

    fn record(&mut self, p: Sample<Values>) {
        self.store.record(p);
        if self.store.flush_due(self.interval_elapsed) && self.flush().is_err() {
            self.store.write_failed();
        }
    }

    fn flush(&mut self) -> Result<(), ()> {
        let n = self.store.pending_len();
        if n == 0 {
            return Ok(());
        }
        let mut staged = self.disk.rows.clone();
        for i in 0..n {
            let s = self.store.sample(i);
            if self.disk.read_only || self.disk.fail_at == Some(s.timestamp) {
                return Err(());
            }
            staged.insert(s.timestamp, s.values);
        }
        self.disk.rows = staged;
        self.store.committed();
        self.interval_elapsed = false;
        Ok(())
    }

    fn query(&self, range: Range, end: u64) -> (Vec<Sample<Values>>, [Stat; 3]) {
        let (start, resolution) = range.window(end);
        let stored: Vec<(u64, Values)> =
            self.disk.rows.range(start..=end).map(|(t, v)| (*t, *v)).collect();
        let seconds: Vec<u64> = stored.iter().map(|r| r.0).collect();
        let sources = self.store.merge(&seconds, start, end);
        let samples: Vec<(u64, Values)> = sources
            .iter()
            .map(|s| match s {
                Source::Stored(i) => stored[*i],
                Source::Queued(j) => {
                    let q = self.store.sample(*j);
                    (q.timestamp, q.values)
                }
            })
            .collect();
        let mut summary = [Stat::default(); 3];
        for s in &samples {
            summary[0].add(s.1 .0);
            summary[1].add(s.1 .1);
            summary[2].add(s.1 .2);
        }
        let times: Vec<u64> = samples.iter().map(|s| s.0).collect();
        let seconds = point_seconds(&times, resolution);
        let points = group(&times, resolution)
            .into_iter()
            .zip(seconds)
            .map(|((a, b), timestamp)| {
                let mut stats = [Stat::default(); 3];
                for s in &samples[a..b] {
                    stats[0].add(s.1 .0);
                    stats[1].add(s.1 .1);
                    stats[2].add(s.1 .2);
                }
                let avg = |s: Stat| (s.count > 0).then(|| s.sum / s.count as f64);
                Sample { timestamp, values: (avg(stats[0]), avg(stats[1]), avg(stats[2])) }
            })
            .collect();
        (points, summary)
    }
}

fn same(a: &[Sample<Values>], b: &[Sample<Values>]) -> bool {
    a.len() == b.len() && a.iter().zip(b).all(|(x, y)| x.timestamp == y.timestamp && x.values == y.values)
}

#[test]
fn ranges_accept_only_the_offered_views() {
    let hour = Range::parse("").unwrap();
    assert_eq!((hour.minutes, hour.resolution), (60, 5));
    let day = Range::parse("minutes=1440").unwrap();
    assert_eq!((day.minutes, day.resolution), (1440, 60));
    assert_eq!(Range::parse("minutes=10080").unwrap().resolution, 600);
    assert_eq!(Range::parse("minutes=43200").unwrap().resolution, 1800);
    assert_eq!(Range::parse("minutes=+15").unwrap().resolution, 5);
    assert!(Range::parse("minutes=30").is_none());
    assert!(Range::parse("minutes=").is_none());
    assert!(Range::parse("hours=1").is_none());
    assert_eq!(day.window(100), (0, 60));
    assert_eq!(hour.window(10_000), (6_400, 1));
}

#[test]
fn pending_samples_are_visible_and_averaged_once_before_and_after_commit() {
    let mut h = History::new();
    h.record(point(120, Some(10.0)));
    h.record(point(120, Some(30.0)));
    h.record(point(125, Some(50.0)));
    h.record(point(130, None));
    let range = Range::parse("minutes=1440").unwrap();
    let before = h.query(range, 130);
    assert!(same(&before.0, &[point(130, Some(40.0))]));
    assert_eq!(before.1[0].peak, Some(50.0));
    assert_eq!(before.1[0].count, 2);
    let saved = h.disk.rows.len();
    assert_eq!(saved, 1);
    h.flush().unwrap();
    let after = h.query(range, 130);
    assert!(same(&after.0, &before.0));
    assert_eq!(after.1, before.1);
}

#[test]
fn failed_batch_rolls_back_and_remains_available_for_retry() {
    let mut h = History::new();
    h.record(point(100, Some(10.0)));
    h.record(point(105, Some(20.0)));
    h.record(point(110, Some(30.0)));
    h.disk.fail_at = Some(110);
    assert!(h.flush().is_err());
    assert_eq!(h.store.pending_len(), 2);
    let saved = h.disk.rows.len();
    assert_eq!(saved, 1);
    h.disk.fail_at = None;
    h.flush().unwrap();
    assert_eq!(h.query(Range::parse("").unwrap(), 110).0.len(), 3);
}

#[test]
fn queries_bound_the_window_and_keep_missing_intervals_empty() {
    let mut h = History::new();
    for timestamp in (0..=9000).step_by(5) {
        h.record(point(timestamp, Some(25.0)));
        if timestamp % 300 == 0 {
            h.flush().unwrap();
        }
    }
    h.flush().unwrap();
    let hour = h.query(Range::parse("").unwrap(), 9000);
    assert_eq!(hour.0.len(), 721);
    assert_eq!(hour.0[0].timestamp, 5400);
    h.record(point(10000, None));
    let day = h.query(Range::parse("minutes=1440").unwrap(), 10000);
    assert!(day.0.len() <= 1441);
    assert_eq!(day.0.last().unwrap().values.0, None);
    assert_eq!(day.0[day.0.len() - 2].timestamp, 9000);
    assert!(Range::parse("minutes=99999999").is_none());
    assert!(Range::parse("minutes=60&minutes=15").is_none());
}

#[test]
fn month_view_keeps_all_original_rows_and_returns_small_averaged_results() {
    let mut h = History::new();
    let mut t = 0u64;
    while t <= 2_592_000 {
        h.disk.rows.insert(t, (Some((t % 100) as f64), Some(100.0), None));
        t += 5;
    }
    h.store = Store::new(Some(2_592_000));
    let month = h.query(Range::parse("minutes=43200").unwrap(), 2_592_000);
    assert_eq!(month.0.len(), 1441);
    assert!(same(&month.0[..1], &[point(1795, Some(47.5))]));
    let rows = h.disk.rows.len();
    assert_eq!(rows, 518_401);
}

#[test]
fn prolonged_write_failure_is_bounded_reported_and_recovers() {
    let mut h = History::new();
    h.record(point(100, Some(10.0)));
    h.interval_elapsed = true;
    h.disk.read_only = true;
    for timestamp in 101..=824 {
        h.record(point(timestamp, Some(20.0)));
    }
    assert_eq!(h.store.pending_len(), PENDING_LIMIT);
    assert_eq!(h.store.dropped_samples(), 4);
    assert!(h.store.status_json().contains("\"state\":\"error\""));
    h.disk.read_only = false;
    h.flush().unwrap();
    assert_eq!(h.store.pending_len(), 0);
    assert!(h.store.status_json().contains("\"state\":\"ok\""));
    let rows = h.disk.rows.len();
    assert_eq!(rows, 721);
}

#[test]
fn period_summary_uses_raw_samples_not_averages_of_unequal_buckets() {
    let mut h = History::new();
    h.record(point(5, Some(100.0)));
    h.record(point(60, Some(0.0)));
    h.record(point(65, Some(0.0)));
    h.record(point(70, Some(0.0)));
    h.record(point(75, None));
    let result = h.query(Range::parse("minutes=1440").unwrap(), 75);
    assert_eq!(result.0.len(), 2);
    assert_eq!(result.1[0].count, 4);
    assert_eq!(result.1[0].sum / result.1[0].count as f64, 25.0);
    assert_eq!(result.1[0].peak, Some(100.0));
    assert_eq!(result.1[2].count, 0);
    assert_eq!(result.1[2].peak, None);
}

#[test]
fn status_reports_state_and_counts() {
    let mut store: Store<u8> = Store::new(None);
    assert_eq!(
        store.status_json(),
        "{\"state\":\"ok\",\"persisted_through\":null,\"pending_samples\":0,\"dropped_samples\":0}"
    );
    store.record(Sample { timestamp: 7, values: 1 });
    store.record(Sample { timestamp: 3, values: 2 });
    assert!(store.write_failed());
    assert!(!store.write_failed());
    assert_eq!(
        store.status_json(),
        "{\"state\":\"error\",\"persisted_through\":null,\"pending_samples\":2,\"dropped_samples\":0}"
    );
    assert!(store.committed());
    assert_eq!(
        store.status_json(),
        "{\"state\":\"ok\",\"persisted_through\":7,\"pending_samples\":0,\"dropped_samples\":0}"
    );
}

#[test]
fn merge_prefers_queued_samples_and_orders_by_second() {
    let mut store: Store<u8> = Store::new(Some(10));
    store.record(Sample { timestamp: 20, values: 1 });
    store.record(Sample { timestamp: 5, values: 2 });
    store.record(Sample { timestamp: 99, values: 3 });
    let merged = store.merge(&vec![5, 10, 30], 0, 50);
    assert_eq!(
        merged,
        vec![Source::Queued(1), Source::Stored(1), Source::Queued(0), Source::Stored(2)]
    );
}

#[test]
fn groups_follow_slots_of_consecutive_samples() {
    assert_eq!(group(&vec![], 60), vec![]);
    assert_eq!(group(&vec![0, 30, 60, 61, 200, 110], 60), vec![(0, 2), (2, 4), (4, 5), (5, 6)]);
    assert_eq!(group(&vec![1, 2, 3], 1), vec![(0, 1), (1, 2), (2, 3)]);
}

#[test]
fn a_full_queue_drops_only_for_a_new_second() {
    let mut store: Store<u8> = Store::new(None);
    for t in 0..PENDING_LIMIT as u64 {
        assert!(!store.would_drop(t + 1000));
        store.record(Sample { timestamp: t, values: 0 });
    }
    assert!(store.would_drop(5000));
    assert!(!store.would_drop(3));
    store.record(Sample { timestamp: 3, values: 9 });
    assert_eq!((store.pending_len(), store.dropped_samples()), (PENDING_LIMIT, 0));
    assert_eq!(store.sample(PENDING_LIMIT - 1).values, 9);
    store.record(Sample { timestamp: 5000, values: 1 });
    assert_eq!((store.pending_len(), store.dropped_samples()), (PENDING_LIMIT, 1));
    assert_eq!(store.sample(0).timestamp, 1);
}

#[test]
fn points_carry_the_last_second_of_their_group() {
    assert_eq!(point_seconds(&vec![0, 30, 59, 60, 61, 200], 60), vec![59, 61, 200]);
    assert_eq!(point_seconds(&vec![], 5), vec![]);
    assert_eq!(point_seconds(&vec![4, 5, 6], 1), vec![4, 5, 6]);
}

#[test]
fn history_documents_keep_nulls_and_member_order() {
    assert_eq!(
        point_json(120, Some("12.5"), None, Some("3")),
        r#"{"timestamp":120,"cpu":12.5,"rx":null,"tx":3}"#
    );
    let cpu = summary_json(Some("25"), Some("100"), 4);
    assert_eq!(cpu, r#"{"average":25,"peak":100,"samples":4}"#);
    let none = summary_json(None, None, 0);
    assert_eq!(none, r#"{"average":null,"peak":null,"samples":0}"#);
    assert_eq!(
        view_json(&vec!["{}".to_string(), "{}".to_string()], 60, &cpu, &none, &none),
        format!(r#"{{"points":[{{}},{{}}],"resolution_seconds":60,"summary":{{"cpu":{cpu},"rx":{none},"tx":{none}}}}}"#)
    );
}

#[test]
fn database_paths_and_versions() {
    assert!(!on_disk(""));
    assert!(!on_disk(":memory:"));
    assert!(!on_disk(":memory:/"));
    assert!(!on_disk(":memory://./"));
    assert!(on_disk("./:memory:"));
    assert!(on_disk(":memory:x"));
    assert!(on_disk(":memory:/x"));
    assert!(on_disk("data/history.sqlite3"));
    assert!(supported_version(0));
    assert!(supported_version(1));
    assert!(!supported_version(2));
}
