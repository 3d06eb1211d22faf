//! Hardware readings from the kernel's text interfaces: processor time,
//! memory, the root file system, network counters and firmware flags.

use vstd::prelude::*;
use crate::text::{
    assoc, chars_of, decimal, find_last_key, lemma_assoc_hit, lemma_assoc_miss, lines, lines_of,
    parse_u64, parse_u64_vec, parse_uint, parse_uint_vec, same, split_once, split_once_vec,
    starts_with, starts_with_vec, views, words, words_of, is_digit, trim, trim_vec, string_of,
};
use crate::util::{
    join, lemma_object16, list, list_text, member, number, number_text, object,
    object_text, or_null, quote, quoted, quoted_all, quoted_list, text_or_null, text_view, texts,
};

verus! {

// ---------------------------------------------------------------------------
// Shared pieces
// ---------------------------------------------------------------------------

/// The first of the lines that start with `p`.
pub open spec fn first_with_prefix(ls: Seq<Seq<char>>, p: Seq<char>) -> Option<Seq<char>>
    decreases ls.len(),
{
    if ls.len() == 0 {
        None
    } else {
        match first_with_prefix(ls.drop_last(), p) {
            Some(l) => Some(l),
            None => if starts_with(ls.last(), p) {
                Some(ls.last())
            } else {
                None
            },
        }
    }
}

/// `s` without its first item, or `s` itself when it is empty.
pub open spec fn rest(s: Seq<Seq<char>>) -> Seq<Seq<char>> {
    if s.len() == 0 {
        s
    } else {
        s.skip(1)
    }
}

/// At most the first `n` items of `s`.
pub open spec fn at_most(s: Seq<Seq<char>>, n: nat) -> Seq<Seq<char>> {
    if s.len() <= n {
        s
    } else {
        s.take(n as int)
    }
}

/// The values of all items when every one parses as a `u64`.
pub open spec fn all_u64(s: Seq<Seq<char>>) -> Option<Seq<u64>>
    decreases s.len(),
{
    if s.len() == 0 {
        Some(Seq::<u64>::empty())
    } else {
        match (all_u64(s.drop_last()), parse_u64(s.last())) {
            (Some(v), Some(x)) => Some(v.push(x)),
            _ => None,
        }
    }
}

/// The sum of the values.
pub open spec fn total(f: Seq<u64>) -> int
    decreases f.len(),
{
    if f.len() == 0 {
        0
    } else {
        total(f.drop_last()) + f.last()
    }
}

/// A count of kibibytes as bytes, when it parses and the product fits.
pub open spec fn kib(s: Seq<char>) -> Option<u64> {
    match parse_u64(s) {
        Some(n) => if n * 1024 <= u64::MAX {
            Some((n * 1024) as u64)
        } else {
            None
        },
        None => None,
    }
}

proof fn lemma_first_with_prefix(ls: Seq<Seq<char>>, p: Seq<char>)
    ensures
        first_with_prefix(ls, p) matches Some(l) ==> starts_with(l, p),
    decreases ls.len(),
{
    if ls.len() > 0 {
        lemma_first_with_prefix(ls.drop_last(), p);
    }
}

fn first_line_with(ls: &Vec<Vec<char>>, p: &Vec<char>) -> (r: Option<Vec<char>>)
    ensures
        match r {
            Some(l) => first_with_prefix(views(ls@), p@) == Some(l@),
            None => first_with_prefix(views(ls@), p@) is None,
        },
{
    let ghost l = views(ls@);
    let mut found: Option<Vec<char>> = None;
    let mut j: usize = 0;
    while j < ls.len()
        invariant
            j <= ls.len(),
            l == views(ls@),
            match found {
                Some(x) => first_with_prefix(l.take(j as int), p@) == Some(x@),
                None => first_with_prefix(l.take(j as int), p@) is None,
            },
        decreases ls.len() - j,
    {
        assert(l.take(j + 1).drop_last() =~= l.take(j as int));
        assert(ls@[j as int]@ == l.take(j + 1).last());
        if found.is_none() && starts_with_vec(&ls[j], p) {
            found = Some(ls[j].clone());
        }
        j += 1;
    }
    assert(l.take(ls.len() as int) =~= l);
    found
}

fn kib_vec(s: &Vec<char>) -> (r: Option<u64>)
    ensures
        r == kib(s@),
{
    match parse_u64_vec(s) {
        Some(n) => n.checked_mul(1024),
        None => None,
    }
}

// ---------------------------------------------------------------------------
// Processor time
// ---------------------------------------------------------------------------

/// Aggregate processor time: all of it, and the idle part, in clock ticks.
#[derive(Clone, Copy, Debug)]
pub struct Cpu {
    pub total: u64,
    pub idle: u64,
}

/// The counters of the aggregate `cpu ` line of `/proc/stat`: at most the
/// first eight after the label (guest time, which follows, is already
/// counted in user and nice time), when all of them parse.
pub open spec fn cpu_fields(input: Seq<char>) -> Option<Seq<u64>> {
    match first_with_prefix(lines(input), "cpu "@) {
        Some(l) => all_u64(at_most(rest(words(l)), 8)),
        None => None,
    }
}

/// Whether the counters of the `cpu ` line, when at least four, sum to a `u64`.
pub open spec fn cpu_fits(input: Seq<char>) -> bool {
    match cpu_fields(input) {
        Some(f) => f.len() >= 4 ==> total(f) <= u64::MAX,
        None => true,
    }
}

/// The processor time of `/proc/stat`: the sum of the counters, and idle
/// plus I/O-wait time; none without at least four counters.
pub open spec fn cpu_from(input: Seq<char>) -> Option<Cpu> {
    match cpu_fields(input) {
        Some(f) => if f.len() < 4 {
            None
        } else {
            Some(
                Cpu {
                    total: total(f) as u64,
                    idle: (f[3] + if f.len() > 4 {
                        f[4] as int
                    } else {
                        0
                    }) as u64,
                },
            )
        },
        None => None,
    }
}

/// The busy and the whole processor time between two readings; none when the
/// counters went back or no time passed. Idle time is clamped to the whole.
pub open spec fn usage_of(now: Cpu, before: Cpu) -> Option<(u64, u64)> {
    if now.total < before.total {
        None
    } else {
        let whole = now.total - before.total;
        let idle_delta: int = if now.idle >= before.idle {
            now.idle - before.idle
        } else {
            0
        };
        let idle = if idle_delta < whole {
            idle_delta
        } else {
            whole
        };
        if whole == 0 {
            None
        } else {
            Some(((whole - idle) as u64, whole as u64))
        }
    }
}

proof fn lemma_total_bounds(f: Seq<u64>, i: int, j: int)
    requires
        0 <= i < j < f.len(),
    ensures
        total(f) >= f[i] + f[j],
    decreases f.len(),
{
    lemma_total_nonneg(f.drop_last());
    if j < f.len() - 1 {
        lemma_total_bounds(f.drop_last(), i, j);
    } else {
        lemma_total_at_least(f.drop_last(), i);
    }
}

proof fn lemma_total_nonneg(f: Seq<u64>)
    ensures
        total(f) >= 0,
    decreases f.len(),
{
    if f.len() > 0 {
        lemma_total_nonneg(f.drop_last());
    }
}

proof fn lemma_total_at_least(f: Seq<u64>, i: int)
    requires
        0 <= i < f.len(),
    ensures
        total(f) >= f[i],
    decreases f.len(),
{
    lemma_total_nonneg(f.drop_last());
    if i < f.len() - 1 {
        lemma_total_at_least(f.drop_last(), i);
    }
}

fn parse_all(ws: &Vec<Vec<char>>, from: usize, count: usize) -> (r: Option<Vec<u64>>)
    requires
        from <= ws.len(),
    ensures
        match r {
            Some(v) => all_u64(views(ws@).subrange(from as int, if ws.len() - from <= count {
                ws.len() as int
            } else {
                from + count
            })) == Some(v@),
            None => all_u64(views(ws@).subrange(from as int, if ws.len() - from <= count {
                ws.len() as int
            } else {
                from + count
            })) is None,
        },
{
    let end: usize = if ws.len() - from <= count {
        ws.len()
    } else {
        from + count
    };
    let ghost s = views(ws@).subrange(from as int, end as int);
    let mut out: Vec<u64> = Vec::new();
    let mut i = from;
    while i < end
        invariant
            from <= i <= end,
            end <= ws.len(),
            end == (if ws.len() - from <= count {
                ws.len() as int
            } else {
                from + count
            }),
            s == views(ws@).subrange(from as int, end as int),
            all_u64(s.take(i - from)) == Some(out@),
        decreases end - i,
    {
        assert(s.take(i - from + 1).drop_last() =~= s.take(i - from));
        assert(s.take(i - from + 1).last() == ws@[i as int]@);
        match parse_u64_vec(&ws[i]) {
            Some(x) => {
                out.push(x);
            },
            None => {
                assert(all_u64(s.take(i - from + 1)) is None);
                proof {
                    lemma_all_u64_prefix(s, i - from + 1);
                }
                return None;
            },
        }
        i += 1;
    }
    assert(s.take(end - from) =~= s);
    Some(out)
}

proof fn lemma_all_u64_prefix(s: Seq<Seq<char>>, k: int)
    requires
        0 <= k <= s.len(),
        all_u64(s.take(k)) is None,
    ensures
        all_u64(s) is None,
    decreases s.len() - k,
{
    if k < s.len() {
        assert(s.take(k + 1).drop_last() =~= s.take(k));
        lemma_all_u64_prefix(s, k + 1);
    } else {
        assert(s.take(k) =~= s);
    }
}

proof fn lemma_all_u64_len(s: Seq<Seq<char>>)
    ensures
        all_u64(s) matches Some(v) ==> v.len() == s.len(),
    decreases s.len(),
{
    if s.len() > 0 {
        lemma_all_u64_len(s.drop_last());
    }
}

fn cpu_counters(input: &str) -> (r: Option<Vec<u64>>)
    ensures
        match r {
            Some(v) => cpu_fields(input@) == Some(v@),
            None => cpu_fields(input@) is None,
        },
{
    let chars = chars_of(input);
    let ls = lines_of(&chars);
    let label = chars_of("cpu ");
    match first_line_with(&ls, &label) {
        Some(l) => {
            let ws = words_of(&l);
            let ghost w = words(l@);
            if ws.len() == 0 {
                assert(rest(w) =~= w.subrange(0, 0));
                return parse_all(&ws, 0, 8);
            }
            assert(rest(w) =~= w.subrange(1, w.len() as int));
            let r = parse_all(&ws, 1, 8);
            assert(at_most(rest(w), 8) =~= w.subrange(
                1,
                if ws.len() - 1 <= 8 {
                    ws.len() as int
                } else {
                    9
                },
            ));
            r
        },
        None => None,
    }
}

impl Cpu {
    /// Whether the counters of the `cpu ` line sum to a `u64`, as `parse`
    /// requires.
    pub fn fits(input: &str) -> (r: bool)
        ensures
            r == cpu_fits(input@),
    {
        match cpu_counters(input) {
            None => true,
            Some(f) => {
                proof {
                    let w = at_most(rest(words(first_with_prefix(lines(input@), "cpu "@)->0)), 8);
                    lemma_all_u64_len(w);
                }
                if f.len() < 4 {
                    return true;
                }
                let mut sum: u128 = 0;
                let mut i: usize = 0;
                while i < f.len()
                    invariant
                        i <= f.len(),
                        f.len() <= 8,
                        sum == total(f@.take(i as int)),
                        sum <= i * 0xffff_ffff_ffff_ffffu128,
                    decreases f.len() - i,
                {
                    assert(f@.take(i + 1).drop_last() =~= f@.take(i as int));
                    sum = sum + f[i] as u128;
                    i += 1;
                }
                assert(f@.take(f.len() as int) =~= f@);
                sum <= u64::MAX as u128
            },
        }
    }

    /// The aggregate processor time of `/proc/stat`.
    pub fn parse(input: &str) -> (r: Option<Cpu>)
        requires
            cpu_fits(input@),
        ensures
            r == cpu_from(input@),
    {
        match cpu_counters(input) {
            None => None,
            Some(f) => {
                proof {
                    let w = at_most(rest(words(first_with_prefix(lines(input@), "cpu "@)->0)), 8);
                    lemma_all_u64_len(w);
                }
                if f.len() < 4 {
                    return None;
                }
                let mut sum: u64 = 0;
                let mut i: usize = 0;
                while i < f.len()
                    invariant
                        i <= f.len(),
                        total(f@) <= u64::MAX,
                        sum == total(f@.take(i as int)),
                    decreases f.len() - i,
                {
                    assert(f@.take(i + 1).drop_last() =~= f@.take(i as int));
                    proof {
                        lemma_total_prefix(f@, i + 1);
                    }
                    sum = sum + f[i];
                    i += 1;
                }
                assert(f@.take(f.len() as int) =~= f@);
                let idle = if f.len() > 4 {
                    proof {
                        lemma_total_bounds(f@, 3, 4);
                    }
                    f[3] + f[4]
                } else {
                    f[3]
                };
                Some(Cpu { total: sum, idle })
            },
        }
    }

    /// The busy and the whole processor time since `before`, for the
    /// percentage of busy time; none when the counters went back (a reset)
    /// or no time passed.
    pub fn usage(self, before: Cpu) -> (r: Option<(u64, u64)>)
        ensures
            r == usage_of(self, before),
    {
        let whole = match self.total.checked_sub(before.total) {
            Some(t) => t,
            None => return None,
        };
        if whole == 0 {
            return None;
        }
        let idle_delta = self.idle.saturating_sub(before.idle);
        let idle = if idle_delta < whole {
            idle_delta
        } else {
            whole
        };
        Some((whole - idle, whole))
    }
}

proof fn lemma_total_prefix(f: Seq<u64>, k: int)
    requires
        0 <= k <= f.len(),
    ensures
        total(f.take(k)) <= total(f),
    decreases f.len() - k,
{
    if k < f.len() {
        assert(f.take(k + 1).drop_last() =~= f.take(k));
        lemma_total_prefix(f, k + 1);
    } else {
        assert(f.take(k) =~= f);
    }
}

// ---------------------------------------------------------------------------
// Memory
// ---------------------------------------------------------------------------

/// Memory in bytes: installed, available (reclaimable cache included), and swap.
#[derive(Clone, Copy, Debug)]
pub struct Memory {
    pub total: u64,
    pub available: u64,
    pub swap_total: u64,
    pub swap_free: u64,
}

/// The `Key: value kB` entry of a `/proc/meminfo` line, in bytes.
pub open spec fn meminfo_entry(line: Seq<char>) -> Option<(Seq<char>, u64)> {
    match split_once(line, ':') {
        Some((k, v)) => {
            let w = words(v);
            if w.len() == 0 {
                None
            } else {
                match kib(w[0]) {
                    Some(n) => Some((k, n)),
                    None => None,
                }
            }
        },
        None => None,
    }
}

/// The entries of the lines, in order.
pub open spec fn meminfo_entries(ls: Seq<Seq<char>>) -> Seq<(Seq<char>, u64)>
    decreases ls.len(),
{
    if ls.len() == 0 {
        Seq::<(Seq<char>, u64)>::empty()
    } else {
        let p = meminfo_entries(ls.drop_last());
        match meminfo_entry(ls.last()) {
            Some(e) => p.push(e),
            None => p,
        }
    }
}

/// The values of `/proc/meminfo` by key, a later line replacing an earlier.
pub open spec fn meminfo(input: Seq<char>) -> Map<Seq<char>, u64> {
    assoc(meminfo_entries(lines(input)))
}

/// The memory of `/proc/meminfo`: `MemTotal` (not zero) and `MemAvailable`
/// are needed, available memory is clamped to the total, absent swap is zero.
pub open spec fn memory_from(input: Seq<char>) -> Option<Memory> {
    let m = meminfo(input);
    if !m.contains_key("MemTotal"@) || m["MemTotal"@] == 0 || !m.contains_key("MemAvailable"@) {
        None
    } else {
        let total = m["MemTotal"@];
        Some(
            Memory {
                total,
                available: if m["MemAvailable"@] < total {
                    m["MemAvailable"@]
                } else {
                    total
                },
                swap_total: if m.contains_key("SwapTotal"@) {
                    m["SwapTotal"@]
                } else {
                    0
                },
                swap_free: if m.contains_key("SwapFree"@) {
                    m["SwapFree"@]
                } else {
                    0
                },
            },
        )
    }
}

/// The views of keyed counts.
pub open spec fn entry_views(p: Seq<(Vec<char>, u64)>) -> Seq<(Seq<char>, u64)> {
    p.map_values(|e: (Vec<char>, u64)| (e.0@, e.1))
}

fn entry_get(entries: &Vec<(Vec<char>, u64)>, key: &str) -> (r: Option<u64>)
    ensures
        match r {
            Some(v) => assoc(entry_views(entries@)).contains_key(key@) && assoc(
                entry_views(entries@),
            )[key@] == v,
            None => !assoc(entry_views(entries@)).contains_key(key@),
        },
{
    let k = chars_of(key);
    match find_last_key(entries, &k) {
        Some(i) => {
            assert(entry_views(entries@)[i as int].0 == entries@[i as int].0@);
            proof {
                lemma_assoc_hit(entry_views(entries@), i as int, key@);
            }
            Some(entries[i].1)
        },
        None => {
            proof {
                assert forall|j: int| 0 <= j < entries.len() implies #[trigger] entry_views(
                    entries@,
                )[j].0 != key@ by {
                    assert(entry_views(entries@)[j].0 == entries@[j].0@);
                }
                lemma_assoc_miss(entry_views(entries@), key@);
            }
            None
        },
    }
}

fn meminfo_line(line: &Vec<char>) -> (r: Option<(Vec<char>, u64)>)
    ensures
        match r {
            Some(e) => meminfo_entry(line@) == Some((e.0@, e.1)),
            None => meminfo_entry(line@) is None,
        },
{
    match split_once_vec(line, ':') {
        Some((k, v)) => {
            let w = words_of(&v);
            if w.len() == 0 {
                return None;
            }
            assert(w@[0]@ == words(v@)[0]);
            match kib_vec(&w[0]) {
                Some(n) => Some((k, n)),
                None => None,
            }
        },
        None => None,
    }
}

impl Memory {
    /// The memory of `/proc/meminfo`.
    pub fn parse(input: &str) -> (r: Option<Memory>)
        ensures
            r == memory_from(input@),
    {
        let chars = chars_of(input);
        let ls = lines_of(&chars);
        let ghost l = lines(input@);
        let mut entries: Vec<(Vec<char>, u64)> = Vec::new();
        let mut j: usize = 0;
        while j < ls.len()
            invariant
                j <= ls.len(),
                views(ls@) == l,
                entry_views(entries@) == meminfo_entries(l.take(j as int)),
            decreases ls.len() - j,
        {
            assert(l.take(j + 1).drop_last() =~= l.take(j as int));
            assert(ls@[j as int]@ == l.take(j + 1).last());
            match meminfo_line(&ls[j]) {
                Some(e) => entries.push(e),
                None => {},
            }
            assert(entry_views(entries@) =~= meminfo_entries(l.take(j + 1)));
            j += 1;
        }
        assert(l.take(ls.len() as int) =~= l);
        let total = match entry_get(&entries, "MemTotal") {
            Some(t) => t,
            None => return None,
        };
        if total == 0 {
            return None;
        }
        let available = match entry_get(&entries, "MemAvailable") {
            Some(a) => a,
            None => return None,
        };
        let swap_total = match entry_get(&entries, "SwapTotal") {
            Some(v) => v,
            None => 0,
        };
        let swap_free = match entry_get(&entries, "SwapFree") {
            Some(v) => v,
            None => 0,
        };
        Some(
            Memory {
                total,
                available: if available < total {
                    available
                } else {
                    total
                },
                swap_total,
                swap_free,
            },
        )
    }

    /// The memory as JSON: sizes in bytes, used memory, swap in use, and
    /// `percent`, the used share already rendered.
    pub fn json(self, percent: &str) -> (s: String)
        requires
            self.available <= self.total,
        ensures
            s@ == object_text(
                seq![
                    ("total"@, number_text(Some(self.total))),
                    ("available"@, number_text(Some(self.available))),
                    ("used"@, number_text(Some((self.total - self.available) as u64))),
                    ("percent"@, percent@),
                    ("swap_total"@, number_text(Some(self.swap_total))),
                    ("swap_used"@, number_text(Some(self.swap_total.saturating_sub(self.swap_free)))),
                ],
            ),
    {
        let fields = [
            ("total", crate::util::number(Some(self.total))),
            ("available", crate::util::number(Some(self.available))),
            ("used", crate::util::number(Some(self.total - self.available))),
            ("percent", percent.to_owned()),
            ("swap_total", crate::util::number(Some(self.swap_total))),
            ("swap_used", crate::util::number(Some(self.swap_total.saturating_sub(self.swap_free)))),
        ];
        let s = object(&fields);
        assert(fields@.map_values(|f: (&str, String)| (f.0@, f.1@)) =~= seq![
            ("total"@, number_text(Some(self.total))),
            ("available"@, number_text(Some(self.available))),
            ("used"@, number_text(Some((self.total - self.available) as u64))),
            ("percent"@, percent@),
            ("swap_total"@, number_text(Some(self.swap_total))),
            ("swap_used"@, number_text(Some(self.swap_total.saturating_sub(self.swap_free)))),
        ]);
        s
    }
}

// ---------------------------------------------------------------------------
// Root file system
// ---------------------------------------------------------------------------

/// The root file system in bytes: size, used, and available to ordinary
/// users (reserved blocks excluded).
#[derive(Clone, Copy, Debug)]
pub struct Disk {
    pub total: u64,
    pub used: u64,
    pub available: u64,
}

/// The root file system from the last line of `df -Pk /`: at least six
/// fields, sizes in kibibytes in the second to fourth, a size that is not zero.
pub open spec fn disk_from(output: Seq<char>) -> Option<Disk> {
    let ls = lines(output);
    if ls.len() == 0 {
        None
    } else {
        let f = words(ls.last());
        if f.len() < 6 {
            None
        } else {
            match kib(f[1]) {
                Some(total) => if total == 0 {
                    None
                } else {
                    match (kib(f[2]), kib(f[3])) {
                        (Some(used), Some(available)) => Some(Disk { total, used, available }),
                        _ => None,
                    }
                },
                None => None,
            }
        }
    }
}

impl Disk {
    /// The root file system from the output of `df -Pk /`.
    pub fn parse(output: &str) -> (r: Option<Disk>)
        ensures
            r == disk_from(output@),
    {
        let chars = chars_of(output);
        let ls = lines_of(&chars);
        if ls.len() == 0 {
            return None;
        }
        let f = words_of(&ls[ls.len() - 1]);
        if f.len() < 6 {
            return None;
        }
        let total = match kib_vec(&f[1]) {
            Some(t) => t,
            None => return None,
        };
        if total == 0 {
            return None;
        }
        let used = match kib_vec(&f[2]) {
            Some(u) => u,
            None => return None,
        };
        let available = match kib_vec(&f[3]) {
            Some(a) => a,
            None => return None,
        };
        Some(Disk { total, used, available })
    }

    /// The file system as JSON: sizes in bytes and `percent`, the used share
    /// already rendered.
    pub fn json(self, percent: &str) -> (s: String)
        ensures
            s@ == object_text(
                seq![
                    ("total"@, number_text(Some(self.total))),
                    ("used"@, number_text(Some(self.used))),
                    ("available"@, number_text(Some(self.available))),
                    ("percent"@, percent@),
                ],
            ),
    {
        let fields = [
            ("total", crate::util::number(Some(self.total))),
            ("used", crate::util::number(Some(self.used))),
            ("available", crate::util::number(Some(self.available))),
            ("percent", percent.to_owned()),
        ];
        let s = object(&fields);
        assert(fields@.map_values(|f: (&str, String)| (f.0@, f.1@)) =~= seq![
            ("total"@, number_text(Some(self.total))),
            ("used"@, number_text(Some(self.used))),
            ("available"@, number_text(Some(self.available))),
            ("percent"@, percent@),
        ]);
        s
    }
}


// ---------------------------------------------------------------------------
// Network counters
// ---------------------------------------------------------------------------

/// Whether `a` sorts before `b`, character by character, as `String`s order.
pub open spec fn lex_lt(a: Seq<char>, b: Seq<char>) -> bool
    decreases a.len(),
{
    if a.len() == 0 {
        b.len() > 0
    } else if b.len() == 0 {
        false
    } else if a[0] != b[0] {
        a[0] < b[0]
    } else {
        lex_lt(a.skip(1), b.skip(1))
    }
}

pub proof fn lemma_lex_irreflexive(a: Seq<char>)
    ensures
        !lex_lt(a, a),
    decreases a.len(),
{
    if a.len() > 0 {
        lemma_lex_irreflexive(a.skip(1));
    }
}

pub proof fn lemma_lex_total(a: Seq<char>, b: Seq<char>)
    ensures
        a != b ==> lex_lt(a, b) || lex_lt(b, a),
        !(lex_lt(a, b) && lex_lt(b, a)),
    decreases a.len(),
{
    if a.len() > 0 && b.len() > 0 && a[0] == b[0] {
        lemma_lex_total(a.skip(1), b.skip(1));
        if a != b {
            assert(a =~= seq![a[0]] + a.skip(1));
            assert(b =~= seq![b[0]] + b.skip(1));
        }
    } else if a.len() == 0 && b.len() == 0 {
        assert(a =~= b);
    }
}

pub proof fn lemma_lex_transitive(a: Seq<char>, b: Seq<char>, c: Seq<char>)
    requires
        lex_lt(a, b),
        lex_lt(b, c),
    ensures
        lex_lt(a, c),
    decreases a.len(),
{
    if a.len() > 0 && b.len() > 0 && c.len() > 0 && a[0] == b[0] && b[0] == c[0] {
        lemma_lex_transitive(a.skip(1), b.skip(1), c.skip(1));
    }
}

proof fn lemma_lex_skip(a: Seq<char>, b: Seq<char>, i: int)
    requires
        0 <= i <= a.len(),
        i <= b.len(),
        a.take(i) == b.take(i),
    ensures
        lex_lt(a, b) == lex_lt(a.skip(i), b.skip(i)),
    decreases i,
{
    if i > 0 {
        assert(a[0] == a.take(i)[0]);
        assert(b[0] == b.take(i)[0]);
        assert(a.skip(1).take(i - 1) =~= a.take(i).skip(1));
        assert(b.skip(1).take(i - 1) =~= b.take(i).skip(1));
        lemma_lex_skip(a.skip(1), b.skip(1), i - 1);
        assert(a.skip(1).skip(i - 1) =~= a.skip(i));
        assert(b.skip(1).skip(i - 1) =~= b.skip(i));
    } else {
        assert(a.skip(0) =~= a);
        assert(b.skip(0) =~= b);
    }
}

/// Whether `a` sorts before `b`.
pub fn lex_less(a: &Vec<char>, b: &Vec<char>) -> (r: bool)
    ensures
        r == lex_lt(a@, b@),
{
    let mut i: usize = 0;
    while i < a.len() && i < b.len() && a[i] == b[i]
        invariant
            i <= a.len(),
            i <= b.len(),
            a@.take(i as int) == b@.take(i as int),
        decreases a.len() - i,
    {
        assert(a@.take(i + 1) =~= a@.take(i as int).push(a@[i as int]));
        assert(b@.take(i + 1) =~= b@.take(i as int).push(b@[i as int]));
        i += 1;
    }
    proof {
        lemma_lex_skip(a@, b@, i as int);
    }
    let ghost x = a@.skip(i as int);
    let ghost y = b@.skip(i as int);
    if i == a.len() {
        assert(x.len() == 0);
        i < b.len()
    } else if i == b.len() {
        false
    } else {
        assert(x[0] == a@[i as int] && y[0] == b@[i as int]);
        a[i] < b[i]
    }
}

/// Whether the keys strictly increase.
pub open spec fn sorted_keys(s: Seq<(Seq<char>, (u64, u64))>) -> bool {
    forall|i: int, j: int| 0 <= i < j < s.len() ==> lex_lt(#[trigger] s[i].0, #[trigger] s[j].0)
}

/// With distinct keys, each entry gives what its key maps to, and every key
/// of the map has an entry.
pub proof fn lemma_sorted_assoc(s: Seq<(Seq<char>, (u64, u64))>)
    requires
        sorted_keys(s),
    ensures
        forall|i: int|
            0 <= i < s.len() ==> #[trigger] assoc(s).contains_key(s[i].0) && assoc(s)[s[i].0]
                == s[i].1,
        forall|k: Seq<char>|
            #[trigger] assoc(s).contains_key(k) ==> exists|i: int| 0 <= i < s.len() && s[i].0 == k,
{
    assert forall|i: int| 0 <= i < s.len() implies #[trigger] assoc(s).contains_key(s[i].0)
        && assoc(s)[s[i].0] == s[i].1 by {
        assert forall|j: int| i < j < s.len() implies #[trigger] s[j].0 != s[i].0 by {
            lemma_lex_irreflexive(s[i].0);
        }
        lemma_assoc_hit(s, i, s[i].0);
    }
    assert forall|k: Seq<char>| #[trigger] assoc(s).contains_key(k) implies exists|i: int|
        0 <= i < s.len() && s[i].0 == k by {
        if forall|i: int| 0 <= i < s.len() ==> #[trigger] s[i].0 != k {
            lemma_assoc_miss(s, k);
        }
    }
}

/// Receive and transmit byte counters of network interfaces, by name, in
/// name order.
pub struct Counters {
    entries: Vec<(Vec<char>, (u64, u64))>,
}

/// The views of named counters.
pub open spec fn counter_views(e: Seq<(Vec<char>, (u64, u64))>) -> Seq<(Seq<char>, (u64, u64))> {
    e.map_values(|x: (Vec<char>, (u64, u64))| (x.0@, x.1))
}

impl View for Counters {
    type V = Seq<(Seq<char>, (u64, u64))>;

    closed spec fn view(&self) -> Self::V {
        counter_views(self.entries@)
    }
}

/// The sum of the receive counters.
pub open spec fn rx_sum(s: Seq<(Seq<char>, (u64, u64))>) -> int
    decreases s.len(),
{
    if s.len() == 0 {
        0
    } else {
        rx_sum(s.drop_last()) + s.last().1.0
    }
}

/// The sum of the transmit counters.
pub open spec fn tx_sum(s: Seq<(Seq<char>, (u64, u64))>) -> int
    decreases s.len(),
{
    if s.len() == 0 {
        0
    } else {
        tx_sum(s.drop_last()) + s.last().1.1
    }
}

/// The change of one interface's counters since `before`; none when the
/// interface is new or a counter went back (a reset starts a new baseline).
pub open spec fn delta_of(e: (Seq<char>, (u64, u64)), before: Map<Seq<char>, (u64, u64)>) -> Option<(u64, u64)> {
    if !before.contains_key(e.0) {
        None
    } else {
        let old = before[e.0];
        if e.1.0 >= old.0 && e.1.1 >= old.1 {
            Some(((e.1.0 - old.0) as u64, (e.1.1 - old.1) as u64))
        } else {
            None
        }
    }
}

/// The changes of the interfaces that have one, in name order.
pub open spec fn deltas(cur: Seq<(Seq<char>, (u64, u64))>, before: Map<Seq<char>, (u64, u64)>) -> Seq<(u64, u64)>
    decreases cur.len(),
{
    if cur.len() == 0 {
        Seq::<(u64, u64)>::empty()
    } else {
        let p = deltas(cur.drop_last(), before);
        match delta_of(cur.last(), before) {
            Some(d) => p.push(d),
            None => p,
        }
    }
}

impl Counters {
    #[verifier::type_invariant]
    spec fn sorted(&self) -> bool {
        sorted_keys(counter_views(self.entries@))
    }

    /// No interfaces.
    pub fn new() -> (r: Counters)
        ensures
            r@ == Seq::<(Seq<char>, (u64, u64))>::empty(),
    {
        let r = Counters { entries: Vec::new() };
        assert(r@ =~= Seq::<(Seq<char>, (u64, u64))>::empty());
        r
    }

    /// The number of interfaces.
    pub fn len(&self) -> (n: usize)
        ensures
            n == self@.len(),
    {
        self.entries.len()
    }

    /// Sets the counters of interface `name`, replacing earlier ones.
    pub fn insert(&mut self, name: &str, value: (u64, u64))
        ensures
            sorted_keys(final(self)@),
            assoc(final(self)@) == assoc(old(self)@).insert(name@, value),
    {
        self.insert_chars(chars_of(name), value);
    }

    fn insert_chars(&mut self, name: Vec<char>, value: (u64, u64))
        ensures
            sorted_keys(final(self)@),
            assoc(final(self)@) == assoc(old(self)@).insert(name@, value),
    {
        proof {
            use_type_invariant(&*self);
        }
        let mut entries: Vec<(Vec<char>, (u64, u64))> = Vec::new();
        std::mem::swap(&mut entries, &mut self.entries);
        let ghost old_view = counter_views(entries@);
        assert(old_view == old(self)@);
        let mut p: usize = 0;
        while p < entries.len() && lex_less(&entries[p].0, &name)
            invariant
                p <= entries.len(),
                old_view == counter_views(entries@),
                sorted_keys(old_view),
                forall|i: int| 0 <= i < p ==> lex_lt(#[trigger] old_view[i].0, name@),
            decreases entries.len() - p,
        {
            p += 1;
        }
        proof {
            lemma_sorted_assoc(old_view);
        }
        let ghost x = (name@, value);
        if p < entries.len() && same(&entries[p].0, &name) {
            entries.set(p, (name, value));
            let ghost nv = counter_views(entries@);
            assert(nv =~= old_view.update(p as int, x));
            assert(old_view[p as int].0 == x.0);
            assert(nv[p as int] == x);
            assert(sorted_keys(nv)) by {
                assert forall|i: int, j: int| 0 <= i < j < nv.len() implies lex_lt(
                    #[trigger] nv[i].0,
                    #[trigger] nv[j].0,
                ) by {
                    assert(nv[i].0 == old_view[i].0);
                    assert(nv[j].0 == old_view[j].0);
                }
            }
            proof {
                lemma_sorted_assoc(nv);
                assert forall|k: Seq<char>| #[trigger] assoc(nv).contains_key(k) == assoc(
                    old_view,
                ).insert(x.0, x.1).contains_key(k) by {
                    if assoc(nv).contains_key(k) {
                        let i = choose|i: int| 0 <= i < nv.len() && nv[i].0 == k;
                        assert(old_view[i].0 == k);
                    }
                    if assoc(old_view).contains_key(k) {
                        let i = choose|i: int| 0 <= i < old_view.len() && old_view[i].0 == k;
                        assert(nv[i].0 == k);
                    }
                }
                assert forall|k: Seq<char>| #[trigger] assoc(nv).contains_key(k) implies assoc(
                    nv,
                )[k] == assoc(old_view).insert(x.0, x.1)[k] by {
                    let i = choose|i: int| 0 <= i < nv.len() && nv[i].0 == k;
                    assert(nv[i].0 == k);
                }
                assert(assoc(nv) =~= assoc(old_view).insert(x.0, x.1));
            }
        } else {
            proof {
                if p < entries.len() {
                    lemma_lex_total(old_view[p as int].0, name@);
                    assert(lex_lt(name@, old_view[p as int].0));
                }
            }
            entries.insert(p, (name, value));
            let ghost nv = counter_views(entries@);
            assert(nv =~= old_view.insert(p as int, x));
            assert(sorted_keys(nv)) by {
                assert forall|i: int, j: int| 0 <= i < j < nv.len() implies lex_lt(
                    #[trigger] nv[i].0,
                    #[trigger] nv[j].0,
                ) by {
                    if j < p {
                    } else if j == p {
                    } else if i < p {
                        if j - 1 > p {
                            assert(lex_lt(old_view[p as int].0, old_view[j - 1].0));
                            lemma_lex_transitive(x.0, old_view[p as int].0, old_view[j - 1].0);
                        }
                        assert(lex_lt(x.0, nv[j].0));
                        lemma_lex_transitive(nv[i].0, x.0, nv[j].0);
                    } else if i == p {
                        if j - 1 > p {
                            assert(lex_lt(old_view[p as int].0, old_view[j - 1].0));
                            lemma_lex_transitive(x.0, old_view[p as int].0, old_view[j - 1].0);
                        }
                    } else {
                        assert(nv[i] == old_view[i - 1]);
                        assert(nv[j] == old_view[j - 1]);
                    }
                }
            }
            proof {
                lemma_sorted_assoc(nv);
                assert forall|i: int| 0 <= i < old_view.len() implies #[trigger] old_view[i].0
                    != x.0 by {
                    if i >= p {
                        if i > p {
                            assert(lex_lt(old_view[p as int].0, old_view[i].0));
                            lemma_lex_transitive(x.0, old_view[p as int].0, old_view[i].0);
                        }
                        lemma_lex_irreflexive(x.0);
                    } else {
                        lemma_lex_irreflexive(x.0);
                    }
                }
                assert forall|k: Seq<char>| #[trigger] assoc(nv).contains_key(k) == assoc(
                    old_view,
                ).insert(x.0, x.1).contains_key(k) by {
                    if assoc(nv).contains_key(k) {
                        let i = choose|i: int| 0 <= i < nv.len() && nv[i].0 == k;
                        if i < p {
                            assert(old_view[i].0 == k);
                        } else if i > p {
                            assert(old_view[i - 1].0 == k);
                        }
                    }
                    if assoc(old_view).contains_key(k) {
                        let i = choose|i: int| 0 <= i < old_view.len() && old_view[i].0 == k;
                        if i < p {
                            assert(nv[i].0 == k);
                        } else {
                            assert(nv[i + 1].0 == k);
                        }
                    }
                    assert(nv[p as int].0 == x.0);
                }
                assert forall|k: Seq<char>| #[trigger] assoc(nv).contains_key(k) implies assoc(
                    nv,
                )[k] == assoc(old_view).insert(x.0, x.1)[k] by {
                    let i = choose|i: int| 0 <= i < nv.len() && nv[i].0 == k;
                    if i < p {
                        assert(old_view[i].0 == k);
                    } else if i > p {
                        assert(old_view[i - 1].0 == k);
                    }
                }
                assert(assoc(nv) =~= assoc(old_view).insert(x.0, x.1));
            }
        }
        self.entries = entries;
    }

    /// The counters of interface `name`.
    pub fn get(&self, name: &str) -> (r: Option<(u64, u64)>)
        ensures
            match r {
                Some(v) => assoc(self@).contains_key(name@) && assoc(self@)[name@] == v,
                None => !assoc(self@).contains_key(name@),
            },
    {
        self.get_chars(&chars_of(name))
    }

    fn get_chars(&self, name: &Vec<char>) -> (r: Option<(u64, u64)>)
        ensures
            match r {
                Some(v) => assoc(self@).contains_key(name@) && assoc(self@)[name@] == v,
                None => !assoc(self@).contains_key(name@),
            },
    {
        match find_last_key(&self.entries, name) {
            Some(i) => {
                proof {
                    assert(self@[i as int].0 == self.entries@[i as int].0@);
                    assert forall|j: int| i < j < self@.len() implies #[trigger] self@[j].0
                        != name@ by {
                        assert(self@[j].0 == self.entries@[j].0@);
                    }
                    lemma_assoc_hit(self@, i as int, name@);
                }
                Some(self.entries[i].1)
            },
            None => {
                proof {
                    assert forall|j: int| 0 <= j < self@.len() implies #[trigger] self@[j].0
                        != name@ by {
                        assert(self@[j].0 == self.entries@[j].0@);
                    }
                    lemma_assoc_miss(self@, name@);
                }
                None
            },
        }
    }

    /// The interface names, in order.
    pub fn names(&self) -> (r: Vec<String>)
        ensures
            r@.len() == self@.len(),
            forall|i: int| 0 <= i < r@.len() ==> #[trigger] r@[i]@ == self@[i].0,
    {
        let mut r: Vec<String> = Vec::new();
        let mut i: usize = 0;
        while i < self.entries.len()
            invariant
                i <= self.entries.len(),
                r@.len() == i,
                forall|j: int| 0 <= j < i ==> #[trigger] r@[j]@ == self@[j].0,
            decreases self.entries.len() - i,
        {
            r.push(string_of(&self.entries[i].0));
            i += 1;
        }
        r
    }

    /// The same counters.
    pub fn duplicate(&self) -> (r: Counters)
        ensures
            r@ == self@,
    {
        proof {
            use_type_invariant(self);
        }
        let mut entries: Vec<(Vec<char>, (u64, u64))> = Vec::new();
        let mut i: usize = 0;
        while i < self.entries.len()
            invariant
                i <= self.entries.len(),
                counter_views(entries@) == counter_views(self.entries@).take(i as int),
            decreases self.entries.len() - i,
        {
            let name = crate::text::slice_vec(&self.entries[i].0, 0, self.entries[i].0.len());
            assert(name@ =~= self.entries@[i as int].0@);
            let ghost prev = entries@;
            entries.push((name, self.entries[i].1));
            assert(counter_views(entries@) =~= counter_views(prev).push((self.entries@[i as int].0@, self.entries@[i as int].1)));
            assert(counter_views(self.entries@).take(i + 1) =~= counter_views(self.entries@).take(i as int).push((self.entries@[i as int].0@, self.entries@[i as int].1)));
            assert(counter_views(entries@) =~= counter_views(self.entries@).take(i + 1));
            i += 1;
        }
        assert(counter_views(self.entries@).take(self.entries.len() as int) =~= counter_views(
            self.entries@,
        ));
        Counters { entries }
    }

    /// Whether the sums of the receive and of the transmit counters fit in a
    /// `u64`, as `totals` requires.
    pub fn totals_fit(&self) -> (r: bool)
        ensures
            r == (rx_sum(self@) <= u64::MAX && tx_sum(self@) <= u64::MAX),
    {
        let mut rx: u128 = 0;
        let mut tx: u128 = 0;
        let mut over = false;
        let mut i: usize = 0;
        while i < self.entries.len()
            invariant
                i <= self.entries.len(),
                over ==> (rx_sum(self@) > u64::MAX || tx_sum(self@) > u64::MAX),
                !over ==> rx == rx_sum(self@.take(i as int)) && tx == tx_sum(self@.take(i as int))
                    && rx <= u64::MAX && tx <= u64::MAX,
            decreases self.entries.len() - i,
        {
            if !over {
                assert(self@.take(i + 1).drop_last() =~= self@.take(i as int));
                assert(self@[i as int].1 == self.entries@[i as int].1);
                rx = rx + self.entries[i].1.0 as u128;
                tx = tx + self.entries[i].1.1 as u128;
                if rx > u64::MAX as u128 || tx > u64::MAX as u128 {
                    proof {
                        lemma_sums_prefix(self@, i + 1);
                    }
                    over = true;
                }
            }
            i += 1;
        }
        assert(self@.take(self.entries.len() as int) =~= self@);
        !over
    }

    /// The sums of the receive and of the transmit counters; none without
    /// interfaces.
    pub fn totals(&self) -> (r: Option<(u64, u64)>)
        requires
            rx_sum(self@) <= u64::MAX,
            tx_sum(self@) <= u64::MAX,
        ensures
            r == if self@.len() == 0 {
                None
            } else {
                Some((rx_sum(self@) as u64, tx_sum(self@) as u64))
            },
    {
        if self.entries.len() == 0 {
            return None;
        }
        let mut rx: u64 = 0;
        let mut tx: u64 = 0;
        let mut i: usize = 0;
        while i < self.entries.len()
            invariant
                i <= self.entries.len(),
                rx_sum(self@) <= u64::MAX,
                tx_sum(self@) <= u64::MAX,
                rx == rx_sum(self@.take(i as int)),
                tx == tx_sum(self@.take(i as int)),
            decreases self.entries.len() - i,
        {
            assert(self@.take(i + 1).drop_last() =~= self@.take(i as int));
            assert(self@[i as int].1 == self.entries@[i as int].1);
            proof {
                lemma_sums_prefix(self@, i + 1);
            }
            rx = rx + self.entries[i].1.0;
            tx = tx + self.entries[i].1.1;
            i += 1;
        }
        assert(self@.take(self.entries.len() as int) =~= self@);
        Some((rx, tx))
    }

    /// The changes since `before` of the interfaces that have one, in name
    /// order: new interfaces and counters that went back are left out.
    pub fn deltas(&self, before: &Counters) -> (r: Vec<(u64, u64)>)
        ensures
            r@ == deltas(self@, assoc(before@)),
    {
        let mut r: Vec<(u64, u64)> = Vec::new();
        let mut i: usize = 0;
        while i < self.entries.len()
            invariant
                i <= self.entries.len(),
                r@ == deltas(self@.take(i as int), assoc(before@)),
            decreases self.entries.len() - i,
        {
            assert(self@.take(i + 1).drop_last() =~= self@.take(i as int));
            assert(self@[i as int] == (self.entries@[i as int].0@, self.entries@[i as int].1));
            let (rx, tx) = self.entries[i].1;
            match before.get_chars(&self.entries[i].0) {
                Some((orx, otx)) => {
                    if rx >= orx && tx >= otx {
                        r.push((rx - orx, tx - otx));
                    }
                },
                None => {},
            }
            i += 1;
        }
        assert(self@.take(self.entries.len() as int) =~= self@);
        r
    }
}

proof fn lemma_sums_prefix(s: Seq<(Seq<char>, (u64, u64))>, k: int)
    requires
        0 <= k <= s.len(),
    ensures
        rx_sum(s.take(k)) <= rx_sum(s),
        tx_sum(s.take(k)) <= tx_sum(s),
    decreases s.len() - k,
{
    if k < s.len() {
        assert(s.take(k + 1).drop_last() =~= s.take(k));
        lemma_sums_prefix(s, k + 1);
    } else {
        assert(s.take(k) =~= s);
    }
}

/// The counters of a `/proc/net/dev` line: the interface name before the
/// first `:` (trimmed), received bytes in the first field and transmitted
/// bytes in the ninth; only for the interfaces in `physical`.
pub open spec fn net_entry(line: Seq<char>, physical: Set<Seq<char>>) -> Option<(Seq<char>, (u64, u64))> {
    match split_once(line, ':') {
        Some((name, fields)) => {
            let n = trim(name);
            let f = words(fields);
            if !physical.contains(n) || f.len() <= 8 {
                None
            } else {
                match (parse_u64(f[0]), parse_u64(f[8])) {
                    (Some(rx), Some(tx)) => Some((n, (rx, tx))),
                    _ => None,
                }
            }
        },
        None => None,
    }
}

/// The entries of the lines, in order.
pub open spec fn net_entries(ls: Seq<Seq<char>>, physical: Set<Seq<char>>) -> Seq<(Seq<char>, (u64, u64))>
    decreases ls.len(),
{
    if ls.len() == 0 {
        Seq::<(Seq<char>, (u64, u64))>::empty()
    } else {
        let p = net_entries(ls.drop_last(), physical);
        match net_entry(ls.last(), physical) {
            Some(e) => p.push(e),
            None => p,
        }
    }
}

/// The counters of `/proc/net/dev` by interface, a later line replacing an
/// earlier.
pub open spec fn network_map(input: Seq<char>, physical: Set<Seq<char>>) -> Map<Seq<char>, (u64, u64)> {
    assoc(net_entries(lines(input), physical))
}

/// The set of names held by `v`.
pub open spec fn name_set(v: Seq<String>) -> Set<Seq<char>> {
    v.map_values(|s: String| s@).to_set()
}

fn is_listed(names: &Vec<Vec<char>>, n: &Vec<char>) -> (r: bool)
    ensures
        r == views(names@).contains(n@),
{
    let mut i: usize = 0;
    while i < names.len()
        invariant
            i <= names.len(),
            forall|j: int| 0 <= j < i ==> #[trigger] views(names@)[j] != n@,
        decreases names.len() - i,
    {
        if same(&names[i], n) {
            assert(views(names@)[i as int] == n@);
            return true;
        }
        i += 1;
    }
    false
}

fn net_line(line: &Vec<char>, physical: &Vec<Vec<char>>) -> (r: Option<(Vec<char>, (u64, u64))>)
    ensures
        match r {
            Some(e) => net_entry(line@, views(physical@).to_set()) == Some((e.0@, e.1)),
            None => net_entry(line@, views(physical@).to_set()) is None,
        },
{
    match split_once_vec(line, ':') {
        Some((name, fields)) => {
            let n = trim_vec(&name);
            let f = words_of(&fields);
            if !is_listed(physical, &n) || f.len() <= 8 {
                return None;
            }
            assert(f@[0]@ == words(fields@)[0]);
            assert(f@[8]@ == words(fields@)[8]);
            match (parse_u64_vec(&f[0]), parse_u64_vec(&f[8])) {
                (Some(rx), Some(tx)) => Some((n, (rx, tx))),
                _ => None,
            }
        },
        None => None,
    }
}

/// The byte counters of `/proc/net/dev`, for the interfaces named in
/// `physical` (loopback, bridges and virtual devices are left out by not
/// being listed there), by interface name.
pub fn network(input: &str, physical: &Vec<String>) -> (r: Counters)
    ensures
        sorted_keys(r@),
        assoc(r@) == network_map(input@, name_set(physical@)),
{
    let mut names: Vec<Vec<char>> = Vec::new();
    let mut i: usize = 0;
    while i < physical.len()
        invariant
            i <= physical.len(),
            views(names@) == physical@.map_values(|s: String| s@).take(i as int),
        decreases physical.len() - i,
    {
        let n = chars_of(physical[i].as_str());
        assert(n@ == physical@[i as int]@);
        let ghost prev = names@;
        names.push(n);
        assert(views(names@) =~= views(prev).push(physical@[i as int]@));
        assert(physical@.map_values(|s: String| s@).take(i + 1) =~= physical@.map_values(|s: String| s@).take(i as int).push(physical@[i as int]@));
        assert(views(names@) =~= physical@.map_values(|s: String| s@).take(i + 1));
        i += 1;
    }
    assert(views(names@) =~= physical@.map_values(|s: String| s@));
    let chars = chars_of(input);
    let ls = lines_of(&chars);
    let ghost l = lines(input@);
    let ghost set = name_set(physical@);
    let mut r = Counters::new();
    let mut j: usize = 0;
    while j < ls.len()
        invariant
            j <= ls.len(),
            views(ls@) == l,
            views(names@).to_set() == set,
            assoc(r@) == assoc(net_entries(l.take(j as int), set)),
        decreases ls.len() - j,
    {
        assert(l.take(j + 1).drop_last() =~= l.take(j as int));
        assert(ls@[j as int]@ == l.take(j + 1).last());
        let ghost before = r@;
        match net_line(&ls[j], &names) {
            Some((name, value)) => {
                assert(net_entries(l.take(j + 1), set) == net_entries(l.take(j as int), set).push((name@, value)));
                assert(net_entries(l.take(j as int), set).push((name@, value)).drop_last() =~= net_entries(l.take(j as int), set));
                r.insert_chars(name, value);
                assert(assoc(net_entries(l.take(j + 1), set)) == assoc(net_entries(l.take(j as int), set)).insert(name@, value));
            },
            None => {
                assert(net_entries(l.take(j + 1), set) == net_entries(l.take(j as int), set));
            },
        }
        j += 1;
    }
    assert(l.take(ls.len() as int) =~= l);
    proof {
        use_type_invariant(&r);
    }
    r
}


// ---------------------------------------------------------------------------
// Cores, firmware flags and the system description
// ---------------------------------------------------------------------------

/// Whether a `/proc/stat` line is that of one processor: `cpu` and a digit.
pub open spec fn is_core_line(l: Seq<char>) -> bool {
    starts_with(l, "cpu"@) && l.len() > "cpu"@.len() && is_digit(l["cpu"@.len() as int])
}

/// The number of processor lines.
pub open spec fn core_count(ls: Seq<Seq<char>>) -> nat
    decreases ls.len(),
{
    if ls.len() == 0 {
        0
    } else {
        core_count(ls.drop_last()) + if is_core_line(ls.last()) {
            1nat
        } else {
            0nat
        }
    }
}

proof fn lemma_core_count_bound(ls: Seq<Seq<char>>)
    ensures
        core_count(ls) <= ls.len(),
    decreases ls.len(),
{
    if ls.len() > 0 {
        lemma_core_count_bound(ls.drop_last());
    }
}

/// The number of processors listed in `/proc/stat`.
pub fn cores(stat: &str) -> (n: usize)
    ensures
        n == core_count(lines(stat@)),
{
    let chars = chars_of(stat);
    let ls = lines_of(&chars);
    let ghost l = lines(stat@);
    let label = chars_of("cpu");
    let mut n: usize = 0;
    let mut j: usize = 0;
    while j < ls.len()
        invariant
            j <= ls.len(),
            views(ls@) == l,
            label@ == "cpu"@,
            n == core_count(l.take(j as int)),
        decreases ls.len() - j,
    {
        assert(l.take(j + 1).drop_last() =~= l.take(j as int));
        assert(ls@[j as int]@ == l.take(j + 1).last());
        proof {
            lemma_core_count_bound(l.take(j as int));
        }
        let line = &ls[j];
        if starts_with_vec(line, &label) && line.len() > label.len() && '0' <= line[label.len()]
            && line[label.len()] <= '9' {
            n = n + 1;
        }
        j += 1;
    }
    assert(l.take(ls.len() as int) =~= l);
    n
}

/// Whether every character is an ASCII digit: the name of a process's
/// directory under `/proc`.
pub open spec fn all_digits(s: Seq<char>) -> bool {
    forall|i: int| 0 <= i < s.len() ==> is_digit(#[trigger] s[i])
}

/// The number of names that are process numbers.
pub open spec fn process_count(names: Seq<Seq<char>>) -> nat
    decreases names.len(),
{
    if names.len() == 0 {
        0
    } else {
        process_count(names.drop_last()) + if all_digits(names.last()) {
            1nat
        } else {
            0nat
        }
    }
}

proof fn lemma_process_count_bound(names: Seq<Seq<char>>)
    ensures
        process_count(names) <= names.len(),
    decreases names.len(),
{
    if names.len() > 0 {
        lemma_process_count_bound(names.drop_last());
    }
}

/// Whether a name is made of ASCII digits only.
pub fn is_number_name(name: &str) -> (r: bool)
    ensures
        r == all_digits(name@),
{
    let chars = chars_of(name);
    let mut i: usize = 0;
    while i < chars.len()
        invariant
            i <= chars.len(),
            chars@ == name@,
            forall|k: int| 0 <= k < i ==> is_digit(#[trigger] chars@[k]),
        decreases chars.len() - i,
    {
        if !('0' <= chars[i] && chars[i] <= '9') {
            return false;
        }
        i += 1;
    }
    true
}

/// The number of processes, from the names of the entries of `/proc`.
pub fn processes(names: &Vec<String>) -> (n: usize)
    ensures
        n == process_count(names@.map_values(|s: String| s@)),
{
    let ghost all = names@.map_values(|s: String| s@);
    let mut n: usize = 0;
    let mut j: usize = 0;
    while j < names.len()
        invariant
            j <= names.len(),
            all == names@.map_values(|s: String| s@),
            n == process_count(all.take(j as int)),
        decreases names.len() - j,
    {
        assert(all.take(j + 1).drop_last() =~= all.take(j as int));
        assert(all.take(j + 1).last() == names@[j as int]@);
        proof {
            lemma_process_count_bound(all.take(j as int));
        }
        if is_number_name(names[j].as_str()) {
            n = n + 1;
        }
        j += 1;
    }
    assert(all.take(names.len() as int) =~= all);
    n
}

/// The throttling flags of `vcgencmd get_throttled` output,
/// `throttled=0x` followed by hexadecimal digits.
pub open spec fn throttled_from(output: Seq<char>) -> Option<u32> {
    let p = "throttled=0x"@;
    if starts_with(output, p) {
        match parse_uint(output.skip(p.len() as int), 16, u32::MAX as nat) {
            Some(v) => Some(v as u32),
            None => None,
        }
    } else {
        None
    }
}

/// The throttling flags reported by the firmware.
pub fn throttled(output: &str) -> (r: Option<u32>)
    ensures
        r == throttled_from(output@),
{
    let chars = chars_of(output);
    let p = chars_of("throttled=0x");
    if !starts_with_vec(&chars, &p) {
        return None;
    }
    let digits = crate::text::slice_vec(&chars, p.len(), chars.len());
    assert(digits@ =~= output@.skip(p@.len() as int));
    match parse_uint_vec(&digits, 16, u32::MAX as u64) {
        Some(v) => Some(v as u32),
        None => None,
    }
}

/// `s` without leading double quotes.
pub open spec fn strip_quotes_start(s: Seq<char>) -> Seq<char>
    decreases s.len(),
{
    if s.len() > 0 && s[0] == '"' {
        strip_quotes_start(s.skip(1))
    } else {
        s
    }
}

/// `s` without trailing double quotes.
pub open spec fn strip_quotes_end(s: Seq<char>) -> Seq<char>
    decreases s.len(),
{
    if s.len() > 0 && s.last() == '"' {
        strip_quotes_end(s.drop_last())
    } else {
        s
    }
}

/// The operating system's name from `/etc/os-release`: the value of the
/// first `PRETTY_NAME=` line without the double quotes around it.
pub open spec fn pretty_name(text: Seq<char>) -> Option<Seq<char>> {
    match first_with_prefix(lines(text), "PRETTY_NAME="@) {
        Some(l) => Some(strip_quotes_end(strip_quotes_start(l.skip("PRETTY_NAME="@.len() as int)))),
        None => None,
    }
}

proof fn lemma_strip_start(s: Seq<char>, k: int)
    requires
        0 <= k <= s.len(),
        forall|j: int| 0 <= j < k ==> #[trigger] s[j] == '"',
    ensures
        strip_quotes_start(s) == strip_quotes_start(s.skip(k)),
    decreases k,
{
    if k > 0 {
        assert(s.skip(1).skip(k - 1) =~= s.skip(k));
        lemma_strip_start(s.skip(1), k - 1);
    } else {
        assert(s.skip(0) =~= s);
    }
}

proof fn lemma_strip_end(s: Seq<char>, k: int)
    requires
        0 <= k <= s.len(),
        forall|j: int| k <= j < s.len() ==> #[trigger] s[j] == '"',
    ensures
        strip_quotes_end(s) == strip_quotes_end(s.take(k)),
    decreases s.len() - k,
{
    if k < s.len() {
        assert(s.drop_last().take(k) =~= s.take(k));
        lemma_strip_end(s.drop_last(), k);
    } else {
        assert(s.take(k) =~= s);
    }
}

fn strip_quotes(s: &Vec<char>) -> (out: Vec<char>)
    ensures
        out@ == strip_quotes_end(strip_quotes_start(s@)),
{
    let mut a: usize = 0;
    while a < s.len() && s[a] == '"'
        invariant
            a <= s.len(),
            forall|j: int| 0 <= j < a ==> #[trigger] s@[j] == '"',
        decreases s.len() - a,
    {
        a += 1;
    }
    proof {
        lemma_strip_start(s@, a as int);
    }
    let ghost t = s@.skip(a as int);
    assert(strip_quotes_start(t) == t);
    let mut b: usize = s.len();
    while b > a && s[b - 1] == '"'
        invariant
            a <= b <= s.len(),
            forall|j: int| b <= j < s.len() ==> #[trigger] s@[j] == '"',
        decreases b,
    {
        b -= 1;
    }
    proof {
        assert forall|j: int| (b - a) <= j < t.len() implies #[trigger] t[j] == '"' by {
            assert(t[j] == s@[a + j]);
        }
        lemma_strip_end(t, b - a);
        assert(t.take(b - a) =~= s@.subrange(a as int, b as int));
    }
    crate::text::slice_vec(s, a, b)
}

/// The operating system's name from the text of `/etc/os-release`.
pub fn os_name(text: &str) -> (r: Option<String>)
    ensures
        match r {
            Some(n) => pretty_name(text@) == Some(n@),
            None => pretty_name(text@) is None,
        },
{
    let chars = chars_of(text);
    let ls = lines_of(&chars);
    let p = chars_of("PRETTY_NAME=");
    match first_line_with(&ls, &p) {
        Some(l) => {
            proof {
                lemma_first_with_prefix(views(ls@), p@);
            }
            let value = crate::text::slice_vec(&l, p.len(), l.len());
            assert(value@ =~= l@.skip(p@.len() as int));
            Some(string_of(&strip_quotes(&value)))
        },
        None => None,
    }
}

/// A rendered JSON string for a present text, `null` for an absent one.
pub open spec fn quoted_or_null(s: Option<Seq<char>>) -> Seq<char> {
    match s {
        Some(t) => quoted(t),
        None => number_text(None),
    }
}

/// The description of the machine: board model, operating system (its
/// pretty name, or `os` when `/etc/os-release` has none), kernel release
/// and architecture.
pub open spec fn system_text(
    model: Option<Seq<char>>,
    os_release: Option<Seq<char>>,
    kernel: Option<Seq<char>>,
    os: Seq<char>,
    architecture: Seq<char>,
) -> Seq<char> {
    let name = match os_release {
        Some(t) => pretty_name(t),
        None => None,
    };
    object_text(
        seq![
            ("model"@, quoted_or_null(model)),
            ("os"@, match name {
                Some(n) => quoted(n),
                None => quoted(os),
            }),
            ("kernel"@, quoted_or_null(kernel)),
            ("architecture"@, quoted(architecture)),
        ],
    )
}

fn quote_or_null(s: Option<&str>) -> (r: String)
    ensures
        r@ == quoted_or_null(match s {
            Some(t) => Some(t@),
            None => None,
        }),
{
    match s {
        Some(t) => quote(t),
        None => crate::util::number(None),
    }
}

// ---------------------------------------------------------------------------
// The collector
// ---------------------------------------------------------------------------

/// The integer readings of one sampling round; the caller adds the
/// fractional ones (rates, percentages, temperatures).
pub struct Readings {
    /// Busy and whole processor time since the previous round.
    pub cpu: Option<(u64, u64)>,
    /// The number of processors.
    pub cores: usize,
    /// The byte counters of the physical interfaces.
    pub network: Counters,
    /// The changes of those counters since the previous round.
    pub deltas: Vec<(u64, u64)>,
    /// The root file system, from the last slow round.
    pub disk: Option<Disk>,
    /// The firmware's throttling flags, from the last slow round.
    pub throttled: Option<u32>,
}

/// What one sampling round keeps for the next: the machine's description,
/// the previous processor time and network counters, and the readings that
/// are taken less often.
pub struct Collector {
    pub system: String,
    previous_cpu: Option<Cpu>,
    previous_network: Counters,
    disk: Option<Disk>,
    throttled: Option<u32>,
}

impl Collector {
    /// The machine's description.
    pub closed spec fn description(&self) -> Seq<char> {
        self.system@
    }

    /// The machine's description as JSON, which `description` specifies.
    pub fn system(&self) -> (s: &String)
        ensures
            s@ == self.description(),
    {
        &self.system
    }

    /// The processor time of the previous round.
    pub closed spec fn last_cpu(&self) -> Option<Cpu> {
        self.previous_cpu
    }

    /// The network counters of the previous round.
    pub closed spec fn last_network(&self) -> Seq<(Seq<char>, (u64, u64))> {
        self.previous_network@
    }

    /// The root file system of the last slow round.
    pub closed spec fn last_disk(&self) -> Option<Disk> {
        self.disk
    }

    /// The throttling flags of the last slow round.
    pub closed spec fn last_throttled(&self) -> Option<u32> {
        self.throttled
    }

    /// A collector with no previous readings, describing the machine from
    /// the board model, `/etc/os-release`, the kernel release, and the names
    /// of the operating system and the architecture.
    pub fn new(
        model: Option<&str>,
        os_release: Option<&str>,
        kernel: Option<&str>,
        os: &str,
        architecture: &str,
    ) -> (r: Collector)
        ensures
            r.description() == system_text(
                match model {
                    Some(t) => Some(t@),
                    None => None,
                },
                match os_release {
                    Some(t) => Some(t@),
                    None => None,
                },
                match kernel {
                    Some(t) => Some(t@),
                    None => None,
                },
                os@,
                architecture@,
            ),
            r.last_cpu() is None,
            r.last_network().len() == 0,
            r.last_disk() is None,
            r.last_throttled() is None,
    {
        let name = match os_release {
            Some(t) => os_name(t),
            None => None,
        };
        let os_text = match &name {
            Some(n) => quote(n.as_str()),
            None => quote(os),
        };
        let ghost mv = match model {
            Some(t) => Some(t@),
            None => None,
        };
        let ghost ov = match os_release {
            Some(t) => Some(t@),
            None => None,
        };
        let ghost kv = match kernel {
            Some(t) => Some(t@),
            None => None,
        };
        let ghost nm = match ov {
            Some(t) => pretty_name(t),
            None => None,
        };
        assert(os_text@ == match nm {
            Some(n) => quoted(n),
            None => quoted(os@),
        });
        let model_text = quote_or_null(model);
        let kernel_text = quote_or_null(kernel);
        let arch_text = quote(architecture);
        let ghost expected = seq![
            ("model"@, quoted_or_null(mv)),
            ("os"@, os_text@),
            ("kernel"@, quoted_or_null(kv)),
            ("architecture"@, quoted(architecture@)),
        ];
        let fields = [
            ("model", model_text),
            ("os", os_text),
            ("kernel", kernel_text),
            ("architecture", arch_text),
        ];
        let system = object(&fields);
        assert(fields@.map_values(|f: (&str, String)| (f.0@, f.1@)) =~= expected);
        assert(system@ == object_text(expected));
        assert(expected =~= seq![
            ("model"@, quoted_or_null(mv)),
            ("os"@, match nm {
                Some(n) => quoted(n),
                None => quoted(os@),
            }),
            ("kernel"@, quoted_or_null(kv)),
            ("architecture"@, quoted(architecture@)),
        ]);
        assert(system@ == system_text(mv, ov, kv, os@, architecture@));
        Collector {
            system,
            previous_cpu: None,
            previous_network: Counters::new(),
            disk: None,
            throttled: None,
        }
    }

    /// Takes the readings that are refreshed less often: the output of
    /// `df -Pk /` and of `vcgencmd get_throttled`, when the commands ran.
    pub fn refresh(&mut self, df: Option<&str>, vcgencmd: Option<&str>)
        ensures
            final(self).last_disk() == match df {
                Some(t) => disk_from(t@),
                None => None,
            },
            final(self).last_throttled() == match vcgencmd {
                Some(t) => throttled_from(t@),
                None => None,
            },
            final(self).description() == old(self).description(),
            final(self).last_cpu() == old(self).last_cpu(),
            final(self).last_network() == old(self).last_network(),
    {
        self.disk = match df {
            Some(t) => Disk::parse(t),
            None => None,
        };
        self.throttled = match vcgencmd {
            Some(t) => throttled(t),
            None => None,
        };
    }

    /// One sampling round from the text of `/proc/stat` and of
    /// `/proc/net/dev` (when they could be read) and the names of the
    /// physical network interfaces: processor time since the previous round,
    /// processor count, counters and their changes; the round's processor
    /// time and counters are kept for the next.
    pub fn collect(&mut self, stat: Option<&str>, net_dev: Option<&str>, physical: &Vec<String>) -> (r: Readings)
        requires
            stat matches Some(t) ==> cpu_fits(t@),
        ensures
            r.cpu == match (
                match stat {
                    Some(t) => cpu_from(t@),
                    None => None,
                },
                old(self).last_cpu(),
            ) {
                (Some(now), Some(before)) => usage_of(now, before),
                _ => None,
            },
            r.cores == match stat {
                Some(t) => core_count(lines(t@)),
                None => 0,
            },
            sorted_keys(r.network@),
            assoc(r.network@) == match net_dev {
                Some(t) => network_map(t@, name_set(physical@)),
                None => Map::<Seq<char>, (u64, u64)>::empty(),
            },
            r.deltas@ == deltas(r.network@, assoc(old(self).last_network())),
            r.disk == old(self).last_disk(),
            r.throttled == old(self).last_throttled(),
            final(self).last_cpu() == match stat {
                Some(t) => cpu_from(t@),
                None => None,
            },
            final(self).last_network() == r.network@,
            final(self).description() == old(self).description(),
            final(self).last_disk() == old(self).last_disk(),
            final(self).last_throttled() == old(self).last_throttled(),
    {
        let cpu = match stat {
            Some(t) => Cpu::parse(t),
            None => None,
        };
        let network = match net_dev {
            Some(t) => network(t, physical),
            None => {
                let c = Counters::new();
                assert(assoc(c@) =~= Map::<Seq<char>, (u64, u64)>::empty());
                c
            },
        };
        let deltas = network.deltas(&self.previous_network);
        let usage = match (cpu, self.previous_cpu) {
            (Some(now), Some(before)) => now.usage(before),
            _ => None,
        };
        let cores = match stat {
            Some(t) => cores(t),
            None => 0,
        };
        proof {
            use_type_invariant(&network);
        }
        let kept = network.duplicate();
        self.previous_cpu = cpu;
        self.previous_network = kept;
        Readings { cpu: usage, cores, network, deltas, disk: self.disk, throttled: self.throttled }
    }
}


// ---------------------------------------------------------------------------
// The readings of a round as JSON
// ---------------------------------------------------------------------------

/// The views of optional rendered items.
pub open spec fn texts_view(value: Option<&Vec<String>>) -> Option<Seq<Seq<char>>> {
    match value {
        Some(v) => Some(texts(v@)),
        None => None,
    }
}

/// The flags as an optional number.
pub open spec fn flags_number(value: Option<u32>) -> Option<u64> {
    match value {
        Some(v) => Some(v as u64),
        None => None,
    }
}

/// The JSON document of a round's readings, from the integer readings and
/// the already rendered fractional ones (and the rendered memory and disk
/// objects); every reading that is unavailable is `null`, never made up.
pub open spec fn metrics_document(
    timestamp: u64,
    uptime: Option<Seq<char>>,
    cpu: Option<Seq<char>>,
    cores: usize,
    memory: Option<Seq<char>>,
    temperature: Option<Seq<char>>,
    frequency: Option<Seq<char>>,
    disk: Option<Seq<char>>,
    load: Option<Seq<Seq<char>>>,
    processes: Option<u64>,
    interfaces: Seq<Seq<char>>,
    received: Option<u64>,
    sent: Option<u64>,
    rx: Option<Seq<char>>,
    tx: Option<Seq<char>>,
    throttled: Option<u64>,
) -> Seq<char> {
    object_text(
        seq![
            ("timestamp"@, decimal(timestamp as nat)),
            ("uptime"@, text_or_null(uptime)),
            ("cpu"@, text_or_null(cpu)),
            ("cores"@, decimal(cores as nat)),
            ("memory"@, text_or_null(memory)),
            ("temperature"@, text_or_null(temperature)),
            ("frequency"@, text_or_null(frequency)),
            ("disk"@, text_or_null(disk)),
            ("load"@, match load {
                Some(l) => list_text(l),
                None => "null"@,
            }),
            ("processes"@, number_text(processes)),
            ("interfaces"@, list_text(quoted_all(interfaces))),
            ("received"@, number_text(received)),
            ("sent"@, number_text(sent)),
            ("rx"@, text_or_null(rx)),
            ("tx"@, text_or_null(tx)),
            ("throttled"@, number_text(throttled)),
        ],
    )
}

proof fn lemma_metrics_document(
    timestamp: u64,
    uptime: Option<Seq<char>>,
    cpu: Option<Seq<char>>,
    cores: usize,
    memory: Option<Seq<char>>,
    temperature: Option<Seq<char>>,
    frequency: Option<Seq<char>>,
    disk: Option<Seq<char>>,
    load: Option<Seq<Seq<char>>>,
    processes: Option<u64>,
    interfaces: Seq<Seq<char>>,
    received: Option<u64>,
    sent: Option<u64>,
    rx: Option<Seq<char>>,
    tx: Option<Seq<char>>,
    throttled: Option<u64>,
    fields: Seq<(Seq<char>, Seq<char>)>,
)
    requires
        fields =~= seq![
            ("timestamp"@, decimal(timestamp as nat)),
            ("uptime"@, text_or_null(uptime)),
            ("cpu"@, text_or_null(cpu)),
            ("cores"@, decimal(cores as nat)),
            ("memory"@, text_or_null(memory)),
            ("temperature"@, text_or_null(temperature)),
            ("frequency"@, text_or_null(frequency)),
            ("disk"@, text_or_null(disk)),
            ("load"@, match load {
                Some(l) => list_text(l),
                None => "null"@,
            }),
            ("processes"@, number_text(processes)),
            ("interfaces"@, list_text(quoted_all(interfaces))),
            ("received"@, number_text(received)),
            ("sent"@, number_text(sent)),
            ("rx"@, text_or_null(rx)),
            ("tx"@, text_or_null(tx)),
            ("throttled"@, number_text(throttled)),
        ],
    ensures
        object_text(fields) == metrics_document(
            timestamp,
            uptime,
            cpu,
            cores,
            memory,
            temperature,
            frequency,
            disk,
            load,
            processes,
            interfaces,
            received,
            sent,
            rx,
            tx,
            throttled,
        ),
{
}

/// The readings of a round as JSON: the integer readings, the fractional
/// ones already rendered by the caller (uptime, CPU percentage,
/// temperature, frequency, load averages, rates), the rendered memory and
/// disk objects, and the names of the interfaces; `null` for each reading
/// that is unavailable.
pub fn metrics_json(
    timestamp: u64,
    uptime: Option<&str>,
    cpu: Option<&str>,
    cores: usize,
    memory: Option<&str>,
    temperature: Option<&str>,
    frequency: Option<&str>,
    disk: Option<&str>,
    load: Option<&Vec<String>>,
    processes: Option<u64>,
    interfaces: &Vec<String>,
    received: Option<u64>,
    sent: Option<u64>,
    rx: Option<&str>,
    tx: Option<&str>,
    throttled: Option<u32>,
) -> (s: String)
    ensures
        s@ == metrics_document(
            timestamp,
            text_view(uptime),
            text_view(cpu),
            cores,
            text_view(memory),
            text_view(temperature),
            text_view(frequency),
            text_view(disk),
            texts_view(load),
            processes,
            texts(interfaces@),
            received,
            sent,
            text_view(rx),
            text_view(tx),
            flags_number(throttled),
        ),
{
    let load_text = match load {
        Some(l) => list(l),
        None => or_null(None),
    };
    let flags = match throttled {
        Some(v) => Some(v as u64),
        None => None,
    };
    let fields = [
        ("timestamp", number(Some(timestamp))),
        ("uptime", or_null(uptime)),
        ("cpu", or_null(cpu)),
        ("cores", number(Some(cores as u64))),
        ("memory", or_null(memory)),
        ("temperature", or_null(temperature)),
        ("frequency", or_null(frequency)),
        ("disk", or_null(disk)),
        ("load", load_text),
        ("processes", number(processes)),
        ("interfaces", quoted_list(interfaces)),
        ("received", number(received)),
        ("sent", number(sent)),
        ("rx", or_null(rx)),
        ("tx", or_null(tx)),
        ("throttled", number(flags)),
    ];
    proof {
        reveal_strlit("null");
    }
    assert(load_text@ == match texts_view(load) {
        Some(l) => list_text(l),
        None => "null"@,
    });
    let ghost fv = fields@.map_values(|f: (&str, String)| (f.0@, f.1@));
    assert(fv.len() == 16);
    assert(fv[8] == ("load"@, load_text@));
    let s = object(&fields);
    proof {
        lemma_metrics_document(
            timestamp,
            text_view(uptime),
            text_view(cpu),
            cores,
            text_view(memory),
            text_view(temperature),
            text_view(frequency),
            text_view(disk),
            texts_view(load),
            processes,
            texts(interfaces@),
            received,
            sent,
            text_view(rx),
            text_view(tx),
            flags_number(throttled),
            fv,
        );
    }
    s
}


// ---------------------------------------------------------------------------
// Laws
// ---------------------------------------------------------------------------

/// The busy share is a share: when a usage exists, time passed and the busy
/// part is at most the whole, so the percentage lies between 0 and 100; and
/// a reading compared with itself gives none.
pub proof fn lemma_usage_is_share(now: Cpu, before: Cpu)
    ensures
        usage_of(now, before) matches Some((busy, whole)) ==> whole > 0 && busy <= whole,
        usage_of(now, now) is None,
        now.total < before.total ==> usage_of(now, before) is None,
{
}

/// Available memory never exceeds the installed memory, which is not zero.
pub proof fn lemma_memory_bounded(input: Seq<char>)
    ensures
        memory_from(input) matches Some(m) ==> m.total > 0 && m.available <= m.total,
{
}

/// Counters compared with themselves change by nothing: every interface
/// gives a zero change.
#[verifier::spinoff_prover]
pub proof fn lemma_deltas_of_same(c: Seq<(Seq<char>, (u64, u64))>)
    requires
        sorted_keys(c),
    ensures
        deltas(c, assoc(c)).len() == c.len(),
        forall|i: int| 0 <= i < c.len() ==> #[trigger] deltas(c, assoc(c))[i] == (0u64, 0u64),
{
    lemma_sorted_assoc(c);
    lemma_deltas_zero(c, c.len() as int);
    assert(c.take(c.len() as int) =~= c);
}

/// A new baseline gives no change: when every interface is new or has a
/// counter that went back, no interface contributes a change (so no rate can
/// be derived from the round).
pub proof fn lemma_deltas_of_reset(cur: Seq<(Seq<char>, (u64, u64))>, before: Map<Seq<char>, (u64, u64)>)
    requires
        forall|i: int|
            0 <= i < cur.len() && before.contains_key(#[trigger] cur[i].0) ==> cur[i].1.0 < before[cur[i].0].0
                || cur[i].1.1 < before[cur[i].0].1,
    ensures
        deltas(cur, before).len() == 0,
    decreases cur.len(),
{
    if cur.len() > 0 {
        let last = cur.len() - 1;
        assert(cur.last() == cur[last]);
        assert forall|i: int|
            0 <= i < cur.drop_last().len() && before.contains_key(
                #[trigger] cur.drop_last()[i].0,
            ) implies cur.drop_last()[i].1.0 < before[cur.drop_last()[i].0].0
            || cur.drop_last()[i].1.1 < before[cur.drop_last()[i].0].1 by {
            assert(cur.drop_last()[i] == cur[i]);
        }
        lemma_deltas_of_reset(cur.drop_last(), before);
    }
}

proof fn lemma_deltas_zero(c: Seq<(Seq<char>, (u64, u64))>, n: int)
    requires
        0 <= n <= c.len(),
        forall|i: int|
            0 <= i < c.len() ==> #[trigger] assoc(c).contains_key(c[i].0) && assoc(c)[c[i].0]
                == c[i].1,
    ensures
        deltas(c.take(n), assoc(c)).len() == n,
        forall|i: int| 0 <= i < n ==> #[trigger] deltas(c.take(n), assoc(c))[i] == (0u64, 0u64),
    decreases n,
{
    if n > 0 {
        lemma_deltas_zero(c, n - 1);
        assert(c.take(n).drop_last() =~= c.take(n - 1));
        assert(c.take(n).last() == c[n - 1]);
        assert(assoc(c).contains_key(c[n - 1].0));
    }
}


/// The root file system of `df -Pk` output comes from its last line, in
/// 1024-byte blocks: the second column is the size, the third the space
/// used, the fourth the space available (without the reserved blocks); each
/// is the column's number times 1024, and there is a reading exactly when
/// the line has at least six columns, those three parse, the products fit,
/// and the size is not zero.
pub proof fn lemma_disk_columns(output: Seq<char>)
    ensures
        disk_from(output) is Some <==> lines(output).len() > 0 && words(lines(output).last()).len() >= 6
            && parse_u64(words(lines(output).last())[1]) is Some && parse_u64(
            words(lines(output).last())[2],
        ) is Some && parse_u64(words(lines(output).last())[3]) is Some && 0 < parse_u64(
            words(lines(output).last())[1],
        )->Some_0 * 1024 <= u64::MAX && parse_u64(words(lines(output).last())[2])->Some_0 * 1024
            <= u64::MAX && parse_u64(words(lines(output).last())[3])->Some_0 * 1024 <= u64::MAX,
        disk_from(output) matches Some(d) ==> d.total == parse_u64(words(lines(output).last())[1])->Some_0
            * 1024 && d.used == parse_u64(words(lines(output).last())[2])->Some_0 * 1024 && d.available
            == parse_u64(words(lines(output).last())[3])->Some_0 * 1024,
{
}

/// A round's document holds, in order: the second; the uptime and CPU
/// usage; the processor count; the memory object; the temperature and
/// frequency; the disk object; the load averages as an array; the process
/// count; the interface names as an array of strings; the bytes received
/// and sent; the receive and transmit rates; and the firmware flags. Each
/// reading that is not given is `null`.
pub proof fn lemma_metrics_members(
    timestamp: u64,
    uptime: Option<Seq<char>>,
    cpu: Option<Seq<char>>,
    cores: usize,
    memory: Option<Seq<char>>,
    temperature: Option<Seq<char>>,
    frequency: Option<Seq<char>>,
    disk: Option<Seq<char>>,
    load: Option<Seq<Seq<char>>>,
    processes: Option<u64>,
    interfaces: Seq<Seq<char>>,
    received: Option<u64>,
    sent: Option<u64>,
    rx: Option<Seq<char>>,
    tx: Option<Seq<char>>,
    throttled: Option<u64>,
)
    ensures
        metrics_document(timestamp, uptime, cpu, cores, memory, temperature, frequency, disk, load, processes, interfaces, received, sent, rx, tx, throttled) == seq!['{'] + member("timestamp"@, decimal(timestamp as nat)) + seq![','] + member("uptime"@, text_or_null(uptime)) + seq![','] + member("cpu"@, text_or_null(cpu)) + seq![','] + member("cores"@, decimal(cores as nat)) + seq![','] + member("memory"@, text_or_null(memory)) + seq![','] + member("temperature"@, text_or_null(temperature)) + seq![','] + member("frequency"@, text_or_null(frequency)) + seq![','] + member("disk"@, text_or_null(disk)) + seq![','] + member("load"@, match load { Some(l) => list_text(l), None => "null"@ }) + seq![','] + member("processes"@, number_text(processes)) + seq![','] + member("interfaces"@, list_text(quoted_all(interfaces))) + seq![','] + member("received"@, number_text(received)) + seq![','] + member("sent"@, number_text(sent)) + seq![','] + member("rx"@, text_or_null(rx)) + seq![','] + member("tx"@, text_or_null(tx)) + seq![','] + member("throttled"@, number_text(throttled)) + seq!['}'],
{
    let fields = seq![("timestamp"@, decimal(timestamp as nat)), ("uptime"@, text_or_null(uptime)), ("cpu"@, text_or_null(cpu)), ("cores"@, decimal(cores as nat)), ("memory"@, text_or_null(memory)), ("temperature"@, text_or_null(temperature)), ("frequency"@, text_or_null(frequency)), ("disk"@, text_or_null(disk)), ("load"@, match load { Some(l) => list_text(l), None => "null"@ }), ("processes"@, number_text(processes)), ("interfaces"@, list_text(quoted_all(interfaces))), ("received"@, number_text(received)), ("sent"@, number_text(sent)), ("rx"@, text_or_null(rx)), ("tx"@, text_or_null(tx)), ("throttled"@, number_text(throttled))];
    assert(metrics_document(timestamp, uptime, cpu, cores, memory, temperature, frequency, disk, load, processes, interfaces, received, sent, rx, tx, throttled) == object_text(fields));
    lemma_object16(fields);
}

/// Memory is read from the `MemTotal` and `MemAvailable` lines (reclaimable
/// cache counts as available), in bytes: there is a reading exactly when the
/// total is listed and not zero and the available amount is listed; the
/// available amount is at most the total; swap that is not listed is zero.
pub proof fn lemma_memory_fields(input: Seq<char>)
    ensures
        memory_from(input) is Some <==> meminfo(input).contains_key("MemTotal"@) && meminfo(input)["MemTotal"@]
            != 0 && meminfo(input).contains_key("MemAvailable"@),
        memory_from(input) matches Some(m) ==> m.total == meminfo(input)["MemTotal"@] && (m.available
            == meminfo(input)["MemAvailable"@] || (m.available == m.total && meminfo(
            input,
        )["MemAvailable"@] > m.total)) && m.available <= m.total && (meminfo(input).contains_key(
            "SwapTotal"@,
        ) ==> m.swap_total == meminfo(input)["SwapTotal"@]) && (!meminfo(input).contains_key(
            "SwapTotal"@,
        ) ==> m.swap_total == 0) && (meminfo(input).contains_key("SwapFree"@) ==> m.swap_free
            == meminfo(input)["SwapFree"@]) && (!meminfo(input).contains_key("SwapFree"@)
            ==> m.swap_free == 0),
{
}

/// The busy and whole processor time between two readings: the whole is
/// the growth of the total, the busy part is the whole less the growth of
/// idle time (none when idle time went back, at most the whole); there is a
/// share exactly when the total grew.
pub proof fn lemma_usage_parts(now: Cpu, before: Cpu)
    ensures
        usage_of(now, before) is Some <==> now.total > before.total,
        usage_of(now, before) matches Some((busy, whole)) ==> whole == now.total - before.total && (
        now.idle >= before.idle && now.idle - before.idle <= whole ==> busy == whole - (now.idle
            - before.idle)) && (now.idle >= before.idle && now.idle - before.idle > whole ==> busy == 0)
            && (now.idle < before.idle ==> busy == whole),
{
}
} // verus!
