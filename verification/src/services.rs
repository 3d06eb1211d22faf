//! The state and port of each configured service, from the service manager's
//! property listing and the socket table of listening TCP sockets.

use vstd::prelude::*;
use std::collections::BTreeSet;
use crate::text::{
    assoc, find_last_key, lemma_assoc_hit, lemma_assoc_miss,
    after_last, chars_of, contains, contains_vec, decimal, lines, lines_of, parse_u16,
    parse_u16_vec, parse_u32, parse_u32_vec, push_char, push_chars, push_decimal, same,
    split_once, split_once_vec, string_of, views, words, words_of, after_last_vec,
};
use crate::util::{join, lemma_object4, member, object, object_text, quote, quoted};

verus! {

broadcast use vstd::laws_cmp::group_laws_cmp;

// ---------------------------------------------------------------------------
// Associations
// ---------------------------------------------------------------------------

/// The views of key-value pairs of character vectors.
pub open spec fn pair_views(p: Seq<(Vec<char>, Vec<char>)>) -> Seq<(Seq<char>, Seq<char>)> {
    p.map_values(|e: (Vec<char>, Vec<char>)| (e.0@, e.1@))
}

/// What `key` maps to among the pairs, a later pair replacing an earlier.
fn pairs_get(pairs: &Vec<(Vec<char>, Vec<char>)>, key: &Vec<char>) -> (r: Option<Vec<char>>)
    ensures
        match r {
            Some(v) => assoc(pair_views(pairs@)).contains_key(key@) && assoc(
                pair_views(pairs@),
            )[key@] == v@,
            None => !assoc(pair_views(pairs@)).contains_key(key@),
        },
{
    match find_last_key(pairs, key) {
        Some(i) => {
            assert(pair_views(pairs@)[i as int].0 == pairs@[i as int].0@);
            proof {
                lemma_assoc_hit(pair_views(pairs@), i as int, key@);
            }
            Some(pairs[i].1.clone())
        },
        None => {
            proof {
                assert forall|j: int| 0 <= j < pairs.len() implies #[trigger] pair_views(pairs@)[j].0 != key@ by {
                    assert(pair_views(pairs@)[j].0 == pairs@[j].0@);
                }
                lemma_assoc_miss(pair_views(pairs@), key@);
            }
            None
        },
    }
}

// ---------------------------------------------------------------------------
// Unit properties
// ---------------------------------------------------------------------------

/// `str::split("\n\n")`: the pieces between non-overlapping pairs of line
/// feeds, matched from the left.
pub open spec fn split_blank(s: Seq<char>) -> Seq<Seq<char>>
    decreases s.len(),
{
    if s.len() == 0 {
        seq![Seq::<char>::empty()]
    } else {
        let p = split_blank(s.drop_last());
        let c = s.last();
        if c == '\n' && p.last().len() > 0 && p.last().last() == '\n' {
            p.update(p.len() - 1, p.last().drop_last()).push(Seq::<char>::empty())
        } else {
            p.update(p.len() - 1, p.last().push(c))
        }
    }
}

proof fn lemma_split_blank_nonempty(s: Seq<char>)
    ensures
        split_blank(s).len() >= 1,
    decreases s.len(),
{
    if s.len() > 0 {
        lemma_split_blank_nonempty(s.drop_last());
    }
}

/// The `key=value` pairs of the lines of one block, in order; a line
/// without `=` gives none.
pub open spec fn line_pairs(ls: Seq<Seq<char>>) -> Seq<(Seq<char>, Seq<char>)>
    decreases ls.len(),
{
    if ls.len() == 0 {
        Seq::<(Seq<char>, Seq<char>)>::empty()
    } else {
        let p = line_pairs(ls.drop_last());
        match split_once(ls.last(), '=') {
            Some(kv) => p.push(kv),
            None => p,
        }
    }
}

/// The properties of one block of the listing.
pub open spec fn block_map(block: Seq<char>) -> Map<Seq<char>, Seq<char>> {
    assoc(line_pairs(lines(block)))
}

/// The blocks that name their unit with `Id`, keyed by that name.
pub open spec fn unit_entries(blocks: Seq<Seq<char>>) -> Seq<
    (Seq<char>, Map<Seq<char>, Seq<char>>),
>
    decreases blocks.len(),
{
    if blocks.len() == 0 {
        Seq::<(Seq<char>, Map<Seq<char>, Seq<char>>)>::empty()
    } else {
        let p = unit_entries(blocks.drop_last());
        let m = block_map(blocks.last());
        if m.contains_key("Id"@) {
            p.push((m["Id"@], m))
        } else {
            p
        }
    }
}

/// The properties of each unit in a listing of blocks separated by blank
/// lines; a later block for the same unit replaces an earlier one.
pub open spec fn properties_map(output: Seq<char>) -> Map<Seq<char>, Map<Seq<char>, Seq<char>>> {
    assoc(unit_entries(split_blank(output)))
}

/// The properties of units, by unit name.
pub struct Properties {
    units: Vec<(Vec<char>, Vec<(Vec<char>, Vec<char>)>)>,
}

/// The view of the stored units.
pub open spec fn unit_views(units: Seq<(Vec<char>, Vec<(Vec<char>, Vec<char>)>)>) -> Seq<
    (Seq<char>, Map<Seq<char>, Seq<char>>),
> {
    units.map_values(
        |u: (Vec<char>, Vec<(Vec<char>, Vec<char>)>)| (u.0@, assoc(pair_views(u.1@))),
    )
}

impl View for Properties {
    type V = Map<Seq<char>, Map<Seq<char>, Seq<char>>>;

    closed spec fn view(&self) -> Self::V {
        assoc(unit_views(self.units@))
    }
}

/// The value of property `key` of unit `unit`, if listed.
pub open spec fn lookup(props: Map<Seq<char>, Map<Seq<char>, Seq<char>>>, unit: Seq<char>, key: Seq<char>) -> Option<Seq<char>> {
    if props.contains_key(unit) && props[unit].contains_key(key) {
        Some(props[unit][key])
    } else {
        None
    }
}

impl Properties {
    /// The value of property `key` of unit `unit`, if listed.
    pub fn get(&self, unit: &str, key: &str) -> (r: Option<String>)
        ensures
            match r {
                Some(v) => lookup(self@, unit@, key@) == Some(v@),
                None => lookup(self@, unit@, key@) is None,
            },
    {
        let u = chars_of(unit);
        let k = chars_of(key);
        let ghost us = unit_views(self.units@);
        let mut i = self.units.len();
        while i > 0
            invariant
                i <= self.units.len(),
                us == unit_views(self.units@),
                u@ == unit@,
                k@ == key@,
                forall|j: int| i <= j < self.units.len() ==> #[trigger] us[j].0 != u@,
            decreases i,
        {
            if same(&self.units[i - 1].0, &u) {
                proof {
                    lemma_assoc_hit(us, i - 1, u@);
                }
                assert(us[i - 1].1 == assoc(pair_views(self.units@[i - 1].1@)));
                assert(self@[u@] == us[i - 1].1);
                let found = pairs_get(&self.units[i - 1].1, &k);
                match found {
                    Some(v) => {
                        let text = string_of(&v);
                        assert(self@[u@][k@] == text@);
                        return Some(text);
                    },
                    None => {
                        return None;
                    },
                }
            }
            i -= 1;
        }
        proof {
            lemma_assoc_miss(us, u@);
        }
        None
    }
}

/// The pieces between non-overlapping pairs of line feeds.
fn split_blank_vec(s: &Vec<char>) -> (out: Vec<Vec<char>>)
    ensures
        views(out@) == split_blank(s@),
{
    let mut out: Vec<Vec<char>> = Vec::new();
    let mut cur: Vec<char> = Vec::new();
    let mut i: usize = 0;
    while i < s.len()
        invariant
            i <= s.len(),
            views(out@).push(cur@) == split_blank(s@.take(i as int)),
        decreases s.len() - i,
    {
        let c = s[i];
        let ghost before = s@.take(i as int);
        assert(s@.take(i + 1).drop_last() =~= before);
        assert(s@.take(i + 1).last() == c);
        proof {
            lemma_split_blank_nonempty(before);
        }
        if c == '\n' && cur.len() > 0 && cur[cur.len() - 1] == '\n' {
            cur.pop();
            let done = cur;
            out.push(done);
            cur = Vec::new();
        } else {
            cur.push(c);
        }
        assert(views(out@).push(cur@) =~= split_blank(s@.take(i + 1)));
        i += 1;
    }
    assert(s@.take(s.len() as int) =~= s@);
    out.push(cur);
    assert(views(out@) =~= split_blank(s@));
    out
}

/// The `key=value` pairs of a block's lines.
fn block_pairs(block: &Vec<char>) -> (out: Vec<(Vec<char>, Vec<char>)>)
    ensures
        pair_views(out@) == line_pairs(lines(block@)),
{
    let ls = lines_of(block);
    let ghost l = lines(block@);
    let mut out: Vec<(Vec<char>, Vec<char>)> = Vec::new();
    let mut j: usize = 0;
    while j < ls.len()
        invariant
            j <= ls.len(),
            views(ls@) == l,
            pair_views(out@) == line_pairs(l.take(j as int)),
        decreases ls.len() - j,
    {
        assert(l.take(j + 1).drop_last() =~= l.take(j as int));
        assert(ls@[j as int]@ == l.take(j + 1).last());
        match split_once_vec(&ls[j], '=') {
            Some(kv) => {
                out.push(kv);
            },
            None => {},
        }
        assert(pair_views(out@) =~= line_pairs(l.take(j + 1)));
        j += 1;
    }
    assert(l.take(ls.len() as int) =~= l);
    out
}

/// The properties of each unit in a listing of `key=value` lines, the
/// units' blocks separated by blank lines and named by their `Id`.
pub fn properties(output: &str) -> (r: Properties)
    ensures
        r@ == properties_map(output@),
{
    let chars = chars_of(output);
    let blocks = split_blank_vec(&chars);
    let ghost b = split_blank(output@);
    let id = chars_of("Id");
    let mut units: Vec<(Vec<char>, Vec<(Vec<char>, Vec<char>)>)> = Vec::new();
    let mut i: usize = 0;
    while i < blocks.len()
        invariant
            i <= blocks.len(),
            views(blocks@) == b,
            id@ == "Id"@,
            unit_views(units@) == unit_entries(b.take(i as int)),
        decreases blocks.len() - i,
    {
        assert(b.take(i + 1).drop_last() =~= b.take(i as int));
        assert(blocks@[i as int]@ == b.take(i + 1).last());
        let pairs = block_pairs(&blocks[i]);
        match pairs_get(&pairs, &id) {
            Some(name) => {
                units.push((name, pairs));
            },
            None => {},
        }
        assert(unit_views(units@) =~= unit_entries(b.take(i + 1)));
        i += 1;
    }
    assert(b.take(blocks.len() as int) =~= b);
    Properties { units }
}


// ---------------------------------------------------------------------------
// Listening ports
// ---------------------------------------------------------------------------

/// The port of a socket-table line: the text after the last `:` of the local
/// address, which is the fifth field when the line starts with the transport
/// name `tcp` and the fourth otherwise.
pub open spec fn port_in_line(line: Seq<char>) -> Option<u16> {
    let f = words(line);
    let at: int = if f.len() > 0 && f[0] == "tcp"@ {
        4
    } else {
        3
    };
    if at < f.len() {
        parse_u16(after_last(f[at], ':'))
    } else {
        None
    }
}

/// The ports of the lines that hold `pattern`, in line order.
pub open spec fn found_ports(ls: Seq<Seq<char>>, pattern: Seq<char>) -> Seq<u16>
    decreases ls.len(),
{
    if ls.len() == 0 {
        Seq::<u16>::empty()
    } else {
        let p = found_ports(ls.drop_last(), pattern);
        if contains(ls.last(), pattern) {
            match port_in_line(ls.last()) {
                Some(n) => p.push(n),
                None => p,
            }
        } else {
            p
        }
    }
}

/// The text that marks a socket owned by process `pid`.
pub open spec fn pid_pattern(pid: u32) -> Seq<char> {
    "pid="@ + decimal(pid as nat) + seq![',']
}

/// The ports on which process `pid` listens, by the socket table; process
/// 0 stands for none.
pub open spec fn listening_ports(output: Seq<char>, pid: u32) -> Seq<u16> {
    if pid == 0 {
        Seq::<u16>::empty()
    } else {
        found_ports(lines(output), pid_pattern(pid))
    }
}

/// The port of one socket-table line.
fn line_port(line: &Vec<char>, tcp: &Vec<char>) -> (r: Option<u16>)
    requires
        tcp@ == "tcp"@,
    ensures
        r == port_in_line(line@),
{
    let f = words_of(line);
    let ghost w = words(line@);
    let at: usize = if f.len() > 0 && same(&f[0], tcp) {
        4
    } else {
        3
    };
    if at < f.len() {
        assert(f@[at as int]@ == w[at as int]);
        let tail = after_last_vec(&f[at], ':');
        parse_u16_vec(&tail)
    } else {
        None
    }
}

/// The ports on which process `pid` listens, in line order.
fn port_list(output: &Vec<char>, pid: u32) -> (r: Vec<u16>)
    ensures
        r@ == listening_ports(output@, pid),
{
    let mut found: Vec<u16> = Vec::new();
    if pid == 0 {
        return found;
    }
    let mut pattern = "pid=".to_owned();
    push_decimal(&mut pattern, pid as u64);
    push_char(&mut pattern, ',');
    let pattern = chars_of(pattern.as_str());
    let tcp = chars_of("tcp");
    let ls = lines_of(output);
    let ghost l = lines(output@);
    let mut j: usize = 0;
    while j < ls.len()
        invariant
            j <= ls.len(),
            views(ls@) == l,
            pattern@ == pid_pattern(pid),
            tcp@ == "tcp"@,
            found@ == found_ports(l.take(j as int), pattern@),
        decreases ls.len() - j,
    {
        assert(l.take(j + 1).drop_last() =~= l.take(j as int));
        assert(ls@[j as int]@ == l.take(j + 1).last());
        if contains_vec(&ls[j], &pattern) {
            match line_port(&ls[j], &tcp) {
                Some(n) => found.push(n),
                None => {},
            }
        }
        j += 1;
    }
    assert(l.take(ls.len() as int) =~= l);
    found
}

/// The TCP ports on which process `pid` listens, by the lines of a socket
/// table that name it as `pid=<pid>,`; process 0 has none.
pub fn ports(output: &str, pid: u32) -> (r: BTreeSet<u16>)
    ensures
        r@ == listening_ports(output@, pid).to_set(),
{
    let list = port_list(&chars_of(output), pid);
    let mut set: BTreeSet<u16> = BTreeSet::new();
    let mut i: usize = 0;
    while i < list.len()
        invariant
            i <= list.len(),
            set@ == list@.take(i as int).to_set(),
        decreases list.len() - i,
    {
        set.insert(list[i]);
        assert(list@.take(i + 1) =~= list@.take(i as int).push(list@[i as int]));
        proof {
            list@.take(i as int).lemma_push_to_set_commute(list@[i as int]);
        }
        i += 1;
    }
    assert(list@.take(list.len() as int) =~= list@);
    set
}


// ---------------------------------------------------------------------------
// Service rows
// ---------------------------------------------------------------------------

/// The configured services: unit, display name, and the port reported when
/// none is detected (the main process may be a wrapper, such as a container
/// runtime).
pub open spec fn service_table() -> Seq<(Seq<char>, Seq<char>, u16)> {
    seq![
        ("iploc.service"@, "IP Location"@, 3000u16),
        ("id-generator.service"@, "ID Generator"@, 3012u16),
        ("tetris.service"@, "Tetris"@, 3020u16),
        ("solitaire.service"@, "Solitaire"@, 3021u16),
        ("trader-dashboard.service"@, "Trader Dashboard"@, 3040u16),
        ("sym_notes.service"@, "Sym Notes"@, 3444u16),
        ("jirpi.service"@, "JiraPi"@, 5644u16),
        ("live.service"@, "Live Status"@, 9999u16),
    ]
}

/// The configured services.
pub fn service_list() -> (r: [(&'static str, &'static str, u16); 8])
    ensures
        r@.map_values(|e: (&str, &str, u16)| (e.0@, e.1@, e.2)) == service_table(),
{
    let r = [
        ("iploc.service", "IP Location", 3000u16),
        ("id-generator.service", "ID Generator", 3012u16),
        ("tetris.service", "Tetris", 3020u16),
        ("solitaire.service", "Solitaire", 3021u16),
        ("trader-dashboard.service", "Trader Dashboard", 3040u16),
        ("sym_notes.service", "Sym Notes", 3444u16),
        ("jirpi.service", "JiraPi", 5644u16),
        ("live.service", "Live Status", 9999u16),
    ];
    assert(r@.map_values(|e: (&str, &str, u16)| (e.0@, e.1@, e.2)) =~= service_table());
    r
}

/// The state reported for a unit: `unknown` when the unit is not found or
/// has no active state.
pub open spec fn unit_state(props: Map<Seq<char>, Map<Seq<char>, Seq<char>>>, unit: Seq<char>) -> Seq<char> {
    if lookup(props, unit, "LoadState"@) == Some("not-found"@) {
        "unknown"@
    } else {
        match lookup(props, unit, "ActiveState"@) {
            Some(s) => s,
            None => "unknown"@,
        }
    }
}

/// The main process of a unit, 0 when none is listed or it does not parse.
pub open spec fn unit_pid(props: Map<Seq<char>, Map<Seq<char>, Seq<char>>>, unit: Seq<char>) -> u32 {
    match lookup(props, unit, "MainPID"@) {
        Some(s) => match parse_u32(s) {
            Some(p) => p,
            None => 0,
        },
        None => 0,
    }
}

/// The smallest of a non-empty sequence of ports.
pub open spec fn smallest(s: Seq<u16>) -> u16
    decreases s.len(),
{
    if s.len() <= 1 {
        s[0]
    } else {
        let m = smallest(s.drop_last());
        if s.last() < m {
            s.last()
        } else {
            m
        }
    }
}

/// The port shown for a service: the configured one when it is among those
/// detected or none is detected, otherwise the smallest detected.
pub open spec fn chosen_port(found: Seq<u16>, fallback: u16) -> u16 {
    if found.contains(fallback) || found.len() == 0 {
        fallback
    } else {
        smallest(found)
    }
}

/// The JSON row of one service.
pub open spec fn service_row(
    props: Map<Seq<char>, Map<Seq<char>, Seq<char>>>,
    sockets: Seq<char>,
    unit: Seq<char>,
    name: Seq<char>,
    fallback: u16,
) -> Seq<char> {
    let port = chosen_port(listening_ports(sockets, unit_pid(props, unit)), fallback);
    object_text(
        seq![
            ("unit"@, quoted(unit)),
            ("name"@, quoted(name)),
            ("state"@, quoted(unit_state(props, unit))),
            ("port"@, decimal(port as nat)),
        ],
    )
}

/// The JSON array of the configured services' rows.
pub open spec fn services_text(units_output: Seq<char>, sockets_output: Seq<char>) -> Seq<char> {
    let props = properties_map(units_output);
    let rows = service_table().map_values(
        |s: (Seq<char>, Seq<char>, u16)| service_row(props, sockets_output, s.0, s.1, s.2),
    );
    seq!['['] + join(rows, seq![',']) + seq![']']
}

fn state_of(props: &Properties, unit: &str) -> (r: String)
    ensures
        r@ == unit_state(props@, unit@),
{
    let not_found = chars_of("not-found");
    match props.get(unit, "LoadState") {
        Some(s) => {
            if same(&chars_of(s.as_str()), &not_found) {
                return "unknown".to_owned();
            }
        },
        None => {},
    }
    match props.get(unit, "ActiveState") {
        Some(s) => s,
        None => "unknown".to_owned(),
    }
}

fn pid_of(props: &Properties, unit: &str) -> (r: u32)
    ensures
        r == unit_pid(props@, unit@),
{
    match props.get(unit, "MainPID") {
        Some(s) => match parse_u32_vec(&chars_of(s.as_str())) {
            Some(p) => p,
            None => 0,
        },
        None => 0,
    }
}

fn choose_port(found: &Vec<u16>, fallback: u16) -> (r: u16)
    ensures
        r == chosen_port(found@, fallback),
{
    if found.len() == 0 || found[0] == fallback {
        return fallback;
    }
    let mut least = found[0];
    let mut i: usize = 1;
    while i < found.len()
        invariant
            1 <= i <= found.len(),
            least == smallest(found@.take(i as int)),
            forall|j: int| 0 <= j < i ==> found@[j] != fallback,
        decreases found.len() - i,
    {
        if found[i] == fallback {
            assert(found@.contains(fallback));
            return fallback;
        }
        assert(found@.take(i + 1).drop_last() =~= found@.take(i as int));
        if found[i] < least {
            least = found[i];
        }
        i += 1;
    }
    assert(found@.take(found.len() as int) =~= found@);
    assert(!found@.contains(fallback));
    least
}

/// The services as a JSON array of `unit`, `name`, `state` and `port`
/// objects, from the service manager's property listing (`Id`,
/// `ActiveState`, `MainPID`, `LoadState` of each unit) and the table of
/// listening TCP sockets.
pub fn collect(units_output: &str, sockets_output: &str) -> (s: String)
    ensures
        s@ == services_text(units_output@, sockets_output@),
{
    let props = properties(units_output);
    let sockets = chars_of(sockets_output);
    let table = service_list();
    let ghost t = service_table();
    let ghost rows = t.map_values(
        |e: (Seq<char>, Seq<char>, u16)| service_row(props@, sockets_output@, e.0, e.1, e.2),
    );
    let mut out = String::new();
    push_char(&mut out, '[');
    let mut i: usize = 0;
    while i < 8
        invariant
            i <= 8,
            table@.map_values(|e: (&str, &str, u16)| (e.0@, e.1@, e.2)) == t,
            t == service_table(),
            sockets@ == sockets_output@,
            rows == t.map_values(
                |e: (Seq<char>, Seq<char>, u16)| service_row(props@, sockets_output@, e.0, e.1, e.2),
            ),
            out@ == seq!['['] + join(rows.take(i as int), seq![',']),
        decreases 8 - i,
    {
        let (unit, name, fallback) = table[i];
        assert(unit@ == t[i as int].0 && name@ == t[i as int].1 && fallback == t[i as int].2);
        let state = state_of(&props, unit);
        let pid = pid_of(&props, unit);
        let found = port_list(&sockets, pid);
        let port = choose_port(&found, fallback);
        let fields = [
            ("unit", quote(unit)),
            ("name", quote(name)),
            ("state", quote(state.as_str())),
            ("port", crate::text::decimal_string(port as u64)),
        ];
        let row = object(&fields);
        assert(fields@.map_values(|f: (&str, String)| (f.0@, f.1@)) =~= seq![
            ("unit"@, quoted(unit@)),
            ("name"@, quoted(name@)),
            ("state"@, quoted(unit_state(props@, unit@))),
            ("port"@, decimal(port as nat)),
        ]);
        assert(row@ == rows[i as int]);
        if i > 0 {
            push_char(&mut out, ',');
        }
        out.append(row.as_str());
        proof {
            assert(rows.take(i + 1) =~= rows.take(i as int).push(rows[i as int]));
            assert(rows.take(i + 1).drop_last() =~= rows.take(i as int));
        }
        assert(out@ =~= seq!['['] + join(rows.take(i + 1), seq![',']));
        i += 1;
    }
    push_char(&mut out, ']');
    assert(rows.take(8) =~= rows);
    out
}


proof fn lemma_smallest(s: Seq<u16>)
    requires
        s.len() > 0,
    ensures
        s.contains(smallest(s)),
        forall|i: int| 0 <= i < s.len() ==> smallest(s) <= #[trigger] s[i],
    decreases s.len(),
{
    if s.len() > 1 {
        let d = s.drop_last();
        lemma_smallest(d);
        let j = choose|j: int| 0 <= j < d.len() && d[j] == smallest(d);
        assert(s[j] == d[j]);
        assert forall|i: int| 0 <= i < s.len() implies smallest(s) <= #[trigger] s[i] by {
            if i < d.len() {
                assert(s[i] == d[i]);
            }
        }
        if s.last() < smallest(d) {
            assert(s[s.len() - 1] == s.last());
        }
    } else {
        assert(s[0] == smallest(s));
    }
}

/// The port shown for a service: its configured port when that one is
/// detected or nothing is; otherwise the lowest detected port, which is one
/// of those detected and no higher than any.
pub proof fn lemma_port_is_lowest(found: Seq<u16>, fallback: u16)
    ensures
        found.contains(fallback) || found.len() == 0 ==> chosen_port(found, fallback) == fallback,
        !found.contains(fallback) && found.len() > 0 ==> found.contains(chosen_port(found, fallback))
            && forall|i: int| 0 <= i < found.len() ==> chosen_port(found, fallback) <= #[trigger] found[i],
{
    if found.len() > 0 {
        lemma_smallest(found);
    }
}

/// The port shown depends only on which ports are detected, not on the
/// order or repetition of the sockets that listen on them.
pub proof fn lemma_port_ignores_order(a: Seq<u16>, b: Seq<u16>, fallback: u16)
    requires
        a.to_set() == b.to_set(),
    ensures
        chosen_port(a, fallback) == chosen_port(b, fallback),
{
    assert forall|x: u16| a.contains(x) == b.contains(x) by {
        assert(a.contains(x) == a.to_set().contains(x));
        assert(b.contains(x) == b.to_set().contains(x));
    }
    lemma_port_is_lowest(a, fallback);
    lemma_port_is_lowest(b, fallback);
    if a.len() == 0 && b.len() > 0 {
        assert(b.contains(b[0]));
    }
    if b.len() == 0 && a.len() > 0 {
        assert(a.contains(a[0]));
    }
    if !a.contains(fallback) && a.len() > 0 && b.len() > 0 {
        let x = chosen_port(a, fallback);
        let y = chosen_port(b, fallback);
        let i = choose|i: int| 0 <= i < b.len() && b[i] == x;
        let j = choose|j: int| 0 <= j < a.len() && a[j] == y;
        assert(y <= b[i]);
        assert(x <= a[j]);
    }
}

/// A service's row holds, in order, its unit and display name as strings,
/// the state the service manager reports for the unit, and the port shown.
pub proof fn lemma_row_members(
    props: Map<Seq<char>, Map<Seq<char>, Seq<char>>>,
    sockets: Seq<char>,
    unit: Seq<char>,
    name: Seq<char>,
    fallback: u16,
)
    ensures
        service_row(props, sockets, unit, name, fallback) == seq!['{'] + member("unit"@, quoted(unit))
            + seq![','] + member("name"@, quoted(name)) + seq![','] + member(
            "state"@,
            quoted(unit_state(props, unit)),
        ) + seq![','] + member(
            "port"@,
            decimal(chosen_port(listening_ports(sockets, unit_pid(props, unit)), fallback) as nat),
        ) + seq!['}'],
{
    lemma_object4("unit"@, quoted(unit), "name"@, quoted(name), "state"@, quoted(unit_state(props, unit)),
        "port"@, decimal(chosen_port(listening_ports(sockets, unit_pid(props, unit)), fallback) as nat));
}
} // verus!
