//! Variable resolution: `{{name}}` substitution, `http-client.env.json`
//! environments, `--var` overrides, response-handler globals and the
//! JetBrains dynamic variables (`{{$uuid}}`, `{{$timestamp}}`, ...).

use crate::calendar;
use crate::files;
use crate::files::{FileView, TextFile};
use crate::json;
use crate::json::{Value, ValueView};
use crate::random;
use crate::text;
use vstd::prelude::*;
use vstd::slice::slice_subrange;

pub use crate::calendar::iso_utc;

verus! {

// -------------------------------------------------------------- clock ----

/// `std::time::SystemTime`: a reading of the clock, opaque here.
#[verifier::external_type_specification]
#[verifier::external_body]
pub struct ExSystemTime(std::time::SystemTime);

/// `SystemTime::now` reads the clock of the machine; nothing is promised of
/// the reading.
pub assume_specification[ std::time::SystemTime::now ]() -> std::time::SystemTime
;

/// `SystemTime::duration_since`, counted from the Unix epoch, as whole seconds
/// and the nanoseconds beyond them; nothing for a time before the epoch.
#[verifier::external_body]
fn since_epoch(t: std::time::SystemTime) -> (r: Option<(u64, u32)>)
    ensures
        r matches Some((_, nanos)) ==> nanos < 1_000_000_000,
{
    match t.duration_since(std::time::UNIX_EPOCH) {
        Ok(d) => Some((d.as_secs(), d.subsec_nanos())),
        Err(_) => None,
    }
}

/// The whole seconds of a clock reading; a time before the epoch counts as
/// the epoch.
pub open spec fn whole_seconds(reading: Option<(u64, u32)>) -> u64 {
    match reading {
        Some((secs, _)) => secs,
        None => 0,
    }
}

/// The seed from a clock reading: the nanoseconds since the Unix epoch, cut to
/// the word size, or a fixed number for a time before the epoch.
pub open spec fn seed_from(reading: Option<(u64, u32)>) -> u64 {
    match reading {
        Some((secs, nanos)) => ((secs * 1_000_000_000 + nanos) % 0x1_0000_0000_0000_0000) as u64,
        None => 0x5DEECE66D,
    }
}

/// [`whole_seconds`] of a reading.
pub fn seconds_of(reading: Option<(u64, u32)>) -> (r: u64)
    ensures
        r == whole_seconds(reading),
{
    match reading {
        Some((secs, _)) => secs,
        None => 0,
    }
}

/// [`seed_from`] a reading.
pub fn seed_of(reading: Option<(u64, u32)>) -> (r: u64)
    ensures
        r == seed_from(reading),
{
    match reading {
        Some((secs, nanos)) => {
            let total: u128 = secs as u128 * 1_000_000_000 + nanos as u128;
            (total % 0x1_0000_0000_0000_0000) as u64
        },
        None => 0x5DEECE66D,
    }
}

/// A reading of the clock, counted from the Unix epoch: what `since_epoch` gave
/// for a time that `SystemTime::now` gave.
pub closed spec fn clock_reading(reading: Option<(u64, u32)>) -> bool {
    exists|t: std::time::SystemTime|
        call_ensures(std::time::SystemTime::now, (), t) && call_ensures(
            since_epoch,
            (t,),
            reading,
        )
}

/// Seconds since the Unix epoch: the whole seconds of a reading of the clock,
/// and zero where the clock stands before the epoch. Which reading the clock
/// gives is not known.
pub fn unix_now() -> (r: u64)
    ensures
        exists|reading: Option<(u64, u32)>| #[trigger]
            clock_reading(reading) && r == whole_seconds(reading),
{
    let t: std::time::SystemTime = std::time::SystemTime::now();
    let reading: Option<(u64, u32)> = since_epoch(t);
    proof {
        assert(call_ensures(std::time::SystemTime::now, (), t));
        assert(call_ensures(since_epoch, (t,), reading));
        assert(clock_reading(reading));
    }
    seconds_of(reading)
}

// ------------------------------------------------------------- tables ----

/// The map that a list of entries stands for; a later entry wins.
pub open spec fn map_of(entries: Seq<(Seq<char>, Seq<char>)>) -> Map<Seq<char>, Seq<char>>
    decreases entries.len(),
{
    if entries.len() == 0 {
        Map::empty()
    } else {
        map_of(entries.drop_last()).insert(entries.last().0, entries.last().1)
    }
}

/// A table from names to values.
#[derive(Debug)]
pub struct Table {
    entries: Vec<(String, String)>,
}

impl View for Table {
    type V = Map<Seq<char>, Seq<char>>;

    closed spec fn view(&self) -> Map<Seq<char>, Seq<char>> {
        map_of(text::pairs(self.entries@))
    }
}

/// No entry from `i` on has the name.
spec fn absent(entries: Seq<(Seq<char>, Seq<char>)>, name: Seq<char>, i: int) -> bool {
    forall|k: int| i <= k < entries.len() ==> (#[trigger] entries[k]).0 != name
}

proof fn lemma_lookup(entries: Seq<(Seq<char>, Seq<char>)>, name: Seq<char>, i: int)
    requires
        0 <= i < entries.len(),
        entries[i].0 == name,
        absent(entries, name, i + 1),
    ensures
        map_of(entries).contains_key(name),
        map_of(entries)[name] == entries[i].1,
    decreases entries.len(),
{
    if i + 1 < entries.len() {
        assert(entries.last() == entries[entries.len() - 1]);
        lemma_lookup(entries.drop_last(), name, i);
    }
}

proof fn lemma_absent(entries: Seq<(Seq<char>, Seq<char>)>, name: Seq<char>)
    requires
        absent(entries, name, 0),
    ensures
        !map_of(entries).contains_key(name),
    decreases entries.len(),
{
    if entries.len() > 0 {
        assert(entries.last() == entries[entries.len() - 1]);
        lemma_absent(entries.drop_last(), name);
    }
}

proof fn lemma_replace(
    entries: Seq<(Seq<char>, Seq<char>)>,
    i: int,
    name: Seq<char>,
    value: Seq<char>,
)
    requires
        0 <= i < entries.len(),
        entries[i].0 == name,
        absent(entries, name, i + 1),
    ensures
        map_of(entries.update(i, (name, value))) == map_of(entries).insert(name, value),
    decreases entries.len(),
{
    let changed = entries.update(i, (name, value));
    if i + 1 == entries.len() {
        assert(changed.drop_last() =~= entries.drop_last());
        assert(map_of(changed) =~= map_of(entries).insert(name, value));
    } else {
        assert(entries.last() == entries[entries.len() - 1]);
        assert(changed.drop_last() =~= entries.drop_last().update(i, (name, value)));
        lemma_replace(entries.drop_last(), i, name, value);
        assert(map_of(changed) =~= map_of(entries).insert(name, value));
    }
}

impl Table {
    pub fn new() -> (r: Table)
        ensures
            r@ == Map::<Seq<char>, Seq<char>>::empty(),
    {
        Table { entries: Vec::new() }
    }

    /// The last position that holds the name.
    fn find(&self, name: &str) -> (r: Option<usize>)
        ensures
            match r {
                Some(i) => i < self.entries@.len() && self.entries@[i as int].0@ == name@ && absent(
                    text::pairs(self.entries@),
                    name@,
                    i + 1,
                ),
                None => absent(text::pairs(self.entries@), name@, 0),
            },
    {
        let mut i: usize = self.entries.len();
        while i > 0
            invariant
                i <= self.entries.len(),
                absent(text::pairs(self.entries@), name@, i as int),
            decreases i,
        {
            if text::same_str(self.entries[i - 1].0.as_str(), name) {
                return Some(i - 1);
            }
            i -= 1;
        }
        None
    }

    pub fn get(&self, name: &str) -> (r: Option<String>)
        ensures
            text::opt_text(r) == self@.get(name@),
    {
        match self.find(name) {
            Some(i) => {
                proof {
                    lemma_lookup(text::pairs(self.entries@), name@, i as int);
                }
                Some(text::owned(self.entries[i].1.as_str()))
            },
            None => {
                proof {
                    lemma_absent(text::pairs(self.entries@), name@);
                }
                None
            },
        }
    }

    pub fn set(&mut self, name: &str, value: &str)
        ensures
            final(self)@ == old(self)@.insert(name@, value@),
    {
        let ghost before = text::pairs(self.entries@);
        let entry: (String, String) = (text::owned(name), text::owned(value));
        match self.find(name) {
            Some(i) => {
                self.entries[i] = entry;
                proof {
                    lemma_replace(before, i as int, name@, value@);
                    assert(text::pairs(self.entries@) =~= before.update(
                        i as int,
                        (name@, value@),
                    ));
                }
            },
            None => {
                self.entries.push(entry);
                assert(text::pairs(self.entries@) =~= before.push((name@, value@)));
                assert(before.push((name@, value@)).drop_last() =~= before);
            },
        }
    }

    /// Set all entries of another table.
    pub fn set_all(&mut self, other: &Table)
        ensures
            final(self)@ == old(self)@.union_prefer_right(other@),
    {
        let ghost start = self@;
        let ghost all = text::pairs(other.entries@);
        let mut i: usize = 0;
        assert(start.union_prefer_right(Map::empty()) =~= start);
        assert(map_of(all.take(0)) =~= Map::empty());
        while i < other.entries.len()
            invariant
                i <= other.entries.len(),
                all == text::pairs(other.entries@),
                self@ == start.union_prefer_right(map_of(all.take(i as int))),
            decreases other.entries.len() - i,
        {
            self.set(other.entries[i].0.as_str(), other.entries[i].1.as_str());
            assert(all.take(i + 1).drop_last() =~= all.take(i as int));
            assert(self@ =~= start.union_prefer_right(map_of(all.take(i + 1))));
            i += 1;
        }
        assert(all.take(all.len() as int) =~= all);
    }
}

// ---------------------------------------------------------- variables ----

/// Resolution order (first hit wins), matching what editor users expect:
/// 1. `--var` command-line overrides
/// 2. values set by `client.global.set(...)` during this run
/// 3. `@name = value` file variables
/// 4. the selected environment from `http-client.env.json` (+ private file)
pub struct Vars {
    overrides: Table,
    globals: Table,
    file_vars: Table,
    env_vars: Table,
    /// The environment of the process, for `{{$env.NAME}}`.
    process_env: Table,
    rng: random::Rng,
    /// A time that stands still, in place of the clock of the machine.
    time: Option<u64>,
    /// The times read so far, in order.
    readings: Ghost<Seq<u64>>,
}

/// What a set of variables holds.
#[verifier::ext_equal]
pub struct VarsView {
    pub overrides: Map<Seq<char>, Seq<char>>,
    pub globals: Map<Seq<char>, Seq<char>>,
    pub file_vars: Map<Seq<char>, Seq<char>>,
    pub env_vars: Map<Seq<char>, Seq<char>>,
    pub process_env: Map<Seq<char>, Seq<char>>,
    pub rng: u64,
    pub time: Option<u64>,
    pub readings: Seq<u64>,
}

impl View for Vars {
    type V = VarsView;

    closed spec fn view(&self) -> VarsView {
        VarsView {
            overrides: self.overrides@,
            globals: self.globals@,
            file_vars: self.file_vars@,
            env_vars: self.env_vars@,
            process_env: self.process_env@,
            rng: self.rng.state,
            time: self.time,
            readings: self.readings@,
        }
    }
}

/// No variables, and the given generator state.
pub open spec fn no_vars(rng: u64) -> VarsView {
    VarsView {
        overrides: Map::empty(),
        globals: Map::empty(),
        file_vars: Map::empty(),
        env_vars: Map::empty(),
        process_env: Map::empty(),
        rng,
        time: None,
        readings: seq![],
    }
}

impl VarsView {
    /// The value of a variable, by the resolution order.
    pub open spec fn lookup(self, name: Seq<char>) -> Option<Seq<char>> {
        if self.overrides.contains_key(name) {
            Some(self.overrides[name])
        } else if self.globals.contains_key(name) {
            Some(self.globals[name])
        } else if self.file_vars.contains_key(name) {
            Some(self.file_vars[name])
        } else if self.env_vars.contains_key(name) {
            Some(self.env_vars[name])
        } else {
            None
        }
    }

    /// After a draw from the generator.
    pub open spec fn stepped(self) -> VarsView {
        VarsView { rng: random::next_state(self.rng), ..self }
    }

    /// The next time, where `clock` holds all the times that are read.
    pub open spec fn next_time(self, clock: Seq<u64>) -> u64 {
        clock[self.readings.len() as int]
    }

    /// After that time has been read.
    pub open spec fn after_reading(self, clock: Seq<u64>) -> VarsView {
        VarsView { readings: self.readings.push(self.next_time(clock)), ..self }
    }
}

/// The times of `clock` begin with these.
pub open spec fn begins(clock: Seq<u64>, readings: Seq<u64>) -> bool {
    &&& readings.len() <= clock.len()
    &&& forall|k: int| 0 <= k < readings.len() ==> clock[k] == #[trigger] readings[k]
}

/// A time that can be read: the one that stands still, if there is one, and
/// otherwise the whole seconds of a reading of the clock.
pub open spec fn possible(time: Option<u64>, t: u64) -> bool {
    match time {
        Some(fixed) => t == fixed,
        None => exists|reading: Option<(u64, u32)>| #[trigger]
            clock_reading(reading) && t == whole_seconds(reading),
    }
}

/// From `v` to `w` times were read, and each of them could be.
pub open spec fn timed(v: VarsView, w: VarsView) -> bool {
    &&& w.time == v.time
    &&& begins(w.readings, v.readings)
    &&& forall|k: int|
        v.readings.len() <= k < w.readings.len() ==> possible(v.time, #[trigger] w.readings[k])
}

/// The text of a value, or why there is none, and the variables afterwards.
#[verifier::ext_equal]
pub struct Draw {
    pub result: Result<Seq<char>, Seq<char>>,
    pub vars: VarsView,
}

/// The bounds of `random.integer(lo, hi)`.
pub open spec fn bounds(args: Seq<char>) -> Option<(nat, nat)> {
    match text::split_once_at(args, ","@) {
        None => None,
        Some((a, b)) => match (
            text::unsigned(text::trimmed(a), 10, u64::MAX as nat),
            text::unsigned(text::trimmed(b), 10, u64::MAX as nat),
        ) {
            (Some(lo), Some(hi)) => Some((lo, hi)),
            _ => None,
        },
    }
}

/// The arguments of a `random.integer(...)` call.
pub open spec fn integer_args(name: Seq<char>) -> Option<Seq<char>> {
    match text::after_prefix(name, "random.integer("@) {
        None => None,
        Some(rest) => text::before_suffix(rest, ")"@),
    }
}

/// The value of a dynamic variable, named without its dollar sign. Each
/// occurrence draws anew from the generator, and reads the time anew.
#[verifier::opaque]
pub open spec fn dynamic_value(v: VarsView, name: Seq<char>, clock: Seq<u64>) -> Draw {
    if name == "uuid"@ || name == "random.uuid"@ {
        Draw {
            result: Ok(random::uuid(random::drawn(v.rng), random::drawn(random::next_state(v.rng)))),
            vars: v.stepped().stepped(),
        }
    } else if name == "timestamp"@ {
        Draw {
            result: Ok(text::decimal(v.next_time(clock) as nat)),
            vars: v.after_reading(clock),
        }
    } else if name == "isoTimestamp"@ {
        Draw {
            result: Ok(calendar::iso_text(v.next_time(clock))),
            vars: v.after_reading(clock),
        }
    } else if name == "randomInt"@ {
        Draw {
            result: Ok(text::decimal((random::drawn(v.rng) % 1000) as nat)),
            vars: v.stepped(),
        }
    } else {
        match text::after_prefix(name, "env."@) {
            Some(env_name) => Draw {
                result: if v.process_env.contains_key(env_name) {
                    Ok(v.process_env[env_name])
                } else {
                    Err(
                        "environment variable '"@ + env_name + "' is not set (from {{$env."@
                            + env_name + "}})"@,
                    )
                },
                vars: v,
            },
            None => match integer_args(name) {
                Some(args) => match bounds(args) {
                    None => Draw {
                        result: Err("bad arguments in {{$"@ + name + "}}"@),
                        vars: v,
                    },
                    Some((lo, hi)) => if hi <= lo {
                        Draw { result: Err("empty range in {{$"@ + name + "}}"@), vars: v }
                    } else {
                        Draw {
                            result: Ok(
                                text::decimal(lo + random::drawn(v.rng) as nat % (hi - lo) as nat),
                            ),
                            vars: v.stepped(),
                        }
                    },
                },
                None => Draw {
                    result: Err("unknown dynamic variable '{{$"@ + name + "}}'"@),
                    vars: v,
                },
            },
        }
    }
}

/// The value of a placeholder.
pub open spec fn placeholder_value(v: VarsView, name: Seq<char>, lenient: bool, clock: Seq<u64>) -> Draw {
    match text::after_prefix(name, "$"@) {
        Some(dynamic) => dynamic_value(v, dynamic, clock),
        None => Draw {
            result: match v.lookup(name) {
                Some(value) => Ok(value),
                None => if lenient {
                    Ok("{{"@ + name + "}}"@)
                } else {
                    Err("undefined variable '{{"@ + name + "}}'"@)
                },
            },
            vars: v,
        },
    }
}

/// The text from `i` on with every `{{name}}` replaced, after `out`.
pub open spec fn replaced_from(
    v: VarsView,
    s: Seq<char>,
    i: int,
    out: Seq<char>,
    lenient: bool,
    clock: Seq<u64>,
) -> Draw
    decreases s.len() - i,
{
    match text::find(s, "{{"@, i) {
        None => Draw { result: Ok(out + s.skip(i)), vars: v },
        Some(a) => match text::find(s, "}}"@, a + 2) {
            None => Draw {
                result: Err("unclosed '{{' in '"@ + text::trimmed(s) + "'"@),
                vars: v,
            },
            Some(b) => {
                let value = placeholder_value(
                    v,
                    text::trimmed(s.subrange(a + 2, b)),
                    lenient,
                    clock,
                );
                match value.result {
                    Err(e) => value,
                    Ok(t) => {
                        proof {
                            reveal_strlit("{{");
                            reveal_strlit("}}");
                            text::lemma_find_bounds(s, "{{"@, i);
                            text::lemma_find_bounds(s, "}}"@, a + 2);
                        }
                        replaced_from(
                            value.vars,
                            s,
                            b + 2,
                            out + s.subrange(i, a) + t,
                            lenient,
                            clock,
                        )
                    },
                }
            },
        },
    }
}

/// The text with every `{{name}}` replaced.
#[verifier::opaque]
pub open spec fn replaced(v: VarsView, s: Seq<char>, lenient: bool, clock: Seq<u64>) -> Draw {
    replaced_from(v, s, 0, seq![], lenient, clock)
}

/// What declaring the file variables from `i` on, in order, leads to: the
/// variables afterwards, and the failure that stopped it.
pub open spec fn file_vars_from(
    v: VarsView,
    vars: Seq<(Seq<char>, Seq<char>)>,
    i: int,
    clock: Seq<u64>,
) -> (Option<Seq<char>>, VarsView)
    decreases vars.len() - i,
{
    if i < 0 || i >= vars.len() {
        (None, v)
    } else {
        let value = replaced(v, vars[i].1, false, clock);
        match value.result {
            Err(e) => (Some(e), value.vars),
            Ok(t) => file_vars_from(
                VarsView {
                    file_vars: value.vars.file_vars.insert(vars[i].0, t),
                    ..value.vars
                },
                vars,
                i + 1,
                clock,
            ),
        }
    }
}

/// The failure that a result holds.
pub open spec fn failure_of(r: Result<(), String>) -> Option<Seq<char>> {
    match r {
        Ok(_) => None,
        Err(e) => Some(e@),
    }
}

pub proof fn lemma_begins(clock: Seq<u64>, longer: Seq<u64>, shorter: Seq<u64>)
    requires
        begins(clock, longer),
        begins(longer, shorter),
    ensures
        begins(clock, shorter),
{
    assert forall|k: int| 0 <= k < shorter.len() implies clock[k] == #[trigger] shorter[k] by {
        assert(longer[k] == shorter[k]);
    }
}

/// Reading on after times were read.
pub proof fn lemma_timed(u: VarsView, v: VarsView, w: VarsView)
    requires
        timed(u, v),
        timed(v, w),
    ensures
        timed(u, w),
{
    lemma_begins(w.readings, v.readings, u.readings);
    assert forall|k: int| u.readings.len() <= k < w.readings.len() implies possible(
        u.time,
        #[trigger] w.readings[k],
    ) by {
        if k < v.readings.len() {
            assert(w.readings[k] == v.readings[k]);
        }
    }
}

impl Default for Vars {
    fn default() -> (r: Vars)
        ensures
            r@ == no_vars(0x9E3779B97F4A7C15),
    {
        Vars {
            overrides: Table::new(),
            globals: Table::new(),
            file_vars: Table::new(),
            env_vars: Table::new(),
            process_env: Table::new(),
            rng: random::Rng::default(),
            time: None,
            readings: Ghost(Seq::empty()),
        }
    }
}

impl Vars {
    /// No variables, with a generator seeded from the clock.
    pub fn new() -> (r: Vars)
        ensures
            exists|reading: Option<(u64, u32)>| #[trigger]
                clock_reading(reading) && r@ == no_vars(random::seeded_state(seed_from(reading))),
    {
        let t: std::time::SystemTime = std::time::SystemTime::now();
        let reading: Option<(u64, u32)> = since_epoch(t);
        proof {
            assert(call_ensures(std::time::SystemTime::now, (), t));
            assert(call_ensures(since_epoch, (t,), reading));
            assert(clock_reading(reading));
        }
        Vars::seeded(seed_of(reading))
    }

    /// No variables, with a generator seeded as given.
    pub fn seeded(seed: u64) -> (r: Vars)
        ensures
            r@ == no_vars(random::seeded_state(seed)),
    {
        Vars {
            overrides: Table::new(),
            globals: Table::new(),
            file_vars: Table::new(),
            env_vars: Table::new(),
            process_env: Table::new(),
            rng: random::Rng::seeded(seed),
            time: None,
            readings: Ghost(Seq::empty()),
        }
    }

    /// No variables, with a generator seeded as given and a time that stands
    /// still.
    pub fn fixed(seed: u64, time: u64) -> (r: Vars)
        ensures
            r@ == (VarsView { time: Some(time), ..no_vars(random::seeded_state(seed)) }),
    {
        Vars { time: Some(time), ..Vars::seeded(seed) }
    }

    /// Read the time.
    fn read_time(&mut self) -> (r: u64)
        ensures
            possible(old(self)@.time, r),
            timed(old(self)@, final(self)@),
            forall|clock: Seq<u64>| #[trigger]
                begins(clock, final(self)@.readings) ==> r == old(self)@.next_time(clock)
                    && final(self)@ == old(self)@.after_reading(clock),
    {
        let t: u64 = match self.time {
            Some(fixed) => fixed,
            None => unix_now(),
        };
        let ghost before = self@.readings;
        self.readings = Ghost(self.readings@.push(t));
        assert(self@.readings[before.len() as int] == t);
        t
    }

    pub fn set_override(&mut self, name: &str, value: &str)
        ensures
            final(self)@ == (VarsView {
                overrides: old(self)@.overrides.insert(name@, value@),
                ..old(self)@
            }),
    {
        self.overrides.set(name, value);
    }

    pub fn set_global(&mut self, name: &str, value: &str)
        ensures
            final(self)@ == (VarsView {
                globals: old(self)@.globals.insert(name@, value@),
                ..old(self)@
            }),
    {
        self.globals.set(name, value);
    }

    /// Set all the globals of a table.
    pub fn set_globals(&mut self, globals: &Table)
        ensures
            final(self)@ == (VarsView {
                globals: old(self)@.globals.union_prefer_right(globals@),
                ..old(self)@
            }),
    {
        self.globals.set_all(globals);
    }

    pub fn set_env_var(&mut self, name: &str, value: &str)
        ensures
            final(self)@ == (VarsView {
                env_vars: old(self)@.env_vars.insert(name@, value@),
                ..old(self)@
            }),
    {
        self.env_vars.set(name, value);
    }

    /// Note all variables of the process environment.
    pub fn set_process_envs(&mut self, env: &Table)
        ensures
            final(self)@ == (VarsView {
                process_env: old(self)@.process_env.union_prefer_right(env@),
                ..old(self)@
            }),
    {
        self.process_env.set_all(env);
    }

    /// Note a variable of the process environment, for `{{$env.NAME}}`.
    pub fn set_process_env(&mut self, name: &str, value: &str)
        ensures
            final(self)@ == (VarsView {
                process_env: old(self)@.process_env.insert(name@, value@),
                ..old(self)@
            }),
    {
        self.process_env.set(name, value);
    }

    /// Install file variables; the *values* may themselves reference earlier
    /// variables (`@base = http://{{host}}`), so each is resolved as it is
    /// declared, in order.
    pub fn set_file_vars(&mut self, vars: &[(String, String)]) -> (r: Result<(), String>)
        ensures
            timed(old(self)@, final(self)@),
            (failure_of(r), final(self)@) == file_vars_from(
                old(self)@,
                text::pairs(vars@),
                0,
                final(self)@.readings,
            ),
            forall|clock: Seq<u64>|
                begins(clock, final(self)@.readings) ==> (failure_of(r), final(self)@)
                    == #[trigger] file_vars_from(old(self)@, text::pairs(vars@), 0, clock),
    {
        let ghost start = self@;
        let ghost all = text::pairs(vars@);
        let mut i: usize = 0;
        while i < vars.len()
            invariant
                i <= vars.len(),
                start == old(self)@,
                all == text::pairs(vars@),
                timed(start, self@),
                forall|clock: Seq<u64>|
                    begins(clock, self@.readings) ==> #[trigger] file_vars_from(
                        start,
                        all,
                        0,
                        clock,
                    ) == file_vars_from(self@, all, i as int, clock),
            decreases vars.len() - i,
        {
            let ghost before = self@;
            assert(all[i as int] == (vars@[i as int].0@, vars@[i as int].1@));
            let resolved: Result<String, String> = self.substitute_with(vars[i].1.as_str(), false);
            proof {
                lemma_timed(start, before, self@);
                assert forall|clock: Seq<u64>| begins(clock, self@.readings) implies begins(
                    clock,
                    before.readings,
                ) && replaced(before, all[i as int].1, false, clock) == (Draw {
                    result: text::text_result(resolved),
                    vars: self@,
                }) && #[trigger] file_vars_from(start, all, 0, clock) == file_vars_from(
                    before,
                    all,
                    i as int,
                    clock,
                ) by {
                    lemma_begins(clock, self@.readings, before.readings);
                }
            }
            match resolved {
                Err(e) => {
                    return Err(e);
                },
                Ok(resolved) => {
                    self.file_vars.set(vars[i].0.as_str(), resolved.as_str());
                },
            }
            i += 1;
        }
        Ok(())
    }

    fn lookup(&self, name: &str) -> (r: Option<String>)
        ensures
            text::opt_text(r) == self@.lookup(name@),
    {
        if let Some(v) = self.overrides.get(name) {
            return Some(v);
        }
        if let Some(v) = self.globals.get(name) {
            return Some(v);
        }
        if let Some(v) = self.file_vars.get(name) {
            return Some(v);
        }
        self.env_vars.get(name)
    }

    /// Replace every `{{name}}` in `input`. Unknown variables are an error —
    /// silently sending a literal `{{token}}` to a server is how CI lies to you.
    pub fn substitute(&mut self, input: &str) -> (r: Result<String, String>)
        ensures
            timed(old(self)@, final(self)@),
            (Draw { result: text::text_result(r), vars: final(self)@ }) == replaced(
                old(self)@,
                input@,
                false,
                final(self)@.readings,
            ),
    {
        self.substitute_with(input, false)
    }

    /// Like [`substitute`](Self::substitute), but unknown variables render as
    /// their literal `{{name}}` text. Used by `--dry-run`, where values set by
    /// response handlers (e.g. a captured token) cannot exist yet.
    pub fn substitute_lenient(&mut self, input: &str) -> (r: Result<String, String>)
        ensures
            timed(old(self)@, final(self)@),
            (Draw { result: text::text_result(r), vars: final(self)@ }) == replaced(
                old(self)@,
                input@,
                true,
                final(self)@.readings,
            ),
    {
        self.substitute_with(input, true)
    }

    /// Replace every `{{name}}` in `input`. The times that are read are noted;
    /// what may be read later changes nothing.
    pub fn substitute_with(&mut self, input: &str, lenient: bool) -> (r: Result<String, String>)
        ensures
            timed(old(self)@, final(self)@),
            (Draw { result: text::text_result(r), vars: final(self)@ }) == replaced(
                old(self)@,
                input@,
                lenient,
                final(self)@.readings,
            ),
            forall|clock: Seq<u64>|
                begins(clock, final(self)@.readings) ==> (Draw {
                    result: text::text_result(r),
                    vars: final(self)@,
                }) == #[trigger] replaced(old(self)@, input@, lenient, clock),
    {
        let ghost start = self@;
        let chars: Vec<char> = text::chars(input);
        let s: &[char] = chars.as_slice();
        let mut out: String = String::new();
        let mut i: usize = 0;
        proof {
            reveal_strlit("{{");
            reveal_strlit("}}");
            reveal(replaced);
            assert(out@ == Seq::<char>::empty());
        }
        loop
            invariant
                i <= s.len(),
                s@ == input@,
                start == old(self)@,
                "{{"@.len() == 2,
                "}}"@.len() == 2,
                timed(start, self@),
                forall|clock: Seq<u64>|
                    begins(clock, self@.readings) ==> #[trigger] replaced(start, s@, lenient, clock)
                        == replaced_from(self@, s@, i as int, out@, lenient, clock),
            decreases s.len() - i,
        {
            let a: usize = match text::find_at(s, "{{", i) {
                Some(a) => a,
                None => {
                    let tail: String = text::string(slice_subrange(s, i, s.len()));
                    out.append(tail.as_str());
                    return Ok(out);
                },
            };
            let b: usize = match text::find_at(s, "}}", a + 2) {
                Some(b) => b,
                None => {
                    let shown: String = text::string(text::trim(s));
                    return Err(text::concat3("unclosed '{{' in '", shown.as_str(), "'"));
                },
            };
            let ghost before = self@;
            let name: &[char] = text::trim(slice_subrange(s, a + 2, b));
            let value: Result<String, String> = self.placeholder(name, lenient);
            proof {
                lemma_timed(start, before, self@);
                assert forall|clock: Seq<u64>| begins(clock, self@.readings) implies begins(
                    clock,
                    before.readings,
                ) && placeholder_value(before, name@, lenient, clock) == (Draw {
                    result: text::text_result(value),
                    vars: self@,
                }) && #[trigger] replaced(start, s@, lenient, clock) == replaced_from(
                    before,
                    s@,
                    i as int,
                    out@,
                    lenient,
                    clock,
                ) by {
                    lemma_begins(clock, self@.readings, before.readings);
                }
            }
            match value {
                Err(e) => {
                    return Err(e);
                },
                Ok(value) => {
                    let plain: String = text::string(slice_subrange(s, i, a));
                    out.append(plain.as_str());
                    out.append(value.as_str());
                },
            }
            i = b + 2;
        }
    }

    fn placeholder(&mut self, name: &[char], lenient: bool) -> (r: Result<String, String>)
        ensures
            timed(old(self)@, final(self)@),
            forall|clock: Seq<u64>|
                begins(clock, final(self)@.readings) ==> (Draw {
                    result: text::text_result(r),
                    vars: final(self)@,
                }) == #[trigger] placeholder_value(old(self)@, name@, lenient, clock),
    {
        if let Some(dynamic) = text::strip_prefix(name, "$") {
            return self.dynamic(dynamic);
        }
        let name: String = text::string(name);
        match self.lookup(name.as_str()) {
            Some(value) => Ok(value),
            None => if lenient {
                Ok(text::concat3("{{", name.as_str(), "}}"))
            } else {
                Err(text::concat3("undefined variable '{{", name.as_str(), "}}'"))
            },
        }
    }

    /// JetBrains dynamic variables. Each occurrence is evaluated independently
    /// (two `{{$uuid}}` in one request differ), like in the editor.
    fn dynamic(&mut self, name: &[char]) -> (r: Result<String, String>)
        ensures
            timed(old(self)@, final(self)@),
            forall|clock: Seq<u64>|
                begins(clock, final(self)@.readings) ==> (Draw {
                    result: text::text_result(r),
                    vars: final(self)@,
                }) == #[trigger] dynamic_value(old(self)@, name@, clock),
    {
        proof {
            reveal(dynamic_value);
        }
        if text::same(name, "uuid") || text::same(name, "random.uuid") {
            return Ok(self.rng.uuid_v4());
        }
        if text::same(name, "timestamp") {
            let now: u64 = self.read_time();
            return Ok(text::decimal_string(now));
        }
        if text::same(name, "isoTimestamp") {
            let now: u64 = self.read_time();
            return Ok(calendar::iso_utc(now));
        }
        if text::same(name, "randomInt") {
            return Ok(text::decimal_string(self.rng.next() % 1000));
        }
        let full: String = text::string(name);
        if let Some(env_name) = text::strip_prefix(name, "env.") {
            let env_name: String = text::string(env_name);
            return match self.process_env.get(env_name.as_str()) {
                Some(value) => Ok(value),
                None => Err(
                    text::concat5(
                        "environment variable '",
                        env_name.as_str(),
                        "' is not set (from {{$env.",
                        env_name.as_str(),
                        "}})",
                    ),
                ),
            };
        }
        let args: Option<&[char]> = match text::strip_prefix(name, "random.integer(") {
            Some(rest) => text::strip_suffix(rest, ")"),
            None => None,
        };
        match args {
            None => Err(
                text::concat3("unknown dynamic variable '{{$", full.as_str(), "}}'"),
            ),
            Some(args) => match parse_bounds(args) {
                None => Err(text::concat3("bad arguments in {{$", full.as_str(), "}}")),
                Some((lo, hi)) => {
                    if hi <= lo {
                        return Err(text::concat3("empty range in {{$", full.as_str(), "}}"));
                    }
                    let n: u64 = self.rng.next();
                    Ok(text::decimal_string(lo + n % (hi - lo)))
                },
            },
        }
    }
}

/// What the bounds of a range stand for.
spec fn bounds_result(r: Option<(u64, u64)>) -> Option<(nat, nat)> {
    match r {
        Some((lo, hi)) => Some((lo as nat, hi as nat)),
        None => None,
    }
}

fn parse_bounds(args: &[char]) -> (r: Option<(u64, u64)>)
    ensures
        bounds_result(r) == bounds(args@),
{
    match text::split_once(args, ",") {
        None => None,
        Some((a, b)) => {
            let lo: Option<u64> = text::parse_unsigned(text::trim(a), 10, u64::MAX);
            let hi: Option<u64> = text::parse_unsigned(text::trim(b), 10, u64::MAX);
            match (lo, hi) {
                (Some(lo), Some(hi)) => Some((lo, hi)),
                _ => None,
            }
        },
    }
}

// ------------------------------------------------------- environments ----

/// The variables of an environment set, from member `i` on.
pub open spec fn env_vars_from(
    vars: Map<Seq<char>, Seq<char>>,
    members: Seq<(Seq<char>, ValueView)>,
    i: int,
) -> Map<Seq<char>, Seq<char>>
    decreases members.len() - i,
{
    if i < 0 || i >= members.len() {
        vars
    } else {
        env_vars_from(vars.insert(members[i].0, members[i].1.shown()), members, i + 1)
    }
}

/// The keys of the members.
pub open spec fn keys(members: Seq<(Seq<char>, ValueView)>) -> Seq<Seq<char>> {
    Seq::new(members.len(), |i: int| members[i].0)
}

/// The environment variables after the named environment of a file has been
/// applied, or why it cannot be.
pub open spec fn env_applied(
    vars: Map<Seq<char>, Seq<char>>,
    file: FileView,
    name: Seq<char>,
    required: bool,
) -> Result<Map<Seq<char>, Seq<char>>, Seq<char>> {
    match file.content {
        Err(e) => Err(files::unreadable(file.path, e)),
        Ok(content) => match json::parsed(content) {
            Err(e) => Err(file.path + ": invalid JSON: "@ + e),
            Ok(doc) => match doc {
                ValueView::Object(envs) => match json::member_from(envs, name, 0) {
                    Some(ValueView::Object(members)) => Ok(env_vars_from(vars, members, 0)),
                    Some(_) => Err(
                        file.path + ": environment '"@ + name + "' is not an object"@,
                    ),
                    None => if required {
                        Err(
                            file.path + ": no environment named '"@ + name + "' (available: "@ + (
                            if envs.len() == 0 {
                                "none"@
                            } else {
                                text::joined(keys(envs), ", "@)
                            }) + ")"@,
                        )
                    } else {
                        Ok(vars)
                    },
                },
                _ => Err(file.path + ": expected a top-level object"@),
            },
        },
    }
}

/// What loading an environment leads to: the failure that stopped it, and the
/// environment variables afterwards. The values of the private file win.
pub open spec fn env_loaded(
    vars: Map<Seq<char>, Seq<char>>,
    public: FileView,
    private: Option<FileView>,
    name: Seq<char>,
) -> (Option<Seq<char>>, Map<Seq<char>, Seq<char>>) {
    match env_applied(vars, public, name, true) {
        Err(e) => (Some(e), vars),
        Ok(first) => match private {
            None => (None, first),
            Some(file) => match env_applied(first, file, name, false) {
                Err(e) => (Some(e), first),
                Ok(second) => (None, second),
            },
        },
    }
}

fn apply_env_file(file: &TextFile, name: &str, vars: &mut Vars, required: bool) -> (r: Result<
    (),
    String,
>)
    ensures
        match env_applied(old(vars)@.env_vars, file@, name@, required) {
            Ok(env_vars) => r is Ok && final(vars)@ == (VarsView { env_vars, ..old(vars)@ }),
            Err(e) => failure_of(r) == Some(e) && final(vars)@ == old(vars)@,
        },
{
    let content: &str = match file.text() {
        Ok(content) => content,
        Err(e) => {
            return Err(e);
        },
    };
    let doc: Value = match json::parse(content) {
        Ok(doc) => doc,
        Err(e) => {
            return Err(text::concat3(file.path.as_str(), ": invalid JSON: ", e.as_str()));
        },
    };
    let envs: &Vec<(String, Value)> = match &doc {
        Value::Object(envs) => envs,
        _ => {
            return Err(text::concat2(file.path.as_str(), ": expected a top-level object"));
        },
    };
    match doc.get(name) {
        Some(Value::Object(members)) => {
            set_members(vars, members);
            Ok(())
        },
        Some(_) => {
            let message: String = text::concat3(file.path.as_str(), ": environment '", name);
            Err(text::concat2(message.as_str(), "' is not an object"))
        },
        None => {
            if !required {
                return Ok(());
            }
            let known: String = if envs.len() == 0 {
                text::owned("none")
            } else {
                let names: Vec<String> = member_names(envs);
                text::join(&names, ", ")
            };
            let message: String = text::concat5(
                file.path.as_str(),
                ": no environment named '",
                name,
                "' (available: ",
                known.as_str(),
            );
            Err(text::concat2(message.as_str(), ")"))
        },
    }
}

fn member_names(members: &Vec<(String, Value)>) -> (r: Vec<String>)
    ensures
        text::texts(r@) == keys(json::member_shapes(members@)),
{
    let mut out: Vec<String> = Vec::new();
    let mut i: usize = 0;
    while i < members.len()
        invariant
            i <= members.len(),
            out@.len() == i,
            forall|k: int| 0 <= k < i ==> (#[trigger] out@[k])@ == members@[k].0@,
        decreases members.len() - i,
    {
        out.push(text::owned(members[i].0.as_str()));
        i += 1;
    }
    assert(text::texts(out@) =~= keys(json::member_shapes(members@)));
    out
}

fn set_members(vars: &mut Vars, members: &Vec<(String, Value)>)
    ensures
        final(vars)@ == (VarsView {
            env_vars: env_vars_from(
                old(vars)@.env_vars,
                json::member_shapes(members@),
                0,
            ),
            ..old(vars)@
        }),
{
    let ghost start = vars@;
    let ghost all = json::member_shapes(members@);
    let mut i: usize = 0;
    while i < members.len()
        invariant
            i <= members.len(),
            start == old(vars)@,
            all == json::member_shapes(members@),
            vars@ == (VarsView { env_vars: vars@.env_vars, ..start }),
            env_vars_from(start.env_vars, all, 0) == env_vars_from(
                vars@.env_vars,
                all,
                i as int,
            ),
        decreases members.len() - i,
    {
        let value: String = members[i].1.to_text();
        assert(all[i as int] == (members@[i as int].0@, members@[i as int].1@));
        vars.set_env_var(members[i].0.as_str(), value.as_str());
        i += 1;
    }
}

/// Load an environment from JetBrains `http-client.env.json` format:
/// `{ "envName": { "key": "value", ... }, ... }`. If a sibling
/// `http-client.private.env.json` exists its values win, mirroring the editor.
pub fn load_environment(
    public: &TextFile,
    private: &Option<TextFile>,
    env_name: &str,
    vars: &mut Vars,
) -> (r: Result<(), String>)
    ensures
        final(vars)@ == (VarsView { env_vars: final(vars)@.env_vars, ..old(vars)@ }),
        (failure_of(r), final(vars)@.env_vars) == env_loaded(
            old(vars)@.env_vars,
            public@,
            files::opt_view(*private),
            env_name@,
        ),
{
    match apply_env_file(public, env_name, vars, true) {
        Err(e) => {
            return Err(e);
        },
        Ok(_) => {},
    }
    match private {
        Some(file) => apply_env_file(file, env_name, vars, false),
        None => Ok(()),
    }
}

// --------------------------------------------------------------- laws ----

/// Text without an opening brace pair is left as it is.
pub proof fn law_plain_text_is_unchanged(v: VarsView, s: Seq<char>, lenient: bool, clock: Seq<u64>)
    requires
        !text::contains(s, "{{"@),
    ensures
        replaced(v, s, lenient, clock) == (Draw { result: Ok(s), vars: v }),
{
    reveal(replaced);
    assert(Seq::<char>::empty() + s.skip(0) =~= s);
}

/// Whatever happens, an override wins over a global, a global over a file
/// variable, and a file variable over the environment.
pub proof fn law_precedence(v: VarsView, name: Seq<char>)
    ensures
        v.overrides.contains_key(name) ==> v.lookup(name) == Some(v.overrides[name]),
        !v.overrides.contains_key(name) && v.globals.contains_key(name) ==> v.lookup(name) == Some(
            v.globals[name],
        ),
        !v.overrides.contains_key(name) && !v.globals.contains_key(name)
            && v.file_vars.contains_key(name) ==> v.lookup(name) == Some(v.file_vars[name]),
        !v.overrides.contains_key(name) && !v.globals.contains_key(name)
            && !v.file_vars.contains_key(name) && v.env_vars.contains_key(name) ==> v.lookup(name)
            == Some(v.env_vars[name]),
        v.lookup(name) is None <==> !v.overrides.contains_key(name) && !v.globals.contains_key(name)
            && !v.file_vars.contains_key(name) && !v.env_vars.contains_key(name),
{
}

proof fn lemma_lenient_from(
    v: VarsView,
    s: Seq<char>,
    i: int,
    out: Seq<char>,
    clock: Seq<u64>,
)
    requires
        replaced_from(v, s, i, out, false, clock).result is Ok,
    ensures
        replaced_from(v, s, i, out, true, clock) == replaced_from(v, s, i, out, false, clock),
    decreases s.len() - i,
{
    if let Some(a) = text::find(s, "{{"@, i) {
        if let Some(b) = text::find(s, "}}"@, a + 2) {
            reveal_strlit("{{");
            reveal_strlit("}}");
            text::lemma_find_bounds(s, "{{"@, i);
            text::lemma_find_bounds(s, "}}"@, a + 2);
            let value = placeholder_value(v, text::trimmed(s.subrange(a + 2, b)), false, clock);
            lemma_lenient_from(
                value.vars,
                s,
                b + 2,
                out + s.subrange(i, a) + value.result->Ok_0,
                clock,
            );
        }
    }
}

/// Where strict substitution succeeds, lenient substitution does the same.
pub proof fn law_lenient_agrees_with_strict(v: VarsView, s: Seq<char>, clock: Seq<u64>)
    requires
        replaced(v, s, false, clock).result is Ok,
    ensures
        replaced(v, s, true, clock) == replaced(v, s, false, clock),
{
    reveal(replaced);
    lemma_lenient_from(v, s, 0, seq![], clock);
}

proof fn lemma_tables_kept_from(
    v: VarsView,
    s: Seq<char>,
    i: int,
    out: Seq<char>,
    lenient: bool,
    clock: Seq<u64>,
)
    ensures
        ({
            let w = replaced_from(v, s, i, out, lenient, clock).vars;
            w == VarsView { rng: w.rng, readings: w.readings, ..v } && (v.rng != 0 ==> w.rng != 0)
        }),
    decreases s.len() - i,
{
    if let Some(a) = text::find(s, "{{"@, i) {
        if let Some(b) = text::find(s, "}}"@, a + 2) {
            reveal_strlit("{{");
            reveal_strlit("}}");
            text::lemma_find_bounds(s, "{{"@, i);
            text::lemma_find_bounds(s, "}}"@, a + 2);
            let value = placeholder_value(v, text::trimmed(s.subrange(a + 2, b)), lenient, clock);
            assert(value.vars == VarsView { rng: value.vars.rng, readings: value.vars.readings, ..v } && (v.rng != 0
                ==> value.vars.rng != 0)) by {
                reveal(dynamic_value);
                if v.rng != 0 {
                    random::law_state_stays_nonzero(v.rng);
                    random::law_state_stays_nonzero(v.stepped().rng);
                }
            }
            if let Ok(t) = value.result {
                lemma_tables_kept_from(
                    value.vars,
                    s,
                    b + 2,
                    out + s.subrange(i, a) + t,
                    lenient,
                    clock,
                );
            }
        }
    }
}

/// Substitution changes no variable, only the generator state, which never
/// becomes zero, and the times read.
pub proof fn law_substitution_keeps_variables(
    v: VarsView,
    s: Seq<char>,
    lenient: bool,
    clock: Seq<u64>,
)
    ensures
        ({
            let w = replaced(v, s, lenient, clock).vars;
            w == VarsView { rng: w.rng, readings: w.readings, ..v } && (v.rng != 0 ==> w.rng != 0)
        }),
{
    reveal(replaced);
    lemma_tables_kept_from(v, s, 0, seq![], lenient, clock);
}

/// The names between the brace pairs of a text, from `i` on.
pub open spec fn names_from(s: Seq<char>, i: int) -> Seq<Seq<char>>
    decreases s.len() - i,
{
    match text::find(s, "{{"@, i) {
        None => seq![],
        Some(a) => match text::find(s, "}}"@, a + 2) {
            None => seq![],
            Some(b) => {
                proof {
                    reveal_strlit("{{");
                    reveal_strlit("}}");
                    text::lemma_find_bounds(s, "{{"@, i);
                    text::lemma_find_bounds(s, "}}"@, a + 2);
                }
                seq![text::trimmed(s.subrange(a + 2, b))] + names_from(s, b + 2)
            },
        },
    }
}

/// Every opening brace pair from `i` on has a closing one.
pub open spec fn closed_from(s: Seq<char>, i: int) -> bool
    decreases s.len() - i,
{
    match text::find(s, "{{"@, i) {
        None => true,
        Some(a) => match text::find(s, "}}"@, a + 2) {
            None => false,
            Some(b) => {
                proof {
                    reveal_strlit("{{");
                    reveal_strlit("}}");
                    text::lemma_find_bounds(s, "{{"@, i);
                    text::lemma_find_bounds(s, "}}"@, a + 2);
                }
                closed_from(s, b + 2)
            },
        },
    }
}

/// A name that resolves without the generator, the clock or the process.
pub open spec fn defined(v: VarsView, name: Seq<char>) -> bool {
    !text::starts(name, "$"@) && v.lookup(name) is Some
}

proof fn lemma_names_from(v: VarsView, s: Seq<char>, i: int, out: Seq<char>, clock: Seq<u64>)
    ensures
        replaced_from(v, s, i, out, false, clock).result is Ok ==> closed_from(s, i) && (forall|k: int|
            0 <= k < names_from(s, i).len() ==> text::starts(#[trigger] names_from(s, i)[k], "$"@)
                || defined(v, names_from(s, i)[k])),
        closed_from(s, i) && (forall|k: int|
            0 <= k < names_from(s, i).len() ==> defined(v, #[trigger] names_from(s, i)[k]))
            ==> replaced_from(v, s, i, out, false, clock).result is Ok,
    decreases s.len() - i,
{
    if let Some(a) = text::find(s, "{{"@, i) {
        if let Some(b) = text::find(s, "}}"@, a + 2) {
            reveal_strlit("{{");
            reveal_strlit("}}");
            text::lemma_find_bounds(s, "{{"@, i);
            text::lemma_find_bounds(s, "}}"@, a + 2);
            let name = text::trimmed(s.subrange(a + 2, b));
            let value = placeholder_value(v, name, false, clock);
            let all = names_from(s, i);
            let rest = names_from(s, b + 2);
            assert(all == seq![name] + rest);
            assert(all[0] == name);
            assert(forall|k: int| 0 <= k < rest.len() ==> rest[k] == #[trigger] all[k + 1]);
            assert(value.vars == VarsView { rng: value.vars.rng, readings: value.vars.readings, ..v }) by {
                reveal(dynamic_value);
            }
            if let Ok(t) = value.result {
                let longer = out + s.subrange(i, a) + t;
                lemma_names_from(value.vars, s, b + 2, longer, clock);
                if replaced_from(v, s, i, out, false, clock).result is Ok {
                    assert forall|k: int| 0 <= k < all.len() implies text::starts(
                        #[trigger] all[k],
                        "$"@,
                    ) || defined(v, all[k]) by {
                        if k > 0 {
                            assert(all[k] == rest[k - 1]);
                            assert(defined(value.vars, rest[k - 1]) ==> defined(v, rest[k - 1]));
                        }
                    }
                }
                if closed_from(s, i) && (forall|k: int|
                    0 <= k < all.len() ==> defined(v, #[trigger] all[k])) {
                    assert forall|k: int| 0 <= k < rest.len() implies defined(
                        value.vars,
                        #[trigger] rest[k],
                    ) by {
                        assert(rest[k] == all[k + 1]);
                        assert(defined(v, all[k + 1]));
                    }
                }
            }
        }
    }
}

/// Unknown variables fail: strict substitution succeeds only where every brace
/// pair is closed and every name in them is dynamic or defined, and always
/// where they are all defined.
pub proof fn law_unknown_variables_fail(v: VarsView, s: Seq<char>, clock: Seq<u64>)
    ensures
        replaced(v, s, false, clock).result is Ok ==> closed_from(s, 0) && (forall|k: int|
            0 <= k < names_from(s, 0).len() ==> text::starts(#[trigger] names_from(s, 0)[k], "$"@)
                || defined(v, names_from(s, 0)[k])),
        closed_from(s, 0) && (forall|k: int|
            0 <= k < names_from(s, 0).len() ==> defined(v, #[trigger] names_from(s, 0)[k]))
            ==> replaced(v, s, false, clock).result is Ok,
{
    reveal(replaced);
    lemma_names_from(v, s, 0, seq![], clock);
}

/// `random.integer(lo, hi)` gives a number from `lo` up to, but not with, `hi`.
pub proof fn law_random_integer_is_in_range(
    v: VarsView,
    name: Seq<char>,
    clock: Seq<u64>,
    lo: nat,
    hi: nat,
)
    requires
        integer_args(name) matches Some(args) && bounds(args) == Some((lo, hi)),
        lo < hi,
    ensures
        exists|n: nat|
            lo <= n < hi && dynamic_value(v, name, clock).result == Ok::<Seq<char>, Seq<char>>(
                #[trigger] text::decimal(n),
            ),
{
    reveal(dynamic_value);
    reveal_strlit("uuid");
    reveal_strlit("random.uuid");
    reveal_strlit("timestamp");
    reveal_strlit("isoTimestamp");
    reveal_strlit("randomInt");
    reveal_strlit("env.");
    reveal_strlit("random.integer(");
    let head = name.take("random.integer("@.len() as int);
    assert(head[0] == 'r' && head[6] == '.' && head[7] == 'i');
    assert(name[0] == 'r' && name[6] == '.' && name[7] == 'i');
    if text::starts(name, "env."@) {
        assert(name.take(4)[0] == 'e');
    }
    let n = lo + random::drawn(v.rng) as nat % (hi - lo) as nat;
    assert(lo <= n < hi);
    assert(dynamic_value(v, name, clock).result == Ok::<Seq<char>, Seq<char>>(text::decimal(n)));
}

/// `randomInt` gives a number below 1000.
pub proof fn law_random_int_is_below_1000(v: VarsView, clock: Seq<u64>)
    ensures
        exists|n: nat|
            n < 1000 && dynamic_value(v, "randomInt"@, clock).result == Ok::<Seq<char>, Seq<char>>(
                #[trigger] text::decimal(n),
            ),
{
    reveal(dynamic_value);
    reveal_strlit("uuid");
    reveal_strlit("random.uuid");
    reveal_strlit("timestamp");
    reveal_strlit("isoTimestamp");
    reveal_strlit("randomInt");
    assert("randomInt"@[6] != "random.uuid"@[6]);
    assert("randomInt"@[0] != "timestamp"@[0]);
    let n = (random::drawn(v.rng) % 1000) as nat;
    assert(dynamic_value(v, "randomInt"@, clock).result == Ok::<Seq<char>, Seq<char>>(
        text::decimal(n),
    ));
}

proof fn lemma_env_value(
    vars: Map<Seq<char>, Seq<char>>,
    members: Seq<(Seq<char>, ValueView)>,
    i: int,
    key: Seq<char>,
)
    requires
        0 <= i <= members.len(),
        forall|k: int| i <= k < members.len() ==> (#[trigger] members[k]).0 != key,
    ensures
        env_vars_from(vars, members, i).get(key) == vars.get(key),
    decreases members.len() - i,
{
    if i < members.len() {
        lemma_env_value(vars.insert(members[i].0, members[i].1.shown()), members, i + 1, key);
    }
}

proof fn lemma_env_set(
    vars: Map<Seq<char>, Seq<char>>,
    members: Seq<(Seq<char>, ValueView)>,
    i: int,
    k: int,
)
    requires
        0 <= i <= k < members.len(),
        forall|j: int| k < j < members.len() ==> (#[trigger] members[j]).0 != members[k].0,
    ensures
        env_vars_from(vars, members, i).get(members[k].0) == Some(members[k].1.shown()),
    decreases members.len() - i,
{
    let next = vars.insert(members[i].0, members[i].1.shown());
    if i == k {
        lemma_env_value(next, members, i + 1, members[k].0);
    } else {
        lemma_env_set(next, members, i + 1, k);
    }
}

/// A value of the private environment file wins over the public one.
pub proof fn law_private_value_wins(
    vars: Map<Seq<char>, Seq<char>>,
    public: FileView,
    private: FileView,
    name: Seq<char>,
    envs: Seq<(Seq<char>, ValueView)>,
    members: Seq<(Seq<char>, ValueView)>,
    k: int,
)
    requires
        env_applied(vars, public, name, true) is Ok,
        private.content matches Ok(content) && json::parsed(content) == Ok::<_, Seq<char>>(
            ValueView::Object(envs),
        ),
        json::member_from(envs, name, 0) == Some(ValueView::Object(members)),
        0 <= k < members.len(),
        forall|j: int| k < j < members.len() ==> (#[trigger] members[j]).0 != members[k].0,
    ensures
        env_loaded(vars, public, Some(private), name).0 is None,
        env_loaded(vars, public, Some(private), name).1.get(members[k].0) == Some(
            members[k].1.shown(),
        ),
{
    let first = env_applied(vars, public, name, true)->Ok_0;
    lemma_env_set(first, members, 0, k);
}

} // verus!
