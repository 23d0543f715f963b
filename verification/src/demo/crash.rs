//! The crash harness: which scenario runs, when its worker is killed, and what
//! the worker last said was durable.
use crate::text::{parse_u64, parsed_u64, same_text};
use vstd::prelude::*;

verus! {

/// What is going on when a worker is killed.
#[derive(Debug, Clone, Copy, PartialEq, Eq, Structural)]
pub enum Scenario {
    Append,
    Batch,
    Snapshot,
    Heal,
}

/// The name of a scenario.
pub open spec fn scenario_name(scenario: Scenario) -> Seq<char> {
    match scenario {
        Scenario::Append => "append"@,
        Scenario::Batch => "batch"@,
        Scenario::Snapshot => "snapshot"@,
        Scenario::Heal => "heal"@,
    }
}

/// The least delay before a kill, and how many delays there are.
pub open spec fn delay_range(scenario: Scenario) -> (u64, u64) {
    match scenario {
        Scenario::Append => (50, 450),
        Scenario::Batch => (50, 450),
        Scenario::Snapshot => (5, 45),
        Scenario::Heal => (1, 20),
    }
}

impl Scenario {
    /// The scenario of a name.
    pub fn parse(value: &str) -> (r: Option<Self>)
        ensures
            r matches Some(scenario) ==> scenario_name(scenario) == value@,
            r is None ==> forall|scenario: Scenario| #[trigger] scenario_name(scenario) != value@,
    {
        if same_text(value, "append") {
            Some(Scenario::Append)
        } else if same_text(value, "batch") {
            Some(Scenario::Batch)
        } else if same_text(value, "snapshot") {
            Some(Scenario::Snapshot)
        } else if same_text(value, "heal") {
            Some(Scenario::Heal)
        } else {
            None
        }
    }

    pub fn name(self) -> (r: &'static str)
        ensures
            r@ == scenario_name(self),
    {
        match self {
            Scenario::Append => "append",
            Scenario::Batch => "batch",
            Scenario::Snapshot => "snapshot",
            Scenario::Heal => "heal",
        }
    }

    /// How many milliseconds pass before the kill.
    pub fn kill_delay_ms(self, rng: &mut Rng) -> (r: u64)
        ensures
            final(rng).state == next_state(old(rng).state),
            r == delay_range(self).0 + drawn(final(rng).state) % delay_range(self).1,
    {
        let n: u64 = rng.next_u64();
        match self {
            Scenario::Append | Scenario::Batch => 50 + n % 450,
            Scenario::Snapshot => 5 + n % 45,
            Scenario::Heal => 1 + n % 20,
        }
    }
}

/// Scenarios have names of their own, so that a name gives back its scenario.
pub proof fn lemma_scenario_names(a: Scenario, b: Scenario)
    ensures
        scenario_name(a) == scenario_name(b) ==> a == b,
{
    reveal_strlit("append");
    reveal_strlit("batch");
    reveal_strlit("snapshot");
    reveal_strlit("heal");
    if scenario_name(a) == scenario_name(b) {
        assert(scenario_name(a)[0] == scenario_name(b)[0]);
    }
}

/// The step between the states of the generator.
pub const RNG_STEP: u64 = 0x9e37_79b9_7f4a_7c15;

/// A small generator that varies when workers are killed and what they write.
#[derive(Debug)]
pub struct Rng {
    pub state: u64,
}

/// The state after one number.
pub open spec fn next_state(state: u64) -> u64 {
    state.wrapping_add(RNG_STEP)
}

/// The number that a state gives: its bits mixed three times over.
pub open spec fn drawn(state: u64) -> u64 {
    let a = (state ^ (state >> 30)).wrapping_mul(0xbf58_476d_1ce4_e5b9);
    let b = (a ^ (a >> 27)).wrapping_mul(0x94d0_49bb_1331_11eb);
    b ^ (b >> 31)
}

impl Rng {
    /// A generator that starts from a time and a process.
    pub fn seeded(nanos: u64, process: u64) -> (r: Self)
        ensures
            r.state == nanos ^ process.wrapping_mul(RNG_STEP),
    {
        Rng { state: nanos ^ process.wrapping_mul(RNG_STEP) }
    }

    pub fn next_u64(&mut self) -> (r: u64)
        ensures
            final(self).state == next_state(old(self).state),
            r == drawn(final(self).state),
    {
        self.state = self.state.wrapping_add(RNG_STEP);
        let state: u64 = self.state;
        let a: u64 = (state ^ (state >> 30)).wrapping_mul(0xbf58_476d_1ce4_e5b9);
        let b: u64 = (a ^ (a >> 27)).wrapping_mul(0x94d0_49bb_1331_11eb);
        b ^ (b >> 31)
    }
}

/// The head that a line reports as durable.
pub open spec fn reported(line: Seq<char>) -> Option<u64> {
    let prefix = "DURABLE "@;
    if prefix.is_prefix_of(line) {
        parsed_u64(line.skip(prefix.len() as int))
    } else {
        None
    }
}

/// The last head that lines report as durable.
pub open spec fn last_reported(lines: Seq<String>) -> Option<u64>
    decreases lines.len(),
{
    if lines.len() == 0 {
        None
    } else if reported(lines.last()@) is Some {
        reported(lines.last()@)
    } else {
        last_reported(lines.drop_last())
    }
}

fn report_of(line: &str) -> (r: Option<u64>)
    ensures
        r == reported(line@),
{
    let prefix = "DURABLE ";
    let skipped: usize = prefix.unicode_len();
    let len: usize = line.unicode_len();
    if len < skipped {
        return None;
    }
    let front = line.substring_char(0, skipped);
    assert(front@ == prefix@ <==> prefix@.is_prefix_of(line@)) by {
        assert(line@.subrange(0, skipped as int) =~= front@);
    }
    if !same_text(front, prefix) {
        return None;
    }
    let rest = line.substring_char(skipped, len);
    assert(rest@ =~= line@.skip(skipped as int));
    parse_u64(rest)
}

/// The last head that a worker reported as durable.
pub fn last_durable_head(lines: &Vec<String>) -> (r: Option<u64>)
    ensures
        r == last_reported(lines@),
{
    let mut last: Option<u64> = None;
    let mut i: usize = 0;
    assert(lines@.take(0) =~= Seq::empty());
    while i < lines.len()
        invariant
            i <= lines@.len(),
            last == last_reported(lines@.take(i as int)),
        decreases lines@.len() - i,
    {
        proof {
            assert(lines@.take(i + 1).drop_last() =~= lines@.take(i as int));
            assert(lines@.take(i + 1).last() == lines@[i as int]);
        }
        match report_of(lines[i].as_str()) {
            Some(head) => {
                last = Some(head);
            },
            None => {},
        }
        i = i + 1;
    }
    assert(lines@.take(i as int) =~= lines@);
    last
}

/// Whether recovery kept what was reported as durable.
pub fn keeps_reported(head: u64, reported: Option<u64>) -> (r: bool)
    ensures
        r <==> (reported matches Some(durable) ==> head >= durable),
{
    match reported {
        Some(durable) => head >= durable,
        None => true,
    }
}

} // verus!
