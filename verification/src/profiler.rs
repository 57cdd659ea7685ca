use vstd::prelude::*;
use vstd::string::StringExecFns;
use std::time::{Duration, Instant};

verus! {

/// `std::time::Instant`, a reading of the monotonic clock; opaque here.
#[verifier::external_type_specification]
#[verifier::external_body]
pub struct ExInstant(Instant);

/// `std::time::Instant::now`: a reading of the clock. Nothing is stated of
/// the reading.
#[verifier::external_body]
fn instant_now() -> Instant {
    Instant::now()
}

/// `std::time::Instant::elapsed`: the time since `start`, by the clock.
/// Nothing is stated of the duration.
#[verifier::external_body]
fn instant_elapsed(start: &Instant) -> Duration {
    start.elapsed()
}

/// `std::time::Duration::as_nanos`: the whole number of nanoseconds in `d`.
/// Nothing is stated of the number, since `d` is opaque here.
#[verifier::external_body]
fn duration_as_nanos(d: &Duration) -> u128 {
    d.as_nanos()
}

/// Totals gathered while profiling: time (in nanoseconds) and call counts of
/// the `matmul`, `softmax` and `layer_norm` regions, and the number and total
/// size of the tracked allocations. Every total wraps around on overflow.
pub struct ProfileStats {
    pub matmul_time: u64,
    pub matmul_calls: u64,
    pub softmax_time: u64,
    pub softmax_calls: u64,
    pub layernorm_time: u64,
    pub layernorm_calls: u64,
    pub allocation_count: u64,
    pub allocation_bytes: u64,
}

/// `after` is `before` with a region of `elapsed_ns` nanoseconds counted:
/// the time and call total of the region named `name`, if it is one of the
/// tracked regions, grow (wrapping) by `elapsed_ns` and one; nothing else
/// changes.
pub open spec fn recorded(before: ProfileStats, after: ProfileStats, name: Seq<char>, elapsed_ns: u64) -> bool {
    let is_matmul = name == "matmul"@;
    let is_softmax = name == "softmax"@;
    let is_layernorm = name == "layer_norm"@;
    &&& after.matmul_time == if is_matmul { before.matmul_time.wrapping_add(elapsed_ns) } else { before.matmul_time }
    &&& after.matmul_calls == if is_matmul { before.matmul_calls.wrapping_add(1) } else { before.matmul_calls }
    &&& after.softmax_time == if is_softmax { before.softmax_time.wrapping_add(elapsed_ns) } else { before.softmax_time }
    &&& after.softmax_calls == if is_softmax { before.softmax_calls.wrapping_add(1) } else { before.softmax_calls }
    &&& after.layernorm_time == if is_layernorm {
        before.layernorm_time.wrapping_add(elapsed_ns)
    } else {
        before.layernorm_time
    }
    &&& after.layernorm_calls == if is_layernorm {
        before.layernorm_calls.wrapping_add(1)
    } else {
        before.layernorm_calls
    }
    &&& after.allocation_count == before.allocation_count
    &&& after.allocation_bytes == before.allocation_bytes
}

impl ProfileStats {
    /// All totals at zero.
    pub fn new() -> (s: Self)
        ensures
            s.matmul_time == 0 && s.matmul_calls == 0,
            s.softmax_time == 0 && s.softmax_calls == 0,
            s.layernorm_time == 0 && s.layernorm_calls == 0,
            s.allocation_count == 0 && s.allocation_bytes == 0,
    {
        ProfileStats {
            matmul_time: 0,
            matmul_calls: 0,
            softmax_time: 0,
            softmax_calls: 0,
            layernorm_time: 0,
            layernorm_calls: 0,
            allocation_count: 0,
            allocation_bytes: 0,
        }
    }

    /// Counts a finished region of `elapsed_ns` nanoseconds under its name.
    pub fn record(&mut self, name: &str, elapsed_ns: u64)
        ensures
            recorded(*old(self), *final(self), name@, elapsed_ns),
    {
        proof {
            reveal_strlit("matmul");
            reveal_strlit("softmax");
            reveal_strlit("layer_norm");
            assert("matmul"@.len() == 6);
            assert("softmax"@.len() == 7);
            assert("layer_norm"@.len() == 10);
        }
        let region = String::from_str(name);
        if region == String::from_str("matmul") {
            self.matmul_time = self.matmul_time.wrapping_add(elapsed_ns);
            self.matmul_calls = self.matmul_calls.wrapping_add(1);
        } else if region == String::from_str("softmax") {
            self.softmax_time = self.softmax_time.wrapping_add(elapsed_ns);
            self.softmax_calls = self.softmax_calls.wrapping_add(1);
        } else if region == String::from_str("layer_norm") {
            self.layernorm_time = self.layernorm_time.wrapping_add(elapsed_ns);
            self.layernorm_calls = self.layernorm_calls.wrapping_add(1);
        }
    }
}

/// Counts one allocation of `bytes` bytes: the allocation count grows by one
/// and the byte total by `bytes`, both wrapping; nothing else changes.
pub fn track_allocation(stats: &mut ProfileStats, bytes: usize)
    ensures
        final(stats).allocation_count == old(stats).allocation_count.wrapping_add(1),
        final(stats).allocation_bytes == old(stats).allocation_bytes.wrapping_add(bytes as u64),
        final(stats).matmul_time == old(stats).matmul_time,
        final(stats).matmul_calls == old(stats).matmul_calls,
        final(stats).softmax_time == old(stats).softmax_time,
        final(stats).softmax_calls == old(stats).softmax_calls,
        final(stats).layernorm_time == old(stats).layernorm_time,
        final(stats).layernorm_calls == old(stats).layernorm_calls,
{
    stats.allocation_count = stats.allocation_count.wrapping_add(1);
    stats.allocation_bytes = stats.allocation_bytes.wrapping_add(bytes as u64);
}

/// The regions being timed, innermost last, each with its start time.
pub struct TimerStack {
    pub entries: Vec<(&'static str, Instant)>,
}

impl TimerStack {
    /// No region is being timed.
    pub fn new() -> (s: Self)
        ensures
            s.entries@.len() == 0,
    {
        TimerStack { entries: Vec::new() }
    }
}

/// A region being timed: its name and when it started.
pub struct ProfileGuard {
    pub name: &'static str,
    pub start: Instant,
}

/// More than a millisecond: a region worth reporting.
pub open spec fn is_slow(elapsed_ns: u64) -> bool {
    elapsed_ns > 1_000_000
}

impl ProfileGuard {
    /// Starts timing the region `name` now and pushes it on the stack of
    /// regions being timed.
    pub fn new(name: &'static str, stack: &mut TimerStack) -> (g: Self)
        ensures
            g.name == name,
            final(stack).entries@ == old(stack).entries@.push((name, g.start)),
    {
        let start = instant_now();
        stack.entries.push((name, start));
        ProfileGuard { name, start }
    }

    /// Ends the region: pops the innermost region off the stack, counts the
    /// elapsed time under the region's name, and returns the elapsed
    /// nanoseconds with whether the region took more than a millisecond.
    pub fn finish(self, stack: &mut TimerStack, stats: &mut ProfileStats) -> (r: (u64, bool))
        ensures
            old(stack).entries@.len() > 0 ==> final(stack).entries@ == old(stack).entries@.drop_last(),
            old(stack).entries@.len() == 0 ==> final(stack).entries@ == old(stack).entries@,
            recorded(*old(stats), *final(stats), self.name@, r.0),
            r.1 == is_slow(r.0),
    {
        let elapsed = instant_elapsed(&self.start);
        let elapsed_ns: u64 = duration_as_nanos(&elapsed) as u64;
        let _innermost = stack.entries.pop();
        proof {
            if old(stack).entries@.len() > 0 {
                assert(stack.entries@ =~= old(stack).entries@.drop_last());
            }
        }
        stats.record(self.name, elapsed_ns);
        (elapsed_ns, elapsed_ns > 1_000_000)
    }
}


/// A step on the stack of timed regions: a region starts
/// ([`ProfileGuard::new`] pushes it) or the innermost region ends
/// ([`ProfileGuard::finish`] pops it).
pub enum TimerEvent {
    Start((&'static str, Instant)),
    Finish,
}

/// The stack after one step, as `new` and `finish` change it.
pub open spec fn timer_step(
    stack: Seq<(&'static str, Instant)>,
    event: TimerEvent,
) -> Seq<(&'static str, Instant)> {
    match event {
        TimerEvent::Start(entry) => stack.push(entry),
        TimerEvent::Finish => if stack.len() > 0 {
            stack.drop_last()
        } else {
            stack
        },
    }
}

/// The stack after the steps, in order.
pub open spec fn timer_run(
    stack: Seq<(&'static str, Instant)>,
    events: Seq<TimerEvent>,
) -> Seq<(&'static str, Instant)>
    decreases events.len(),
{
    if events.len() == 0 {
        stack
    } else {
        timer_step(timer_run(stack, events.drop_last()), events.last())
    }
}

/// Regions started minus regions ended.
pub open spec fn open_regions(events: Seq<TimerEvent>) -> int
    decreases events.len(),
{
    if events.len() == 0 {
        0
    } else {
        open_regions(events.drop_last()) + if events.last() is Start {
            1int
        } else {
            -1int
        }
    }
}

/// Regions nest: no step ends a region that the steps did not start, and
/// every region started is ended.
pub open spec fn well_nested(events: Seq<TimerEvent>) -> bool {
    &&& forall|i: int| 0 <= i <= events.len() ==> open_regions(#[trigger] events.take(i)) >= 0
    &&& open_regions(events) == 0
}

proof fn lemma_timer_run_keeps_base(stack: Seq<(&'static str, Instant)>, events: Seq<TimerEvent>)
    requires
        forall|i: int| 0 <= i <= events.len() ==> open_regions(#[trigger] events.take(i)) >= 0,
    ensures
        timer_run(stack, events).len() == stack.len() + open_regions(events),
        timer_run(stack, events).subrange(0, stack.len() as int) == stack,
    decreases events.len(),
{
    if events.len() == 0 {
        assert(stack.subrange(0, stack.len() as int) =~= stack);
    } else {
        let prefix = events.drop_last();
        assert forall|i: int| 0 <= i <= prefix.len() implies open_regions(#[trigger] prefix.take(i)) >= 0 by {
            assert(prefix.take(i) =~= events.take(i));
        }
        lemma_timer_run_keeps_base(stack, prefix);
        assert(events.take(events.len() as int) =~= events);
        assert(events.take(prefix.len() as int) =~= prefix);
        let before = timer_run(stack, prefix);
        let after = timer_run(stack, events);
        assert(after.subrange(0, stack.len() as int) =~= before.subrange(0, stack.len() as int));
    }
}

/// Timed regions nest to any depth: any well-nested sequence of starts and
/// ends, as `ProfileGuard::new` and `ProfileGuard::finish` perform them,
/// leaves the stack of timed regions as it found it.
pub proof fn lemma_nested_regions_restore_stack(stack: Seq<(&'static str, Instant)>, events: Seq<TimerEvent>)
    requires
        well_nested(events),
    ensures
        timer_run(stack, events) == stack,
{
    lemma_timer_run_keeps_base(stack, events);
    assert(timer_run(stack, events) =~= timer_run(stack, events).subrange(0, stack.len() as int));
}

} // verus!
