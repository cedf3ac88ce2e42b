//! Snowflake-style identifiers: `[42 bits time][10 bits worker][12 bits sequence]`,
//! the time counted in milliseconds since 2023-01-01T00:00:00Z.
use vstd::prelude::*;
use vstd::arithmetic::power2::{pow2, lemma_pow2_unfold};
use crate::clock::unix_millis;

verus! {

/// 2023-01-01 00:00:00.000 UTC, in milliseconds since the Unix epoch.
pub const JAN_1_2023: u64 = 1672531200000;

/// Number of distinct values of the time field (2^42).
pub const TIME_RANGE: u64 = 4398046511104;

/// Number of distinct values of the worker field (2^10).
pub const WORKER_RANGE: u64 = 1024;

/// Number of distinct values of the sequence field (2^12).
pub const COUNT_RANGE: u64 = 4096;

/// The identifier made of a time, a worker slot and a sequence number, each
/// already within its field's range.
pub open spec fn packed(time: int, worker: int, count: int) -> int {
    time * 4194304 + worker * 4096 + count
}

/// The identifier that `make_id` builds: each part reduced to its field's width.
pub open spec fn id_of(time: u64, worker: u16, count: u64) -> int {
    packed(
        time as int % TIME_RANGE as int,
        worker as int % WORKER_RANGE as int,
        count as int % COUNT_RANGE as int,
    )
}

/// A mask of the `amount` lowest bits.
fn bit_mask(amount: u64) -> (m: u64)
    requires
        amount <= 64,
    ensures
        m as nat == pow2(amount as nat) - 1,
{
    let mut m: u64 = 0;
    let mut i: u64 = 0;
    proof {
        vstd::arithmetic::power2::lemma2_to64();
    }
    while i < amount
        invariant
            i <= amount <= 64,
            m as nat == pow2(i as nat) - 1,
        decreases amount - i,
    {
        proof {
            lemma_pow2_unfold((i + 1) as nat);
            vstd::arithmetic::power2::lemma2_to64();
            if i + 1 < 64 {
                vstd::arithmetic::power2::lemma_pow2_strictly_increases((i + 1) as nat, 64);
            }
        }
        m = m * 2 + 1;
        i += 1;
    }
    m
}

/// Packs a time (milliseconds since 2023), a worker slot and a sequence
/// number into an identifier; each part is truncated to its field's width.
pub fn make_id(time_ms: u64, worker: u16, count: u64) -> (id: u64)
    ensures
        id as int == id_of(time_ms, worker, count),
{
    let tmask = bit_mask(42);
    let wmask = bit_mask(10);
    let cmask = bit_mask(12);
    proof {
        vstd::arithmetic::power2::lemma2_to64();
        vstd::arithmetic::power2::lemma2_to64_rest();
    }
    let w = worker as u64;
    let t = time_ms & tmask;
    let wp = w & wmask;
    let c = count & cmask;
    assert(t == time_ms % 4398046511104 && t < 4398046511104) by (bit_vector)
        requires t == time_ms & tmask, tmask == 4398046511103u64;
    assert(wp == w % 1024 && wp < 1024) by (bit_vector)
        requires wp == w & wmask, wmask == 1023u64;
    assert(c == count % 4096 && c < 4096) by (bit_vector)
        requires c == count & cmask, cmask == 4095u64;
    assert((t << 22u64) == t * 4194304 && (wp << 12u64) == wp * 4096) by (bit_vector)
        requires t < 4398046511104u64, wp < 1024u64;
    (t << 22) + (wp << 12) + c
}

/// Splits an identifier into its time, worker slot and sequence number.
pub fn id_to_parts(id: u64) -> (parts: (u64, u16, u16))
    ensures
        parts.0 < TIME_RANGE,
        parts.1 < WORKER_RANGE,
        parts.2 < COUNT_RANGE,
        id as int == packed(parts.0 as int, parts.1 as int, parts.2 as int),
{
    let cmask = bit_mask(12);
    let wmask = bit_mask(10);
    let tmask = bit_mask(42);
    proof {
        vstd::arithmetic::power2::lemma2_to64();
        vstd::arithmetic::power2::lemma2_to64_rest();
    }
    let count = id & cmask;
    let worker = (id >> 12) & wmask;
    let time = (id >> 22) & tmask;
    assert(count < 4096 && worker < 1024 && time < 4398046511104
        && id == time * 4194304 + worker * 4096 + count) by (bit_vector)
        requires
            count == id & cmask,
            worker == (id >> 12u64) & wmask,
            time == (id >> 22u64) & tmask,
            cmask == 4095u64,
            wmask == 1023u64,
            tmask == 4398046511103u64;
    (time, worker as u16, count as u16)
}

/// The Unix time, in milliseconds, of a time field.
pub fn to_unix_time(time: u64) -> (r: u128)
    ensures
        r == time as int + JAN_1_2023 as int,
{
    time as u128 + JAN_1_2023 as u128
}

/// One reading of a `Timekeeper`: a sequence number and the time it belongs to.
pub struct Count {
    pub count: u64,
    pub time_ms: u64,
}

/// Per-worker sequencing state: the latest millisecond seen (Unix time) and
/// the sequence number that the next reading in that millisecond gets.
pub struct Timekeeper {
    pub last_invoked: u64,
    pub current_count: u16,
}

impl Timekeeper {
    /// Well-formed: the next sequence number fits its field.
    pub open spec fn wf(&self) -> bool {
        self.current_count < COUNT_RANGE
    }

    /// The state after a reading at `now` (Unix milliseconds), and the
    /// reading. The sequence number restarts at 0 when the clock has moved
    /// past every millisecond seen so far, and goes on otherwise, modulo 4096.
    /// A clock before 2023 gives no reading and changes nothing.
    pub open spec fn step(self, now: u64) -> (Timekeeper, Option<Count>) {
        if now < JAN_1_2023 {
            (self, None)
        } else {
            let count: int = if now > self.last_invoked { 0 } else { self.current_count as int };
            (
                Timekeeper {
                    last_invoked: if now > self.last_invoked { now } else { self.last_invoked },
                    current_count: ((count + 1) % COUNT_RANGE as int) as u16,
                },
                Some(Count { count: count as u64, time_ms: (now - JAN_1_2023) as u64 }),
            )
        }
    }

    /// A keeper whose latest millisecond is `last_invoked` (Unix milliseconds).
    pub fn starting_at(last_invoked: u64) -> (t: Timekeeper)
        ensures
            t.wf(),
            t.last_invoked == last_invoked,
            t.current_count == 0,
    {
        Timekeeper { last_invoked, current_count: 0 }
    }

    /// A keeper that starts at the current time (at 0 if the clock reads
    /// a time before 1970).
    pub fn new() -> (t: Timekeeper)
        ensures
            t.wf(),
            t.current_count == 0,
    {
        let now = unix_millis();
        match now {
            Some(ms) => Timekeeper::starting_at(ms),
            None => Timekeeper::starting_at(0),
        }
    }

    /// Takes a reading at `now` (Unix milliseconds).
    pub fn next_at(&mut self, now: u64) -> (r: Option<Count>)
        ensures
            (*final(self), r) == old(self).step(now),
    {
        if now < JAN_1_2023 {
            return None;
        }
        let count: u16 = if now > self.last_invoked { 0 } else { self.current_count };
        if now > self.last_invoked {
            self.last_invoked = now;
        }
        self.current_count = ((count as u32 + 1) % 4096) as u16;
        Some(Count { count: count as u64, time_ms: now - JAN_1_2023 })
    }

    /// Takes a reading at the current time; `None` when the clock reads a
    /// time before 2023 (or before 1970).
    pub fn next(&mut self) -> (r: Option<Count>)
        ensures
            exists|now: u64| (*final(self), r) == old(self).step(now),
    {
        match unix_millis() {
            Some(now) => self.next_at(now),
            None => {
                assert(old(self).step(0) == (*old(self), None::<Count>));
                None
            },
        }
    }
}

/// One allocation at `now` (Unix milliseconds) from the worker slot `worker`
/// whose sequencing state is `tk`: the next state and the identifier.
pub open spec fn allocate(tk: Timekeeper, now: u64, worker: u16) -> (Timekeeper, Option<u64>) {
    match tk.step(now) {
        (next, Some(c)) => (next, Some(id_of(c.time_ms, worker, c.count) as u64)),
        (next, None) => (next, None),
    }
}

/// The identifiers of a run of allocations at the given times, in call order.
pub open spec fn allocations(tk: Timekeeper, worker: u16, times: Seq<u64>) -> Seq<u64>
    decreases times.len(),
{
    if times.len() == 0 {
        Seq::empty()
    } else {
        let (next, id) = allocate(tk, times[0], worker);
        match id {
            Some(v) => seq![v] + allocations(next, worker, times.drop_first()),
            None => allocations(next, worker, times.drop_first()),
        }
    }
}

/// A time after 2023 whose time field does not wrap.
pub open spec fn in_epoch(now: u64) -> bool {
    JAN_1_2023 <= now && now - JAN_1_2023 < TIME_RANGE
}

/// Monotonicity: of two allocations one after the other from one worker
/// slot, with a clock that does not go back, the second identifier is greater
/// than the first, unless both fall in one millisecond and the first took
/// its last sequence number (the sequence field then wraps).
pub proof fn lemma_ids_increase(tk: Timekeeper, worker: u16, t1: u64, t2: u64)
    requires
        tk.wf(),
        in_epoch(t1),
        in_epoch(t2),
        t1 <= t2,
        t2 > tk.step(t1).0.last_invoked || tk.step(t1).1->Some_0.count + 1 < COUNT_RANGE,
    ensures
        allocate(tk, t1, worker).1 is Some,
        allocate(allocate(tk, t1, worker).0, t2, worker).1 is Some,
        allocate(tk, t1, worker).1->Some_0 < allocate(allocate(tk, t1, worker).0, t2, worker).1->Some_0,
{
    let (tk1, c1) = tk.step(t1);
    let c1 = c1->Some_0;
    let (_, c2) = tk1.step(t2);
    let c2 = c2->Some_0;
    let w = worker as int % 1024;
    let a = c1.time_ms as int;
    let b = c2.time_ms as int;
    assert(a % TIME_RANGE as int == a);
    assert(b % TIME_RANGE as int == b);
    assert(c1.count as int % 4096 == c1.count as int);
    assert(c2.count as int % 4096 == c2.count as int);
    assert(0 <= w < 1024);
    if t2 > tk1.last_invoked {
        assert(b > a);
        assert(packed(a, w, c1.count as int) < packed(b, w, c2.count as int)) by (nonlinear_arith)
            requires
                b >= a + 1,
                0 <= w < 1024,
                0 <= c1.count < 4096,
                0 <= c2.count,
        ;
    } else {
        assert(c2.count == c1.count + 1);
        assert(packed(a, w, c1.count as int) < packed(b, w, c2.count as int)) by (nonlinear_arith)
            requires
                b >= a,
                c2.count == c1.count + 1,
        ;
    }
}

/// Whether a run of allocations at `times` may start from `tk` without
/// the sequence field wrapping in its first millisecond: the run starts after
/// every millisecond `tk` has seen, or in the latest one with enough sequence
/// numbers left for the run's allocations in that millisecond.
pub open spec fn starts_fresh(tk: Timekeeper, times: Seq<u64>) -> bool {
    times.len() > 0 ==> (times[0] > tk.last_invoked || (times[0] == tk.last_invoked && forall|i: int|
        0 <= i < times.len() && #[trigger] times[i] == times[0] ==> tk.current_count + i < COUNT_RANGE))
}

/// Uniqueness: a run of allocations from one worker slot, at times that do
/// not go back and lie within one epoch, with at most 4096 allocations in any
/// one millisecond (no 4097 calls in a row share a millisecond), gives
/// strictly increasing, hence pairwise distinct, identifiers.
pub proof fn lemma_ids_distinct(tk: Timekeeper, worker: u16, times: Seq<u64>)
    requires
        tk.wf(),
        forall|i: int| 0 <= i < times.len() ==> in_epoch(#[trigger] times[i]),
        forall|i: int, j: int| 0 <= i <= j < times.len() ==> times[i] <= times[j],
        forall|i: int| COUNT_RANGE <= i < times.len() ==> times[i - COUNT_RANGE] < #[trigger] times[i],
        starts_fresh(tk, times),
    ensures
        allocations(tk, worker, times).len() == times.len(),
        forall|i: int, j: int|
            0 <= i < j < times.len() ==> allocations(tk, worker, times)[i] < allocations(
                tk,
                worker,
                times,
            )[j],
        forall|i: int, j: int|
            0 <= i < times.len() && 0 <= j < times.len() && i != j ==> allocations(
                tk,
                worker,
                times,
            )[i] != allocations(tk, worker, times)[j],
    decreases times.len(),
{
    if times.len() > 0 {
        let (tk1, id) = allocate(tk, times[0], worker);
        let rest = times.drop_first();
        let c0 = tk.step(times[0]).1->Some_0.count;
        assert(in_epoch(times[0]));
        assert(tk1.last_invoked == times[0]);
        if times[0] > tk.last_invoked {
            assert(c0 == 0);
        } else {
            assert(c0 == tk.current_count);
        }
        assert forall|i: int| 0 <= i < rest.len() implies in_epoch(#[trigger] rest[i]) by {
            assert(rest[i] == times[i + 1]);
        }
        assert forall|i: int| COUNT_RANGE <= i < rest.len() implies rest[i - COUNT_RANGE] < #[trigger] rest[i] by {
            assert(rest[i] == times[i + 1]);
            assert(rest[i - COUNT_RANGE] == times[i + 1 - COUNT_RANGE]);
        }
        // Allocations of the run in the first millisecond take sequence
        // numbers from c0 on without wrapping.
        assert forall|i: int| 0 <= i < times.len() && #[trigger] times[i] == times[0] implies c0 + i < COUNT_RANGE by {
            if times[0] > tk.last_invoked {
                if i >= COUNT_RANGE {
                    assert(times[i - COUNT_RANGE] < times[i]);
                    assert(times[0] <= times[i - COUNT_RANGE]);
                }
            }
        }
        if rest.len() > 0 && rest[0] <= tk1.last_invoked {
            assert(rest[0] == times[1]);
            assert(c0 + 1 < COUNT_RANGE);
            assert(tk1.current_count == c0 + 1);
            assert forall|i: int| 0 <= i < rest.len() && #[trigger] rest[i] == rest[0] implies tk1.current_count + i < COUNT_RANGE by {
                assert(rest[i] == times[i + 1]);
            }
        }
        assert(starts_fresh(tk1, rest));
        lemma_ids_distinct(tk1, worker, rest);
        let r = allocations(tk, worker, times);
        let rr = allocations(tk1, worker, rest);
        assert(r == seq![id->Some_0] + rr);
        if times.len() > 1 {
            assert(rest[0] == times[1]);
            if times[1] <= tk1.last_invoked {
                assert(c0 + 1 < COUNT_RANGE);
            }
            lemma_ids_increase(tk, worker, times[0], times[1]);
        }
        assert forall|i: int, j: int| 0 <= i < j < times.len() implies r[i] < r[j] by {
            if i > 0 {
                assert(r[i] == rr[i - 1]);
            }
            assert(r[j] == rr[j - 1]);
            if i == 0 && j > 1 {
                assert(rr[0] < rr[j - 1]);
            }
        }
        assert forall|i: int, j: int|
            0 <= i < times.len() && 0 <= j < times.len() && i != j implies r[i] != r[j] by {
            if i < j {
                assert(r[i] < r[j]);
            } else {
                assert(r[j] < r[i]);
            }
        }
    }
}

/// Hands out worker slots in turn, modulo 1024.
pub struct SlotCounter {
    next: u16,
}

impl SlotCounter {
    /// The slot that the next call of `take` hands out.
    pub closed spec fn upcoming(&self) -> u16 {
        self.next
    }

    pub open spec fn wf(&self) -> bool {
        self.upcoming() < WORKER_RANGE
    }

    /// A counter that starts at slot 0.
    pub fn new() -> (c: SlotCounter)
        ensures
            c.wf(),
            c.upcoming() == 0,
    {
        SlotCounter { next: 0 }
    }

    /// The next slot.
    pub fn take(&mut self) -> (slot: u16)
        requires
            old(self).wf(),
        ensures
            final(self).wf(),
            slot == old(self).upcoming(),
            final(self).upcoming() == (old(self).upcoming() + 1) % WORKER_RANGE as int,
    {
        let slot = self.next;
        self.next = (self.next + 1) % 1024;
        slot
    }
}

/// What one execution unit allocates identifiers with: its server's domain,
/// its worker slot and its own sequencing state.
pub struct WorkerContext {
    pub server_domain: String,
    pub worker: u16,
    pub keeper: Timekeeper,
}

impl WorkerContext {
    pub open spec fn wf(&self) -> bool {
        self.keeper.wf()
    }

    /// The context of worker slot `worker` of `server_domain`, its keeper
    /// starting at the current time.
    pub fn new(server_domain: String, worker: u16) -> (c: WorkerContext)
        ensures
            c.wf(),
            c.server_domain == server_domain,
            c.worker == worker,
            c.keeper.current_count == 0,
    {
        WorkerContext { server_domain, worker, keeper: Timekeeper::new() }
    }
}

/// An identifier allocator for one worker at a time.
pub struct SnowflakeGenerator {
    pub keeper: Timekeeper,
}

impl SnowflakeGenerator {
    pub open spec fn wf(&self) -> bool {
        self.keeper.wf()
    }

    /// A generator that has seen no millisecond yet.
    pub fn new() -> (g: SnowflakeGenerator)
        ensures
            g.wf(),
            g.keeper.last_invoked == 0,
            g.keeper.current_count == 0,
    {
        SnowflakeGenerator { keeper: Timekeeper::starting_at(0) }
    }

    /// Allocates an identifier for `worker_id` at `now` (Unix milliseconds);
    /// `None` when `now` is before 2023.
    pub fn generate_at(&mut self, now: u64, worker_id: u16) -> (r: Option<u64>)
        ensures
            (final(self).keeper, r) == allocate(old(self).keeper, now, worker_id),
    {
        match self.keeper.next_at(now) {
            Some(c) => Some(make_id(c.time_ms, worker_id, c.count)),
            None => None,
        }
    }

    /// Allocates an identifier for `worker_id` at the current time; `None`
    /// when the clock reads a time before 2023.
    pub fn generate(&mut self, worker_id: u16) -> (r: Option<u64>)
        ensures
            exists|now: u64| (final(self).keeper, r) == allocate(old(self).keeper, now, worker_id),
    {
        match unix_millis() {
            Some(now) => self.generate_at(now, worker_id),
            None => {
                assert(allocate(old(self).keeper, 0, worker_id) == (old(self).keeper, None::<u64>));
                None
            },
        }
    }
}

} // verus!
