//! Compact identifiers of the form `[41 bits Unix milliseconds][origin hash]
//! [counter]`, with the origin a short hash of the server's domain name.
use vstd::prelude::*;
use vstd::string::StrSliceExecFns;
use crate::clock::unix_millis;

verus! {

/// A snowflake: creation time, origin and counter.
#[derive(Clone, Copy, Debug, PartialEq, Eq)]
pub struct Snowflake {
    /// Creation time in Unix milliseconds; only the lower 41 bits are kept
    /// in the packed form.
    pub time: u64,
    /// The hash of the domain of origin (see `SnowHash`).
    pub name_of_origin: u16,
    /// A counter, incremented for every snowflake made.
    pub internal_counter: u16,
}

/// The hash state after one more character: a digit adds its value; any
/// other character doubles the state, adds 1 when it differs from the
/// previous character, and adds its lowest two bits. All modulo 2^16.
pub open spec fn hash_step(val: u16, last: u32, c: char) -> u16 {
    let cu = c as u32;
    if '0' <= c && c <= '9' {
        ((val as int + (cu as int - 48)) % 65536) as u16
    } else {
        ((((val as int * 2) % 65536 + if cu != last { 1int } else { 0int }) + (cu as int % 4)) % 65536) as u16
    }
}

/// The hash state after the characters of `s`: the value, and the last
/// character as a number.
pub open spec fn hash_state(s: Seq<char>) -> (u16, u32)
    decreases s.len(),
{
    if s.len() == 0 {
        (0, 0)
    } else {
        let (v, l) = hash_state(s.drop_last());
        (hash_step(v, l, s.last()), s.last() as u32)
    }
}

/// The 11-bit hash of a domain name.
pub open spec fn snow_hash(s: Seq<char>) -> u16 {
    (hash_state(s).0 as int % 2048) as u16
}

/// The packed form of a snowflake, modulo 2^64.
pub open spec fn packed_snowflake(s: Snowflake) -> int {
    ((s.time as int % 2199023255552) * 8388608 + s.name_of_origin as int * 2048
        + s.internal_counter as int) % 18446744073709551616
}

/// A simple hash for domain names; collisions do little harm, as the rest of
/// a snowflake already tells snowflakes apart.
pub struct SnowHash;

impl SnowHash {
    pub fn from(string: &str) -> (r: u16)
        ensures
            r == snow_hash(string@),
            r < 2048,
    {
        let n = string.unicode_len();
        let mut val: u16 = 0;
        let mut last_char: u32 = 0;
        let mut i: usize = 0;
        while i < n
            invariant
                n == string@.len(),
                i <= n,
                (val, last_char) == hash_state(string@.take(i as int)),
            decreases n - i,
        {
            let chr = string.get_char(i);
            let c = chr as u32;
            assert(string@.take(i + 1).drop_last() =~= string@.take(i as int));
            if '0' <= chr && chr <= '9' {
                val = val.wrapping_add((c - 48) as u16);
            } else {
                let bump: u16 = if c != last_char { 1 } else { 0 };
                val = val.wrapping_mul(2);
                val = val + bump;
                val = val.wrapping_add((c & 3) as u16);
                assert((c & 3) == c % 4) by (bit_vector);
            }
            last_char = c;
            i += 1;
        }
        assert(string@.take(n as int) =~= string@);
        let r = val & 2047;
        assert(r == val % 2048 && r < 2048) by (bit_vector)
            requires r == val & 2047u16;
        r
    }
}

impl Snowflake {
    /// The snowflake of `server` made at `time` (Unix milliseconds) as the
    /// `internal_counter`-th one.
    pub fn at(server: &str, time: u64, internal_counter: u16) -> (s: Snowflake)
        ensures
            s.time == time,
            s.name_of_origin == snow_hash(server@),
            s.internal_counter == internal_counter,
    {
        Snowflake { time, name_of_origin: SnowHash::from(server), internal_counter }
    }

    /// The snowflake of `server` made now as the `internal_counter`-th one;
    /// `None` when the clock reads a time before 1970.
    pub fn new(server: &str, internal_counter: u16) -> (r: Option<Snowflake>)
        ensures
            r matches Some(s) ==> s.name_of_origin == snow_hash(server@) && s.internal_counter
                == internal_counter,
    {
        match unix_millis() {
            Some(t) => Some(Snowflake::at(server, t, internal_counter)),
            None => None,
        }
    }

    /// The packed form.
    pub fn to_u64(&self) -> (r: u64)
        ensures
            r as int == packed_snowflake(*self),
    {
        let time = self.time;
        let t = time & 2199023255551;
        assert(t == time % 2199023255552) by (bit_vector)
            requires t == time & 2199023255551u64;
        assert(t * 8388608 < 18446744073709551616) by (nonlinear_arith)
            requires t < 2199023255552;
        let hi = t * 8388608;
        let lo = (self.name_of_origin as u64) * 2048 + self.internal_counter as u64;
        hi.wrapping_add(lo)
    }

    /// The snowflake that a packed form stands for.
    pub fn from_u64(value: u64) -> (s: Snowflake)
        ensures
            s.time == value / 8388608,
            s.name_of_origin == (value / 2048) % 65536,
            s.internal_counter == value % 65536,
    {
        let time = value >> 23;
        let name = (value >> 11) & 65535;
        let counter = value & 65535;
        assert(time == value / 8388608 && name == (value / 2048) % 65536 && counter == value % 65536) by (bit_vector)
            requires time == value >> 23u64, name == (value >> 11u64) & 65535u64, counter == value & 65535u64;
        Snowflake { time, name_of_origin: name as u16, internal_counter: counter as u16 }
    }
}

impl From<Snowflake> for u64 {
    fn from(value: Snowflake) -> (r: u64) {
        value.to_u64()
    }
}

impl vstd::std_specs::convert::FromSpecImpl<Snowflake> for u64 {
    open spec fn obeys_from_spec() -> bool {
        true
    }

    open spec fn from_spec(v: Snowflake) -> u64 {
        packed_snowflake(v) as u64
    }
}

impl From<u64> for Snowflake {
    fn from(value: u64) -> (r: Snowflake) {
        Snowflake::from_u64(value)
    }
}

impl vstd::std_specs::convert::FromSpecImpl<u64> for Snowflake {
    open spec fn obeys_from_spec() -> bool {
        true
    }

    open spec fn from_spec(v: u64) -> Snowflake {
        Snowflake {
            time: v / 8388608,
            name_of_origin: ((v / 2048) % 65536) as u16,
            internal_counter: (v % 65536) as u16,
        }
    }
}

/// Reading back a packed snowflake whose origin is an 11-bit hash gives its
/// time modulo 2^41.
pub proof fn lemma_snowflake_round_trip(s: Snowflake)
    requires
        s.name_of_origin < 2048,
    ensures
        packed_snowflake(s) / 8388608 == s.time as int % 2199023255552,
{
    let t = s.time as int % 2199023255552;
    let lo = s.name_of_origin as int * 2048 + s.internal_counter as int;
    assert(0 <= lo < 8388608);
    assert(0 <= t < 2199023255552);
    assert(t * 8388608 + lo < 18446744073709551616) by (nonlinear_arith)
        requires 0 <= t < 2199023255552, 0 <= lo < 8388608;
    assert((t * 8388608 + lo) / 8388608 == t) by (nonlinear_arith)
        requires 0 <= t, 0 <= lo < 8388608;
}

} // verus!
