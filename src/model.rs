//! The client's model of guilds, channels and messages, with a local
//! identifier generator.
use vstd::prelude::*;
use crate::clock::unix_millis;

verus! {

/// An identifier of the client's model.
pub trait Id {
    fn value(&self) -> u64;
}

#[derive(Clone, Copy, Debug, PartialEq, Eq, PartialOrd, Ord, Hash)]
pub struct ChannelId(pub u64);

#[derive(Clone, Copy, Debug, PartialEq, Eq, PartialOrd, Ord, Hash)]
pub struct GuildId(pub u64);

#[derive(Clone, Copy, Debug, PartialEq, Eq, PartialOrd, Ord, Hash)]
pub struct MessageId(pub u64);

#[derive(Clone, Copy, Debug, PartialEq, Eq, PartialOrd, Ord, Hash)]
pub struct UserId(pub u64);

impl Id for ChannelId {
    fn value(&self) -> u64 {
        self.0
    }
}

impl Id for GuildId {
    fn value(&self) -> u64 {
        self.0
    }
}

impl Id for MessageId {
    fn value(&self) -> u64 {
        self.0
    }
}

impl Id for UserId {
    fn value(&self) -> u64 {
        self.0
    }
}

/// The identifier made at `now` (Unix milliseconds) with counter value
/// `counter`: the time's lower 42 bits above 22 bits that hold the
/// counter's lower 12.
pub open spec fn local_id(now: u64, counter: u16) -> int {
    (now as int % 4398046511104) * 4194304 + counter as int % 4096
}

/// Makes identifiers from the time and a wrapping counter.
pub struct IdGenerator {
    pub counter: u16,
}

impl IdGenerator {
    pub fn new() -> (g: IdGenerator)
        ensures
            g.counter == 0,
    {
        IdGenerator { counter: 0 }
    }

    /// The next identifier at `now` (Unix milliseconds).
    pub fn generate_at(&mut self, now: u64) -> (r: u64)
        ensures
            final(self).counter == (old(self).counter as int + 1) % 65536,
            r as int == local_id(now, final(self).counter),
    {
        let k = self.counter.wrapping_add(1);
        self.counter = k;
        let c = (k & 4095) as u64;
        let hi = now << 22;
        let t = now & 4398046511103;
        assert(hi == t * 4194304 && t == now % 4398046511104 && hi <= 18446744073705357312u64) by (bit_vector)
            requires hi == now << 22u64, t == now & 4398046511103u64;
        assert(c == k % 4096) by (bit_vector)
            requires c == (k & 4095u16) as u64;
        hi + c
    }

    /// The next identifier at the current time; `None` when the clock reads a
    /// time before 1970.
    pub fn generate(&mut self) -> (r: Option<u64>)
        ensures
            r is Some ==> final(self).counter == (old(self).counter as int + 1) % 65536,
            r is Some ==> exists|now: u64| r->Some_0 as int == #[trigger] local_id(now, final(self).counter),
            r is None ==> final(self).counter == old(self).counter,
    {
        match unix_millis() {
            Some(now) => Some(self.generate_at(now)),
            None => None,
        }
    }
}

pub struct Message {
    pub id: MessageId,
    pub author: UserId,
    pub contents: String,
}

pub struct Channel {
    pub id: ChannelId,
    pub name: String,
    pub messages: Vec<Message>,
}

pub struct User {
    pub id: UserId,
    pub username: String,
}

pub struct Guild {
    pub id: GuildId,
    pub name: String,
    pub channels: Vec<Channel>,
}

impl Guild {
    /// A guild named `name` made at `now` (Unix milliseconds), with one
    /// empty channel, "general"; the guild and the channel take the next two
    /// identifiers of `id_gen`.
    pub fn new_at(id_gen: &mut IdGenerator, name: String, now: u64) -> (g: Guild)
        ensures
            final(id_gen).counter == (old(id_gen).counter as int + 2) % 65536,
            g.id.0 as int == local_id(now, ((old(id_gen).counter as int + 1) % 65536) as u16),
            g.name == name,
            g.channels@.len() == 1,
            g.channels@[0].id.0 as int == local_id(now, final(id_gen).counter),
            g.channels@[0].name@ == "general"@,
            g.channels@[0].messages@.len() == 0,
            g.id.0 != g.channels@[0].id.0,
    {
        let gid = id_gen.generate_at(now);
        let cid = id_gen.generate_at(now);
        assert(gid != cid) by {
            assert(local_id(now, ((id_gen.counter as int + 65535) % 65536) as u16) != local_id(now, id_gen.counter)) by (nonlinear_arith);
        }
        let channels = vec![Channel { id: ChannelId(cid), name: "general".to_owned(), messages: Vec::new() }];
        Guild { id: GuildId(gid), name, channels }
    }

    /// A guild named `name` made now; `None` when the clock reads a time
    /// before 1970.
    pub fn new(id_gen: &mut IdGenerator, name: String) -> (r: Option<Guild>)
        ensures
            r is Some ==> exists|now: u64| #[trigger] local_id(now, final(id_gen).counter) == r->Some_0.channels@[0].id.0 as int,
            r matches Some(g) ==> g.name == name && g.channels@.len() == 1
                && g.channels@[0].name@ == "general"@ && g.channels@[0].messages@.len() == 0
                && g.id.0 != g.channels@[0].id.0,
            r is None ==> final(id_gen).counter == old(id_gen).counter,
    {
        match unix_millis() {
            Some(now) => Some(Guild::new_at(id_gen, name, now)),
            None => None,
        }
    }
}

/// The view of one channel of one guild, with the text being written.
pub struct GuildView {
    pub id: GuildId,
    pub channel_id: ChannelId,
    pub message_field: String,
}

impl GuildView {
    pub fn new(id: GuildId, channel_id: ChannelId) -> (v: GuildView)
        ensures
            v.id == id,
            v.channel_id == channel_id,
            v.message_field@.len() == 0,
    {
        GuildView { id, channel_id, message_field: String::new() }
    }
}

} // verus!
