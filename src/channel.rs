//! A channel's message store: an ordered sequence of append-only fragments,
//! each bound to the public key that its messages are encrypted for.
use vstd::prelude::*;
use crate::user::{User, UserView};
use crate::keys::{PublicKey, fresh_public_key, FRAGMENT_KEY_BITS};
use crate::ids::{WorkerContext, JAN_1_2023, allocate, make_id};
use crate::clock::unix_millis;

verus! {

/// Plain message content with its fingerprint.
#[derive(Clone, Debug, PartialEq, Eq)]
pub struct UnencryptedContent {
    pub hash: String,
    pub text: String,
}

/// Encrypted message content with the fingerprint of its plaintext.
#[derive(Clone, Debug, PartialEq, Eq)]
pub struct EncryptedContent {
    pub hash: String,
    pub ciphertext: Vec<u8>,
}

/// The content of a channel message.
#[derive(Clone, Debug, PartialEq, Eq)]
pub enum MessageContent {
    Unencrypted(UnencryptedContent),
    Encrypted(EncryptedContent),
}

/// Message content as mathematical values.
pub enum ContentView {
    Unencrypted { hash: Seq<char>, text: Seq<char> },
    Encrypted { hash: Seq<char>, ciphertext: Seq<u8> },
}

impl View for MessageContent {
    type V = ContentView;

    open spec fn view(&self) -> ContentView {
        match self {
            MessageContent::Unencrypted(c) => ContentView::Unencrypted { hash: c.hash@, text: c.text@ },
            MessageContent::Encrypted(c) => ContentView::Encrypted {
                hash: c.hash@,
                ciphertext: c.ciphertext@,
            },
        }
    }
}

impl MessageContent {
    /// A copy of this content.
    pub fn duplicate(&self) -> (r: MessageContent)
        ensures
            r@ == self@,
    {
        match self {
            MessageContent::Unencrypted(c) => MessageContent::Unencrypted(
                UnencryptedContent { hash: c.hash.clone(), text: c.text.clone() },
            ),
            MessageContent::Encrypted(c) => MessageContent::Encrypted(
                EncryptedContent {
                    hash: c.hash.clone(),
                    ciphertext: vstd::slice::slice_to_vec(c.ciphertext.as_slice()),
                },
            ),
        }
    }
}

/// A message of a channel: its identifier, its author (absent for system
/// messages) and its content.
#[derive(Clone, Debug, PartialEq, Eq)]
pub struct ChannelMessage {
    pub id: u64,
    pub from: Option<User>,
    pub content: MessageContent,
}

/// A channel message as mathematical values.
pub type ChannelMessageView = (u64, Option<UserView>, ContentView);

impl View for ChannelMessage {
    type V = ChannelMessageView;

    open spec fn view(&self) -> ChannelMessageView {
        (
            self.id,
            match self.from {
                Some(u) => Some(u@),
                None => None,
            },
            self.content@,
        )
    }
}

impl ChannelMessage {
    /// A copy of this message.
    pub fn duplicate(&self) -> (r: ChannelMessage)
        ensures
            r@ == self@,
    {
        let from = match &self.from {
            Some(u) => Some(u.duplicate()),
            None => None,
        };
        ChannelMessage { id: self.id, from, content: self.content.duplicate() }
    }
}

/// Identifiers never decrease along the sequence.
pub open spec fn ids_ordered(s: Seq<ChannelMessageView>) -> bool {
    forall|i: int, j: int| 0 <= i < j < s.len() ==> s[i].0 <= s[j].0
}

/// The cursor that a fetch starts from: the given identifier, or the largest
/// one when none is given.
pub open spec fn cursor_of(begin_at_id: Option<u64>) -> u64 {
    match begin_at_id {
        Some(x) => x,
        None => u64::MAX,
    }
}

/// The messages of `msgs` whose identifier is at most `cursor`.
pub open spec fn not_after(msgs: Seq<ChannelMessageView>, cursor: u64) -> Seq<ChannelMessageView> {
    msgs.filter(|m: ChannelMessageView| m.0 <= cursor)
}

/// The newest `amount` messages of `msgs` whose identifier is at most
/// `cursor` (all of them if there are fewer), in the order of `msgs`.
pub open spec fn newest(msgs: Seq<ChannelMessageView>, amount: nat, cursor: u64) -> Seq<
    ChannelMessageView,
> {
    let e = not_after(msgs, cursor);
    let k = if amount < e.len() { amount as int } else { e.len() as int };
    e.subrange(e.len() - k, e.len() as int)
}

/// Filtering a sequence whose first `p` elements pass and whose others fail
/// keeps exactly those `p`.
proof fn lemma_filter_prefix<A>(s: Seq<A>, pred: spec_fn(A) -> bool, p: int)
    requires
        0 <= p <= s.len(),
        forall|g: int| 0 <= g < p ==> pred(#[trigger] s[g]),
        forall|g: int| p <= g < s.len() ==> !pred(#[trigger] s[g]),
    ensures
        s.filter(pred) == s.take(p),
    decreases s.len(),
{
    reveal(Seq::filter);
    if s.len() > 0 {
        let d = s.drop_last();
        if p == s.len() {
            lemma_filter_prefix(d, pred, p - 1);
            assert(pred(s[s.len() - 1]));
            assert(s.take(p) =~= d.take(p - 1).push(s.last()));
        } else {
            lemma_filter_prefix(d, pred, p);
            assert(!pred(s[s.len() - 1]));
            assert(s.take(p) =~= d.take(p));
        }
    }
}

/// The messages of the first `i` fragments, in order.
pub open spec fn prefix(fs: Seq<Seq<ChannelMessageView>>, i: int) -> Seq<ChannelMessageView> {
    fs.take(i).flatten()
}

proof fn lemma_prefix_push(fs: Seq<Seq<ChannelMessageView>>, i: int)
    requires
        0 <= i < fs.len(),
    ensures
        prefix(fs, i + 1) == prefix(fs, i) + fs[i],
{
    assert(fs.take(i + 1) =~= fs.take(i).push(fs[i]));
    fs.take(i).lemma_flatten_push(fs[i]);
}

proof fn lemma_prefix_split(fs: Seq<Seq<ChannelMessageView>>, i: int)
    requires
        0 <= i <= fs.len(),
    ensures
        fs.flatten() == prefix(fs, i) + fs.skip(i).flatten(),
        prefix(fs, fs.len() as int) == fs.flatten(),
{
    assert(fs =~= fs.take(i) + fs.skip(i));
    vstd::seq_lib::lemma_flatten_concat(fs.take(i), fs.skip(i));
    assert(fs.take(fs.len() as int) =~= fs);
}

/// Removing an empty fragment leaves the messages as they were.
proof fn lemma_remove_empty(fs: Seq<Seq<ChannelMessageView>>, e: int)
    requires
        0 <= e < fs.len(),
        fs[e].len() == 0,
    ensures
        fs.remove(e).flatten() == fs.flatten(),
{
    let a = fs.take(e);
    let b = fs.skip(e + 1);
    assert(fs =~= a + (seq![fs[e]] + b));
    assert(fs.remove(e) =~= a + b);
    vstd::seq_lib::lemma_flatten_concat(a, seq![fs[e]] + b);
    vstd::seq_lib::lemma_flatten_concat(seq![fs[e]], b);
    vstd::seq_lib::lemma_flatten_concat(a, b);
    seq![fs[e]].lemma_flatten_singleton();
    assert(fs[e] =~= Seq::<ChannelMessageView>::empty());
}

/// A fragment's key, its rebuild flag and its messages, as mathematical values.
pub type FragmentView = ((Seq<u8>, Seq<u8>), bool, Seq<ChannelMessageView>);

/// A fragment ("block") of a channel: messages that share one encryption key.
pub struct MessageStore {
    pub messages: Vec<ChannelMessage>,
    /// The key that the fragment's encrypted messages are encrypted for; it
    /// also tells fragments apart.
    pub pubkey: PublicKey,
    /// Set when the membership changed, so that a new key is needed for
    /// messages to come.
    pub needs_rebuild: bool,
}

impl View for MessageStore {
    type V = FragmentView;

    open spec fn view(&self) -> FragmentView {
        (self.pubkey@, self.needs_rebuild, self.messages@.map_values(|m: ChannelMessage| m@))
    }
}

impl MessageStore {
    /// An empty fragment bound to `pubkey`.
    pub fn new(pubkey: PublicKey, needs_rebuild: bool) -> (s: MessageStore)
        ensures
            s@ == (pubkey@, needs_rebuild, Seq::<ChannelMessageView>::empty()),
    {
        let s = MessageStore { messages: Vec::new(), pubkey, needs_rebuild };
        assert(s@.2 =~= Seq::<ChannelMessageView>::empty());
        s
    }
}

/// The messages of each fragment.
pub open spec fn blocks_of(fs: Seq<FragmentView>) -> Seq<Seq<ChannelMessageView>> {
    fs.map_values(|f: FragmentView| f.2)
}

/// All messages of a sequence of fragments, in order.
pub open spec fn messages_of(fs: Seq<FragmentView>) -> Seq<ChannelMessageView> {
    blocks_of(fs).flatten()
}

/// The messages at and after position `j` of fragment `i` start at
/// `prefix(fs, i).len() + j` of all messages.
proof fn lemma_flat_index(bl: Seq<Seq<ChannelMessageView>>, i: int, j: int)
    requires
        0 <= i < bl.len(),
        0 <= j < bl[i].len(),
    ensures
        prefix(bl, i).len() + bl[i].len() <= bl.flatten().len(),
        bl.flatten()[prefix(bl, i).len() + j] == bl[i][j],
{
    lemma_prefix_split(bl, i);
    let rest = bl.skip(i);
    assert(rest.first() == bl[i]);
    assert(rest.flatten() == rest.first() + rest.drop_first().flatten());
}

/// The identifiers within one fragment strictly increase when they do over
/// all messages.
proof fn lemma_block_increasing(bl: Seq<Seq<ChannelMessageView>>, i: int)
    requires
        0 <= i < bl.len(),
        ids_ordered(bl.flatten()),
    ensures
        ids_ordered(bl[i]),
{
    assert forall|a: int, b: int| 0 <= a < b < bl[i].len() implies bl[i][a].0 <= bl[i][b].0 by {
        lemma_flat_index(bl, i, a);
        lemma_flat_index(bl, i, b);
    }
}

/// The number of leading messages of `msgs` (sorted by identifier) whose
/// identifier is at most `cursor`.
fn count_not_after(msgs: &Vec<ChannelMessage>, cursor: u64) -> (c: usize)
    requires
        ids_ordered(msgs@.map_values(|m: ChannelMessage| m@)),
    ensures
        c <= msgs.len(),
        forall|i: int| 0 <= i < c ==> msgs@[i].id <= cursor,
        forall|i: int| c <= i < msgs.len() ==> msgs@[i].id > cursor,
{
    let ghost v = msgs@.map_values(|m: ChannelMessage| m@);
    let mut lo: usize = 0;
    let mut hi: usize = msgs.len();
    while lo < hi
        invariant
            lo <= hi <= msgs.len(),
            v == msgs@.map_values(|m: ChannelMessage| m@),
            ids_ordered(v),
            forall|i: int| 0 <= i < lo ==> msgs@[i].id <= cursor,
            forall|i: int| hi <= i < msgs.len() ==> msgs@[i].id > cursor,
        decreases hi - lo,
    {
        let mid = lo + (hi - lo) / 2;
        if msgs[mid].id <= cursor {
            assert forall|i: int| 0 <= i < mid + 1 implies msgs@[i].id <= cursor by {
                if i < mid {
                    assert(v[i].0 <= v[mid as int].0);
                }
            }
            lo = mid + 1;
        } else {
            assert forall|i: int| mid <= i < msgs.len() implies msgs@[i].id > cursor by {
                if i > mid {
                    assert(v[mid as int].0 <= v[i].0);
                }
            }
            hi = mid;
        }
    }
    lo
}

/// Why a message was not stored.
#[derive(Clone, Copy, Debug, PartialEq, Eq)]
pub enum SendError {
    /// No key could be generated for the channel's first fragment.
    KeyGeneration,
    /// The clock reads a time before 2023, so no identifier can be made.
    ClockBeforeEpoch,
}

/// The fragments after merging: walking them in order, each one is
/// appended to the last kept fragment when both have the same key, kept when
/// it has messages, and dropped otherwise. The kept fragment keeps its flag.
pub open spec fn merged(fs: Seq<FragmentView>) -> Seq<FragmentView>
    decreases fs.len(),
{
    if fs.len() == 0 {
        Seq::empty()
    } else {
        let acc = merged(fs.drop_last());
        let f = fs.last();
        if acc.len() > 0 && acc.last().0 == f.0 {
            acc.update(acc.len() - 1, (acc.last().0, acc.last().1, acc.last().2 + f.2))
        } else if f.2.len() > 0 {
            acc.push(f)
        } else {
            acc
        }
    }
}

proof fn lemma_blocks_push(fs: Seq<FragmentView>, f: FragmentView)
    ensures
        blocks_of(fs.push(f)) == blocks_of(fs).push(f.2),
        messages_of(fs.push(f)) == messages_of(fs) + f.2,
{
    assert(blocks_of(fs.push(f)) =~= blocks_of(fs).push(f.2));
    blocks_of(fs).lemma_flatten_push(f.2);
}

proof fn lemma_blocks_extend_last(fs: Seq<FragmentView>, extra: Seq<ChannelMessageView>)
    requires
        fs.len() > 0,
    ensures
        messages_of(fs.update(fs.len() - 1, (fs.last().0, fs.last().1, fs.last().2 + extra)))
            == messages_of(fs) + extra,
{
    let d = fs.drop_last();
    let l = fs.last();
    assert(fs =~= d.push(l));
    assert(fs.update(fs.len() - 1, (l.0, l.1, l.2 + extra)) =~= d.push((l.0, l.1, l.2 + extra)));
    lemma_blocks_push(d, l);
    lemma_blocks_push(d, (l.0, l.1, l.2 + extra));
}

/// Merging is transparent: the merged fragments hold the same messages in
/// the same order.
pub proof fn lemma_merged_messages(fs: Seq<FragmentView>)
    ensures
        messages_of(merged(fs)) == messages_of(fs),
    decreases fs.len(),
{
    if fs.len() > 0 {
        let d = fs.drop_last();
        let f = fs.last();
        lemma_merged_messages(d);
        assert(fs =~= d.push(f));
        lemma_blocks_push(d, f);
        let acc = merged(d);
        if acc.len() > 0 && acc.last().0 == f.0 {
            lemma_blocks_extend_last(acc, f.2);
        } else if f.2.len() > 0 {
            lemma_blocks_push(acc, f);
        } else {
            assert(messages_of(fs) =~= messages_of(d));
        }
    }
}

/// After merging, every fragment holds messages and no two neighbours share
/// a key.
pub proof fn lemma_merged_shape(fs: Seq<FragmentView>)
    ensures
        forall|i: int| 0 <= i < merged(fs).len() ==> #[trigger] merged(fs)[i].2.len() > 0,
        forall|i: int| 0 <= i < merged(fs).len() - 1 ==> #[trigger] merged(fs)[i].0 != merged(fs)[i + 1].0,
    decreases fs.len(),
{
    if fs.len() > 0 {
        let d = fs.drop_last();
        let f = fs.last();
        lemma_merged_shape(d);
        let acc = merged(d);
        let m = merged(fs);
        if acc.len() > 0 && acc.last().0 == f.0 {
            assert forall|i: int| 0 <= i < m.len() implies #[trigger] m[i].2.len() > 0 by {
                if i < acc.len() - 1 {
                    assert(m[i] == acc[i]);
                }
            }
            assert forall|i: int| 0 <= i < m.len() - 1 implies #[trigger] m[i].0 != m[i + 1].0 by {
                assert(m[i].0 == acc[i].0);
                assert(m[i + 1].0 == acc[i + 1].0);
            }
        } else if f.2.len() > 0 {
            assert forall|i: int| 0 <= i < m.len() implies #[trigger] m[i].2.len() > 0 by {
                if i < acc.len() {
                    assert(m[i] == acc[i]);
                }
            }
            assert forall|i: int| 0 <= i < m.len() - 1 implies #[trigger] m[i].0 != m[i + 1].0 by {
                assert(m[i] == acc[i]);
                if i + 1 < acc.len() {
                    assert(m[i + 1] == acc[i + 1]);
                }
            }
        }
    }
}

/// The author of messages that the server sends on its own behalf.
pub open spec fn system_author(domain: Seq<char>) -> UserView {
    ("Loki"@, domain, true, 0)
}

/// Fetching with no cursor gives the newest `amount` messages (all of them
/// if there are fewer), oldest first.
pub proof fn lemma_fetch_latest(msgs: Seq<ChannelMessageView>, amount: nat)
    ensures
        newest(msgs, amount, cursor_of(None)) == msgs.subrange(
            msgs.len() - (if amount < msgs.len() { amount as int } else { msgs.len() as int }),
            msgs.len() as int,
        ),
{
    lemma_filter_prefix(msgs, |m: ChannelMessageView| m.0 <= u64::MAX, msgs.len() as int);
    assert(msgs.take(msgs.len() as int) =~= msgs);
}

/// A fetch from a cursor gives no message with an identifier after it, and
/// no more messages than asked for.
pub proof fn lemma_fetch_cursor(msgs: Seq<ChannelMessageView>, amount: nat, cursor: u64)
    ensures
        forall|i: int|
            0 <= i < newest(msgs, amount, cursor).len() ==> #[trigger] newest(msgs, amount, cursor)[i].0
                <= cursor,
        newest(msgs, amount, cursor).len() <= amount,
{
    let pred = |m: ChannelMessageView| m.0 <= cursor;
    let e = not_after(msgs, cursor);
    let r = newest(msgs, amount, cursor);
    assert forall|i: int| 0 <= i < r.len() implies #[trigger] r[i].0 <= cursor by {
        let k = e.len() - r.len();
        assert(r[i] == e[k + i]);
        msgs.lemma_filter_pred(pred, k + i);
    }
}

/// In a sequence of increasing identifiers, the messages not after a cursor
/// are a prefix: those before the first identifier past the cursor.
proof fn lemma_not_after_prefix(msgs: Seq<ChannelMessageView>, cursor: u64)
    requires
        ids_ordered(msgs),
    ensures
        not_after(msgs, cursor) == msgs.take(not_after(msgs, cursor).len() as int),
        not_after(msgs, cursor).len() <= msgs.len(),
        forall|g: int| 0 <= g < not_after(msgs, cursor).len() ==> #[trigger] msgs[g].0 <= cursor,
        forall|g: int| not_after(msgs, cursor).len() <= g < msgs.len() ==> #[trigger] msgs[g].0 > cursor,
    decreases msgs.len(),
{
    let pred = |m: ChannelMessageView| m.0 <= cursor;
    if msgs.len() == 0 {
        reveal(Seq::filter);
        assert(msgs.take(0) =~= msgs);
    } else {
        let d = msgs.drop_last();
        let last = msgs.last();
        assert(d.push(last) =~= msgs);
        d.lemma_filter_push(last, pred);
        lemma_not_after_prefix(d, cursor);
        let kd = not_after(d, cursor).len() as int;
        if last.0 <= cursor {
            if kd < d.len() {
                assert(d[kd].0 <= last.0);
            }
            assert(d.take(kd) =~= d);
            assert(not_after(msgs, cursor) =~= msgs.take(msgs.len() as int));
        } else {
            assert(not_after(msgs, cursor) =~= msgs.take(kd));
        }
    }
}

/// A fetch from a store whose identifiers increase gives a run of
/// neighbouring messages: the newest `amount` of those not after the cursor
/// (all of them if fewer), with increasing identifiers.
pub proof fn lemma_fetch_run(msgs: Seq<ChannelMessageView>, amount: nat, cursor: u64)
    requires
        ids_ordered(msgs),
    ensures
        ({
            let p = not_after(msgs, cursor).len() as int;
            let r = newest(msgs, amount, cursor);
            &&& p <= msgs.len()
            &&& forall|g: int| 0 <= g < p ==> #[trigger] msgs[g].0 <= cursor
            &&& forall|g: int| p <= g < msgs.len() ==> #[trigger] msgs[g].0 > cursor
            &&& r.len() == if amount < p { amount as int } else { p }
            &&& r == msgs.subrange(p - r.len(), p)
            &&& ids_ordered(r)
        }),
{
    lemma_not_after_prefix(msgs, cursor);
    let p = not_after(msgs, cursor).len() as int;
    let r = newest(msgs, amount, cursor);
    assert(r =~= msgs.subrange(p - r.len(), p));
}

/// Walks `stores` in order into `field`: a fragment goes into the last one
/// there when both have the same key, is added when it has messages, and is
/// dropped otherwise.
fn unify(stores: Vec<MessageStore>, field: &mut Vec<MessageStore>)
    requires
        old(field)@.map_values(|f: MessageStore| f@) == Seq::<FragmentView>::empty(),
    ensures
        final(field)@.map_values(|f: MessageStore| f@) == merged(stores@.map_values(|f: MessageStore| f@)),
{
    let ghost ofs = stores@.map_values(|f: MessageStore| f@);
    let mut rest = stores;
    let ghost mut i: int = 0;
    proof {
        assert(ofs.take(0) =~= Seq::<FragmentView>::empty());
        assert(rest@.map_values(|f: MessageStore| f@) =~= ofs.skip(0));
    }
    while rest.len() > 0
        invariant
            0 <= i <= ofs.len(),
            field@.map_values(|f: MessageStore| f@) == merged(ofs.take(i)),
            rest@.map_values(|f: MessageStore| f@) == ofs.skip(i),
            rest.len() == ofs.len() - i,
        decreases rest.len(),
    {
        proof {
            assert(rest@.map_values(|f: MessageStore| f@)[0] == rest@[0]@);
            assert(ofs.skip(i)[0] == ofs[i]);
        }
        let ghost rv = rest@;
        let mut message_store = rest.remove(0);
        let ghost fv = message_store@;
        assert(rest@.map_values(|f: MessageStore| f@) =~= ofs.skip(i + 1)) by {
            assert(rest@ =~= rv.remove(0));
            assert forall|t: int| 0 <= t < rest@.len() implies #[trigger] rest@[t]@ == ofs.skip(i + 1)[t] by {
                assert(rest@[t] == rv[t + 1]);
                assert(rv.map_values(|f: MessageStore| f@)[t + 1] == rv[t + 1]@);
            }
        }
        proof {
            assert(fv == ofs[i]);
            assert(ofs.take(i + 1).drop_last() =~= ofs.take(i));
            assert(ofs.take(i + 1).last() == ofs[i]);
        }
        let n = field.len();
        let ghost acc = field@.map_values(|f: MessageStore| f@);
        if n > 0 && field[n - 1].pubkey.same(&message_store.pubkey) {
            let mut store = field.pop().unwrap();
            let ghost lv = store@;
            assert(lv == acc.last());
            store.messages.append(&mut message_store.messages);
            assert(store@ == (lv.0, lv.1, lv.2 + fv.2)) by {
                assert(store@.2 =~= lv.2 + fv.2);
            }
            field.push(store);
            assert(field@.map_values(|f: MessageStore| f@) =~= acc.update(acc.len() - 1, (lv.0, lv.1, lv.2 + fv.2)));
        } else if message_store.messages.len() > 0 {
            field.push(message_store);
            assert(field@.map_values(|f: MessageStore| f@) =~= acc.push(fv));
        }
        proof {
            i = i + 1;
        }
    }
    proof {
        assert(ofs.take(i) =~= ofs);
    }
}

/// The fragments of a channel, in order of identifiers.
pub struct FragmentStore {
    message_store: Vec<MessageStore>,
}

impl FragmentStore {
    /// The fragments, in order.
    pub closed spec fn fragments(&self) -> Seq<FragmentView> {
        self.message_store@.map_values(|f: MessageStore| f@)
    }

    /// All messages of the channel, in order.
    pub open spec fn messages(&self) -> Seq<ChannelMessageView> {
        messages_of(self.fragments())
    }

    /// Well-formed: identifiers strictly increase over all messages.
    pub open spec fn wf(&self) -> bool {
        ids_ordered(self.messages())
    }

    /// A store with no fragments.
    pub fn new() -> (c: FragmentStore)
        ensures
            c.wf(),
            c.fragments() == Seq::<FragmentView>::empty(),
            c.messages() == Seq::<ChannelMessageView>::empty(),
    {
        let c = FragmentStore { message_store: Vec::new() };
        assert(c.fragments() =~= Seq::<FragmentView>::empty());
        assert(blocks_of(c.fragments()) =~= Seq::<Seq<ChannelMessageView>>::empty());
        c
    }

    /// The number of fragments.
    pub fn fragment_count(&self) -> (n: usize)
        ensures
            n == self.fragments().len(),
    {
        self.message_store.len()
    }

    /// Starts a new, empty fragment bound to `pubkey`: messages stored from now
    /// on go there.
    pub fn open_fragment(&mut self, pubkey: PublicKey, needs_rebuild: bool)
        requires
            old(self).wf(),
        ensures
            final(self).wf(),
            final(self).fragments() == old(self).fragments().push((pubkey@, needs_rebuild, Seq::empty())),
            final(self).messages() == old(self).messages(),
    {
        let f = MessageStore::new(pubkey, needs_rebuild);
        let ghost before = self.fragments();
        self.message_store.push(f);
        proof {
            assert(self.fragments() =~= before.push((pubkey@, needs_rebuild, Seq::empty())));
            lemma_blocks_push(before, (pubkey@, needs_rebuild, Seq::empty()));
            assert(messages_of(before) + Seq::<ChannelMessageView>::empty() =~= messages_of(before));
        }
    }

    /// The identifier of the newest message, if any.
    pub fn last_id(&self) -> (r: Option<u64>)
        ensures
            r == if self.messages().len() > 0 { Some(self.messages().last().0) } else { None::<u64> },
    {
        let ghost bl = blocks_of(self.fragments());
        let mut i: usize = self.message_store.len();
        proof {
            lemma_prefix_split(bl, bl.len() as int);
        }
        while i > 0
            invariant
                i <= bl.len(),
                bl == blocks_of(self.fragments()),
                bl.len() == self.message_store.len(),
                prefix(bl, i as int) == bl.flatten(),
            decreases i,
        {
            let n = self.message_store[i - 1].messages.len();
            proof {
                lemma_prefix_push(bl, i - 1);
                assert(bl[i - 1] == self.message_store@[i - 1]@.2);
            }
            if n > 0 {
                return Some(self.message_store[i - 1].messages[n - 1].id);
            }
            assert(bl[i - 1] =~= Seq::<ChannelMessageView>::empty());
            assert(prefix(bl, i - 1) =~= prefix(bl, i as int));
            i -= 1;
        }
        assert(prefix(bl, 0) =~= Seq::<ChannelMessageView>::empty());
        None
    }

    /// Stores `message` in order of identifiers. One newer than (or as new
    /// as) every stored message joins the last fragment; a channel without
    /// fragments first gets one, bound to a freshly generated key of
    /// `FRAGMENT_KEY_BITS` bits and marked for rebuild. An older one goes
    /// into the fragment that holds its place, after the messages whose
    /// identifier is not greater than its own.
    pub fn append(&mut self, message: ChannelMessage) -> (r: Result<(), SendError>)
        requires
            old(self).wf(),
        ensures
            final(self).wf(),
            r is Ok ==> final(self).messages() == inserted(old(self).messages(), message@),
            r is Ok && (old(self).messages().len() == 0 || old(self).messages().last().0 <= message.id)
                ==> final(self).messages() == old(self).messages().push(message@),
            old(self).fragments().len() > 0 ==> r is Ok,
            r is Err ==> r == Err::<(), SendError>(SendError::KeyGeneration) && old(self).fragments().len() == 0,
            r is Err ==> final(self).fragments() == old(self).fragments(),
            r is Ok && old(self).fragments().len() > 0 && (old(self).messages().len() == 0
                || old(self).messages().last().0 <= message.id) ==> final(self).fragments() == grown_last(old(self).fragments(), message@),
            r is Ok && old(self).fragments().len() > 0 ==> final(self).fragments().len() == old(self).fragments().len()
                && forall|j: int| 0 <= j < old(self).fragments().len() ==> #[trigger] final(self).fragments()[j].0
                    == old(self).fragments()[j].0 && final(self).fragments()[j].1 == old(self).fragments()[j].1,
            r is Ok && old(self).fragments().len() == 0 ==> final(self).fragments().len() == 1
                && final(self).fragments()[0].1 && final(self).fragments()[0].2 == seq![message@],
    {
        let newest = match self.last_id() {
            Some(l) => l <= message.id,
            None => true,
        };
        if !newest {
            self.insert_older(message);
            return Ok(());
        }
        proof {
            lemma_not_after_prefix(self.messages(), message.id);
            let s = self.messages();
            let k = not_after(s, message.id).len() as int;
            if k < s.len() {
                assert(s[k].0 <= s[s.len() - 1].0);
            }
            assert(s.take(s.len() as int) =~= s);
            assert(inserted(s, message@) =~= s.push(message@));
        }
        if self.message_store.len() == 0 {
            match fresh_public_key(FRAGMENT_KEY_BITS) {
                Some(k) => self.open_fragment(k, true),
                None => return Err(SendError::KeyGeneration),
            }
        }
        let ghost before = self.fragments();
        let ghost mv = message@;
        assert(old(self).fragments().len() == 0 ==> before.len() == 1 && before[0].1 && before[0].2.len() == 0);
        let mut last = self.message_store.pop().unwrap();
        let ghost lv = last@;
        last.messages.push(message);
        assert(last@ == (lv.0, lv.1, lv.2 + seq![mv])) by {
            assert(last@.2 =~= lv.2 + seq![mv]);
        }
        self.message_store.push(last);
        proof {
            assert(before =~= before.update(before.len() - 1, lv));
            assert(self.fragments() =~= before.update(before.len() - 1, (lv.0, lv.1, lv.2 + seq![mv])));
            lemma_blocks_extend_last(before, seq![mv]);
            assert(self.messages() =~= messages_of(before).push(mv));
            assert(lv.2 + seq![mv] =~= lv.2.push(mv));
            if old(self).fragments().len() == 0 {
                assert(lv.2 + seq![mv] =~= seq![mv]);
            }
        }
        Ok(())
    }

    /// Stores `message`, older than the newest stored one, at its place.
    fn insert_older(&mut self, message: ChannelMessage)
        requires
            old(self).wf(),
            old(self).messages().len() > 0,
            message.id < old(self).messages().last().0,
        ensures
            final(self).wf(),
            final(self).messages() == inserted(old(self).messages(), message@),
            final(self).fragments().len() == old(self).fragments().len(),
            forall|j: int| 0 <= j < old(self).fragments().len() ==> #[trigger] final(self).fragments()[j].0
                == old(self).fragments()[j].0 && final(self).fragments()[j].1 == old(self).fragments()[j].1,
    {
        let ghost fs = self.fragments();
        let ghost bl = blocks_of(fs);
        let ghost flat = self.messages();
        let ghost mv = message@;
        let n = self.message_store.len();
        let mut i: usize = 0;
        proof {
            assert(prefix(bl, 0) =~= Seq::<ChannelMessageView>::empty());
            lemma_prefix_split(bl, bl.len() as int);
        }
        loop
            invariant
                i <= n,
                n == self.message_store.len(),
                bl.len() == n,
                fs == self.fragments(),
                bl == blocks_of(fs),
                flat == bl.flatten(),
                ids_ordered(flat),
                flat.len() > 0,
                flat.last().0 > mv.0,
                mv.0 == message.id,
                prefix(bl, n as int) == flat,
                forall|g: int| 0 <= g < prefix(bl, i as int).len() ==> #[trigger] prefix(bl, i as int)[g].0 <= mv.0,
            ensures
                i < n,
                bl[i as int].len() > 0 && bl[i as int].last().0 > mv.0,
                forall|g: int| 0 <= g < prefix(bl, i as int).len() ==> #[trigger] prefix(bl, i as int)[g].0 <= mv.0,
            decreases n - i,
        {
            if i == n {
                assert(flat[flat.len() - 1].0 <= mv.0);
            }
            let len = self.message_store[i].messages.len();
            assert(bl[i as int] == self.message_store@[i as int]@.2);
            if len > 0 && self.message_store[i].messages[len - 1].id > message.id {
                break;
            }
            proof {
                let m = i as int;
                lemma_prefix_push(bl, m);
                lemma_prefix_split(bl, m + 1);
                let pm = prefix(bl, m + 1);
                assert forall|g: int| 0 <= g < pm.len() implies #[trigger] pm[g].0 <= mv.0 by {
                    if g >= prefix(bl, m).len() {
                        assert(pm[g] == bl[m][g - prefix(bl, m).len()]);
                        assert(pm[pm.len() - 1] == bl[m][len - 1]);
                        assert(pm[g] == flat[g]);
                        assert(pm[pm.len() - 1] == flat[pm.len() - 1]);
                    } else {
                        assert(pm[g] == prefix(bl, m)[g]);
                    }
                }
            }
            i += 1;
        }
        proof {
            lemma_block_increasing(bl, i as int);
            assert(bl[i as int] == self.message_store@[i as int].messages@.map_values(|m: ChannelMessage| m@));
        }
        let c = count_not_after(&self.message_store[i].messages, message.id);
        let ghost pl = prefix(bl, i as int).len() as int;
        let ghost b = bl[i as int];
        let ghost p: int = pl + c;
        proof {
            lemma_flatten_update(bl, i as int, b);
            assert(bl.update(i as int, b) =~= bl);
            // The place of the message splits all messages.
            assert forall|g: int| 0 <= g < p implies #[trigger] flat[g].0 <= mv.0 by {
                if g < pl {
                    assert(flat[g] == prefix(bl, i as int)[g]);
                } else {
                    lemma_flat_index(bl, i as int, g - pl);
                }
            }
            assert forall|g: int| p <= g < flat.len() implies #[trigger] flat[g].0 > mv.0 by {
                let nb = b.len() as int;
                if g < pl + nb {
                    lemma_flat_index(bl, i as int, g - pl);
                } else {
                    lemma_flat_index(bl, i as int, nb - 1);
                    assert(flat[pl + nb - 1].0 <= flat[g].0);
                }
            }
            lemma_not_after_prefix(flat, mv.0);
            let k = not_after(flat, mv.0).len() as int;
            if k < p {
                assert(flat[k].0 > mv.0);
            }
            if k > p {
                assert(flat[p].0 <= mv.0);
            }
        }
        let mut f = self.message_store.remove(i);
        let ghost fv = f@;
        f.messages.insert(c, message);
        let ghost nb = b.insert(c as int, mv);
        assert(f@ == (fv.0, fv.1, nb)) by {
            assert(f@.2 =~= nb);
        }
        self.message_store.insert(i, f);
        proof {
            let nfs = fs.update(i as int, (fv.0, fv.1, nb));
            assert(self.fragments() =~= nfs);
            assert(blocks_of(nfs) =~= bl.update(i as int, nb));
            lemma_flatten_update(bl, i as int, nb);
            let rest = bl.skip(i as int + 1).flatten();
            let pre = prefix(bl, i as int);
            assert(flat == pre + b + rest);
            assert(nb =~= b.take(c as int) + seq![mv] + b.skip(c as int));
            assert(flat.take(p) =~= pre + b.take(c as int));
            assert(flat.skip(p) =~= b.skip(c as int) + rest);
            assert(self.messages() =~= flat.take(p) + seq![mv] + flat.skip(p));
            lemma_insert_ordered(flat, mv, p);
        }
    }

    /// Merges neighbouring fragments that share a key and drops empty ones;
    /// the messages stay as they were.
    pub fn defragment(&mut self)
        requires
            old(self).wf(),
        ensures
            final(self).wf(),
            final(self).fragments() == merged(old(self).fragments()),
            final(self).messages() == old(self).messages(),
    {
        let ghost ofs = self.fragments();
        let mut rest: Vec<MessageStore> = Vec::new();
        std::mem::swap(&mut rest, &mut self.message_store);
        proof {
            assert(self.message_store@.map_values(|f: MessageStore| f@) =~= Seq::<FragmentView>::empty());
        }
        unify(rest, &mut self.message_store);
        proof {
            lemma_merged_messages(ofs);
        }
    }

    /// Binary search over the fragments, by their last identifier, for the
    /// first fragment that holds an identifier after `cursor`. `Err` gives an
    /// empty fragment that the search came upon.
    fn locate(&self, cursor: u64) -> (r: Result<usize, usize>)
        requires
            self.wf(),
        ensures
            r matches Err(e) ==> e < self.fragments().len() && self.fragments()[e as int].2.len() == 0,
            r matches Ok(k) ==> {
                let bl = blocks_of(self.fragments());
                &&& k <= bl.len()
                &&& forall|g: int| 0 <= g < prefix(bl, k as int).len() ==> #[trigger] prefix(bl, k as int)[g].0 <= cursor
                &&& k < bl.len() ==> bl[k as int].len() > 0 && bl[k as int].last().0 > cursor
            },
    {
        let ghost bl = blocks_of(self.fragments());
        let mut lo: usize = 0;
        let mut hi: usize = self.message_store.len();
        proof {
            assert(prefix(bl, 0) =~= Seq::<ChannelMessageView>::empty());
        }
        while lo < hi
            invariant
                lo <= hi <= self.message_store.len(),
                bl == blocks_of(self.fragments()),
                bl.len() == self.message_store.len(),
                ids_ordered(bl.flatten()),
                forall|g: int| 0 <= g < prefix(bl, lo as int).len() ==> #[trigger] prefix(bl, lo as int)[g].0 <= cursor,
                hi < bl.len() ==> bl[hi as int].len() > 0 && bl[hi as int].last().0 > cursor,
            decreases hi - lo,
        {
            let mid = lo + (hi - lo) / 2;
            let n = self.message_store[mid].messages.len();
            assert(bl[mid as int] == self.message_store@[mid as int]@.2);
            if n == 0 {
                return Err(mid);
            }
            if self.message_store[mid].messages[n - 1].id <= cursor {
                proof {
                    let m = mid as int;
                    lemma_prefix_push(bl, m);
                    lemma_prefix_split(bl, m + 1);
                    let pm = prefix(bl, m + 1);
                    let q = pm.len() - 1;
                    assert(pm[q] == bl[m][n - 1]);
                    assert forall|g: int| 0 <= g < pm.len() implies #[trigger] pm[g].0 <= cursor by {
                        assert(pm[g] == bl.flatten()[g]);
                        assert(pm[q] == bl.flatten()[q]);
                    }
                }
                lo = mid + 1;
            } else {
                hi = mid;
            }
        }
        Ok(lo)
    }

    /// The newest `amount` messages whose identifier is at most `begin_at_id`
    /// (any identifier when `None`), oldest first. Empty fragments that the
    /// search comes upon are removed; the messages stay as they were.
    pub fn fetch_newest_messages(&mut self, amount: u32, begin_at_id: Option<u64>) -> (r: Vec<ChannelMessage>)
        requires
            old(self).wf(),
        ensures
            final(self).wf(),
            final(self).messages() == old(self).messages(),
            sheds_empty(old(self).fragments(), final(self).fragments()),
            r@.map_values(|m: ChannelMessage| m@) == newest(old(self).messages(), amount as nat, cursor_of(begin_at_id)),
    {
        let cursor = match begin_at_id {
            Some(x) => x,
            None => u64::MAX,
        };
        let ghost flat = self.messages();
        let ghost start = self.fragments();
        proof {
            lemma_sheds_refl(start);
        }
        let mut k: usize;
        loop
            invariant
                self.wf(),
                self.messages() == flat,
                sheds_empty(start, self.fragments()),
            ensures
                sheds_empty(start, self.fragments()),
                ({
                    let bl = blocks_of(self.fragments());
                    &&& k <= bl.len()
                    &&& forall|g: int| 0 <= g < prefix(bl, k as int).len() ==> #[trigger] prefix(bl, k as int)[g].0 <= cursor
                    &&& k < bl.len() ==> bl[k as int].len() > 0 && bl[k as int].last().0 > cursor
                }),
                self.wf(),
                self.messages() == flat,
            decreases self.message_store.len(),
        {
            match self.locate(cursor) {
                Ok(found) => {
                    k = found;
                    break;
                },
                Err(e) => {
                    proof {
                        let bl = blocks_of(self.fragments());
                        lemma_remove_empty(bl, e as int);
                    }
                    let ghost before = self.message_store@;
                    let ghost fb = self.fragments();
                    self.message_store.remove(e);
                    proof {
                        assert(blocks_of(self.fragments()) =~= blocks_of(before.map_values(|f: MessageStore| f@)).remove(e as int));
                        assert(self.fragments() =~= fb.remove(e as int));
                        lemma_sheds_remove(fb, e as int);
                        lemma_sheds_trans(start, fb, self.fragments());
                    }
                },
            }
        }
        let ghost bl = blocks_of(self.fragments());
        let c: usize = if k < self.message_store.len() {
            proof {
                lemma_block_increasing(bl, k as int);
                assert(bl[k as int] == self.message_store@[k as int].messages@.map_values(|m: ChannelMessage| m@));
            }
            count_not_after(&self.message_store[k].messages, cursor)
        } else {
            0
        };
        let ghost p: int = prefix(bl, k as int).len() + c;
        proof {
            lemma_prefix_split(bl, k as int);
            if k < bl.len() {
                lemma_flat_index(bl, k as int, 0);
                assert(bl[k as int] == self.message_store@[k as int].messages@.map_values(|m: ChannelMessage| m@));
            }
            assert forall|g: int| 0 <= g < p implies #[trigger] flat[g].0 <= cursor by {
                let pl = prefix(bl, k as int).len();
                if g < pl {
                    assert(flat[g] == prefix(bl, k as int)[g]);
                } else {
                    lemma_flat_index(bl, k as int, g - pl);
                }
            }
            assert forall|g: int| p <= g < flat.len() implies #[trigger] flat[g].0 > cursor by {
                let pl = prefix(bl, k as int).len();
                let n = bl[k as int].len() as int;
                if g < pl + n {
                    lemma_flat_index(bl, k as int, g - pl);
                } else {
                    lemma_flat_index(bl, k as int, n - 1);
                    assert(flat[pl + n - 1].0 <= flat[g].0);
                }
            }
            lemma_filter_prefix(flat, |m: ChannelMessageView| m.0 <= cursor, p);
        }
        // Walk back from the cursor's position, newest first.
        let mut i: usize = k;
        let mut j: usize = c;
        let mut rev: Vec<ChannelMessage> = Vec::new();
        while (rev.len() as u64) < amount as u64 && (i > 0 || j > 0)
            invariant
                bl == blocks_of(self.fragments()),
                bl.len() == self.message_store.len(),
                flat == bl.flatten(),
                i <= bl.len(),
                i == bl.len() ==> j == 0,
                i < bl.len() ==> j <= bl[i as int].len(),
                0 <= prefix(bl, i as int).len() + j <= p <= flat.len(),
                p - (prefix(bl, i as int).len() + j) == rev.len(),
                rev.len() <= amount,
                forall|t: int| 0 <= t < rev.len() ==> #[trigger] rev@[t]@ == flat[p - 1 - t],
            decreases prefix(bl, i as int).len() + j + i,
        {
            if j > 0 {
                j -= 1;
                proof {
                    lemma_flat_index(bl, i as int, j as int);
                    assert(bl[i as int] == self.message_store@[i as int].messages@.map_values(|m: ChannelMessage| m@));
                }
                let m = self.message_store[i].messages[j].duplicate();
                rev.push(m);
            } else {
                i -= 1;
                proof {
                    lemma_prefix_push(bl, i as int);
                    assert(bl[i as int] == self.message_store@[i as int].messages@.map_values(|m: ChannelMessage| m@));
                }
                j = self.message_store[i].messages.len();
            }
        }
        proof {
            if i == 0 && j == 0 {
                assert(prefix(bl, 0) =~= Seq::<ChannelMessageView>::empty());
            }
        }
        // Hand them out oldest first.
        let ghost total = rev.len() as int;
        let mut out: Vec<ChannelMessage> = Vec::new();
        while rev.len() > 0
            invariant
                out.len() + rev.len() == total,
                forall|t: int| 0 <= t < rev.len() ==> #[trigger] rev@[t]@ == flat[p - 1 - t],
                forall|t: int| 0 <= t < out.len() ==> #[trigger] out@[t]@ == flat[p - total + t],
            decreases rev.len(),
        {
            let ghost last = rev.len() - 1;
            match rev.pop() {
                Some(m) => {
                    assert(m@ == flat[p - 1 - last]);
                    out.push(m);
                },
                None => {},
            }
        }
        proof {
            let e = not_after(flat, cursor);
            assert(e == flat.take(p));
            assert(out@.map_values(|m: ChannelMessage| m@) =~= newest(flat, amount as nat, cursor));
        }
        out
    }
}

/// The operations that a transport layer performs on a channel.
pub trait Channel<ErrorType, Ctx> {
    fn fetch_newest_messages(&mut self, amount: u32, begin_at_id: Option<u64>) -> Result<Vec<ChannelMessage>, ErrorType>;

    fn send_message(&mut self, message: MessageContent, ctx: Ctx) -> Result<ChannelMessage, ErrorType>;
}

/// `s` with `m` put after every message whose identifier is at most `m`'s.
pub open spec fn inserted(s: Seq<ChannelMessageView>, m: ChannelMessageView) -> Seq<ChannelMessageView> {
    let k = not_after(s, m.0).len() as int;
    s.take(k) + seq![m] + s.skip(k)
}

/// Putting `m` at a place that splits `s` into messages not after it and
/// messages after it keeps identifiers in order.
proof fn lemma_insert_ordered(s: Seq<ChannelMessageView>, m: ChannelMessageView, p: int)
    requires
        ids_ordered(s),
        0 <= p <= s.len(),
        forall|g: int| 0 <= g < p ==> #[trigger] s[g].0 <= m.0,
        forall|g: int| p <= g < s.len() ==> #[trigger] s[g].0 > m.0,
    ensures
        ids_ordered(s.take(p) + seq![m] + s.skip(p)),
{
    let nf = s.take(p) + seq![m] + s.skip(p);
    assert forall|x: int, y: int| 0 <= x < y < nf.len() implies nf[x].0 <= nf[y].0 by {
        if x < p && y > p {
            assert(nf[x] == s[x]);
            assert(nf[y] == s[y - 1]);
        } else if x < p && y == p {
            assert(nf[x] == s[x]);
        } else if x == p {
            assert(nf[y] == s[y - 1]);
        } else if y < p {
            assert(nf[x] == s[x] && nf[y] == s[y]);
        } else {
            assert(nf[x] == s[x - 1] && nf[y] == s[y - 1]);
        }
    }
}

/// The messages once fragment `i` is replaced with `b`.
proof fn lemma_flatten_update(bl: Seq<Seq<ChannelMessageView>>, i: int, b: Seq<ChannelMessageView>)
    requires
        0 <= i < bl.len(),
    ensures
        bl.update(i, b).flatten() == prefix(bl, i) + b + bl.skip(i + 1).flatten(),
{
    let u = bl.update(i, b);
    assert(u =~= bl.take(i) + (seq![b] + bl.skip(i + 1)));
    vstd::seq_lib::lemma_flatten_concat(bl.take(i), seq![b] + bl.skip(i + 1));
    vstd::seq_lib::lemma_flatten_concat(seq![b], bl.skip(i + 1));
    seq![b].lemma_flatten_singleton();
    assert(prefix(bl, i) + (b + bl.skip(i + 1).flatten()) =~= prefix(bl, i) + b + bl.skip(i + 1).flatten());
}

/// The fragments after `m` joins the last one; the others, and the last
/// one's key and flag, stay as they were.
pub open spec fn grown_last(fs: Seq<FragmentView>, m: ChannelMessageView) -> Seq<FragmentView> {
    fs.update(fs.len() - 1, (fs.last().0, fs.last().1, fs.last().2.push(m)))
}

/// `new` is `old` with some empty fragments taken out: the others keep
/// their order, keys, flags and messages.
pub open spec fn sheds_empty(old: Seq<FragmentView>, new: Seq<FragmentView>) -> bool
    decreases old.len(),
{
    if old.len() == 0 {
        new.len() == 0
    } else {
        (new.len() > 0 && new.last() == old.last() && sheds_empty(old.drop_last(), new.drop_last()))
            || (old.last().2.len() == 0 && sheds_empty(old.drop_last(), new))
    }
}

proof fn lemma_sheds_refl(s: Seq<FragmentView>)
    ensures
        sheds_empty(s, s),
    decreases s.len(),
{
    if s.len() > 0 {
        lemma_sheds_refl(s.drop_last());
    }
}

proof fn lemma_sheds_remove(s: Seq<FragmentView>, e: int)
    requires
        0 <= e < s.len(),
        s[e].2.len() == 0,
    ensures
        sheds_empty(s, s.remove(e)),
    decreases s.len(),
{
    let d = s.drop_last();
    if e == s.len() - 1 {
        assert(s.remove(e) =~= d);
        lemma_sheds_refl(d);
    } else {
        lemma_sheds_remove(d, e);
        let r = s.remove(e);
        assert(r.last() == s.last());
        assert(r.drop_last() =~= d.remove(e));
    }
}

proof fn lemma_sheds_trans(a: Seq<FragmentView>, b: Seq<FragmentView>, c: Seq<FragmentView>)
    requires
        sheds_empty(a, b),
        sheds_empty(b, c),
    ensures
        sheds_empty(a, c),
    decreases a.len(),
{
    if a.len() > 0 {
        let a1 = a.drop_last();
        if b.len() > 0 && b.last() == a.last() && sheds_empty(a1, b.drop_last()) {
            let b1 = b.drop_last();
            if c.len() > 0 && c.last() == b.last() && sheds_empty(b1, c.drop_last()) {
                lemma_sheds_trans(a1, b1, c.drop_last());
            } else {
                lemma_sheds_trans(a1, b1, c);
            }
        } else {
            lemma_sheds_trans(a1, b, c);
        }
    }
}

/// A channel: its fragment store, whose identifiers never decrease.
pub struct ServerChannel {
    store: FragmentStore,
}

impl ServerChannel {
    #[verifier::type_invariant]
    spec fn inv(self) -> bool {
        self.store.wf()
    }

    /// All messages of the channel, in order.
    pub closed spec fn messages(&self) -> Seq<ChannelMessageView> {
        self.store.messages()
    }

    /// The fragments of the channel, in order.
    pub closed spec fn fragments(&self) -> Seq<FragmentView> {
        self.store.fragments()
    }

    /// A channel without messages.
    pub fn new() -> (c: ServerChannel)
        ensures
            ids_ordered(c.messages()),
            c.messages() == Seq::<ChannelMessageView>::empty(),
            c.fragments() == Seq::<FragmentView>::empty(),
    {
        ServerChannel { store: FragmentStore::new() }
    }

    /// Sends `content` at `now` (Unix milliseconds): the message gets a fresh
    /// identifier from `ctx` and the server as its author, and is stored in
    /// order of identifiers (at the end, unless another worker stored a
    /// newer one first). It fails only for a time before 2023, or when the
    /// channel's first fragment needs a key and none could be made.
    pub fn send_message_at(&mut self, content: MessageContent, ctx: &mut WorkerContext, now: u64) -> (r: Result<ChannelMessage, SendError>)
        ensures
            final(ctx).server_domain == old(ctx).server_domain,
            final(ctx).worker == old(ctx).worker,
            final(ctx).keeper == allocate(old(ctx).keeper, now, old(ctx).worker).0,
            r == Err::<ChannelMessage, SendError>(SendError::ClockBeforeEpoch) <==> now < JAN_1_2023,
            r matches Ok(m) ==> {
                &&& Some(m.id) == allocate(old(ctx).keeper, now, old(ctx).worker).1
                &&& m@ == (m.id, Some(system_author(old(ctx).server_domain@)), content@)
                &&& final(self).messages() == inserted(old(self).messages(), m@)
            },
            now >= JAN_1_2023 && old(self).fragments().len() > 0 ==> r is Ok,
            r is Err ==> final(self).messages() == old(self).messages(),
            r == Err::<ChannelMessage, SendError>(SendError::KeyGeneration) ==> now >= JAN_1_2023 && old(self).fragments().len() == 0,
            r is Err ==> final(self).fragments() == old(self).fragments(),
            r is Ok && (old(self).messages().len() == 0 || old(self).messages().last().0 <= r->Ok_0.id)
                ==> final(self).messages() == old(self).messages().push(r->Ok_0@),
            r is Ok && old(self).fragments().len() > 0 && (old(self).messages().len() == 0
                || old(self).messages().last().0 <= r->Ok_0.id) ==> final(self).fragments() == grown_last(old(self).fragments(), r->Ok_0@),
            r is Ok && old(self).fragments().len() > 0 ==> final(self).fragments().len() == old(self).fragments().len()
                && forall|j: int| 0 <= j < old(self).fragments().len() ==> #[trigger] final(self).fragments()[j].0
                    == old(self).fragments()[j].0 && final(self).fragments()[j].1 == old(self).fragments()[j].1,
            r is Ok && old(self).fragments().len() == 0 ==> final(self).fragments().len() == 1
                && final(self).fragments()[0].1 && final(self).fragments()[0].2 == seq![r->Ok_0@],
            ids_ordered(final(self).messages()),
    {
        proof {
            use_type_invariant(&*self);
        }
        let id = match ctx.keeper.next_at(now) {
            Some(c) => make_id(c.time_ms, ctx.worker, c.count),
            None => return Err(SendError::ClockBeforeEpoch),
        };
        let author = User::from("Loki".to_owned(), ctx.server_domain.clone(), true, 0);
        let message = ChannelMessage { id, from: Some(author), content };
        let copy = message.duplicate();
        let mut store = FragmentStore::new();
        std::mem::swap(&mut store, &mut self.store);
        let r = store.append(message);
        self.store = store;
        match r {
            Ok(()) => Ok(copy),
            Err(e) => Err(e),
        }
    }

    /// Sends `content` at the current time; see `send_message_at`.
    pub fn send_message(&mut self, content: MessageContent, ctx: &mut WorkerContext) -> (r: Result<ChannelMessage, SendError>)
        ensures
            final(ctx).server_domain == old(ctx).server_domain,
            final(ctx).worker == old(ctx).worker,
            exists|now: u64| {
                &&& final(ctx).keeper == #[trigger] allocate(old(ctx).keeper, now, old(ctx).worker).0
                &&& (r matches Ok(m) ==> Some(m.id) == allocate(old(ctx).keeper, now, old(ctx).worker).1)
            },
            r matches Ok(m) ==> {
                &&& m@ == (m.id, Some(system_author(old(ctx).server_domain@)), content@)
                &&& final(self).messages() == inserted(old(self).messages(), m@)
            },
            r is Err ==> final(self).messages() == old(self).messages(),
            r is Err ==> final(self).fragments() == old(self).fragments(),
            r == Err::<ChannelMessage, SendError>(SendError::KeyGeneration) ==> old(self).fragments().len() == 0,
            r is Ok && (old(self).messages().len() == 0 || old(self).messages().last().0 <= r->Ok_0.id)
                ==> final(self).messages() == old(self).messages().push(r->Ok_0@),
            r is Ok && old(self).fragments().len() > 0 && (old(self).messages().len() == 0
                || old(self).messages().last().0 <= r->Ok_0.id) ==> final(self).fragments() == grown_last(old(self).fragments(), r->Ok_0@),
            r is Ok && old(self).fragments().len() > 0 ==> final(self).fragments().len() == old(self).fragments().len()
                && forall|j: int| 0 <= j < old(self).fragments().len() ==> #[trigger] final(self).fragments()[j].0
                    == old(self).fragments()[j].0 && final(self).fragments()[j].1 == old(self).fragments()[j].1,
            r is Ok && old(self).fragments().len() == 0 ==> final(self).fragments().len() == 1
                && final(self).fragments()[0].1 && final(self).fragments()[0].2 == seq![r->Ok_0@],
            ids_ordered(final(self).messages()),
    {
        proof {
            use_type_invariant(&*self);
        }
        match unix_millis() {
            Some(now) => self.send_message_at(content, ctx, now),
            None => {
                assert(allocate(old(ctx).keeper, 0, old(ctx).worker).0 == old(ctx).keeper);
                Err(SendError::ClockBeforeEpoch)
            },
        }
    }

    /// The newest `amount` messages whose identifier is at most `begin_at_id`
    /// (any identifier when `None`), oldest first; see `FragmentStore`.
    pub fn fetch_newest_messages(&mut self, amount: u32, begin_at_id: Option<u64>) -> (r: Vec<ChannelMessage>)
        ensures
            ids_ordered(final(self).messages()),
            final(self).messages() == old(self).messages(),
            sheds_empty(old(self).fragments(), final(self).fragments()),
            r@.map_values(|m: ChannelMessage| m@) == newest(old(self).messages(), amount as nat, cursor_of(begin_at_id)),
    {
        proof {
            use_type_invariant(&*self);
        }
        let mut store = FragmentStore::new();
        std::mem::swap(&mut store, &mut self.store);
        let r = store.fetch_newest_messages(amount, begin_at_id);
        self.store = store;
        r
    }

    /// Merges neighbouring fragments that share a key and drops empty ones;
    /// the messages stay as they were.
    pub fn defragment(&mut self)
        ensures
            ids_ordered(final(self).messages()),
            final(self).fragments() == merged(old(self).fragments()),
            final(self).messages() == old(self).messages(),
    {
        proof {
            use_type_invariant(&*self);
        }
        let mut store = FragmentStore::new();
        std::mem::swap(&mut store, &mut self.store);
        store.defragment();
        self.store = store;
    }

    /// The number of fragments.
    pub fn fragment_count(&self) -> (n: usize)
        ensures
            n == self.fragments().len(),
    {
        self.store.fragment_count()
    }
}

impl<'a> Channel<SendError, &'a mut WorkerContext> for ServerChannel {
    /// Fetching never fails.
    fn fetch_newest_messages(&mut self, amount: u32, begin_at_id: Option<u64>) -> Result<Vec<ChannelMessage>, SendError> {
        Ok(ServerChannel::fetch_newest_messages(self, amount, begin_at_id))
    }

    fn send_message(&mut self, message: MessageContent, ctx: &'a mut WorkerContext) -> Result<ChannelMessage, SendError> {
        ServerChannel::send_message(self, message, ctx)
    }
}

} // verus!
