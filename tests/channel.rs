use loki::channel::{Channel, ChannelMessage, EncryptedContent, FragmentStore, MessageContent, SendError, ServerChannel, UnencryptedContent};
use loki::ids::{WorkerContext, JAN_1_2023};
use loki::keys::PublicKey;

fn text(t: &str) -> MessageContent {
    MessageContent::Unencrypted(UnencryptedContent { hash: "ignore".to_owned(), text: t.to_owned() })
}

fn msg(id: u64) -> ChannelMessage {
    ChannelMessage { id, from: None, content: text(&format!("m{id}")) }
}

fn key(n: u8) -> PublicKey {
    PublicKey { modulus: vec![n, 1, 2], exponent: vec![1, 0, 1] }
}

fn ids(v: &[ChannelMessage]) -> Vec<u64> {
    v.iter().map(|m| m.id).collect()
}

#[test]
fn send_and_receive() {
    let mut ctx = WorkerContext::new("test.localhost".to_owned(), 0);
    let mut channel = ServerChannel::new();
    let content1 = text("TESTMSG1");
    let content2 = text("TESTMSG2");
    let msg1 = channel.send_message(content1.clone(), &mut ctx).unwrap();
    let msg2 = channel.send_message(content2.clone(), &mut ctx).unwrap();
    let msgs = channel.fetch_newest_messages(5, None);
    assert_eq!(msgs.len(), 2);
    assert_eq!(msgs[0], msg1);
    assert_eq!(msgs[1], msg2);
    assert_eq!(msgs[0].content, content1);
    assert_eq!(msgs[1].content, content2);
}

#[test]
fn sent_message_has_server_author() {
    let mut ctx = WorkerContext::new("test.localhost".to_owned(), 5);
    let mut channel = ServerChannel::new();
    let m = channel.send_message_at(text("x"), &mut ctx, JAN_1_2023 + 1).unwrap();
    let author = m.from.unwrap();
    assert_eq!(author.name, "Loki");
    assert_eq!(author.home, "test.localhost");
    assert!(author.bot);
    assert_eq!(author.id, 0);
    assert_eq!(m.id, (1 << 22) + (5 << 12));
    // The first message made a fragment.
    assert_eq!(channel.fragment_count(), 1);
}

#[test]
fn send_before_epoch_fails() {
    let mut ctx = WorkerContext::new("d".to_owned(), 0);
    let mut channel = ServerChannel::new();
    assert_eq!(channel.send_message_at(text("x"), &mut ctx, 5), Err(SendError::ClockBeforeEpoch));
    assert_eq!(channel.fragment_count(), 0);
}

#[test]
fn send_with_older_id_is_stored_in_order() {
    let mut ctx = WorkerContext::new("d".to_owned(), 0);
    let mut channel = ServerChannel::new();
    let a = channel.send_message_at(text("a"), &mut ctx, JAN_1_2023 + 100).unwrap();
    // The clock went back: the message still goes in, at its place.
    let b = channel.send_message_at(text("b"), &mut ctx, JAN_1_2023 + 50).unwrap();
    assert!(b.id < a.id);
    assert_eq!(channel.fetch_newest_messages(10, None), vec![b.clone(), a.clone()]);
    assert_eq!(channel.fragment_count(), 1);
}

#[test]
fn workers_interleaving_in_one_millisecond() {
    let mut high = WorkerContext::new("d".to_owned(), 7);
    let mut low = WorkerContext::new("d".to_owned(), 1);
    let mut channel = ServerChannel::new();
    let h = channel.send_message_at(text("h"), &mut high, JAN_1_2023 + 5).unwrap();
    let l = channel.send_message_at(text("l"), &mut low, JAN_1_2023 + 5).unwrap();
    assert!(l.id < h.id);
    assert_eq!(ids(&channel.fetch_newest_messages(10, None)), vec![l.id, h.id]);
}

#[test]
fn fetch_gives_newest_in_order() {
    let mut c = FragmentStore::new();
    c.open_fragment(key(1), false);
    for i in 1..=5 {
        c.append(msg(i)).unwrap();
    }
    assert_eq!(ids(&c.fetch_newest_messages(3, None)), vec![3, 4, 5]);
    assert_eq!(ids(&c.fetch_newest_messages(9, None)), vec![1, 2, 3, 4, 5]);
    assert_eq!(ids(&c.fetch_newest_messages(0, None)), Vec::<u64>::new());
    assert_eq!(c.fetch_newest_messages(1, None)[0], msg(5));
}

#[test]
fn fetch_respects_cursor() {
    let mut c = FragmentStore::new();
    c.open_fragment(key(1), false);
    for i in [10, 20, 30] {
        c.append(msg(i)).unwrap();
    }
    c.open_fragment(key(2), false);
    for i in [40, 50] {
        c.append(msg(i)).unwrap();
    }
    assert_eq!(ids(&c.fetch_newest_messages(2, Some(30))), vec![20, 30]);
    assert_eq!(ids(&c.fetch_newest_messages(3, Some(45))), vec![20, 30, 40]);
    assert_eq!(ids(&c.fetch_newest_messages(10, Some(35))), vec![10, 20, 30]);
    assert_eq!(ids(&c.fetch_newest_messages(10, Some(9))), Vec::<u64>::new());
    assert_eq!(ids(&c.fetch_newest_messages(1, Some(50))), vec![50]);
}

#[test]
fn fetch_across_empty_fragments() {
    let mut c = FragmentStore::new();
    c.open_fragment(key(1), false);
    c.open_fragment(key(2), false);
    c.append(msg(1)).unwrap();
    c.open_fragment(key(3), false);
    c.open_fragment(key(4), false);
    c.append(msg(2)).unwrap();
    c.open_fragment(key(5), false);
    assert_eq!(ids(&c.fetch_newest_messages(5, None)), vec![1, 2]);
    assert_eq!(ids(&c.fetch_newest_messages(5, Some(1))), vec![1]);
    assert!(c.fragment_count() <= 5);
}

#[test]
fn append_puts_old_ids_in_place() {
    let mut c = FragmentStore::new();
    c.open_fragment(key(1), false);
    c.append(msg(2)).unwrap();
    c.append(msg(6)).unwrap();
    c.open_fragment(key(2), false);
    c.append(msg(8)).unwrap();
    c.append(msg(5)).unwrap();
    c.append(msg(9)).unwrap();
    c.append(msg(1)).unwrap();
    c.append(msg(6)).unwrap();
    assert_eq!(ids(&c.fetch_newest_messages(10, None)), vec![1, 2, 5, 6, 6, 8, 9]);
    assert_eq!(c.last_id(), Some(9));
    assert_eq!(c.fragment_count(), 2);
    assert_eq!(ids(&c.fetch_newest_messages(2, Some(6))), vec![6, 6]);
}

#[test]
fn defragment_merges_same_key() {
    let mut c = FragmentStore::new();
    c.open_fragment(key(1), false);
    for i in 1..=5 {
        c.append(msg(i)).unwrap();
    }
    c.open_fragment(key(1), false);
    for i in 6..=10 {
        c.append(msg(i)).unwrap();
    }
    assert_eq!(c.fragment_count(), 2);
    c.defragment();
    assert_eq!(c.fragment_count(), 1);
    assert_eq!(ids(&c.fetch_newest_messages(10, None)), (1..=10).collect::<Vec<u64>>());
}

#[test]
fn defragment_is_transparent() {
    let mut c = FragmentStore::new();
    for (k, range) in [(1u8, 1..=3u64), (2, 4..=4), (2, 5..=6), (1, 7..=8)] {
        c.open_fragment(key(k), false);
        for i in range {
            c.append(msg(i)).unwrap();
        }
    }
    c.open_fragment(key(3), true);
    let before = c.fetch_newest_messages(100, None);
    let before_cursor = c.fetch_newest_messages(3, Some(6));
    c.defragment();
    // The two neighbours with key 2 merge, the empty last one goes.
    assert_eq!(c.fragment_count(), 3);
    assert_eq!(c.fetch_newest_messages(100, None), before);
    assert_eq!(c.fetch_newest_messages(3, Some(6)), before_cursor);
}

#[test]
fn encrypted_content_is_kept() {
    let mut c = FragmentStore::new();
    c.open_fragment(key(1), false);
    let content = MessageContent::Encrypted(EncryptedContent { hash: "h".to_owned(), ciphertext: vec![9, 8, 7] });
    let m = ChannelMessage { id: 3, from: None, content: content.clone() };
    c.append(m.clone()).unwrap();
    assert_eq!(c.fetch_newest_messages(1, None), vec![m]);
}

#[test]
fn channel_trait_surface() {
    let mut ctx = WorkerContext::new("test.localhost".to_owned(), 2);
    let mut channel = ServerChannel::new();
    let sent = Channel::send_message(&mut channel, text("via trait"), &mut ctx).unwrap();
    let fetched = Channel::fetch_newest_messages(&mut channel, 1, None).unwrap();
    assert_eq!(fetched, vec![sent]);
    channel.defragment();
    assert_eq!(channel.fetch_newest_messages(1, Some(0)), Vec::new());
}
