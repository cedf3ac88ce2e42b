use loki::model::{ChannelId, Guild, GuildId, GuildView, Id, IdGenerator};

#[test]
fn guild_at_a_given_time() {
    let mut g = IdGenerator::new();
    let guild = Guild::new_at(&mut g, "x".to_owned(), 3);
    assert_eq!(guild.id, GuildId((3 << 22) + 1));
    assert_eq!(guild.channels[0].id, ChannelId((3 << 22) + 2));
    assert_eq!(g.counter, 2);
}

#[test]
fn id_generator_values() {
    let mut g = IdGenerator::new();
    assert_eq!(g.generate_at(1), (1 << 22) + 1);
    assert_eq!(g.generate_at(1), (1 << 22) + 2);
    g.counter = u16::MAX;
    assert_eq!(g.generate_at(0), 0);
    assert_eq!(g.counter, 0);
    g.counter = 4095;
    assert_eq!(g.generate_at(2), 2 << 22);
}

#[test]
fn guild_has_general_channel() {
    let mut g = IdGenerator::new();
    let guild = Guild::new(&mut g, "home".to_owned()).unwrap();
    assert_eq!(guild.name, "home");
    assert_eq!(guild.channels.len(), 1);
    assert_eq!(guild.channels[0].name, "general");
    assert!(guild.channels[0].messages.is_empty());
    assert_ne!(guild.id.value(), guild.channels[0].id.value());
}

#[test]
fn guild_view_starts_empty() {
    let v = GuildView::new(GuildId(4), ChannelId(5));
    assert_eq!(v.id, GuildId(4));
    assert_eq!(v.channel_id, ChannelId(5));
    assert!(v.message_field.is_empty());
}
