use naia_server_sync::command_receiver::CommandReceiver;

fn batch(items: &[(u16, Option<&'static str>)]) -> Vec<(u16, Option<&'static str>)> {
    items.to_vec()
}

#[test]
fn pops_in_arrival_order_across_batches() {
    let mut r: CommandReceiver<&'static str> = CommandReceiver::new();
    r.process_data(10, batch(&[(1, Some("a")), (2, Some("b"))]));
    r.process_data(10, batch(&[(3, Some("c"))]));
    assert_eq!(r.pop_incoming_command(10), Some((1, "a")));
    assert_eq!(r.pop_incoming_command(10), Some((2, "b")));
    assert_eq!(r.pop_incoming_command(10), Some((3, "c")));
    assert_eq!(r.pop_incoming_command(10), None);
}

#[test]
fn absent_tick_pops_nothing() {
    let mut r: CommandReceiver<u32> = CommandReceiver::new();
    assert_eq!(r.pop_incoming_command(5), None);
    r.process_data(6, vec![(9, Some(1))]);
    assert_eq!(r.pop_incoming_command(5), None);
    assert_eq!(r.pop_incoming_command(6), Some((9, 1)));
    assert_eq!(r.pop_incoming_command(6), None);
}

#[test]
fn failed_reconstruction_drops_only_that_record() {
    let mut r: CommandReceiver<u32> = CommandReceiver::new();
    r.process_data(3, vec![(1, Some(10)), (2, None), (3, Some(30))]);
    assert_eq!(r.pop_incoming_command(3), Some((1, 10)));
    assert_eq!(r.pop_incoming_command(3), Some((3, 30)));
    assert_eq!(r.pop_incoming_command(3), None);
}

#[test]
fn batch_with_nothing_reconstructed_keeps_slot_owner() {
    let mut r: CommandReceiver<u32> = CommandReceiver::new();
    r.process_data(1, vec![(1, Some(10))]);
    r.process_data(65, vec![(2, None)]);
    assert_eq!(r.pop_incoming_command(1), Some((1, 10)));
    assert_eq!(r.pop_incoming_command(65), None);
}

#[test]
fn tick_sixty_four_later_overwrites_slot() {
    let mut r: CommandReceiver<u32> = CommandReceiver::new();
    r.process_data(100, vec![(1, Some(1)), (1, Some(2))]);
    for d in 1..64u16 {
        r.process_data(100 + d, vec![(d, Some(d as u32))]);
    }
    r.process_data(164, vec![(7, Some(7))]);
    assert_eq!(r.pop_incoming_command(100), None);
    for d in 1..64u16 {
        assert_eq!(r.pop_incoming_command(100 + d), Some((d, d as u32)));
    }
    assert_eq!(r.pop_incoming_command(164), Some((7, 7)));
}

#[test]
fn ticks_wrap_around_sixteen_bits() {
    let mut r: CommandReceiver<u32> = CommandReceiver::new();
    r.process_data(65500, vec![(1, Some(1))]);
    r.process_data(65535, vec![(2, Some(2))]);
    r.process_data(0, vec![(3, Some(3))]);
    assert_eq!(r.pop_incoming_command(65535), Some((2, 2)));
    assert_eq!(r.pop_incoming_command(0), Some((3, 3)));
    // 65500 + 64 wraps to 28, which shares its slot.
    r.process_data(28, vec![(4, Some(4))]);
    assert_eq!(r.pop_incoming_command(65500), None);
    assert_eq!(r.pop_incoming_command(28), Some((4, 4)));
}

#[test]
fn older_tick_also_takes_over_its_slot() {
    let mut r: CommandReceiver<u32> = CommandReceiver::new();
    r.process_data(200, vec![(1, Some(1))]);
    r.process_data(136, vec![(2, Some(2))]);
    assert_eq!(r.pop_incoming_command(200), None);
    assert_eq!(r.pop_incoming_command(136), Some((2, 2)));
}

#[test]
fn drained_tick_keeps_accepting() {
    let mut r: CommandReceiver<u32> = CommandReceiver::new();
    r.process_data(4, vec![(1, Some(1))]);
    assert_eq!(r.pop_incoming_command(4), Some((1, 1)));
    assert_eq!(r.pop_incoming_command(4), None);
    r.process_data(4, vec![(2, Some(2))]);
    assert_eq!(r.pop_incoming_command(4), Some((2, 2)));
}
