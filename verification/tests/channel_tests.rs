use ferret::ipc::channel::Channel;

#[test]
fn fifo_order_and_capacity() {
    let mut ch: Channel<u32, 3> = Channel::new();
    assert_eq!(ch.capacity(), 3);
    assert!(ch.is_empty());
    assert_eq!(ch.try_send(10), Ok(()));
    assert_eq!(ch.try_send(20), Ok(()));
    assert_eq!(ch.try_send(30), Ok(()));
    assert!(ch.is_full());
    assert_eq!(ch.try_send(40), Err(40));
    assert_eq!(ch.len(), 3);
    assert_eq!(ch.try_receive(), Some(10));
    assert_eq!(ch.try_send(40), Ok(()));
    assert_eq!(ch.try_receive(), Some(20));
    assert_eq!(ch.try_receive(), Some(30));
    assert_eq!(ch.try_receive(), Some(40));
    assert_eq!(ch.try_receive(), None);
    assert!(ch.is_empty());
}

#[test]
fn wraps_around_many_times() {
    let mut ch: Channel<u64, 2> = Channel::new();
    for i in 0..100u64 {
        assert_eq!(ch.try_send(i), Ok(()));
        assert_eq!(ch.try_receive(), Some(i));
    }
    assert_eq!(ch.try_receive(), None);
}

#[test]
fn owned_values_round_trip() {
    let mut ch: Channel<String, 1> = Channel::new();
    assert_eq!(ch.try_send(String::from("hello")), Ok(()));
    assert_eq!(ch.try_send(String::from("world")), Err(String::from("world")));
    assert_eq!(ch.try_receive(), Some(String::from("hello")));
}

#[test]
fn send_then_receive_keeps_order() {
    let mut ch: Channel<u8, 4> = Channel::new();
    assert_eq!(ch.try_send(1), Ok(()));
    assert_eq!(ch.try_send(2), Ok(()));
    assert_eq!(ch.try_receive(), Some(1));
    assert_eq!(ch.try_send(3), Ok(()));
    assert_eq!(ch.len(), 2);
    assert_eq!(ch.try_receive(), Some(2));
    assert_eq!(ch.try_receive(), Some(3));
    assert_eq!(ch.try_receive(), None);
}
