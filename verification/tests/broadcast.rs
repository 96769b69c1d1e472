use collective::bcast::bcast;
use collective::bcast::role;
use collective::bcast::Channel;
use collective::bcast::Outcome;
use collective::bcast::Role;

#[test]
fn roles() {
    assert_eq!(role(0, 0, 1), Role::Alone);
    assert_eq!(role(0, 0, 2), Role::Root);
    assert_eq!(role(1, 0, 2), Role::Follower);
    assert_eq!(role(3, 3, 4), Role::Root);
    assert_eq!(role(0, 3, 4), Role::Follower);
}

#[test]
fn a_rank_alone_does_nothing() {
    let mut channel = Channel::new();
    let mut header = vec![9u8; 8];
    let mut buffer = vec![1u8, 2, 3];
    let mut epoch = 0u64;
    let outcome = bcast(&mut channel, &mut header[..], &mut buffer[..], 0, 0, 1, &mut epoch);
    assert_eq!(outcome, Outcome::Alone);
    assert_eq!(buffer, vec![1u8, 2, 3]);
    assert_eq!(header, vec![9u8; 8]);
    assert_eq!(epoch, 0);
    assert!(!channel.ready(0));
    assert!(channel.drained(0));
    assert!(!channel.drained(1));
}

#[test]
fn every_follower_gets_the_roots_bytes() {
    let size = 4i32;
    let data: Vec<u8> = (0..300usize).map(|index| index as u8).collect();
    let mut channel = Channel::new();
    let mut header = vec![0xAAu8; 512];
    let mut buffers: Vec<Vec<u8>> = (0..size).map(|_| vec![0u8; 300]).collect();
    buffers[2] = data.clone();
    let mut epochs = vec![0u64; 4];
    for rank in [0usize, 1, 3] {
        assert!(!channel.ready(epochs[rank]));
        let early = bcast(
            &mut channel,
            &mut header[..],
            &mut buffers[rank][..],
            rank as i32,
            2,
            size,
            &mut epochs[rank],
        );
        assert_eq!(early, Outcome::Early);
        assert_eq!(buffers[rank], vec![0u8; 300]);
        assert_eq!(epochs[rank], 0);
        assert!(!channel.ready(0));
    }
    let sent = bcast(&mut channel, &mut header[..], &mut buffers[2][..], 2, 2, size, &mut epochs[2]);
    assert_eq!(sent, Outcome::Sent);
    assert_eq!(&header[..300], &data[..]);
    assert_eq!(&header[300..], &vec![0xAAu8; 212][..]);
    assert_eq!(epochs[2], 4);
    assert!(!channel.drained(epochs[2]));
    for rank in [3usize, 0, 1] {
        assert!(channel.ready(epochs[rank]));
        let received = bcast(
            &mut channel,
            &mut header[..],
            &mut buffers[rank][..],
            rank as i32,
            2,
            size,
            &mut epochs[rank],
        );
        assert_eq!(received, Outcome::Received);
        assert_eq!(buffers[rank], data);
        assert_eq!(epochs[rank], 4);
        assert_eq!(channel.drained(4), rank == 1);
    }
    assert_eq!(buffers[2], data);
}

#[test]
fn send_and_receive_move_the_epoch() {
    let mut channel = Channel::new();
    let mut header = vec![0u8; 4];
    channel.send(&mut header[..], &[5u8, 6]);
    assert_eq!(header, vec![5u8, 6, 0, 0]);
    assert!(channel.ready(0));
    assert!(channel.drained(1));
    assert!(!channel.drained(2));
    let mut buffer = vec![0u8; 3];
    channel.receive(&header[..], &mut buffer[..]);
    assert_eq!(buffer, vec![5u8, 6, 0]);
    assert!(channel.drained(2));
    let mut none: Vec<u8> = Vec::new();
    channel.receive(&header[..], &mut none[..]);
    assert!(none.is_empty());
    assert!(channel.drained(3));
}

#[test]
fn an_observed_epoch_tells_who_may_go_on() {
    assert!(!Channel::observed(4).ready(4));
    assert!(Channel::observed(5).ready(4));
    assert!(!Channel::observed(7).drained(8));
    assert!(Channel::observed(8).drained(8));
}

#[test]
fn a_rank_alone_does_nothing_in_any_state() {
    let mut channel = Channel::observed(u64::MAX);
    let mut header = vec![9u8; 2];
    let mut buffer = vec![1u8, 2, 3, 4, 5];
    let mut epoch = u64::MAX;
    let outcome = bcast(&mut channel, &mut header[..], &mut buffer[..], 0, 0, 1, &mut epoch);
    assert_eq!(outcome, Outcome::Alone);
    assert_eq!(buffer, vec![1u8, 2, 3, 4, 5]);
    assert_eq!(header, vec![9u8; 2]);
    assert_eq!(epoch, u64::MAX);
    assert!(channel.drained(u64::MAX));
}
