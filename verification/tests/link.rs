use wireshade::link::{PacketQueue, LINK_MTU};

#[test]
fn the_link_mtu_fits_the_tunnel_overhead() {
    assert_eq!(LINK_MTU, 1420);
}

#[test]
fn packet_queues_are_strictly_first_in_first_out() {
    let mut q = PacketQueue::new();
    assert_eq!(q.len(), 0);
    assert_eq!(q.pop_front(), None);
    q.push_back(vec![1]);
    q.push_back(vec![2, 2]);
    q.push_back(vec![3]);
    assert_eq!(q.len(), 3);
    assert_eq!(q.pop_front(), Some(vec![1]));
    assert_eq!(q.pop_front(), Some(vec![2, 2]));
    q.push_back(vec![4]);
    assert_eq!(q.pop_front(), Some(vec![3]));
    assert_eq!(q.pop_front(), Some(vec![4]));
    assert_eq!(q.pop_front(), None);
}
