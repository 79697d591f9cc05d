//! The loopback side of the network device.
use litebox::net::phy::{
    interface_ip_addr, is_local_destination, is_loopback_destination, Device, IPInterfaceProvider,
    ReceiveError, SendError, LOOPBACK_QUEUE_CAP,
};
use std::sync::Mutex;

struct Wire {
    sent: Mutex<Vec<Vec<u8>>>,
    waiting: Mutex<Vec<Vec<u8>>>,
}

impl IPInterfaceProvider for Wire {
    fn send_ip_packet(&self, packet: &[u8]) -> Result<(), SendError> {
        if packet.len() > 100 {
            return Err(SendError::Failed);
        }
        self.sent.lock().unwrap().push(packet.to_vec());
        Ok(())
    }

    fn receive_ip_packet(&self) -> Result<Vec<u8>, ReceiveError> {
        self.waiting.lock().unwrap().pop().ok_or(ReceiveError::WouldBlock)
    }
}

fn wire() -> &'static Wire {
    Box::leak(Box::new(Wire { sent: Mutex::new(Vec::new()), waiting: Mutex::new(Vec::new()) }))
}

fn packet(destination: [u8; 4], tag: u8) -> Vec<u8> {
    let mut packet = vec![0; 21];
    packet[0] = 0x45;
    packet[16..20].copy_from_slice(&destination);
    packet[20] = tag;
    packet
}

#[test]
fn loopback_destinations() {
    assert!(is_loopback_destination(&packet([127, 0, 0, 1], 0)));
    assert!(is_loopback_destination(&packet([127, 255, 1, 9], 0)));
    assert!(is_loopback_destination(&packet([10, 0, 0, 2], 0)));
    assert!(!is_loopback_destination(&packet([10, 0, 0, 1], 0)));
    assert!(!is_loopback_destination(&packet([10, 0, 0, 3], 0)));
    let mut other = packet([127, 0, 0, 1], 0);
    other[0] = 0x60;
    assert!(!is_loopback_destination(&other));
    assert!(!is_loopback_destination(&packet([127, 0, 0, 1], 0)[..19]));
    assert!(is_loopback_destination(&packet([127, 0, 0, 1], 0)[..20]));
}

#[test]
fn looped_packets_come_back_in_order_and_first() {
    let wire = wire();
    let mut device = Device::new(wire);
    wire.waiting.lock().unwrap().push(vec![9]);
    device.transmit(&packet([127, 0, 0, 1], 1)).unwrap();
    device.transmit(&packet([10, 0, 0, 2], 2)).unwrap();
    assert!(wire.sent.lock().unwrap().is_empty());
    assert_eq!(device.receive().unwrap()[20], 1);
    assert_eq!(device.receive().unwrap()[20], 2);
    assert_eq!(device.receive(), Some(vec![9]));
    assert_eq!(device.receive(), None);
}

#[test]
fn other_packets_go_out() {
    let wire = wire();
    let mut device = Device::new(wire);
    let out = packet([8, 8, 8, 8], 1);
    device.transmit(&out).unwrap();
    assert_eq!(*wire.sent.lock().unwrap(), vec![out]);
    let mut large = packet([8, 8, 8, 8], 1);
    large.resize(200, 0);
    assert_eq!(device.transmit(&large), Err(SendError::Failed));
}

#[test]
fn full_loopback_queue_drops_the_newest() {
    let mut device = Device::new(wire());
    for i in 0..LOOPBACK_QUEUE_CAP + 10 {
        device.transmit(&packet([127, 0, 0, 1], (i % 251) as u8)).unwrap();
    }
    for i in 0..LOOPBACK_QUEUE_CAP {
        assert_eq!(device.receive().unwrap()[20], (i % 251) as u8);
    }
    assert_eq!(device.receive(), None);
}

#[test]
fn interface_loops_its_own_address_back() {
    let wire = wire();
    let mut device = Device::with_address(wire, [10, 0, 1, 2]);
    device.transmit(&packet([10, 0, 1, 2], 1)).unwrap();
    device.transmit(&packet([127, 0, 0, 1], 2)).unwrap();
    device.transmit(&packet([10, 0, 0, 2], 3)).unwrap();
    assert_eq!(device.receive().unwrap()[20], 1);
    assert_eq!(device.receive().unwrap()[20], 2);
    assert!(device.receive().is_none());
    assert_eq!(wire.sent.lock().unwrap().len(), 1);
    assert_eq!(wire.sent.lock().unwrap()[0][20], 3);
    assert!(is_local_destination(&packet([10, 0, 1, 2], 0), [10, 0, 1, 2]));
    assert!(!is_local_destination(&packet([10, 0, 1, 2], 0), interface_ip_addr()));
}
