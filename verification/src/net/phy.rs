//! Connection to the physical (i.e., "lower") side for networking.
use std::collections::VecDeque;
use vstd::prelude::*;

verus! {

/// The maximum transmission unit for a device
pub const DEVICE_MTU: usize = 1600;

/// Upper bound on packets held in the loopback queue. A guest that pushes more than this into
/// loopback faster than the interface drains it loses the excess.
pub const LOOPBACK_QUEUE_CAP: usize = 256;

/// The address of an interface that was given no other.
pub open spec fn interface_address() -> Seq<u8> {
    seq![10, 0, 0, 2]
}

/// The address of an interface that was given no other.
pub fn interface_ip_addr() -> (octets: [u8; 4])
    ensures
        octets@ == interface_address(),
{
    let octets: [u8; 4] = [10, 0, 0, 2];
    proof {
        assert(octets@ =~= interface_address());
    }
    octets
}

/// Why a packet was not sent.
#[derive(Clone, Copy, Debug, PartialEq, Eq, Structural)]
pub enum SendError {
    Failed,
}

/// Why no packet was received.
#[derive(Clone, Copy, Debug, PartialEq, Eq, Structural)]
pub enum ReceiveError {
    WouldBlock,
}

/// The platform's side of the interface.
pub trait IPInterfaceProvider {
    fn send_ip_packet(&self, packet: &[u8]) -> (result: Result<(), SendError>);

    fn receive_ip_packet(&self) -> (result: Result<Vec<u8>, ReceiveError>);
}

/// An IPv4 packet that an interface loops back to itself: to any address of `127.0.0.0/8`, or to
/// the interface's own. A packet that is too short, or of another version, is not looped.
pub open spec fn loops_back(packet: Seq<u8>, own: Seq<u8>) -> bool {
    &&& packet.len() >= 20
    &&& packet[0] / 16 == 4
    &&& packet[16] == 127 || packet.subrange(16, 20) == own
}

/// The loopback queue after a packet was looped back: at the end, or lost if the queue is full.
pub open spec fn looped(queue: Seq<Seq<u8>>, packet: Seq<u8>) -> Seq<Seq<u8>> {
    if queue.len() < LOOPBACK_QUEUE_CAP {
        queue.push(packet)
    } else {
        queue
    }
}

/// The loopback queue never grows beyond its bound, and never loses what is in it.
pub proof fn lemma_loopback_is_bounded(queue: Seq<Seq<u8>>, packet: Seq<u8>)
    requires
        queue.len() <= LOOPBACK_QUEUE_CAP,
    ensures
        looped(queue, packet).len() <= LOOPBACK_QUEUE_CAP,
        looped(queue, packet).take(queue.len() as int) == queue,
{
    assert(looped(queue, packet).take(queue.len() as int) =~= queue);
}

/// What is looped back comes out in order: once everything before a packet was received, the packet
/// is next.
pub proof fn lemma_loopback_keeps_order(queue: Seq<Seq<u8>>, packet: Seq<u8>, later: Seq<u8>)
    requires
        queue.len() + 1 < LOOPBACK_QUEUE_CAP,
    ensures
        looped(looped(queue, packet), later).skip(queue.len() as int) == seq![packet, later],
{
    assert(looped(looped(queue, packet), later).skip(queue.len() as int) =~= seq![packet, later]);
}

/// The version and the destination of a packet alone say whether it is looped back: a packet with a whole
/// header, of version 4, is looped back exactly if its destination begins with 127 or is the interface's
/// own, octet by octet. No other packet is.
pub proof fn lemma_destination_decides(packet: Seq<u8>, own: Seq<u8>)
    requires
        own.len() == 4,
    ensures
        loops_back(packet, own) <==> {
            &&& packet.len() >= 20
            &&& 64 <= packet[0] < 80
            &&& packet[16] != 127 ==> forall|i: int| 0 <= i < 4 ==> packet[16 + i] == #[trigger] own[i]
        },
{
    if packet.len() >= 20 {
        let address = packet.subrange(16, 20);
        assert(forall|i: int| 0 <= i < 4 ==> #[trigger] address[i] == packet[16 + i]);
        if forall|i: int| 0 <= i < 4 ==> packet[16 + i] == #[trigger] own[i] {
            assert(address =~= own);
        }
    }
}

/// What sending does: a packet to the interface itself always succeeds, and is the last that is looped
/// back while fewer than 256 wait, else it is lost; any other packet leaves those that wait alone.
pub open spec fn is_sending(
    own: Seq<u8>,
    packet: Seq<u8>,
    before: Seq<Seq<u8>>,
    after: Seq<Seq<u8>>,
    result: Result<(), SendError>,
) -> bool {
    let to_itself = packet.len() >= 20 && 64 <= packet[0] < 80 && (packet[16] == 127 || packet[16] == own[0]
        && packet[17] == own[1] && packet[18] == own[2] && packet[19] == own[3]);
    &&& to_itself ==> result is Ok
    &&& to_itself && before.len() < 256 ==> {
        &&& after.len() == before.len() + 1
        &&& after.last() == packet
        &&& after.drop_last() == before
    }
    &&& !to_itself || before.len() >= 256 ==> after == before
}

/// A packet is sent as it must be.
pub proof fn lemma_sending_is_lawful(own: Seq<u8>, packet: Seq<u8>, before: Seq<Seq<u8>>)
    requires
        own.len() == 4,
    ensures
        loops_back(packet, own) ==> is_sending(own, packet, before, looped(before, packet), Ok(())),
        !loops_back(packet, own) ==> forall|result: Result<(), SendError>| #[trigger]
            is_sending(own, packet, before, before, result),
{
    lemma_destination_decides(packet, own);
    assert(before.push(packet).drop_last() =~= before);
    if packet.len() >= 20 && packet[16] == own[0] && packet[17] == own[1] && packet[18] == own[2] && packet[19]
        == own[3] {
        assert forall|i: int| 0 <= i < 4 implies packet[16 + i] == #[trigger] own[i] by {
            assert(i == 0 || i == 1 || i == 2 || i == 3);
        }
    }
    if loops_back(packet, own) && packet[16] != 127 {
        assert(packet[16] == own[0] && packet[17] == own[1] && packet[18] == own[2] && packet[19] == own[3]);
    }
}

/// Whether a packet goes back to the interface it came from, which was given no address of its own.
pub fn is_loopback_destination(packet: &[u8]) -> (yes: bool)
    ensures
        yes == loops_back(packet@, interface_address()),
{
    is_local_destination(packet, interface_ip_addr())
}

/// Whether a packet goes back to the interface it came from, given the interface's address.
pub fn is_local_destination(packet: &[u8], own: [u8; 4]) -> (yes: bool)
    ensures
        yes == loops_back(packet@, own@),
{
    if packet.len() < 20 || packet[0] / 16 != 4 {
        return false;
    }
    let same = packet[16] == own[0] && packet[17] == own[1] && packet[18] == own[2] && packet[19]
        == own[3];
    proof {
        let address = packet@.subrange(16, 20);
        if same {
            assert(address =~= own@);
        } else if address == own@ {
            assert(address[0] == own@[0] && address[1] == own@[1] && address[2] == own@[2]
                && address[3] == own@[3]);
        }
    }
    packet[16] == 127 || same
}

/// A network device: the platform's interface with a loopback in front of it.
pub struct Device<P: IPInterfaceProvider + 'static> {
    platform: &'static P,
    /// The address of the interface.
    own: [u8; 4],
    /// Packets the guest sent to a local address, to be handed straight back.
    loopback: VecDeque<Vec<u8>>,
}

/// Packets, as mathematical values.
pub open spec fn packets(list: Seq<Vec<u8>>) -> Seq<Seq<u8>> {
    Seq::new(list.len(), |i: int| list[i]@)
}

/// The platform was asked for a packet.
pub open spec fn received_from<P: IPInterfaceProvider>(platform: &P, packet: Option<Vec<u8>>) -> bool {
    exists|answer: Result<Vec<u8>, ReceiveError>| #[trigger]
        call_ensures(P::receive_ip_packet, (platform,), answer) && packet == (match answer {
            Ok(bytes) => Some(bytes),
            Err(_) => None,
        })
}

impl<P: IPInterfaceProvider + 'static> View for Device<P> {
    type V = Seq<Seq<u8>>;

    closed spec fn view(&self) -> Seq<Seq<u8>> {
        packets(self.loopback@)
    }
}

impl<P: IPInterfaceProvider + 'static> Device<P> {
    /// The loopback queue is within its bound.
    pub open spec fn wf(&self) -> bool {
        self@.len() <= LOOPBACK_QUEUE_CAP
    }

    /// The platform underneath.
    pub closed spec fn provider(&self) -> &'static P {
        self.platform
    }

    /// The address of the interface.
    pub closed spec fn address(&self) -> Seq<u8> {
        self.own@
    }

    pub fn new(platform: &'static P) -> (device: Self)
        ensures
            device.wf(),
            device@ == Seq::<Seq<u8>>::empty(),
            device.provider() == platform,
            device.address() == interface_address(),
    {
        Self::with_address(platform, interface_ip_addr())
    }

    /// A device whose interface has an address of its own.
    pub fn with_address(platform: &'static P, own: [u8; 4]) -> (device: Self)
        ensures
            device.wf(),
            device@ == Seq::<Seq<u8>>::empty(),
            device.provider() == platform,
            device.address() == own@,
    {
        let device = Device { platform, own, loopback: VecDeque::new() };
        proof {
            assert(device@ =~= Seq::<Seq<u8>>::empty());
        }
        device
    }

    /// The next packet for the guest. What was looped back comes first: a busy platform never
    /// starves it.
    pub fn receive(&mut self) -> (packet: Option<Vec<u8>>)
        requires
            old(self).wf(),
        ensures
            final(self).wf(),
            final(self).provider() == old(self).provider(),
            final(self).address() == old(self).address(),
            if old(self)@.len() > 0 {
                &&& packet matches Some(packet) && packet@ == old(self)@[0]
                &&& final(self)@ == old(self)@.drop_first()
            } else {
                &&& final(self)@ == old(self)@
                &&& received_from(old(self).provider(), packet)
            },
    {
        let looped = self.loopback.pop_front();
        if let Some(packet) = looped {
            proof {
                assert(self@ =~= old(self)@.drop_first());
            }
            return Some(packet);
        }
        let answer = self.platform.receive_ip_packet();
        let ghost given = answer;
        let packet = match answer {
            Ok(packet) => Some(packet),
            Err(ReceiveError::WouldBlock) => None,
        };
        proof {
            assert(call_ensures(P::receive_ip_packet, (old(self).provider(),), given));
            assert(received_from(old(self).provider(), packet));
            assert(self@ == old(self)@);
        }
        packet
    }

    /// Sends a packet of the guest: back to itself, or out through the platform.
    pub fn transmit(&mut self, packet: &[u8]) -> (result: Result<(), SendError>)
        requires
            old(self).wf(),
        ensures
            final(self).wf(),
            final(self).provider() == old(self).provider(),
            final(self).address() == old(self).address(),
            is_sending(old(self).address(), packet@, old(self)@, final(self)@, result),
            if loops_back(packet@, old(self).address()) {
                final(self)@ == looped(old(self)@, packet@) && result is Ok
            } else {
                final(self)@ == old(self)@ && call_ensures(
                    P::send_ip_packet,
                    (old(self).provider(), packet),
                    result,
                )
            },
    {
        proof {
            lemma_sending_is_lawful(self.address(), packet@, self@);
        }
        if is_local_destination(packet, self.own) {
            if self.loopback.len() < LOOPBACK_QUEUE_CAP {
                let copy = vstd::slice::slice_to_vec(packet);
                self.loopback.push_back(copy);
                proof {
                    assert(self@ =~= old(self)@.push(packet@));
                }
            }
            Ok(())
        } else {
            self.platform.send_ip_packet(packet)
        }
    }
}

} // verus!
