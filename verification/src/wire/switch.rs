use std::collections::HashMap;
use vstd::prelude::*;

use crate::wire::ethernet::{
    address_key, frame_dst, frame_src, law_address_key, law_address_number, EthernetAddress,
    EthernetHeader, BROADCAST_KEY, HEADER_LEN,
};
use crate::wire::ring::{law_push_hands_back, push_seen, PortSender};

verus! {

broadcast use vstd::std_specs::hash::group_hash_axioms;

/// A port of a switch.
pub struct SwitchPort {
    pub mac_addr: EthernetAddress,
    pub sender: PortSender,
}

/// Where a frame goes.
#[derive(Debug, PartialEq, Eq, Clone, Copy, Structural)]
pub enum Route {
    /// Nowhere.
    Nowhere,
    /// To one port.
    Port(usize),
    /// To every port but the one that it came in at.
    Flood,
}

/// A frame that was handed to a port, and what the port said to it.
#[derive(Debug)]
pub struct Delivery {
    pub port: usize,
    pub result: Result<(), Vec<u8>>,
}

/// The addresses that are known, each with the port that it was last seen at, after a frame has
/// come in.
pub open spec fn learned(table: Map<u64, usize>, frame: Seq<u8>, in_port: usize) -> Map<
    u64,
    usize,
> {
    if frame.len() < HEADER_LEN {
        table
    } else {
        table.insert(address_key(frame_src(frame)), in_port)
    }
}

/// Where a frame goes that came in at a port.
pub open spec fn routed(table: Map<u64, usize>, frame: Seq<u8>, in_port: usize) -> Route {
    let dst = address_key(frame_dst(frame));
    let known = learned(table, frame, in_port);
    if frame.len() < HEADER_LEN {
        Route::Nowhere
    } else if dst == BROADCAST_KEY || !known.contains_key(dst) {
        Route::Flood
    } else if known[dst] != in_port {
        Route::Port(known[dst])
    } else {
        Route::Nowhere
    }
}

/// The ports that a frame is handed to, of a switch with so many ports, in order.
pub open spec fn targets(route: Route, in_port: usize, ports: nat) -> Seq<usize> {
    match route {
        Route::Nowhere => Seq::empty(),
        Route::Port(port) => seq![port],
        Route::Flood => if in_port < ports {
            Seq::new(
                (ports - 1) as nat,
                |i: int|
                    if i < in_port {
                        i as usize
                    } else {
                        (i + 1) as usize
                    },
            )
        } else {
            Seq::new(ports, |i: int| i as usize)
        },
    }
}

/// A switch that learns which port an address is at from the frames that come in.
pub struct Switch {
    pub mac_table: HashMap<u64, usize>,
    pub ports: Vec<SwitchPort>,
}

impl Switch {
    /// The ports that a frame is handed to, in order.
    pub open spec fn targets(self, frame: Seq<u8>, in_port: usize) -> Seq<usize> {
        targets(routed(self.mac_table@, frame, in_port), in_port, self.ports@.len())
    }

    /// Whether a port exists, and has slots.
    pub open spec fn usable(self, port: usize) -> bool {
        port < self.ports@.len() && self.ports@[port as int].sender.producer.capacity() > 0
    }

    /// Whether a frame can be handed to every port that it goes to.
    pub open spec fn forwardable(self, frame: Seq<u8>, in_port: usize) -> bool {
        let ports = self.targets(frame, in_port);
        forall|i: int| 0 <= i < ports.len() ==> self.usable(#[trigger] ports[i])
    }

    /// Create a switch without ports that knows no address.
    pub fn new() -> (switch: Switch)
        ensures
            switch.mac_table@ == Map::<u64, usize>::empty(),
            switch.ports@ == Seq::<SwitchPort>::empty(),
    {
        Switch { mac_table: HashMap::new(), ports: Vec::new() }
    }

    /// Say which port an address is at.
    pub fn add_mac_list(&mut self, mac_addr: EthernetAddress, port_no: usize)
        ensures
            final(self).mac_table@ == old(self).mac_table@.insert(
                address_key(mac_addr.0@),
                port_no,
            ),
            final(self).ports@ == old(self).ports@,
    {
        self.mac_table.insert(mac_addr.key(), port_no);
    }

    /// Add a port and return its number.
    pub fn add_port(&mut self, mac_addr: EthernetAddress, sender: PortSender) -> (port_no: usize)
        ensures
            port_no == old(self).ports@.len(),
            final(self).ports@ == old(self).ports@.push(SwitchPort { mac_addr, sender }),
            final(self).mac_table@ == old(self).mac_table@,
    {
        let port_no: usize = self.ports.len();
        self.ports.push(SwitchPort { mac_addr, sender });
        port_no
    }

    /// Decide where a frame goes.
    fn decide(&self, frame: &[u8], in_port: usize) -> (route: Route)
        ensures
            route == routed(self.mac_table@, frame@, in_port),
    {
        match EthernetHeader::parse(frame) {
            Some(header) => {
                let dst: u64 = header.dst_addr.key();
                if dst == BROADCAST_KEY {
                    return Route::Flood;
                }
                // The sender is at the port that the frame came in at.
                if dst == header.src_addr.key() {
                    return Route::Nowhere;
                }
                match self.mac_table.get(&dst) {
                    Some(out_port) => if *out_port != in_port {
                        Route::Port(*out_port)
                    } else {
                        Route::Nowhere
                    },
                    None => Route::Flood,
                }
            },
            None => Route::Nowhere,
        }
    }

    /// Learn from a frame where its sender is, and decide where the frame goes.
    pub fn route(&mut self, frame: &[u8], in_port: usize) -> (route: Route)
        ensures
            final(self).mac_table@ == learned(old(self).mac_table@, frame@, in_port),
            final(self).ports@ == old(self).ports@,
            route == routed(old(self).mac_table@, frame@, in_port),
    {
        let route = self.decide(frame, in_port);
        if let Some(header) = EthernetHeader::parse(frame) {
            self.mac_table.insert(header.src_addr.key(), in_port);
        }
        route
    }

    /// Hand a frame to a port.
    fn hand_over(&self, frame: &Vec<u8>, port: usize) -> (delivery: Delivery)
        requires
            self.usable(port),
        ensures
            delivery.port == port,
            handed_over(self.ports@[port as int].sender, frame@, delivery.result),
    {
        let data = frame.clone();
        assert(data@ =~= frame@);
        let result = self.ports[port].sender.send(data);
        Delivery { port, result }
    }

    /// Hand a frame to the ports that it goes to.
    fn deliver(&self, frame: &Vec<u8>, in_port: usize, route: Route) -> (deliveries: Vec<Delivery>)
        requires
            forall|i: int|
                0 <= i < targets(route, in_port, self.ports@.len()).len() ==> self.usable(
                    #[trigger] targets(route, in_port, self.ports@.len())[i],
                ),
        ensures
            delivered(
                deliveries@,
                self.ports@,
                frame@,
                targets(route, in_port, self.ports@.len()),
            ),
    {
        let mut deliveries: Vec<Delivery> = Vec::new();
        let ghost ports = targets(route, in_port, self.ports@.len());
        match route {
            Route::Nowhere => (),
            Route::Port(port) => {
                assert(ports[0] == port);
                deliveries.push(self.hand_over(frame, port));
            },
            Route::Flood => {
                let mut port: usize = 0;
                while port < self.ports.len()
                    invariant
                        port <= self.ports@.len(),
                        ports == targets(Route::Flood, in_port, self.ports@.len()),
                        forall|i: int| 0 <= i < ports.len() ==> self.usable(#[trigger] ports[i]),
                        deliveries@.len() == if in_port < port {
                            port - 1
                        } else {
                            port as int
                        },
                        delivered(
                            deliveries@,
                            self.ports@,
                            frame@,
                            ports.take(deliveries@.len() as int),
                        ),
                    decreases self.ports@.len() - port,
                {
                    if port != in_port {
                        let ghost count = deliveries@.len() as int;
                        assert(ports[count] == port);
                        deliveries.push(self.hand_over(frame, port));
                        assert(ports.take(count + 1) =~= ports.take(count).push(port));
                    }
                    port += 1;
                }
                assert(ports.take(deliveries@.len() as int) =~= ports);
            },
        }
        deliveries
    }

    /// Learn from a frame where its sender is, and hand it to the ports that it goes to. A frame
    /// that is too short for a header changes nothing and goes nowhere. What the ports said to the
    /// frame is returned. The contract says of one exchange with each of these ports what it did;
    /// that there was no other is not said.
    pub fn process_frame(&mut self, frame: Vec<u8>, in_port: usize) -> (deliveries: Vec<Delivery>)
        requires
            old(self).forwardable(frame@, in_port),
        ensures
            final(self).mac_table@ == learned(old(self).mac_table@, frame@, in_port),
            final(self).ports@ == old(self).ports@,
            delivered(
                deliveries@,
                old(self).ports@,
                frame@,
                old(self).targets(frame@, in_port),
            ),
    {
        let route = self.route(frame.as_slice(), in_port);
        self.deliver(&frame, in_port, route)
    }

    /// Whether a frame can be handed to every port that it goes to.
    pub fn can_process_frame(&self, frame: &[u8], in_port: usize) -> (result: bool)
        ensures
            result == self.forwardable(frame@, in_port),
    {
        let route = self.decide(frame, in_port);
        let ghost ports = self.targets(frame@, in_port);
        match route {
            Route::Nowhere => true,
            Route::Port(port) => {
                let usable = self.is_usable(port);
                assert(ports[0] == port);
                usable
            },
            Route::Flood => {
                let mut port: usize = 0;
                while port < self.ports.len()
                    invariant
                        port <= self.ports@.len(),
                        ports == targets(Route::Flood, in_port, self.ports@.len()),
                        ports == self.targets(frame@, in_port),
                        forall|i: int|
                            0 <= i < ports.len() && ports[i] < port ==> self.usable(
                                #[trigger] ports[i],
                            ),
                    decreases self.ports@.len() - port,
                {
                    if port != in_port && !self.is_usable(port) {
                        let ghost i = if in_port < port {
                            port - 1
                        } else {
                            port as int
                        };
                        assert(ports[i] == port);
                        return false;
                    }
                    port += 1;
                }
                true
            },
        }
    }

    fn is_usable(&self, port: usize) -> (result: bool)
        ensures
            result == self.usable(port),
    {
        port < self.ports.len() && self.ports[port].sender.producer.slots() > 0
    }
}

/// Each of the given ports was sent a frame, in order, and this is what came of it.
pub open spec fn delivered(
    deliveries: Seq<Delivery>,
    ports: Seq<SwitchPort>,
    frame: Seq<u8>,
    targets: Seq<usize>,
) -> bool {
    &&& deliveries.len() == targets.len()
    &&& forall|i: int|
        0 <= i < targets.len() ==> {
            &&& (#[trigger] deliveries[i]).port == targets[i]
            &&& handed_over(ports[targets[i] as int].sender, frame, deliveries[i].result)
        }
}

/// A port was sent a frame, and this is what came of it.
pub open spec fn handed_over(
    sender: PortSender,
    frame: Seq<u8>,
    result: Result<(), Vec<u8>>,
) -> bool {
    exists|data: Vec<u8>|
        data@ == frame && #[trigger] push_seen(*sender.producer.buffer, data, result)
}

/// A frame never goes back to the port that it came in at.
pub proof fn law_never_back(
    table: Map<u64, usize>,
    frame: Seq<u8>,
    in_port: usize,
    ports: nat,
)
    requires
        ports <= usize::MAX,
    ensures
        !targets(routed(table, frame, in_port), in_port, ports).contains(in_port),
{
    let reached = targets(routed(table, frame, in_port), in_port, ports);
    if reached.contains(in_port) {
        let i = choose|i: int| 0 <= i < reached.len() && reached[i] == in_port;
        assert(reached[i] != in_port);
    }
}

/// A frame that is flooded goes once to every port but the one that it came in at.
pub proof fn law_flood_reaches(in_port: usize, ports: nat)
    requires
        ports <= usize::MAX,
    ensures
        targets(Route::Flood, in_port, ports).no_duplicates(),
        forall|port: usize| #[trigger]
            targets(Route::Flood, in_port, ports).contains(port) <==> port < ports && port
                != in_port,
{
    let reached = targets(Route::Flood, in_port, ports);
    assert forall|port: usize| port < ports && port != in_port implies reached.contains(port) by {
        let i = if in_port < port {
            port - 1
        } else {
            port as int
        };
        assert(reached[i] == port);
    }
}

/// A host that has sent a frame is found again: a frame that someone else sends to it later, from
/// another port, goes to its port and to no other.
pub proof fn law_learned_host(
    table: Map<u64, usize>,
    first: Seq<u8>,
    port: usize,
    later: Seq<u8>,
    other_port: usize,
)
    requires
        first.len() >= HEADER_LEN,
        later.len() >= HEADER_LEN,
        frame_dst(later) == frame_src(first),
        frame_src(later) != frame_src(first),
        address_key(frame_src(first)) != BROADCAST_KEY,
        port != other_port,
    ensures
        routed(learned(table, first, port), later, other_port) == Route::Port(port),
{
    if address_key(frame_src(later)) == address_key(frame_src(first)) {
        law_address_key(frame_src(later), frame_src(first));
    }
}

/// A frame to an address that no one has sent from, and that no one was said to be at, is flooded,
/// and so is one to the broadcast address.
pub proof fn law_unknown_host(table: Map<u64, usize>, frame: Seq<u8>, in_port: usize)
    requires
        frame.len() >= HEADER_LEN,
        address_key(frame_dst(frame)) == BROADCAST_KEY || {
            &&& !table.contains_key(address_key(frame_dst(frame)))
            &&& frame_dst(frame) != frame_src(frame)
        },
    ensures
        routed(table, frame, in_port) == Route::Flood,
{
    if address_key(frame_dst(frame)) == address_key(frame_src(frame)) {
        law_address_key(frame_dst(frame), frame_src(frame));
    }
}

/// A frame teaches a switch where its sender is, and nothing else: every other address is known as
/// before, at the same port, or as little as before. A frame without a header teaches nothing.
pub proof fn law_learning(table: Map<u64, usize>, frame: Seq<u8>, in_port: usize, key: u64)
    ensures
        ({
            let after = learned(table, frame, in_port);
            if frame.len() >= 14 && key == address_key(frame.subrange(6, 12)) {
                after.contains_key(key) && after[key] == in_port
            } else {
                &&& after.contains_key(key) <==> table.contains_key(key)
                &&& table.contains_key(key) ==> after[key] == table[key]
            }
        }),
{
}

/// What a switch knows after frames have come in one after the other, each at a port.
pub open spec fn learned_all(table: Map<u64, usize>, frames: Seq<(Seq<u8>, usize)>) -> Map<
    u64,
    usize,
>
    decreases frames.len(),
{
    if frames.len() == 0 {
        table
    } else {
        let (frame, in_port) = frames.last();
        learned(learned_all(table, frames.drop_last()), frame, in_port)
    }
}

/// A host stays known: after a host has sent a frame, and any number of frames have come in that it
/// did not send, a frame that someone else sends to it from another port goes to its port and to no
/// other.
pub proof fn law_host_stays_known(
    table: Map<u64, usize>,
    first: Seq<u8>,
    port: usize,
    frames: Seq<(Seq<u8>, usize)>,
    later: Seq<u8>,
    other_port: usize,
    ports: nat,
)
    requires
        first.len() >= 14,
        later.len() >= 14,
        later.subrange(0, 6) == first.subrange(6, 12),
        later.subrange(6, 12) != first.subrange(6, 12),
        exists|i: int| 0 <= i < 6 && #[trigger] later[i] != 255,
        forall|i: int|
            0 <= i < frames.len() && (#[trigger] frames[i]).0.len() >= 14
                ==> frames[i].0.subrange(6, 12) != first.subrange(6, 12),
        port != other_port,
    ensures
        targets(
            routed(learned_all(learned(table, first, port), frames), later, other_port),
            other_port,
            ports,
        ) == seq![port],
{
    let key = address_key(first.subrange(6, 12));
    let before = learned(table, first, port);
    let known = learned_all(before, frames);
    lemma_learned_all(before, frames, first.subrange(6, 12));
    if address_key(later.subrange(6, 12)) == key {
        law_address_key(later.subrange(6, 12), first.subrange(6, 12));
    }
    if key == BROADCAST_KEY {
        law_address_number(later.subrange(0, 6));
        let i = choose|i: int| 0 <= i < 6 && #[trigger] later[i] != 255;
        assert(later.subrange(0, 6)[i] == 255);
    }
}

/// Frames from others change nothing of what is known of an address.
proof fn lemma_learned_all(
    table: Map<u64, usize>,
    frames: Seq<(Seq<u8>, usize)>,
    address: Seq<u8>,
)
    requires
        address.len() == 6,
        forall|i: int|
            0 <= i < frames.len() && (#[trigger] frames[i]).0.len() >= 14
                ==> frames[i].0.subrange(6, 12) != address,
    ensures
        learned_all(table, frames).contains_key(address_key(address)) <==> table.contains_key(
            address_key(address),
        ),
        table.contains_key(address_key(address)) ==> learned_all(table, frames)[address_key(
            address,
        )] == table[address_key(address)],
    decreases frames.len(),
{
    if frames.len() > 0 {
        let (frame, in_port) = frames.last();
        assert(frames[frames.len() - 1] == frames.last());
        assert forall|i: int|
            0 <= i < frames.drop_last().len() && (
            #[trigger] frames.drop_last()[i]).0.len() >= 14 implies frames.drop_last()[i].0.subrange(
            6,
            12,
        ) != address by {
            assert(frames.drop_last()[i] == frames[i]);
        }
        lemma_learned_all(table, frames.drop_last(), address);
        law_learning(
            learned_all(table, frames.drop_last()),
            frame,
            in_port,
            address_key(address),
        );
        if frame.len() >= 14 && address_key(frame.subrange(6, 12)) == address_key(address) {
            law_address_key(frame.subrange(6, 12), address);
        }
    }
}

/// Where a frame goes: one without a header goes nowhere. One to the broadcast address, or to an
/// address that is neither known nor that of its sender, goes to every port but the one that it came
/// in at, in order. One to an address that is known to be at another port goes there alone. One to
/// an address that is at the port that it came in at, such as that of its sender, goes nowhere.
pub proof fn law_forwarding(
    table: Map<u64, usize>,
    frame: Seq<u8>,
    in_port: usize,
    ports: nat,
)
    requires
        ports <= usize::MAX,
    ensures
        ({
            let reached = targets(routed(table, frame, in_port), in_port, ports);
            let dst = frame.subrange(0, 6);
            let key = address_key(dst);
            let broadcast = forall|i: int| 0 <= i < 6 ==> #[trigger] frame[i] == 255;
            let own = dst == frame.subrange(6, 12);
            let flooded = frame.len() >= 14 && (broadcast || !own && !table.contains_key(key));
            let forwarded = frame.len() >= 14 && !broadcast && !own && table.contains_key(key)
                && table[key] != in_port;
            &&& flooded ==> {
                &&& forall|port: usize| #[trigger]
                    reached.contains(port) <==> port < ports && port != in_port
                &&& forall|i: int, j: int| 0 <= i < j < reached.len() ==> reached[i] < reached[j]
            }
            &&& forwarded ==> reached == seq![table[key]]
            &&& !flooded && !forwarded ==> reached.len() == 0
        }),
{
    let route = routed(table, frame, in_port);
    let reached = targets(route, in_port, ports);
    let dst = frame.subrange(0, 6);
    if frame.len() >= 14 {
        law_address_number(dst);
        assert(forall|i: int| 0 <= i < 6 ==> dst[i] == #[trigger] frame[i]);
        if address_key(dst) == address_key(frame.subrange(6, 12)) {
            law_address_key(dst, frame.subrange(6, 12));
        }
    }
    if route == Route::Flood {
        law_flood_reaches(in_port, ports);
    }
}

/// Each port that a frame goes to either takes it or hands it back as it was, and these are the only
/// ports that are asked. What a port says follows from what is queued at that very port.
pub proof fn law_deliveries(
    deliveries: Seq<Delivery>,
    ports: Seq<SwitchPort>,
    frame: Seq<u8>,
    targets: Seq<usize>,
)
    requires
        delivered(deliveries, ports, frame, targets),
    ensures
        deliveries.len() == targets.len(),
        forall|i: int|
            0 <= i < targets.len() ==> {
                let delivery = #[trigger] deliveries[i];
                &&& delivery.port == targets[i]
                &&& delivery.result matches Err(back) ==> back@ == frame
                &&& exists|data: Vec<u8>|
                    data@ == frame && #[trigger] push_seen(
                        *ports[targets[i] as int].sender.producer.buffer,
                        data,
                        delivery.result,
                    )
            },
{
    assert forall|i: int| 0 <= i < targets.len() implies ({
        let delivery = #[trigger] deliveries[i];
        &&& delivery.port == targets[i]
        &&& delivery.result matches Err(back) ==> back@ == frame
        &&& exists|data: Vec<u8>|
            data@ == frame && #[trigger] push_seen(
                *ports[targets[i] as int].sender.producer.buffer,
                data,
                delivery.result,
            )
    }) by {
        let shared = *ports[targets[i] as int].sender.producer.buffer;
        let result = deliveries[i].result;
        assert(handed_over(ports[targets[i] as int].sender, frame, result));
        let data = choose|data: Vec<u8>| data@ == frame && #[trigger] push_seen(shared, data, result);
        law_push_hands_back(shared, data, result);
    }
}

/// A switch can take a frame in if every port that the frame goes to exists and has slots.
pub proof fn law_forwardable(switch: Switch, frame: Seq<u8>, in_port: usize)
    ensures
        switch.forwardable(frame, in_port) <==> forall|i: int|
            0 <= i < switch.targets(frame, in_port).len() ==> {
                let port = #[trigger] switch.targets(frame, in_port)[i];
                &&& port < switch.ports@.len()
                &&& switch.ports@[port as int].sender.producer.buffer.pred().start.capacity > 0
            },
        switch.targets(frame, in_port) == targets(
            routed(switch.mac_table@, frame, in_port),
            in_port,
            switch.ports@.len(),
        ),
{
}

} // verus!
