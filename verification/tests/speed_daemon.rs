use protohackers::speed_daemon::client::{ClientError, ClientMessage, Connection, Effect, Identity, Outcome};
use protohackers::speed_daemon::engine::{Assessment, Delivery, PlateReading, Ticket, TicketOffice};
use protohackers::speed_daemon::wire::{
    encode_error, encode_heartbeat, encode_ticket, push_u16_be, push_u32_be, read_u16_be, read_u32_be,
};

/// Feeds `bytes` to a connection, expecting whole messages, and collects the effects.
fn feed(conn: &mut Connection, bytes: &[u8]) -> Vec<Effect> {
    let mut effects = Vec::new();
    let mut rest = bytes;
    while !rest.is_empty() {
        match conn.receive(rest) {
            Outcome::Accepted { length, effect, .. } => {
                effects.push(effect);
                rest = &rest[length..];
            }
            other => panic!("unexpected outcome {:?}", other),
        }
    }
    effects
}

fn report(effect: Effect) -> PlateReading {
    match effect {
        Effect::Report(r) => r,
        other => panic!("expected a report, got {:?}", other),
    }
}

#[test]
fn test_ticket() {
    let mut office = TicketOffice::new();

    let mut camera_1 = Connection::new();
    let mut e1 = feed(&mut camera_1, &[0x80, 0x00, 0x7b, 0x00, 0x08, 0x00, 0x3c]);
    assert_eq!(e1.pop(), Some(Effect::Nothing));
    let mut r1 = feed(&mut camera_1, &[0x20, 0x04, 0x55, 0x4e, 0x31, 0x58, 0x00, 0x00, 0x00, 0x00]);
    let reading_1 = report(r1.pop().unwrap());

    let mut camera_2 = Connection::new();
    feed(&mut camera_2, &[0x80, 0x00, 0x7b, 0x00, 0x09, 0x00, 0x3c]);
    let mut r2 = feed(&mut camera_2, &[0x20, 0x04, 0x55, 0x4e, 0x31, 0x58, 0x00, 0x00, 0x00, 0x2d]);
    let reading_2 = report(r2.pop().unwrap());

    let mut dispatcher = Connection::new();
    let mut d = feed(&mut dispatcher, &[0x81, 0x01, 0x00, 0x7b]);
    let roads = match d.pop().unwrap() {
        Effect::RegisterDispatcher { roads } => roads,
        other => panic!("expected a registration, got {:?}", other),
    };
    assert_eq!(roads, vec![123]);
    office.register_dispatcher(7, &roads);

    assert_eq!(office.observe(reading_1), None);
    let ticket = office.observe(reading_2).expect("a ticket");
    assert_eq!(office.first_dispatcher(ticket.road), Some(7));
    assert_eq!(
        encode_ticket(&ticket),
        vec![
            0x21, 0x04, 0x55, 0x4e, 0x31, 0x58, 0x00, 0x7b, 0x00, 0x08, 0x00, 0x00, 0x00, 0x00,
            0x00, 0x09, 0x00, 0x00, 0x00, 0x2d, 0x1f, 0x40
        ]
    );
}

#[test]
fn test_heartbeat() {
    let mut client = Connection::new();
    let effects = feed(&mut client, &[0x40, 0x00, 0x00, 0x00, 0x0a]);
    assert_eq!(effects, vec![Effect::StartHeartbeat { period_millis: 1000 }]);
    assert_eq!(encode_heartbeat(), vec![0x41]);
    assert!(client.heartbeat_requested);
    assert_eq!(client.receive(&[0x40]), Outcome::Reject(ClientError::HeartbeatAlreadyRequested));
}

#[test]
fn zero_interval_means_no_heartbeat() {
    let mut client = Connection::new();
    let effects = feed(&mut client, &[0x40, 0x00, 0x00, 0x00, 0x00]);
    assert_eq!(effects, vec![Effect::Nothing]);
    assert!(client.heartbeat_requested);
}

#[test]
fn incomplete_messages_wait() {
    let mut client = Connection::new();
    assert_eq!(client.receive(&[]), Outcome::Incomplete);
    assert_eq!(client.receive(&[0x80, 0x00, 0x7b]), Outcome::Incomplete);
    assert_eq!(client.identity, Identity::Unset);
    assert_eq!(client.receive(&[0x81, 0x02, 0x00, 0x01]), Outcome::Incomplete);
    match client.receive(&[0x81, 0x02, 0x00, 0x01, 0x01, 0x00, 0xff]) {
        Outcome::Accepted { length, message, effect } => {
            assert_eq!(length, 6);
            assert_eq!(message, ClientMessage::IAmDispatcher { roads: vec![1, 256] });
            assert_eq!(effect, Effect::RegisterDispatcher { roads: vec![1, 256] });
        }
        other => panic!("unexpected {:?}", other),
    }
    assert_eq!(client.identity, Identity::Dispatcher);
}

#[test]
fn protocol_errors() {
    let mut client = Connection::new();
    assert_eq!(client.receive(&[0x20, 0x01]), Outcome::Reject(ClientError::NotACamera));
    assert_eq!(client.receive(&[0x99]), Outcome::Reject(ClientError::InvalidMessageType));
    assert_eq!(client.receive(&[0x10]), Outcome::Reject(ClientError::InvalidMessageType));
    feed(&mut client, &[0x80, 0x00, 0x01, 0x00, 0x02, 0x00, 0x03]);
    assert_eq!(client.identity, Identity::Camera { road: 1, mile: 2, limit: 3 });
    assert_eq!(client.receive(&[0x80]), Outcome::Reject(ClientError::IdAlreadySet));
    assert_eq!(client.receive(&[0x81]), Outcome::Reject(ClientError::IdAlreadySet));
    let mut dispatcher = Connection::new();
    let effects = feed(&mut dispatcher, &[0x81, 0x00]);
    assert_eq!(effects, vec![Effect::Nothing]);
    assert_eq!(dispatcher.receive(&[0x20]), Outcome::Reject(ClientError::NotACamera));
    assert_eq!(ClientError::NotACamera.text(), "not a camera");
    assert_eq!(
        encode_error(ClientError::IdAlreadySet.text().as_bytes()),
        [&[0x10u8, 17][..], b"id is already set"].concat()
    );
}

fn reading(plate: &str, timestamp: u32, road: u16, mile: u16, limit: u16) -> PlateReading {
    PlateReading { plate: plate.as_bytes().to_vec(), timestamp, road, mile, limit }
}

#[test]
fn one_ticket_per_day() {
    let mut office = TicketOffice::new();
    assert_eq!(office.observe(reading("CAR", 0, 1, 0, 60)), None);
    let first = office.observe(reading("CAR", 60, 1, 10, 60)).expect("ticket");
    assert_eq!(first.speed, 60000);
    assert_eq!((first.mile1, first.timestamp1, first.mile2, first.timestamp2), (0, 0, 10, 60));
    assert_eq!(office.assess(&reading("CAR", 120, 1, 20, 60)), Assessment::Skip);
    assert_eq!(office.observe(reading("CAR", 120, 1, 20, 60)), None);
    assert_eq!(office.observe(reading("OTHER", 0, 1, 0, 60)), None);
    assert!(office.observe(reading("OTHER", 60, 1, 10, 60)).is_some());
}

#[test]
fn later_neighbour_is_checked() {
    let mut office = TicketOffice::new();
    assert_eq!(office.observe(reading("X", 1000, 5, 100, 50)), None);
    let t = office.observe(reading("X", 940, 5, 99, 50)).expect("ticket");
    assert_eq!((t.mile1, t.timestamp1, t.mile2, t.timestamp2, t.speed), (99, 940, 100, 1000, 6000));
}

#[test]
fn slow_cars_and_faults() {
    let mut office = TicketOffice::new();
    assert_eq!(office.observe(reading("S", 0, 1, 0, 60)), None);
    assert_eq!(office.observe(reading("S", 3600, 1, 60, 60)), None);
    assert_eq!(office.assess(&reading("S", 3600, 1, 60, 60)), Assessment::Fault);
    assert_eq!(
        office.assess(&reading("S", 3600, 1, 61, 60)),
        Assessment::Violation { mile1: 0, timestamp1: 0, mile2: 61, timestamp2: 3600, speed: 6100 }
    );
    assert_eq!(office.assess(&reading("S", 7200, 1, 12000, 60)), Assessment::Fault);
    assert_eq!(office.assess(&reading("S", 7200, 1, 120, 700)), Assessment::Fault);
}

#[test]
fn pending_tickets_and_dispatchers() {
    let mut office = TicketOffice::new();
    let t = |road: u16, plate: &str| Ticket {
        plate: plate.as_bytes().to_vec(),
        road,
        mile1: 0,
        timestamp1: 0,
        mile2: 1,
        timestamp2: 1,
        speed: 100,
    };
    office.enqueue(t(1, "A"));
    office.enqueue(t(2, "B"));
    office.enqueue(t(1, "C"));
    assert_eq!(office.claim_pending(&[3]), None);
    assert_eq!(office.claim_pending(&[1, 3]), Some(t(1, "A")));
    assert_eq!(office.claim_pending(&[1]), Some(t(1, "C")));
    assert_eq!(office.claim_pending(&[1]), None);
    assert_eq!(office.claim_pending(&[2]), Some(t(2, "B")));

    office.register_dispatcher(10, &[1, 2]);
    office.register_dispatcher(11, &[1]);
    assert_eq!(office.first_dispatcher(1), Some(10));
    assert_eq!(office.first_dispatcher(2), Some(10));
    office.drop_first_dispatcher(1);
    assert_eq!(office.first_dispatcher(1), Some(11));
    assert_eq!(office.first_dispatcher(2), Some(10));
    office.drop_first_dispatcher(1);
    assert_eq!(office.first_dispatcher(1), None);
    assert_eq!(office.first_dispatcher(3), None);
}

#[test]
fn integers_read_back() {
    for v in [0u16, 1, 255, 256, 0x1234, u16::MAX] {
        let mut out = Vec::new();
        push_u16_be(&mut out, v);
        assert_eq!(out, v.to_be_bytes().to_vec());
        assert_eq!(read_u16_be(&out, 0), v);
    }
    for v in [0u32, 1, 0x00ff_ff00, 0x1234_5678, u32::MAX] {
        let mut out = vec![9u8];
        push_u32_be(&mut out, v);
        assert_eq!(&out[1..], &v.to_be_bytes());
        assert_eq!(read_u32_be(&out, 1), v);
    }
}

#[test]
fn trailing_bytes_do_not_change_a_message() {
    let camera = [0x80, 0x00, 0x01, 0x00, 0x02, 0x00, 0x03];
    let mut longer = camera.to_vec();
    longer.extend_from_slice(&[0x20, 0x99, 0x10]);
    let mut a = Connection::new();
    let mut b = Connection::new();
    assert_eq!(a.receive(&camera), b.receive(&longer));
    let plate = [0x20, 0x02, b'A', b'B', 0x00, 0x00, 0x01, 0x00];
    let mut plate_longer = plate.to_vec();
    plate_longer.push(0x40);
    assert_eq!(a.receive(&plate), b.receive(&plate_longer));
    assert_eq!(a.receive(&[0x81, 0xff]), b.receive(&[0x81, 0xff, 0x00]));
}

#[test]
fn ticket_spanning_days_blocks_those_days() {
    let mut office = TicketOffice::new();
    let day = 86400u32;
    assert_eq!(office.observe(reading("CAR", day - 100, 7, 0, 10)), None);
    let t = office.observe(reading("CAR", day + 100, 7, 100, 10)).expect("ticket");
    assert_eq!((t.timestamp1, t.timestamp2), (day - 100, day + 100));
    assert_eq!(t.speed, 180000u32 as u16);
    assert_eq!(office.assess(&reading("CAR", day - 50, 7, 500, 10)), Assessment::Skip);
    assert_eq!(office.assess(&reading("CAR", day + 50, 7, 500, 10)), Assessment::Skip);
    assert_eq!(office.observe(reading("CAR", 3 * day, 7, 0, 10)), None);
    assert!(office.observe(reading("CAR", 3 * day + 60, 7, 10, 10)).is_some());
}

fn sample_ticket(road: u16, plate: &str) -> Ticket {
    Ticket { plate: plate.as_bytes().to_vec(), road, mile1: 0, timestamp1: 0, mile2: 1, timestamp2: 1, speed: 100 }
}

#[test]
fn delivery_steps() {
    let mut office = TicketOffice::new();
    assert_eq!(office.deliver(sample_ticket(5, "A"), false), Delivery::Queued);
    office.register_dispatcher(1, &[5]);
    office.register_dispatcher(2, &[6, 5]);
    assert_eq!(
        office.deliver(sample_ticket(5, "B"), false),
        Delivery::Send { dispatcher: 1, ticket: sample_ticket(5, "B") }
    );
    // The send to dispatcher 1 failed: it is dropped and dispatcher 2 is next.
    assert_eq!(
        office.deliver(sample_ticket(5, "B"), true),
        Delivery::Send { dispatcher: 2, ticket: sample_ticket(5, "B") }
    );
    assert_eq!(office.first_dispatcher(6), Some(2));
    // Dispatcher 2 failed too: no one is left for road 5, the ticket waits.
    assert_eq!(office.deliver(sample_ticket(5, "B"), true), Delivery::Queued);
    assert_eq!(office.first_dispatcher(5), None);
    assert_eq!(office.first_dispatcher(6), Some(2));
    assert_eq!(office.claim_pending(&[5]), Some(sample_ticket(5, "A")));
    assert_eq!(office.claim_pending(&[5]), Some(sample_ticket(5, "B")));
}

#[test]
fn hand_over_to_new_dispatcher() {
    let mut office = TicketOffice::new();
    office.enqueue(sample_ticket(1, "A"));
    office.enqueue(sample_ticket(2, "B"));
    office.enqueue(sample_ticket(1, "C"));
    assert_eq!(office.next_for_dispatcher(&[1], None), Some(sample_ticket(1, "A")));
    // Sending C fails: it goes back to the end and the hand-over stops.
    assert_eq!(office.next_for_dispatcher(&[1], None), Some(sample_ticket(1, "C")));
    assert_eq!(office.next_for_dispatcher(&[1], Some(sample_ticket(1, "C"))), None);
    assert_eq!(office.claim_pending(&[1, 2]), Some(sample_ticket(2, "B")));
    assert_eq!(office.next_for_dispatcher(&[1], None), Some(sample_ticket(1, "C")));
    assert_eq!(office.next_for_dispatcher(&[1], None), None);
}
