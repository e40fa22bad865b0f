use protohackers::speed_daemon::controller::{
    distance, speed_x100, too_fast, Controller, Observation, Plate, Ticket,
};

fn report(plate: &str, road: u16, mile: u16, limit: u16, timestamp: u32) -> Plate {
    Plate { plate: plate.as_bytes().to_vec(), road, mile, limit, timestamp }
}

fn ticket(plate: &str, road: u16, mile1: u16, timestamp1: u32, mile2: u16, timestamp2: u32, speed: u16) -> Ticket {
    Ticket { plate: plate.as_bytes().to_vec(), road, mile1, timestamp1, mile2, timestamp2, speed }
}

fn days(t: &Ticket) -> (u32, u32) {
    (t.timestamp1 / 86400, t.timestamp2 / 86400)
}

#[test]
fn canonical_ticket() {
    let mut controller = Controller::new();
    assert!(controller.signal(report("UN1X", 123, 8, 60, 0)).is_empty());
    let tickets = controller.signal(report("UN1X", 123, 9, 60, 45));
    assert_eq!(tickets, vec![ticket("UN1X", 123, 8, 0, 9, 45, 8000)]);
}

#[test]
fn at_the_limit_no_ticket() {
    let mut controller = Controller::new();
    assert!(controller.signal(report("UN1X", 123, 8, 60, 0)).is_empty());
    assert!(controller.signal(report("UN1X", 123, 9, 60, 60)).is_empty());
}

#[test]
fn below_the_limit_no_ticket() {
    let mut controller = Controller::new();
    assert!(controller.signal(report("UN1X", 123, 8, 60, 0)).is_empty());
    assert!(controller.signal(report("UN1X", 123, 9, 60, 61)).is_empty());
}

#[test]
fn half_a_mile_per_hour_is_the_edge() {
    // 121 miles in 7200 s are 60.5 mph: the least that is too fast for 60.
    let a = Observation { timestamp: 0, mile: 0 };
    assert!(too_fast(a, Observation { timestamp: 7200, mile: 121 }, 60));
    assert!(!too_fast(a, Observation { timestamp: 7201, mile: 121 }, 60));
    assert!(too_fast(a, Observation { timestamp: 7199, mile: 121 }, 60));
    assert!(!too_fast(a, Observation { timestamp: 7200, mile: 120 }, 60));
    assert!(!too_fast(Observation { timestamp: 7200, mile: 121 }, a, 60));
    assert!(!too_fast(a, Observation { timestamp: 0, mile: 121 }, 60));
    let mut controller = Controller::default();
    controller.signal(report("EDGE", 1, 0, 60, 0));
    assert_eq!(
        controller.signal(report("EDGE", 1, 121, 60, 7200)),
        vec![ticket("EDGE", 1, 0, 0, 121, 7200, 6050)]
    );
}

#[test]
fn speed_is_rounded() {
    let a = Observation { timestamp: 0, mile: 10 };
    // 360000 / 7 = 51428.57..
    assert_eq!(speed_x100(a, Observation { timestamp: 7, mile: 11 }), 51429);
    // 360000 / 11 = 32727.27..
    assert_eq!(speed_x100(a, Observation { timestamp: 11, mile: 9 }), 32727);
    // 360000 / 64 = 5625 exactly, 360000 / 128 = 2812.5 goes up
    assert_eq!(speed_x100(a, Observation { timestamp: 64, mile: 11 }), 5625);
    assert_eq!(speed_x100(a, Observation { timestamp: 128, mile: 11 }), 2813);
    assert_eq!(speed_x100(a, Observation { timestamp: 45, mile: 11 }), 8000);
    assert_eq!(speed_x100(a, Observation { timestamp: 100, mile: 10 }), 0);
}

#[test]
fn speed_stops_at_the_largest() {
    let a = Observation { timestamp: 0, mile: 0 };
    assert_eq!(speed_x100(a, Observation { timestamp: 1, mile: 1 }), 65535);
    assert_eq!(speed_x100(a, Observation { timestamp: 1, mile: 65535 }), 65535);
    assert_eq!(speed_x100(a, Observation { timestamp: u32::MAX, mile: 65535 }), 5);
    let mut controller = Controller::new();
    controller.signal(report("JET", 9, 0, 700, 0));
    assert_eq!(
        controller.signal(report("JET", 9, 1, 700, 1)),
        vec![ticket("JET", 9, 0, 0, 1, 1, 65535)]
    );
}

#[test]
fn distance_is_symmetric() {
    assert_eq!(distance(8, 9), 1);
    assert_eq!(distance(9, 8), 1);
    assert_eq!(distance(0, 65535), 65535);
    assert_eq!(distance(7, 7), 0);
}

#[test]
fn miles_may_fall() {
    let mut controller = Controller::new();
    controller.signal(report("BACK", 5, 110, 60, 123456));
    assert_eq!(
        controller.signal(report("BACK", 5, 100, 60, 123816)),
        vec![ticket("BACK", 5, 110, 123456, 100, 123816, 10000)]
    );
}

#[test]
fn late_report_is_the_first_observation() {
    let mut controller = Controller::new();
    assert!(controller.signal(report("UN1X", 123, 9, 60, 45)).is_empty());
    let tickets = controller.signal(report("UN1X", 123, 8, 60, 0));
    assert_eq!(tickets, vec![ticket("UN1X", 123, 8, 0, 9, 45, 8000)]);
}

#[test]
fn late_report_between_two_others() {
    // 0 -> 200 miles in 20000 s is 36 mph; the late report at 10000 s and
    // mile 190 shows 68.4 mph in the first half.
    let mut controller = Controller::new();
    assert!(controller.signal(report("MID", 1, 0, 60, 100000)).is_empty());
    assert!(controller.signal(report("MID", 1, 200, 60, 120000)).is_empty());
    let tickets = controller.signal(report("MID", 1, 190, 60, 110000));
    assert_eq!(tickets, vec![ticket("MID", 1, 0, 100000, 190, 110000, 6840)]);
}

#[test]
fn not_only_neighbours() {
    // The middle report is slow against both others, the outer pair is fast.
    let mut controller = Controller::new();
    assert!(controller.signal(report("FAR", 2, 0, 60, 0)).is_empty());
    assert!(controller.signal(report("FAR", 2, 0, 60, 1800)).is_empty());
    // 100 miles in 3600 s from the first: 100 mph. From the second, 100
    // miles in 1800 s: 200 mph; the pair with the earlier first observation
    // is taken first and takes the day.
    let tickets = controller.signal(report("FAR", 2, 100, 60, 3600));
    assert_eq!(tickets, vec![ticket("FAR", 2, 0, 0, 100, 3600, 10000)]);
}

#[test]
fn one_ticket_per_day() {
    let mut controller = Controller::new();
    controller.signal(report("DAY", 3, 0, 60, 0));
    assert_eq!(controller.signal(report("DAY", 3, 10, 60, 360)).len(), 1);
    // the same day, another fast pair
    assert!(controller.signal(report("DAY", 3, 30, 60, 720)).is_empty());
    // the next day
    controller.signal(report("DAY", 3, 0, 60, 86400));
    let next = controller.signal(report("DAY", 3, 10, 60, 86400 + 360));
    assert_eq!(next, vec![ticket("DAY", 3, 0, 86400, 10, 86760, 10000)]);
}

#[test]
fn one_ticket_per_day_on_all_roads() {
    let mut controller = Controller::new();
    controller.signal(report("ROADS", 1, 0, 60, 0));
    assert_eq!(controller.signal(report("ROADS", 1, 10, 60, 360)).len(), 1);
    controller.signal(report("ROADS", 2, 0, 60, 1000));
    assert!(controller.signal(report("ROADS", 2, 10, 60, 1360)).is_empty());
    // another car on the second road is not held back
    controller.signal(report("OTHER", 2, 0, 60, 1000));
    assert_eq!(controller.signal(report("OTHER", 2, 10, 60, 1360)).len(), 1);
}

#[test]
fn span_of_days_is_taken() {
    // 200 miles in 100000 s are 7.2 mph, the limit is 5: days 0, 1 and 2.
    let mut controller = Controller::new();
    controller.signal(report("SPAN", 4, 0, 5, 80000));
    let tickets = controller.signal(report("SPAN", 4, 200, 5, 180000));
    assert_eq!(tickets, vec![ticket("SPAN", 4, 0, 80000, 200, 180000, 720)]);
    assert_eq!(days(&tickets[0]), (0, 2));
    // day 1, on another road, fast on its own
    controller.signal(report("SPAN", 5, 0, 5, 90000));
    assert!(controller.signal(report("SPAN", 5, 100, 5, 93600)).is_empty());
    // day 3 is free
    controller.signal(report("SPAN", 5, 0, 5, 3 * 86400));
    assert_eq!(controller.signal(report("SPAN", 5, 100, 5, 3 * 86400 + 3600)).len(), 1);
}

#[test]
fn a_taken_day_blocks_a_span() {
    let mut controller = Controller::new();
    controller.signal(report("BLOCK", 1, 0, 60, 86400 + 10));
    assert_eq!(controller.signal(report("BLOCK", 1, 10, 60, 86400 + 370)).len(), 1);
    // a pair from day 0 to day 2 would cover day 1
    controller.signal(report("BLOCK", 2, 0, 5, 80000));
    assert!(controller.signal(report("BLOCK", 2, 2000, 5, 180000)).is_empty());
}

#[test]
fn pairs_of_one_report_share_its_day() {
    // Observations on days 0 and 2 that are not fast against each other,
    // then one at the first second of day 1, fast against both: the pair
    // with the earlier observation spans days 0 and 1, the other days 1 and
    // 2, and only the first is made.
    let mut controller = Controller::new();
    assert!(controller.signal(report("BOTH", 1, 1000, 50, 86399)).is_empty());
    assert!(controller.signal(report("BOTH", 1, 1000, 50, 2 * 86400)).is_empty());
    let tickets = controller.signal(report("BOTH", 1, 0, 50, 86400));
    assert_eq!(tickets, vec![ticket("BOTH", 1, 1000, 86399, 0, 86400, 65535)]);
    // day 2 is still free
    assert_eq!(
        controller.signal(report("BOTH", 1, 0, 50, 2 * 86400 + 10)),
        vec![ticket("BOTH", 1, 1000, 172800, 0, 172810, 65535)]
    );
}

#[test]
fn greedy_in_the_order_of_the_earlier_observation() {
    // Three earlier observations on days 0, 1, 2 and a new one on day 3 that
    // is fast against each: the pairs span days 0-3, 1-3, 2-3; the first
    // takes all days.
    let mut controller = Controller::new();
    controller.signal(report("GREEDY", 1, 0, 1, 10));
    controller.signal(report("GREEDY", 1, 0, 1, 86400 + 10));
    controller.signal(report("GREEDY", 1, 0, 1, 2 * 86400 + 10));
    let tickets = controller.signal(report("GREEDY", 1, 60000, 1, 3 * 86400 + 10));
    assert_eq!(tickets.len(), 1);
    assert_eq!((tickets[0].timestamp1, tickets[0].timestamp2), (10, 3 * 86400 + 10));

    // A new first observation against later ones on days 0 and 1: both
    // pairs begin on day 0, the nearer one is weighed first.
    let mut controller = Controller::new();
    assert!(controller.signal(report("AFTER", 1, 100, 1, 3600)).is_empty());
    assert!(controller.signal(report("AFTER", 1, 100, 1, 86400 + 3600)).is_empty());
    let tickets = controller.signal(report("AFTER", 1, 0, 1, 0));
    assert_eq!(tickets, vec![ticket("AFTER", 1, 0, 0, 100, 3600, 10000)]);
}

#[test]
fn tickets_on_both_sides_of_a_late_report() {
    // The late report lies at the turn of day 1 to day 2; earlier
    // observation on day 0... spans would overlap. Put the earlier pair
    // within day 1 and the later pair within day 2 instead.
    let mut controller = Controller::new();
    controller.signal(report("SIDES", 1, 0, 10, 86400));
    controller.signal(report("SIDES", 1, 0, 10, 2 * 86400 + 7200));
    // a report at the last second of day 1: fast against the first (day 1
    // only); against the later one the span is days 1-2, which is taken.
    let tickets = controller.signal(report("SIDES", 1, 5000, 10, 2 * 86400 - 1));
    assert_eq!(tickets.len(), 1);
    assert_eq!(days(&tickets[0]), (1, 1));
    // a report on day 2 gives the second ticket
    let tickets = controller.signal(report("SIDES", 1, 500, 10, 2 * 86400 + 3600));
    assert_eq!(tickets, vec![ticket("SIDES", 1, 500, 176400, 0, 180000, 50000)]);
}

#[test]
fn same_report_twice_changes_nothing() {
    let mut controller = Controller::new();
    controller.signal(report("TWICE", 1, 0, 60, 0));
    assert!(controller.signal(report("TWICE", 1, 0, 60, 0)).is_empty());
    assert_eq!(controller.signal(report("TWICE", 1, 10, 60, 360)).len(), 1);
    assert!(controller.signal(report("TWICE", 1, 10, 60, 360)).is_empty());
}

#[test]
fn same_time_at_another_mile_keeps_the_first() {
    let mut controller = Controller::new();
    controller.signal(report("FIRST", 1, 0, 60, 0));
    // the same second, 100 miles on: not taken in
    assert!(controller.signal(report("FIRST", 1, 100, 60, 0)).is_empty());
    // measured against mile 0, 50 miles in an hour are not fast
    assert!(controller.signal(report("FIRST", 1, 50, 60, 3600)).is_empty());
}

#[test]
fn cars_and_roads_are_apart() {
    let mut controller = Controller::new();
    controller.signal(report("ONE", 1, 0, 60, 0));
    assert!(controller.signal(report("TWO", 1, 100, 60, 60)).is_empty());
    assert!(controller.signal(report("ONE", 2, 100, 60, 60)).is_empty());
    assert_eq!(
        controller.signal(report("ONE", 1, 100, 60, 3600)),
        vec![ticket("ONE", 1, 0, 0, 100, 3600, 10000)]
    );
}

#[test]
fn the_limit_of_the_report_counts() {
    let mut controller = Controller::new();
    controller.signal(report("LIMIT", 1, 0, 100, 0));
    // 80 mph: fast for the limit 60 that this report brings
    assert_eq!(controller.signal(report("LIMIT", 1, 1, 60, 45)).len(), 1);
    let mut controller = Controller::new();
    controller.signal(report("LIMIT", 1, 0, 60, 0));
    assert!(controller.signal(report("LIMIT", 1, 1, 100, 45)).is_empty());
}

#[test]
fn tickets_hold_what_the_laws_say() {
    // A fixed, mixed series of reports; of all tickets: the first
    // observation is the earlier, the speed is at least the limit and a
    // half, both observations were reported, and no two tickets of a car
    // share a day.
    let mut reports = Vec::new();
    let mut seed: u32 = 12345;
    for _ in 0..400 {
        seed = seed.wrapping_mul(1103515245).wrapping_add(12345);
        let plate = ["AAA", "BBB", "CCC"][(seed >> 16) as usize % 3];
        seed = seed.wrapping_mul(1103515245).wrapping_add(12345);
        let road = 1 + ((seed >> 16) % 2) as u16;
        seed = seed.wrapping_mul(1103515245).wrapping_add(12345);
        let mile = ((seed >> 16) % 3000) as u16;
        seed = seed.wrapping_mul(1103515245).wrapping_add(12345);
        let timestamp = (seed >> 8) % (20 * 86400);
        reports.push(report(plate, road, mile, 60, timestamp));
    }
    let mut controller = Controller::new();
    let mut all: Vec<Ticket> = Vec::new();
    for r in &reports {
        all.extend(controller.signal(r.clone()));
    }
    assert!(all.len() > 10);
    let mut again = Controller::new();
    for r in &reports {
        assert!(again.signal(r.clone()).len() <= 1);
    }
    for t in &all {
        assert!(t.timestamp1 < t.timestamp2);
        assert!(t.speed >= 6050);
        assert!(reports.iter().any(|r| r.plate == t.plate && r.road == t.road && r.mile == t.mile1 && r.timestamp == t.timestamp1));
        assert!(reports.iter().any(|r| r.plate == t.plate && r.road == t.road && r.mile == t.mile2 && r.timestamp == t.timestamp2));
    }
    for (i, a) in all.iter().enumerate() {
        for b in &all[i + 1..] {
            if a.plate == b.plate {
                let (a1, a2) = days(a);
                let (b1, b2) = days(b);
                assert!(a2 < b1 || b2 < a1, "{:?} and {:?} share a day", a, b);
            }
        }
    }
}
