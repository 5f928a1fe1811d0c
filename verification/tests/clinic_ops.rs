use depot::clinic::{distribute, enqueue, generate_ticket, make_ticket, Visitor};

fn visitor(ticket: &str, duration: u32) -> Visitor {
    Visitor { ticket: ticket.to_string(), duration }
}

#[test]
fn ticket_formatting() {
    assert_eq!(make_ticket(0), "T000");
    assert_eq!(make_ticket(7), "T007");
    assert_eq!(make_ticket(42), "T042");
    assert_eq!(make_ticket(999), "T999");
}

#[test]
fn generated_ticket_shape() {
    let t = generate_ticket();
    assert_eq!(t.len(), 4);
    let chars: Vec<char> = t.chars().collect();
    assert_eq!(chars[0], 'T');
    assert!(chars[1].is_ascii_digit());
    assert!(chars[2].is_ascii_digit());
    assert!(chars[3].is_ascii_digit());
}

#[test]
fn enqueue_appends_a_visitor() {
    let mut queue: Vec<Visitor> = Vec::new();
    let t = enqueue(&mut queue, 15);
    assert_eq!(queue.len(), 1);
    assert_eq!(queue[0].duration, 15);
    assert_eq!(queue[0].ticket, t);
    assert_eq!(t.len(), 4);
    assert!(t.starts_with('T'));
    enqueue(&mut queue, 3);
    assert_eq!(queue.len(), 2);
    assert_eq!(queue[0].duration, 15);
    assert_eq!(queue[1].duration, 3);
}

#[test]
fn distribute_two_windows() {
    let queue = vec![visitor("a", 10), visitor("b", 20), visitor("c", 5)];
    let bins = distribute(&queue, 2);
    assert_eq!(bins.len(), 2);
    // Window 1 takes visitors 1 and 3 (10, then 5), window 2 takes visitor 2.
    assert_eq!(bins[0].load, 15);
    assert_eq!(bins[1].load, 20);
    let w1: Vec<&str> = bins[0].visitors.iter().map(|v| v.ticket.as_str()).collect();
    let w2: Vec<&str> = bins[1].visitors.iter().map(|v| v.ticket.as_str()).collect();
    assert_eq!(w1, ["a", "c"]);
    assert_eq!(w2, ["b"]);
}

#[test]
fn distribute_three_windows_tie_goes_to_earliest() {
    let queue = vec![visitor("a", 4), visitor("b", 4), visitor("c", 4), visitor("d", 4)];
    let bins = distribute(&queue, 3);
    assert_eq!(bins.len(), 3);
    // After the third visitor every window holds 4; the fourth goes to the
    // earliest minimum, window 1.
    assert_eq!(bins[0].load, 8);
    assert_eq!(bins[1].load, 4);
    assert_eq!(bins[2].load, 4);
    let w1: Vec<&str> = bins[0].visitors.iter().map(|v| v.ticket.as_str()).collect();
    assert_eq!(w1, ["a", "d"]);
}

#[test]
fn distribute_empty_queue_leaves_windows_empty() {
    let queue: Vec<Visitor> = Vec::new();
    let bins = distribute(&queue, 3);
    assert_eq!(bins.len(), 3);
    for b in bins.iter() {
        assert_eq!(b.load, 0);
        assert!(b.visitors.is_empty());
    }
}

#[test]
fn distribute_preserves_the_queue() {
    let queue = vec![
        visitor("a", 3),
        visitor("b", 1),
        visitor("c", 4),
        visitor("d", 1),
        visitor("e", 5),
    ];
    let bins = distribute(&queue, 2);
    let mut all: Vec<(String, u32)> = Vec::new();
    for b in bins.iter() {
        for v in b.visitors.iter() {
            all.push((v.ticket.clone(), v.duration));
        }
    }
    assert_eq!(all.len(), queue.len());
    let mut expected: Vec<(String, u32)> =
        queue.iter().map(|v| (v.ticket.clone(), v.duration)).collect();
    all.sort();
    expected.sort();
    assert_eq!(all, expected);
    // Within each bin the original relative order is kept.
    let order: Vec<&str> = vec!["a", "b", "c", "d", "e"];
    for b in bins.iter() {
        let mut last_pos = 0;
        for v in b.visitors.iter() {
            let pos = order.iter().position(|t| *t == v.ticket).unwrap() + 1;
            assert!(pos > last_pos);
            last_pos = pos;
        }
    }
}

#[test]
fn each_load_is_the_sum_of_its_durations() {
    let queue = vec![
        visitor("a", 7),
        visitor("b", 2),
        visitor("c", 2),
        visitor("d", 9),
        visitor("e", 1),
    ];
    let bins = distribute(&queue, 3);
    for b in bins.iter() {
        let sum: u64 = b.visitors.iter().map(|v| v.duration as u64).sum();
        assert_eq!(b.load, sum);
    }
}

#[test]
fn min_load_choice_at_each_step() {
    // Replay the greedy rule by hand and check the exact assignment.
    let queue = vec![
        visitor("a", 6),
        visitor("b", 2),
        visitor("c", 3),
        visitor("d", 2),
        visitor("e", 1),
    ];
    let bins = distribute(&queue, 2);
    // a -> w1 (0,0); b -> w2 (6,2); c -> w2 (6,5); d -> w2 (6,7); e -> w1.
    assert_eq!(bins[0].load, 7);
    assert_eq!(bins[1].load, 7);
    let w1: Vec<&str> = bins[0].visitors.iter().map(|v| v.ticket.as_str()).collect();
    let w2: Vec<&str> = bins[1].visitors.iter().map(|v| v.ticket.as_str()).collect();
    assert_eq!(w1, ["a", "e"]);
    assert_eq!(w2, ["b", "c", "d"]);
}

#[test]
fn single_window_takes_everything_in_order() {
    let queue = vec![visitor("a", 1), visitor("b", 2), visitor("c", 3)];
    let bins = distribute(&queue, 1);
    assert_eq!(bins.len(), 1);
    assert_eq!(bins[0].load, 6);
    let w1: Vec<&str> = bins[0].visitors.iter().map(|v| v.ticket.as_str()).collect();
    assert_eq!(w1, ["a", "b", "c"]);
}
