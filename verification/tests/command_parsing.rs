use depot::clinic::{parse_duration, parse_window_count};
use depot::parse::parse_usize;
use depot::warehouse::{dispatch, WarehouseCommand};

fn tokens(words: &[&str]) -> Vec<String> {
    words.iter().map(|w| w.to_string()).collect()
}

#[test]
fn parse_usize_accepts_plain_numbers() {
    assert_eq!(parse_usize("0"), Some(0));
    assert_eq!(parse_usize("123"), Some(123));
    assert_eq!(parse_usize("+7"), Some(7));
    assert_eq!(parse_usize("007"), Some(7));
    assert_eq!(parse_usize("18446744073709551615"), Some(usize::MAX));
}

#[test]
fn parse_usize_rejects_everything_else() {
    assert_eq!(parse_usize(""), None);
    assert_eq!(parse_usize("+"), None);
    assert_eq!(parse_usize("-5"), None);
    assert_eq!(parse_usize("12a"), None);
    assert_eq!(parse_usize("a12"), None);
    assert_eq!(parse_usize("1 2"), None);
    assert_eq!(parse_usize("18446744073709551616"), None);
    assert_eq!(parse_usize("99999999999999999999999999"), None);
}

#[test]
fn dispatch_add_and_remove() {
    let c = dispatch("ADD", &tokens(&["add", "widget", "5", "A111"]));
    match c {
        WarehouseCommand::Add { name, count, addr } => {
            assert_eq!(name, "widget");
            assert_eq!(count, 5);
            assert_eq!(addr, "A111");
        }
        _ => panic!("expected an add command"),
    }
    let c = dispatch("REMOVE", &tokens(&["REMOVE", "widget", "2", "A111"]));
    match c {
        WarehouseCommand::Remove { name, count, addr } => {
            assert_eq!(name, "widget");
            assert_eq!(count, 2);
            assert_eq!(addr, "A111");
        }
        _ => panic!("expected a remove command"),
    }
}

#[test]
fn dispatch_complains_in_order() {
    // Wrong arity comes before the number check.
    assert!(matches!(
        dispatch("ADD", &tokens(&["ADD", "widget", "x"])),
        WarehouseCommand::BadFormat
    ));
    assert!(matches!(
        dispatch("ADD", &tokens(&["ADD", "widget", "5", "A111", "extra"])),
        WarehouseCommand::BadFormat
    ));
    assert!(matches!(
        dispatch("ADD", &tokens(&["ADD", "widget", "x", "A111"])),
        WarehouseCommand::BadNumber
    ));
    assert!(matches!(
        dispatch("REMOVE", &tokens(&["REMOVE", "widget", "-1", "A111"])),
        WarehouseCommand::BadNumber
    ));
}

#[test]
fn dispatch_info_and_unknown() {
    assert!(matches!(dispatch("INFO", &tokens(&["info"])), WarehouseCommand::Info));
    // Extra tokens after INFO are ignored, as the dialogue ignores them.
    assert!(matches!(
        dispatch("INFO", &tokens(&["INFO", "x"])),
        WarehouseCommand::Info
    ));
    assert!(matches!(dispatch("FOO", &tokens(&["FOO"])), WarehouseCommand::Unknown));
    assert!(matches!(
        dispatch("ADDED", &tokens(&["ADDED", "a", "1", "b"])),
        WarehouseCommand::Unknown
    ));
}

#[test]
fn durations_must_be_positive_and_fit() {
    assert_eq!(parse_duration("15"), Some(15));
    assert_eq!(parse_duration("+1"), Some(1));
    assert_eq!(parse_duration("0"), None);
    assert_eq!(parse_duration("-3"), None);
    assert_eq!(parse_duration("ten"), None);
    assert_eq!(parse_duration("4294967295"), Some(u32::MAX));
    assert_eq!(parse_duration("4294967296"), None);
}

#[test]
fn window_counts_must_be_positive() {
    assert_eq!(parse_window_count("3"), Some(3));
    assert_eq!(parse_window_count("0"), None);
    assert_eq!(parse_window_count("two"), None);
    assert_eq!(parse_window_count(""), None);
}
