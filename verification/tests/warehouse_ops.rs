use depot::warehouse::{percent_of_capacity_x100, StoreError, Warehouse};
use std::collections::HashSet;

#[test]
fn address_list_counts_and_zones() {
    let w = Warehouse::new();
    assert_eq!(w.all_addresses.len(), 1216);
    let mut seen: HashSet<String> = HashSet::new();
    for (i, a) in w.all_addresses.iter().enumerate() {
        let first = a.chars().next().unwrap();
        if i < 608 {
            assert_eq!(first, 'A');
        } else {
            assert_eq!(first, 'B');
        }
        seen.insert(a.clone());
    }
    assert_eq!(seen.len(), 1216);
    assert_eq!(w.all_addresses[0], "A111");
    assert_eq!(w.all_addresses[1], "A112");
    assert_eq!(w.all_addresses[8], "A121");
    assert_eq!(w.all_addresses[32], "A211");
    assert_eq!(w.all_addresses[608], "B111");
    assert_eq!(w.all_addresses[1215], "B1948");
}

#[test]
fn fresh_info_is_empty() {
    let w = Warehouse::new();
    let r = w.info();
    assert_eq!(r.percent_total_x100, 0);
    assert_eq!(r.percent_zone_a_x100, 0);
    assert_eq!(r.percent_zone_b_x100, 0);
    assert!(r.stocked.is_empty());
    assert_eq!(r.empty.len(), 1216);
    assert_eq!(r.empty[0], "A111");
    assert_eq!(r.empty[1], "A112");
}

#[test]
fn add_then_info() {
    let mut w = Warehouse::new();
    assert!(w.add_item("widget", 5, "A111").is_ok());
    let r = w.info();
    assert_eq!(r.percent_total_x100, 4); // 5 of 12160 units: 0.04%
    assert_eq!(r.percent_zone_a_x100, 4);
    assert_eq!(r.percent_zone_b_x100, 0);
    assert_eq!(r.stocked.len(), 1);
    assert_eq!(r.stocked[0].addr, "A111");
    assert_eq!(r.stocked[0].name, "widget");
    assert_eq!(r.stocked[0].count, 5);
    assert_eq!(r.empty.len(), 1215);
    assert!(!r.empty.iter().any(|a| a == "A111"));
}

#[test]
fn add_over_capacity_is_rejected() {
    let mut w = Warehouse::new();
    assert!(w.add_item("widget", 7, "A111").is_ok());
    let r = w.add_item("widget", 5, "A111");
    assert_eq!(r, Err(StoreError::NoSpace));
    assert_eq!(w.total_used, 7);
    let info = w.info();
    assert_eq!(info.stocked.len(), 1);
    assert_eq!(info.stocked[0].count, 7);
}

#[test]
fn add_to_fresh_cell_over_capacity_leaves_no_cell() {
    let mut w = Warehouse::new();
    let r = w.add_item("widget", 11, "A111");
    assert_eq!(r, Err(StoreError::NoSpace));
    assert_eq!(w.cells.len(), 0);
    assert_eq!(w.total_used, 0);
}

#[test]
fn remove_wrong_name_is_rejected() {
    let mut w = Warehouse::new();
    assert!(w.add_item("widget", 3, "A111").is_ok());
    let r = w.remove_item("gadget", 1, "A111");
    assert_eq!(r, Err(StoreError::NotEnoughStock));
    let info = w.info();
    assert_eq!(info.stocked.len(), 1);
    assert_eq!(info.stocked[0].name, "widget");
    assert_eq!(info.stocked[0].count, 3);
}

#[test]
fn remove_too_many_is_rejected() {
    let mut w = Warehouse::new();
    assert!(w.add_item("widget", 3, "A111").is_ok());
    let r = w.remove_item("widget", 4, "A111");
    assert_eq!(r, Err(StoreError::NotEnoughStock));
    assert_eq!(w.total_used, 3);
}

#[test]
fn remove_from_missing_cell_is_rejected() {
    let mut w = Warehouse::new();
    let r = w.remove_item("widget", 1, "A111");
    assert_eq!(r, Err(StoreError::CellNotFound));
    assert_eq!(w.total_used, 0);
}

#[test]
fn remove_all_clears_cell() {
    let mut w = Warehouse::new();
    assert!(w.add_item("widget", 3, "A111").is_ok());
    assert!(w.remove_item("widget", 3, "A111").is_ok());
    let r = w.info();
    assert!(r.stocked.is_empty());
    assert_eq!(r.empty.len(), 1216);
    assert!(r.empty.iter().any(|a| a == "A111"));
    // The cell stays, emptied and with its name cleared.
    assert_eq!(w.cells.len(), 1);
    assert_eq!(w.cells[0].0, "A111");
    assert_eq!(w.cells[0].1.count, 0);
    assert_eq!(w.cells[0].1.name, "");
    assert_eq!(w.total_used, 0);
}

#[test]
fn any_string_becomes_a_cell() {
    let mut w = Warehouse::new();
    assert!(w.add_item("odd", 2, "not-an-address").is_ok());
    assert_eq!(w.total_used, 2);
    let r = w.info();
    assert_eq!(r.stocked.len(), 1);
    assert_eq!(r.stocked[0].addr, "not-an-address");
    // A non-canonical cell counts for the total but for neither zone.
    assert_eq!(r.percent_total_x100, 2);
    assert_eq!(r.percent_zone_a_x100, 0);
    assert_eq!(r.percent_zone_b_x100, 0);
    // The canonical empty-cell list is untouched by it.
    assert_eq!(r.empty.len(), 1216);
}

#[test]
fn conservation_over_a_command_sequence() {
    let mut w = Warehouse::new();
    assert!(w.add_item("a", 5, "A111").is_ok());
    assert!(w.add_item("b", 10, "B111").is_ok());
    assert!(w.add_item("c", 1, "A234").is_ok());
    assert!(w.remove_item("a", 2, "A111").is_ok());
    assert_eq!(w.remove_item("b", 11, "B111"), Err(StoreError::NotEnoughStock));
    let mut sum = 0;
    for (_, cell) in w.cells.iter() {
        assert!(cell.count <= 10);
        sum += cell.count;
    }
    assert_eq!(w.total_used, sum);
    assert_eq!(w.total_used, 14);
}

#[test]
fn update_usage_recomputes_the_cache() {
    let mut w = Warehouse::new();
    assert!(w.add_item("a", 4, "A111").is_ok());
    assert!(w.add_item("b", 6, "B347").is_ok());
    w.update_usage();
    assert_eq!(w.total_used, 10);
}

#[test]
fn get_cell_creates_an_empty_cell() {
    let mut w = Warehouse::new();
    let i = w.get_cell("Z99");
    assert_eq!(i, 0);
    assert_eq!(w.cells.len(), 1);
    assert_eq!(w.cells[0].0, "Z99");
    assert_eq!(w.cells[0].1.count, 0);
    assert_eq!(w.cells[0].1.name, "");
    assert_eq!(w.total_used, 0);
    // Asking again finds the same cell instead of making another.
    let j = w.get_cell("Z99");
    assert_eq!(j, 0);
    assert_eq!(w.cells.len(), 1);
}

#[test]
fn percent_rounding() {
    assert_eq!(percent_of_capacity_x100(0), 0);
    assert_eq!(percent_of_capacity_x100(5), 4); // 0.0411% rounds to 0.04%
    assert_eq!(percent_of_capacity_x100(1), 1); // 0.0082% rounds to 0.01%
    assert_eq!(percent_of_capacity_x100(6080), 5000);
    assert_eq!(percent_of_capacity_x100(12160), 10000);
}
