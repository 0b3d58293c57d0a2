use wardrobe::cost::Cost;
use wardrobe::date::Date;
use wardrobe::store::Store;

fn cost(text: &str) -> Cost {
    Cost::new(text.to_string()).expect("valid cost text")
}

fn date(year: u32, month: u32, day: u32) -> Date {
    Date { year, month, day }
}

#[test]
fn scenario_blue_jacket() {
    let mut store = Store::new();
    store.add_item("Blue Jacket".to_string(), cost("89.99"));
    let items = store.list();
    assert_eq!(items.len(), 1);
    assert_eq!(items[0].name, "Blue Jacket");
    assert_eq!(items[0].cost.text(), "89.99");
    assert!(items[0].uses.is_empty());

    assert!(store.add_use("Blue Jacket", "2024-01-15"));
    let items = store.list();
    assert_eq!(items.len(), 1);
    assert_eq!(items[0].name, "Blue Jacket");
    assert_eq!(items[0].cost.text(), "89.99");
    assert_eq!(items[0].uses, vec![date(2024, 1, 15)]);

    assert!(!store.add_use("Blue Jacket", "not-a-date"));
    let items = store.list();
    assert_eq!(items.len(), 1);
    assert_eq!(items[0].uses, vec![date(2024, 1, 15)]);
}

#[test]
fn added_items_listed_in_call_order_with_empty_uses() {
    let mut store = Store::new();
    store.add_item("Hat".to_string(), cost("10"));
    store.add_item("Scarf".to_string(), cost("12.5"));
    store.add_item("Boots".to_string(), cost("150.00"));
    let items = store.list();
    assert_eq!(items.len(), 3);
    assert_eq!(items[0].name, "Hat");
    assert_eq!(items[1].name, "Scarf");
    assert_eq!(items[2].name, "Boots");
    assert_eq!(items[0].cost.text(), "10");
    assert_eq!(items[1].cost.text(), "12.5");
    assert_eq!(items[2].cost.text(), "150.00");
    for it in &items {
        assert!(it.uses.is_empty());
    }
}

#[test]
fn add_use_appends_and_preserves_other_items() {
    let mut store = Store::new();
    store.add_item("Hat".to_string(), cost("10"));
    store.add_item("Scarf".to_string(), cost("12.5"));
    assert!(store.add_use("Hat", "2024-01-15"));
    assert!(store.add_use("Hat", "2023-12-31"));
    assert!(store.add_use("Scarf", "2024-02-03"));
    let items = store.list();
    assert_eq!(items[0].uses, vec![date(2024, 1, 15), date(2023, 12, 31)]);
    assert_eq!(items[1].uses, vec![date(2024, 2, 3)]);
}

#[test]
fn add_use_hits_first_of_duplicate_names() {
    let mut store = Store::new();
    store.add_item("Hat".to_string(), cost("10"));
    store.add_item("Hat".to_string(), cost("20"));
    assert!(store.add_use("Hat", "2024-01-15"));
    let items = store.list();
    assert_eq!(items.len(), 2);
    assert_eq!(items[0].uses, vec![date(2024, 1, 15)]);
    assert!(items[1].uses.is_empty());
}

#[test]
fn malformed_dates_change_nothing() {
    let mut store = Store::new();
    store.add_item("Hat".to_string(), cost("10"));
    for bad in [
        "15-01-2024",
        "2024/01/15",
        "2024-1-15",
        "2024-01-5",
        "2024-13-01",
        "2024-00-10",
        "2024-02-30",
        "2023-02-29",
        "2024-04-31",
        "2024-01-00",
        "2024-01-15 ",
        "",
    ] {
        assert!(!store.add_use("Hat", bad), "accepted {:?}", bad);
    }
    let items = store.list();
    assert!(items[0].uses.is_empty());
}

#[test]
fn leap_day_is_accepted_in_leap_years() {
    let mut store = Store::new();
    store.add_item("Hat".to_string(), cost("10"));
    assert!(store.add_use("Hat", "2024-02-29"));
    assert!(store.add_use("Hat", "2000-02-29"));
    assert!(!store.add_use("Hat", "1900-02-29"));
    let items = store.list();
    assert_eq!(items[0].uses, vec![date(2024, 2, 29), date(2000, 2, 29)]);
}

#[test]
fn unknown_name_changes_nothing() {
    let mut store = Store::new();
    store.add_item("Hat".to_string(), cost("10"));
    assert!(!store.add_use("Cap", "2024-01-15"));
    let items = store.list();
    assert_eq!(items.len(), 1);
    assert!(items[0].uses.is_empty());
}

#[test]
fn add_use_on_empty_store_changes_nothing() {
    let mut store = Store::new();
    assert!(!store.add_use("Hat", "2024-01-15"));
    assert_eq!(store.len(), 0);
}

#[test]
fn list_is_idempotent() {
    let mut store = Store::new();
    store.add_item("Hat".to_string(), cost("10"));
    store.add_use("Hat", "2024-01-15");
    let a = store.list();
    let b = store.list();
    assert_eq!(a.len(), b.len());
    for (x, y) in a.iter().zip(b.iter()) {
        assert_eq!(x.name, y.name);
        assert_eq!(x.cost.text(), y.cost.text());
        assert_eq!(x.uses, y.uses);
    }
}

#[test]
fn load_of_missing_file_is_empty_store() {
    let store = Store::load(None).expect("first run yields a store");
    assert_eq!(store.len(), 0);
    assert!(store.list().is_empty());
}

#[test]
fn empty_store_saves_as_empty_array() {
    let store = Store::new();
    assert_eq!(store.save(), "[]");
}

#[test]
fn saved_document_has_the_documented_shape() {
    let mut store = Store::new();
    store.add_item("Blue Jacket".to_string(), cost("89.99"));
    store.add_use("Blue Jacket", "2024-01-15");
    store.add_use("Blue Jacket", "2024-02-03");
    let expected = "[\n  {\n    \"name\": \"Blue Jacket\",\n    \"cost\": 89.99,\n    \"uses\": [\"2024-01-15\", \"2024-02-03\"]\n  }\n]";
    assert_eq!(store.save(), expected);
}

#[test]
fn save_then_load_restores_every_item() {
    let mut store = Store::new();
    store.add_item("Blue Jacket".to_string(), cost("89.99"));
    store.add_item("Rain \"Poncho\"".to_string(), cost("-12.50"));
    store.add_item("Back\\slash\nand\ttabs".to_string(), cost("0"));
    store.add_item(String::new(), cost("0.01"));
    store.add_use("Blue Jacket", "2024-01-15");
    store.add_use("Blue Jacket", "2024-02-03");
    store.add_use("Rain \"Poncho\"", "2023-11-05");
    let text = store.save();
    let reloaded = Store::load(Some(&text)).expect("the saved document parses");
    let a = store.list();
    let b = reloaded.list();
    assert_eq!(a.len(), b.len());
    for (x, y) in a.iter().zip(b.iter()) {
        assert_eq!(x.name, y.name);
        assert_eq!(x.cost.text(), y.cost.text());
        assert_eq!(x.uses, y.uses);
    }
    // and the reloaded store saves to the same document
    assert_eq!(reloaded.save(), text);
}

#[test]
fn malformed_documents_are_rejected() {
    for bad in [
        "",
        "[",
        "]",
        "[]x",
        "[] []",
        "{}",
        "[,]",
        "[{}]",
        "[{\"name\": \"Hat\", \"cost\": 10, \"uses\": [],}]",
        "[{\"name\": \"Hat\", \"cost\": 10, \"uses\": []}",
        "[{\"name\": \"Hat\", \"cost\": 10}]",
        "[{\"name\": \"Hat\", \"cost\": 10, \"cost\": 11, \"uses\": []}]",
        "[{\"name\": \"Hat\", \"cost\": 10, \"uses\": [], \"extra\": 1}]",
        "[{\"name\": \"Hat\", \"cost\": ten, \"uses\": []}]",
        "[{\"name\": \"Hat\", \"cost\": 10, \"uses\": [\"2024-13-01\"]}]",
        "[{\"name\": \"Hat\", \"cost\": 10, \"uses\": [\"2024-01-15\",]}]",
        "[{\"name\": \"\\ud83d\", \"cost\": 10, \"uses\": []}]",
        "[{\"name\": \"\\q\", \"cost\": 10, \"uses\": []}]",
        "[\"2024-01-15\"]",
    ] {
        assert!(Store::load(Some(bad)).is_none(), "accepted {:?}", bad);
    }
}

#[test]
fn whitespace_variants_of_the_empty_array_load() {
    for good in ["[]", "[\n]", " []", "[ ]", "[]\n", "\t[  ]  "] {
        let store = Store::load(Some(good)).expect("a valid empty array");
        assert_eq!(store.len(), 0);
    }
}

#[test]
fn multiline_layout_loads() {
    // the layout with every date on its own line
    let text = "[\n  {\n    \"name\": \"Blue Jacket\",\n    \"cost\": 89.99,\n    \"uses\": [\n      \"2024-01-15\",\n      \"2024-02-03\"\n    ]\n  }\n]";
    let store = Store::load(Some(text)).expect("valid JSON for the schema");
    let items = store.list();
    assert_eq!(items.len(), 1);
    assert_eq!(items[0].name, "Blue Jacket");
    assert_eq!(items[0].cost.text(), "89.99");
    assert_eq!(
        items[0].uses,
        vec![date(2024, 1, 15), date(2024, 2, 3)]
    );
}

#[test]
fn keys_in_any_order_load() {
    let text = "[{\"uses\": [\"2023-12-31\"], \"cost\": 5, \"name\": \"Hat\"}]";
    let store = Store::load(Some(text)).expect("key order is free");
    let items = store.list();
    assert_eq!(items.len(), 1);
    assert_eq!(items[0].name, "Hat");
    assert_eq!(items[0].cost.text(), "5");
    assert_eq!(items[0].uses, vec![date(2023, 12, 31)]);
}

#[test]
fn all_json_escapes_load() {
    let text = "[{\"name\": \"a\\n\\t\\b\\f\\r\\/\\\\\\\"\\u0041\\u00E9\\ud83d\\ude00\", \"cost\": 1, \"uses\": []}]";
    let store = Store::load(Some(text)).expect("every JSON escape is read");
    let items = store.list();
    assert_eq!(items[0].name, "a\n\t\u{8}\u{c}\r/\\\"A\u{e9}\u{1f600}");
}

#[test]
fn escaped_date_strings_and_spaced_empty_uses_load() {
    // an escape inside a date string still denotes the same date
    let text = "[{\"name\": \"Hat\", \"cost\": 1, \"uses\": [\"202\\u0034-01-15\"]}]";
    let store = Store::load(Some(text)).expect("the escape denotes a digit");
    assert_eq!(store.list()[0].uses, vec![date(2024, 1, 15)]);
    let text = "[{\"name\": \"Hat\", \"cost\": 1, \"uses\": [ ]}]";
    let store = Store::load(Some(text)).expect("whitespace inside the array is free");
    assert!(store.list()[0].uses.is_empty());
}

#[test]
fn exponent_costs_load() {
    let text = "[{\"name\": \"Hat\", \"cost\": 1.5e+3, \"uses\": []}]";
    let store = Store::load(Some(text)).expect("exponents are JSON numbers");
    let items = store.list();
    assert_eq!(items[0].cost.text(), "1.5e+3");
}

#[test]
fn mutations_after_reload_continue_to_work() {
    let mut store = Store::new();
    store.add_item("Hat".to_string(), cost("10"));
    let text = store.save();
    let mut reloaded = Store::load(Some(&text)).expect("parses");
    assert!(reloaded.add_use("Hat", "2024-06-01"));
    reloaded.add_item("Scarf".to_string(), cost("5.25"));
    let items = reloaded.list();
    assert_eq!(items.len(), 2);
    assert_eq!(items[0].uses, vec![date(2024, 6, 1)]);
    assert_eq!(items[1].name, "Scarf");
}
