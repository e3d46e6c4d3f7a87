use email_template::context::{find_binding, flatten, join_path, Binding, MAX_NESTING};
use email_template::{DataContext, DataEntry, DataValue};

fn chars(s: &str) -> Vec<char> {
    s.chars().collect()
}

fn binding(path: &str, value: &str) -> Binding {
    Binding { path: chars(path), value: chars(value) }
}

fn scalar(key: &str, value: &str) -> DataEntry {
    DataEntry { key: key.to_string(), value: DataValue::Scalar(value.to_string()) }
}

fn object(key: &str, entries: Vec<DataEntry>) -> DataEntry {
    DataEntry { key: key.to_string(), value: DataValue::Object(DataContext { entries }) }
}

fn chain(levels: usize, leaf: DataEntry) -> DataContext {
    let mut entry = leaf;
    for _ in 0..levels {
        entry = object("n", vec![entry]);
    }
    DataContext { entries: vec![entry] }
}

#[test]
fn join_path_puts_a_dot_between() {
    assert_eq!(join_path(&chars("user"), "name"), chars("user.name"));
    assert_eq!(join_path(&chars(""), "name"), chars("name"));
    assert_eq!(join_path(&chars("a.b"), ""), chars("a.b."));
}

#[test]
fn flatten_of_nothing_is_nothing() {
    assert_eq!(flatten(&DataContext { entries: vec![] }), Vec::<Binding>::new());
}

#[test]
fn flatten_keeps_the_order_of_the_entries() {
    let context = DataContext {
        entries: vec![
            scalar("first", "1"),
            object("user", vec![scalar("name", "Ana"), object("home", vec![scalar("city", "Rio")]), scalar("age", "30")]),
            object("empty", vec![]),
            scalar("last", "9"),
        ],
    };
    assert_eq!(
        flatten(&context),
        vec![
            binding("first", "1"),
            binding("user.name", "Ana"),
            binding("user.home.city", "Rio"),
            binding("user.age", "30"),
            binding("last", "9"),
        ]
    );
}

#[test]
fn an_empty_key_adds_no_dot_below_it() {
    let context = DataContext { entries: vec![object("", vec![scalar("a", "x")])] };
    assert_eq!(flatten(&context), vec![binding("a", "x")]);
}

#[test]
fn nesting_is_read_down_to_the_limit() {
    assert_eq!(MAX_NESTING, 64);
    let mut path = String::new();
    for _ in 0..64 {
        path.push_str("n.");
    }
    path.push_str("leaf");
    assert_eq!(flatten(&chain(64, scalar("leaf", "v"))), vec![binding(&path, "v")]);
}

#[test]
fn nesting_beyond_the_limit_is_passed_over() {
    assert_eq!(flatten(&chain(65, scalar("leaf", "v"))), Vec::<Binding>::new());
    assert_eq!(flatten(&chain(5000, scalar("leaf", "v"))), Vec::<Binding>::new());
    let mixed = DataContext {
        entries: vec![scalar("a", "1"), chain(65, scalar("leaf", "v")).entries.remove(0), scalar("b", "2")],
    };
    assert_eq!(flatten(&mixed), vec![binding("a", "1"), binding("b", "2")]);
}

#[test]
fn the_first_binding_of_a_path_is_found() {
    let map = vec![binding("a", "1"), binding("b", "2"), binding("a", "3")];
    assert_eq!(find_binding(&map, &chars("a")), Some(0));
    assert_eq!(find_binding(&map, &chars("b")), Some(1));
    assert_eq!(find_binding(&map, &chars("c")), None);
    assert_eq!(find_binding(&map, &chars("")), None);
    assert_eq!(find_binding(&Vec::new(), &chars("a")), None);
}
