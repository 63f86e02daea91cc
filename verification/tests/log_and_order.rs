use cwe_checker_lib::intermediate_representation::Tid;
use cwe_checker_lib::log::{compare_warnings, sort_warnings, CweWarning, LogLevel, LogMessage};
use cwe_checker_lib::order::{compare_bytes, compare_string_list_lists, compare_string_lists, compare_strings, Order};

#[test]
fn string_comparison_follows_bytes() {
    assert_eq!(compare_strings(&"a".to_string(), &"b".to_string()), Order::Less);
    assert_eq!(compare_strings(&"ab".to_string(), &"a".to_string()), Order::Greater);
    assert_eq!(compare_strings(&"abc".to_string(), &"abc".to_string()), Order::Equal);
    assert_eq!(compare_strings(&"".to_string(), &"a".to_string()), Order::Less);
    // 'é' is encoded with a leading byte above every ASCII byte
    assert_eq!(compare_strings(&"é".to_string(), &"z".to_string()), Order::Greater);
    assert_eq!(compare_bytes(&[1, 2, 3], &[1, 2, 4]), Order::Less);
}

#[test]
fn list_comparison_is_lexicographic() {
    let a = vec!["x".to_string(), "a".to_string()];
    let b = vec!["x".to_string()];
    assert_eq!(compare_string_lists(&a, &b), Order::Greater);
    assert_eq!(compare_string_lists(&b, &a), Order::Less);
    assert_eq!(compare_string_list_lists(&vec![a.clone()], &vec![a.clone()]), Order::Equal);
}

fn warning(name: &str, address: &str, description: &str) -> CweWarning {
    CweWarning::new(name.to_string(), "1".to_string(), description.to_string())
        .addresses(vec![address.to_string()])
}

#[test]
fn warnings_sort_by_fields_in_order() {
    let w1 = warning("CWE1", "0x2", "b");
    let w2 = warning("CWE1", "0x1", "z");
    let w3 = warning("CWE0", "0x9", "a");
    let w4 = warning("CWE1", "0x1", "a");
    assert_eq!(compare_warnings(&w1, &w2), Order::Greater);
    let sorted = sort_warnings(vec![w1.clone(), w2.clone(), w3.clone(), w4.clone()]);
    let descriptions: Vec<&str> = sorted.iter().map(|w| w.description.as_str()).collect();
    assert_eq!(descriptions, vec!["a", "a", "z", "b"]);
    assert_eq!(sorted[0].name, "CWE0");
    assert!(sort_warnings(Vec::new()).is_empty());
}

#[test]
fn warning_builders_set_fields() {
    let w = CweWarning::new("N".to_string(), "V".to_string(), "D".to_string())
        .tids(vec!["t".to_string()])
        .symbols(vec!["s".to_string()])
        .other(vec![vec!["o".to_string()]]);
    assert!(w.addresses.is_empty());
    assert_eq!(w.tids, vec!["t".to_string()]);
    assert_eq!(w.symbols, vec!["s".to_string()]);
    assert_eq!(w.other, vec![vec!["o".to_string()]]);
}

#[test]
fn log_message_builders() {
    let m = LogMessage::new_error("oops".to_string())
        .source("CWE".to_string());
    assert_eq!(m.level, LogLevel::Error);
    assert_eq!(m.text, "oops");
    assert_eq!(m.source, Some("CWE".to_string()));
    assert!(m.location.is_none());
    assert_eq!(LogMessage::new_info("i".to_string()).level, LogLevel::Info);
}

#[test]
fn tid_equality_and_copy() {
    let a = Tid { id: "x".to_string(), address: "1".to_string() };
    let b = a.copy_tid();
    assert_eq!(a, b);
    assert_ne!(a, Tid { id: "x".to_string(), address: "2".to_string() });
}

fn order_of(o: std::cmp::Ordering) -> Order {
    match o {
        std::cmp::Ordering::Less => Order::Less,
        std::cmp::Ordering::Equal => Order::Equal,
        std::cmp::Ordering::Greater => Order::Greater,
    }
}

#[test]
fn warning_comparison_agrees_with_derived_order() {
    let mut warnings = vec![
        warning("CWE1", "0x2", "b"),
        warning("CWE1", "0x1", "z"),
        warning("CWE0", "0x9", "a"),
        warning("CWE1", "0x1", "a"),
        warning("CWE1", "0x1", "a").tids(vec!["t".to_string()]),
        warning("CWE1", "0x1", "a").symbols(vec!["s".to_string()]),
        warning("CWE1", "0x1", "a").other(vec![vec!["o".to_string()], vec![]]),
        warning("CWE1", "0x1", "a").other(vec![vec!["o".to_string()]]),
        CweWarning::new("CWE1".to_string(), "2".to_string(), "a".to_string()),
        warning("CWE1", "é", "a"),
        warning("CWE1", "z", "a"),
    ];
    for a in warnings.iter() {
        for b in warnings.iter() {
            assert_eq!(compare_warnings(a, b), order_of(a.cmp(b)));
        }
    }
    let sorted = sort_warnings(warnings.clone());
    warnings.sort();
    assert_eq!(sorted, warnings);
}
