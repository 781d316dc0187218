use cohdl_check::strmap::StrMap;
use cohdl_check::text::{int_string, mm_femto, str_lt};

#[test]
fn millimetre_spelling_is_exact() {
    assert_eq!(mm_femto(2_000_000_000_000_000), "2");
    assert_eq!(mm_femto(1_500_000_000_000_000), "1.5");
    assert_eq!(mm_femto(-250_000_000_000_000), "-0.25");
    assert_eq!(mm_femto(1), "0.000000000000001");
    assert_eq!(mm_femto(0), "0");
    assert_eq!(mm_femto(i128::MIN), "-170141183460469231731687.303715884105728");
}

#[test]
fn integer_spelling() {
    assert_eq!(int_string(0), "0");
    assert_eq!(int_string(-42), "-42");
    assert_eq!(int_string(i128::MAX), "170141183460469231731687303715884105727");
}

#[test]
fn names_order_lexicographically() {
    assert!(str_lt(&"a".to_string(), &"b".to_string()));
    assert!(str_lt(&"a".to_string(), &"ab".to_string()));
    assert!(!str_lt(&"ab".to_string(), &"ab".to_string()));
    assert!(!str_lt(&"b".to_string(), &"ab".to_string()));
}

#[test]
fn string_map_keeps_keys_sorted_and_latest_values() {
    let mut m: StrMap<i64> = StrMap::new();
    m.insert("zeta".to_string(), 1);
    m.insert("alpha".to_string(), 2);
    m.insert("mid".to_string(), 3);
    m.insert("alpha".to_string(), 4);
    assert_eq!(m.len(), 3);
    assert_eq!(m.keys(), vec!["alpha".to_string(), "mid".to_string(), "zeta".to_string()]);
    assert_eq!(m.get(&"alpha".to_string()), Some(&4));
    m.remove(&"mid".to_string());
    assert!(!m.contains_key(&"mid".to_string()));
    assert_eq!(m.len(), 2);
    m.insert_if_absent("zeta".to_string(), 9);
    assert_eq!(m.get(&"zeta".to_string()), Some(&1));
    let (k, v) = m.entry_at(0);
    assert_eq!((k.as_str(), *v), ("alpha", 4));
}
