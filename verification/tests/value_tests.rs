use regex_combinators::arith::{sym, Value};
use regex_combinators::bits::index_to_bitstring;

#[test]
fn test_index_to_bitstring() {
    let bitstrings = (0..4).map(|i| index_to_bitstring(i, 2)).collect::<Vec<_>>();
    assert_eq!(bitstrings, &["00", "01", "10", "11"]);
}

#[test]
fn bitstring_widths() {
    assert_eq!(index_to_bitstring(0, 0), "");
    assert_eq!(index_to_bitstring(5, 4), "0101");
    assert_eq!(index_to_bitstring(7, 2), "11");
    assert_eq!(index_to_bitstring(1, 3), "001");
}

#[test]
fn symbol_round_trip() {
    let x = sym('x');
    assert_eq!(x.symbol(), Some(String::from("x")));
    assert!(x.into_elements().is_none());
}

#[test]
fn vector_round_trip() {
    let v = regex_combinators::arith::vec(vec![sym('a'), sym('b')]);
    assert!(v.symbol().is_none());
    let elems: Vec<Value> = v.into_elements().unwrap();
    assert_eq!(elems.len(), 2);
    assert_eq!(elems[0].symbol(), Some(String::from("a")));
    assert_eq!(elems[1].symbol(), Some(String::from("b")));
}
