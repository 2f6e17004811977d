use symboltables::item::GenericItem;
use symboltables::symboltable::{ArraySymbolTable, KeyIndexedSymbolTable, LinkedSymbolTable};

// Items keyed by plain numbers; the payload type parameter is arbitrary.
type NumItem = GenericItem<usize, f64>;

fn with_key(key: usize) -> NumItem {
    NumItem::new(key)
}

#[test]
fn test_key_indexed_symbol_table() {
    let mut st = KeyIndexedSymbolTable::new(10);
    for i in 0..10 {
        let item = with_key(i);
        st.insert(item);
    }

    // select 5th smallest item
    let _k = st.select(5);
    assert_eq!(_k, Some(with_key(5)));
}

#[test]
fn test_array_symbol_table() {
    let mut st = ArraySymbolTable::new(10);
    let i1 = with_key(10);
    let i2 = with_key(20);
    let i3 = with_key(15);
    st.insert(i1.clone());
    st.insert(i2.clone());
    st.insert(i3.clone());

    // an item that exists
    assert_eq!(st.search(15), Some(with_key(15)));
    // non-existent item
    assert_eq!(st.search(150), None);

    assert_eq!(st.select(1), with_key(15));

    let expected = vec![i1.clone(), i3.clone(), i2.clone()];
    assert_eq!(st.show(), expected);

    // remove the item with key 15
    st.remove(i3);

    let expected = vec![i1, i2];
    assert_eq!(st.show(), expected);
}

#[test]
fn test_linked_symbol_table() {
    let mut st = LinkedSymbolTable::new();
    let i1 = with_key(10);
    let i2 = with_key(20);
    let i3 = with_key(15);
    st.insert(i1);
    st.insert(i2);
    st.insert(i3);

    assert_eq!(st.search(15), Some(with_key(15)));

    // non-existent item
    assert_eq!(st.search(150), None);
}

#[test]
fn test_key_indexed_count_and_remove() {
    let mut st = KeyIndexedSymbolTable::new(10);
    assert_eq!(st.count(), 0);
    st.insert(with_key(3));
    st.insert(with_key(7));
    assert_eq!(st.count(), 2);
    assert_eq!(st.search(3), Some(with_key(3)));
    assert_eq!(st.search(4), None);
    st.remove(with_key(3));
    assert_eq!(st.count(), 1);
    assert_eq!(st.search(3), None);
}

#[test]
fn test_array_symbol_table_order() {
    let mut st = ArraySymbolTable::new(8);
    for k in [5usize, 2, 9, 2, 7] {
        st.insert(with_key(k));
    }
    assert_eq!(st.count(), 5);
    let keys: Vec<usize> = [2usize, 2, 5, 7, 9].to_vec();
    let expected: Vec<NumItem> = keys.into_iter().map(with_key).collect();
    assert_eq!(st.show(), expected);
    assert_eq!(st.find_index(with_key(5)), Some(2));
    assert_eq!(st.find_index(with_key(4)), None);
}
