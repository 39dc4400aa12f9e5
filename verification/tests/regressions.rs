use griddle::HashMap;

#[test]
fn reserve_shrink_add() {
    // [Reserve(18303), ShrinkToFit, Add(-94, -96)]
    let mut map = HashMap::new();
    map.reserve(18303);
    map.shrink_to_fit();
    map.insert(-94, -96);
    assert_eq!(map.get(-94), Some(-96));
}

#[test]
fn carry_moves_exactly() {
    // [AddEntry(-14, 67), Add(6, -14), AddEntry(29, 67), AddEntry(10, 82), Add(-33, -44),
    //  Add(37, 88), AddEntry(72, 73), Add(-90, 74), Reserve(45114), AddEntry(-75, -31),
    //  Remove(29), RemoveEntry(72), ShrinkToFit, AddEntry(42, -34)]
    let mut map = HashMap::new();
    map.entry_or_insert(-14, 67);
    map.insert(6, -14);
    map.entry_or_insert(29, 67);
    map.entry_or_insert(10, 82);
    map.insert(-33, -44);
    map.insert(37, 88);
    map.entry_or_insert(72, 73);
    map.entry_or_insert(-90, 74);
    map.reserve(45114);
    map.entry_or_insert(-75, -31);
    map.remove(29);
    map.remove_entry(72);
    map.shrink_to_fit();
    map.entry_or_insert(42, -34);
    assert_eq!(map.len(), 8);
    assert_eq!(map.get(29), None);
    assert_eq!(map.get(72), None);
    assert_eq!(map.get(42), Some(-34));
    assert_eq!(map.get(-14), Some(67));
}
