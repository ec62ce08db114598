use pmd_message::MessageBin;

#[test]
fn insert_updates_in_place_and_appends_fresh() {
    let mut bin = MessageBin::default();
    bin.insert(10, 1, "a".to_string());
    bin.insert(20, 2, "b".to_string());
    bin.insert(10, 3, "c".to_string());
    {
        let msgs = bin.messages();
        assert_eq!(msgs.len(), 2);
        assert_eq!(msgs[0], (10, 3, "c".to_string()));
        assert_eq!(msgs[1], (20, 2, "b".to_string()));
    }
    bin.insert(30, 4, "d".to_string());
    assert_eq!(bin.messages()[2], (30, 4, "d".to_string()));
}

#[test]
fn message_by_hash_finds_only_present_keys() {
    let mut bin = MessageBin::default();
    bin.insert(7, 0, "seven".to_string());
    bin.insert(8, 0, "eight".to_string());
    assert_eq!(bin.message_by_hash(7), Some(&"seven".to_string()));
    assert_eq!(bin.message_by_hash(8), Some(&"eight".to_string()));
    assert_eq!(bin.message_by_hash(9), None);
}
