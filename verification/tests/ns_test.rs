use cljvindent::aligners::ns_like::{compact_ns_entry_text, sort_ns_entries};

fn strs(v: Vec<Vec<u8>>) -> Vec<String> {
    v.into_iter().map(|b| String::from_utf8(b).unwrap()).collect()
}

#[test]
fn entries_ordered_shorter_first_then_bytewise() {
    let items: Vec<Vec<u8>> = vec![b"[ccc]".to_vec(), b"[bb]".to_vec(), b"[a]".to_vec(), b"[ab]".to_vec()];
    let sorted = strs(sort_ns_entries(items));
    assert_eq!(sorted, vec!["[a]", "[ab]", "[bb]", "[ccc]"]);
}

#[test]
fn entries_counted_in_characters() {
    let items: Vec<Vec<u8>> = vec!["[ééé]".as_bytes().to_vec(), b"[abcd]".to_vec()];
    let sorted = strs(sort_ns_entries(items));
    assert_eq!(sorted, vec!["[ééé]", "[abcd]"]);
}

#[test]
fn sorting_keeps_every_entry() {
    let items: Vec<Vec<u8>> = vec![b"[b]".to_vec(), b"[a]".to_vec(), b"[b]".to_vec()];
    let sorted = strs(sort_ns_entries(items));
    assert_eq!(sorted, vec!["[a]", "[b]", "[b]"]);
    assert_eq!(strs(sort_ns_entries(Vec::new())), Vec::<String>::new());
}

#[test]
fn entry_text_compacted_to_one_line() {
    let out = compact_ns_entry_text(b"[foo.bar\n      :as   fb]");
    assert_eq!(String::from_utf8(out).unwrap(), "[foo.bar :as   fb]");
    let out = compact_ns_entry_text(b"  [a]  \n\n  ");
    assert_eq!(String::from_utf8(out).unwrap(), "[a]");
}
