use http_client::header::HttpHeader;
use http_client::ordered::rank_bytes;
use http_client::ordered::rank_keys;
use http_client::ordered::OrderedMap;
use http_client::ordered::Rank;
use http_client::params::HttpParams;

#[test]
fn header_keys_are_lower_cased_on_insertion() {
    let mut header = HttpHeader::new();
    header.add("Content-Type", "text/plain");
    assert_eq!(header.to_string(), "content-type: text/plain");
    assert_eq!(header.lookup("content-type").unwrap(), "text/plain");
    assert!(header.lookup("Content-Type").is_none());
    assert_eq!(header.get("CONTENT-TYPE").unwrap(), "text/plain");
    assert_eq!(header.get("content-type").unwrap(), "text/plain");
    assert!(header.get("content-length").is_none());
}

#[test]
fn header_lower_casing_goes_beyond_ascii() {
    let mut header = HttpHeader::new();
    header.add("ÉTAT", "1");
    assert_eq!(header.to_string(), "état: 1");
    assert_eq!(header.get("État").unwrap(), "1");
}

#[test]
fn header_keeps_one_value_per_key() {
    let mut header = HttpHeader::new();
    header.add("a", "1");
    header.add("A", "2");
    header.add("a", "3");
    assert_eq!(header.len(), 1);
    assert_eq!(header.get("a").unwrap(), "3");
}

#[test]
fn header_renders_in_key_order() {
    let header = HttpHeader::from_pairs(&[
        ("zeta", "1"),
        ("Alpha", "2"),
        ("mid", "3"),
        ("alpha-2", "4"),
        ("alph", "5"),
    ]);
    assert_eq!(
        header.to_string(),
        "alph: 5\r\nalpha: 2\r\nalpha-2: 4\r\nmid: 3\r\nzeta: 1"
    );
    assert_eq!(header.len(), 5);
}

#[test]
fn header_remove_takes_the_entry_out() {
    let mut header = HttpHeader::from_pairs(&[("a", "1"), ("b", "2"), ("c", "3")]);
    header.remove("B");
    assert_eq!(header.to_string(), "a: 1\r\nc: 3");
    header.remove("missing");
    assert_eq!(header.to_string(), "a: 1\r\nc: 3");
    header.remove("a");
    header.remove("c");
    assert_eq!(header.to_string(), "");
    assert_eq!(header.len(), 0);
}

#[test]
fn header_exact_functions_take_the_key_as_it_is() {
    let mut header = HttpHeader::default();
    header.set("Key".into(), "1".into());
    header.set("key".into(), "2".into());
    assert_eq!(header.len(), 2);
    assert_eq!(header.lookup("Key").unwrap(), "1");
    assert_eq!(header.lookup("key").unwrap(), "2");
    assert_eq!(header.get("Key").unwrap(), "2");
    assert_eq!(header.to_string(), "Key: 1\r\nkey: 2");
    header.discard("Key");
    assert_eq!(header.to_string(), "key: 2");
    header.discard("KEY");
    assert_eq!(header.len(), 1);
}

#[test]
fn header_clone_is_independent() {
    let mut header = HttpHeader::from_pairs(&[("a", "1")]);
    let copy = header.clone();
    header.add("b", "2");
    assert_eq!(copy.to_string(), "a: 1");
    assert_eq!(header.to_string(), "a: 1\r\nb: 2");
}

#[test]
fn params_render_as_a_sorted_query() {
    let params = HttpParams::from_pairs(&[("name", "nvim"), ("image", "ubuntu")]);
    assert_eq!(params.to_string(), "image=ubuntu&name=nvim");
    assert_eq!(HttpParams::new().to_string(), "");
    assert_eq!(HttpParams::from_pairs(&[("k", "v")]).to_string(), "k=v");
}

#[test]
fn params_keep_their_case_and_one_value_per_key() {
    let mut params = HttpParams::new();
    params.add("b", "1");
    params.add("B", "2");
    params.add("b", "3");
    params.add("", "");
    assert_eq!(params.to_string(), "=&B=2&b=3");
    assert_eq!(params.clone().to_string(), "=&B=2&b=3");
}

#[test]
fn ordered_map_agrees_with_a_btree_map() {
    let keys = ["b", "", "a", "ab", "B", "é", "z", "a", "\u{10000}", "\u{ffff}", "aa", "b"];
    let mut ours = OrderedMap::new();
    let mut theirs = std::collections::BTreeMap::new();
    for (i, key) in keys.iter().enumerate() {
        ours.insert(key.to_string(), i.to_string());
        theirs.insert(key.to_string(), i.to_string());
        let want: Vec<String> = theirs.iter().map(|(k, v)| format!("{}>{}", k, v)).collect();
        assert_eq!(ours.render(">", "|"), want.join("|"));
        assert_eq!(ours.len(), theirs.len());
    }
    for key in ["a", "missing", "é", "", "b"] {
        assert_eq!(ours.get(key), theirs.get(key));
        ours.remove(key);
        theirs.remove(key);
        assert_eq!(ours.get(key), None);
        let want: Vec<String> = theirs.iter().map(|(k, v)| format!("{}>{}", k, v)).collect();
        assert_eq!(ours.render(">", "|"), want.join("|"));
    }
    assert_eq!(ours.clone().render("", ""), ours.render("", ""));
}

#[test]
fn keys_rank_as_their_bytes_do() {
    let words = ["", "a", "A", "ab", "b", "é", "e", "\u{7f}", "\u{80}", "\u{10000}", "\u{ffff}"];
    for a in words {
        for b in words {
            let want = match a.cmp(b) {
                std::cmp::Ordering::Less => Rank::Before,
                std::cmp::Ordering::Equal => Rank::Same,
                std::cmp::Ordering::Greater => Rank::After,
            };
            assert_eq!(rank_keys(a, b), want);
            assert_eq!(rank_bytes(a.as_bytes(), b.as_bytes()), want);
        }
    }
    assert_eq!(rank_bytes(&[1, 2], &[1, 2, 0]), Rank::Before);
    assert_eq!(rank_bytes(&[255], &[1, 2, 0]), Rank::After);
}
