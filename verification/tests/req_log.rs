use kiryuu::query::announce_reply;
use kiryuu::req_log::generate_csv;

#[test]
fn mod_is_legit() {
    assert_eq!("ip_addr,infohash", generate_csv("ip_addr", "infohash"));
    assert_eq!("1.1.1.1,abcd", generate_csv("1.1.1.1", "abcd"));

    let bytes: Vec<u8> = Vec::from([1, 2, 3, 4]);
    let p1: Vec<Vec<u8>> = vec![bytes];
    let p2: Vec<Vec<u8>> = Vec::new();
    let gg = announce_reply(1, 2, &p1, &p2);
    println!("GG is {:?}", gg);
}

#[test]
fn tests_is_legit() {
    assert_eq!("ip_addr,infohash", generate_csv("ip_addr", "infohash"));
    assert_eq!("1.1.1.1,abcd", generate_csv("1.1.1.1", "abcd"));

    let bytes: Vec<u8> = Vec::from([1, 2, 3, 4]);
    let p1: Vec<Vec<u8>> = vec![bytes];
    let p2: Vec<Vec<u8>> = Vec::new();
    let gg = announce_reply(1, 2, &p1, &p2);
    println!("GG is {:?}", gg);
}

#[test]
fn generate_csv_empty_fields() {
    assert_eq!(",", generate_csv("", ""));
}
