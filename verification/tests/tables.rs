use spirit::gossip::{HeardTable, TableAdvert};
use spirit::mesh::OpenTable;
use spirit::tables::{TableBook, FIRST_HAND_EXPIRY_NANOS, RELAY_EXPIRY_NANOS, RELAY_EXPIRY_SECS};

const EPOCH: u64 = 1_700_000_000;
const START: u128 = 5_000_000_000_000;

fn table(name: &str) -> TableAdvert {
    TableAdvert { name: name.into() }
}

fn heard(host: &str, name: &str, heard_at: u64) -> HeardTable {
    HeardTable { host: host.into(), table: table(name), heard_at }
}

fn names(tables: &[OpenTable]) -> Vec<(String, String, bool)> {
    tables.iter().map(|t| (t.host.clone(), t.name.clone(), t.relayed)).collect()
}

fn everyone(heard: &[HeardTable]) -> Vec<bool> {
    heard.iter().map(|_| true).collect()
}

fn learn(book: &mut TableBook, sender: &str, heard: &[HeardTable], now: u128, epoch: u64) -> bool {
    book.learn(sender, heard, "me", &everyone(heard), now, epoch)
}

#[test]
fn a_table_advert_appears_and_an_unchanged_refresh_is_quiet() {
    let mut book = TableBook::default();
    let now = START;
    assert!(book.hear("aa", Some(&table("kitchen")), now, EPOCH));
    assert!(!book.hear("aa", Some(&table("kitchen")), now, EPOCH + 5));
    assert!(book.hear("aa", Some(&table("porch")), now, EPOCH));
    assert_eq!(names(&book.live(now, EPOCH)), vec![("aa".to_string(), "porch".to_string(), false)]);
}

#[test]
fn a_withdrawn_table_disappears_immediately() {
    let mut book = TableBook::default();
    let now = START;
    book.hear("aa", Some(&table("kitchen")), now, EPOCH);
    assert!(book.hear("aa", None, now, EPOCH));
    assert!(!book.hear("aa", None, now, EPOCH));
    assert!(book.live(now, EPOCH).is_empty());
}

#[test]
fn a_silent_host_expires_and_a_refreshed_one_does_not() {
    let mut book = TableBook::default();
    let start = START;
    book.hear("aa", Some(&table("stale")), start, EPOCH);
    book.hear("bb", Some(&table("fresh")), start, EPOCH);
    let later = start + FIRST_HAND_EXPIRY_NANOS;
    book.hear("bb", Some(&table("fresh")), later, EPOCH + 150);
    assert_eq!(
        names(&book.live(later, EPOCH + 150)),
        vec![("bb".to_string(), "fresh".to_string(), false)]
    );
}

#[test]
fn a_relayed_table_is_learned_listed_and_relayed_onward_with_its_original_timestamp() {
    let mut book = TableBook::default();
    let now = START;
    let changed = learn(&mut book, "relay", &[heard("host", "porch", EPOCH - 10)], now, EPOCH);
    assert!(changed);
    assert_eq!(names(&book.live(now, EPOCH)), vec![("host".to_string(), "porch".to_string(), true)]);
    assert_eq!(book.relay(now, EPOCH), vec![heard("host", "porch", EPOCH - 10)]);
    let again = learn(&mut book, "relay", &[heard("host", "porch", EPOCH - 10)], now, EPOCH + 1);
    assert!(!again);
}

#[test]
fn our_own_table_and_the_senders_own_table_are_never_learned_second_hand() {
    let mut book = TableBook::default();
    let now = START;
    let changed = learn(
        &mut book,
        "relay",
        &[heard("me", "mine", EPOCH), heard("relay", "theirs", EPOCH)],
        now,
        EPOCH,
    );
    assert!(!changed);
    assert!(book.live(now, EPOCH).is_empty());
    assert!(book.relay(now, EPOCH).is_empty());
}

#[test]
fn an_unknown_host_is_not_learned() {
    let mut book = TableBook::default();
    let now = START;
    let entries = [heard("stranger", "porch", EPOCH)];
    let known: Vec<bool> = entries.iter().map(|h| h.host != "stranger").collect();
    let changed = book.learn("relay", &entries, "me", &known, now, EPOCH);
    assert!(!changed);
    assert!(book.live(now, EPOCH).is_empty());
}

#[test]
fn a_relayed_table_expires_by_its_heard_at_and_by_when_we_learned_it() {
    let mut book = TableBook::default();
    let now = START;
    assert!(!learn(&mut book, "relay", &[heard("old", "porch", EPOCH - RELAY_EXPIRY_SECS)], now, EPOCH));
    assert!(learn(&mut book, "relay", &[heard("host", "porch", EPOCH - 1)], now, EPOCH));
    assert_eq!(book.live(now, EPOCH).len(), 1);
    assert!(book.live(now, EPOCH + RELAY_EXPIRY_SECS).is_empty());
    assert!(book.live(now + RELAY_EXPIRY_NANOS, EPOCH + 1).is_empty());
    assert!(book.relay(now + RELAY_EXPIRY_NANOS, EPOCH + 1).is_empty());
}

#[test]
fn hearsay_dedupes_by_host_and_table_keeping_the_newest_timestamp() {
    let mut book = TableBook::default();
    let now = START;
    learn(&mut book, "b", &[heard("host", "porch", EPOCH - 20)], now, EPOCH);
    learn(&mut book, "c", &[heard("host", "porch", EPOCH - 5)], now, EPOCH);
    learn(&mut book, "d", &[heard("host", "porch", EPOCH - 30)], now, EPOCH);
    assert_eq!(book.live(now, EPOCH).len(), 1);
    assert_eq!(book.relay(now, EPOCH), vec![heard("host", "porch", EPOCH - 5)]);
}

#[test]
fn a_first_hand_advert_supersedes_hearsay_about_the_same_host() {
    let mut book = TableBook::default();
    let now = START;
    learn(&mut book, "relay", &[heard("host", "old-name", EPOCH - 5)], now, EPOCH);
    assert!(book.hear("host", Some(&table("new-name")), now, EPOCH));
    assert_eq!(names(&book.live(now, EPOCH)), vec![("host".to_string(), "new-name".to_string(), false)]);
    assert!(!learn(&mut book, "relay", &[heard("host", "old-name", EPOCH - 5)], now, EPOCH));
    assert_eq!(book.live(now, EPOCH).len(), 1);
}

#[test]
fn a_clean_withdrawal_outranks_stale_hearsay_but_not_a_reopened_table() {
    let mut book = TableBook::default();
    let now = START;
    book.hear("host", Some(&table("porch")), now, EPOCH);
    assert!(book.hear("host", None, now, EPOCH + 10));
    assert!(!learn(&mut book, "relay", &[heard("host", "porch", EPOCH + 5)], now, EPOCH + 12));
    assert!(book.live(now, EPOCH + 12).is_empty());
    assert!(learn(&mut book, "relay", &[heard("host", "porch", EPOCH + 20)], now, EPOCH + 25));
    assert_eq!(book.live(now, EPOCH + 25).len(), 1);
}

#[test]
fn hearsay_replaces_a_first_hand_advert_that_went_silent() {
    let mut book = TableBook::default();
    let start = START;
    book.hear("host", Some(&table("porch")), start, EPOCH);
    let later = start + FIRST_HAND_EXPIRY_NANOS;
    let epoch = EPOCH + 150;
    assert!(book.live(later, epoch).is_empty());
    assert!(learn(&mut book, "relay", &[heard("host", "porch", epoch - 3)], later, epoch));
    assert_eq!(names(&book.live(later, epoch)), vec![("host".to_string(), "porch".to_string(), true)]);
}

#[test]
fn forgetting_a_peer_drops_its_tables_from_both_books() {
    let mut book = TableBook::default();
    let now = START;
    book.hear("direct", Some(&table("a")), now, EPOCH);
    learn(&mut book, "relay", &[heard("far", "b", EPOCH)], now, EPOCH);
    assert_eq!(book.live(now, EPOCH).len(), 2);
    assert!(book.forget("direct", now, EPOCH));
    assert!(book.forget("far", now, EPOCH));
    assert!(!book.forget("far", now, EPOCH));
    assert!(book.live(now, EPOCH).is_empty());
}

#[test]
fn tables_list_in_order_of_host_then_name() {
    let mut book = TableBook::default();
    let now = START;
    book.hear("bb", Some(&table("x")), now, EPOCH);
    learn(&mut book, "relay", &[heard("cc", "z", EPOCH), heard("cc", "a", EPOCH), heard("aa", "m", EPOCH)], now, EPOCH);
    assert_eq!(
        names(&book.live(now, EPOCH)),
        vec![
            ("aa".to_string(), "m".to_string(), true),
            ("bb".to_string(), "x".to_string(), false),
            ("cc".to_string(), "a".to_string(), true),
            ("cc".to_string(), "z".to_string(), true),
        ]
    );
    assert!(spirit::tables::fresh(EPOCH - 299, EPOCH));
    assert!(!spirit::tables::fresh(EPOCH - 300, EPOCH));
    assert!(spirit::tables::fresh(EPOCH + 10, EPOCH));
}
