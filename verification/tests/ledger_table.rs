use hindsight::analyzer::{AuthorDay, DayStats};
use hindsight::calendar::Date;
use hindsight::ledger::{key_before, key_same, Ledger};
use hindsight::text::{chars_of, decimal_text, is_whitespace, text_before, text_same};

fn key(n: i32, author: &str) -> AuthorDay {
    AuthorDay { date: Date::from_days_from_ce(n).unwrap(), author: author.to_string() }
}

#[test]
fn new_table_is_empty() {
    let t: Ledger<AuthorDay> = Ledger::new();
    assert_eq!(t.len(), 0);
    assert_eq!(t.get(&key(1, "a")), None);
}

#[test]
fn credit_adds_to_the_entry_of_the_key() {
    let mut t: Ledger<AuthorDay> = Ledger::new();
    assert!(t.credit(key(5, "a"), DayStats { commits: 1, lines_changed: 10 }));
    assert!(t.credit(key(5, "a"), DayStats { commits: 2, lines_changed: 5 }));
    assert!(t.credit(key(5, "b"), DayStats { commits: 7, lines_changed: 0 }));
    assert_eq!(t.len(), 2);
    assert_eq!(t.get(&key(5, "a")), Some(DayStats { commits: 3, lines_changed: 15 }));
    assert_eq!(t.get(&key(5, "b")), Some(DayStats { commits: 7, lines_changed: 0 }));
    assert_eq!(t.get(&key(6, "a")), None);
    assert_eq!(t.get(&key(5, "")), None);
}

#[test]
fn credit_that_overflows_changes_nothing() {
    let mut t: Ledger<AuthorDay> = Ledger::new();
    assert!(t.credit(key(5, "a"), DayStats { commits: usize::MAX - 1, lines_changed: 10 }));
    assert!(!t.credit(key(5, "a"), DayStats { commits: 2, lines_changed: 0 }));
    assert!(!t.credit(key(5, "a"), DayStats { commits: 0, lines_changed: usize::MAX }));
    assert_eq!(t.len(), 1);
    assert_eq!(t.get(&key(5, "a")), Some(DayStats { commits: usize::MAX - 1, lines_changed: 10 }));
    assert!(t.credit(key(5, "a"), DayStats { commits: 1, lines_changed: 0 }));
    assert_eq!(t.get(&key(5, "a")), Some(DayStats { commits: usize::MAX, lines_changed: 10 }));
}

#[test]
fn rows_stand_in_key_order_whatever_the_order_of_credits() {
    let keys = [key(9, "b"), key(3, "z"), key(9, "a"), key(3, ""), key(-4, "m"), key(9, "ab")];
    let mut t: Ledger<AuthorDay> = Ledger::new();
    for (i, k) in keys.iter().enumerate() {
        assert!(t.credit(k.clone(), DayStats { commits: i, lines_changed: 0 }));
    }
    let listed: Vec<AuthorDay> = (0..t.len()).map(|i| t.key_at(i).clone()).collect();
    assert_eq!(
        listed,
        vec![key(-4, "m"), key(3, ""), key(3, "z"), key(9, "a"), key(9, "ab"), key(9, "b")]
    );
    let mut r: Ledger<AuthorDay> = Ledger::new();
    for (i, k) in keys.iter().enumerate().rev() {
        assert!(r.credit(k.clone(), DayStats { commits: i, lines_changed: 0 }));
    }
    assert_eq!(r.len(), t.len());
    for i in 0..t.len() {
        assert_eq!(r.key_at(i), t.key_at(i));
        assert_eq!(r.stats_at(i), t.stats_at(i));
    }
}

#[test]
fn keys_compare_by_day_then_text() {
    assert!(key_before(&key(1, "z"), &key(2, "a")));
    assert!(!key_before(&key(2, "a"), &key(1, "z")));
    assert!(key_before(&key(2, "a"), &key(2, "b")));
    assert!(!key_before(&key(2, "a"), &key(2, "a")));
    assert!(key_same(&key(2, "a"), &key(2, "a")));
    assert!(!key_same(&key(2, "a"), &key(2, "A")));
    assert!(!key_same(&key(2, "a"), &key(3, "a")));
}

#[test]
fn text_order_is_the_order_of_strings() {
    let words = ["", "a", "A", "ab", "abc", "abd", "b", "Z", "\u{e9}", "z\u{10000}", "z\u{ffff}"];
    for a in words {
        for b in words {
            assert_eq!(text_before(a, b), a < b, "{:?} {:?}", a, b);
            assert_eq!(text_same(a, b), a == b, "{:?} {:?}", a, b);
        }
    }
}

#[test]
fn chars_and_digits() {
    assert_eq!(chars_of("h\u{e9}!"), vec!['h', '\u{e9}', '!']);
    assert_eq!(chars_of(""), Vec::<char>::new());
    assert_eq!(decimal_text(0), "0");
    assert_eq!(decimal_text(7), "7");
    assert_eq!(decimal_text(10), "10");
    assert_eq!(decimal_text(1234567890), "1234567890");
    assert_eq!(decimal_text(u128::MAX), u128::MAX.to_string());
}

#[test]
fn white_space_is_what_char_says() {
    let mut n: u32 = 0;
    while n <= 0x11000 {
        if let Some(c) = char::from_u32(n) {
            assert_eq!(is_whitespace(c), c.is_whitespace(), "{:#x}", n);
        }
        n += 1;
    }
}
