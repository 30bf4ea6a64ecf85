use chrono::{Datelike, NaiveDate};
use hindsight::aggregate::{
    aggregate, daily_totals, export_rows, is_allowed, parse_author_filter, tsv_document,
    tsv_line, AggregationKey, ExportRow, TotalStats,
};
use hindsight::analyzer::{
    analyze_repo, AuthorDay, CommitRecord, DayStats, DiffSize, History, RepoStats,
};
use hindsight::calendar::{Date, TimeWindow};
use hindsight::ledger::Ledger;

fn day(y: i32, m: u32, d: u32) -> Date {
    let n = NaiveDate::from_ymd_opt(y, m, d).unwrap().num_days_from_ce();
    Date::from_days_from_ce(n).unwrap()
}

fn commit(date: Date, author: &str, lines: usize) -> CommitRecord {
    CommitRecord {
        date,
        author: Some(author.to_string()),
        diff: Some(DiffSize { insertions: lines, deletions: 0 }),
    }
}

fn repo(entries: &[(Date, &str, usize, usize)]) -> RepoStats {
    let mut stats: RepoStats = Ledger::new();
    for (date, author, commits, lines_changed) in entries {
        let key = AuthorDay { date: *date, author: author.to_string() };
        assert!(stats.credit(key, DayStats { commits: *commits, lines_changed: *lines_changed }));
    }
    stats
}

fn key(date: Date, project: &str, author: &str) -> AggregationKey {
    AggregationKey { date, project: project.to_string(), author: author.to_string() }
}

fn same_table(a: &TotalStats, b: &TotalStats) -> bool {
    a.len() == b.len()
        && (0..a.len()).all(|i| a.key_at(i) == b.key_at(i) && a.stats_at(i) == b.stats_at(i))
}

fn names(list: &[&str]) -> Vec<String> {
    list.iter().map(|s| s.to_string()).collect()
}

#[test]
fn filter_list_is_split_trimmed_and_cleared_of_empty_entries() {
    assert_eq!(parse_author_filter("Alice,Bob"), names(&["Alice", "Bob"]));
    assert_eq!(parse_author_filter("  Alice ,\tBob\n"), names(&["Alice", "Bob"]));
    assert_eq!(parse_author_filter("Alice,,Bob,"), names(&["Alice", "Bob"]));
    assert_eq!(parse_author_filter(" , ,"), names(&[]));
    assert_eq!(parse_author_filter(""), names(&[]));
    assert_eq!(parse_author_filter("Ada Lovelace"), names(&["Ada Lovelace"]));
    assert_eq!(parse_author_filter(" Ada  Lovelace , x"), names(&["Ada  Lovelace", "x"]));
    assert_eq!(parse_author_filter("\u{a0}Zo\u{eb}\u{3000},\u{2003}"), names(&["Zo\u{eb}"]));
    assert_eq!(parse_author_filter("a,a"), names(&["a", "a"]));
}

#[test]
fn filter_list_agrees_with_split_and_trim() {
    for list in ["", ",", "a", " a , b ,c", ",,x,, y ,", "  ", "\u{85}n\u{1680},m\u{feff}", "q,"] {
        let expected: Vec<String> = list
            .split(',')
            .map(|name| name.trim().to_string())
            .filter(|name| !name.is_empty())
            .collect();
        assert_eq!(parse_author_filter(list), expected);
    }
}

#[test]
fn filter_matches_exactly_and_by_case() {
    let filter = Some(parse_author_filter(" Alice , Bob"));
    assert!(is_allowed(&filter, "Alice"));
    assert!(is_allowed(&filter, "Bob"));
    assert!(!is_allowed(&filter, "alice"));
    assert!(!is_allowed(&filter, "Alice "));
    assert!(!is_allowed(&filter, "Alic"));
    assert!(!is_allowed(&filter, "Carol"));
    assert!(!is_allowed(&filter, ""));
    assert!(is_allowed(&None, "Carol"));
    assert!(is_allowed(&None, ""));
    assert!(!is_allowed(&Some(vec![]), "Carol"));
}

#[test]
fn two_projects_with_one_commit_each_stay_two_entries() {
    let d = day(2024, 3, 10);
    let w = TimeWindow::ending(day(2024, 3, 31), 30).unwrap();
    let a = analyze_repo(&History::Commits(vec![commit(d, "Bob", 5)]), &w).unwrap();
    let b = analyze_repo(&History::Commits(vec![commit(d, "Bob", 5)]), &w).unwrap();
    let total = aggregate(Ledger::new(), "proj-a", &a, &None).unwrap();
    let total = aggregate(total, "proj-b", &b, &None).unwrap();
    assert_eq!(total.len(), 2);
    assert_eq!(total.key_at(0), &key(d, "proj-a", "Bob"));
    assert_eq!(total.key_at(1), &key(d, "proj-b", "Bob"));
    assert_eq!(total.stats_at(0), DayStats { commits: 1, lines_changed: 5 });
    assert_eq!(total.stats_at(1), DayStats { commits: 1, lines_changed: 5 });
}

#[test]
fn filter_for_alice_leaves_bob_out_of_totals() {
    let today = day(2024, 3, 31);
    let w = TimeWindow::ending(today, 30).unwrap();
    let history = History::Commits(vec![
        commit(day(2024, 3, 30), "Bob", 100),
        commit(day(2024, 3, 30), "Alice", 7),
        commit(day(2024, 3, 12), "Bob", 50),
        commit(day(2024, 3, 12), "Alice", 3),
        commit(day(2024, 3, 11), "Bob", 1),
    ]);
    let stats = analyze_repo(&history, &w).unwrap();
    let filter = Some(parse_author_filter("Alice"));
    let total = aggregate(Ledger::new(), "proj", &stats, &filter).unwrap();
    assert_eq!(total.len(), 2);
    for i in 0..total.len() {
        assert_eq!(total.key_at(i).author, "Alice");
    }
    let days = daily_totals(&total).unwrap();
    assert_eq!(days.len(), 2);
    assert_eq!(days.get(&day(2024, 3, 30)), Some(DayStats { commits: 1, lines_changed: 7 }));
    assert_eq!(days.get(&day(2024, 3, 12)), Some(DayStats { commits: 1, lines_changed: 3 }));
    assert_eq!(days.get(&day(2024, 3, 11)), None);
    assert_eq!(hindsight::tui::total(&days, hindsight::tui::Metric::Commits), 2);
    assert_eq!(hindsight::tui::total(&days, hindsight::tui::Metric::LinesChanged), 10);
}

#[test]
fn repositories_of_one_name_are_summed() {
    let d = day(2024, 3, 10);
    let a = repo(&[(d, "Bob", 1, 5), (d, "Alice", 2, 6)]);
    let b = repo(&[(d, "Bob", 3, 7)]);
    let total = aggregate(Ledger::new(), "proj", &a, &None).unwrap();
    let total = aggregate(total, "proj", &b, &None).unwrap();
    assert_eq!(total.len(), 2);
    assert_eq!(total.get(&key(d, "proj", "Bob")), Some(DayStats { commits: 4, lines_changed: 12 }));
    assert_eq!(
        total.get(&key(d, "proj", "Alice")),
        Some(DayStats { commits: 2, lines_changed: 6 })
    );
}

#[test]
fn merging_in_any_order_gives_the_same_table() {
    let d1 = day(2024, 3, 10);
    let d2 = day(2024, 3, 11);
    let a = repo(&[(d1, "Bob", 1, 5), (d2, "Alice", 2, 6)]);
    let b = repo(&[(d1, "Bob", 3, 7), (d1, "Carol", 1, 1)]);
    let c = repo(&[(d2, "Alice", 4, 4)]);
    let order = |list: [(&str, &RepoStats); 3]| {
        let mut total: TotalStats = Ledger::new();
        for (project, stats) in list {
            total = aggregate(total, project, stats, &None).unwrap();
        }
        total
    };
    let abc = order([("x", &a), ("x", &b), ("y", &c)]);
    let cab = order([("y", &c), ("x", &a), ("x", &b)]);
    let bca = order([("x", &b), ("y", &c), ("x", &a)]);
    assert!(same_table(&abc, &cab));
    assert!(same_table(&abc, &bca));
    assert_eq!(abc.len(), 4);
    assert_eq!(abc.get(&key(d1, "x", "Bob")), Some(DayStats { commits: 4, lines_changed: 12 }));
    // The same inputs merged once more give the same table once more.
    let again = order([("x", &a), ("x", &b), ("y", &c)]);
    assert!(same_table(&abc, &again));
}

#[test]
fn heading_totals_are_the_sums_over_the_kept_entries() {
    let d1 = day(2024, 3, 10);
    let d2 = day(2024, 3, 11);
    let a = repo(&[(d1, "Bob", 1, 5), (d2, "Alice", 2, 6), (d2, "Carol", 9, 9)]);
    let b = repo(&[(d1, "Bob", 3, 7), (d1, "Alice", 1, 1)]);
    let filter = Some(names(&["Alice", "Bob"]));
    let total = aggregate(Ledger::new(), "a", &a, &filter).unwrap();
    let total = aggregate(total, "b", &b, &filter).unwrap();
    let mut commits: u128 = 0;
    let mut lines: u128 = 0;
    for i in 0..total.len() {
        assert!(total.key_at(i).author != "Carol");
        commits += total.stats_at(i).commits as u128;
        lines += total.stats_at(i).lines_changed as u128;
    }
    assert_eq!(commits, 7);
    assert_eq!(lines, 19);
    let days = daily_totals(&total).unwrap();
    assert_eq!(hindsight::tui::total(&days, hindsight::tui::Metric::Commits), commits);
    assert_eq!(hindsight::tui::total(&days, hindsight::tui::Metric::LinesChanged), lines);
}

#[test]
fn groups_of_repositories_merge_to_the_same_table() {
    let d1 = day(2024, 3, 10);
    let d2 = day(2024, 3, 11);
    let a = repo(&[(d1, "Bob", 1, 5), (d2, "Alice", 2, 6)]);
    let b = repo(&[(d1, "Bob", 3, 7), (d1, "Carol", 1, 1)]);
    let c = repo(&[(d2, "Alice", 4, 4)]);
    let d = repo(&[(d1, "Bob", 1, 1)]);
    let list: [(&str, &RepoStats); 4] = [("x", &a), ("x", &b), ("y", &c), ("y", &d)];
    let build = |order: &[usize]| {
        let mut total: TotalStats = Ledger::new();
        for i in order {
            total = aggregate(total, list[*i].0, list[*i].1, &None).unwrap();
        }
        total
    };
    let straight = build(&[0, 1, 2, 3]);
    for order in [[3, 2, 1, 0], [1, 3, 0, 2], [2, 0, 3, 1], [0, 2, 1, 3]] {
        assert!(same_table(&straight, &build(&order)));
    }
    assert_eq!(build(&[]).len(), 0);
    // Two groups, each merged by itself, hold between them what the whole
    // list holds.
    let left = build(&[0, 1]);
    let right = build(&[2, 3]);
    for i in 0..straight.len() {
        let k = straight.key_at(i);
        let l = left.get(k).unwrap_or_default();
        let r = right.get(k).unwrap_or_default();
        assert_eq!(straight.stats_at(i), l.checked_add(&r).unwrap());
    }
}

#[test]
fn merge_past_usize_gives_none() {
    let d = day(2024, 3, 10);
    let a = repo(&[(d, "Bob", usize::MAX, 0)]);
    let b = repo(&[(d, "Bob", 1, 0)]);
    let total = aggregate(Ledger::new(), "p", &a, &None).unwrap();
    assert!(aggregate(total, "p", &b, &None).is_none());
    let total = aggregate(Ledger::new(), "p", &a, &None).unwrap();
    assert!(aggregate(total, "q", &b, &None).is_some());
    let total = aggregate(Ledger::new(), "p", &a, &None).unwrap();
    let filter = Some(names(&["Alice"]));
    assert!(aggregate(total, "p", &b, &filter).is_some());
}

#[test]
fn daily_totals_sum_over_projects_and_authors() {
    let d1 = day(2024, 3, 10);
    let d2 = day(2024, 3, 11);
    let a = repo(&[(d1, "Bob", 1, 5), (d2, "Alice", 2, 6)]);
    let b = repo(&[(d1, "Bob", 3, 7), (d1, "Carol", 1, 1)]);
    let total = aggregate(Ledger::new(), "a", &a, &None).unwrap();
    let total = aggregate(total, "b", &b, &None).unwrap();
    let days = daily_totals(&total).unwrap();
    assert_eq!(days.len(), 2);
    assert_eq!(days.key_at(0), &d1);
    assert_eq!(days.key_at(1), &d2);
    assert_eq!(days.get(&d1), Some(DayStats { commits: 5, lines_changed: 13 }));
    assert_eq!(days.get(&d2), Some(DayStats { commits: 2, lines_changed: 6 }));
    let empty: TotalStats = Ledger::new();
    assert_eq!(daily_totals(&empty).unwrap().len(), 0);
}

#[test]
fn daily_totals_past_usize_give_none() {
    let d = day(2024, 3, 10);
    let a = repo(&[(d, "Bob", 1, usize::MAX)]);
    let b = repo(&[(d, "Bob", 1, 1)]);
    let total = aggregate(Ledger::new(), "a", &a, &None).unwrap();
    let total = aggregate(total, "b", &b, &None).unwrap();
    assert!(daily_totals(&total).is_none());
}

#[test]
fn export_lists_active_rows_by_day_project_author() {
    let d1 = day(2024, 3, 10);
    let d2 = day(2024, 3, 11);
    let zeta = repo(&[(d2, "Alice", 1, 1), (d1, "bob", 2, 0), (d1, "Bob", 0, 3), (d1, "Idle", 0, 0)]);
    let alpha = repo(&[(d2, "Zed", 1, 0), (d1, "Zed", 4, 9)]);
    let total = aggregate(Ledger::new(), "zeta", &zeta, &None).unwrap();
    let total = aggregate(total, "alpha", &alpha, &None).unwrap();
    assert_eq!(total.len(), 6);
    let rows = export_rows(&total);
    let listed: Vec<(Date, &str, &str)> =
        rows.iter().map(|r| (r.date, r.project.as_str(), r.author.as_str())).collect();
    assert_eq!(
        listed,
        vec![
            (d1, "alpha", "Zed"),
            (d1, "zeta", "Bob"),
            (d1, "zeta", "bob"),
            (d2, "alpha", "Zed"),
            (d2, "zeta", "Alice"),
        ]
    );
    assert_eq!(rows[0].commits, 4);
    assert_eq!(rows[0].lines_changed, 9);
    assert_eq!(rows[1].commits, 0);
    assert_eq!(rows[1].lines_changed, 3);
    let mut keys: Vec<(NaiveDate, String, String)> = Vec::new();
    for i in 0..total.len() {
        let k = total.key_at(i);
        let date = NaiveDate::from_num_days_from_ce_opt(k.date.days_from_ce()).unwrap();
        keys.push((date, k.project.clone(), k.author.clone()));
    }
    let mut sorted = keys.clone();
    sorted.sort();
    assert_eq!(keys, sorted);
}

#[test]
fn tsv_line_has_five_columns_with_tabs() {
    let row = ExportRow {
        date: day(2024, 3, 5),
        project: "proj-a".to_string(),
        commits: 3,
        lines_changed: 1204,
        author: "Ada Lovelace".to_string(),
    };
    assert_eq!(tsv_line(&row), "2024-03-05\tproj-a\t3\t1204\tAda Lovelace\n");
    let zero = ExportRow {
        date: day(1999, 12, 31),
        project: String::new(),
        commits: 0,
        lines_changed: usize::MAX,
        author: String::new(),
    };
    assert_eq!(tsv_line(&zero), format!("1999-12-31\t\t0\t{}\t\n", usize::MAX));
}

#[test]
fn tsv_document_starts_with_the_heading() {
    assert_eq!(tsv_document(&vec![]), "Date\tProject\tCommits\tLines\tAuthor\n");
    let d = day(2024, 3, 10);
    let a = repo(&[(d, "Bob", 1, 5), (d, "Alice", 2, 6)]);
    let total = aggregate(Ledger::new(), "p", &a, &None).unwrap();
    let text = tsv_document(&export_rows(&total));
    assert_eq!(
        text,
        "Date\tProject\tCommits\tLines\tAuthor\n2024-03-10\tp\t2\t6\tAlice\n2024-03-10\tp\t1\t5\tBob\n"
    );
}
