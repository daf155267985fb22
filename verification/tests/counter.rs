use xiaozhongsi::book::{bell_line, incense_line, Book, Stat, KEEP_DAYS};
use xiaozhongsi::calendar::{civil_from_days, date_str};
use xiaozhongsi::counter::Counter;

const TODAY: i64 = 20_000;

fn fresh() -> Counter {
    Counter::new("salt".to_string(), Book::new(), Book::new())
}

/// The counter read back from the two logs, as on a restart.
fn reopen(bell_log: &str, incense_log: &str) -> Counter {
    let (bell, _) = Book::load(bell_log);
    let (incense, _) = Book::load(incense_log);
    Counter::new("salt".to_string(), bell, incense)
}

#[test]
fn civil_dates_are_right() {
    assert_eq!(civil_from_days(0), (1970, 1, 1));
    assert_eq!(civil_from_days(19_723), (2024, 1, 1));
    assert_eq!(civil_from_days(19_782), (2024, 2, 29));
    assert_eq!(civil_from_days(20_657), (2026, 7, 23));
}

#[test]
fn rank_sticks_and_visits_accumulate() {
    let mut c = fresh();
    let mut log = String::new();
    let a = c.ring(TODAY, "1.1.1.1");
    log.push_str(&a.line);
    let b = c.ring(TODAY, "2.2.2.2");
    log.push_str(&b.line);
    let a2 = c.ring(TODAY, "1.1.1.1");
    log.push_str(&a2.line);

    assert_eq!((a.stat.rank, a.stat.visits), (1, 1));
    assert_eq!((b.stat.rank, b.stat.visits), (2, 1));
    assert_eq!((a2.stat.rank, a2.stat.visits), (1, 2));

    let mut c = reopen(&log, "");
    let a3 = c.ring(TODAY, "1.1.1.1");
    assert_eq!((a3.stat.rank, a3.stat.visits), (1, 3));
    let d = c.ring(TODAY, "3.3.3.3");
    assert_eq!((d.stat.rank, d.stat.visits), (3, 1));
}

#[test]
fn streak_counts_consecutive_days() {
    let mut c = fresh();
    assert_eq!(c.ring(TODAY - 2, "1.1.1.1").stat.streak, 1);
    let yesterday = c.ring(TODAY - 1, "1.1.1.1");
    assert_eq!(yesterday.stat.streak, 2);
    let today = c.ring(TODAY, "1.1.1.1");
    assert_eq!(today.stat.streak, 3);

    let id = c.id_of("1.1.1.1");
    let broken = format!("{}\t{id}\t1\t1\n{}\t{id}\t1\t1\n", date_str(TODAY - 2), date_str(TODAY));
    let mut c = reopen(&broken, "");
    assert_eq!(c.ring(TODAY, "1.1.1.1").stat.streak, 1);
    assert_eq!(c.burn(TODAY, "1.1.1.1").stat.streak, 1);
}

#[test]
fn bell_and_incense_count_separately() {
    let mut c = fresh();
    let (mut bell_log, mut incense_log) = (String::new(), String::new());
    let r = c.ring(TODAY, "1.1.1.1");
    assert_eq!(r.stat.visits, 1);
    bell_log.push_str(&r.line);
    let r = c.ring(TODAY, "1.1.1.1");
    assert_eq!(r.stat.visits, 2);
    bell_log.push_str(&r.line);
    let burn = c.burn(TODAY, "1.1.1.1");
    assert_eq!((burn.stat.rank, burn.stat.visits), (1, 1));
    incense_log.push_str(&burn.line);

    let mut c = reopen(&bell_log, &incense_log);
    assert_eq!(c.ring(TODAY, "1.1.1.1").stat.visits, 3);
    assert_eq!(c.burn(TODAY, "1.1.1.1").stat.visits, 2);
}

#[test]
fn log_is_compacted_to_one_line_per_pilgrim() {
    let mut c = fresh();
    let mut log = String::new();
    for _ in 0..10 {
        log.push_str(&c.ring(TODAY, "1.1.1.1").line);
    }
    log.push_str(&c.ring(TODAY, "2.2.2.2").line);
    assert_eq!(log.lines().count(), 11);

    let (book, lines) = Book::load(&log);
    assert_eq!(lines, 11);
    let compacted = book.rewrite_if_needed(lines).expect("eleven lines for two pilgrims");
    assert_eq!(compacted.lines().count(), 2);
    let (again, lines) = Book::load(&compacted);
    assert_eq!(lines, 2);
    assert_eq!(again.rewrite_if_needed(lines), None);
    let mut c = Counter::new("salt".to_string(), again, Book::new());
    assert_eq!(c.ring(TODAY, "1.1.1.1").stat.visits, 11);
}

#[test]
fn old_three_column_log_still_loads() {
    let legacy = format!("{}\tdeadbeefdeadbeef\t1\n", date_str(TODAY));
    let mut c = reopen(&legacy, "");
    let next = c.ring(TODAY, "1.1.1.1");
    assert_eq!((next.stat.rank, next.stat.visits), (2, 1));
}

#[test]
fn id_is_salted_short_hash() {
    let c = fresh();
    assert_eq!(c.id_of("1.1.1.1"), "9a66349ba3628b0c");
    let other = Counter::new("pepper".to_string(), Book::new(), Book::new());
    assert_ne!(other.id_of("1.1.1.1"), c.id_of("1.1.1.1"));
}

#[test]
fn log_line_layout() {
    let mut c = fresh();
    let r = c.ring(TODAY, "1.1.1.1");
    assert_eq!(r.line, "2024-10-04\t9a66349ba3628b0c\t1\t1\n");
    assert!(!r.pruned);
}

#[test]
fn old_days_are_dropped() {
    let mut book = Book::new();
    for back in (0..KEEP_DAYS as i64).rev() {
        assert!(!book.record(TODAY - back, "a").pruned);
    }
    assert_eq!(book.day_count(), KEEP_DAYS);
    let r = book.record(TODAY + 1, "a");
    assert!(r.pruned);
    assert_eq!(book.day_count(), KEEP_DAYS);
    assert_eq!(r.stat.streak, KEEP_DAYS as u64);
    assert!(!book.text().contains(&date_str(TODAY - KEEP_DAYS as i64 + 1)));
    assert!(book.text().contains(&date_str(TODAY - KEEP_DAYS as i64 + 2)));
}

#[test]
fn book_text_reads_back_as_written() {
    let mut book = Book::new();
    book.record(TODAY - 1, "b");
    book.record(TODAY, "a");
    book.record(TODAY, "b");
    book.record(TODAY, "a");
    let text = book.text();
    assert_eq!(
        text,
        format!("{}\tb\t1\t1\n{}\ta\t1\t2\n{}\tb\t2\t1\n", date_str(TODAY - 1), date_str(TODAY), date_str(TODAY))
    );
    let (again, lines) = Book::load(&text);
    assert_eq!(lines, 3);
    assert_eq!(again.text(), text);
    assert_eq!(again.pilgrim_count(), 3);
}

#[test]
fn unreadable_log_lines_are_skipped() {
    let (book, lines) = Book::load("2024-10-04\ta\tx\n2024-10-04\n\n2024-10-04\tb\t+7\tnope\n");
    assert_eq!(lines, 1);
    assert_eq!(book.text(), "2024-10-04\tb\t7\t1\n");
}

#[test]
fn can_record_refuses_overflow() {
    let (book, _) = Book::load(&format!("{}\ta\t1\t18446744073709551615\n", date_str(TODAY)));
    assert!(!book.can_record(TODAY, "a"));
    assert!(book.can_record(TODAY, "b"));
    assert!(book.can_record(TODAY + 1, "a"));
}

#[test]
fn blessing_lines() {
    let first = Stat { rank: 3, visits: 1, streak: 1 };
    assert_eq!(bell_line(&first), "你是今天第 3 位撞鐘");
    assert_eq!(incense_line(&first), "你是今天第 3 位燒香");
    let again = Stat { rank: 3, visits: 2, streak: 4 };
    assert_eq!(bell_line(&again), "你今天第 2 次撞鐘 · 已連續撞鐘 4 天");
    assert_eq!(incense_line(&again), "你今天第 2 炷香 · 已連續燒香 4 天");
}

#[test]
fn dates_are_padded() {
    assert_eq!(date_str(0), "1970-01-01");
    assert_eq!(date_str(-1), "1969-12-31");
    assert_eq!(date_str(19_782), "2024-02-29");
    assert_eq!(date_str(TODAY), "2024-10-04");
}
