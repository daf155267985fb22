use xiaozhongsi::avatars::Avatars;

/// Writes down the line a pick returns, as the log would.
fn pick(a: &mut Avatars, log: &mut String, id: &str, face: usize) {
    if let Some(line) = a.set(id, face) {
        log.push_str(&line);
    }
}

#[test]
fn remembers_and_compacts() {
    let mut log = String::new();
    let mut a = Avatars::load(&log);
    assert_eq!(a.get("abc"), None);
    pick(&mut a, &mut log, "abc", 3);
    pick(&mut a, &mut log, "def", 7);
    pick(&mut a, &mut log, "abc", 5);
    assert_eq!(a.get("abc"), Some(5));

    let a = Avatars::load(&log);
    assert_eq!(a.get("abc"), Some(5));
    assert_eq!(a.get("def"), Some(7));
    assert_eq!(log.lines().count(), 3);
    let compacted = a.compact_if_needed(&log).expect("three lines for two ids");
    assert_eq!(compacted.lines().count(), 2);
    let b = Avatars::load(&compacted);
    assert_eq!(b.get("abc"), Some(5));
    assert_eq!(b.get("def"), Some(7));
    assert_eq!(b.compact_if_needed(&compacted), None);
}

#[test]
fn same_face_again_writes_nothing() {
    let mut a = Avatars::new();
    assert_eq!(a.set("abc", 2).as_deref(), Some("abc\t2\n"));
    assert_eq!(a.set("abc", 2), None);
    assert_eq!(a.len(), 1);
}

#[test]
fn unreadable_lines_are_skipped() {
    let a = Avatars::load("abc\t1\nno tab here\nxyz\tnope\nq\t2\t3\nabc\t+4\r\n\ndef\t99999999999999999999\n");
    assert_eq!(a.get("abc"), Some(4));
    assert_eq!(a.get("xyz"), None);
    assert_eq!(a.get("q"), None);
    assert_eq!(a.get("def"), None);
    assert_eq!(a.len(), 1);
}

#[test]
fn later_line_wins_on_reload() {
    let a = Avatars::load("abc\t1\nabc\t4\n");
    assert_eq!(a.get("abc"), Some(4));
    let a = Avatars::load("abc\t4\nabc\t1\n");
    assert_eq!(a.get("abc"), Some(1));
}
