use xiaozhongsi::config::{parse_cell, parse_limit, parse_ports, parse_u32};

#[test]
fn ports_are_comma_separated() {
    assert_eq!(parse_ports("2222"), vec![2222]);
    assert_eq!(parse_ports("22, 2222 ,x,,65536,+80"), vec![22, 2222, 80]);
    assert_eq!(parse_ports(""), Vec::<u16>::new());
    assert_eq!(parse_ports("65535,0"), vec![65535, 0]);
}

#[test]
fn limit_falls_back() {
    assert_eq!(parse_limit("32", 128), 32);
    assert_eq!(parse_limit(" 7 ", 128), 7);
    assert_eq!(parse_limit("-3", 128), 128);
    assert_eq!(parse_limit("many", 128), 128);
}

#[test]
fn small_numbers_read() {
    assert_eq!(parse_u32("480"), Some(480));
    assert_eq!(parse_u32(" 60\n"), Some(60));
    assert_eq!(parse_u32("4294967296"), None);
    assert_eq!(parse_u32("8:00"), None);
}

#[test]
fn cells_are_row_comma_column() {
    assert_eq!(parse_cell("12,4"), Some((12, 4)));
    assert_eq!(parse_cell(" 7 , 0 "), Some((7, 0)));
    assert_eq!(parse_cell("12"), None);
    assert_eq!(parse_cell("1,2,3"), None);
    assert_eq!(parse_cell("a,2"), None);
}
