use std::cell::RefCell;

use lexer::{Item, Lexer, ScanState, StateFn};

#[derive(Debug, PartialEq, Clone)]
enum Obs {
    Rune(Option<char>),
    Rest(usize),
    Flag(bool),
    Text(String),
}

type Script = fn(&mut Lexer<'_, u8>, &mut Vec<Obs>);

/// Runs one script on the lexer and stops.
struct Probe<'r> {
    log: &'r RefCell<Vec<Obs>>,
    script: Script,
}

impl<'r> ScanState<u8> for Probe<'r> {
    fn step<'a>(&self, l: &mut Lexer<'a, u8>) -> Option<StateFn<Probe<'r>>> {
        (self.script)(l, &mut self.log.borrow_mut());
        None
    }
}

fn probe<'a>(input: &'a str, script: Script) -> (Vec<Item<'a, u8>>, Vec<Obs>) {
    let log = RefCell::new(Vec::new());
    let items = lexer::lex(input, Probe { log: &log, script });
    (items, log.into_inner())
}

fn item<'a>(typ: u8, val: &'a str, lineno: usize, col: usize) -> Item<'a, u8> {
    Item { typ, val, col, lineno }
}

#[test]
fn next_advances_offset_by_utf8_width() {
    let (_, obs) = probe("aé€😀\n", |l, o| {
        o.push(Obs::Rest(l.remaining_input().len()));
        for _ in 0..6 {
            o.push(Obs::Rune(l.next()));
            o.push(Obs::Rest(l.remaining_input().len()));
        }
    });
    let want = vec![
        Obs::Rest(11),
        Obs::Rune(Some('a')),
        Obs::Rest(10),
        Obs::Rune(Some('é')),
        Obs::Rest(8),
        Obs::Rune(Some('€')),
        Obs::Rest(5),
        Obs::Rune(Some('😀')),
        Obs::Rest(1),
        Obs::Rune(Some('\n')),
        Obs::Rest(0),
        Obs::Rune(None),
        Obs::Rest(0),
    ];
    assert_eq!(obs, want);
}

#[test]
fn peek_repeated_returns_same_rune() {
    let (items, obs) = probe("éx", |l, o| {
        for _ in 0..3 {
            o.push(Obs::Rune(l.peek()));
            o.push(Obs::Rest(l.remaining_input().len()));
        }
        o.push(Obs::Rune(l.next()));
        l.emit(1);
    });
    let want = vec![
        Obs::Rune(Some('é')),
        Obs::Rest(3),
        Obs::Rune(Some('é')),
        Obs::Rest(3),
        Obs::Rune(Some('é')),
        Obs::Rest(3),
        Obs::Rune(Some('é')),
    ];
    assert_eq!(obs, want);
    assert_eq!(items, vec![item(1, "é", 1, 1)]);
}

#[test]
fn peek_at_end_returns_none() {
    let (_, obs) = probe("a", |l, o| {
        l.next();
        o.push(Obs::Rune(l.peek()));
        o.push(Obs::Rune(l.peek()));
        o.push(Obs::Rest(l.remaining_input().len()));
    });
    assert_eq!(obs, vec![Obs::Rune(None), Obs::Rune(None), Obs::Rest(0)]);
}

#[test]
fn backup_undoes_next_over_line_break() {
    let (items, obs) = probe("ab\ncd", |l, o| {
        l.next();
        l.next();
        o.push(Obs::Rune(l.next()));
        l.backup();
        o.push(Obs::Rest(l.remaining_input().len()));
        o.push(Obs::Rune(l.next()));
        l.next();
        l.emit(1);
        l.next();
        l.emit(2);
    });
    assert_eq!(obs, vec![Obs::Rune(Some('\n')), Obs::Rest(3), Obs::Rune(Some('\n'))]);
    assert_eq!(items, vec![item(1, "ab\nc", 1, 1), item(2, "d", 2, 2)]);
}

#[test]
fn backup_after_end_keeps_cursor() {
    let (_, obs) = probe("z", |l, o| {
        o.push(Obs::Rune(l.next()));
        o.push(Obs::Rune(l.next()));
        l.backup();
        o.push(Obs::Rest(l.remaining_input().len()));
    });
    assert_eq!(obs, vec![Obs::Rune(Some('z')), Obs::Rune(None), Obs::Rest(0)]);
}

#[test]
fn emit_slices_multibyte_text() {
    let (items, _) = probe("héllo wörld", |l, _| {
        l.accept_run("hélo");
        l.emit(1);
        l.accept(" ");
        l.ignore();
        l.accept_run("wörld");
        l.emit(2);
    });
    assert_eq!(items, vec![item(1, "héllo", 1, 1), item(2, "wörld", 1, 7)]);
}

#[test]
fn emit_may_produce_empty_item() {
    let (items, _) = probe("ab", |l, _| {
        l.emit(1);
        l.next();
        l.emit(2);
        l.emit(3);
    });
    assert_eq!(items, vec![item(1, "", 1, 1), item(2, "a", 1, 1), item(3, "", 1, 2)]);
}

#[test]
fn emit_nonempty_skips_empty_text() {
    let (items, _) = probe("ab", |l, _| {
        l.emit_nonempty(1);
        l.next();
        l.emit_nonempty(2);
        l.emit_nonempty(3);
        l.next();
        l.next();
        l.emit_nonempty(4);
        l.emit_nonempty(5);
    });
    assert_eq!(items, vec![item(2, "a", 1, 1), item(4, "b", 1, 2)]);
}

#[test]
fn line_and_column_follow_line_breaks() {
    let (items, _) = probe("a\nbc\n\nd", |l, _| {
        while l.next().is_some() {
            l.emit(0);
        }
    });
    let want = vec![
        item(0, "a", 1, 1),
        item(0, "\n", 1, 2),
        item(0, "b", 2, 1),
        item(0, "c", 2, 2),
        item(0, "\n", 2, 3),
        item(0, "\n", 3, 1),
        item(0, "d", 4, 1),
    ];
    assert_eq!(items, want);
}

#[test]
fn columns_count_runes_not_bytes() {
    let (items, _) = probe("é\né€x", |l, _| {
        while let Some(c) = l.next() {
            if c == 'x' {
                l.backup();
                l.ignore();
                l.next();
                l.emit(9);
            }
        }
    });
    assert_eq!(items, vec![item(9, "x", 2, 3)]);
}

#[test]
fn accept_takes_only_members() {
    let (items, obs) = probe("+1", |l, o| {
        o.push(Obs::Flag(l.accept("0123456789")));
        o.push(Obs::Flag(l.accept("+-")));
        o.push(Obs::Flag(l.accept("+-")));
        o.push(Obs::Flag(l.accept("0123456789")));
        o.push(Obs::Flag(l.accept("0123456789")));
        l.emit(1);
    });
    let want = vec![
        Obs::Flag(false),
        Obs::Flag(true),
        Obs::Flag(false),
        Obs::Flag(true),
        Obs::Flag(false),
    ];
    assert_eq!(obs, want);
    assert_eq!(items, vec![item(1, "+1", 1, 1)]);
}

#[test]
fn accept_run_takes_longest_run() {
    let (items, obs) = probe("123abc", |l, o| {
        o.push(Obs::Flag(l.accept_run("0123456789")));
        o.push(Obs::Text(l.current().to_string()));
        o.push(Obs::Flag(l.accept_run("0123456789")));
        l.emit(1);
        o.push(Obs::Flag(l.accept_run("abcdef")));
        o.push(Obs::Rest(l.remaining_input().len()));
        l.emit(2);
    });
    let want = vec![
        Obs::Flag(true),
        Obs::Text("123".to_string()),
        Obs::Flag(false),
        Obs::Flag(true),
        Obs::Rest(0),
    ];
    assert_eq!(obs, want);
    assert_eq!(items, vec![item(1, "123", 1, 1), item(2, "abc", 1, 4)]);
}

#[test]
fn ignore_drops_pending_text() {
    let (items, obs) = probe("  ab", |l, o| {
        l.accept_run(" ");
        o.push(Obs::Text(l.current().to_string()));
        l.ignore();
        o.push(Obs::Text(l.current().to_string()));
        l.accept_run("ab");
        l.emit(1);
    });
    assert_eq!(obs, vec![Obs::Text("  ".to_string()), Obs::Text(String::new())]);
    assert_eq!(items, vec![item(1, "ab", 1, 3)]);
}

#[test]
fn remaining_input_starts_at_cursor() {
    let (_, obs) = probe("ü//x", |l, o| {
        o.push(Obs::Text(l.remaining_input().to_string()));
        l.next();
        o.push(Obs::Text(l.remaining_input().to_string()));
        l.peek();
        o.push(Obs::Text(l.remaining_input().to_string()));
    });
    let want = vec![
        Obs::Text("ü//x".to_string()),
        Obs::Text("//x".to_string()),
        Obs::Text("//x".to_string()),
    ];
    assert_eq!(obs, want);
}

/// Counts down, emitting one rune per state, and stops at zero.
struct Countdown(usize);

impl ScanState<u8> for Countdown {
    fn step<'a>(&self, l: &mut Lexer<'a, u8>) -> Option<StateFn<Countdown>> {
        l.next();
        l.emit(self.0 as u8);
        if self.0 == 0 {
            None
        } else {
            Some(StateFn(Countdown(self.0 - 1)))
        }
    }
}

#[test]
fn driver_runs_states_until_done() {
    let items = lexer::lex("abcdef", Countdown(2));
    assert_eq!(items, vec![item(2, "a", 1, 1), item(1, "b", 1, 2), item(0, "c", 1, 3)]);
}

#[test]
fn driver_keeps_items_of_last_state() {
    let items = lexer::lex("xy", Countdown(0));
    assert_eq!(items, vec![item(0, "x", 1, 1)]);
}
