use customasm::annotated::SourceFile;
use customasm::diagn::{Message, MessageKind, Report, Span};

fn files() -> Vec<SourceFile> {
    vec![SourceFile { name: "main.asm".to_string(), chars: "abc\ndef\nghi".chars().collect() }]
}

#[test]
fn span_join_before_after() {
    let a = Span::new(0, 2, 5);
    let b = Span::new(0, 4, 9);
    let j = a.join(b);
    assert_eq!(j.location(), Some((2, 9)));
    assert_eq!(b.join(a).location(), Some((2, 9)));
    assert_eq!(a.before().location(), Some((2, 2)));
    assert_eq!(a.after().location(), Some((5, 5)));
    let d = Span::new_dummy();
    assert_eq!(d.location(), None);
    assert_eq!(a.join(d).location(), Some((2, 5)));
    assert_eq!(d.join(a).location(), Some((2, 5)));
    assert_eq!(d.before().location(), None);
}

#[test]
fn labels_of_kinds() {
    assert_eq!(MessageKind::Error.get_label(), "error");
    assert_eq!(MessageKind::Warning.get_label(), "warning");
    assert_eq!(MessageKind::Note.get_label(), "note");
}

#[test]
fn errors_stop_and_notes_do_not() {
    let mut report = Report::new();
    assert!(report.stop_at_errors().is_ok());
    assert!(!report.has_messages());
    report.note("just saying");
    assert!(report.stop_at_errors().is_ok());
    assert!(report.has_messages());
    report.error("broken");
    assert!(report.stop_at_errors().is_err());
    assert_eq!(report.len(), 2);
}

#[test]
fn contexts_wrap_messages_and_pop() {
    let mut report = Report::new();
    report.push_parent("outer", Span::new(0, 0, 3));
    report.push_parent_note("inner", Span::new(0, 4, 7));
    report.error("bad");
    report.pop_parent();
    report.warning("careful");
    report.pop_parent();
    report.error("plain");
    let msgs = report.messages();
    assert_eq!(msgs.len(), 3);
    assert_eq!(msgs[0].descr, "outer");
    assert_eq!(msgs[0].inner[0].descr, "inner");
    assert_eq!(msgs[0].inner[0].inner[0].descr, "bad");
    assert_eq!(msgs[1].descr, "outer");
    assert_eq!(msgs[1].inner[0].descr, "careful");
    assert_eq!(msgs[2].descr, "plain");
    assert_eq!(msgs[2].inner.len(), 0);
    assert_eq!(report.len(), 3);
    assert_eq!(report.len_with_inner(), 3 + 2 + 1);
}

#[test]
fn message_counts_nested() {
    let mut m = Message::error("top");
    m.inner.push(Message::note("a"));
    m.inner.push(Message::note("b"));
    assert_eq!(m.len_with_inner(), 3);
}

#[test]
fn transfer_nests_in_the_receiving_contexts() {
    let mut from = Report::new();
    from.error("moved");
    let mut to = Report::new();
    to.push_parent("while including", Span::new_dummy());
    from.transfer_to(&mut to);
    assert_eq!(from.len(), 1);
    let msgs = to.messages();
    assert_eq!(msgs.len(), 1);
    assert_eq!(msgs[0].descr, "while including");
    assert_eq!(msgs[0].inner[0].descr, "moved");
}

#[test]
fn print_error_with_source_lines() {
    let mut report = Report::new();
    report.error_span("bad", Span::new(0, 4, 7));
    assert_eq!(
        report.print_all(&files()),
        "error: bad\n --> main.asm:2:1:\n1 | abc\n2 | def\n  | ^^^ \n3 | ghi\n"
    );
}

#[test]
fn print_empty_span() {
    let mut report = Report::new();
    report.warning_span("here", Span::new(0, 4, 4));
    assert_eq!(
        report.print_all(&files()),
        "warning: here\n --> main.asm:2:1:\n1 | abc\n2 |  def\n  | ^    \n3 | ghi\n"
    );
}

#[test]
fn print_nested_message() {
    let mut report = Report::new();
    report.push_parent("in macro", Span::new(0, 0, 3));
    report.error("bad thing");
    assert_eq!(
        report.print_all(&files()),
        "error: in macro\n --> main.asm:1:1:\n1 | abc\n  | ^^^ \n2 | def\n3 | ghi\n  + error: bad thing\n\n"
    );
}

#[test]
fn print_without_location_and_without_span() {
    let mut report = Report::new();
    report.note("plain");
    report.error_span("somewhere", Span::new_dummy());
    assert_eq!(report.print_all(&files()), "note: plain\nerror: somewhere\n --> main.asm\n");
}

#[test]
fn errors_found_by_line_and_excerpt() {
    let mut report = Report::new();
    report.push_parent_note("while matching", Span::new(0, 0, 3));
    report.error_span("value out of range", Span::new(0, 8, 11));
    report.pop_parent();
    let files = files();
    assert!(report.has_error_at(&files, "main.asm", 2, "out of range"));
    assert!(!report.has_error_at(&files, "main.asm", 1, "out of range"));
    assert!(!report.has_error_at(&files, "main.asm", 2, "missing"));
    assert!(report.has_message_at(&files, "main.asm", MessageKind::Note, 0, "matching"));
    assert!(report.has_first_error_at(&files, "main.asm", 2, "value"));
}

#[test]
fn dedup_keeps_first_context_and_last_match_attempt() {
    let mut report = Report::new();
    report.push_parent("A", Span::new(0, 0, 1));
    report.push_parent("B", Span::new(0, 1, 2));
    report.push_parent("A", Span::new(0, 0, 1));
    report.push_parent("match attempted 1", Span::new(0, 2, 3));
    report.push_parent("match attempted 2", Span::new(0, 3, 4));
    report.push_parent("C", Span::new(0, 4, 5));
    report.message_with_parents_dedup(Message::error("M"));
    let msgs = report.messages();
    let mut chain = Vec::new();
    let mut m = &msgs[0];
    loop {
        chain.push(m.descr.clone());
        if m.inner.is_empty() {
            break;
        }
        m = &m.inner[0];
    }
    assert_eq!(chain, vec!["A", "B", "match attempted 2", "C", "M"]);
}

#[test]
fn caps_limit_the_contexts_of_grouped_messages() {
    let mut report = Report::new();
    report.push_parent("outer", Span::new_dummy());
    report.push_parent_cap();
    report.push_parent("inner", Span::new_dummy());
    report.push_multiple(vec![Message::error("e1"), Message::error("e2")]);
    {
        let msgs = report.messages();
        assert_eq!(msgs.len(), 1);
        assert_eq!(msgs[0].descr, "inner");
        assert_eq!(msgs[0].inner.len(), 2);
        assert_eq!(msgs[0].inner[1].descr, "e2");
    }
    let capped = report.wrap_in_parents_capped(Message::note("n"));
    assert_eq!(capped.descr, "inner");
    assert_eq!(capped.inner[0].descr, "n");
    report.pop_parent();
    report.push_multiple(vec![Message::error("e3"), Message::error("e4")]);
    assert_eq!(report.len(), 3);
    report.pop_parent_cap();
    let full = report.wrap_in_parents(Message::note("n"));
    assert_eq!(full.descr, "outer");
    report.message_without_parents(Message::warning("w"));
    assert_eq!(report.messages()[3].descr, "w");
    assert!(report.has_errors());
}

#[test]
fn fuse_keeps_the_first_and_gathers_inner() {
    let mut a = Message::error("first");
    a.inner.push(Message::note("a"));
    let mut b = Message::warning("second");
    b.inner.push(Message::note("b"));
    let f = Message::fuse_topmost(vec![a, b]);
    assert_eq!(f.descr, "first");
    assert!(matches!(f.kind, MessageKind::Error));
    assert_eq!(f.inner.len(), 2);
    assert_eq!(f.inner[1].descr, "b");
}

#[test]
fn short_note_contexts_show_fewer_lines() {
    let mut report = Report::new();
    report.push_parent_short_note("here", Span::new(0, 4, 7));
    report.error("bad");
    assert_eq!(
        report.print_all(&files()),
        "note: here\n --> main.asm:2:1:\n2 | def\n  | ^^^ \n  + error: bad\n\n"
    );
}

#[test]
fn span_debug_text() {
    assert_eq!(Span::new(3, 1, 22).debug_text(), "Span(file#3[1..22])");
    assert_eq!(Span::new_dummy().debug_text(), "Span(file#0)");
}
