//! A plain list of error messages, printed one per line.
use vstd::prelude::*;
use crate::diagn::Span;
use crate::text::{chars_to_string, push_str};

verus! {

/// An error description, with the span it concerns when known.
pub struct Message {
    pub descr: String,
    pub span: Option<Span>,
}

impl Message {
    /// An error with no span.
    pub fn error(descr: &str) -> (r: Message)
        ensures
            r.descr@ == descr@,
            r.span is None,
    {
        Message { descr: String::from_str(descr), span: None }
    }

    /// An error at `span`.
    pub fn error_span(descr: &str, span: &Span) -> (r: Message)
        ensures
            r.descr@ == descr@,
            r.span == Some(*span),
    {
        Message { descr: String::from_str(descr), span: Some(*span) }
    }
}

/// Error messages in the order they were reported.
pub struct Reporter {
    messages: Vec<Message>,
}

impl View for Reporter {
    type V = Seq<(Seq<char>, Option<Span>)>;

    closed spec fn view(&self) -> Seq<(Seq<char>, Option<Span>)> {
        self.messages@.map_values(|m: Message| (m.descr@, m.span))
    }
}

impl Reporter {
    /// No messages.
    pub fn new() -> (r: Reporter)
        ensures
            r@ == Seq::<(Seq<char>, Option<Span>)>::empty(),
    {
        let r = Reporter { messages: Vec::new() };
        assert(r@ =~= Seq::<(Seq<char>, Option<Span>)>::empty());
        r
    }

    /// Adds a message.
    pub fn message(&mut self, msg: Message)
        ensures
            final(self)@ == old(self)@.push((msg.descr@, msg.span)),
    {
        let ghost d = msg.descr@;
        let ghost sp = msg.span;
        self.messages.push(msg);
        assert(self@ =~= old(self)@.push((d, sp)));
    }

    /// Adds an error.
    pub fn error(&mut self, descr: &str)
        ensures
            final(self)@ == old(self)@.push((descr@, None)),
    {
        self.message(Message::error(descr));
    }

    /// Adds an error at `span`.
    pub fn error_span(&mut self, descr: &str, span: &Span)
        ensures
            final(self)@ == old(self)@.push((descr@, Some(*span))),
    {
        self.message(Message::error_span(descr, span));
    }

    /// The lines that printing the messages writes: `error: ` and the
    /// description, one per message.
    pub fn print_lines(&self) -> (r: Vec<String>)
        ensures
            r@.len() == self@.len(),
            forall|i: int| 0 <= i < r@.len() ==> #[trigger] r@[i]@ == "error: "@ + self@[i].0,
    {
        let mut out: Vec<String> = Vec::new();
        let n = self.messages.len();
        let mut i: usize = 0;
        while i < n
            invariant
                n == self.messages@.len(),
                i <= n,
                out@.len() == i,
                forall|k: int| 0 <= k < i ==> #[trigger] out@[k]@ == "error: "@ + self@[k].0,
            decreases n - i,
        {
            let mut line: Vec<char> = Vec::new();
            push_str(&mut line, "error: ");
            push_str(&mut line, self.messages[i].descr.as_str());
            out.push(chars_to_string(&line));
            i = i + 1;
        }
        out
    }
}

} // verus!
