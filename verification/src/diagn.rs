//! Diagnostics: source spans, messages nested under the context they
//! arose in, and the report that collects them.
use vstd::prelude::*;
use crate::text::{chars_to_string, dec, is_dec_digit, lemma_dec_digits, lemma_dec_injective, lemma_digits_split, push_radix, push_str, str_chars};

verus! {

/// A position in a source file, counted in characters.
pub type SpanIndex = u32;

/// The handle by which a source file is known.
pub type FileServerHandle = u64;

/// A range of source text in one file; a start of `SpanIndex::MAX` means
/// the range is unknown.
#[derive(Clone, Copy, PartialEq, Eq, Structural, Hash)]
pub struct Span {
    pub file_handle: FileServerHandle,
    pub start: SpanIndex,
    pub end: SpanIndex,
}

impl Span {
    /// The raw start and end, unknown or not.
    pub open spec fn loc(self) -> (SpanIndex, SpanIndex) {
        (self.start, self.end)
    }

    /// Whether the range is known.
    pub open spec fn known(self) -> bool {
        self.loc().0 != SpanIndex::MAX
    }

    /// The range `start..end` of file `file_handle`.
    pub fn new(file_handle: FileServerHandle, start: SpanIndex, end: SpanIndex) -> (r: Span)
        ensures
            r.file_handle == file_handle,
            r.loc() == (start, end),
    {
        Span { file_handle, start, end }
    }

    /// A span with no known range, in file 0.
    pub fn new_dummy() -> (r: Span)
        ensures
            r.file_handle == 0,
            r.loc() == (SpanIndex::MAX, SpanIndex::MAX),
    {
        Span { file_handle: 0, start: SpanIndex::MAX, end: SpanIndex::MAX }
    }

    /// The range, when it is known.
    pub fn location(&self) -> (r: Option<(SpanIndex, SpanIndex)>)
        ensures
            r == (if self.known() { Some(self.loc()) } else { None }),
    {
        if self.start == SpanIndex::MAX {
            return None;
        }
        Some((self.start, self.end))
    }

    /// The empty range at the start of this one (this span itself when the
    /// range is unknown).
    pub fn before(&self) -> (r: Span)
        ensures
            r == (if self.known() {
                Span { file_handle: self.file_handle, start: self.loc().0, end: self.loc().0 }
            } else {
                *self
            }),
    {
        if self.start == SpanIndex::MAX {
            *self
        } else {
            Span { file_handle: self.file_handle, start: self.start, end: self.start }
        }
    }

    /// The empty range at the end of this one (this span itself when the
    /// range is unknown).
    pub fn after(&self) -> (r: Span)
        ensures
            r == (if self.known() {
                Span { file_handle: self.file_handle, start: self.loc().1, end: self.loc().1 }
            } else {
                *self
            }),
    {
        if self.start == SpanIndex::MAX {
            *self
        } else {
            Span { file_handle: self.file_handle, start: self.end, end: self.end }
        }
    }

    /// The smallest range covering both spans; a span with an unknown
    /// range gives way to the other.
    pub open spec fn joined(self, other: Span) -> Span {
        if !other.known() {
            self
        } else if !self.known() {
            other
        } else {
            Span {
                file_handle: self.file_handle,
                start: if self.loc().0 <= other.loc().0 { self.loc().0 } else { other.loc().0 },
                end: if self.loc().1 >= other.loc().1 { self.loc().1 } else { other.loc().1 },
            }
        }
    }

    /// The smallest range covering both spans; a span with an unknown range
    /// gives way to the other. Both must lie in the same file when both
    /// ranges are known.
    pub fn join(&self, other: Span) -> (r: Span)
        requires
            self.known() && other.known() ==> self.file_handle == other.file_handle,
        ensures
            r == self.joined(other),
    {
        if other.start == SpanIndex::MAX {
            *self
        } else if self.start == SpanIndex::MAX {
            other
        } else {
            let start = if self.start <= other.start { self.start } else { other.start };
            let end = if self.end >= other.end { self.end } else { other.end };
            Span { file_handle: self.file_handle, start: start, end: end }
        }
    }

    /// Whether two spans print the same: same file, and the same range or
    /// both unknown.
    pub open spec fn same_printed(self, other: Span) -> bool {
        self.file_handle == other.file_handle
            && (if !self.known() { !other.known() } else { self.loc() == other.loc() })
    }

    /// Executable `same_printed`.
    fn same_printed_exec(&self, other: &Span) -> (r: bool)
        ensures
            r == self.same_printed(*other),
    {
        self.file_handle == other.file_handle && if self.start == SpanIndex::MAX {
            other.start == SpanIndex::MAX
        } else {
            self.start == other.start && self.end == other.end
        }
    }
}

/// The severity of a message.
#[derive(Clone, Copy, PartialEq, Eq, Structural)]
pub enum MessageKind {
    Error,
    Warning,
    Note,
}

impl MessageKind {
    /// The word a message of this kind is printed under.
    pub fn get_label(&self) -> (r: &'static str)
        ensures
            r@ == match *self {
                MessageKind::Error => "error"@,
                MessageKind::Warning => "warning"@,
                MessageKind::Note => "note"@,
            },
    {
        match self {
            MessageKind::Error => "error",
            MessageKind::Warning => "warning",
            MessageKind::Note => "note",
        }
    }
}

/// A diagnostic message, possibly with nested messages that it explains.
pub struct Message {
    pub descr: String,
    pub kind: MessageKind,
    pub span: Option<Span>,
    pub short_excerpt: bool,
    pub inner: Vec<Message>,
}

/// The abstract value of a message.
pub struct MessageView {
    pub descr: Seq<char>,
    pub kind: MessageKind,
    pub span: Option<Span>,
    pub short_excerpt: bool,
    pub inner: Seq<MessageView>,
}

/// The abstract value of a message.
pub open spec fn message_view(m: Message) -> MessageView
    decreases m,
{
    MessageView {
        descr: m.descr@,
        kind: m.kind,
        span: m.span,
        short_excerpt: m.short_excerpt,
        inner: messages_view(m.inner@),
    }
}

/// The abstract values of a list of messages.
pub open spec fn messages_view(s: Seq<Message>) -> Seq<MessageView>
    decreases s,
{
    if s.len() == 0 {
        Seq::empty()
    } else {
        messages_view(s.drop_last()).push(message_view(s.last()))
    }
}

impl View for Message {
    type V = MessageView;

    open spec fn view(&self) -> MessageView {
        message_view(*self)
    }
}

/// The number of messages in a message tree.
pub open spec fn message_count(m: MessageView) -> nat
    decreases m,
{
    1 + messages_count(m.inner)
}

/// The number of messages in a list of message trees.
pub open spec fn messages_count(s: Seq<MessageView>) -> nat
    decreases s,
{
    if s.len() == 0 {
        0
    } else {
        messages_count(s.drop_last()) + message_count(s.last())
    }
}

/// A message with the context of `parent`, holding `inner`.
pub open spec fn nest_in(parent: MessageView, inner: Seq<MessageView>) -> MessageView {
    MessageView {
        descr: parent.descr,
        kind: parent.kind,
        span: parent.span,
        short_excerpt: parent.short_excerpt,
        inner: inner,
    }
}

/// `msg` nested in `parents`, the first outermost.
pub open spec fn wrap_parents(parents: Seq<MessageView>, msg: MessageView) -> MessageView
    decreases parents.len(),
{
    if parents.len() == 0 {
        msg
    } else {
        wrap_parents(parents.drop_last(), nest_in(parents.last(), seq![msg]))
    }
}

/// The messages `msgs` nested together in `parents`, the first outermost.
pub open spec fn wrap_parents_multi(parents: Seq<MessageView>, msgs: Seq<MessageView>) -> Seq<MessageView>
    decreases parents.len(),
{
    if parents.len() == 0 {
        msgs
    } else {
        wrap_parents_multi(parents.drop_last(), seq![nest_in(parents.last(), msgs)])
    }
}

/// `msg` nested in `list`, the first innermost.
pub open spec fn wrap_in_order(list: Seq<MessageView>, msg: MessageView) -> MessageView
    decreases list.len(),
{
    if list.len() == 0 {
        msg
    } else {
        nest_in(list.last(), seq![wrap_in_order(list.drop_last(), msg)])
    }
}

/// Whether two contexts count as the same: same description and a span
/// that prints the same.
pub open spec fn same_context(a: MessageView, b: MessageView) -> bool {
    a.descr == b.descr && match (a.span, b.span) {
        (None, None) => true,
        (Some(x), Some(y)) => x.same_printed(y),
        _ => false,
    }
}

/// The contexts `p` without repetitions: each context is kept only where
/// no earlier one counts as the same.
pub open spec fn distinct_contexts(p: Seq<MessageView>) -> Seq<MessageView>
    decreases p.len(),
{
    if p.len() == 0 {
        Seq::empty()
    } else {
        let rest = distinct_contexts(p.drop_last());
        if exists|j: int| 0 <= j < p.len() - 1 && same_context(#[trigger] p[j], p.last()) {
            rest
        } else {
            rest.push(p.last())
        }
    }
}

/// Whether a context records a match attempt.
pub open spec fn is_match_attempt(m: MessageView) -> bool {
    "match attempted"@.len() <= m.descr.len() && m.descr.subrange(0, "match attempted"@.len() as int) == "match attempted"@
}

/// `r` with every run of consecutive match-attempt contexts cut down to
/// its first.
pub open spec fn collapse_match_attempts(r: Seq<MessageView>) -> Seq<MessageView>
    decreases r.len(),
{
    if r.len() == 0 {
        Seq::empty()
    } else {
        let rest = collapse_match_attempts(r.drop_last());
        if is_match_attempt(r.last()) && r.len() >= 2 && is_match_attempt(r[r.len() - 2]) {
            rest
        } else {
            rest.push(r.last())
        }
    }
}

/// Whether `descr` starts with `match attempted`.
fn starts_with_match_attempted(descr: &String) -> (r: bool)
    ensures
        r == ("match attempted"@.len() <= descr@.len()
            && descr@.subrange(0, "match attempted"@.len() as int) == "match attempted"@),
{
    let pre = str_chars("match attempted");
    let s = str_chars(descr.as_str());
    if pre.len() > s.len() {
        return false;
    }
    let mut i: usize = 0;
    while i < pre.len()
        invariant
            pre@ == "match attempted"@,
            s@ == descr@,
            pre@.len() <= s@.len(),
            i <= pre@.len(),
            forall|k: int| 0 <= k < i ==> s@[k] == pre@[k],
        decreases pre.len() - i,
    {
        if pre[i] != s[i] {
            assert(descr@.subrange(0, pre@.len() as int)[i as int] != pre@[i as int]);
            return false;
        }
        i = i + 1;
    }
    assert(descr@.subrange(0, pre@.len() as int) =~= pre@);
    true
}

impl Message {
    /// A message of `kind` with no span and no nested messages.
    fn plain(descr: &str, kind: MessageKind, span: Option<Span>, short_excerpt: bool) -> (r: Message)
        ensures
            r@ == (MessageView { descr: descr@, kind: kind, span: span, short_excerpt: short_excerpt, inner: Seq::empty() }),
    {
        let r = Message { descr: String::from_str(descr), kind, span, short_excerpt, inner: Vec::new() };
        assert(messages_view(r.inner@) =~= Seq::<MessageView>::empty());
        r
    }

    /// An error.
    pub fn error(descr: &str) -> (r: Message)
        ensures
            r@ == (MessageView { descr: descr@, kind: MessageKind::Error, span: None, short_excerpt: false, inner: Seq::empty() }),
    {
        Message::plain(descr, MessageKind::Error, None, false)
    }

    /// An error at `span`.
    pub fn error_span(descr: &str, span: Span) -> (r: Message)
        ensures
            r@ == (MessageView { descr: descr@, kind: MessageKind::Error, span: Some(span), short_excerpt: false, inner: Seq::empty() }),
    {
        Message::plain(descr, MessageKind::Error, Some(span), false)
    }

    /// A warning.
    pub fn warning(descr: &str) -> (r: Message)
        ensures
            r@ == (MessageView { descr: descr@, kind: MessageKind::Warning, span: None, short_excerpt: false, inner: Seq::empty() }),
    {
        Message::plain(descr, MessageKind::Warning, None, false)
    }

    /// A warning at `span`.
    pub fn warning_span(descr: &str, span: Span) -> (r: Message)
        ensures
            r@ == (MessageView { descr: descr@, kind: MessageKind::Warning, span: Some(span), short_excerpt: false, inner: Seq::empty() }),
    {
        Message::plain(descr, MessageKind::Warning, Some(span), false)
    }

    /// A note.
    pub fn note(descr: &str) -> (r: Message)
        ensures
            r@ == (MessageView { descr: descr@, kind: MessageKind::Note, span: None, short_excerpt: false, inner: Seq::empty() }),
    {
        Message::plain(descr, MessageKind::Note, None, false)
    }

    /// A note at `span`.
    pub fn note_span(descr: &str, span: Span) -> (r: Message)
        ensures
            r@ == (MessageView { descr: descr@, kind: MessageKind::Note, span: Some(span), short_excerpt: false, inner: Seq::empty() }),
    {
        Message::plain(descr, MessageKind::Note, Some(span), false)
    }

    /// A note at `span` printed with a short excerpt.
    pub fn short_note_span(descr: &str, span: Span) -> (r: Message)
        ensures
            r@ == (MessageView { descr: descr@, kind: MessageKind::Note, span: Some(span), short_excerpt: true, inner: Seq::empty() }),
    {
        Message::plain(descr, MessageKind::Note, Some(span), true)
    }

    /// A deep copy.
    pub fn duplicate(&self) -> (r: Message)
        ensures
            r@ == self@,
        decreases self,
    {
        let mut inner: Vec<Message> = Vec::new();
        let n = self.inner.len();
        let mut i: usize = 0;
        while i < n
            invariant
                n == self.inner@.len(),
                i <= n,
                messages_view(inner@) == messages_view(self.inner@.take(i as int)),
            decreases n - i,
        {
            let c = self.inner[i].duplicate();
            let ghost before = inner@;
            inner.push(c);
            assert(inner@.drop_last() =~= before);
            assert(self.inner@.take(i + 1).drop_last() =~= self.inner@.take(i as int));
            i = i + 1;
        }
        assert(self.inner@.take(n as int) =~= self.inner@);
        Message {
            descr: self.descr.clone(),
            kind: self.kind,
            span: self.span,
            short_excerpt: self.short_excerpt,
            inner: inner,
        }
    }
}

/// A one-element list of messages has the one view.
proof fn lemma_single_view(m: Message)
    ensures
        messages_view(seq![m]) == seq![m@],
{
    let s = seq![m];
    assert(s.len() == 1);
    assert(s.drop_last() =~= Seq::<Message>::empty());
    assert(messages_view(Seq::<Message>::empty()) == Seq::<MessageView>::empty());
    assert(messages_view(s) == messages_view(s.drop_last()).push(message_view(s.last())));
    assert(messages_view(s) =~= seq![m@]);
}

/// Appending a message appends its view.
proof fn lemma_push_view(s: Seq<Message>, m: Message)
    ensures
        messages_view(s.push(m)) == messages_view(s).push(m@),
{
    assert(s.push(m).drop_last() =~= s);
}

/// The view of a list has one entry per message.
pub proof fn lemma_views_len(s: Seq<Message>)
    ensures
        messages_view(s).len() == s.len(),
        forall|i: int| 0 <= i < s.len() ==> #[trigger] messages_view(s)[i] == s[i]@,
    decreases s.len(),
{
    if s.len() > 0 {
        lemma_views_len(s.drop_last());
    }
}

/// `m` nested in `parent`'s context, holding the views `inner`.
fn nest_message(parent: &Message, inner: Vec<Message>) -> (r: Message)
    ensures
        r@ == nest_in(parent@, messages_view(inner@)),
{
    Message {
        descr: parent.descr.clone(),
        kind: parent.kind,
        span: parent.span,
        short_excerpt: parent.short_excerpt,
        inner: inner,
    }
}

/// Whether two contexts count as the same.
fn same_context_exec(a: &Message, b: &Message) -> (r: bool)
    ensures
        r == same_context(a@, b@),
{
    let same_descr = a.descr == b.descr;
    let same_span = match (&a.span, &b.span) {
        (None, None) => true,
        (Some(x), Some(y)) => x.same_printed_exec(y),
        _ => false,
    };
    same_descr && same_span
}

impl Message {
    /// The number of messages in this tree.
    pub fn len_with_inner(&self) -> (r: usize)
        requires
            message_count(self@) <= usize::MAX,
        ensures
            r == message_count(self@),
        decreases self,
    {
        let mut count: usize = 1;
        let n = self.inner.len();
        let mut i: usize = 0;
        proof { lemma_views_len(self.inner@); }
        while i < n
            invariant
                n == self.inner@.len(),
                i <= n,
                message_count(self@) <= usize::MAX,
                messages_view(self.inner@) == self@.inner,
                count == 1 + messages_count(self@.inner.take(i as int)),
            decreases n - i,
        {
            proof {
                lemma_views_len(self.inner@);
                lemma_count_prefix(self@.inner, i as int + 1);
                assert(self@.inner.take(i + 1).drop_last() =~= self@.inner.take(i as int));
                assert(self@.inner[i as int] == self.inner@[i as int]@);
            }
            let c = self.inner[i].len_with_inner();
            count = count + c;
            i = i + 1;
        }
        assert(self@.inner.take(n as int) =~= self@.inner);
        count
    }

    /// The first message, holding the nested messages of all of them.
    pub fn fuse_topmost(msgs: Vec<Message>) -> (r: Message)
        requires
            msgs@.len() > 0,
        ensures
            r@ == nest_in(msgs@[0]@, flatten_inner(messages_view(msgs@))),
    {
        let first = &msgs[0];
        let mut inner: Vec<Message> = Vec::new();
        let n = msgs.len();
        let mut i: usize = 0;
        proof { lemma_views_len(msgs@); }
        while i < n
            invariant
                n == msgs@.len(),
                i <= n,
                messages_view(inner@) == flatten_inner(messages_view(msgs@.take(i as int))),
            decreases n - i,
        {
            let m = &msgs[i];
            let mut k: usize = 0;
            let ghost base = messages_view(inner@);
            proof { lemma_views_len(m.inner@); }
            while k < m.inner.len()
                invariant
                    k <= m.inner@.len(),
                    messages_view(inner@) == base + messages_view(m.inner@).take(k as int),
                decreases m.inner@.len() - k,
            {
                let c = m.inner[k].duplicate();
                let ghost before = inner@;
                inner.push(c);
                proof {
                    lemma_push_view(before, c);
                    lemma_views_len(m.inner@);
                    assert(messages_view(m.inner@).take(k + 1) =~= messages_view(m.inner@).take(k as int).push(m.inner@[k as int]@));
                }
                k = k + 1;
            }
            proof {
                assert(messages_view(m.inner@).take(m.inner@.len() as int) =~= messages_view(m.inner@));
                lemma_push_view(msgs@.take(i as int), *m);
                assert(msgs@.take(i + 1) =~= msgs@.take(i as int).push(*m));
                let pv = messages_view(msgs@.take(i as int)).push(m@);
                assert(pv.drop_last() =~= messages_view(msgs@.take(i as int)));
                assert(flatten_inner(pv) == flatten_inner(pv.drop_last()) + pv.last().inner);
            }
            i = i + 1;
        }
        assert(msgs@.take(n as int) =~= msgs@);
        nest_message(first, inner)
    }
}

/// The nested messages of all of `s`, in order.
pub open spec fn flatten_inner(s: Seq<MessageView>) -> Seq<MessageView>
    decreases s.len(),
{
    if s.len() == 0 {
        Seq::empty()
    } else {
        flatten_inner(s.drop_last()) + s.last().inner
    }
}

/// Counting a prefix one element longer adds that element's count.
proof fn lemma_count_prefix(s: Seq<MessageView>, k: int)
    requires
        0 < k <= s.len(),
    ensures
        messages_count(s.take(k)) == messages_count(s.take(k - 1)) + message_count(s[k - 1]),
        messages_count(s.take(k)) <= messages_count(s),
    decreases s.len(),
{
    assert(s.take(k).drop_last() =~= s.take(k - 1));
    if k < s.len() {
        lemma_count_prefix(s.drop_last(), k);
        assert(s.drop_last().take(k) =~= s.take(k));
        assert(s.drop_last().take(k - 1) =~= s.take(k - 1));
    } else {
        assert(s.take(k) =~= s);
    }
}

/// The abstract value of a report: its messages, the stack of contexts new
/// messages are nested in, and the stack of caps on that context.
pub struct ReportView {
    pub messages: Seq<MessageView>,
    pub parents: Seq<MessageView>,
    pub caps: Seq<usize>,
}

impl ReportView {
    /// Where the capped context starts: the last cap, or the bottom.
    pub open spec fn cap_at(self) -> int {
        if self.caps.len() == 0 { 0 } else { self.caps.last() as int }
    }

    /// Whether any message is an error.
    pub open spec fn any_error(self) -> bool {
        exists|i: int| 0 <= i < self.messages.len() && #[trigger] self.messages[i].kind == MessageKind::Error
    }
}

/// A collection of diagnostic messages.
pub struct Report {
    messages: Vec<Message>,
    parents: Vec<Message>,
    parent_cap: Vec<usize>,
}

impl View for Report {
    type V = ReportView;

    closed spec fn view(&self) -> ReportView {
        ReportView {
            messages: messages_view(self.messages@),
            parents: messages_view(self.parents@),
            caps: self.parent_cap@,
        }
    }
}

impl Report {
    /// The top-level messages.
    pub fn messages(&self) -> (r: &Vec<Message>)
        ensures
            messages_view(r@) == self@.messages,
    {
        &self.messages
    }

    /// An empty report.
    pub fn new() -> (r: Report)
        ensures
            r@.messages == Seq::<MessageView>::empty(),
            r@.parents == Seq::<MessageView>::empty(),
            r@.caps == Seq::<usize>::empty(),
    {
        let r = Report { messages: Vec::new(), parents: Vec::new(), parent_cap: Vec::new() };
        assert(messages_view(r.messages@) =~= Seq::<MessageView>::empty());
        assert(messages_view(r.parents@) =~= Seq::<MessageView>::empty());
        r
    }

    /// `msg` nested in the contexts above the last cap.
    pub fn wrap_in_parents_capped(&self, msg: Message) -> (r: Message)
        requires
            self@.cap_at() <= self@.parents.len(),
        ensures
            r@ == wrap_parents(self@.parents.subrange(self@.cap_at(), self@.parents.len() as int), msg@),
    {
        let cap_at = if self.parent_cap.len() == 0 { 0 } else { self.parent_cap[self.parent_cap.len() - 1] };
        self.wrap_from(cap_at, msg)
    }

    /// `msg` nested in all the contexts.
    pub fn wrap_in_parents(&self, msg: Message) -> (r: Message)
        ensures
            r@ == wrap_parents(self@.parents, msg@),
    {
        proof { lemma_views_len(self.parents@); }
        let r = self.wrap_from(0, msg);
        assert(self@.parents.subrange(0, self@.parents.len() as int) =~= self@.parents);
        r
    }

    /// `msg` nested in the contexts from position `from` on.
    fn wrap_from(&self, from: usize, msg: Message) -> (r: Message)
        requires
            from <= self@.parents.len(),
        ensures
            r@ == wrap_parents(self@.parents.subrange(from as int, self@.parents.len() as int), msg@),
    {
        let ghost pv = self@.parents;
        proof { lemma_views_len(self.parents@); }
        let ghost m0 = msg@;
        let mut cur = msg;
        let mut k = self.parents.len();
        while k > from
            invariant
                pv == messages_view(self.parents@),
                pv.len() == self.parents@.len(),
                from <= k <= pv.len(),
                wrap_parents(pv.subrange(from as int, pv.len() as int), m0)
                    == wrap_parents(pv.subrange(from as int, k as int), cur@),
            decreases k,
        {
            proof {
                lemma_views_len(self.parents@);
                assert(pv.subrange(from as int, k as int).drop_last() =~= pv.subrange(from as int, k - 1));
            }
            let mut inner: Vec<Message> = Vec::new();
            let ghost cv = cur@;
            inner.push(cur);
            proof { lemma_single_view(inner@[0]); assert(inner@ =~= seq![inner@[0]]); }
            cur = nest_message(&self.parents[k - 1], inner);
            k = k - 1;
        }
        cur
    }

    /// `msg` nested in the contexts without repetitions, each run of match
    /// attempts cut down to its last.
    pub fn wrap_in_parents_dedup(&self, msg: Message) -> (r: Message)
        ensures
            r@ == wrap_in_order(collapse_match_attempts(distinct_contexts(self@.parents).reverse()), msg@),
    {
        let ghost pv = self@.parents;
        proof { lemma_views_len(self.parents@); }
        let n = self.parents.len();
        let mut kept: Vec<usize> = Vec::new();
        let mut i: usize = 0;
        assert(pv.take(0) =~= Seq::<MessageView>::empty());
        while i < n
            invariant
                n == pv.len(),
                pv == messages_view(self.parents@),
                pv.len() == self.parents@.len(),
                i <= n,
                forall|k: int| 0 <= k < kept@.len() ==> #[trigger] kept@[k] < n,
                kept@.map_values(|x: usize| pv[x as int]) == distinct_contexts(pv.take(i as int)),
            decreases n - i,
        {
            let mut dup = false;
            let mut j: usize = 0;
            while j < i
                invariant
                    i < n,
                    n == pv.len(),
                    pv == messages_view(self.parents@),
                    pv.len() == self.parents@.len(),
                    j <= i,
                    dup == exists|q: int| 0 <= q < j && same_context(#[trigger] pv[q], pv[i as int]),
                decreases i - j,
            {
                proof { lemma_views_len(self.parents@); }
                let same = same_context_exec(&self.parents[j], &self.parents[i]);
                assert(pv[j as int] == self.parents@[j as int]@ && pv[i as int] == self.parents@[i as int]@);
                if same {
                    dup = true;
                }
                j = j + 1;
            }
            let ghost before = kept@;
            if !dup {
                kept.push(i);
            }
            proof {
                let t = pv.take(i + 1);
                assert(t.drop_last() =~= pv.take(i as int));
                assert(t.last() == pv[i as int]);
                assert forall|q: int| 0 <= q < t.len() - 1 implies #[trigger] t[q] == pv[q] by {}
                if dup {
                    let q = choose|q: int| 0 <= q < i && same_context(#[trigger] pv[q], pv[i as int]);
                    assert(t[q] == pv[q]);
                } else {
                    assert(kept@.map_values(|x: usize| pv[x as int]) =~= before.map_values(|x: usize| pv[x as int]).push(pv[i as int]));
                }
            }
            i = i + 1;
        }
        assert(pv.take(n as int) =~= pv);
        let ghost d = distinct_contexts(pv);
        let ghost rv = d.reverse();
        let m = kept.len();
        // Keep the entries of the reversed list, collapsing runs of match attempts.
        let mut order: Vec<usize> = Vec::new();
        let mut t: usize = 0;
        assert(rv.take(0) =~= Seq::<MessageView>::empty());
        while t < m
            invariant
                m == kept@.len(),
                n == pv.len(),
                pv == messages_view(self.parents@),
                pv.len() == self.parents@.len(),
                forall|k: int| 0 <= k < kept@.len() ==> #[trigger] kept@[k] < n,
                kept@.map_values(|x: usize| pv[x as int]) == d,
                rv == d.reverse(),
                t <= m,
                forall|k: int| 0 <= k < order@.len() ==> #[trigger] order@[k] < n,
                order@.map_values(|x: usize| pv[x as int]) == collapse_match_attempts(rv.take(t as int)),
            decreases m - t,
        {
            proof { lemma_views_len(self.parents@); }
            let idx = kept[m - 1 - t];
            assert(rv[t as int] == d[m - 1 - t]);
            assert(d[m - 1 - t] == pv[idx as int]);
            let is_ma = starts_with_match_attempted(&self.parents[idx].descr);
            let prev_ma = if t > 0 {
                let pidx = kept[m - t];
                assert(rv[t - 1] == d[m - t]);
                assert(d[(m - t) as int] == pv[pidx as int]);
                starts_with_match_attempted(&self.parents[pidx].descr)
            } else {
                false
            };
            let ghost before = order@;
            if !(is_ma && prev_ma) {
                order.push(idx);
            }
            proof {
                let u = rv.take(t + 1);
                assert(u.drop_last() =~= rv.take(t as int));
                assert(u.last() == rv[t as int]);
                if t > 0 {
                    assert(u[u.len() - 2] == rv[t - 1]);
                }
                if !(is_ma && prev_ma) {
                    assert(order@.map_values(|x: usize| pv[x as int]) =~= before.map_values(|x: usize| pv[x as int]).push(pv[idx as int]));
                }
            }
            t = t + 1;
        }
        assert(rv.take(m as int) =~= rv);
        let ghost ov = order@.map_values(|x: usize| pv[x as int]);
        let ghost m0 = msg@;
        let mut cur = msg;
        let mut k: usize = 0;
        while k < order.len()
            invariant
                n == pv.len(),
                pv == messages_view(self.parents@),
                pv.len() == self.parents@.len(),
                forall|q: int| 0 <= q < order@.len() ==> #[trigger] order@[q] < n,
                ov == order@.map_values(|x: usize| pv[x as int]),
                k <= order@.len(),
                cur@ == wrap_in_order(ov.take(k as int), m0),
            decreases order@.len() - k,
        {
            proof { lemma_views_len(self.parents@); }
            let idx = order[k];
            let mut inner: Vec<Message> = Vec::new();
            inner.push(cur);
            proof { lemma_single_view(inner@[0]); assert(inner@ =~= seq![inner@[0]]); }
            cur = nest_message(&self.parents[idx], inner);
            proof {
                assert(ov.take(k + 1).drop_last() =~= ov.take(k as int));
                assert(ov.take(k + 1).last() == pv[idx as int]);
            }
            k = k + 1;
        }
        assert(ov.take(order@.len() as int) =~= ov);
        cur
    }

    /// Adds `msg`, nested in all the contexts.
    pub fn message(&mut self, msg: Message)
        ensures
            final(self)@ == (ReportView { messages: old(self)@.messages.push(wrap_parents(old(self)@.parents, msg@)), ..old(self)@ }),
    {
        let w = self.wrap_in_parents(msg);
        let ghost before = self.messages@;
        self.messages.push(w);
        proof { lemma_push_view(before, w); }
    }

    /// Adds `msg` as it is.
    pub fn message_without_parents(&mut self, msg: Message)
        ensures
            final(self)@ == (ReportView { messages: old(self)@.messages.push(msg@), ..old(self)@ }),
    {
        let ghost before = self.messages@;
        let ghost mv = msg@;
        self.messages.push(msg);
        proof { lemma_push_view(before, self.messages@.last()); }
    }

    /// Adds `msg`, nested in the contexts without repetitions.
    pub fn message_with_parents_dedup(&mut self, msg: Message)
        ensures
            final(self)@ == (ReportView {
                messages: old(self)@.messages.push(
                    wrap_in_order(collapse_match_attempts(distinct_contexts(old(self)@.parents).reverse()), msg@)),
                ..old(self)@
            }),
    {
        let w = self.wrap_in_parents_dedup(msg);
        let ghost before = self.messages@;
        self.messages.push(w);
        proof { lemma_push_view(before, w); }
    }

    /// Adds the messages `msgs` together, nested in the contexts above the
    /// last cap.
    pub fn push_multiple(&mut self, msgs: Vec<Message>)
        requires
            old(self)@.cap_at() <= old(self)@.parents.len(),
        ensures
            final(self)@ == (ReportView {
                messages: old(self)@.messages + wrap_parents_multi(
                    old(self)@.parents.subrange(old(self)@.cap_at(), old(self)@.parents.len() as int),
                    messages_view(msgs@)),
                ..old(self)@
            }),
    {
        let ghost pv = self@.parents;
        proof { lemma_views_len(self.parents@); }
        let range = if self.parent_cap.len() == 0 { 0 } else { self.parent_cap[self.parent_cap.len() - 1] };
        let ghost ms0 = messages_view(msgs@);
        let mut cur = msgs;
        let mut k = self.parents.len();
        while k > range
            invariant
                pv == messages_view(self.parents@),
                pv.len() == self.parents@.len(),
                range <= k <= pv.len(),
                wrap_parents_multi(pv.subrange(range as int, pv.len() as int), ms0)
                    == wrap_parents_multi(pv.subrange(range as int, k as int), messages_view(cur@)),
            decreases k,
        {
            proof {
                lemma_views_len(self.parents@);
                assert(pv.subrange(range as int, k as int).drop_last() =~= pv.subrange(range as int, k - 1));
            }
            let m = nest_message(&self.parents[k - 1], cur);
            let mut next: Vec<Message> = Vec::new();
            next.push(m);
            proof { lemma_single_view(next@[0]); assert(next@ =~= seq![next@[0]]); }
            cur = next;
            k = k - 1;
        }
        let ghost start = self.messages@;
        let ghost curv = messages_view(cur@);
        let mut i: usize = 0;
        let n = cur.len();
        proof { lemma_views_len(cur@); }
        while i < n
            invariant
                n == cur@.len(),
                curv == messages_view(cur@),
                i <= n,
                self.parents@ == old(self).parents@,
                self.parent_cap@ == old(self).parent_cap@,
                messages_view(self.messages@) == messages_view(start) + curv.take(i as int),
            decreases n - i,
        {
            let c = cur[i].duplicate();
            let ghost before = self.messages@;
            self.messages.push(c);
            proof {
                lemma_push_view(before, c);
                lemma_views_len(cur@);
                assert(curv.take(i + 1) =~= curv.take(i as int).push(curv[i as int]));
            }
            i = i + 1;
        }
        assert(curv.take(n as int) =~= curv);
    }

    /// An error when any message is an error.
    pub fn stop_at_errors(&self) -> (r: Result<(), ()>)
        ensures
            r is Err <==> self@.any_error(),
    {
        let n = self.messages.len();
        let mut i: usize = 0;
        proof { lemma_views_len(self.messages@); }
        while i < n
            invariant
                n == self.messages@.len(),
                i <= n,
                forall|k: int| 0 <= k < i ==> #[trigger] self@.messages[k].kind != MessageKind::Error,
            decreases n - i,
        {
            proof { lemma_views_len(self.messages@); }
            assert(self@.messages[i as int] == self.messages@[i as int]@);
            if let MessageKind::Error = self.messages[i].kind {
                assert(self@.messages[i as int].kind == MessageKind::Error);
                return Err(());
            }
            i = i + 1;
        }
        Ok(())
    }

    /// Adds an error.
    pub fn error(&mut self, descr: &str)
        ensures
            final(self)@ == (ReportView {
                messages: old(self)@.messages.push(wrap_parents(old(self)@.parents,
                    MessageView { descr: descr@, kind: MessageKind::Error, span: None, short_excerpt: false, inner: Seq::empty() })),
                ..old(self)@
            }),
    {
        self.message(Message::error(descr));
    }

    /// Adds an error at `span`.
    pub fn error_span(&mut self, descr: &str, span: Span)
        ensures
            final(self)@ == (ReportView {
                messages: old(self)@.messages.push(wrap_parents(old(self)@.parents,
                    MessageView { descr: descr@, kind: MessageKind::Error, span: Some(span), short_excerpt: false, inner: Seq::empty() })),
                ..old(self)@
            }),
    {
        self.message(Message::error_span(descr, span));
    }

    /// Adds a warning.
    pub fn warning(&mut self, descr: &str)
        ensures
            final(self)@ == (ReportView {
                messages: old(self)@.messages.push(wrap_parents(old(self)@.parents,
                    MessageView { descr: descr@, kind: MessageKind::Warning, span: None, short_excerpt: false, inner: Seq::empty() })),
                ..old(self)@
            }),
    {
        self.message(Message::warning(descr));
    }

    /// Adds a warning at `span`.
    pub fn warning_span(&mut self, descr: &str, span: Span)
        ensures
            final(self)@ == (ReportView {
                messages: old(self)@.messages.push(wrap_parents(old(self)@.parents,
                    MessageView { descr: descr@, kind: MessageKind::Warning, span: Some(span), short_excerpt: false, inner: Seq::empty() })),
                ..old(self)@
            }),
    {
        self.message(Message::warning_span(descr, span));
    }

    /// Adds a note.
    pub fn note(&mut self, descr: &str)
        ensures
            final(self)@ == (ReportView {
                messages: old(self)@.messages.push(wrap_parents(old(self)@.parents,
                    MessageView { descr: descr@, kind: MessageKind::Note, span: None, short_excerpt: false, inner: Seq::empty() })),
                ..old(self)@
            }),
    {
        self.message(Message::note(descr));
    }

    /// Adds a note at `span`.
    pub fn note_span(&mut self, descr: &str, span: Span)
        ensures
            final(self)@ == (ReportView {
                messages: old(self)@.messages.push(wrap_parents(old(self)@.parents,
                    MessageView { descr: descr@, kind: MessageKind::Note, span: Some(span), short_excerpt: false, inner: Seq::empty() })),
                ..old(self)@
            }),
    {
        self.message(Message::note_span(descr, span));
    }

    /// Opens an error context at `span` for the messages that follow.
    pub fn push_parent(&mut self, descr: &str, span: Span)
        ensures
            final(self)@ == (ReportView {
                parents: old(self)@.parents.push(
                    MessageView { descr: descr@, kind: MessageKind::Error, span: Some(span), short_excerpt: false, inner: Seq::empty() }),
                ..old(self)@
            }),
    {
        let m = Message::error_span(descr, span);
        let ghost before = self.parents@;
        self.parents.push(m);
        proof { lemma_push_view(before, self.parents@.last()); }
    }

    /// Opens a note context at `span` for the messages that follow.
    pub fn push_parent_note(&mut self, descr: &str, span: Span)
        ensures
            final(self)@ == (ReportView {
                parents: old(self)@.parents.push(
                    MessageView { descr: descr@, kind: MessageKind::Note, span: Some(span), short_excerpt: false, inner: Seq::empty() }),
                ..old(self)@
            }),
    {
        let m = Message::note_span(descr, span);
        let ghost before = self.parents@;
        self.parents.push(m);
        proof { lemma_push_view(before, self.parents@.last()); }
    }

    /// Opens a short-excerpt note context at `span`.
    pub fn push_parent_short_note(&mut self, descr: &str, span: Span)
        ensures
            final(self)@ == (ReportView {
                parents: old(self)@.parents.push(
                    MessageView { descr: descr@, kind: MessageKind::Note, span: Some(span), short_excerpt: true, inner: Seq::empty() }),
                ..old(self)@
            }),
    {
        let m = Message::short_note_span(descr, span);
        let ghost before = self.parents@;
        self.parents.push(m);
        proof { lemma_push_view(before, self.parents@.last()); }
    }

    /// Closes the innermost context.
    pub fn pop_parent(&mut self)
        requires
            old(self)@.parents.len() > 0,
        ensures
            final(self)@ == (ReportView { parents: old(self)@.parents.drop_last(), ..old(self)@ }),
    {
        proof { lemma_views_len(self.parents@); }
        let ghost before = self.parents@;
        let _ = self.parents.pop();
        proof {
            assert(before =~= self.parents@.push(before.last()));
            lemma_push_view(self.parents@, before.last());
            assert(messages_view(before).drop_last() =~= messages_view(self.parents@));
        }
    }

    /// Caps the context: messages added with the capped wrappers are nested
    /// only in contexts opened from now on.
    pub fn push_parent_cap(&mut self)
        ensures
            final(self)@ == (ReportView { caps: old(self)@.caps.push(old(self)@.parents.len() as usize), ..old(self)@ }),
    {
        proof { lemma_views_len(self.parents@); }
        let n = self.parents.len();
        self.parent_cap.push(n);
    }

    /// Removes the last cap.
    pub fn pop_parent_cap(&mut self)
        requires
            old(self)@.caps.len() > 0,
        ensures
            final(self)@ == (ReportView { caps: old(self)@.caps.drop_last(), ..old(self)@ }),
    {
        let _ = self.parent_cap.pop();
    }

    /// The number of top-level messages.
    pub fn len(&self) -> (r: usize)
        ensures
            r == self@.messages.len(),
    {
        proof { lemma_views_len(self.messages@); }
        self.messages.len()
    }

    /// The number of messages, nested ones included.
    pub fn len_with_inner(&self) -> (r: usize)
        requires
            messages_count(self@.messages) <= usize::MAX,
        ensures
            r == messages_count(self@.messages),
    {
        let ghost mv = self@.messages;
        proof { lemma_views_len(self.messages@); }
        let n = self.messages.len();
        let mut count: usize = 0;
        let mut i: usize = 0;
        assert(mv.take(0) =~= Seq::<MessageView>::empty());
        while i < n
            invariant
                mv == self@.messages,
                n == mv.len(),
                n == self.messages@.len(),
                i <= n,
                messages_count(mv) <= usize::MAX,
                count == messages_count(mv.take(i as int)),
            decreases n - i,
        {
            proof {
                lemma_views_len(self.messages@);
                lemma_count_prefix(mv, i as int + 1);
                assert(mv[i as int] == self.messages@[i as int]@);
            }
            let c = self.messages[i].len_with_inner();
            count = count + c;
            i = i + 1;
        }
        assert(mv.take(n as int) =~= mv);
        count
    }

    /// Whether there are messages.
    pub fn has_messages(&self) -> (r: bool)
        ensures
            r == (self@.messages.len() != 0),
    {
        proof { lemma_views_len(self.messages@); }
        self.messages.len() != 0
    }

    /// Whether there are messages (of any kind, as the assembler only
    /// asks after errors could have been reported).
    pub fn has_errors(&self) -> (r: bool)
        ensures
            r == (self@.messages.len() != 0),
    {
        proof { lemma_views_len(self.messages@); }
        self.messages.len() != 0
    }

    /// Adds this report's messages to `other`, nested in `other`'s contexts.
    pub fn transfer_to(&mut self, other: &mut Report)
        ensures
            final(self)@ == old(self)@,
            final(other)@ == (ReportView {
                messages: old(other)@.messages + old(self)@.messages.map_values(|m: MessageView| wrap_parents(old(other)@.parents, m)),
                ..old(other)@
            }),
    {
        let ghost sv = self@.messages;
        let ghost op = other@.parents;
        proof { lemma_views_len(self.messages@); }
        let n = self.messages.len();
        let mut i: usize = 0;
        while i < n
            invariant
                sv == self@.messages,
                op == old(other)@.parents,
                self@ == old(self)@,
                n == self.messages@.len(),
                n == sv.len(),
                i <= n,
                other@ == (ReportView {
                    messages: old(other)@.messages + sv.take(i as int).map_values(|m: MessageView| wrap_parents(op, m)),
                    ..old(other)@
                }),
            decreases n - i,
        {
            proof { lemma_views_len(self.messages@); }
            let c = self.messages[i].duplicate();
            assert(sv[i as int] == c@);
            let ghost prev_msgs = other@.messages;
            assert(other@.parents == op);
            other.message(c);
            proof {
                let a = sv.take(i as int).map_values(|m: MessageView| wrap_parents(op, m));
                let b = sv.take(i + 1).map_values(|m: MessageView| wrap_parents(op, m));
                assert(b =~= a.push(wrap_parents(op, sv[i as int])));
                assert(other@.messages == prev_msgs.push(wrap_parents(op, c@)));
                assert(prev_msgs == old(other)@.messages + a);
                assert(other@.messages =~= old(other)@.messages + b);
            }
            i = i + 1;
        }
        assert(sv.take(n as int) =~= sv);
    }
}

/// Joining spans does not depend on their order, a span with an unknown
/// range changes nothing, and a join of known ranges covers both.
pub proof fn law_join(a: Span, b: Span)
    requires
        a.known() && b.known() ==> a.file_handle == b.file_handle,
    ensures
        a.joined(b) == b.joined(a) || !a.known() && !b.known(),
        !b.known() ==> a.joined(b) == a,
        !a.known() && b.known() ==> a.joined(b) == b,
        a.known() && b.known() ==> a.joined(b).loc().0 <= a.loc().0 && a.joined(b).loc().0 <= b.loc().0
            && a.joined(b).loc().1 >= a.loc().1 && a.joined(b).loc().1 >= b.loc().1,
{
}

/// Closing a context right after opening it gives back the report as it
/// was.
pub proof fn law_pop_parent_undoes_push_parent(r: ReportView, m: MessageView)
    ensures
        (ReportView { parents: (ReportView { parents: r.parents.push(m), ..r }).parents.drop_last(), ..r }) == r,
{
    assert(r.parents.push(m).drop_last() =~= r.parents);
}

/// Removing a cap right after adding one gives back the report as it was.
pub proof fn law_pop_cap_undoes_push_cap(r: ReportView)
    ensures
        (ReportView { caps: r.caps.push(r.parents.len() as usize).drop_last(), ..r }) == r,
{
    assert(r.caps.push(r.parents.len() as usize).drop_last() =~= r.caps);
}

/// A message nested in contexts shows, at the top, the kind of the
/// outermost context.
pub proof fn lemma_wrap_parents_kind(parents: Seq<MessageView>, msg: MessageView)
    ensures
        wrap_parents(parents, msg).kind == (if parents.len() == 0 { msg.kind } else { parents[0].kind }),
    decreases parents.len(),
{
    if parents.len() > 0 {
        let p1 = parents.drop_last();
        lemma_wrap_parents_kind(p1, nest_in(parents.last(), seq![msg]));
        if p1.len() > 0 {
            assert(p1[0] == parents[0]);
        }
    }
}

/// Once an error is reported outside any context, or inside contexts the
/// outermost of which is an error, the report stops at errors.
pub proof fn law_error_stops(r: ReportView, descr: Seq<char>)
    requires
        r.parents.len() == 0 || r.parents[0].kind == MessageKind::Error,
    ensures
        (ReportView {
            messages: r.messages.push(wrap_parents(r.parents,
                MessageView { descr: descr, kind: MessageKind::Error, span: None, short_excerpt: false, inner: Seq::empty() })),
            ..r
        }).any_error(),
{
    let m = MessageView { descr: descr, kind: MessageKind::Error, span: None, short_excerpt: false, inner: Seq::empty() };
    lemma_wrap_parents_kind(r.parents, m);
    let ms = r.messages.push(wrap_parents(r.parents, m));
    assert(ms[ms.len() - 1].kind == MessageKind::Error);
}

/// Counting nested messages counts at least every top-level one.
pub proof fn law_count_covers_top_level(ms: Seq<MessageView>)
    ensures
        messages_count(ms) >= ms.len(),
    decreases ms.len(),
{
    if ms.len() > 0 {
        law_count_covers_top_level(ms.drop_last());
        assert(message_count(ms.last()) >= 1);
    }
}

/// Every context kept is one of the contexts given.
proof fn lemma_distinct_members(p: Seq<MessageView>)
    ensures
        forall|i: int| 0 <= i < distinct_contexts(p).len()
            ==> exists|j: int| 0 <= j < p.len() && #[trigger] distinct_contexts(p)[i] == p[j],
    decreases p.len(),
{
    if p.len() > 0 {
        let q = p.drop_last();
        lemma_distinct_members(q);
        let d = distinct_contexts(p);
        assert forall|i: int| 0 <= i < d.len() implies exists|j: int| 0 <= j < p.len() && #[trigger] d[i] == p[j] by {
            if i < distinct_contexts(q).len() {
                let j = choose|j: int| 0 <= j < q.len() && distinct_contexts(q)[i] == q[j];
                assert(d[i] == p[j]);
            } else {
                assert(d[i] == p[p.len() - 1]);
            }
        }
    }
}

/// Contexts are kept without repetitions: no two kept contexts count as
/// the same.
pub proof fn law_distinct_contexts_distinct(p: Seq<MessageView>)
    ensures
        forall|i: int, j: int| 0 <= i < j < distinct_contexts(p).len()
            ==> !same_context(#[trigger] distinct_contexts(p)[i], #[trigger] distinct_contexts(p)[j]),
    decreases p.len(),
{
    if p.len() > 0 {
        let q = p.drop_last();
        law_distinct_contexts_distinct(q);
        lemma_distinct_members(q);
        let d = distinct_contexts(p);
        let dq = distinct_contexts(q);
        assert forall|i: int, j: int| 0 <= i < j < d.len() implies !same_context(#[trigger] d[i], #[trigger] d[j]) by {
            if j < dq.len() {
                assert(d[i] == dq[i] && d[j] == dq[j]);
            } else {
                let k = choose|k: int| 0 <= k < q.len() && dq[i] == q[k];
                assert(d[i] == p[k]);
                assert(!same_context(p[k], p.last()));
            }
        }
    }
}

/// Runs of match attempts are cut down: no two match-attempt contexts
/// stay next to each other.
pub proof fn law_collapse_leaves_no_adjacent_attempts(r: Seq<MessageView>)
    ensures
        forall|i: int| 0 <= i < collapse_match_attempts(r).len() - 1
            ==> !(is_match_attempt(#[trigger] collapse_match_attempts(r)[i]) && is_match_attempt(collapse_match_attempts(r)[i + 1])),
        r.len() > 0 ==> collapse_match_attempts(r).len() > 0,
        r.len() > 0 && !is_match_attempt(r.last()) ==> collapse_match_attempts(r).last() == r.last(),
    decreases r.len(),
{
    if r.len() > 0 {
        let q = r.drop_last();
        law_collapse_leaves_no_adjacent_attempts(q);
        let c = collapse_match_attempts(r);
        let cq = collapse_match_attempts(q);
        if !(is_match_attempt(r.last()) && r.len() >= 2 && is_match_attempt(r[r.len() - 2])) {
            assert forall|i: int| 0 <= i < c.len() - 1 implies !(is_match_attempt(#[trigger] c[i]) && is_match_attempt(c[i + 1])) by {
                if i < cq.len() - 1 {
                    assert(c[i] == cq[i] && c[i + 1] == cq[i + 1]);
                } else {
                    assert(c[i] == cq.last());
                    if is_match_attempt(r.last()) {
                        assert(q.last() == r[r.len() - 2]);
                    }
                }
            }
        }
    }
}

/// How a span prints for debugging: `Span(file#h)`, with `[start..end]`
/// before the `)` when the range is known.
pub open spec fn span_text(sp: Span) -> Seq<char> {
    "Span(file#"@ + dec(sp.file_handle as nat) + (if sp.known() {
        "["@ + dec(sp.start as nat) + ".."@ + dec(sp.end as nat) + "]"@
    } else {
        Seq::empty()
    }) + ")"@
}

/// How an optional span prints for debugging.
pub open spec fn opt_span_text(o: Option<Span>) -> Seq<char> {
    match o {
        Some(sp) => "Some("@ + span_text(sp) + ")"@,
        None => "None"@,
    }
}

/// The text a context is told apart by when contexts are deduplicated:
/// its description, `_`, and its span as it prints for debugging.
pub open spec fn context_key(m: MessageView) -> Seq<char> {
    m.descr + "_"@ + opt_span_text(m.span)
}

impl Span {
    /// The span as it prints for debugging, as `span_text` says.
    pub fn debug_text(&self) -> (r: String)
        ensures
            r@ == span_text(*self),
    {
        let mut out: Vec<char> = Vec::new();
        push_str(&mut out, "Span(file#");
        push_radix(&mut out, self.file_handle, 10, false);
        if self.start != SpanIndex::MAX {
            push_str(&mut out, "[");
            push_radix(&mut out, self.start as u64, 10, false);
            push_str(&mut out, "..");
            push_radix(&mut out, self.end as u64, 10, false);
            push_str(&mut out, "]");
        }
        push_str(&mut out, ")");
        assert(out@ =~= span_text(*self));
        chars_to_string(&out)
    }
}

/// Whether `c` occurs nowhere in `s`.
pub open spec fn lacks(s: Seq<char>, c: char) -> bool {
    forall|i: int| 0 <= i < s.len() ==> #[trigger] s[i] != c
}

/// Decimal digits hold no `_`.
proof fn lemma_dec_lacks_underscore(v: nat)
    ensures
        lacks(dec(v), '_'),
{
    lemma_dec_digits(v);
    assert forall|i: int| 0 <= i < dec(v).len() implies #[trigger] dec(v)[i] != '_' by {
        assert(is_dec_digit(dec(v)[i]));
    }
}

/// A span's debugging text holds no `_`.
proof fn lemma_span_text_lacks_underscore(o: Option<Span>)
    ensures
        lacks(opt_span_text(o), '_'),
{
    reveal_strlit("Span(file#");
    reveal_strlit("[");
    reveal_strlit("..");
    reveal_strlit("]");
    reveal_strlit(")");
    reveal_strlit("Some(");
    reveal_strlit("None");
    if let Some(sp) = o {
        lemma_dec_lacks_underscore(sp.file_handle as nat);
        lemma_dec_lacks_underscore(sp.start as nat);
        lemma_dec_lacks_underscore(sp.end as nat);
        let mid: Seq<char> = if sp.known() {
            "["@ + dec(sp.start as nat) + ".."@ + dec(sp.end as nat) + "]"@
        } else {
            Seq::empty()
        };
        assert(lacks(mid, '_'));
        assert(lacks(span_text(sp), '_'));
    }
}

/// Text ending in a separator and a part without that separator splits
/// there in one way only.
proof fn lemma_split_at_last(x1: Seq<char>, d1: Seq<char>, x2: Seq<char>, d2: Seq<char>, sep: char)
    requires
        lacks(d1, sep),
        lacks(d2, sep),
        x1 + seq![sep] + d1 == x2 + seq![sep] + d2,
    ensures
        x1 == x2,
        d1 == d2,
{
    let t = x1 + seq![sep] + d1;
    if d1.len() < d2.len() {
        let k = t.len() - d1.len() - 1;
        assert(t[k] == sep);
        assert(t[k] == d2[d2.len() - d1.len() - 1]);
    } else if d2.len() < d1.len() {
        let k = t.len() - d2.len() - 1;
        assert(t[k] == sep);
        assert(t[k] == d1[d1.len() - d2.len() - 1]);
    } else {
        assert(x1 =~= t.subrange(0, x1.len() as int));
        assert(x2 =~= t.subrange(0, x2.len() as int));
        assert(d1 =~= t.subrange(t.len() - d1.len(), t.len() as int));
        assert(d2 =~= t.subrange(t.len() - d2.len(), t.len() as int));
    }
}

/// Spans that print alike for debugging print the same.
proof fn lemma_span_text_injective(a: Span, b: Span)
    requires
        span_text(a) == span_text(b),
    ensures
        a.same_printed(b),
{
    reveal_strlit("Span(file#");
    reveal_strlit("[");
    reveal_strlit("..");
    reveal_strlit("]");
    reveal_strlit(")");
    reveal_strlit("]");
    let p = "Span(file#"@;
    let ra: Seq<char> = (if a.known() { "["@ + dec(a.start as nat) + ".."@ + dec(a.end as nat) + "]"@ } else { Seq::empty() }) + ")"@;
    let rb: Seq<char> = (if b.known() { "["@ + dec(b.start as nat) + ".."@ + dec(b.end as nat) + "]"@ } else { Seq::empty() }) + ")"@;
    assert(span_text(a) =~= p + (dec(a.file_handle as nat) + ra));
    assert(span_text(b) =~= p + (dec(b.file_handle as nat) + rb));
    assert(dec(a.file_handle as nat) + ra =~= span_text(a).subrange(p.len() as int, span_text(a).len() as int));
    assert(dec(b.file_handle as nat) + rb =~= span_text(b).subrange(p.len() as int, span_text(b).len() as int));
    lemma_dec_digits(a.file_handle as nat);
    lemma_dec_digits(b.file_handle as nat);
    assert(!is_dec_digit(ra[0]));
    assert(!is_dec_digit(rb[0]));
    lemma_digits_split(dec(a.file_handle as nat), ra, dec(b.file_handle as nat), rb);
    lemma_dec_injective(a.file_handle as nat, b.file_handle as nat);
    if a.known() && b.known() {
        let sa = ".."@ + dec(a.end as nat) + "]"@ + ")"@;
        let sb = ".."@ + dec(b.end as nat) + "]"@ + ")"@;
        assert(ra =~= "["@ + (dec(a.start as nat) + sa));
        assert(rb =~= "["@ + (dec(b.start as nat) + sb));
        assert(dec(a.start as nat) + sa =~= ra.subrange(1, ra.len() as int));
        assert(dec(b.start as nat) + sb =~= rb.subrange(1, rb.len() as int));
        lemma_dec_digits(a.start as nat);
        lemma_dec_digits(b.start as nat);
        lemma_digits_split(dec(a.start as nat), sa, dec(b.start as nat), sb);
        lemma_dec_injective(a.start as nat, b.start as nat);
        let ta = "]"@ + ")"@;
        assert(sa =~= ".."@ + (dec(a.end as nat) + ta));
        assert(sb =~= ".."@ + (dec(b.end as nat) + ta));
        assert(dec(a.end as nat) + ta =~= sa.subrange(2, sa.len() as int));
        assert(dec(b.end as nat) + ta =~= sb.subrange(2, sb.len() as int));
        lemma_dec_digits(a.end as nat);
        lemma_dec_digits(b.end as nat);
        lemma_digits_split(dec(a.end as nat), ta, dec(b.end as nat), ta);
        lemma_dec_injective(a.end as nat, b.end as nat);
    } else if a.known() {
        assert(ra[0] == '[' && rb[0] == ')');
    } else if b.known() {
        assert(ra[0] == ')' && rb[0] == '[');
    }
}

/// Deduplication tells contexts apart exactly as their text keys do: two
/// contexts count as the same when, and only when, their description and
/// the debugging text of their span are the same.
pub proof fn law_same_context_is_same_key(a: MessageView, b: MessageView)
    ensures
        same_context(a, b) <==> context_key(a) == context_key(b),
{
    reveal_strlit("_");
    reveal_strlit("Some(");
    reveal_strlit("None");
    reveal_strlit(")");
    if context_key(a) == context_key(b) {
        lemma_span_text_lacks_underscore(a.span);
        lemma_span_text_lacks_underscore(b.span);
        assert("_"@ =~= seq!['_']);
        assert(context_key(a) =~= a.descr + seq!['_'] + opt_span_text(a.span));
        assert(context_key(b) =~= b.descr + seq!['_'] + opt_span_text(b.span));
        lemma_split_at_last(a.descr, opt_span_text(a.span), b.descr, opt_span_text(b.span), '_');
        match (a.span, b.span) {
            (Some(x), Some(y)) => {
                let ta = opt_span_text(a.span);
                assert(span_text(x) =~= ta.subrange(5, ta.len() - 1));
                assert(span_text(y) =~= opt_span_text(b.span).subrange(5, ta.len() - 1));
                lemma_span_text_injective(x, y);
            },
            (Some(x), None) => {
                assert(opt_span_text(a.span)[0] == 'S');
            },
            (None, Some(y)) => {
                assert(opt_span_text(b.span)[0] == 'S');
            },
            (None, None) => {},
        }
    }
}

} // verus!
