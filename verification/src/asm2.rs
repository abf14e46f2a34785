//! Pieces of the assembler's resolution passes: item definition lists,
//! resolution state, alignment and bank-overlap checks.
use vstd::prelude::*;
use crate::diagn::{MessageKind, MessageView, Report, ReportView, Span, wrap_parents};
use crate::text::{chars_to_string, push_str};

verus! {

/// Number of padding bits needed to advance `position` to the next
/// multiple of `alignment`; an alignment of zero asks for no padding.
pub fn bits_until_alignment(position: usize, alignment: usize) -> (r: usize)
    ensures
        alignment == 0 ==> r == 0,
        alignment != 0 ==> r == (if position % alignment == 0 { 0 } else { alignment - position % alignment }),
        alignment != 0 ==> r < alignment && (position + r) % (alignment as int) == 0,
{
    if alignment == 0 {
        return 0;
    }
    let excess_bits = position % alignment;
    if excess_bits != 0 {
        assert((position + (alignment - excess_bits)) % (alignment as int) == 0) by (nonlinear_arith)
            requires excess_bits == position % alignment, alignment > 0;
        alignment - excess_bits
    } else {
        0
    }
}

/// The items of one kind, stored at the positions of their references.
pub struct DefList<T> {
    pub defs: Vec<T>,
}

impl<T> DefList<T> {
    /// An empty list.
    pub fn new() -> (r: DefList<T>)
        ensures
            r.defs@ == Seq::<T>::empty(),
    {
        DefList::<T> { defs: Vec::new() }
    }

    /// Stores `item` at position `item_ref`, moving later items up.
    pub fn define(&mut self, item_ref: usize, item: T)
        requires
            item_ref <= old(self).defs@.len(),
        ensures
            final(self).defs@ == old(self).defs@.insert(item_ref as int, item),
    {
        self.defs.insert(item_ref, item);
    }

    /// The item at position `item_ref`, to change in place.
    pub fn get_mut(&mut self, item_ref: usize) -> (r: &mut T)
        requires
            item_ref < old(self).defs@.len(),
        ensures
            *r == old(self).defs@[item_ref as int],
            final(self).defs@ == old(self).defs@.update(item_ref as int, *final(r)),
    {
        &mut self.defs[item_ref]
    }

    /// The item at position `item_ref`.
    pub fn get(&self, item_ref: usize) -> (r: &T)
        requires
            item_ref < self.defs@.len(),
        ensures
            *r == self.defs@[item_ref as int],
    {
        &self.defs[item_ref]
    }
}

/// Whether a resolution pass left anything unresolved.
pub enum ResolutionState {
    Unresolved,
    Resolved,
}

impl ResolutionState {
    /// Combines with the state of another pass: unresolved if either is.
    pub fn merge(&mut self, other: ResolutionState)
        ensures
            *final(self) == (if other is Unresolved { ResolutionState::Unresolved } else { *old(self) }),
    {
        if let ResolutionState::Unresolved = other {
            *self = ResolutionState::Unresolved;
        }
    }
}

/// The output position reached in one bank.
#[derive(Copy, Clone)]
pub struct BankData {
    pub cur_position: usize,
}

/// Options for an assembly run.
#[derive(Copy, Clone)]
pub struct AssemblyOptions {
    pub debug_iterations: bool,
}

/// What the overlap check needs of a bank: its name and where it was
/// declared, where its output goes, and its size in address units of
/// `addr_unit` bits.
pub struct BankOutput {
    pub name: String,
    pub span: Span,
    pub output_offset: Option<usize>,
    pub addr_size: Option<usize>,
    pub addr_unit: usize,
}

/// The output size of a bank in bits, when it has one.
pub open spec fn bank_size(b: BankOutput) -> Option<int> {
    match b.addr_size {
        Some(s) => Some(s * b.addr_unit),
        None => None,
    }
}

/// Whether the output of two placed banks overlaps; a bank without a size
/// reaches to the end.
pub open spec fn banks_overlap(a: BankOutput, b: BankOutput) -> bool {
    let o1 = a.output_offset.unwrap() as int;
    let o2 = b.output_offset.unwrap() as int;
    match (bank_size(a), bank_size(b)) {
        (None, None) => true,
        (Some(s1), None) => o1 + s1 > o2,
        (None, Some(s2)) => o2 + s2 > o1,
        (Some(s1), Some(s2)) => o1 + s1 > o2 && o2 + s2 > o1,
    }
}

/// Whether banks `i` and `j` are both placed and overlap.
pub open spec fn pair_overlaps(banks: Seq<BankOutput>, i: int, j: int) -> bool {
    banks[i].output_offset is Some && banks[j].output_offset is Some && banks_overlap(banks[i], banks[j])
}

/// Whether some pair `i < j` of banks after the first overlaps, with `i`
/// below `upto`.
pub open spec fn some_overlap_before(banks: Seq<BankOutput>, upto: int) -> bool {
    exists|i: int, j: int| 1 <= i < upto && i < j < banks.len() && #[trigger] pair_overlaps(banks, i, j)
}

/// Whether a placed bank's end can be computed without overflow.
pub open spec fn bank_fits(b: BankOutput) -> bool {
    b.output_offset is Some ==> match b.addr_size {
        Some(s) => b.output_offset.unwrap() + s * b.addr_unit <= usize::MAX,
        None => true,
    }
}

/// The message opening an overlap report.
pub open spec fn overlap_message(a: BankOutput, b: BankOutput) -> Seq<char> {
    "output of bank `"@ + a.name@ + "` overlaps with bank `"@ + b.name@ + "`"@
}

/// The note pointing at the second bank of an overlap.
pub open spec fn defined_here_message(b: BankOutput) -> Seq<char> {
    "bank `"@ + b.name@ + "` defined here"@
}

/// The end of a placed bank, computed as the overlap check does.
fn bank_end(b: &BankOutput) -> (r: Option<usize>)
    requires
        b.output_offset is Some,
        bank_fits(*b),
    ensures
        match bank_size(*b) {
            Some(s) => r == Some((b.output_offset.unwrap() + s) as usize),
            None => r is None,
        },
{
    match b.addr_size {
        Some(s) => {
            let o = match b.output_offset {
                Some(o) => o,
                None => 0,
            };
            assert(s * b.addr_unit <= usize::MAX) by (nonlinear_arith)
                requires o + s * b.addr_unit <= usize::MAX, o >= 0;
            Some(o + s * b.addr_unit)
        },
        None => None,
    }
}

/// Checks that no two placed banks after the first have overlapping
/// output. On the first overlapping pair, in order, reports an error in
/// the context of the first bank with a note at the second, and fails.
pub fn check_bank_overlap(report: &mut Report, banks: &Vec<BankOutput>) -> (r: Result<(), ()>)
    requires
        forall|i: int| 0 <= i < banks@.len() ==> #[trigger] bank_fits(banks@[i]),
    ensures
        r is Ok <==> !some_overlap_before(banks@, banks@.len() as int),
        r is Ok ==> final(report)@ == old(report)@,
        r is Err ==> exists|i: int, j: int|
            1 <= i < j < banks@.len() && #[trigger] pair_overlaps(banks@, i, j)
            && !some_overlap_before(banks@, i)
            && (forall|k: int| i < k < j ==> !pair_overlaps(banks@, i, k))
            && final(report)@ == (ReportView {
                parents: old(report)@.parents.push(MessageView {
                    descr: overlap_message(banks@[i], banks@[j]),
                    kind: MessageKind::Error,
                    span: Some(banks@[i].span),
                    short_excerpt: false,
                    inner: Seq::empty(),
                }),
                messages: old(report)@.messages.push(wrap_parents(
                    old(report)@.parents.push(MessageView {
                        descr: overlap_message(banks@[i], banks@[j]),
                        kind: MessageKind::Error,
                        span: Some(banks@[i].span),
                        short_excerpt: false,
                        inner: Seq::empty(),
                    }),
                    MessageView {
                        descr: defined_here_message(banks@[j]),
                        kind: MessageKind::Note,
                        span: Some(banks@[j].span),
                        short_excerpt: false,
                        inner: Seq::empty(),
                    })),
                ..old(report)@
            }),
{
    let n = banks.len();
    let mut i: usize = 1;
    while i < n
        invariant
            n == banks@.len(),
            1 <= i,
            forall|k: int| 0 <= k < banks@.len() ==> #[trigger] bank_fits(banks@[k]),
            !some_overlap_before(banks@, i as int),
            report@ == old(report)@,
        decreases n - i,
    {
        let b1 = &banks[i];
        if b1.output_offset.is_some() {
            let mut j = i + 1;
            while j < n
                invariant
                    n == banks@.len(),
                    1 <= i < n,
                    i < j,
                    b1 == banks@[i as int],
                    b1.output_offset is Some,
                    forall|k: int| 0 <= k < banks@.len() ==> #[trigger] bank_fits(banks@[k]),
                    !some_overlap_before(banks@, i as int),
                    forall|k: int| i < k < j ==> !pair_overlaps(banks@, i as int, k),
                    report@ == old(report)@,
                decreases n - j,
            {
                let b2 = &banks[j];
                if b2.output_offset.is_some() {
                    assert(bank_fits(banks@[i as int]) && bank_fits(banks@[j as int]));
                    let outp1 = match b1.output_offset { Some(o) => o, None => 0 };
                    let outp2 = match b2.output_offset { Some(o) => o, None => 0 };
                    let end1 = bank_end(b1);
                    let end2 = bank_end(b2);
                    let overlap = match (end1, end2) {
                        (None, None) => true,
                        (Some(e1), None) => e1 > outp2,
                        (None, Some(e2)) => e2 > outp1,
                        (Some(e1), Some(e2)) => e1 > outp2 && e2 > outp1,
                    };
                    assert(overlap == pair_overlaps(banks@, i as int, j as int));
                    if overlap {
                        let mut msg: Vec<char> = Vec::new();
                        push_str(&mut msg, "output of bank `");
                        push_str(&mut msg, b1.name.as_str());
                        push_str(&mut msg, "` overlaps with bank `");
                        push_str(&mut msg, b2.name.as_str());
                        push_str(&mut msg, "`");
                        let msg = chars_to_string(&msg);
                        report.push_parent(msg.as_str(), b1.span);
                        let mut note: Vec<char> = Vec::new();
                        push_str(&mut note, "bank `");
                        push_str(&mut note, b2.name.as_str());
                        push_str(&mut note, "` defined here");
                        let note = chars_to_string(&note);
                        report.note_span(note.as_str(), b2.span);
                        assert(pair_overlaps(banks@, i as int, j as int));
                        return Err(());
                    }
                }
                j = j + 1;
            }
        }
        assert forall|a: int, c: int| 1 <= a < i + 1 && a < c < banks@.len() implies !#[trigger] pair_overlaps(banks@, a, c) by {
            if a < i {
                assert(!some_overlap_before(banks@, i as int));
            }
        }
        i = i + 1;
    }
    Ok(())
}

/// A named field of a directive, as the name check reads it: its name and
/// where it was written.
pub struct AstField {
    pub span: Span,
    pub name: String,
}

/// The message for a field a directive does not take.
pub open spec fn invalid_field_message(name: Seq<char>) -> Seq<char> {
    "invalid field `"@ + name + "`"@
}

/// Whether `name` is among `valid`.
pub open spec fn name_listed(valid: Seq<Seq<char>>, name: Seq<char>) -> bool {
    exists|i: int| 0 <= i < valid.len() && valid[i] == name
}

/// The errors for the first `n` fields whose names are not valid, in order.
pub open spec fn field_errors(fields: Seq<AstField>, valid: Seq<Seq<char>>, n: int) -> Seq<MessageView>
    decreases n,
{
    if n <= 0 {
        Seq::empty()
    } else {
        field_errors(fields, valid, n - 1) + (if name_listed(valid, fields[n - 1].name@) {
            Seq::empty()
        } else {
            seq![MessageView {
                descr: invalid_field_message(fields[n - 1].name@),
                kind: MessageKind::Error,
                span: Some(fields[n - 1].span),
                short_excerpt: false,
                inner: Seq::empty(),
            }]
        })
    }
}

/// The abstract values of a list of names.
pub open spec fn names_view(v: Seq<&str>) -> Seq<Seq<char>> {
    v.map_values(|s: &str| s@)
}

/// Whether `name` is one of `valid_names`.
fn name_is_valid(valid_names: &Vec<&str>, name: &str) -> (r: bool)
    ensures
        r == name_listed(names_view(valid_names@), name@),
{
    let ghost vv = names_view(valid_names@);
    let mut i: usize = 0;
    while i < valid_names.len()
        invariant
            vv == names_view(valid_names@),
            i <= valid_names@.len(),
            forall|k: int| 0 <= k < i ==> vv[k] != name@,
        decreases valid_names.len() - i,
    {
        if crate::text::str_eq(valid_names[i], name) {
            assert(vv[i as int] == name@);
            return true;
        }
        i = i + 1;
    }
    false
}

/// Reports each field whose name is not among `valid_names`, in order,
/// and fails when there was one.
pub fn validate_names(report: &mut Report, fields: &Vec<AstField>, valid_names: &Vec<&str>) -> (r: Result<(), ()>)
    ensures
        final(report)@ == (ReportView {
            messages: old(report)@.messages + field_errors(fields@, names_view(valid_names@), fields@.len() as int)
                .map_values(|m: MessageView| wrap_parents(old(report)@.parents, m)),
            ..old(report)@
        }),
        r is Ok <==> field_errors(fields@, names_view(valid_names@), fields@.len() as int).len() == 0,
{
    let ghost vv = names_view(valid_names@);
    let ghost r0 = report@;
    let mut had_error = false;
    let n = fields.len();
    let mut i: usize = 0;
    while i < n
        invariant
            n == fields@.len(),
            vv == names_view(valid_names@),
            i <= n,
            report@ == (ReportView {
                messages: r0.messages + field_errors(fields@, vv, i as int).map_values(|m: MessageView| wrap_parents(r0.parents, m)),
                ..r0
            }),
            had_error == (field_errors(fields@, vv, i as int).len() > 0),
        decreases n - i,
    {
        let field = &fields[i];
        let ghost before = report@;
        if !name_is_valid(valid_names, field.name.as_str()) {
            let mut msg: Vec<char> = Vec::new();
            push_str(&mut msg, "invalid field `");
            push_str(&mut msg, field.name.as_str());
            push_str(&mut msg, "`");
            let msg = chars_to_string(&msg);
            report.error_span(msg.as_str(), field.span);
            had_error = true;
            let ghost m = field_errors(fields@, vv, i + 1);
            assert(field_errors(fields@, vv, i + 1).map_values(|m: MessageView| wrap_parents(r0.parents, m))
                =~= field_errors(fields@, vv, i as int).map_values(|m: MessageView| wrap_parents(r0.parents, m))
                    .push(wrap_parents(r0.parents, m.last())));
        } else {
            assert(field_errors(fields@, vv, i + 1) =~= field_errors(fields@, vv, i as int));
        }
        i = i + 1;
    }
    if had_error {
        Err(())
    } else {
        Ok(())
    }
}

} // verus!
