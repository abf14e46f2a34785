//! Instruction-set configuration: rule patterns with typed variables.
use vstd::prelude::*;
use crate::text::{parse_unsigned, parse_unsigned_chars, str_chars, str_eq};

verus! {

/// The type of a pattern variable: its width and signedness.
#[derive(Copy, Clone)]
pub struct VariableType {
    pub size_bits: usize,
    pub signed: bool,
}

/// One part of a rule pattern: literal text, or a typed variable.
pub enum PatternSegment {
    Literal(String),
    Variable(String, VariableType),
}

/// One part of a rule production: literal bits, or a bit slice of a
/// variable.
pub enum ProductionSegment {
    Literal(Vec<bool>),
    Variable { name: String, leftmost_bit: usize, rightmost_bit: usize },
}

/// The abstract value of a pattern segment.
pub enum SegmentView {
    Literal(Seq<char>),
    Variable(Seq<char>, VariableType),
}

impl View for PatternSegment {
    type V = SegmentView;

    open spec fn view(&self) -> SegmentView {
        match self {
            PatternSegment::Literal(s) => SegmentView::Literal(s@),
            PatternSegment::Variable(n, t) => SegmentView::Variable(n@, *t),
        }
    }
}

/// The abstract values of a list of pattern segments.
pub open spec fn segments_view(s: Seq<PatternSegment>) -> Seq<SegmentView> {
    s.map_values(|p: PatternSegment| p@)
}

/// The type of the first variable named `name`, if any.
pub open spec fn variable_type_of(s: Seq<SegmentView>, name: Seq<char>) -> Option<VariableType>
    decreases s.len(),
{
    if s.len() == 0 {
        None
    } else {
        match s[0] {
            SegmentView::Variable(n, t) => if n == name { Some(t) } else { variable_type_of(s.drop_first(), name) },
            SegmentView::Literal(_) => variable_type_of(s.drop_first(), name),
        }
    }
}

/// Whether a variable named `name` is among the segments.
pub fn does_variable_exists(pattern_segments: &Vec<PatternSegment>, name: &str) -> (r: bool)
    ensures
        r == (variable_type_of(segments_view(pattern_segments@), name@) is Some),
{
    get_variable_type(pattern_segments, name).is_some()
}

/// The type of the first variable named `name` among the segments.
pub fn get_variable_type(pattern_segments: &Vec<PatternSegment>, name: &str) -> (r: Option<VariableType>)
    ensures
        r == variable_type_of(segments_view(pattern_segments@), name@),
{
    let ghost v = segments_view(pattern_segments@);
    let n = pattern_segments.len();
    let mut i: usize = 0;
    assert(v.skip(0) =~= v);
    while i < n
        invariant
            n == pattern_segments@.len(),
            v == segments_view(pattern_segments@),
            i <= n,
            variable_type_of(v, name@) == variable_type_of(v.skip(i as int), name@),
        decreases n - i,
    {
        assert(v.skip(i as int)[0] == pattern_segments@[i as int]@);
        assert(v.skip(i as int).drop_first() =~= v.skip(i + 1));
        match &pattern_segments[i] {
            PatternSegment::Variable(var_name, typ) => {
                if str_eq(var_name.as_str(), name) {
                    return Some(*typ);
                }
            },
            PatternSegment::Literal(_) => {},
        }
        i = i + 1;
    }
    None
}

/// Why a configuration failed to parse.
pub enum ConfigError {
    /// A variable type that is not `u` or `i` followed by a width.
    InvalidType,
    /// A variable declared twice in one pattern.
    DuplicateVariable(String),
    /// A token that cannot start a pattern segment.
    ExpectedPattern,
    /// A token where an identifier was needed.
    ExpectedIdentifier,
    /// A token where the given operator was needed.
    ExpectedOperator(String),
}

/// The variable type an identifier such as `u8` or `i16` names: `u` for
/// unsigned, `i` for signed, then the width in decimal.
pub open spec fn variable_type_identd(ident: Seq<char>) -> Option<VariableType> {
    if ident[0] != 'u' && ident[0] != 'i' {
        None
    } else {
        match parse_unsigned(ident.drop_first(), usize::MAX as nat) {
            Some(bits) => Some(VariableType { size_bits: bits as usize, signed: ident[0] == 'i' }),
            None => None,
        }
    }
}

/// Reads a variable type identifier.
pub fn parse_variable_type(ident: &str) -> (r: Result<VariableType, ConfigError>)
    requires
        ident@.len() > 0,
    ensures
        match variable_type_identd(ident@) {
            Some(t) => r matches Ok(v) && v == t,
            None => r matches Err(ConfigError::InvalidType),
        },
{
    let chars = str_chars(ident);
    let first = chars[0];
    let signed = if first == 'u' {
        false
    } else if first == 'i' {
        true
    } else {
        return Err(ConfigError::InvalidType);
    };
    let mut rest: Vec<char> = Vec::new();
    let mut k: usize = 1;
    while k < chars.len()
        invariant
            chars@ == ident@,
            1 <= k <= chars@.len(),
            rest@ == chars@.subrange(1, k as int),
        decreases chars.len() - k,
    {
        rest.push(chars[k]);
        k = k + 1;
        assert(rest@ =~= chars@.subrange(1, k as int));
    }
    assert(rest@ =~= ident@.drop_first());
    match parse_unsigned_chars(&rest, usize::MAX as u64) {
        Some(bits) => Ok(VariableType { size_bits: bits as usize, signed }),
        None => Err(ConfigError::InvalidType),
    }
}

/// The abstract value of a configuration error.
pub enum ConfigErrorView {
    InvalidType,
    DuplicateVariable(Seq<char>),
    ExpectedPattern,
    ExpectedIdentifier,
    ExpectedOperator(Seq<char>),
}

impl View for ConfigError {
    type V = ConfigErrorView;

    open spec fn view(&self) -> ConfigErrorView {
        match self {
            ConfigError::InvalidType => ConfigErrorView::InvalidType,
            ConfigError::DuplicateVariable(n) => ConfigErrorView::DuplicateVariable(n@),
            ConfigError::ExpectedPattern => ConfigErrorView::ExpectedPattern,
            ConfigError::ExpectedIdentifier => ConfigErrorView::ExpectedIdentifier,
            ConfigError::ExpectedOperator(o) => ConfigErrorView::ExpectedOperator(o@),
        }
    }
}

/// A token of the configuration language.
pub enum Token {
    Identifier(String),
    Operator(String),
    Number(usize, String),
    End,
}

/// The abstract value of a token.
pub enum TokenView {
    Identifier(Seq<char>),
    Operator(Seq<char>),
    Number(usize, Seq<char>),
    End,
}

impl View for Token {
    type V = TokenView;

    open spec fn view(&self) -> TokenView {
        match self {
            Token::Identifier(s) => TokenView::Identifier(s@),
            Token::Operator(s) => TokenView::Operator(s@),
            Token::Number(r, s) => TokenView::Number(*r, s@),
            Token::End => TokenView::End,
        }
    }
}

/// The abstract values of a token list.
pub open spec fn tokens_view(t: Seq<Token>) -> Seq<TokenView> {
    t.map_values(|x: Token| x@)
}

/// The token at `pos`, or the end past the last one.
pub open spec fn token_at(ts: Seq<TokenView>, pos: int) -> TokenView {
    if 0 <= pos < ts.len() {
        ts[pos]
    } else {
        TokenView::End
    }
}

/// Whether every identifier token has at least one character.
pub open spec fn identifiers_nonempty(ts: Seq<TokenView>) -> bool {
    forall|i: int| 0 <= i < ts.len() ==> (#[trigger] ts[i] matches TokenView::Identifier(s) ==> s.len() > 0)
}

/// The pattern read from token `pos` up to the `->` that ends it, after
/// the segments `segs` already read: identifiers and operators stand for
/// themselves, and `{name: type}` declares a variable. The result is the
/// segments and the position of the `->`.
pub open spec fn pattern_from(ts: Seq<TokenView>, pos: int, segs: Seq<SegmentView>) -> Result<(Seq<SegmentView>, int), ConfigErrorView>
    decreases ts.len() - pos,
{
    if pos < 0 || pos >= ts.len() {
        Err(ConfigErrorView::ExpectedPattern)
    } else {
        match ts[pos] {
            TokenView::Operator(op) => if op == "->"@ {
                Ok((segs, pos))
            } else if op == "{"@ {
                match token_at(ts, pos + 1) {
                    TokenView::Identifier(name) => if variable_type_of(segs, name) is Some {
                        Err(ConfigErrorView::DuplicateVariable(name))
                    } else if token_at(ts, pos + 2) != TokenView::Operator(":"@) {
                        Err(ConfigErrorView::ExpectedOperator(":"@))
                    } else {
                        match token_at(ts, pos + 3) {
                            TokenView::Identifier(t) => match variable_type_identd(t) {
                                Some(vt) => if token_at(ts, pos + 4) != TokenView::Operator("}"@) {
                                    Err(ConfigErrorView::ExpectedOperator("}"@))
                                } else {
                                    pattern_from(ts, pos + 5, segs.push(SegmentView::Variable(name, vt)))
                                },
                                None => Err(ConfigErrorView::InvalidType),
                            },
                            _ => Err(ConfigErrorView::ExpectedIdentifier),
                        }
                    },
                    _ => Err(ConfigErrorView::ExpectedIdentifier),
                }
            } else {
                pattern_from(ts, pos + 1, segs.push(SegmentView::Literal(op)))
            },
            TokenView::Identifier(s) => pattern_from(ts, pos + 1, segs.push(SegmentView::Literal(s))),
            _ => Err(ConfigErrorView::ExpectedPattern),
        }
    }
}

/// Whether token `pos` is the operator `op`.
fn is_operator_at(tokens: &Vec<Token>, pos: usize, op: &str) -> (r: bool)
    ensures
        r == (token_at(tokens_view(tokens@), pos as int) == TokenView::Operator(op@)),
{
    if pos < tokens.len() {
        match &tokens[pos] {
            Token::Operator(o) => str_eq(o.as_str(), op),
            _ => false,
        }
    } else {
        false
    }
}

/// Reads a rule pattern from token `pos` up to the `->` that ends it,
/// returning its segments and the position of the `->`.
pub fn parse_pattern(tokens: &Vec<Token>, pos: usize) -> (r: Result<(Vec<PatternSegment>, usize), ConfigError>)
    requires
        identifiers_nonempty(tokens_view(tokens@)),
        tokens@.len() + 8 <= usize::MAX,
    ensures
        match pattern_from(tokens_view(tokens@), pos as int, Seq::empty()) {
            Ok((segs, end)) => r matches Ok((v, e)) && segments_view(v@) == segs && e == end,
            Err(err) => r matches Err(e) && e@ == err,
        },
{
    let ghost ts = tokens_view(tokens@);
    let ghost start = pos as int;
    let mut segments: Vec<PatternSegment> = Vec::new();
    let mut cur = pos;
    assert(segments_view(segments@) =~= Seq::<SegmentView>::empty());
    while cur < tokens.len()
        invariant
            ts == tokens_view(tokens@),
            start == pos as int,
            identifiers_nonempty(ts),
            tokens@.len() + 8 <= usize::MAX,
            pattern_from(ts, cur as int, segments_view(segments@)) == pattern_from(ts, start, Seq::empty()),
        decreases tokens@.len() - cur,
    {
        let ghost sv = segments_view(segments@);
        assert(ts[cur as int] == tokens@[cur as int]@);
        match &tokens[cur] {
            Token::Operator(op) => {
                if str_eq(op.as_str(), "->") {
                    return Ok((segments, cur));
                } else if str_eq(op.as_str(), "{") {
                    let name = match if cur + 1 < tokens.len() { Some(&tokens[cur + 1]) } else { None } {
                        Some(Token::Identifier(n)) => n,
                        _ => {
                            return Err(ConfigError::ExpectedIdentifier);
                        },
                    };
                    assert(token_at(ts, cur + 1) == TokenView::Identifier(name@));
                    if does_variable_exists(&segments, name.as_str()) {
                        return Err(ConfigError::DuplicateVariable(name.clone()));
                    }
                    if !is_operator_at(tokens, cur + 2, ":") {
                        return Err(ConfigError::ExpectedOperator(String::from_str(":")));
                    }
                    let type_ident = match if cur + 3 < tokens.len() { Some(&tokens[cur + 3]) } else { None } {
                        Some(Token::Identifier(t)) => t,
                        _ => {
                            return Err(ConfigError::ExpectedIdentifier);
                        },
                    };
                    assert(token_at(ts, cur + 3) == TokenView::Identifier(type_ident@));
                    assert(ts[cur + 3] matches TokenView::Identifier(x) ==> x.len() > 0);
                    let typ = match parse_variable_type(type_ident.as_str()) {
                        Ok(t) => t,
                        Err(e) => {
                            return Err(e);
                        },
                    };
                    if !is_operator_at(tokens, cur + 4, "}") {
                        return Err(ConfigError::ExpectedOperator(String::from_str("}")));
                    }
                    let seg = PatternSegment::Variable(name.clone(), typ);
                    segments.push(seg);
                    assert(segments_view(segments@) =~= sv.push(SegmentView::Variable(name@, typ)));
                    cur = cur + 5;
                } else {
                    let seg = PatternSegment::Literal(op.clone());
                    segments.push(seg);
                    assert(segments_view(segments@) =~= sv.push(SegmentView::Literal(op@)));
                    cur = cur + 1;
                }
            },
            Token::Identifier(ident) => {
                let seg = PatternSegment::Literal(ident.clone());
                segments.push(seg);
                assert(segments_view(segments@) =~= sv.push(SegmentView::Literal(ident@)));
                cur = cur + 1;
            },
            _ => {
                return Err(ConfigError::ExpectedPattern);
            },
        }
    }
    Err(ConfigError::ExpectedPattern)
}

} // verus!
