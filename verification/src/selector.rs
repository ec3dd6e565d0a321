//! Parsing of CSS-style selector strings.
//!
//! A selector string is split into whitespace-separated tokens, with the
//! direct-child combinator `>` a token of its own however it is spaced.
//! A `>` marks the token after it as [`Scope::DirectChild`]; every other
//! token defaults to [`Scope::IndirectChild`].  Each token is then read
//! character by character into one or more simple selectors: a tag name,
//! `#id`, or `[attr=value]` with the value optionally double-quoted.
//!
//! The functions [`lex`], [`scope_pairs`], [`sels_from`] and [`spec_parse`]
//! are the specification of this grammar; [`CompoundSelector::parse`] is
//! proved to return exactly what [`spec_parse`] describes.

use vstd::prelude::*;

verus! {

/// Error returned when parsing a selector encounters an unexpected
/// character; a space denotes input that ended too early.
#[derive(Clone, Copy, Debug, PartialEq, Eq, Structural)]
pub struct UnexpectedTokenError(pub char);

/// The scope of a `CompoundSelector`.
#[derive(Clone, Copy, Debug, PartialEq, Eq, Structural)]
pub enum Scope {
    /// The selector must match a direct child of the previous match
    /// (e.g. `body > header`).
    DirectChild,
    /// The selector must match a descendant of the previous match
    /// (e.g. `body header`).
    IndirectChild,
}

/// The match type of an attribute selector.
#[derive(Clone, Copy, Debug, PartialEq, Eq, Structural)]
pub enum MatchType {
    /// The attribute value must be identical to the written value.
    Equals,
}

/// One simple selector within a compound selector.  For example, the
/// selector `input[type="radio"]` has a `TagName` and an `Attribute` part.
#[derive(Clone, Debug)]
pub enum Selector {
    /// An id selector (e.g. `#the-id`).
    Id(String),
    /// A tag name selector (e.g. `input`).
    TagName(String),
    /// An attribute selector (e.g. `[type="radio"]`).
    Attribute(String, MatchType, String),
}

/// One space-delimited unit of a selector string: a scope together with the
/// conjunction of its simple selectors.
#[derive(Clone, Debug)]
pub struct CompoundSelector {
    /// The scope of the selector.
    pub scope: Scope,
    /// The individual parts that make up the compound selector.
    pub parts: Vec<Selector>,
}

/// Model of one simple selector.
pub enum SelectorModel {
    /// Matches elements with this tag name.
    Tag(Seq<char>),
    /// Matches elements whose `id` attribute has this value.
    Id(Seq<char>),
    /// Matches elements carrying the named attribute with exactly this value.
    Attr(Seq<char>, Seq<char>),
}

/// Model of one compound selector.
pub struct CompoundModel {
    /// The scope of the compound selector.
    pub scope: Scope,
    /// The simple selectors, all of which must match.
    pub parts: Seq<SelectorModel>,
}

impl View for Selector {
    type V = SelectorModel;

    open spec fn view(&self) -> SelectorModel {
        match self {
            Selector::Id(s) => SelectorModel::Id(s@),
            Selector::TagName(s) => SelectorModel::Tag(s@),
            Selector::Attribute(a, _m, v) => SelectorModel::Attr(a@, v@),
        }
    }
}

impl View for CompoundSelector {
    type V = CompoundModel;

    open spec fn view(&self) -> CompoundModel {
        CompoundModel { scope: self.scope, parts: self.parts@.map_values(|p: Selector| p@) }
    }
}

/// The models of a sequence of compound selectors, in order.
pub open spec fn compounds_view(cs: Seq<CompoundSelector>) -> Seq<CompoundModel> {
    cs.map_values(|c: CompoundSelector| c@)
}

/// A letter, the only characters a tag name may start with.
pub open spec fn is_selector_letter(c: char) -> bool {
    ('a' <= c && c <= 'z') || ('A' <= c && c <= 'Z')
}

/// A character allowed within a tag name, id, attribute name or value.
pub open spec fn is_selector_char(c: char) -> bool {
    is_selector_letter(c) || ('0' <= c && c <= '9') || c == '-' || c == '_'
}

/// Whitespace for the purpose of splitting a selector into tokens.
pub open spec fn is_selector_space(c: char) -> bool {
    c == ' ' || c == '\t' || c == '\n' || c == '\r'
}

/// True if `c` is a letter.
#[inline]
fn non_digit(c: char) -> (r: bool)
    ensures
        r == is_selector_letter(c),
{
    ('a' <= c && c <= 'z') || ('A' <= c && c <= 'Z')
}

/// True if `c` may stand within a tag name, id, attribute name or value.
#[inline]
fn allowed_character(c: char) -> (r: bool)
    ensures
        r == is_selector_char(c),
{
    non_digit(c) || ('0' <= c && c <= '9') || c == '-' || c == '_'
}

/// True if `c` separates tokens.
#[inline]
fn space_character(c: char) -> (r: bool)
    ensures
        r == is_selector_space(c),
{
    c == ' ' || c == '\t' || c == '\n' || c == '\r'
}

/// The end of the run of allowed characters that starts at `i` and may
/// reach at most `end`: the first position in `i..end` holding a character
/// that is not allowed, or `end` if there is none.
pub open spec fn run_to(s: Seq<char>, i: int, end: int) -> int
    decreases end - i,
{
    if i < end && 0 <= i < s.len() && is_selector_char(s[i]) {
        run_to(s, i + 1, end)
    } else {
        i
    }
}

proof fn lemma_run_to(s: Seq<char>, i: int, end: int)
    requires
        0 <= i <= end <= s.len(),
    ensures
        i <= run_to(s, i, end) <= end,
        forall|j: int| i <= j < run_to(s, i, end) ==> is_selector_char(#[trigger] s[j]),
        run_to(s, i, end) < end ==> !is_selector_char(s[run_to(s, i, end)]),
    decreases end - i,
{
    if i < end && is_selector_char(s[i]) {
        lemma_run_to(s, i + 1, end);
    }
}

/// The end of the token that starts at `i`: the first position at or after
/// `i` holding whitespace or the combinator `>`, or the end of the string.
pub open spec fn tok_end(s: Seq<char>, i: int) -> int
    decreases s.len() - i,
{
    if 0 <= i < s.len() && !is_selector_space(s[i]) && s[i] != '>' {
        tok_end(s, i + 1)
    } else {
        i
    }
}

proof fn lemma_tok_end(s: Seq<char>, i: int)
    requires
        0 <= i <= s.len(),
    ensures
        i <= tok_end(s, i) <= s.len(),
        i < s.len() && !is_selector_space(s[i]) && s[i] != '>' ==> tok_end(s, i) > i,
        forall|j: int|
            i <= j < tok_end(s, i) ==> !is_selector_space(#[trigger] s[j]) && s[j] != '>',
        tok_end(s, i) < s.len() ==> (is_selector_space(s[tok_end(s, i)]) || s[tok_end(s, i)]
            == '>'),
    decreases s.len() - i,
{
    if i < s.len() && !is_selector_space(s[i]) && s[i] != '>' {
        lemma_tok_end(s, i + 1);
    }
}

/// The tokens of `s` from position `i` on, each given by its start and end
/// position: maximal runs free of whitespace and of `>`, with every `>` a
/// token of its own.
pub open spec fn lex(s: Seq<char>, i: int) -> Seq<(int, int)>
    decreases s.len() - i,
    via lex_decreases
{
    if !(0 <= i < s.len()) {
        Seq::empty()
    } else if is_selector_space(s[i]) {
        lex(s, i + 1)
    } else if s[i] == '>' {
        seq![(i, i + 1)] + lex(s, i + 1)
    } else {
        seq![(i, tok_end(s, i))] + lex(s, tok_end(s, i))
    }
}

#[via_fn]
proof fn lex_decreases(s: Seq<char>, i: int) {
    if 0 <= i < s.len() {
        lemma_tok_end(s, i);
    }
}

proof fn lemma_lex(s: Seq<char>, i: int)
    requires
        0 <= i <= s.len(),
    ensures
        forall|k: int|
            0 <= k < lex(s, i).len() ==> i <= (#[trigger] lex(s, i)[k]).0 < lex(s, i)[k].1
                <= s.len(),
    decreases s.len() - i,
{
    if 0 <= i < s.len() {
        if is_selector_space(s[i]) {
            lemma_lex(s, i + 1);
        } else if s[i] == '>' {
            lemma_lex(s, i + 1);
            assert forall|k: int|
                0 <= k < lex(s, i).len() implies i <= (#[trigger] lex(s, i)[k]).0 < lex(s, i)[k].1
                <= s.len() by {
                if k > 0 {
                    assert(lex(s, i)[k] == lex(s, i + 1)[k - 1]);
                }
            }
        } else {
            lemma_tok_end(s, i);
            lemma_lex(s, tok_end(s, i));
            assert forall|k: int|
                0 <= k < lex(s, i).len() implies i <= (#[trigger] lex(s, i)[k]).0 < lex(s, i)[k].1
                <= s.len() by {
                if k > 0 {
                    assert(lex(s, i)[k] == lex(s, tok_end(s, i))[k - 1]);
                }
            }
        }
    }
}

/// True if the token `p` of `s` is the direct-child combinator `>`.
pub open spec fn is_combinator(s: Seq<char>, p: (int, int)) -> bool {
    p.1 == p.0 + 1 && 0 <= p.0 < s.len() && s[p.0] == '>'
}

/// Tags each token with its scope: a `>` token is no output unit of its
/// own but marks the token after it as direct-child scoped; a trailing `>`
/// is an error reported as a space, the sign of input that ended early.
pub open spec fn scope_pairs(s: Seq<char>, toks: Seq<(int, int)>) -> Result<
    Seq<(Scope, (int, int))>,
    char,
>
    decreases toks.len(),
{
    if toks.len() == 0 {
        Ok(Seq::empty())
    } else if is_combinator(s, toks[0]) {
        if toks.len() == 1 {
            Err(' ')
        } else {
            match scope_pairs(s, toks.skip(2)) {
                Ok(r) => Ok(seq![(Scope::DirectChild, toks[1])] + r),
                Err(e) => Err(e),
            }
        }
    } else {
        match scope_pairs(s, toks.skip(1)) {
            Ok(r) => Ok(seq![(Scope::IndirectChild, toks[0])] + r),
            Err(e) => Err(e),
        }
    }
}

/// Reads one simple selector of the token `i..end` of `s`, starting at
/// `i`: the selector read and the position just after it, or the first
/// offending character.  A letter starts a tag name, `#` an id, `[` an
/// attribute selector whose value may be double-quoted; any other
/// character is an error, and a space stands for input that ended before
/// the selector was complete.
pub open spec fn sel_step(s: Seq<char>, i: int, end: int) -> Result<(SelectorModel, int), char> {
    if !(0 <= i < end && end <= s.len()) {
        Err(' ')
    } else if is_selector_letter(s[i]) {
        let j = run_to(s, i, end);
        Ok((SelectorModel::Tag(s.subrange(i, j)), j))
    } else if s[i] == '#' {
        let j = run_to(s, i + 1, end);
        Ok((SelectorModel::Id(s.subrange(i + 1, j)), j))
    } else if s[i] == '[' {
        let j = run_to(s, i + 1, end);
        if j >= end {
            Err(' ')
        } else if s[j] != '=' {
            Err(s[j])
        } else if j + 1 < end && s[j + 1] == '"' {
            let k = run_to(s, j + 2, end);
            if k >= end {
                Err(' ')
            } else if s[k] != '"' {
                Err(s[k])
            } else if k + 1 >= end {
                Err(' ')
            } else if s[k + 1] != ']' {
                Err(s[k + 1])
            } else {
                Ok(
                    (
                        SelectorModel::Attr(s.subrange(i + 1, j), s.subrange(j + 2, k)),
                        k + 2,
                    ),
                )
            }
        } else {
            let k = run_to(s, j + 1, end);
            if k >= end {
                Err(' ')
            } else if s[k] != ']' {
                Err(s[k])
            } else {
                Ok(
                    (
                        SelectorModel::Attr(s.subrange(i + 1, j), s.subrange(j + 1, k)),
                        k + 1,
                    ),
                )
            }
        }
    } else {
        Err(s[i])
    }
}

proof fn lemma_sel_step(s: Seq<char>, i: int, end: int)
    requires
        0 <= i < end <= s.len(),
    ensures
        sel_step(s, i, end) is Ok ==> i < sel_step(s, i, end)->Ok_0.1 <= end,
{
    lemma_run_to(s, i, end);
    if i + 1 <= end {
        lemma_run_to(s, i + 1, end);
        let j = run_to(s, i + 1, end);
        if j + 1 <= end {
            lemma_run_to(s, j + 1, end);
        }
        if j + 2 <= end {
            lemma_run_to(s, j + 2, end);
        }
    }
}

/// The simple selectors written in `s` between positions `i` and `end`,
/// read one [`sel_step`] at a time, or the first offending character.
pub open spec fn sels_from(s: Seq<char>, i: int, end: int) -> Result<Seq<SelectorModel>, char>
    decreases end - i,
    via sels_from_decreases
{
    if i >= end || !(0 <= i && end <= s.len()) {
        Ok(Seq::empty())
    } else {
        match sel_step(s, i, end) {
            Err(e) => Err(e),
            Ok((m, next)) => match sels_from(s, next, end) {
                Err(e) => Err(e),
                Ok(r) => Ok(seq![m] + r),
            },
        }
    }
}

#[via_fn]
proof fn sels_from_decreases(s: Seq<char>, i: int, end: int) {
    if 0 <= i < end && end <= s.len() {
        lemma_sel_step(s, i, end);
    }
}

/// The compound selectors named by the scope-tagged tokens of `s`, or the
/// first error that reading a token finds, in token order.
pub open spec fn compounds(s: Seq<char>, pairs: Seq<(Scope, (int, int))>) -> Result<
    Seq<CompoundModel>,
    char,
>
    decreases pairs.len(),
{
    if pairs.len() == 0 {
        Ok(Seq::empty())
    } else {
        match sels_from(s, pairs[0].1.0, pairs[0].1.1) {
            Err(e) => Err(e),
            Ok(parts) => match compounds(s, pairs.skip(1)) {
                Err(e) => Err(e),
                Ok(rest) => Ok(seq![(CompoundModel { scope: pairs[0].0, parts })] + rest),
            },
        }
    }
}

/// What parsing a selector string yields: the sequence of compound
/// selectors in source order, or the first offending character.
pub open spec fn spec_parse(s: Seq<char>) -> Result<Seq<CompoundModel>, char> {
    match scope_pairs(s, lex(s, 0)) {
        Err(e) => Err(e),
        Ok(pairs) => compounds(s, pairs),
    }
}

/// Advances `*pos` over the run of allowed characters before `end` and
/// returns that run.
fn extract_valid_string(s: &str, pos: &mut usize, end: usize) -> (r: String)
    requires
        *old(pos) <= end,
        end as int <= s@.len(),
    ensures
        *final(pos) == run_to(s@, *old(pos) as int, end as int),
        r@ == s@.subrange(*old(pos) as int, *final(pos) as int),
{
    let start: usize = *pos;
    loop
        invariant
            start <= *pos <= end,
            end as int <= s@.len(),
            run_to(s@, start as int, end as int) == run_to(s@, *pos as int, end as int),
        ensures
            *pos as int == run_to(s@, start as int, end as int),
        decreases end - *pos,
    {
        if *pos >= end {
            break ;
        }
        let c = s.get_char(*pos);
        if !allowed_character(c) {
            break ;
        }
        *pos = *pos + 1;
    }
    s.substring_char(start, *pos).to_owned()
}

/// Advances `*pos` over the run of allowed characters before `end` and
/// over the stop token that must follow it, and returns the run; the error
/// carries the character that stood in the way, or a space if the input
/// ended first.
fn extract_valid_string_until_token(s: &str, pos: &mut usize, end: usize, stop_token: char) -> (r:
    Result<String, UnexpectedTokenError>)
    requires
        *old(pos) <= end,
        end as int <= s@.len(),
    ensures
        ({
            let j = run_to(s@, *old(pos) as int, end as int);
            match r {
                Ok(v) => j < end && s@[j] == stop_token && v@ == s@.subrange(*old(pos) as int, j)
                    && *final(pos) == j + 1,
                Err(e) => if j < end {
                    s@[j] != stop_token && e.0 == s@[j]
                } else {
                    e.0 == ' '
                },
            }
        }),
{
    let string = extract_valid_string(s, pos, end);
    if *pos >= end {
        Err(UnexpectedTokenError(' '))
    } else {
        let c = s.get_char(*pos);
        if c == stop_token {
            *pos = *pos + 1;
            Ok(string)
        } else {
            Err(UnexpectedTokenError(c))
        }
    }
}

impl Selector {
    /// Reads a tag name selector at `*pos`.
    fn create_tag_name(s: &str, pos: &mut usize, end: usize) -> (r: Selector)
        requires
            *old(pos) < end,
            end as int <= s@.len(),
            is_selector_letter(s@[*old(pos) as int]),
        ensures
            (sel_step(s@, *old(pos) as int, end as int) matches Ok(p) && p == (
            r@,
            *final(pos) as int,
            )),
    {
        let v = extract_valid_string(s, pos, end);
        Selector::TagName(v)
    }

    /// Reads an id selector (`#` then a run of allowed characters) at
    /// `*pos`.
    fn create_id(s: &str, pos: &mut usize, end: usize) -> (r: Selector)
        requires
            *old(pos) < end,
            end as int <= s@.len(),
            s@[*old(pos) as int] == '#',
        ensures
            (sel_step(s@, *old(pos) as int, end as int) matches Ok(p) && p == (
            r@,
            *final(pos) as int,
            )),
    {
        *pos = *pos + 1;
        let v = extract_valid_string(s, pos, end);
        Selector::Id(v)
    }

    /// Reads an attribute selector (`[attr=value]`, the value optionally
    /// double-quoted) at `*pos`.
    fn create_attribute(s: &str, pos: &mut usize, end: usize) -> (r: Result<
        Selector,
        UnexpectedTokenError,
    >)
        requires
            *old(pos) < end,
            end as int <= s@.len(),
            s@[*old(pos) as int] == '[',
        ensures
            match r {
                Ok(sel) => (sel_step(s@, *old(pos) as int, end as int) matches Ok(p) && p == (
                sel@,
                *final(pos) as int,
                )),
                Err(e) => sel_step(s@, *old(pos) as int, end as int) == Err::<
                    (SelectorModel, int),
                    char,
                >(e.0),
            },
    {
        *pos = *pos + 1;
        let attribute = match extract_valid_string_until_token(s, pos, end, '=') {
            Ok(v) => v,
            Err(e) => { return Err(e) },
        };
        if *pos < end && s.get_char(*pos) == '"' {
            *pos = *pos + 1;
            let value = match extract_valid_string_until_token(s, pos, end, '"') {
                Ok(v) => v,
                Err(e) => { return Err(e) },
            };
            if *pos >= end {
                return Err(UnexpectedTokenError(' '));
            }
            let c = s.get_char(*pos);
            if c != ']' {
                return Err(UnexpectedTokenError(c));
            }
            *pos = *pos + 1;
            Ok(Selector::Attribute(attribute, MatchType::Equals, value))
        } else {
            let value = match extract_valid_string_until_token(s, pos, end, ']') {
                Ok(v) => v,
                Err(e) => { return Err(e) },
            };
            Ok(Selector::Attribute(attribute, MatchType::Equals, value))
        }
    }

    /// Reads the simple selector that the character `c` at `*pos` starts.
    fn next_selector(c: char, s: &str, pos: &mut usize, end: usize) -> (r: Result<
        Selector,
        UnexpectedTokenError,
    >)
        requires
            *old(pos) < end,
            end as int <= s@.len(),
            c == s@[*old(pos) as int],
        ensures
            match r {
                Ok(sel) => (sel_step(s@, *old(pos) as int, end as int) matches Ok(p) && p == (
                sel@,
                *final(pos) as int,
                )),
                Err(e) => sel_step(s@, *old(pos) as int, end as int) == Err::<
                    (SelectorModel, int),
                    char,
                >(e.0),
            },
    {
        if non_digit(c) {
            Ok(Selector::create_tag_name(s, pos, end))
        } else if c == '#' {
            Ok(Selector::create_id(s, pos, end))
        } else if c == '[' {
            Selector::create_attribute(s, pos, end)
        } else {
            Err(UnexpectedTokenError(c))
        }
    }

    /// Reads all simple selectors of the token `start..end`.
    fn create_list(s: &str, start: usize, end: usize) -> (r: Result<
        Vec<Selector>,
        UnexpectedTokenError,
    >)
        requires
            start <= end,
            end as int <= s@.len(),
        ensures
            match r {
                Ok(v) => sels_from(s@, start as int, end as int) == Ok::<_, char>(
                    v@.map_values(|p: Selector| p@),
                ),
                Err(e) => sels_from(s@, start as int, end as int) == Err::<Seq<SelectorModel>, _>(
                    e.0,
                ),
            },
    {
        let mut selectors: Vec<Selector> = Vec::new();
        let mut pos: usize = start;
        loop
            invariant
                start <= pos <= end,
                end as int <= s@.len(),
                sels_from(s@, start as int, end as int) == (match sels_from(
                    s@,
                    pos as int,
                    end as int,
                ) {
                    Ok(r) => Ok::<_, char>(selectors@.map_values(|p: Selector| p@) + r),
                    Err(e) => Err(e),
                }),
            ensures
                sels_from(s@, start as int, end as int) == Ok::<_, char>(
                    selectors@.map_values(|p: Selector| p@),
                ),
            decreases end - pos,
        {
            if pos >= end {
                proof {
                    assert(sels_from(s@, pos as int, end as int) == Ok::<_, char>(
                        Seq::<SelectorModel>::empty(),
                    ));
                    assert(selectors@.map_values(|p: Selector| p@) + Seq::<
                        SelectorModel,
                    >::empty() =~= selectors@.map_values(|p: Selector| p@));
                }
                break ;
            }
            let c = s.get_char(pos);
            let ghost pos0 = pos as int;
            match Selector::next_selector(c, s, &mut pos, end) {
                Ok(sel) => {
                    proof {
                        lemma_sel_step(s@, pos0, end as int);
                        let m = sel_step(s@, pos0, end as int)->Ok_0.0;
                        let q = sels_from(s@, pos as int, end as int);
                        if q is Ok {
                            assert(selectors@.map_values(|p: Selector| p@) + (seq![m] + q->Ok_0)
                                =~= selectors@.push(sel).map_values(|p: Selector| p@) + q->Ok_0);
                        }
                    }
                    selectors.push(sel);
                },
                Err(e) => { return Err(e) },
            }
        }
        Ok(selectors)
    }
}

/// The models of a sequence of token positions.
pub open spec fn toks_model(ts: Seq<(usize, usize)>) -> Seq<(int, int)> {
    ts.map_values(|p: (usize, usize)| (p.0 as int, p.1 as int))
}

/// The models of a sequence of scope-tagged token positions.
pub open spec fn pairs_model(ps: Seq<(Scope, (usize, usize))>) -> Seq<(Scope, (int, int))> {
    ps.map_values(|p: (Scope, (usize, usize))| (p.0, (p.1.0 as int, p.1.1 as int)))
}

/// True if the character at `i` ends a token.
fn token_boundary(s: &str, i: usize) -> (r: bool)
    requires
        i < s@.len(),
    ensures
        r == (is_selector_space(s@[i as int]) || s@[i as int] == '>'),
{
    let c = s.get_char(i);
    space_character(c) || c == '>'
}

impl CompoundSelector {
    /// Parses the string into a list of `CompoundSelector`s: whitespace
    /// splits the string into tokens with `>` a token of its own, a `>`
    /// gives the token after it direct-child scope, and each token is read
    /// into the simple selectors it spells.  The error carries the first
    /// offending character, or a space if the input ended too early.
    pub fn parse(selector: &str) -> (r: Result<Vec<CompoundSelector>, UnexpectedTokenError>)
        ensures
            match r {
                Ok(v) => spec_parse(selector@) == Ok::<_, char>(compounds_view(v@)),
                Err(e) => spec_parse(selector@) == Err::<Seq<CompoundModel>, _>(e.0),
            },
    {
        let n = selector.unicode_len();
        let mut toks: Vec<(usize, usize)> = Vec::new();
        let mut pos: usize = 0;
        proof {
            assert(toks_model(toks@) + lex(selector@, 0) =~= lex(selector@, 0));
        }
        while pos < n
            invariant
                pos <= n,
                n as nat == selector@.len(),
                lex(selector@, 0) == toks_model(toks@) + lex(selector@, pos as int),
                forall|k: int|
                    0 <= k < toks@.len() ==> 0 <= (#[trigger] toks@[k]).0 < toks@[k].1 <= n,
            decreases n - pos,
        {
            let c = selector.get_char(pos);
            if space_character(c) {
                pos = pos + 1;
            } else if c == '>' {
                proof {
                    assert(lex(selector@, pos as int) == seq![(pos as int, pos as int + 1)] + lex(
                        selector@,
                        pos as int + 1,
                    ));
                    assert(toks_model(toks@.push((pos, (pos + 1) as usize))) =~= toks_model(
                        toks@,
                    ).push((pos as int, pos as int + 1)));
                    assert(toks_model(toks@).push((pos as int, pos as int + 1)) + lex(
                        selector@,
                        pos as int + 1,
                    ) =~= toks_model(toks@) + (seq![(pos as int, pos as int + 1)] + lex(
                        selector@,
                        pos as int + 1,
                    )));
                }
                toks.push((pos, pos + 1));
                pos = pos + 1;
            } else {
                let start = pos;
                pos = pos + 1;
                loop
                    invariant_except_break
                        start < pos <= n,
                        n as nat == selector@.len(),
                        tok_end(selector@, start as int) == tok_end(selector@, pos as int),
                    ensures
                        start < pos <= n,
                        pos as int == tok_end(selector@, start as int),
                    decreases n - pos,
                {
                    if pos >= n {
                        break ;
                    }
                    if token_boundary(selector, pos) {
                        break ;
                    }
                    pos = pos + 1;
                }
                proof {
                    assert(lex(selector@, start as int) == seq![(start as int, pos as int)] + lex(
                        selector@,
                        pos as int,
                    ));
                    assert(toks_model(toks@.push((start, pos))) =~= toks_model(toks@).push(
                        (start as int, pos as int),
                    ));
                    assert(toks_model(toks@).push((start as int, pos as int)) + lex(
                        selector@,
                        pos as int,
                    ) =~= toks_model(toks@) + (seq![(start as int, pos as int)] + lex(
                        selector@,
                        pos as int,
                    )));
                }
                toks.push((start, pos));
            }
        }
        proof {
            assert(lex(selector@, 0) =~= toks_model(toks@));
        }
        let ghost tv = toks_model(toks@);

        let mut pairs: Vec<(Scope, (usize, usize))> = Vec::new();
        let mut k: usize = 0;
        proof {
            assert(tv.skip(0) =~= tv);
        }
        while k < toks.len()
            invariant
                k <= toks.len(),
                n as nat == selector@.len(),
                tv == toks_model(toks@),
                lex(selector@, 0) == tv,
                forall|j: int|
                    0 <= j < toks@.len() ==> 0 <= (#[trigger] toks@[j]).0 < toks@[j].1 <= n,
                scope_pairs(selector@, tv) == (match scope_pairs(selector@, tv.skip(k as int)) {
                    Ok(r) => Ok::<_, char>(pairs_model(pairs@) + r),
                    Err(e) => Err(e),
                }),
                forall|j: int|
                    0 <= j < pairs@.len() ==> 0 <= (#[trigger] pairs@[j]).1.0 < pairs@[j].1.1 <= n,
            decreases toks.len() - k,
        {
            let p = toks[k];
            let mut comb = false;
            if p.1 == p.0 + 1 {
                let c = selector.get_char(p.0);
                if c == '>' {
                    comb = true;
                }
            }
            proof {
                assert(tv.skip(k as int)[0] == tv[k as int]);
                assert(comb == is_combinator(selector@, tv[k as int]));
            }
            if comb {
                if k + 1 >= toks.len() {
                    proof {
                        assert(tv.skip(k as int).len() == 1);
                    }
                    return Err(UnexpectedTokenError(' '));
                }
                let nx = toks[k + 1];
                proof {
                    assert(tv.skip(k as int)[1] == tv[k as int + 1]);
                    assert(tv.skip(k as int).skip(2) =~= tv.skip(k as int + 2));
                    let q = scope_pairs(selector@, tv.skip(k as int + 2));
                    if q is Ok {
                        let tagged = (Scope::DirectChild, (nx.0 as int, nx.1 as int));
                        assert(pairs_model(pairs@.push((Scope::DirectChild, nx))) =~= pairs_model(
                            pairs@,
                        ).push(tagged));
                        assert(pairs_model(pairs@).push(tagged) + q->Ok_0 =~= pairs_model(pairs@) + (
                        seq![tagged] + q->Ok_0));
                    }
                }
                pairs.push((Scope::DirectChild, nx));
                k = k + 2;
            } else {
                proof {
                    assert(tv.skip(k as int).skip(1) =~= tv.skip(k as int + 1));
                    let q = scope_pairs(selector@, tv.skip(k as int + 1));
                    if q is Ok {
                        let tagged = (Scope::IndirectChild, (p.0 as int, p.1 as int));
                        assert(pairs_model(pairs@.push((Scope::IndirectChild, p))) =~= pairs_model(
                            pairs@,
                        ).push(tagged));
                        assert(pairs_model(pairs@).push(tagged) + q->Ok_0 =~= pairs_model(pairs@) + (
                        seq![tagged] + q->Ok_0));
                    }
                }
                pairs.push((Scope::IndirectChild, p));
                k = k + 1;
            }
        }
        proof {
            assert(tv.skip(toks@.len() as int) =~= Seq::<(int, int)>::empty());
            assert(pairs_model(pairs@) + Seq::<(Scope, (int, int))>::empty() =~= pairs_model(
                pairs@,
            ));
        }
        let ghost pm = pairs_model(pairs@);

        let mut compound_selectors: Vec<CompoundSelector> = Vec::new();
        let mut idx: usize = 0;
        proof {
            assert(pm.skip(0) =~= pm);
        }
        while idx < pairs.len()
            invariant
                idx <= pairs.len(),
                n as nat == selector@.len(),
                pm == pairs_model(pairs@),
                scope_pairs(selector@, lex(selector@, 0)) == Ok::<_, char>(pm),
                forall|j: int|
                    0 <= j < pairs@.len() ==> 0 <= (#[trigger] pairs@[j]).1.0 < pairs@[j].1.1 <= n,
                compounds(selector@, pm) == (match compounds(selector@, pm.skip(idx as int)) {
                    Ok(r) => Ok::<_, char>(compounds_view(compound_selectors@) + r),
                    Err(e) => Err(e),
                }),
            decreases pairs.len() - idx,
        {
            let p = pairs[idx];
            proof {
                assert(pm.skip(idx as int)[0] == pm[idx as int]);
                assert(pm.skip(idx as int).skip(1) =~= pm.skip(idx as int + 1));
            }
            match Selector::create_list(selector, p.1.0, p.1.1) {
                Ok(parts) => {
                    let compound = CompoundSelector { scope: p.0, parts };
                    proof {
                        let q = compounds(selector@, pm.skip(idx as int + 1));
                        if q is Ok {
                            assert(compounds_view(compound_selectors@.push(compound))
                                =~= compounds_view(compound_selectors@).push(compound@));
                            assert(compounds_view(compound_selectors@).push(compound@) + q->Ok_0
                                =~= compounds_view(compound_selectors@) + (seq![compound@]
                                + q->Ok_0));
                        }
                    }
                    compound_selectors.push(compound);
                },
                Err(e) => { return Err(e) },
            }
            idx = idx + 1;
        }
        proof {
            assert(pm.skip(pairs@.len() as int) =~= Seq::<(Scope, (int, int))>::empty());
            assert(compounds_view(compound_selectors@) + Seq::<CompoundModel>::empty()
                =~= compounds_view(compound_selectors@));
        }
        Ok(compound_selectors)
    }
}

} // verus!
