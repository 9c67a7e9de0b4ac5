//! The Shorthand parser: the power-user import path. It turns the compact
//! text grammar into the same [`LogEntry`] log every other entry path
//! produces, only without timestamps.
//!
//! # Grammar
//!
//! One possession per line. After parenthetical `(comments)` are blanked out,
//! a line is either a marker or a run of whitespace-separated event tokens:
//!
//! - **Position**: a single digit `1`–`8` for GS, GA, WA, C, WD, GD, GK, TEAM.
//! - **Action**: `c` receive, `f` feed, `g` goal, `e` unforced turnover,
//!   `p` gain, `pi`/`pd`/`pp` gain by interception/deflection/pick-up,
//!   `i` infringement, `r` rebound. Sub-types match greedily, so `1pi` is a GS
//!   gain by interception, never a gain followed by an infringement.
//! - **Modifiers**: a trailing `x` (Failed) and/or `!` (Flagged), in either
//!   order. `x` is only legal on the actions that can fail.
//! - **Team**: a leading `a`/`b` on the line picks the possession's team;
//!   with no prefix the possession belongs to team A.
//! - **Markers**: a line of just `QT` is a quarter break. `S` (substitution)
//!   is reserved but not imported.
//!
//! A single malformed token fails the whole parse, pinpointing the line and
//! column; no partial log is ever produced.

use vstd::prelude::*;

use crate::event::{
    Action, CentrePassReceivePosition, Event, FeedPosition, GainSubType, GoalPosition, LogEntry,
    Position, QuarterBreak, ReboundPosition, Team,
};
use crate::taxonomy::ActionKind;
use crate::text::{char_is_whitespace, chars_of, decimal, is_whitespace, push_decimal, push_str, string_from_chars};

verus! {

/// Why a Shorthand import could not be parsed, pinpointed to a `1`-based line
/// and column.
#[derive(Debug, Clone, PartialEq, Eq)]
pub struct ShorthandError {
    /// `1`-based line number in the input.
    pub line: usize,
    /// `1`-based character column within that line, pointing at the problem.
    pub column: usize,
    /// The token (or fragment) the error is about.
    pub token: String,
    /// The machine-readable reason.
    pub kind: ShorthandErrorKind,
}

/// The specific reason a [`ShorthandError`] was raised.
#[derive(Debug, Clone, Copy, PartialEq, Eq, Structural)]
pub enum ShorthandErrorKind {
    /// A token did not begin with a position digit.
    MissingPosition,
    /// A digit outside the `1`–`8` position range (`0` or `9`).
    InvalidPosition { digit: char },
    /// A position with no action letter following it.
    MissingAction,
    /// An action letter the grammar does not define.
    UnknownAction { found: char },
    /// A position this action may never be coded for (e.g. a shot by WD).
    IllegalPosition { position: Position, action: ActionKind },
    /// A Failed (`x`) modifier on an action that cannot fail.
    FailedNotApplicable { action: ActionKind },
    /// The same modifier (`x` or `!`) given twice on one event.
    DuplicateModifier { modifier: char },
    /// Leftover characters after a fully-formed event.
    UnexpectedTrailing { found: char },
    /// A `QT` quarter-break marker sharing its line with other tokens.
    QuarterBreakNotAlone,
    /// A team prefix (`a`/`b`) with no events after it.
    EmptyPossession { prefix: char },
    /// A substitution (`S`) marker: reserved, but not imported yet.
    SubstitutionNotSupported,
    /// A `(` comment that is never closed.
    UnclosedComment,
    /// A `)` with no matching `(`.
    UnmatchedCommentClose,
}

/// The mathematical content of a [`ShorthandError`].
pub ghost struct ErrorView {
    pub line: int,
    pub column: int,
    pub token: Seq<char>,
    pub kind: ShorthandErrorKind,
}

impl View for ShorthandError {
    type V = ErrorView;

    open spec fn view(&self) -> ErrorView {
        ErrorView { line: self.line as int, column: self.column as int, token: self.token@, kind: self.kind }
    }
}

/// An error at `line`, `column` about `token`.
pub open spec fn error_at(line: int, column: int, token: Seq<char>, kind: ShorthandErrorKind) -> ErrorView {
    ErrorView { line, column, token, kind }
}

// ---------------------------------------------------------------------------
// Lines
// ---------------------------------------------------------------------------

/// The input split at every `'\n'`, as `str::split('\n')` splits it: one
/// more line than there are newlines, the last possibly empty.
pub open spec fn split_lines(s: Seq<char>) -> Seq<Seq<char>>
    decreases s.len(),
{
    if s.len() == 0 {
        seq![seq![]]
    } else {
        let before = split_lines(s.drop_last());
        if s.last() == '\n' {
            before.push(seq![])
        } else {
            before.update(before.len() - 1, before.last().push(s.last()))
        }
    }
}

/// A line with one trailing carriage return (a Windows line ending) removed.
pub open spec fn strip_cr(line: Seq<char>) -> Seq<char> {
    if line.len() > 0 && line.last() == '\r' {
        line.drop_last()
    } else {
        line
    }
}

// ---------------------------------------------------------------------------
// Comments
// ---------------------------------------------------------------------------

/// Scan a line left to right, blanking `(comment)` spans (nested ones too)
/// with spaces. On success: the masked line, the nesting depth at its end,
/// and the `1`-based column of the outermost `(` still open. On an unmatched
/// `)`: its `1`-based column.
pub open spec fn scan_comments(line: Seq<char>) -> Result<(Seq<char>, int, int), int>
    decreases line.len(),
{
    if line.len() == 0 {
        Ok((seq![], 0, 0))
    } else {
        match scan_comments(line.drop_last()) {
            Err(column) => Err(column),
            Ok((masked, depth, open_column)) => {
                let index = line.len() - 1;
                let ch = line.last();
                if ch == '(' {
                    Ok((masked.push(' '), depth + 1, if depth == 0 { index + 1 } else { open_column }))
                } else if ch == ')' {
                    if depth == 0 {
                        Err(index + 1)
                    } else {
                        Ok((masked.push(' '), depth - 1, open_column))
                    }
                } else {
                    Ok((masked.push(if depth > 0 { ' ' } else { ch }), depth, open_column))
                }
            },
        }
    }
}

/// The number of `(` in `s`.
pub open spec fn opens(s: Seq<char>) -> nat {
    s.filter(|c: char| c == '(').len()
}

/// The number of `)` in `s`.
pub open spec fn closes(s: Seq<char>) -> nat {
    s.filter(|c: char| c == ')').len()
}

proof fn lemma_parens_push(s: Seq<char>, c: char)
    ensures
        opens(s.push(c)) == opens(s) + if c == '(' { 1int } else { 0int },
        closes(s.push(c)) == closes(s) + if c == ')' { 1int } else { 0int },
{
    reveal(Seq::filter);
    assert(s.push(c).drop_last() == s);
}

/// The depth rule for comments: at any point of a line the nesting depth is
/// the number of `(` so far minus the number of `)`. A line is accepted
/// exactly when no prefix of it closes more parentheses than it opens; then
/// the final depth is that difference over the whole line, and a character
/// is blanked exactly when it is a parenthesis or lies inside one. Otherwise
/// the error points at the first `)` that closes more than was opened.
pub proof fn lemma_comment_depth(line: Seq<char>)
    ensures
        scan_comments(line) matches Ok((masked, depth, _)) ==> {
            &&& depth == opens(line) - closes(line)
            &&& forall|n: int| 0 <= n <= line.len() ==> opens(#[trigger] line.take(n)) >= closes(line.take(n))
            &&& masked.len() == line.len()
            &&& forall|i: int|
                0 <= i < line.len() ==> #[trigger] masked[i] == if line[i] == '(' || line[i] == ')' || opens(
                    line.take(i),
                ) > closes(line.take(i)) {
                    ' '
                } else {
                    line[i]
                }
        },
        scan_comments(line) matches Err(column) ==> {
            &&& 1 <= column <= line.len()
            &&& line[column - 1] == ')'
            &&& opens(line.take(column)) < closes(line.take(column))
            &&& forall|n: int| 0 <= n < column ==> opens(#[trigger] line.take(n)) >= closes(line.take(n))
        },
    decreases line.len(),
{
    reveal(Seq::filter);
    if line.len() == 0 {
        assert(line.take(0) =~= line);
    } else {
        let prefix = line.drop_last();
        lemma_comment_depth(prefix);
        let index = line.len() - 1;
        let ch = line.last();
        assert(line.take(index) =~= prefix);
        assert(line =~= prefix.push(ch));
        lemma_parens_push(prefix, ch);
        assert forall|n: int| 0 <= n <= index implies #[trigger] line.take(n) == prefix.take(n) by {
            assert(line.take(n) =~= prefix.take(n));
        }
        assert(line.take(line.len() as int) =~= line);
        match scan_comments(prefix) {
            Err(column) => {
                assert(line.take(column) == prefix.take(column));
                assert forall|n: int| 0 <= n < column implies opens(#[trigger] line.take(n)) >= closes(line.take(n)) by {
                    assert(line.take(n) == prefix.take(n));
                    assert(opens(prefix.take(n)) >= closes(prefix.take(n)));
                }
            },
            Ok((masked, depth, open_column)) => {
                assert(prefix.take(prefix.len() as int) =~= prefix);
                assert(opens(prefix.take(prefix.len() as int)) >= closes(prefix.take(prefix.len() as int)));
                assert forall|n: int| 0 <= n <= index implies opens(#[trigger] line.take(n)) >= closes(line.take(n)) by {
                    assert(line.take(n) == prefix.take(n));
                    assert(opens(prefix.take(n)) >= closes(prefix.take(n)));
                }
                if ch == ')' && depth == 0 {
                    assert(line.take(index + 1) == line);
                } else {
                    let (m2, _, _) = scan_comments(line)->Ok_0;
                    assert forall|i: int| 0 <= i < line.len() implies #[trigger] m2[i] == if line[i] == '(' || line[i]
                        == ')' || opens(line.take(i)) > closes(line.take(i)) {
                        ' '
                    } else {
                        line[i]
                    } by {
                        if i < index {
                            assert(m2[i] == masked[i]);
                            assert(line[i] == prefix[i]);
                        }
                    }
                }
            },
        }
    }
}

/// The line with its comments blanked, or the error for an unbalanced
/// parenthesis, located at the offending character.
pub open spec fn strip_comments_spec(line: Seq<char>, line_number: int) -> Result<Seq<char>, ErrorView> {
    match scan_comments(line) {
        Err(column) => Err(error_at(line_number, column, seq![')'], ShorthandErrorKind::UnmatchedCommentClose)),
        Ok((masked, depth, open_column)) => if depth > 0 {
            Err(error_at(line_number, open_column, seq!['('], ShorthandErrorKind::UnclosedComment))
        } else {
            Ok(masked)
        },
    }
}

proof fn lemma_scan_comments_shape(line: Seq<char>)
    ensures
        scan_comments(line) matches Ok((masked, depth, open_column)) ==> {
            &&& masked.len() == line.len()
            &&& 0 <= depth <= line.len()
            &&& (depth > 0 ==> 1 <= open_column <= line.len())
        },
        scan_comments(line) matches Err(column) ==> 1 <= column <= line.len(),
    decreases line.len(),
{
    if line.len() > 0 {
        lemma_scan_comments_shape(line.drop_last());
    }
}

proof fn lemma_scan_comments_error_persists(line: Seq<char>, k: int)
    requires
        0 <= k <= line.len(),
        scan_comments(line.subrange(0, k)) is Err,
    ensures
        scan_comments(line) == scan_comments(line.subrange(0, k)),
    decreases line.len() - k,
{
    if k < line.len() {
        assert(line.subrange(0, k + 1).drop_last() == line.subrange(0, k));
        lemma_scan_comments_error_persists(line, k + 1);
    } else {
        assert(line.subrange(0, k) == line);
    }
}

/// Blank out `(comment)` spans with spaces, preserving every other
/// character's column so error positions still refer to the original line.
fn strip_comments(line: &Vec<char>, line_number: usize) -> (r: Result<Vec<char>, ShorthandError>)
    ensures
        match strip_comments_spec(line@, line_number as int) {
            Ok(masked) => r matches Ok(m) && m@ == masked,
            Err(e) => r matches Err(err) && err@ == e,
        },
{
    let mut masked: Vec<char> = Vec::new();
    let mut depth: usize = 0;
    let mut open_column: usize = 0;
    let mut index: usize = 0;
    while index < line.len()
        invariant
            0 <= index <= line@.len(),
            scan_comments(line@.subrange(0, index as int)) == Ok::<(Seq<char>, int, int), int>(
                (masked@, depth as int, open_column as int),
            ),
        decreases line@.len() - index,
    {
        proof {
            lemma_scan_comments_shape(line@.subrange(0, index as int));
            assert(line@.subrange(0, index + 1).drop_last() == line@.subrange(0, index as int));
        }
        let ch = line[index];
        if ch == '(' {
            if depth == 0 {
                open_column = index + 1;
            }
            depth = depth + 1;
            masked.push(' ');
        } else if ch == ')' {
            if depth == 0 {
                let token = string_from_chars(&[')']);
                proof {
                    assert(token@ == seq![')']);
                    lemma_scan_comments_error_persists(line@, index + 1);
                }
                return Err(
                    ShorthandError {
                        line: line_number,
                        column: index + 1,
                        token,
                        kind: ShorthandErrorKind::UnmatchedCommentClose,
                    },
                );
            }
            depth = depth - 1;
            masked.push(' ');
        } else {
            masked.push(if depth > 0 { ' ' } else { ch });
        }
        index = index + 1;
    }
    assert(line@.subrange(0, line@.len() as int) == line@);
    if depth > 0 {
        let token = string_from_chars(&['(']);
        assert(token@ == seq!['(']);
        return Err(
            ShorthandError {
                line: line_number,
                column: open_column,
                token,
                kind: ShorthandErrorKind::UnclosedComment,
            },
        );
    }
    Ok(masked)
}

// ---------------------------------------------------------------------------
// Tokens
// ---------------------------------------------------------------------------

/// Scan a masked line left to right, collecting whitespace-separated tokens
/// with their `1`-based starting columns. Returns the finished tokens, the
/// token still being read, and its `0`-based start.
pub open spec fn scan_tokens(masked: Seq<char>) -> (Seq<(int, Seq<char>)>, Seq<char>, int)
    decreases masked.len(),
{
    if masked.len() == 0 {
        (seq![], seq![], 0)
    } else {
        let (done, current, start) = scan_tokens(masked.drop_last());
        let index = masked.len() - 1;
        let ch = masked.last();
        if is_whitespace(ch) {
            if current.len() > 0 {
                (done.push((start + 1, current)), seq![], start)
            } else {
                (done, current, start)
            }
        } else if current.len() == 0 {
            (done, seq![ch], index)
        } else {
            (done, current.push(ch), start)
        }
    }
}

/// The whitespace-separated tokens of a masked line, each with its `1`-based
/// starting column.
pub open spec fn tokenize_spec(masked: Seq<char>) -> Seq<(int, Seq<char>)> {
    let (done, current, start) = scan_tokens(masked);
    if current.len() > 0 {
        done.push((start + 1, current))
    } else {
        done
    }
}

/// Every token is non-empty and lies within the line: it starts at its
/// column and ends no later than the line does.
pub open spec fn tokens_within(tokens: Seq<(int, Seq<char>)>, len: int) -> bool {
    forall|k: int|
        0 <= k < tokens.len() ==> {
            &&& (#[trigger] tokens[k]).1.len() > 0
            &&& 1 <= tokens[k].0
            &&& tokens[k].0 - 1 + tokens[k].1.len() <= len
        }
}

proof fn lemma_scan_tokens_shape(masked: Seq<char>)
    ensures
        ({
            let (done, current, start) = scan_tokens(masked);
            &&& tokens_within(done, masked.len() as int)
            &&& 0 <= start
            &&& start + current.len() == masked.len() || current.len() == 0
            &&& start <= masked.len()
        }),
    decreases masked.len(),
{
    if masked.len() > 0 {
        lemma_scan_tokens_shape(masked.drop_last());
    }
}

proof fn lemma_tokenize_shape(masked: Seq<char>)
    ensures
        tokens_within(tokenize_spec(masked), masked.len() as int),
{
    lemma_scan_tokens_shape(masked);
}

/// The exec form of a token list: `(column, characters)` pairs.
pub open spec fn tokens_view(tokens: Seq<(usize, Vec<char>)>) -> Seq<(int, Seq<char>)> {
    tokens.map_values(|t: (usize, Vec<char>)| (t.0 as int, t.1@))
}

/// Split a masked line into whitespace-separated tokens, each tagged with its
/// `1`-based starting column in the original line.
fn tokenize(masked: &Vec<char>) -> (r: Vec<(usize, Vec<char>)>)
    ensures
        tokens_view(r@) == tokenize_spec(masked@),
{
    let mut tokens: Vec<(usize, Vec<char>)> = Vec::new();
    let mut current: Vec<char> = Vec::new();
    let mut start: usize = 0;
    let mut index: usize = 0;
    while index < masked.len()
        invariant
            0 <= index <= masked@.len(),
            scan_tokens(masked@.subrange(0, index as int)) == (tokens_view(tokens@), current@, start as int),
        decreases masked@.len() - index,
    {
        proof {
            lemma_scan_tokens_shape(masked@.subrange(0, index as int));
            assert(masked@.subrange(0, index + 1).drop_last() == masked@.subrange(0, index as int));
        }
        let ch = masked[index];
        if char_is_whitespace(ch) {
            if current.len() > 0 {
                let finished = current;
                current = Vec::new();
                let ghost before = tokens@;
                tokens.push((start + 1, finished));
                assert(tokens_view(tokens@) == tokens_view(before).push(((start + 1) as int, finished@)));
            }
        } else {
            if current.len() == 0 {
                start = index;
            }
            current.push(ch);
        }
        index = index + 1;
    }
    assert(masked@.subrange(0, masked@.len() as int) == masked@);
    if current.len() > 0 {
        proof {
            lemma_scan_tokens_shape(masked@);
        }
        let ghost before = tokens@;
        tokens.push((start + 1, current));
        assert(tokens_view(tokens@) == tokens_view(before).push(((start + 1) as int, current@)));
    }
    tokens
}

// ---------------------------------------------------------------------------
// Event tokens
// ---------------------------------------------------------------------------

/// The position a digit codes: `1`–`8` for GS, GA, WA, C, WD, GD, GK, TEAM.
pub open spec fn digit_position(c: char) -> Option<Position> {
    if c == '1' {
        Some(Position::GS)
    } else if c == '2' {
        Some(Position::GA)
    } else if c == '3' {
        Some(Position::WA)
    } else if c == '4' {
        Some(Position::C)
    } else if c == '5' {
        Some(Position::WD)
    } else if c == '6' {
        Some(Position::GD)
    } else if c == '7' {
        Some(Position::GK)
    } else if c == '8' {
        Some(Position::Team)
    } else {
        None
    }
}

/// Whether `c` is one of the ASCII digits `0`–`9`.
pub open spec fn is_ascii_digit(c: char) -> bool {
    '0' as u32 <= c as u32 <= '9' as u32
}

/// The position a token starts with, or the error (at offset 0) when its
/// first character is not a position digit.
pub open spec fn token_position(token: Seq<char>) -> Result<Position, (int, ShorthandErrorKind)> {
    match digit_position(token[0]) {
        Some(position) => Ok(position),
        None => if is_ascii_digit(token[0]) {
            Err((0, ShorthandErrorKind::InvalidPosition { digit: token[0] }))
        } else {
            Err((0, ShorthandErrorKind::MissingPosition))
        },
    }
}

/// The action coded after the position digit, with its Gain sub-type (the
/// two-letter `pi`/`pd`/`pp` win over a bare `p`) and the offset just past
/// the action letters.
pub open spec fn token_action(token: Seq<char>) -> Result<(ActionKind, Option<GainSubType>, int), (int, ShorthandErrorKind)> {
    if token.len() < 2 {
        Err((1, ShorthandErrorKind::MissingAction))
    } else {
        let c = token[1];
        if c == 'c' {
            Ok((ActionKind::CentrePassReceive, None, 2))
        } else if c == 'f' {
            Ok((ActionKind::Feed, None, 2))
        } else if c == 'g' {
            Ok((ActionKind::Goal, None, 2))
        } else if c == 'e' {
            Ok((ActionKind::UnforcedTurnover, None, 2))
        } else if c == 'i' {
            Ok((ActionKind::Infringement, None, 2))
        } else if c == 'r' {
            Ok((ActionKind::Rebound, None, 2))
        } else if c == 'p' {
            if token.len() > 2 && token[2] == 'i' {
                Ok((ActionKind::Gain, Some(GainSubType::Interception), 3))
            } else if token.len() > 2 && token[2] == 'd' {
                Ok((ActionKind::Gain, Some(GainSubType::Deflection), 3))
            } else if token.len() > 2 && token[2] == 'p' {
                Ok((ActionKind::Gain, Some(GainSubType::PickUp), 3))
            } else {
                Ok((ActionKind::Gain, None, 2))
            }
        } else {
            Err((1, ShorthandErrorKind::UnknownAction { found: c }))
        }
    }
}

/// Read the modifiers `token[start..end]` left to right: `x` (Failed, only
/// where the action can fail) and `!` (Flagged), each at most once. Returns
/// the Failed and Flagged flags, or the first offending offset and reason.
pub open spec fn scan_modifiers(kind: ActionKind, token: Seq<char>, start: int, end: int) -> Result<(bool, bool), (int, ShorthandErrorKind)>
    decreases end - start,
{
    if end <= start {
        Ok((false, false))
    } else {
        match scan_modifiers(kind, token, start, end - 1) {
            Err(e) => Err(e),
            Ok((failed, flagged)) => {
                let index = end - 1;
                let c = token[index];
                if c == 'x' {
                    if !kind.can_fail() {
                        Err((index, ShorthandErrorKind::FailedNotApplicable { action: kind }))
                    } else if failed {
                        Err((index, ShorthandErrorKind::DuplicateModifier { modifier: 'x' }))
                    } else {
                        Ok((true, flagged))
                    }
                } else if c == '!' {
                    if flagged {
                        Err((index, ShorthandErrorKind::DuplicateModifier { modifier: '!' }))
                    } else {
                        Ok((failed, true))
                    }
                } else {
                    Err((index, ShorthandErrorKind::UnexpectedTrailing { found: c }))
                }
            },
        }
    }
}

/// The [`Action`] assembled from its parts, or `None` when the position is
/// illegal for the action.
pub open spec fn build_action_spec(kind: ActionKind, sub_type: Option<GainSubType>, position: Position, failed: bool) -> Option<Action> {
    match kind {
        ActionKind::CentrePassReceive => match CentrePassReceivePosition::narrow(position) {
            Some(p) => Some(Action::CentrePassReceive { position: p, failed }),
            None => None,
        },
        ActionKind::Feed => match FeedPosition::narrow(position) {
            Some(p) => Some(Action::Feed { position: p, failed }),
            None => None,
        },
        ActionKind::Goal => match GoalPosition::narrow(position) {
            Some(p) => Some(Action::Goal { position: p, failed }),
            None => None,
        },
        ActionKind::Gain => Some(Action::Gain { position, sub_type }),
        ActionKind::UnforcedTurnover => Some(Action::UnforcedTurnover { position }),
        ActionKind::Infringement => Some(Action::Infringement { position }),
        ActionKind::Rebound => match ReboundPosition::narrow(position) {
            Some(p) => Some(Action::Rebound { position: p }),
            None => None,
        },
    }
}

/// A single event token as its action and Flagged mark, or the `0`-based
/// offset within the token and the reason it is malformed.
pub open spec fn parse_event_token_spec(token: Seq<char>) -> Result<(Action, bool), (int, ShorthandErrorKind)> {
    match token_position(token) {
        Err(e) => Err(e),
        Ok(position) => match token_action(token) {
            Err(e) => Err(e),
            Ok((kind, sub_type, next)) => match scan_modifiers(kind, token, next, token.len() as int) {
                Err(e) => Err(e),
                Ok((failed, flagged)) => match build_action_spec(kind, sub_type, position, failed) {
                    None => Err((0, ShorthandErrorKind::IllegalPosition { position, action: kind })),
                    Some(action) => Ok((action, flagged)),
                },
            },
        },
    }
}

proof fn lemma_scan_modifiers_error_persists(kind: ActionKind, token: Seq<char>, start: int, k: int, end: int)
    requires
        start <= k <= end,
        scan_modifiers(kind, token, start, k) is Err,
    ensures
        scan_modifiers(kind, token, start, end) == scan_modifiers(kind, token, start, k),
    decreases end - k,
{
    if k < end {
        lemma_scan_modifiers_error_persists(kind, token, start, k, end - 1);
    }
}

proof fn lemma_scan_modifiers_offset(kind: ActionKind, token: Seq<char>, start: int, end: int)
    requires
        0 <= start,
    ensures
        scan_modifiers(kind, token, start, end) matches Err((offset, _)) ==> start <= offset < end,
    decreases end - start,
{
    if end > start {
        lemma_scan_modifiers_offset(kind, token, start, end - 1);
    }
}

/// Assemble an [`Action`] from its parts, or `None` if the position is
/// illegal for the action: the same legality the type system enforces,
/// surfaced as a parse error rather than an unrepresentable value.
fn build_action(kind: ActionKind, sub_type: Option<GainSubType>, position: Position, failed: bool) -> (r: Option<Action>)
    ensures
        r == build_action_spec(kind, sub_type, position, failed),
{
    match kind {
        ActionKind::CentrePassReceive => match CentrePassReceivePosition::from_position(position) {
            Some(p) => Some(Action::CentrePassReceive { position: p, failed }),
            None => None,
        },
        ActionKind::Feed => match FeedPosition::from_position(position) {
            Some(p) => Some(Action::Feed { position: p, failed }),
            None => None,
        },
        ActionKind::Goal => match GoalPosition::from_position(position) {
            Some(p) => Some(Action::Goal { position: p, failed }),
            None => None,
        },
        ActionKind::Gain => Some(Action::Gain { position, sub_type }),
        ActionKind::UnforcedTurnover => Some(Action::UnforcedTurnover { position }),
        ActionKind::Infringement => Some(Action::Infringement { position }),
        ActionKind::Rebound => match ReboundPosition::from_position(position) {
            Some(p) => Some(Action::Rebound { position: p }),
            None => None,
        },
    }
}

/// Parse a single event token (no surrounding whitespace) into its [`Action`]
/// and whether it was Flagged. On failure returns the `0`-based character
/// offset within the token and the reason.
fn parse_event_token(token: &Vec<char>) -> (r: Result<(Action, bool), (usize, ShorthandErrorKind)>)
    requires
        token@.len() > 0,
    ensures
        match parse_event_token_spec(token@) {
            Ok(parsed) => r == Ok::<(Action, bool), (usize, ShorthandErrorKind)>(parsed),
            Err((offset, kind)) => r matches Err((o, k)) && o as int == offset && k == kind,
        },
{
    // Position: exactly one digit, 1-8.
    let c = token[0];
    let position = if c == '1' {
        Position::GS
    } else if c == '2' {
        Position::GA
    } else if c == '3' {
        Position::WA
    } else if c == '4' {
        Position::C
    } else if c == '5' {
        Position::WD
    } else if c == '6' {
        Position::GD
    } else if c == '7' {
        Position::GK
    } else if c == '8' {
        Position::Team
    } else if ('0' as u32) <= (c as u32) && (c as u32) <= ('9' as u32) {
        return Err((0, ShorthandErrorKind::InvalidPosition { digit: c }));
    } else {
        return Err((0, ShorthandErrorKind::MissingPosition));
    };

    // Action, matched greedily so `pi`/`pd`/`pp` win over a bare `p`.
    let mut index: usize = 1;
    if index >= token.len() {
        return Err((index, ShorthandErrorKind::MissingAction));
    }
    let a = token[index];
    let (kind, sub_type) = if a == 'c' {
        (ActionKind::CentrePassReceive, None)
    } else if a == 'f' {
        (ActionKind::Feed, None)
    } else if a == 'g' {
        (ActionKind::Goal, None)
    } else if a == 'e' {
        (ActionKind::UnforcedTurnover, None)
    } else if a == 'i' {
        (ActionKind::Infringement, None)
    } else if a == 'r' {
        (ActionKind::Rebound, None)
    } else if a == 'p' {
        let sub = if index + 1 < token.len() && token[index + 1] == 'i' {
            Some(GainSubType::Interception)
        } else if index + 1 < token.len() && token[index + 1] == 'd' {
            Some(GainSubType::Deflection)
        } else if index + 1 < token.len() && token[index + 1] == 'p' {
            Some(GainSubType::PickUp)
        } else {
            None
        };
        if sub.is_some() {
            index = index + 1;
        }
        (ActionKind::Gain, sub)
    } else {
        return Err((index, ShorthandErrorKind::UnknownAction { found: a }));
    };
    index = index + 1;
    let ghost next = index as int;
    assert(token_position(token@) == Ok::<Position, (int, ShorthandErrorKind)>(position));
    assert(token_action(token@) == Ok::<(ActionKind, Option<GainSubType>, int), (int, ShorthandErrorKind)>((kind, sub_type, next)));

    // Modifiers: any order, each at most once.
    let mut failed = false;
    let mut flagged = false;
    while index < token.len()
        invariant
            next <= index <= token@.len(),
            token_position(token@) == Ok::<Position, (int, ShorthandErrorKind)>(position),
            token_action(token@) == Ok::<(ActionKind, Option<GainSubType>, int), (int, ShorthandErrorKind)>((kind, sub_type, next)),
            scan_modifiers(kind, token@, next, index as int) == Ok::<(bool, bool), (int, ShorthandErrorKind)>((failed, flagged)),
        decreases token@.len() - index,
    {
        let m = token[index];
        if m == 'x' {
            if !kind.can_fail() {
                proof { lemma_scan_modifiers_error_persists(kind, token@, next, index + 1, token@.len() as int); }
                return Err((index, ShorthandErrorKind::FailedNotApplicable { action: kind }));
            }
            if failed {
                proof { lemma_scan_modifiers_error_persists(kind, token@, next, index + 1, token@.len() as int); }
                return Err((index, ShorthandErrorKind::DuplicateModifier { modifier: 'x' }));
            }
            failed = true;
        } else if m == '!' {
            if flagged {
                proof { lemma_scan_modifiers_error_persists(kind, token@, next, index + 1, token@.len() as int); }
                return Err((index, ShorthandErrorKind::DuplicateModifier { modifier: '!' }));
            }
            flagged = true;
        } else {
            proof { lemma_scan_modifiers_error_persists(kind, token@, next, index + 1, token@.len() as int); }
            return Err((index, ShorthandErrorKind::UnexpectedTrailing { found: m }));
        }
        index = index + 1;
    }

    match build_action(kind, sub_type, position, failed) {
        Some(action) => Ok((action, flagged)),
        None => Err((0, ShorthandErrorKind::IllegalPosition { position, action: kind })),
    }
}

// ---------------------------------------------------------------------------
// Lines and the whole input
// ---------------------------------------------------------------------------

/// The events of one possession line, one per token, all credited to `team`,
/// or the error for the first malformed token.
pub open spec fn parse_events_spec(tokens: Seq<(int, Seq<char>)>, team: Team, line_number: int) -> Result<Seq<LogEntry>, ErrorView>
    decreases tokens.len(),
{
    if tokens.len() == 0 {
        Ok(seq![])
    } else {
        match parse_events_spec(tokens.drop_last(), team, line_number) {
            Err(e) => Err(e),
            Ok(entries) => {
                let (column, token) = tokens.last();
                match parse_event_token_spec(token) {
                    Err((offset, kind)) => Err(error_at(line_number, column + offset, token, kind)),
                    Ok((action, flagged)) => Ok(
                        entries.push(LogEntry::Event(Event { team, action, flagged, timestamp_ms: None })),
                    ),
                }
            },
        }
    }
}

/// The two characters of a quarter-break marker.
pub open spec fn quarter_break_marker() -> Seq<char> {
    seq!['Q', 'T']
}

/// The entries one line contributes: none for a blank (or pure-comment)
/// line, one quarter break for `QT`, one event per token for a possession
/// (team A unless an `a`/`b` prefix says otherwise).
pub open spec fn parse_line_spec(line: Seq<char>, line_number: int) -> Result<Seq<LogEntry>, ErrorView> {
    match strip_comments_spec(line, line_number) {
        Err(e) => Err(e),
        Ok(masked) => {
            let tokens = tokenize_spec(masked);
            if tokens.len() == 0 {
                Ok(seq![])
            } else {
                let (first_column, first) = tokens[0];
                if first == quarter_break_marker() {
                    if tokens.len() > 1 {
                        Err(error_at(line_number, tokens[1].0, tokens[1].1, ShorthandErrorKind::QuarterBreakNotAlone))
                    } else {
                        Ok(seq![LogEntry::QuarterBreak(QuarterBreak { timestamp_ms: None })])
                    }
                } else if first[0] == 'S' {
                    Err(error_at(line_number, first_column, first, ShorthandErrorKind::SubstitutionNotSupported))
                } else if first[0] == 'a' || first[0] == 'b' {
                    let team = if first[0] == 'a' { Team::A } else { Team::B };
                    if first.len() == 1 {
                        if tokens.len() == 1 {
                            Err(error_at(line_number, first_column, first, ShorthandErrorKind::EmptyPossession { prefix: first[0] }))
                        } else {
                            parse_events_spec(tokens.drop_first(), team, line_number)
                        }
                    } else {
                        parse_events_spec(tokens.update(0, (first_column + 1, first.drop_first())), team, line_number)
                    }
                } else {
                    parse_events_spec(tokens, Team::A, line_number)
                }
            }
        },
    }
}

/// The log of a sequence of lines, numbered from 1, or the error of the
/// first line that fails.
pub open spec fn parse_lines_spec(lines: Seq<Seq<char>>) -> Result<Seq<LogEntry>, ErrorView>
    decreases lines.len(),
{
    if lines.len() == 0 {
        Ok(seq![])
    } else {
        match parse_lines_spec(lines.drop_last()) {
            Err(e) => Err(e),
            Ok(entries) => match parse_line_spec(strip_cr(lines.last()), lines.len() as int) {
                Err(e) => Err(e),
                Ok(more) => Ok(entries + more),
            },
        }
    }
}

/// What Shorthand text means: the log of its lines in reading order, or the
/// located error of its first malformed token.
pub open spec fn parse_shorthand_spec(input: Seq<char>) -> Result<Seq<LogEntry>, ErrorView> {
    parse_lines_spec(split_lines(input))
}

proof fn lemma_parse_events_error_persists(tokens: Seq<(int, Seq<char>)>, team: Team, line_number: int, k: int)
    requires
        0 <= k <= tokens.len(),
        parse_events_spec(tokens.subrange(0, k), team, line_number) is Err,
    ensures
        parse_events_spec(tokens, team, line_number) == parse_events_spec(tokens.subrange(0, k), team, line_number),
    decreases tokens.len() - k,
{
    if k < tokens.len() {
        assert(tokens.subrange(0, k + 1).drop_last() == tokens.subrange(0, k));
        lemma_parse_events_error_persists(tokens, team, line_number, k + 1);
    } else {
        assert(tokens.subrange(0, k) == tokens);
    }
}

proof fn lemma_parse_lines_error_persists(lines: Seq<Seq<char>>, k: int)
    requires
        0 <= k <= lines.len(),
        parse_lines_spec(lines.subrange(0, k)) is Err,
    ensures
        parse_lines_spec(lines) == parse_lines_spec(lines.subrange(0, k)),
    decreases lines.len() - k,
{
    if k < lines.len() {
        assert(lines.subrange(0, k + 1).drop_last() == lines.subrange(0, k));
        lemma_parse_lines_error_persists(lines, k + 1);
    } else {
        assert(lines.subrange(0, k) == lines);
    }
}

proof fn lemma_split_lines_nonempty(s: Seq<char>)
    ensures
        split_lines(s).len() >= 1,
        split_lines(s).len() <= s.len() + 1,
    decreases s.len(),
{
    if s.len() > 0 {
        lemma_split_lines_nonempty(s.drop_last());
    }
}

/// The lines finished within a prefix of the input are lines of the whole
/// input.
proof fn lemma_split_lines_prefix(s: Seq<char>, k: int)
    requires
        0 <= k <= s.len(),
    ensures
        split_lines(s.take(k)).len() <= split_lines(s).len(),
        forall|j: int| 0 <= j < split_lines(s.take(k)).len() - 1 ==> split_lines(s)[j] == #[trigger] split_lines(s.take(k))[j],
    decreases s.len(),
{
    lemma_split_lines_nonempty(s);
    if k < s.len() {
        assert(s.drop_last().take(k) == s.take(k));
        lemma_split_lines_prefix(s.drop_last(), k);
        lemma_split_lines_nonempty(s.drop_last());
    } else {
        assert(s.take(k) == s);
    }
}

proof fn lemma_parse_event_token_offset(token: Seq<char>)
    requires
        token.len() > 0,
    ensures
        parse_event_token_spec(token) matches Err((offset, _)) ==> 0 <= offset <= token.len(),
{
    if let Ok(position) = token_position(token) {
        if let Ok((kind, sub_type, next)) = token_action(token) {
            lemma_scan_modifiers_offset(kind, token, next, token.len() as int);
        }
    }
}

/// The exec list of tokens without its first entry.
proof fn lemma_tokens_view_drop_first(tokens: Seq<(usize, Vec<char>)>)
    requires
        tokens.len() > 0,
    ensures
        tokens_view(tokens.drop_first()) == tokens_view(tokens).drop_first(),
{
    assert(tokens_view(tokens.drop_first()) =~= tokens_view(tokens).drop_first());
}

/// Parse the events of one possession line, appending them to `log`.
fn parse_events(tokens: &Vec<(usize, Vec<char>)>, team: Team, line_number: usize, line_len: usize, log: &mut Vec<LogEntry>) -> (r: Result<(), ShorthandError>)
    requires
        tokens_within(tokens_view(tokens@), line_len as int),
        line_len < usize::MAX,
    ensures
        match parse_events_spec(tokens_view(tokens@), team, line_number as int) {
            Ok(entries) => r is Ok && final(log)@ == old(log)@ + entries,
            Err(e) => r matches Err(err) && err@ == e && old(log)@.len() <= final(log)@.len()
                && final(log)@.subrange(0, old(log)@.len() as int) == old(log)@ && exists|n: int|
                0 <= n < tokens@.len() && #[trigger] parse_events_spec(
                    tokens_view(tokens@).subrange(0, n),
                    team,
                    line_number as int,
                ) == Ok::<Seq<LogEntry>, ErrorView>(added(old(log)@, final(log)@)),
        },
{
    let ghost toks = tokens_view(tokens@);
    let mut i: usize = 0;
    while i < tokens.len()
        invariant
            0 <= i <= tokens@.len(),
            toks == tokens_view(tokens@),
            tokens_within(toks, line_len as int),
            line_len < usize::MAX,
            parse_events_spec(toks.subrange(0, i as int), team, line_number as int) matches Ok(entries) && log@ == old(log)@ + entries,
        decreases tokens@.len() - i,
    {
        let column = tokens[i].0;
        let token = &tokens[i].1;
        proof {
            assert(toks[i as int] == (column as int, token@));
            assert(toks.subrange(0, i + 1).drop_last() == toks.subrange(0, i as int));
            assert(toks.subrange(0, i + 1).last() == toks[i as int]);
            lemma_parse_event_token_offset(token@);
        }
        match parse_event_token(token) {
            Ok((action, flagged)) => {
                log.push(LogEntry::Event(Event { team, action, flagged, timestamp_ms: None }));
            },
            Err((offset, kind)) => {
                let text = string_from_chars(token.as_slice());
                proof {
                    lemma_parse_events_error_persists(toks, team, line_number as int, i + 1);
                    assert(added(old(log)@, log@) =~= parse_events_spec(toks.subrange(0, i as int), team, line_number as int)->Ok_0);
                    assert(parse_events_spec(toks.subrange(0, i as int), team, line_number as int) == Ok::<Seq<LogEntry>, ErrorView>(added(old(log)@, log@)));
                }
                return Err(ShorthandError { line: line_number, column: column + offset, token: text, kind });
            },
        }
        i = i + 1;
    }
    assert(toks.subrange(0, tokens@.len() as int) == toks);
    Ok(())
}

/// What was appended to `before` to make `after`, when `after` extends it.
pub open spec fn added(before: Seq<LogEntry>, after: Seq<LogEntry>) -> Seq<LogEntry> {
    after.subrange(before.len() as int, after.len() as int)
}

/// The team and event tokens of a possession line: its tokens once comments
/// are stripped, after a leading `a`/`b` team prefix is taken off (a detached
/// prefix is a token of its own; an attached one shifts the first token's
/// column by one). `None` for a line that is blank, a marker, or fails
/// before its events are read.
pub open spec fn possession_tokens(line: Seq<char>, line_number: int) -> Option<(Team, Seq<(int, Seq<char>)>)> {
    match strip_comments_spec(line, line_number) {
        Err(_) => None,
        Ok(masked) => {
            let tokens = tokenize_spec(masked);
            if tokens.len() == 0 {
                None
            } else {
                let (first_column, first) = tokens[0];
                if first == quarter_break_marker() || first[0] == 'S' {
                    None
                } else if first[0] == 'a' || first[0] == 'b' {
                    let team = if first[0] == 'a' { Team::A } else { Team::B };
                    if first.len() == 1 {
                        if tokens.len() == 1 {
                            None
                        } else {
                            Some((team, tokens.drop_first()))
                        }
                    } else {
                        Some((team, tokens.update(0, (first_column + 1, first.drop_first()))))
                    }
                } else {
                    Some((Team::A, tokens))
                }
            }
        },
    }
}

/// The entries of the first `n` event tokens of a possession line, when
/// there are more than `n` and those `n` all parse.
pub open spec fn line_prefix_entries(line: Seq<char>, line_number: int, n: int) -> Option<Seq<LogEntry>> {
    match possession_tokens(line, line_number) {
        Some((team, tokens)) => if 0 <= n < tokens.len() {
            match parse_events_spec(tokens.subrange(0, n), team, line_number) {
                Ok(entries) => Some(entries),
                Err(_) => None,
            }
        } else {
            None
        },
        None => None,
    }
}

/// Parse one line, appending its entries (none for a blank line, one for a
/// marker, one per event token for a possession) to `log`. When the line
/// fails, `log` keeps what it held, followed by at most the events of the
/// tokens before the failing one on this line.
fn parse_line(line: &Vec<char>, line_number: usize, log: &mut Vec<LogEntry>) -> (r: Result<(), ShorthandError>)
    requires
        line@.len() < usize::MAX,
    ensures
        match parse_line_spec(line@, line_number as int) {
            Ok(entries) => r is Ok && final(log)@ == old(log)@ + entries,
            Err(e) => r matches Err(err) && err@ == e && old(log)@.len() <= final(log)@.len()
                && final(log)@.subrange(0, old(log)@.len() as int) == old(log)@ && (final(log)@.len()
                == old(log)@.len() || exists|n: int|
                #[trigger] line_prefix_entries(line@, line_number as int, n) == Some(
                    added(old(log)@, final(log)@),
                )),
        },
{
    let masked = strip_comments(line, line_number)?;
    proof {
        lemma_scan_comments_shape(line@);
    }
    let mut tokens = tokenize(&masked);
    let ghost toks = tokenize_spec(masked@);
    proof {
        lemma_tokenize_shape(masked@);
    }
    if tokens.len() == 0 {
        assert(old(log)@ + Seq::<LogEntry>::empty() == log@);
        return Ok(());
    }
    assert(toks[0] == (tokens[0].0 as int, tokens[0].1@));
    let first_column = tokens[0].0;
    let first_len = tokens[0].1.len();
    let first_char = tokens[0].1[0];

    // Markers are whole-line and never carry a team prefix.
    if first_len == 2 && first_char == 'Q' && tokens[0].1[1] == 'T' {
        assert(toks[0].1 == quarter_break_marker());
        if tokens.len() > 1 {
            assert(toks[1] == (tokens[1].0 as int, tokens[1].1@));
            let text = string_from_chars(tokens[1].1.as_slice());
            return Err(ShorthandError { line: line_number, column: tokens[1].0, token: text, kind: ShorthandErrorKind::QuarterBreakNotAlone });
        }
        log.push(LogEntry::QuarterBreak(QuarterBreak { timestamp_ms: None }));
        return Ok(());
    }
    assert(toks[0].1 != quarter_break_marker());
    if first_char == 'S' {
        let text = string_from_chars(tokens[0].1.as_slice());
        return Err(ShorthandError { line: line_number, column: first_column, token: text, kind: ShorthandErrorKind::SubstitutionNotSupported });
    }

    // Otherwise a possession: an optional leading a/b picks the team, then
    // one event per token.
    let mut team = Team::A;
    if first_char == 'a' || first_char == 'b' {
        team = if first_char == 'a' { Team::A } else { Team::B };
        if first_len == 1 {
            // Detached prefix: `a 1c 2f`. Drop the prefix token.
            if tokens.len() == 1 {
                let text = string_from_chars(tokens[0].1.as_slice());
                return Err(ShorthandError { line: line_number, column: first_column, token: text, kind: ShorthandErrorKind::EmptyPossession { prefix: first_char } });
            }
            let ghost before = tokens@;
            tokens.remove(0);
            proof {
                assert(tokens@ == before.drop_first());
                lemma_tokens_view_drop_first(before);
            }
        } else {
            // Attached prefix: `a1c`. Keep the remainder as the first event,
            // shifting its column past the consumed prefix character.
            let ghost before = tokens@;
            let (column, chars) = tokens.remove(0);
            let mut rest: Vec<char> = Vec::new();
            let mut k: usize = 1;
            while k < chars.len()
                invariant
                    1 <= k <= chars@.len(),
                    rest@ == chars@.subrange(1, k as int),
                decreases chars@.len() - k,
            {
                rest.push(chars[k]);
                k = k + 1;
                assert(chars@.subrange(1, k as int) == chars@.subrange(1, k - 1).push(chars@[k - 1]));
            }
            assert(rest@ == chars@.drop_first());
            tokens.insert(0, (column + 1, rest));
            proof {
                assert(tokens_view(tokens@) =~= toks.update(0, (first_column + 1, toks[0].1.drop_first())));
            }
        }
    } else {
        assert(tokens_view(tokens@) == toks);
    }
    let ghost before = log@;
    let r = parse_events(&tokens, team, line_number, line.len(), log);
    proof {
        if r is Err {
            let n = choose|n: int|
                0 <= n < tokens@.len() && #[trigger] parse_events_spec(tokens_view(tokens@).subrange(0, n), team, line_number as int)
                    == Ok::<Seq<LogEntry>, ErrorView>(added(before, log@));
            assert(possession_tokens(line@, line_number as int) == Some((team, tokens_view(tokens@))));
            assert(line_prefix_entries(line@, line_number as int, n) == Some(added(before, log@)));
        }
    }
    r
}

/// Parse Shorthand text into a log of [`LogEntry`]s, in reading order. On any
/// malformed token the whole parse fails with a located [`ShorthandError`]
/// and no entries are returned, so a caller can never import a partial match.
/// The returned entries carry no timestamps: a transcription has no clock.
pub fn parse_shorthand(input: &str) -> (r: Result<Vec<LogEntry>, ShorthandError>)
    requires
        input@.len() < usize::MAX,
    ensures
        match parse_shorthand_spec(input@) {
            Ok(entries) => r matches Ok(log) && log@ == entries,
            Err(e) => r matches Err(err) && err@ == e,
        },
{
    let chars = chars_of(input);
    let mut log: Vec<LogEntry> = Vec::new();
    let mut current: Vec<char> = Vec::new();
    let mut line_number: usize = 1;
    let ghost mut done: Seq<Seq<char>> = seq![];
    let mut i: usize = 0;
    while i < chars.len()
        invariant
            0 <= i <= chars@.len(),
            chars@ == input@,
            chars@.len() < usize::MAX,
            split_lines(chars@.take(i as int)) == done.push(current@),
            parse_lines_spec(done) == Ok::<Seq<LogEntry>, ErrorView>(log@),
            line_number == done.len() + 1,
            current@.len() <= i,
            done.len() <= i,
        decreases chars@.len() - i,
    {
        let ch = chars[i];
        assert(chars@.take(i + 1).drop_last() == chars@.take(i as int));
        assert(chars@.take(i + 1).last() == ch);
        if ch == '\n' {
            // Normalise a trailing '\r' from Windows line endings so it never
            // counts toward a column or trips tokenisation.
            let ghost raw = current@;
            if current.len() > 0 && current[current.len() - 1] == '\r' {
                current.pop();
            }
            assert(current@ == strip_cr(raw));
            proof {
                assert(done.push(raw).drop_last() == done);
                assert(done.push(raw).last() == raw);
            }
            match parse_line(&current, line_number, &mut log) {
                Ok(()) => {},
                Err(e) => {
                    proof {
                        let lines = split_lines(input@);
                        let finished = done.push(raw);
                        lemma_split_lines_prefix(input@, i + 1);
                        let pre = split_lines(input@.take(i + 1));
                        assert(pre == finished.push(seq![]));
                        assert forall|j: int| 0 <= j < finished.len() implies lines[j] == finished[j] by {
                            assert(pre[j] == finished[j]);
                        }
                        assert(lines.subrange(0, finished.len() as int) =~= finished);
                        lemma_parse_lines_error_persists(lines, finished.len() as int);
                    }
                    return Err(e);
                },
            }
            proof {
                done = done.push(raw);
            }
            current = Vec::new();
            line_number = line_number + 1;
        } else {
            current.push(ch);
        }
        i = i + 1;
    }
    assert(chars@.take(chars@.len() as int) == chars@);
    let ghost raw = current@;
    if current.len() > 0 && current[current.len() - 1] == '\r' {
        current.pop();
    }
    assert(current@ == strip_cr(raw));
    assert(done.push(raw).drop_last() == done);
    parse_line(&current, line_number, &mut log)?;
    Ok(log)
}

// ---------------------------------------------------------------------------
// Laws of the grammar
// ---------------------------------------------------------------------------

/// Every entry is clock-free and is an event or a quarter break.
pub open spec fn untimed_events_and_breaks(entries: Seq<LogEntry>) -> bool {
    forall|i: int|
        0 <= i < entries.len() ==> {
            &&& (#[trigger] entries[i]).timestamp_ms() is None
            &&& !(entries[i] is Substitution)
        }
}

proof fn lemma_parse_events_untimed(tokens: Seq<(int, Seq<char>)>, team: Team, line_number: int)
    ensures
        parse_events_spec(tokens, team, line_number) matches Ok(entries) ==> untimed_events_and_breaks(entries),
    decreases tokens.len(),
{
    if tokens.len() > 0 {
        lemma_parse_events_untimed(tokens.drop_last(), team, line_number);
    }
}

proof fn lemma_parse_line_untimed(line: Seq<char>, line_number: int)
    ensures
        parse_line_spec(line, line_number) matches Ok(entries) ==> untimed_events_and_breaks(entries),
{
    if let Ok(masked) = strip_comments_spec(line, line_number) {
        let tokens = tokenize_spec(masked);
        if tokens.len() > 0 {
            let (first_column, first) = tokens[0];
            if first == quarter_break_marker() {
                let qt: Seq<LogEntry> = seq![LogEntry::QuarterBreak(QuarterBreak { timestamp_ms: None })];
                assert(qt[0].timestamp_ms() is None);
                assert(untimed_events_and_breaks(qt));
            } else if first[0] == 'S' {
            } else if first[0] == 'a' || first[0] == 'b' {
                let team = if first[0] == 'a' { Team::A } else { Team::B };
                if first.len() == 1 {
                    lemma_parse_events_untimed(tokens.drop_first(), team, line_number);
                } else {
                    lemma_parse_events_untimed(tokens.update(0, (first_column + 1, first.drop_first())), team, line_number);
                }
            } else {
                lemma_parse_events_untimed(tokens, Team::A, line_number);
            }
        } else {
            assert(untimed_events_and_breaks(Seq::<LogEntry>::empty()));
        }
    }
}

proof fn lemma_parse_lines_untimed(lines: Seq<Seq<char>>)
    ensures
        parse_lines_spec(lines) matches Ok(entries) ==> untimed_events_and_breaks(entries),
    decreases lines.len(),
{
    if lines.len() > 0 {
        lemma_parse_lines_untimed(lines.drop_last());
        lemma_parse_line_untimed(strip_cr(lines.last()), lines.len() as int);
        if let Ok(before) = parse_lines_spec(lines.drop_last()) {
            if let Ok(more) = parse_line_spec(strip_cr(lines.last()), lines.len() as int) {
                let all = before + more;
                assert forall|i: int| 0 <= i < all.len() implies {
                    &&& (#[trigger] all[i]).timestamp_ms() is None
                    &&& !(all[i] is Substitution)
                } by {
                    if i < before.len() {
                        assert(all[i] == before[i]);
                    } else {
                        assert(all[i] == more[i - before.len()]);
                    }
                }
            }
        }
    }
}

/// A transcription has no clock and no roster: every entry an import
/// produces is a timestamp-free event or quarter break.
pub proof fn lemma_imports_are_untimed(input: Seq<char>)
    ensures
        parse_shorthand_spec(input) matches Ok(entries) ==> untimed_events_and_breaks(entries),
{
    lemma_parse_lines_untimed(split_lines(input));
}

proof fn lemma_parse_events_line_independent(tokens: Seq<(int, Seq<char>)>, team: Team, n: int, m: int)
    ensures
        parse_events_spec(tokens, team, n) is Ok ==> parse_events_spec(tokens, team, m) == parse_events_spec(tokens, team, n),
        parse_events_spec(tokens, team, n) matches Err(e) ==> e.line == n && parse_events_spec(tokens, team, m)
            == Err::<Seq<LogEntry>, ErrorView>(ErrorView { line: m, ..e }),
    decreases tokens.len(),
{
    if tokens.len() > 0 {
        lemma_parse_events_line_independent(tokens.drop_last(), team, n, m);
    }
}

/// What a line parses to does not depend on its line number; only the
/// location of an error does.
proof fn lemma_parse_line_line_independent(line: Seq<char>, n: int, m: int)
    ensures
        parse_line_spec(line, n) is Ok ==> parse_line_spec(line, m) == parse_line_spec(line, n),
        parse_line_spec(line, n) matches Err(e) ==> e.line == n && parse_line_spec(line, m)
            == Err::<Seq<LogEntry>, ErrorView>(ErrorView { line: m, ..e }),
{
    if let Ok(masked) = strip_comments_spec(line, n) {
        assert(strip_comments_spec(line, m) == strip_comments_spec(line, n));
        let tokens = tokenize_spec(masked);
        if tokens.len() > 0 {
            let (first_column, first) = tokens[0];
            if first == quarter_break_marker() {
            } else if first[0] == 'S' {
            } else if first[0] == 'a' || first[0] == 'b' {
                let team = if first[0] == 'a' { Team::A } else { Team::B };
                if first.len() == 1 {
                    lemma_parse_events_line_independent(tokens.drop_first(), team, n, m);
                } else {
                    lemma_parse_events_line_independent(tokens.update(0, (first_column + 1, first.drop_first())), team, n, m);
                }
            } else {
                lemma_parse_events_line_independent(tokens, Team::A, n, m);
            }
        }
    }
}

proof fn lemma_split_lines_concat(a: Seq<char>, b: Seq<char>)
    ensures
        split_lines(a + seq!['\n'] + b) == split_lines(a) + split_lines(b),
    decreases b.len(),
{
    let s = a + seq!['\n'] + b;
    if b.len() == 0 {
        assert(s == a.push('\n'));
        assert(s.drop_last() == a);
        assert(split_lines(s) =~= split_lines(a) + split_lines(b));
    } else {
        assert(s.drop_last() == a + seq!['\n'] + b.drop_last());
        lemma_split_lines_concat(a, b.drop_last());
        lemma_split_lines_nonempty(b.drop_last());
        lemma_split_lines_nonempty(a);
        assert(split_lines(s) =~= split_lines(a) + split_lines(b));
    }
}

proof fn lemma_parse_lines_concat(x: Seq<Seq<char>>, y: Seq<Seq<char>>)
    requires
        parse_lines_spec(x) is Ok,
        parse_lines_spec(y) is Ok,
    ensures
        parse_lines_spec(x + y) == Ok::<Seq<LogEntry>, ErrorView>(parse_lines_spec(x)->Ok_0 + parse_lines_spec(y)->Ok_0),
    decreases y.len(),
{
    if y.len() == 0 {
        assert(x + y == x);
        assert(parse_lines_spec(x)->Ok_0 + parse_lines_spec(y)->Ok_0 == parse_lines_spec(x)->Ok_0);
    } else {
        assert((x + y).drop_last() == x + y.drop_last());
        assert((x + y).last() == y.last());
        lemma_parse_lines_concat(x, y.drop_last());
        lemma_parse_line_line_independent(strip_cr(y.last()), y.len() as int, (x + y).len() as int);
        let a = parse_lines_spec(x)->Ok_0;
        let b = parse_lines_spec(y.drop_last())->Ok_0;
        let c = parse_line_spec(strip_cr(y.last()), y.len() as int)->Ok_0;
        assert(a + b + c == a + (b + c));
    }
}

proof fn lemma_parse_lines_concat_error(x: Seq<Seq<char>>, y: Seq<Seq<char>>)
    requires
        parse_lines_spec(x) is Ok,
        parse_lines_spec(y) is Err,
    ensures
        parse_lines_spec(x + y) == Err::<Seq<LogEntry>, ErrorView>(ErrorView {
            line: parse_lines_spec(y)->Err_0.line + x.len(),
            ..parse_lines_spec(y)->Err_0
        }),
    decreases y.len(),
{
    let e = parse_lines_spec(y)->Err_0;
    assert((x + y).drop_last() == x + y.drop_last());
    assert((x + y).last() == y.last());
    if parse_lines_spec(y.drop_last()) is Err {
        lemma_parse_lines_concat_error(x, y.drop_last());
    } else {
        lemma_parse_lines_concat(x, y.drop_last());
        lemma_parse_line_line_independent(strip_cr(y.last()), y.len() as int, (x + y).len() as int);
    }
}

/// A transcription with an error fails at its first error: joined by a
/// newline to more text after it, it fails with the same error; and a
/// well-formed transcription followed by a failing one fails with the second
/// one's error, its line moved down by the first one's lines.
pub proof fn lemma_parse_shorthand_concat_errors(a: Seq<char>, b: Seq<char>)
    ensures
        parse_shorthand_spec(a) matches Err(e) ==> parse_shorthand_spec(a + seq!['\n'] + b)
            == Err::<Seq<LogEntry>, ErrorView>(e),
        parse_shorthand_spec(a) is Ok ==> (parse_shorthand_spec(b) matches Err(e) ==> parse_shorthand_spec(
            a + seq!['\n'] + b,
        ) == Err::<Seq<LogEntry>, ErrorView>(ErrorView { line: e.line + split_lines(a).len(), ..e })),
{
    lemma_split_lines_concat(a, b);
    let x = split_lines(a);
    let y = split_lines(b);
    if parse_lines_spec(x) is Err {
        assert((x + y).subrange(0, x.len() as int) == x);
        lemma_parse_lines_error_persists(x + y, x.len() as int);
    } else if parse_lines_spec(y) is Err {
        lemma_parse_lines_concat_error(x, y);
    }
}

/// Shorthand is line-oriented: two well-formed transcriptions joined by a
/// newline parse to the first one's log followed by the second one's.
pub proof fn lemma_parse_shorthand_concat(a: Seq<char>, b: Seq<char>)
    requires
        parse_shorthand_spec(a) is Ok,
        parse_shorthand_spec(b) is Ok,
    ensures
        parse_shorthand_spec(a + seq!['\n'] + b) == Ok::<Seq<LogEntry>, ErrorView>(
            parse_shorthand_spec(a)->Ok_0 + parse_shorthand_spec(b)->Ok_0,
        ),
{
    lemma_split_lines_concat(a, b);
    lemma_parse_lines_concat(split_lines(a), split_lines(b));
}

proof fn lemma_parse_events_error_located(tokens: Seq<(int, Seq<char>)>, team: Team, n: int)
    requires
        forall|k: int| 0 <= k < tokens.len() ==> (#[trigger] tokens[k]).1.len() > 0 && tokens[k].0 >= 1,
    ensures
        parse_events_spec(tokens, team, n) matches Err(e) ==> e.line == n && e.column >= 1,
    decreases tokens.len(),
{
    if tokens.len() > 0 {
        lemma_parse_events_error_located(tokens.drop_last(), team, n);
        lemma_parse_event_token_offset(tokens.last().1);
    }
}

proof fn lemma_parse_line_error_located(line: Seq<char>, n: int)
    ensures
        parse_line_spec(line, n) matches Err(e) ==> e.line == n && e.column >= 1,
{
    lemma_scan_comments_shape(line);
    if let Ok(masked) = strip_comments_spec(line, n) {
        let tokens = tokenize_spec(masked);
        lemma_tokenize_shape(masked);
        if tokens.len() > 0 {
            let first = tokens[0].1;
            lemma_parse_events_error_located(tokens, Team::A, n);
            lemma_parse_events_error_located(tokens.drop_first(), Team::A, n);
            lemma_parse_events_error_located(tokens.drop_first(), Team::B, n);
            if first.len() > 1 {
                let shifted = tokens.update(0, (tokens[0].0 + 1, first.drop_first()));
                lemma_parse_events_error_located(shifted, Team::A, n);
                lemma_parse_events_error_located(shifted, Team::B, n);
            }
        }
    }
}

proof fn lemma_parse_lines_error_located(lines: Seq<Seq<char>>)
    ensures
        parse_lines_spec(lines) matches Err(e) ==> 1 <= e.line <= lines.len() && e.column >= 1,
    decreases lines.len(),
{
    if lines.len() > 0 {
        lemma_parse_lines_error_located(lines.drop_last());
        lemma_parse_line_error_located(strip_cr(lines.last()), lines.len() as int);
    }
}

/// A failed import always points into the input: at one of its lines (as
/// `str::lines`-style splitting at `'\n'` numbers them, from 1) and at a
/// column from 1.
pub proof fn lemma_errors_point_into_the_input(input: Seq<char>)
    ensures
        parse_shorthand_spec(input) matches Err(e) ==> 1 <= e.line <= split_lines(input).len() && e.column >= 1,
{
    lemma_parse_lines_error_located(split_lines(input));
}

/// The legality table agrees with the event model: a kind/position pair
/// builds an [`Action`] exactly when the taxonomy lists the position as
/// legal for the kind, and the action built has that kind and position.
/// Failed can be carried exactly by the kinds the taxonomy says can fail.
pub proof fn lemma_legality_table_agrees(kind: ActionKind, position: Position, sub_type: Option<GainSubType>, failed: bool)
    ensures
        build_action_spec(kind, sub_type, position, failed) is Some <==> crate::taxonomy::legal_position_seq(kind).contains(position),
        build_action_spec(kind, sub_type, position, failed) matches Some(action) ==> {
            &&& action.kind() == kind
            &&& action.position() == position
            &&& kind.can_fail() ==> action_failed(action) == failed
        },
{
    let legal = crate::taxonomy::legal_position_seq(kind);
    if build_action_spec(kind, sub_type, position, failed) is Some {
        assert(legal.contains(position)) by {
            assert(exists|i: int| 0 <= i < legal.len() && legal[i] == position) by {
                if legal.len() > 0 && legal[0] == position { assert(legal[0] == position); }
                else if legal.len() > 1 && legal[1] == position { assert(legal[1] == position); }
                else if legal.len() > 2 && legal[2] == position { assert(legal[2] == position); }
                else if legal.len() > 3 && legal[3] == position { assert(legal[3] == position); }
                else if legal.len() > 4 && legal[4] == position { assert(legal[4] == position); }
                else if legal.len() > 5 && legal[5] == position { assert(legal[5] == position); }
                else if legal.len() > 6 && legal[6] == position { assert(legal[6] == position); }
                else { assert(legal[7] == position); }
            }
        }
    } else {
        assert(!legal.contains(position)) by {
            assert forall|i: int| 0 <= i < legal.len() implies legal[i] != position by {}
        }
    }
}

/// Whether an action carries the Failed modifier (false for the kinds that
/// cannot fail).
pub open spec fn action_failed(action: Action) -> bool {
    match action {
        Action::CentrePassReceive { failed, .. } => failed,
        Action::Feed { failed, .. } => failed,
        Action::Goal { failed, .. } => failed,
        _ => false,
    }
}

// ---------------------------------------------------------------------------
// Messages
// ---------------------------------------------------------------------------

/// The two-letter position code (`GS`…`GK`, `TEAM`) used in messages.
pub open spec fn position_code_text(position: Position) -> Seq<char> {
    match position {
        Position::GS => "GS"@,
        Position::GA => "GA"@,
        Position::WA => "WA"@,
        Position::C => "C"@,
        Position::WD => "WD"@,
        Position::GD => "GD"@,
        Position::GK => "GK"@,
        Position::Team => "TEAM"@,
    }
}

/// The readable action name used in messages.
pub open spec fn action_name_text(kind: ActionKind) -> Seq<char> {
    match kind {
        ActionKind::CentrePassReceive => "a centre pass receive"@,
        ActionKind::Feed => "a feed"@,
        ActionKind::Goal => "a goal"@,
        ActionKind::Gain => "a gain"@,
        ActionKind::UnforcedTurnover => "an unforced turnover"@,
        ActionKind::Infringement => "an infringement"@,
        ActionKind::Rebound => "a rebound"@,
    }
}

/// The action codes, as listed in messages.
pub open spec fn action_codes_text() -> Seq<char> {
    "c f g e p pi pd pp i r"@
}

/// The coder-facing description of an error's cause.
pub open spec fn kind_message(kind: ShorthandErrorKind) -> Seq<char> {
    match kind {
        ShorthandErrorKind::MissingPosition => "expected a position digit 1–8 to start the event"@,
        ShorthandErrorKind::InvalidPosition { digit } =>
            "'"@ + seq![digit] + "' is not a position; use 1–8 (GS, GA, WA, C, WD, GD, GK, TEAM)"@,
        ShorthandErrorKind::MissingAction => "this position needs an action ("@ + action_codes_text() + ")"@,
        ShorthandErrorKind::UnknownAction { found } =>
            "'"@ + seq![found] + "' is not an action; expected one of "@ + action_codes_text(),
        ShorthandErrorKind::IllegalPosition { position, action } =>
            action_name_text(action) + " cannot be coded for "@ + position_code_text(position),
        ShorthandErrorKind::FailedNotApplicable { action } => action_name_text(action) + " cannot be marked failed (x)"@,
        ShorthandErrorKind::DuplicateModifier { modifier } => "modifier '"@ + seq![modifier] + "' is repeated"@,
        ShorthandErrorKind::UnexpectedTrailing { found } => "unexpected '"@ + seq![found] + "' after the event"@,
        ShorthandErrorKind::QuarterBreakNotAlone => "a quarter break (QT) must be on its own line"@,
        ShorthandErrorKind::EmptyPossession { prefix } =>
            "team prefix '"@ + seq![prefix] + "' must be followed by at least one event"@,
        ShorthandErrorKind::SubstitutionNotSupported =>
            "substitution markers (S) are not supported by Shorthand import yet"@,
        ShorthandErrorKind::UnclosedComment => "this '(' comment is never closed"@,
        ShorthandErrorKind::UnmatchedCommentClose => "this ')' has no matching '('"@,
    }
}

/// The coder-facing message of an error: its location, then its cause.
pub open spec fn error_message(line: nat, column: nat, kind: ShorthandErrorKind) -> Seq<char> {
    "Line "@ + decimal(line) + ", column "@ + decimal(column) + ": "@ + kind_message(kind)
}

/// The two-letter position code (`GS`…`GK`, `TEAM`) for an error message.
fn position_code(position: Position) -> (r: &'static str)
    ensures
        r@ == position_code_text(position),
{
    match position {
        Position::GS => "GS",
        Position::GA => "GA",
        Position::WA => "WA",
        Position::C => "C",
        Position::WD => "WD",
        Position::GD => "GD",
        Position::GK => "GK",
        Position::Team => "TEAM",
    }
}

/// The readable action name for an error message.
fn action_name(kind: ActionKind) -> (r: &'static str)
    ensures
        r@ == action_name_text(kind),
{
    match kind {
        ActionKind::CentrePassReceive => "a centre pass receive",
        ActionKind::Feed => "a feed",
        ActionKind::Goal => "a goal",
        ActionKind::Gain => "a gain",
        ActionKind::UnforcedTurnover => "an unforced turnover",
        ActionKind::Infringement => "an infringement",
        ActionKind::Rebound => "a rebound",
    }
}

impl ShorthandErrorKind {
    /// Append this cause's description to `out`.
    fn push_message(&self, out: &mut Vec<char>)
        ensures
            final(out)@ == old(out)@ + kind_message(*self),
    {
        let ghost start = out@;
        match *self {
            ShorthandErrorKind::MissingPosition => {
                push_str(out, "expected a position digit 1–8 to start the event");
            },
            ShorthandErrorKind::InvalidPosition { digit } => {
                push_str(out, "'");
                out.push(digit);
                push_str(out, "' is not a position; use 1–8 (GS, GA, WA, C, WD, GD, GK, TEAM)");
            },
            ShorthandErrorKind::MissingAction => {
                push_str(out, "this position needs an action (");
                push_str(out, "c f g e p pi pd pp i r");
                push_str(out, ")");
            },
            ShorthandErrorKind::UnknownAction { found } => {
                push_str(out, "'");
                out.push(found);
                push_str(out, "' is not an action; expected one of ");
                push_str(out, "c f g e p pi pd pp i r");
            },
            ShorthandErrorKind::IllegalPosition { position, action } => {
                push_str(out, action_name(action));
                push_str(out, " cannot be coded for ");
                push_str(out, position_code(position));
            },
            ShorthandErrorKind::FailedNotApplicable { action } => {
                push_str(out, action_name(action));
                push_str(out, " cannot be marked failed (x)");
            },
            ShorthandErrorKind::DuplicateModifier { modifier } => {
                push_str(out, "modifier '");
                out.push(modifier);
                push_str(out, "' is repeated");
            },
            ShorthandErrorKind::UnexpectedTrailing { found } => {
                push_str(out, "unexpected '");
                out.push(found);
                push_str(out, "' after the event");
            },
            ShorthandErrorKind::QuarterBreakNotAlone => {
                push_str(out, "a quarter break (QT) must be on its own line");
            },
            ShorthandErrorKind::EmptyPossession { prefix } => {
                push_str(out, "team prefix '");
                out.push(prefix);
                push_str(out, "' must be followed by at least one event");
            },
            ShorthandErrorKind::SubstitutionNotSupported => {
                push_str(out, "substitution markers (S) are not supported by Shorthand import yet");
            },
            ShorthandErrorKind::UnclosedComment => {
                push_str(out, "this '(' comment is never closed");
            },
            ShorthandErrorKind::UnmatchedCommentClose => {
                push_str(out, "this ')' has no matching '('");
            },
        }
        assert(out@ =~= start + kind_message(*self));
    }

    /// The coder-facing description of this cause.
    pub fn to_string(&self) -> (r: String)
        ensures
            r@ == kind_message(*self),
    {
        let mut out: Vec<char> = Vec::new();
        self.push_message(&mut out);
        assert(out@ =~= kind_message(*self));
        string_from_chars(out.as_slice())
    }
}

impl ShorthandError {
    /// The coder-facing message: `Line <n>, column <m>: <cause>`.
    pub fn to_string(&self) -> (r: String)
        ensures
            r@ == error_message(self.line as nat, self.column as nat, self.kind),
    {
        let mut out: Vec<char> = Vec::new();
        push_str(&mut out, "Line ");
        push_decimal(&mut out, self.line as u64);
        push_str(&mut out, ", column ");
        push_decimal(&mut out, self.column as u64);
        push_str(&mut out, ": ");
        self.kind.push_message(&mut out);
        assert(out@ =~= error_message(self.line as nat, self.column as nat, self.kind));
        string_from_chars(out.as_slice())
    }
}

} // verus!
