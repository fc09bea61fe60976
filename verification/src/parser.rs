//! The scan of an expression into its postfix form.

use vstd::prelude::*;
use vstd::std_specs::iter::IteratorSpec;
use crate::error::CalcError;
use crate::literal::{
    is_literal_char,
    lemma_parse_value_normalized,
    normalized,
    parse_value,
    parse_value_spec,
};
use crate::operator::Operator;
use crate::token::{lemma_push_view, SpecToken, Token};

verus! {

/// What the scanner holds for one parenthesis level.
pub struct Level {
    /// The characters of the number being read.
    pub current: Seq<char>,
    /// The operators that still wait for their right operand, the latest last.
    pub pending: Seq<Operator>,
    /// Whether a `-` read now is a sign rather than a subtraction.
    pub negation: bool,
}

impl Level {
    /// The state in which every level starts.
    pub open spec fn fresh() -> Level {
        Level { current: Seq::empty(), pending: Seq::empty(), negation: true }
    }

    /// The state with every comma collected so far read as a point.
    pub open spec fn normalized(self) -> Level {
        Level { current: normalized(self.current), pending: self.pending, negation: self.negation }
    }
}

/// Where a scan stopped: the postfix sequence so far, the position of the
/// first character not read, and the error if it was one that stopped it.
pub struct Scan {
    pub tokens: Seq<SpecToken>,
    pub position: nat,
    pub error: Option<CalcError>,
}

/// The operator that a character denotes. A `-` is a sign where `negation`
/// holds, and a subtraction elsewhere.
pub open spec fn operator_of(c: char, negation: bool) -> Option<Operator> {
    if c == '+' {
        Some(Operator::Add)
    } else if c == '*' {
        Some(Operator::Multiply)
    } else if c == '/' {
        Some(Operator::Divide)
    } else if c == '-' {
        Some(
            if negation {
                Operator::Negate
            } else {
                Operator::Subtract
            },
        )
    } else {
        None
    }
}

/// The sequence after the number collected in `current`, if any, has been
/// appended as an operand.
pub open spec fn emit_operand(current: Seq<char>, tokens: Seq<SpecToken>) -> Result<
    Seq<SpecToken>,
    CalcError,
> {
    if current.len() == 0 {
        Ok(tokens)
    } else {
        match parse_value_spec(current) {
            Ok(text) => Ok(tokens.push(SpecToken::Operand(text))),
            Err(error) => Err(error),
        }
    }
}

/// The pending operators and the sequence after a new operator has
/// arrived: the latest pending one leaves for the sequence if it binds at
/// least as tightly as the new one, which then becomes the latest.
pub open spec fn resolve(pending: Seq<Operator>, tokens: Seq<SpecToken>, operation: Operator) -> (
    Seq<Operator>,
    Seq<SpecToken>,
) {
    if pending.len() > 0 && pending.last().rank() >= operation.rank() {
        (pending.drop_last().push(operation), tokens.push(SpecToken::Operator(pending.last())))
    } else {
        (pending.push(operation), tokens)
    }
}

/// The sequence after all pending operators have left for it, the latest
/// first.
pub open spec fn flush(pending: Seq<Operator>, tokens: Seq<SpecToken>) -> Seq<SpecToken> {
    tokens + pending.reverse().map_values(|operator: Operator| SpecToken::Operator(operator))
}

/// A level ends: its number, if any, is appended, then its pending
/// operators.
pub open spec fn close(level: Level, tokens: Seq<SpecToken>, position: nat) -> Scan {
    match emit_operand(level.current, tokens) {
        Ok(emitted) => Scan { tokens: flush(level.pending, emitted), position, error: None },
        Err(error) => Scan { tokens, position, error: Some(error) },
    }
}

/// The number of characters of `input` from `position` on.
pub open spec fn unread(input: Seq<char>, position: nat) -> nat {
    if position <= input.len() {
        (input.len() - position) as nat
    } else {
        0
    }
}

/// The scan of one parenthesis level of `input` from `position` on, begun
/// in state `level` with `tokens` already produced.
///
/// A `(` opens a level of its own, whose tokens join the same sequence and
/// after which this level goes on. A digit or a decimal separator joins the
/// number being read. An operator first ends that number and is then
/// resolved against the pending operators. Any other character, `)` among
/// them, is read and ends the level, as the end of the input does.
pub open spec fn scan(input: Seq<char>, position: nat, level: Level, tokens: Seq<SpecToken>) -> Scan
    decreases unread(input, position),
{
    if position >= input.len() {
        close(level, tokens, position)
    } else {
        let c = input[position as int];
        if c == '(' {
            let inner = scan(input, position + 1, Level::fresh(), tokens);
            // An inner level stops behind its opening parenthesis (see
            // `lemma_scan_advances`), so the second condition never holds.
            if inner.error is Some || inner.position <= position {
                inner
            } else {
                scan(input, inner.position, level, inner.tokens)
            }
        } else if is_literal_char(c) {
            scan(
                input,
                position + 1,
                Level { current: level.current.push(c), pending: level.pending, negation: false },
                tokens,
            )
        } else if let Some(operation) = operator_of(c, level.negation) {
            match emit_operand(level.current, tokens) {
                Ok(emitted) => {
                    let (pending, resolved) = resolve(level.pending, emitted, operation);
                    scan(
                        input,
                        position + 1,
                        Level { current: Seq::empty(), pending, negation: true },
                        resolved,
                    )
                },
                Err(error) => Scan { tokens, position: position + 1, error: Some(error) },
            }
        } else {
            close(level, tokens, position + 1)
        }
    }
}

/// A scan never stops before the position it started from.
pub proof fn lemma_scan_advances(
    input: Seq<char>,
    position: nat,
    level: Level,
    tokens: Seq<SpecToken>,
)
    ensures
        scan(input, position, level, tokens).position >= position,
    decreases unread(input, position),
{
    if position < input.len() {
        let c = input[position as int];
        if c == '(' {
            let inner = scan(input, position + 1, Level::fresh(), tokens);
            lemma_scan_advances(input, position + 1, Level::fresh(), tokens);
            if !(inner.error is Some || inner.position <= position) {
                lemma_scan_advances(input, inner.position, level, inner.tokens);
            }
        } else if is_literal_char(c) {
            lemma_scan_advances(
                input,
                position + 1,
                Level { current: level.current.push(c), pending: level.pending, negation: false },
                tokens,
            );
        } else if let Some(operation) = operator_of(c, level.negation) {
            if let Ok(emitted) = emit_operand(level.current, tokens) {
                let (pending, resolved) = resolve(level.pending, emitted, operation);
                lemma_scan_advances(
                    input,
                    position + 1,
                    Level { current: Seq::empty(), pending, negation: true },
                    resolved,
                );
            }
        }
    }
}

/// The sequence is only appended to: a scan leaves the tokens that it
/// started with in front, and what it appends, where it stops and whether
/// it fails do not depend on them.
pub proof fn lemma_scan_appends(
    input: Seq<char>,
    position: nat,
    level: Level,
    tokens: Seq<SpecToken>,
)
    ensures
        scan(input, position, level, tokens) == (Scan {
            tokens: tokens + scan(input, position, level, Seq::empty()).tokens,
            ..scan(input, position, level, Seq::empty())
        }),
    decreases unread(input, position),
{
    let none = Seq::<SpecToken>::empty();
    assert(tokens + none =~= tokens);
    if position >= input.len() {
        lemma_close_appends(level, tokens, position);
    } else {
        let c = input[position as int];
        if c == '(' {
            let inner = scan(input, position + 1, Level::fresh(), none);
            lemma_scan_appends(input, position + 1, Level::fresh(), tokens);
            if !(inner.error is Some || inner.position <= position) {
                lemma_scan_appends(input, inner.position, level, tokens + inner.tokens);
                lemma_scan_appends(input, inner.position, level, inner.tokens);
                let outer = scan(input, inner.position, level, none);
                assert(tokens + inner.tokens + outer.tokens =~= tokens + (inner.tokens
                    + outer.tokens));
            }
        } else if is_literal_char(c) {
            lemma_scan_appends(
                input,
                position + 1,
                Level { current: level.current.push(c), pending: level.pending, negation: false },
                tokens,
            );
        } else if let Some(operation) = operator_of(c, level.negation) {
            if let Ok(emitted) = emit_operand(level.current, none) {
                let (pending, resolved) = resolve(level.pending, emitted, operation);
                let next = Level { current: Seq::empty(), pending, negation: true };
                assert(emit_operand(level.current, tokens) == Ok::<Seq<SpecToken>, CalcError>(
                    tokens + emitted,
                )) by {
                    assert(tokens + none.push(emitted.last()) =~= tokens.push(emitted.last()));
                }
                assert(resolve(level.pending, tokens + emitted, operation) == (
                    pending,
                    tokens + resolved,
                )) by {
                    assert((tokens + emitted).push(SpecToken::Operator(level.pending.last()))
                        =~= tokens + emitted.push(SpecToken::Operator(level.pending.last())));
                }
                lemma_scan_appends(input, position + 1, next, tokens + resolved);
                lemma_scan_appends(input, position + 1, next, resolved);
                let after = scan(input, position + 1, next, none);
                assert(tokens + resolved + after.tokens =~= tokens + (resolved + after.tokens));
            }
        } else {
            lemma_close_appends(level, tokens, position + 1);
        }
    }
}

/// The end of a level only appends to the sequence.
proof fn lemma_close_appends(level: Level, tokens: Seq<SpecToken>, position: nat)
    ensures
        close(level, tokens, position) == (Scan {
            tokens: tokens + close(level, Seq::empty(), position).tokens,
            ..close(level, Seq::empty(), position)
        }),
{
    let none = Seq::<SpecToken>::empty();
    assert(tokens + none =~= tokens);
    if let Ok(emitted) = emit_operand(level.current, none) {
        if level.current.len() > 0 {
            assert(tokens + none.push(emitted.last()) =~= tokens.push(emitted.last()));
        }
        assert(flush(level.pending, tokens + emitted) =~= tokens + flush(level.pending, emitted));
    }
}

/// The two decimal separators are one: a scan of a text in which commas
/// have been replaced by points stops where the scan of the text itself
/// does, with the same sequence and the same error.
pub proof fn lemma_scan_normalized(
    input: Seq<char>,
    position: nat,
    level: Level,
    tokens: Seq<SpecToken>,
)
    ensures
        scan(normalized(input), position, level.normalized(), tokens) == scan(
            input,
            position,
            level,
            tokens,
        ),
    decreases unread(input, position),
{
    let replaced = normalized(input);
    lemma_parse_value_normalized(level.current);
    assert(normalized(Seq::<char>::empty()) =~= Seq::<char>::empty());
    assert(Level::fresh().normalized() == Level::fresh());
    if position < input.len() {
        let c = input[position as int];
        assert(replaced[position as int] == crate::literal::normalized_char(c));
        if c == '(' {
            let inner = scan(input, position + 1, Level::fresh(), tokens);
            lemma_scan_normalized(input, position + 1, Level::fresh(), tokens);
            if !(inner.error is Some || inner.position <= position) {
                lemma_scan_normalized(input, inner.position, level, inner.tokens);
            }
        } else if is_literal_char(c) {
            let next = Level {
                current: level.current.push(c),
                pending: level.pending,
                negation: false,
            };
            lemma_scan_normalized(input, position + 1, next, tokens);
            assert(next.normalized().current =~= level.normalized().current.push(
                replaced[position as int],
            ));
        } else if let Some(operation) = operator_of(c, level.negation) {
            if let Ok(emitted) = emit_operand(level.current, tokens) {
                let (pending, resolved) = resolve(level.pending, emitted, operation);
                let next = Level { current: Seq::empty(), pending, negation: true };
                lemma_scan_normalized(input, position + 1, next, resolved);
                assert(next.normalized() == next);
            }
        }
    }
}

/// Resolves the new operator against the pending ones and makes it the
/// latest of them.
pub fn add_operation(
    stack: &mut Vec<Token>,
    local_operation_stack: &mut Vec<Operator>,
    operation: Operator,
)
    ensures
        (final(local_operation_stack)@, final(stack).deep_view()) == resolve(
            old(local_operation_stack)@,
            old(stack).deep_view(),
            operation,
        ),
{
    let back = local_operation_stack.pop();
    if let Some(old_operation) = back {
        if old_operation.priority() >= operation.priority() {
            let ghost before = *stack;
            stack.push(Token::Operator(old_operation));
            proof {
                lemma_push_view(before, *stack, Token::Operator(old_operation));
            }
        } else {
            local_operation_stack.push(old_operation);
            assert(local_operation_stack@ =~= old(local_operation_stack)@);
        }
    }
    local_operation_stack.push(operation);
}

/// Moving the latest pending operator to the sequence does not change what
/// flushing gives.
proof fn lemma_flush_step(pending: Seq<Operator>, tokens: Seq<SpecToken>)
    requires
        pending.len() > 0,
    ensures
        flush(pending, tokens) == flush(
            pending.drop_last(),
            tokens.push(SpecToken::Operator(pending.last())),
        ),
{
    assert(flush(pending, tokens) =~= flush(
        pending.drop_last(),
        tokens.push(SpecToken::Operator(pending.last())),
    ));
}

/// Appends the number collected in `current`, if any, to the sequence.
fn emit_current(current: &Vec<char>, stack: &mut Vec<Token>) -> (outcome: Result<(), CalcError>)
    ensures
        match emit_operand(current@, old(stack).deep_view()) {
            Ok(emitted) => outcome is Ok && final(stack).deep_view() == emitted,
            Err(error) => outcome == Err::<(), CalcError>(error) && final(stack).deep_view() == old(
                stack,
            ).deep_view(),
        },
{
    if current.len() == 0 {
        return Ok(());
    }
    match parse_value(current) {
        Ok(value) => {
            let ghost before = *stack;
            let ghost token = Token::Operand(value);
            stack.push(Token::Operand(value));
            proof {
                lemma_push_view(before, *stack, token);
            }
            Ok(())
        },
        Err(error) => Err(error),
    }
}

/// Scans one parenthesis level of `task` from `position` on and appends
/// its postfix form to `stack`. It stops behind the character that ends the
/// level, or at the end of `task`, or behind the operator at which a
/// malformed number came to light.
pub fn parse_expression(task: &Vec<char>, position: &mut usize, stack: &mut Vec<Token>) -> (outcome:
    Result<(), CalcError>)
    ensures
        ({
            let scanned = scan(
                task@,
                *old(position) as nat,
                Level::fresh(),
                old(stack).deep_view(),
            );
            &&& final(stack).deep_view() == scanned.tokens
            &&& *final(position) == scanned.position
            &&& outcome == match scanned.error {
                Some(error) => Err::<(), CalcError>(error),
                None => Ok(()),
            }
        }),
    decreases unread(task@, *old(position) as nat),
{
    let mut current: Vec<char> = Vec::new();
    let mut local_operation_stack: Vec<Operator> = Vec::new();
    let mut negation = true;  // if true, `-` in the current context means negation
    let ghost goal = scan(task@, *old(position) as nat, Level::fresh(), old(stack).deep_view());

    loop
        invariant_except_break
            goal == scan(
                task@,
                *position as nat,
                Level { current: current@, pending: local_operation_stack@, negation },
                stack.deep_view(),
            ),
        invariant
            *old(position) <= *position,
            goal == scan(task@, *old(position) as nat, Level::fresh(), old(stack).deep_view()),
        ensures
            goal == close(
                Level { current: current@, pending: local_operation_stack@, negation },
                stack.deep_view(),
                *position as nat,
            ),
        decreases unread(task@, *position as nat),
    {
        if *position >= task.len() {
            break ;
        }
        let ghost start = *position as nat;
        let x = task[*position];
        *position = *position + 1;
        if x == '(' {
            proof {
                lemma_scan_advances(task@, start + 1, Level::fresh(), stack.deep_view());
            }
            let nested = parse_expression(task, position, stack);
            if nested.is_err() {
                return nested;
            }
        } else if x >= '0' && x <= '9' || x == '.' || x == ',' {
            current.push(x);
            negation = false;
        } else if x == '*' || x == '/' || x == '+' || x == '-' {
            let emitted = emit_current(&current, stack);
            if emitted.is_err() {
                return emitted;
            }
            current = Vec::new();
            if x == '*' {
                negation = true;
                add_operation(stack, &mut local_operation_stack, Operator::Multiply);
            } else if x == '/' {
                negation = true;
                add_operation(stack, &mut local_operation_stack, Operator::Divide);
            } else if x == '+' {
                negation = true;
                add_operation(stack, &mut local_operation_stack, Operator::Add);
            } else if negation {
                add_operation(stack, &mut local_operation_stack, Operator::Negate);
            } else {
                negation = true;
                add_operation(stack, &mut local_operation_stack, Operator::Subtract);
            }
        } else {
            break ;
        }
    }

    let emitted = emit_current(&current, stack);
    if emitted.is_err() {
        return emitted;
    }
    loop
        invariant_except_break
            goal.tokens == flush(local_operation_stack@, stack.deep_view()),
        invariant
            goal.position == *position,
            goal.error is None,
        ensures
            goal.tokens == stack.deep_view(),
            goal.position == *position,
            goal.error is None,
        decreases local_operation_stack.len(),
    {
        let ghost pending = local_operation_stack@;
        let last_operation = local_operation_stack.pop();
        match last_operation {
            None => {
                assert(flush(pending, stack.deep_view()) =~= stack.deep_view());
                break ;
            },
            Some(operation) => {
                let ghost before = *stack;
                stack.push(Token::Operator(operation));
                proof {
                    lemma_push_view(before, *stack, Token::Operator(operation));
                    lemma_flush_step(pending, before.deep_view());
                }
            },
        }
    }
    Ok(())
}

/// The postfix form of an expression: what the scan of its outermost
/// level produces from its first character on. A character that ends the
/// outermost level ends the scan, whatever follows it.
pub open spec fn parse_spec(expression: Seq<char>) -> Result<Seq<SpecToken>, CalcError> {
    let scanned = scan(expression, 0, Level::fresh(), Seq::empty());
    match scanned.error {
        Some(error) => Err(error),
        None => Ok(scanned.tokens),
    }
}

/// The two decimal separators are one: an expression has the postfix form
/// of the expression with its commas replaced by points.
pub proof fn lemma_parse_normalized(expression: Seq<char>)
    ensures
        parse_spec(normalized(expression)) == parse_spec(expression),
{
    lemma_scan_normalized(expression, 0, Level::fresh(), Seq::empty());
    assert(normalized(Seq::<char>::empty()) =~= Seq::<char>::empty());
}

/// The characters of a text.
fn characters(text: &str) -> (list: Vec<char>)
    ensures
        list@ == text@,
{
    let mut list: Vec<char> = Vec::new();
    for c in chars: text.chars()
        invariant
            chars.seq() == text@,
            list@ == text@.take(chars.index() as int),
    {
        list.push(c);
    }
    list
}

/// Turns an expression into its postfix form.
pub fn parse(expression: &str) -> (postfix: Result<Vec<Token>, CalcError>)
    ensures
        match postfix {
            Ok(tokens) => parse_spec(expression@) == Ok::<Seq<SpecToken>, CalcError>(
                tokens.deep_view(),
            ),
            Err(error) => parse_spec(expression@) == Err::<Seq<SpecToken>, CalcError>(error),
        },
{
    let task = characters(expression);
    let mut position: usize = 0;
    let mut stack: Vec<Token> = Vec::new();
    assert(stack.deep_view() =~= Seq::empty());
    match parse_expression(&task, &mut position, &mut stack) {
        Ok(()) => Ok(stack),
        Err(error) => Err(error),
    }
}

} // verus!
