//! Expressions by their structure, and what the scan makes of them.
//!
//! The scan is defined character by character. Here an expression is given
//! as a formula of numbers, groups and chains instead, and the laws at the
//! end of the file say which postfix form and which computation the scan
//! and the reduction give for it.

use vstd::prelude::*;
use crate::calculation::denotation;
use crate::error::CalcError;
use crate::evaluator::{evaluate_spec, lemma_evaluate_postfix, lemma_reduce_push, postfix, reduce};
use crate::expr::SpecExpr;
use crate::literal::{is_decimal, is_digit, is_literal_char, normalized};
use crate::operator::Operator;
use crate::parser::{
    close,
    emit_operand,
    flush,
    operator_of,
    parse_spec,
    resolve,
    scan,
    unread,
    Level,
    Scan,
};
use crate::token::SpecToken;

verus! {

/// A scan result with its position moved on by `by` characters.
pub open spec fn shifted(scanned: Scan, by: nat) -> Scan {
    Scan { tokens: scanned.tokens, position: scanned.position + by, error: scanned.error }
}

/// A scan looks at nothing in front of its position: without the first
/// `offset` characters it gives the same, `offset` characters earlier.
pub proof fn lemma_scan_shift(
    input: Seq<char>,
    offset: nat,
    position: nat,
    level: Level,
    tokens: Seq<SpecToken>,
)
    requires
        offset <= input.len(),
    ensures
        scan(input, offset + position, level, tokens) == shifted(
            scan(input.skip(offset as int), position, level, tokens),
            offset,
        ),
    decreases unread(input, offset + position),
{
    let short = input.skip(offset as int);
    if offset + position < input.len() {
        let c = input[(offset + position) as int];
        assert(short[position as int] == c);
        if c == '(' {
            let inner = scan(input, offset + position + 1, Level::fresh(), tokens);
            let short_inner = scan(short, position + 1, Level::fresh(), tokens);
            lemma_scan_shift(input, offset, position + 1, Level::fresh(), tokens);
            if !(inner.error is Some || inner.position <= offset + position) {
                lemma_scan_shift(input, offset, short_inner.position, level, inner.tokens);
            }
        } else if is_literal_char(c) {
            lemma_scan_shift(
                input,
                offset,
                position + 1,
                Level { current: level.current.push(c), pending: level.pending, negation: false },
                tokens,
            );
        } else if let Some(operation) = operator_of(c, level.negation) {
            if let Ok(emitted) = emit_operand(level.current, tokens) {
                let (pending, resolved) = resolve(level.pending, emitted, operation);
                lemma_scan_shift(
                    input,
                    offset,
                    position + 1,
                    Level { current: Seq::empty(), pending, negation: true },
                    resolved,
                );
            }
        }
    }
}

/// A text at which a level ends: nothing, or a text whose first character
/// neither opens a level nor belongs to a number nor is an operator.
pub open spec fn ends_level(rest: Seq<char>) -> bool {
    rest.len() > 0 ==> rest[0] != '(' && !is_literal_char(rest[0]) && operator_of(rest[0], true)
        is None
}

/// The number of characters that the end of a level reads of such a text.
pub open spec fn consumed(rest: Seq<char>) -> nat {
    if rest.len() == 0 {
        0
    } else {
        1
    }
}

/// Where a level ends, it is closed.
proof fn lemma_scan_level_ends(rest: Seq<char>, level: Level, tokens: Seq<SpecToken>)
    requires
        ends_level(rest),
    ensures
        scan(rest, 0, level, tokens) == close(level, tokens, consumed(rest)),
{
}

/// Characters of a number in front of a text join the number being read.
proof fn lemma_scan_number(number: Seq<char>, tail: Seq<char>, level: Level, tokens: Seq<SpecToken>)
    requires
        number.len() > 0,
        forall|i: int| 0 <= i < number.len() ==> is_literal_char(#[trigger] number[i]),
    ensures
        scan(number + tail, 0, level, tokens) == shifted(
            scan(
                tail,
                0,
                Level { current: level.current + number, pending: level.pending, negation: false },
                tokens,
            ),
            number.len(),
        ),
    decreases number.len(),
{
    let text = number + tail;
    let c = number[0];
    assert(text[0] == c);
    let next = Level { current: level.current.push(c), pending: level.pending, negation: false };
    lemma_scan_shift(text, 1, 0, next, tokens);
    assert(text.skip(1) =~= number.drop_first() + tail);
    if number.len() == 1 {
        assert(number.drop_first() + tail =~= tail);
        assert(level.current + number =~= level.current.push(c));
    } else {
        lemma_scan_number(number.drop_first(), tail, next, tokens);
        assert(next.current + number.drop_first() =~= level.current + number);
    }
}

/// An operator in front of a text ends the number being read and is
/// resolved against the pending operators.
proof fn lemma_scan_operator(
    c: char,
    tail: Seq<char>,
    level: Level,
    tokens: Seq<SpecToken>,
    emitted: Seq<SpecToken>,
)
    requires
        operator_of(c, level.negation) is Some,
        emit_operand(level.current, tokens) == Ok::<Seq<SpecToken>, CalcError>(emitted),
    ensures
        ({
            let (pending, resolved) = resolve(
                level.pending,
                emitted,
                operator_of(c, level.negation)->Some_0,
            );
            scan(seq![c] + tail, 0, level, tokens) == shifted(
                scan(tail, 0, Level { current: Seq::empty(), pending, negation: true }, resolved),
                1,
            )
        }),
{
    let text = seq![c] + tail;
    assert(text[0] == c);
    assert(text.skip(1) =~= tail);
    let (pending, resolved) = resolve(
        level.pending,
        emitted,
        operator_of(c, level.negation)->Some_0,
    );
    lemma_scan_shift(text, 1, 0, Level { current: Seq::empty(), pending, negation: true }, resolved);
}

/// A level in parentheses in front of a text: its tokens join the
/// sequence, and the level around it goes on behind it as it was.
proof fn lemma_scan_group(
    inner: Seq<char>,
    tail: Seq<char>,
    level: Level,
    tokens: Seq<SpecToken>,
    produced: Seq<SpecToken>,
)
    requires
        scan(inner + (seq![')'] + tail), 0, Level::fresh(), tokens) == (Scan {
            tokens: produced,
            position: inner.len() + 1,
            error: None,
        }),
    ensures
        scan(seq!['('] + inner + seq![')'] + tail, 0, level, tokens) == shifted(
            scan(tail, 0, level, produced),
            inner.len() + 2,
        ),
{
    let text = seq!['('] + inner + seq![')'] + tail;
    assert(text[0] == '(');
    assert(text.skip(1) =~= inner + (seq![')'] + tail));
    lemma_scan_shift(text, 1, 0, Level::fresh(), tokens);
    assert(text.skip(inner.len() + 2 as int) =~= tail);
    lemma_scan_shift(text, inner.len() + 2, 0, level, produced);
}

/// A text that is read as one number.
pub open spec fn is_number(text: Seq<char>) -> bool {
    &&& forall|i: int| 0 <= i < text.len() ==> is_literal_char(#[trigger] text[i])
    &&& is_decimal(normalized(text))
}

/// The computation that consists of the number written as `text`.
pub open spec fn operand(text: Seq<char>) -> SpecExpr {
    SpecExpr::Operand(normalized(text))
}

/// The character that an operator is written as.
pub open spec fn symbol(operator: Operator) -> char {
    match operator {
        Operator::Add => '+',
        Operator::Subtract => '-',
        Operator::Multiply => '*',
        Operator::Divide => '/',
        Operator::Negate => '-',
    }
}

/// A computation, negated where `signed` holds.
pub open spec fn signed_tree(signed: bool, tree: SpecExpr) -> SpecExpr {
    if signed {
        SpecExpr::Negate(Box::new(tree))
    } else {
        tree
    }
}

/// How a sign is written, where there is one.
pub open spec fn sign_text(signed: bool) -> Seq<char> {
    if signed {
        seq!['-']
    } else {
        Seq::empty()
    }
}

/// The pending operators at the start of a level after its sign, where
/// there is one.
pub open spec fn sign_pending(signed: bool) -> Seq<Operator> {
    if signed {
        seq![Operator::Negate]
    } else {
        Seq::empty()
    }
}

/// A written expression by its structure.
pub enum Formula {
    /// A number.
    Number(Seq<char>),
    /// A formula in parentheses.
    Group(Box<Formula>),
    /// An operand, with a sign in front of it where the flag holds, and the
    /// links that follow it.
    Chain(bool, Box<Formula>, Seq<Link>),
}

/// A binary operator and the operand behind it, with a sign in front of
/// the operand where the flag holds.
pub struct Link {
    pub operator: Operator,
    pub signed: bool,
    pub operand: Formula,
}

impl Formula {
    /// A number or a group: what an operator can stand next to.
    pub open spec fn is_operand(self) -> bool {
        self is Number || self is Group
    }

    /// The formula as it is written.
    pub open spec fn text(self) -> Seq<char>
        decreases self,
    {
        match self {
            Formula::Number(number) => number,
            Formula::Group(inner) => seq!['('] + inner.text() + seq![')'],
            Formula::Chain(signed, first, links) => sign_text(signed) + first.text() + links_text(
                links,
            ),
        }
    }

    /// Whether the formula is written so that the scan reads it by its
    /// structure: its numbers are numbers, the operands of a chain are
    /// numbers and groups, and no subtraction stands behind a group (a `-`
    /// there is read as a sign).
    pub open spec fn scannable(self) -> bool
        decreases self,
    {
        match self {
            Formula::Number(number) => is_number(number),
            Formula::Group(inner) => inner.scannable(),
            Formula::Chain(signed, first, links) => first.is_operand() && first.scannable()
                && links_scannable(*first is Group, links),
        }
    }

    /// The computation that the formula is written for: a chain takes its
    /// links in from the left, one by one.
    pub open spec fn tree(self) -> SpecExpr
        decreases self,
    {
        match self {
            Formula::Number(number) => operand(number),
            Formula::Group(inner) => inner.tree(),
            Formula::Chain(signed, first, links) => links_tree(
                signed_tree(signed, first.tree()),
                links,
            ),
        }
    }

    /// Whether in every chain of the formula the operators take two
    /// operands, none of them binds more tightly than the one before it,
    /// and no operand behind an operator has a sign.
    pub open spec fn falling(self) -> bool
        decreases self,
    {
        match self {
            Formula::Number(number) => true,
            Formula::Group(inner) => inner.falling(),
            Formula::Chain(signed, first, links) => first.falling() && links_falling(
                Operator::Negate.rank(),
                links,
            ),
        }
    }

    /// The postfix form of the formula, from its structure: an operand's
    /// tokens are appended where it stands, an operator is resolved
    /// against the pending ones where it stands, and the end of a chain
    /// flushes.
    pub open spec fn tokens(self) -> Seq<SpecToken>
        decreases self,
    {
        match self {
            Formula::Number(number) => seq![SpecToken::Operand(normalized(number))],
            Formula::Group(inner) => inner.tokens(),
            Formula::Chain(signed, first, links) => {
                let (pending, produced) = links_tokens(sign_pending(signed), first.tokens(), links);
                flush(pending, produced)
            },
        }
    }
}

/// The links of a chain as they are written.
pub open spec fn links_text(links: Seq<Link>) -> Seq<char>
    decreases links,
{
    if links.len() == 0 {
        Seq::empty()
    } else {
        seq![symbol(links[0].operator)] + sign_text(links[0].signed) + links[0].operand.text()
            + links_text(links.drop_first())
    }
}

/// Whether the links are written so that the scan reads them by their
/// structure, behind a group or behind a number.
pub open spec fn links_scannable(behind_group: bool, links: Seq<Link>) -> bool
    decreases links,
{
    if links.len() == 0 {
        true
    } else {
        let link = links[0];
        &&& link.operator != Operator::Negate
        &&& behind_group ==> link.operator != Operator::Subtract
        &&& link.operand.is_operand()
        &&& link.operand.scannable()
        &&& links_scannable(link.operand is Group, links.drop_first())
    }
}

/// The computation that takes the links in from the left, one by one.
pub open spec fn links_tree(start: SpecExpr, links: Seq<Link>) -> SpecExpr
    decreases links,
{
    if links.len() == 0 {
        start
    } else {
        links_tree(
            SpecExpr::binary(
                links[0].operator,
                start,
                signed_tree(links[0].signed, links[0].operand.tree()),
            ),
            links.drop_first(),
        )
    }
}

/// Whether the operators of the links take two operands and bind no more
/// tightly than `bound` and than the one before them, the operands have no
/// sign, and the operands are falling themselves.
pub open spec fn links_falling(bound: nat, links: Seq<Link>) -> bool
    decreases links,
{
    if links.len() == 0 {
        true
    } else {
        let link = links[0];
        &&& link.operator != Operator::Negate
        &&& !link.signed
        &&& link.operator.rank() <= bound
        &&& link.operand.falling()
        &&& links_falling(link.operator.rank(), links.drop_first())
    }
}

/// What a waiting operator makes of its operands: a sign negates the right
/// one, and a binary operator joins the two.
pub open spec fn combined(waiting: Operator, left: SpecExpr, right: SpecExpr) -> SpecExpr {
    if waiting == Operator::Negate {
        SpecExpr::Negate(Box::new(right))
    } else {
        SpecExpr::binary(waiting, left, right)
    }
}

/// The tokens of the operands of a waiting operator: a sign has none to
/// its left.
pub open spec fn operands_tokens(waiting: Operator, left: SpecExpr, right: SpecExpr) -> Seq<
    SpecToken,
> {
    if waiting == Operator::Negate {
        postfix(right)
    } else {
        postfix(left) + postfix(right)
    }
}

/// The pending operators and the sequence after the links of a chain,
/// from those before them.
pub open spec fn links_tokens(pending: Seq<Operator>, produced: Seq<SpecToken>, links: Seq<Link>) -> (
    Seq<Operator>,
    Seq<SpecToken>,
)
    decreases links,
{
    if links.len() == 0 {
        (pending, produced)
    } else {
        let link = links[0];
        let (waiting, resolved) = resolve(pending, produced, link.operator);
        links_tokens(
            waiting + sign_pending(link.signed),
            resolved + link.operand.tokens(),
            links.drop_first(),
        )
    }
}

/// A number that has been read is appended as an operand.
proof fn lemma_emit_number(number: Seq<char>, tokens: Seq<SpecToken>)
    requires
        is_number(number),
    ensures
        emit_operand(number, tokens) == Ok::<Seq<SpecToken>, CalcError>(
            tokens + seq![SpecToken::Operand(normalized(number))],
        ),
        number.len() > 0,
{
    let text = normalized(number);
    let digit = choose|i: int| 0 <= i < text.len() && is_digit(#[trigger] text[i]);
    assert(0 <= digit < number.len());
    assert(tokens.push(SpecToken::Operand(text)) =~= tokens + seq![SpecToken::Operand(text)]);
}

/// The state of a level behind an operand that it has read from its start:
/// a number is still being read, a group has left the level as it was.
pub open spec fn level_behind(operand: Formula, pending: Seq<Operator>) -> Level {
    match operand {
        Formula::Number(number) => Level { current: number, pending, negation: false },
        _ => Level { current: Seq::empty(), pending, negation: true },
    }
}

/// The sequence behind an operand: the tokens of a group have joined it,
/// a number has not yet.
pub open spec fn tokens_behind(operand: Formula, tokens: Seq<SpecToken>) -> Seq<SpecToken> {
    match operand {
        Formula::Number(number) => tokens,
        _ => tokens + operand.tokens(),
    }
}

/// The tokens in front take no part in what the links of a chain do.
proof fn lemma_links_tokens_front(
    front: Seq<SpecToken>,
    pending: Seq<Operator>,
    produced: Seq<SpecToken>,
    links: Seq<Link>,
)
    ensures
        links_tokens(pending, front + produced, links).0 == links_tokens(pending, produced, links).0,
        links_tokens(pending, front + produced, links).1 == front + links_tokens(
            pending,
            produced,
            links,
        ).1,
        flush(
            links_tokens(pending, front + produced, links).0,
            links_tokens(pending, front + produced, links).1,
        ) == front + flush(
            links_tokens(pending, produced, links).0,
            links_tokens(pending, produced, links).1,
        ),
    decreases links.len(),
{
    if links.len() > 0 {
        let link = links[0];
        let (waiting, resolved) = resolve(pending, produced, link.operator);
        let (waiting_too, resolved_too) = resolve(pending, front + produced, link.operator);
        assert(waiting_too == waiting);
        assert(resolved_too =~= front + resolved);
        assert(resolved_too + link.operand.tokens() =~= front + (resolved + link.operand.tokens()));
        lemma_links_tokens_front(
            front,
            waiting + sign_pending(link.signed),
            resolved + link.operand.tokens(),
            links.drop_first(),
        );
    }
    let (left, done) = links_tokens(pending, produced, links);
    assert(flush(left, front + done) =~= front + flush(left, done));
}

/// An operand at the start of an operand's place is read as a whole, and
/// what follows it is scanned from the state behind it.
proof fn lemma_operand_scanned(
    operand: Formula,
    pending: Seq<Operator>,
    tail: Seq<char>,
    tokens: Seq<SpecToken>,
)
    requires
        operand.is_operand(),
        operand.scannable(),
    ensures
        scan(
            operand.text() + tail,
            0,
            Level { current: Seq::empty(), pending, negation: true },
            tokens,
        ) == shifted(
            scan(tail, 0, level_behind(operand, pending), tokens_behind(operand, tokens)),
            operand.text().len(),
        ),
        emit_operand(level_behind(operand, pending).current, tokens_behind(operand, tokens)) == Ok::<
            Seq<SpecToken>,
            CalcError,
        >(tokens + operand.tokens()),
    decreases operand, 0nat,
{
    let level = Level { current: Seq::empty(), pending, negation: true };
    match operand {
        Formula::Number(number) => {
            lemma_emit_number(number, tokens);
            lemma_scan_number(number, tail, level, tokens);
            assert(Seq::<char>::empty() + number =~= number);
        },
        Formula::Group(inner) => {
            lemma_formula_level(*inner, seq![')'] + tail, tokens);
            lemma_scan_group(inner.text(), tail, level, tokens, tokens + inner.tokens());
        },
        Formula::Chain(signed, first, links) => {},
    }
}

/// A formula at the start of a level is the whole level where the level
/// ends behind it: the level produces the formula's tokens.
proof fn lemma_formula_level(formula: Formula, rest: Seq<char>, tokens: Seq<SpecToken>)
    requires
        formula.scannable(),
        ends_level(rest),
    ensures
        scan(formula.text() + rest, 0, Level::fresh(), tokens) == (Scan {
            tokens: tokens + formula.tokens(),
            position: formula.text().len() + consumed(rest),
            error: None,
        }),
    decreases formula, 1nat,
{
    match formula {
        Formula::Chain(signed, first, links) => {
            let pending = sign_pending(signed);
            let tail = links_text(links) + rest;
            let start = Level { current: Seq::empty(), pending, negation: true };
            assert(formula.text() + rest =~= sign_text(signed) + (first.text() + tail));
            if signed {
                lemma_scan_operator('-', first.text() + tail, Level::fresh(), tokens, tokens);
                assert(Seq::<Operator>::empty().push(Operator::Negate) =~= pending);
            } else {
                assert(sign_text(signed) + (first.text() + tail) =~= first.text() + tail);
            }
            assert(scan(formula.text() + rest, 0, Level::fresh(), tokens) == shifted(
                scan(first.text() + tail, 0, start, tokens),
                sign_text(signed).len(),
            ));
            lemma_operand_scanned(*first, pending, tail, tokens);
            lemma_links_scanned(
                links,
                level_behind(*first, pending),
                tokens_behind(*first, tokens),
                tokens + first.tokens(),
                rest,
            );
            lemma_links_tokens_front(tokens, pending, first.tokens(), links);
        },
        _ => {
            let pending = Seq::<Operator>::empty();
            lemma_operand_scanned(formula, pending, rest, tokens);
            lemma_scan_level_ends(
                rest,
                level_behind(formula, pending),
                tokens_behind(formula, tokens),
            );
            assert(flush(pending, tokens + formula.tokens()) =~= tokens + formula.tokens());
        },
    }
}

/// The links of a chain behind an operand, up to the end of the level:
/// each operator is resolved, each operand read as a whole, and the end
/// flushes.
proof fn lemma_links_scanned(
    links: Seq<Link>,
    level: Level,
    tokens: Seq<SpecToken>,
    emitted: Seq<SpecToken>,
    rest: Seq<char>,
)
    requires
        links_scannable(level.negation, links),
        emit_operand(level.current, tokens) == Ok::<Seq<SpecToken>, CalcError>(emitted),
        ends_level(rest),
    ensures
        scan(links_text(links) + rest, 0, level, tokens) == (Scan {
            tokens: flush(
                links_tokens(level.pending, emitted, links).0,
                links_tokens(level.pending, emitted, links).1,
            ),
            position: links_text(links).len() + consumed(rest),
            error: None,
        }),
    decreases links, 0nat,
{
    if links.len() == 0 {
        assert(links_text(links) + rest =~= rest);
        lemma_scan_level_ends(rest, level, tokens);
    } else {
        let link = links[0];
        let others = links.drop_first();
        let tail = links_text(others) + rest;
        let signed_operand = sign_text(link.signed) + (link.operand.text() + tail);
        let (waiting, resolved) = resolve(level.pending, emitted, link.operator);
        let pending = waiting + sign_pending(link.signed);
        let start = Level { current: Seq::empty(), pending, negation: true };
        assert(links_text(links) + rest =~= seq![symbol(link.operator)] + signed_operand);
        lemma_scan_operator(symbol(link.operator), signed_operand, level, tokens, emitted);
        if link.signed {
            lemma_scan_operator(
                '-',
                link.operand.text() + tail,
                Level { current: Seq::empty(), pending: waiting, negation: true },
                resolved,
                resolved,
            );
            assert(waiting.push(Operator::Negate) =~= pending);
        } else {
            assert(signed_operand =~= link.operand.text() + tail);
            assert(waiting =~= pending);
        }
        assert(scan(links_text(links) + rest, 0, level, tokens) == shifted(
            scan(link.operand.text() + tail, 0, start, resolved),
            1 + sign_text(link.signed).len(),
        ));
        lemma_operand_scanned(link.operand, pending, tail, resolved);
        lemma_links_scanned(
            others,
            level_behind(link.operand, pending),
            tokens_behind(link.operand, resolved),
            resolved + link.operand.tokens(),
            rest,
        );
    }
}

/// Behind its operands, a waiting operator completes the postfix form of
/// what it makes of them.
proof fn lemma_combined(waiting: Operator, left: SpecExpr, right: SpecExpr)
    ensures
        operands_tokens(waiting, left, right).push(SpecToken::Operator(waiting)) == postfix(
            combined(waiting, left, right),
        ),
{
}

/// Flushing sends the latest pending operator off first.
proof fn lemma_flush_latest(below: Seq<Operator>, latest: Operator, tokens: Seq<SpecToken>)
    ensures
        flush(below.push(latest), tokens) == flush(below, tokens.push(SpecToken::Operator(latest))),
{
    assert(flush(below.push(latest), tokens) =~= flush(
        below,
        tokens.push(SpecToken::Operator(latest)),
    ));
}

/// Behind the operands of a waiting operator, falling links that bind no
/// more tightly than it complete the postfix form of the left-nested
/// computation, whatever waits below.
proof fn lemma_falling_links(
    below: Seq<Operator>,
    waiting: Operator,
    front: Seq<SpecToken>,
    left: SpecExpr,
    right: SpecExpr,
    links: Seq<Link>,
)
    requires
        links_falling(waiting.rank(), links),
    ensures
        ({
            let (pending, produced) = links_tokens(
                below.push(waiting),
                front + operands_tokens(waiting, left, right),
                links,
            );
            flush(pending, produced) == flush(
                below,
                front + postfix(links_tree(combined(waiting, left, right), links)),
            )
        }),
    decreases links, 0nat,
{
    let node = combined(waiting, left, right);
    let before = front + operands_tokens(waiting, left, right);
    let sent = before.push(SpecToken::Operator(waiting));
    lemma_combined(waiting, left, right);
    assert(sent =~= front + postfix(node));
    if links.len() == 0 {
        lemma_flush_latest(below, waiting, before);
    } else {
        let link = links[0];
        let others = links.drop_first();
        lemma_falling_tokens(link.operand);
        assert(below.push(waiting).drop_last() =~= below);
        assert(below.push(link.operator) + sign_pending(link.signed) =~= below.push(link.operator));
        assert(sent + link.operand.tokens() =~= front + operands_tokens(
            link.operator,
            node,
            link.operand.tree(),
        ));
        lemma_falling_links(below, link.operator, front, node, link.operand.tree(), others);
    }
}

/// The start of a falling chain: behind the first operand, with its sign
/// waiting where it has one, the links complete the postfix form of the
/// left-nested computation.
proof fn lemma_falling_start(signed: bool, start: SpecExpr, links: Seq<Link>)
    requires
        links_falling(Operator::Negate.rank(), links),
    ensures
        ({
            let (pending, produced) = links_tokens(sign_pending(signed), postfix(start), links);
            flush(pending, produced) == postfix(links_tree(signed_tree(signed, start), links))
        }),
    decreases links, 1nat,
{
    let none = Seq::<SpecToken>::empty();
    let nothing = Seq::<Operator>::empty();
    if signed {
        let tree = links_tree(combined(Operator::Negate, start, start), links);
        lemma_falling_links(nothing, Operator::Negate, none, start, start, links);
        assert(nothing.push(Operator::Negate) =~= sign_pending(signed));
        assert(none + operands_tokens(Operator::Negate, start, start) =~= postfix(start));
        assert(flush(nothing, none + postfix(tree)) =~= postfix(tree));
    } else if links.len() == 0 {
        assert(flush(nothing, postfix(start)) =~= postfix(start));
    } else {
        let link = links[0];
        let others = links.drop_first();
        let tree = links_tree(combined(link.operator, start, link.operand.tree()), others);
        lemma_falling_tokens(link.operand);
        lemma_falling_links(nothing, link.operator, none, start, link.operand.tree(), others);
        assert(nothing.push(link.operator) + sign_pending(link.signed) =~= nothing.push(
            link.operator,
        ));
        assert(postfix(start) + link.operand.tokens() =~= none + operands_tokens(
            link.operator,
            start,
            link.operand.tree(),
        ));
        assert(flush(nothing, none + postfix(tree)) =~= postfix(tree));
    }
}

/// The tokens of a falling formula are the postfix form of its
/// computation.
proof fn lemma_falling_tokens(formula: Formula)
    requires
        formula.falling(),
    ensures
        formula.tokens() == postfix(formula.tree()),
    decreases formula, 2nat,
{
    match formula {
        Formula::Number(number) => {},
        Formula::Group(inner) => {
            lemma_falling_tokens(*inner);
        },
        Formula::Chain(signed, first, links) => {
            lemma_falling_tokens(*first);
            lemma_falling_start(signed, first.tree(), links);
        },
    }
}

/// Left to right, and parentheses first: a formula in whose chains no
/// operator binds more tightly than the one before it denotes the
/// computation that takes each chain in from the left.
pub proof fn lemma_falling_formula(formula: Formula)
    requires
        formula.scannable(),
        formula.falling(),
    ensures
        parse_spec(formula.text()) == Ok::<Seq<SpecToken>, CalcError>(postfix(formula.tree())),
        denotation(formula.text()) == Ok::<SpecExpr, CalcError>(formula.tree()),
{
    lemma_formula_scanned(formula);
    lemma_falling_tokens(formula);
    lemma_evaluate_postfix(formula.tree());
}

/// The formula of two operands and the links behind them: the first
/// operand, an operator, the second operand with a sign or without, and
/// more links.
pub open spec fn two_operands(
    first: Formula,
    operator: Operator,
    signed: bool,
    second: Formula,
    more: Seq<Link>,
) -> Formula {
    Formula::Chain(
        false,
        Box::new(first),
        seq![Link { operator, signed, operand: second }] + more,
    )
}

/// The tokens of a formula of two operands, from behind its second
/// operand on.
proof fn lemma_two_operands_tokens(
    first: Formula,
    operator: Operator,
    signed: bool,
    second: Formula,
    more: Seq<Link>,
)
    requires
        two_operands(first, operator, signed, second, more).scannable(),
    ensures
        operator != Operator::Negate,
        first.scannable(),
        second.scannable(),
        ({
            let (pending, produced) = links_tokens(
                seq![operator] + sign_pending(signed),
                first.tokens() + second.tokens(),
                more,
            );
            two_operands(first, operator, signed, second, more).tokens() == flush(pending, produced)
        }),
{
    let links = seq![Link { operator, signed, operand: second }] + more;
    let nothing = Seq::<Operator>::empty();
    assert(links[0] == Link { operator, signed, operand: second });
    assert(links.drop_first() =~= more);
    assert(links_scannable(first is Group, links));
    assert(nothing.push(operator) =~= seq![operator]);
    assert(sign_pending(false) == nothing);
    assert(resolve(nothing, first.tokens(), operator) == (nothing.push(operator), first.tokens()));
    assert(links_tokens(nothing, first.tokens(), links) == links_tokens(
        nothing.push(operator) + sign_pending(signed),
        first.tokens() + links[0].operand.tokens(),
        links.drop_first(),
    ));
    assert(two_operands(first, operator, signed, second, more).tokens() == flush(
        links_tokens(nothing, first.tokens(), links).0,
        links_tokens(nothing, first.tokens(), links).1,
    ));
}

/// Behind a first operand and a binary operator, a second operand that has
/// a sign, or whose falling links begin more tightly than that operator,
/// completes with its links the postfix form of the operator's node.
proof fn lemma_right_operand_tokens(
    operator: Operator,
    signed: bool,
    left: SpecExpr,
    second: SpecExpr,
    more: Seq<Link>,
)
    requires
        operator != Operator::Negate,
        links_falling(Operator::Negate.rank(), more),
        !signed && more.len() > 0 ==> more[0].operator.rank() > operator.rank(),
    ensures
        ({
            let (pending, produced) = links_tokens(
                seq![operator] + sign_pending(signed),
                postfix(left) + postfix(second),
                more,
            );
            flush(pending, produced) == postfix(
                SpecExpr::binary(operator, left, links_tree(signed_tree(signed, second), more)),
            )
        }),
{
    let below = seq![operator];
    let front = postfix(left);
    let right = links_tree(signed_tree(signed, second), more);
    assert(postfix(SpecExpr::binary(operator, left, right)) =~= flush(below, front + postfix(right)));
    if signed {
        lemma_falling_links(below, Operator::Negate, front, second, second, more);
        assert(below + sign_pending(signed) =~= below.push(Operator::Negate));
    } else if more.len() == 0 {
        assert(below + sign_pending(signed) =~= below);
    } else {
        let link = more[0];
        lemma_falling_tokens(link.operand);
        lemma_falling_links(
            below,
            link.operator,
            front,
            second,
            link.operand.tree(),
            more.drop_first(),
        );
        assert(below + sign_pending(signed) =~= below);
        assert(below.push(link.operator) + sign_pending(link.signed) =~= below.push(link.operator));
        assert(front + postfix(second) + link.operand.tokens() =~= front + operands_tokens(
            link.operator,
            second,
            link.operand.tree(),
        ));
    }
}

/// Precedence, and a sign behind an operator: where the second operand has
/// a sign, or the links behind it begin more tightly than the operator in
/// front of it, the second operand and all that follows it in the chain
/// are that operator's right operand.
pub proof fn lemma_whole_right_operand(
    first: Formula,
    operator: Operator,
    signed: bool,
    second: Formula,
    more: Seq<Link>,
)
    requires
        two_operands(first, operator, signed, second, more).scannable(),
        first.falling(),
        second.falling(),
        links_falling(Operator::Negate.rank(), more),
        !signed && more.len() > 0 ==> more[0].operator.rank() > operator.rank(),
    ensures
        ({
            let formula = two_operands(first, operator, signed, second, more);
            let tree = SpecExpr::binary(
                operator,
                first.tree(),
                links_tree(signed_tree(signed, second.tree()), more),
            );
            &&& parse_spec(formula.text()) == Ok::<Seq<SpecToken>, CalcError>(postfix(tree))
            &&& denotation(formula.text()) == Ok::<SpecExpr, CalcError>(tree)
        }),
{
    let formula = two_operands(first, operator, signed, second, more);
    let tree = SpecExpr::binary(
        operator,
        first.tree(),
        links_tree(signed_tree(signed, second.tree()), more),
    );
    lemma_formula_scanned(formula);
    lemma_two_operands_tokens(first, operator, signed, second, more);
    lemma_falling_tokens(first);
    lemma_falling_tokens(second);
    lemma_right_operand_tokens(operator, signed, first.tree(), second.tree(), more);
    lemma_evaluate_postfix(tree);
}

/// The characters that formulas are written in.
pub open spec fn is_formula_char(c: char) -> bool {
    is_literal_char(c) || c == '+' || c == '-' || c == '*' || c == '/' || c == '(' || c == ')'
}

/// A text in the characters that formulas are written in holds no white
/// space.
pub open spec fn is_formula_text(text: Seq<char>) -> bool {
    forall|i: int| 0 <= i < text.len() ==> is_formula_char(#[trigger] text[i])
}

/// Texts in the characters of formulas, put together, are one.
proof fn lemma_formula_texts(front: Seq<char>, back: Seq<char>)
    requires
        is_formula_text(front),
        is_formula_text(back),
    ensures
        is_formula_text(front + back),
{
    assert forall|i: int| 0 <= i < (front + back).len() implies is_formula_char(
        #[trigger] (front + back)[i],
    ) by {
        if i < front.len() {
            assert((front + back)[i] == front[i]);
        } else {
            assert((front + back)[i] == back[i - front.len()]);
        }
    }
}

/// A formula is written in the characters of formulas.
pub proof fn lemma_formula_text(formula: Formula)
    requires
        formula.scannable(),
    ensures
        is_formula_text(formula.text()),
    decreases formula, 0nat,
{
    match formula {
        Formula::Number(number) => {},
        Formula::Group(inner) => {
            lemma_formula_text(*inner);
            lemma_formula_texts(seq!['('], inner.text());
            lemma_formula_texts(seq!['('] + inner.text(), seq![')']);
        },
        Formula::Chain(signed, first, links) => {
            lemma_formula_text(*first);
            lemma_links_text(*first is Group, links);
            lemma_formula_texts(sign_text(signed), first.text());
            lemma_formula_texts(sign_text(signed) + first.text(), links_text(links));
        },
    }
}

/// The links of a chain are written in the characters of formulas.
proof fn lemma_links_text(behind_group: bool, links: Seq<Link>)
    requires
        links_scannable(behind_group, links),
    ensures
        is_formula_text(links_text(links)),
    decreases links, 0nat,
{
    if links.len() > 0 {
        let link = links[0];
        let written = seq![symbol(link.operator)] + sign_text(link.signed);
        lemma_formula_text(link.operand);
        lemma_links_text(link.operand is Group, links.drop_first());
        lemma_formula_texts(seq![symbol(link.operator)], sign_text(link.signed));
        lemma_formula_texts(written, link.operand.text());
        lemma_formula_texts(written + link.operand.text(), links_text(links.drop_first()));
    }
}

/// No result without operands: the empty expression has no result, and
/// an operator alone, or alone behind a number, lacks an operand.
pub proof fn lemma_incomplete_expression(number: Seq<char>, c: char)
    requires
        is_number(number),
        operator_of(c, true) is Some,
    ensures
        denotation(Seq::empty()) == Err::<SpecExpr, CalcError>(CalcError::ResultMissing),
        denotation(seq![c]) == Err::<SpecExpr, CalcError>(CalcError::StackUnderflow),
        denotation(number + seq![c]) == Err::<SpecExpr, CalcError>(CalcError::StackUnderflow),
{
    let none = Seq::<SpecToken>::empty();
    let nothing = Seq::<Operator>::empty();
    let end = Seq::<char>::empty();
    assert(seq![c] + end =~= seq![c]);
    assert(parse_spec(end) == Ok::<Seq<SpecToken>, CalcError>(none)) by {
        lemma_scan_level_ends(end, Level::fresh(), none);
        assert(flush(nothing, none) =~= none);
    }
    assert(evaluate_spec(seq![SpecToken::Operator(operator_of(c, true)->Some_0)]) == Err::<
        SpecExpr,
        CalcError,
    >(CalcError::StackUnderflow)) by {
        lemma_reduce_push(none, SpecToken::Operator(operator_of(c, true)->Some_0));
        assert(none.push(SpecToken::Operator(operator_of(c, true)->Some_0)) =~= seq![
            SpecToken::Operator(operator_of(c, true)->Some_0),
        ]);
    }
    assert(parse_spec(seq![c]) == Ok::<Seq<SpecToken>, CalcError>(
        seq![SpecToken::Operator(operator_of(c, true)->Some_0)],
    )) by {
        let operator = operator_of(c, true)->Some_0;
        let waiting = Level { current: Seq::empty(), pending: nothing.push(operator), negation: true };
        lemma_scan_operator(c, end, Level::fresh(), none, none);
        lemma_scan_level_ends(end, waiting, none);
        assert(flush(nothing.push(operator), none) =~= seq![SpecToken::Operator(operator)]);
    }
    let operator = operator_of(c, false)->Some_0;
    let written = SpecToken::Operand(normalized(number));
    assert(parse_spec(number + seq![c]) == Ok::<Seq<SpecToken>, CalcError>(
        seq![written, SpecToken::Operator(operator)],
    )) by {
        let read = Level { current: number, pending: nothing, negation: false };
        let waiting = Level { current: Seq::empty(), pending: nothing.push(operator), negation: true };
        lemma_emit_number(number, none);
        lemma_scan_number(number, seq![c], Level::fresh(), none);
        assert(end + number =~= number);
        lemma_scan_operator(c, end, read, none, none + seq![written]);
        lemma_scan_level_ends(end, waiting, none + seq![written]);
        assert(flush(nothing.push(operator), none + seq![written]) =~= seq![
            written,
            SpecToken::Operator(operator),
        ]);
    }
    assert(evaluate_spec(seq![written, SpecToken::Operator(operator)]) == Err::<
        SpecExpr,
        CalcError,
    >(CalcError::StackUnderflow)) by {
        lemma_reduce_push(none, written);
        lemma_reduce_push(none.push(written), SpecToken::Operator(operator));
        assert(none.push(written).push(SpecToken::Operator(operator)) =~= seq![
            written,
            SpecToken::Operator(operator),
        ]);
    }
}

/// The postfix form of a formula follows from its structure.
pub proof fn lemma_formula_scanned(formula: Formula)
    requires
        formula.scannable(),
    ensures
        parse_spec(formula.text()) == Ok::<Seq<SpecToken>, CalcError>(formula.tokens()),
{
    let none = Seq::<SpecToken>::empty();
    lemma_formula_level(formula, Seq::empty(), none);
    assert(formula.text() + Seq::<char>::empty() =~= formula.text());
    assert(none + formula.tokens() =~= formula.tokens());
}

} // verus!
