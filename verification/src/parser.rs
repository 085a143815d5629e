use vstd::prelude::*;

use crate::error::ErrorKind;
use crate::lexer::{spec_tokens, token_type_of, Token, TokenType};

verus! {

/// A direction for the two symmetric statement families: `Inc` moves the
/// pointer right or raises a cell, `Dec` moves left or lowers a cell.
#[derive(Clone, Copy, Debug)]
pub enum Value {
    Inc,
    Dec,
}

/// The two byte-stream directions: `In` consumes one input byte into the
/// current cell, `Out` emits the current cell as one output byte.
#[derive(Clone, Copy, Debug)]
pub enum IoMode {
    In,
    Out,
}

/// What a statement does.  A `Loop` owns the statements between its
/// bracket pair as its children; the other kinds are leaves.
#[derive(Clone, Copy, Debug)]
pub enum StatementKind {
    Loop,
    Ptr(Value),
    Math(Value),
    Io(IoMode),
}

/// One node of the program tree.  `children` is non-empty only for
/// `Loop` statements, which own their body exclusively: the tree is
/// parent-owns-children composition, with no sharing and no cycles.
/// Statements are immutable once parsed.
#[derive(Debug)]
pub struct Statement {
    pub kind: StatementKind,
    pub children: Vec<Statement>,
}

/// The mathematical shape of a statement: the same tree as [`Statement`],
/// with a loop body as a sequence.  Contracts speak of statements through
/// this model, via [`stmt_node`].
pub enum StmtNode {
    Loop { body: Seq<StmtNode> },
    Ptr { dir: Value },
    Math { dir: Value },
    Io { mode: IoMode },
}

/// The model of one statement: its kind, with a loop's children modelled
/// recursively.
pub open spec fn stmt_node(s: Statement) -> StmtNode
    decreases s,
{
    match s.kind {
        StatementKind::Loop => StmtNode::Loop { body: stmt_nodes(s.children@) },
        StatementKind::Ptr(dir) => StmtNode::Ptr { dir },
        StatementKind::Math(dir) => StmtNode::Math { dir },
        StatementKind::Io(mode) => StmtNode::Io { mode },
    }
}

/// The model of a statement sequence, element by element.
pub open spec fn stmt_nodes(ss: Seq<Statement>) -> Seq<StmtNode>
    decreases ss,
{
    if ss.len() == 0 {
        Seq::empty()
    } else {
        stmt_nodes(ss.drop_last()).push(stmt_node(ss.last()))
    }
}

/// The statement-sequence model is pointwise: as long as its sequence,
/// with the model of the i-th statement at index i.
pub proof fn lemma_stmt_nodes(ss: Seq<Statement>)
    ensures
        stmt_nodes(ss).len() == ss.len(),
        forall|i: int| 0 <= i < ss.len() ==> stmt_nodes(ss)[i] == stmt_node(ss[i]),
    decreases ss.len(),
{
    if ss.len() > 0 {
        lemma_stmt_nodes(ss.drop_last());
        assert forall|i: int| 0 <= i < ss.len() implies stmt_nodes(ss)[i] == stmt_node(
            ss[i],
        ) by {
            if i < ss.len() - 1 {
                assert(ss.drop_last()[i] == ss[i]);
            }
        }
    }
}

/// Appending a statement appends its model.
pub proof fn lemma_stmt_nodes_push(ss: Seq<Statement>, s: Statement)
    ensures
        stmt_nodes(ss.push(s)) == stmt_nodes(ss).push(stmt_node(s)),
{
    assert(ss.push(s).drop_last() =~= ss);
    assert(ss.push(s).last() == s);
}

/// A statement shaped as the data model fixes it: only a `Loop` carries
/// a body, and every leaf's `children` vector is empty, recursively.
pub open spec fn stmt_wf(s: Statement) -> bool
    decreases s,
{
    match s.kind {
        StatementKind::Loop => stmts_wf(s.children@),
        _ => s.children@.len() == 0,
    }
}

/// Every statement of the sequence is shaped as the data model fixes.
pub open spec fn stmts_wf(ss: Seq<Statement>) -> bool
    decreases ss,
{
    ss.len() == 0 || (stmts_wf(ss.drop_last()) && stmt_wf(ss.last()))
}

/// Appending a well-shaped statement keeps a sequence well-shaped.
pub proof fn lemma_stmts_wf_push(ss: Seq<Statement>, s: Statement)
    ensures
        stmts_wf(ss.push(s)) <==> stmts_wf(ss) && stmt_wf(s),
{
    assert(ss.push(s).drop_last() =~= ss);
    assert(ss.push(s).last() == s);
}

/// One level of the parse in progress: the offset of the loop-open that
/// began it (0 for the outermost level) and the statements collected so
/// far at this level.
pub struct ParseFrame {
    pub open_pos: usize,
    pub stmts: Seq<StmtNode>,
}

/// The parser's state as it consumes tokens: a non-empty stack of open
/// levels while running, the finished statement sequence once the
/// end-of-input token is consumed, or the structural error that stopped
/// it.  `Done` and `Failed` absorb any further tokens unchanged.
pub enum ParseState {
    Running { stack: Seq<ParseFrame> },
    Done { stmts: Seq<StmtNode> },
    Failed { err: ErrorKind },
}

/// The state a parse starts in: one open level, the program's top.
pub open spec fn parse_init() -> ParseState {
    ParseState::Running { stack: seq![ParseFrame { open_pos: 0, stmts: Seq::empty() }] }
}

/// Appends a finished statement to the innermost open level.
pub open spec fn push_leaf(stack: Seq<ParseFrame>, node: StmtNode) -> Seq<ParseFrame>
    recommends
        stack.len() >= 1,
{
    stack.update(
        stack.len() - 1,
        ParseFrame { open_pos: stack.last().open_pos, stmts: stack.last().stmts.push(node) },
    )
}

/// How one token advances the parse.
///
/// Leaf tokens append one statement to the innermost level; an illegal
/// token contributes nothing.  A loop-open opens a level; the matching
/// loop-close closes it and appends the collected body as one `Loop`
/// statement, while a loop-close at the top level fails with
/// `UnmatchedLoopClose` at that token's offset.  End-of-input finishes a
/// top-level parse, and fails with `UnmatchedLoopOpen` at the innermost
/// open bracket's offset if a level is still open.
pub open spec fn parse_step(state: ParseState, t: Token) -> ParseState {
    match state {
        ParseState::Running { stack } => match t.token_type {
            TokenType::PtrLeft => ParseState::Running {
                stack: push_leaf(stack, StmtNode::Ptr { dir: Value::Dec }),
            },
            TokenType::PtrRight => ParseState::Running {
                stack: push_leaf(stack, StmtNode::Ptr { dir: Value::Inc }),
            },
            TokenType::Inc => ParseState::Running {
                stack: push_leaf(stack, StmtNode::Math { dir: Value::Inc }),
            },
            TokenType::Dec => ParseState::Running {
                stack: push_leaf(stack, StmtNode::Math { dir: Value::Dec }),
            },
            TokenType::Read => ParseState::Running {
                stack: push_leaf(stack, StmtNode::Io { mode: IoMode::In }),
            },
            TokenType::Write => ParseState::Running {
                stack: push_leaf(stack, StmtNode::Io { mode: IoMode::Out }),
            },
            TokenType::Illegal => ParseState::Running { stack },
            TokenType::LoopStart => ParseState::Running {
                stack: stack.push(ParseFrame { open_pos: t.position, stmts: Seq::empty() }),
            },
            TokenType::LoopEnd => if stack.len() >= 2 {
                ParseState::Running {
                    stack: push_leaf(stack.drop_last(), StmtNode::Loop { body: stack.last().stmts }),
                }
            } else {
                ParseState::Failed { err: ErrorKind::UnmatchedLoopClose(t.position) }
            },
            TokenType::Eof => if stack.len() == 1 {
                ParseState::Done { stmts: stack.last().stmts }
            } else {
                ParseState::Failed { err: ErrorKind::UnmatchedLoopOpen(stack.last().open_pos) }
            },
        },
        _ => state,
    }
}

/// Folds the parse over a token sequence, left to right.
pub open spec fn parse_from(state: ParseState, tokens: Seq<Token>) -> ParseState
    decreases tokens.len(),
{
    if tokens.len() == 0 {
        state
    } else {
        parse_from(parse_step(state, tokens[0]), tokens.drop_first())
    }
}

/// What parsing a token sequence yields.  A stream that ends without an
/// end-of-input token is finished the same way that token would finish
/// it.
pub open spec fn spec_parse(tokens: Seq<Token>) -> Result<Seq<StmtNode>, ErrorKind> {
    match parse_from(parse_init(), tokens) {
        ParseState::Done { stmts } => Ok(stmts),
        ParseState::Failed { err } => Err(err),
        ParseState::Running { stack } => if stack.len() == 1 {
            Ok(stack.last().stmts)
        } else {
            Err(ErrorKind::UnmatchedLoopOpen(stack.last().open_pos))
        },
    }
}

/// The parse of a concatenation folds through its two parts in order.
pub proof fn lemma_parse_from_concat(state: ParseState, a: Seq<Token>, b: Seq<Token>)
    ensures
        parse_from(state, a + b) == parse_from(parse_from(state, a), b),
    decreases a.len(),
{
    if a.len() == 0 {
        assert(a + b =~= b);
    } else {
        assert((a + b)[0] == a[0]);
        assert((a + b).drop_first() =~= a.drop_first() + b);
        lemma_parse_from_concat(parse_step(state, a[0]), a.drop_first(), b);
    }
}

/// Once the parse is done or failed, further tokens change nothing.
pub proof fn lemma_parse_from_settled(state: ParseState, s: Seq<Token>)
    requires
        !(state is Running),
    ensures
        parse_from(state, s) == state,
    decreases s.len(),
{
    if s.len() > 0 {
        lemma_parse_from_settled(state, s.drop_first());
    }
}

/// Running a parse on a deeper stack mirrors running it on the upper
/// frames alone: as long as the run on `top` alone stays running, the
/// frames beneath are never touched, so they can be lifted in under it
/// unchanged.
proof fn lemma_parse_from_lift(b: Seq<ParseFrame>, top: Seq<ParseFrame>, ts: Seq<Token>)
    requires
        top.len() >= 1,
        parse_from(ParseState::Running { stack: top }, ts) is Running,
    ensures
        (parse_from(ParseState::Running { stack: top }, ts))->Running_stack.len() >= 1,
        parse_from(ParseState::Running { stack: b + top }, ts) == (ParseState::Running {
            stack: b + (parse_from(ParseState::Running { stack: top }, ts))->Running_stack,
        }),
    decreases ts.len(),
{
    if ts.len() == 0 {
    } else {
        let t = ts[0];
        let step_top = parse_step(ParseState::Running { stack: top }, t);
        assert(parse_from(ParseState::Running { stack: top }, ts) == parse_from(
            step_top,
            ts.drop_first(),
        ));
        if !(step_top is Running) {
            lemma_parse_from_settled(step_top, ts.drop_first());
        }
        let top2 = step_top->Running_stack;
        let step_all = parse_step(ParseState::Running { stack: b + top }, t);
        match t.token_type {
            TokenType::LoopStart => {
                assert((b + top).push(ParseFrame { open_pos: t.position, stmts: Seq::empty() })
                    =~~= b + top2);
            },
            TokenType::LoopEnd => {
                assert(top.len() >= 2);
                assert((b + top).last() == top.last());
                assert((b + top).drop_last() =~= b + top.drop_last());
                assert(push_leaf(b + top.drop_last(), StmtNode::Loop { body: top.last().stmts })
                    =~~= b + push_leaf(top.drop_last(), StmtNode::Loop { body: top.last().stmts }));
            },
            TokenType::Eof => {
                assert(false);
            },
            TokenType::Illegal => {
            },
            _ => {
                assert((b + top).last() == top.last());
                assert(step_all->Running_stack =~~= b + top2);
            },
        }
        assert(step_all == (ParseState::Running { stack: b + top2 }));
        lemma_parse_from_lift(b, top2, ts.drop_first());
    }
}

/// The outermost frame's opening offset, and any statements it already
/// holds, ride along unread: a parse that stays running evolves two
/// stacks in step when they differ only in the bottom frame's offset and
/// in statements prefixed to it.
proof fn lemma_parse_from_base(
    st1: Seq<ParseFrame>,
    st2: Seq<ParseFrame>,
    pre: Seq<StmtNode>,
    ts: Seq<Token>,
)
    requires
        st1.len() == st2.len(),
        st1.len() >= 1,
        forall|j: int| 1 <= j < st1.len() ==> st1[j] == st2[j],
        st2[0].stmts == pre + st1[0].stmts,
        parse_from(ParseState::Running { stack: st1 }, ts) is Running,
    ensures
        parse_from(ParseState::Running { stack: st2 }, ts) is Running,
        ({
            let r1 = (parse_from(ParseState::Running { stack: st1 }, ts))->Running_stack;
            let r2 = (parse_from(ParseState::Running { stack: st2 }, ts))->Running_stack;
            &&& r1.len() == r2.len()
            &&& r1.len() >= 1
            &&& (forall|j: int| 1 <= j < r1.len() ==> r1[j] == r2[j])
            &&& r2[0].stmts == pre + r1[0].stmts
            &&& r1[0].open_pos == st1[0].open_pos
            &&& r2[0].open_pos == st2[0].open_pos
        }),
    decreases ts.len(),
{
    if ts.len() == 0 {
    } else {
        let t = ts[0];
        let step1 = parse_step(ParseState::Running { stack: st1 }, t);
        assert(parse_from(ParseState::Running { stack: st1 }, ts) == parse_from(
            step1,
            ts.drop_first(),
        ));
        if !(step1 is Running) {
            lemma_parse_from_settled(step1, ts.drop_first());
        }
        let step2 = parse_step(ParseState::Running { stack: st2 }, t);
        match t.token_type {
            TokenType::LoopStart => {
                let fresh = ParseFrame { open_pos: t.position, stmts: Seq::empty() };
                lemma_parse_from_base(st1.push(fresh), st2.push(fresh), pre, ts.drop_first());
            },
            TokenType::LoopEnd => {
                assert(st1.len() >= 2);
                assert(st1.last() == st2.last());
                let node = StmtNode::Loop { body: st1.last().stmts };
                let m1 = push_leaf(st1.drop_last(), node);
                let m2 = push_leaf(st2.drop_last(), node);
                if st1.len() == 2 {
                    assert(m2[0].stmts =~= pre + m1[0].stmts);
                } else {
                    assert(st1.drop_last()[st1.len() - 2] == st2.drop_last()[st1.len() - 2]);
                    assert(m1[0] == st1[0]);
                    assert(m2[0] == st2[0]);
                }
                assert(forall|j: int| 1 <= j < m1.len() ==> m1[j] == m2[j]);
                assert(m2[0].stmts == pre + m1[0].stmts);
                assert(m1[0].open_pos == st1[0].open_pos);
                assert(m2[0].open_pos == st2[0].open_pos);
                lemma_parse_from_base(m1, m2, pre, ts.drop_first());
            },
            TokenType::Eof => {
                assert(false);
            },
            TokenType::Illegal => {
                lemma_parse_from_base(st1, st2, pre, ts.drop_first());
            },
            _ => {
                let m1 = step1->Running_stack;
                let m2 = step2->Running_stack;
                if st1.len() == 1 {
                    assert(m2[0].stmts =~= pre + m1[0].stmts);
                } else {
                    assert(st1[st1.len() - 1] == st2[st1.len() - 1]);
                    assert(m1[0] == st1[0]);
                    assert(m2[0] == st2[0]);
                }
                assert(forall|j: int| 1 <= j < m1.len() ==> m1[j] == m2[j]);
                assert(m2[0].stmts == pre + m1[0].stmts);
                assert(m1[0].open_pos == st1[0].open_pos);
                assert(m2[0].open_pos == st2[0].open_pos);
                lemma_parse_from_base(m1, m2, pre, ts.drop_first());
            },
        }
    }
}

/// Law: a `Loop` node's children are exactly the parse of the tokens
/// between its bracket pair.  Take any token segment whose own parse
/// stays at one open level — its brackets match each other.  Wrapping
/// it in a loop-open and the matching loop-close parses to exactly one
/// `Loop` statement, whose body is precisely the segment's own parse.
/// Together with [`lemma_parse_sibling_segments`] this pins the tree's
/// shape: each `Loop` comes from one bracket pair of the stream, with
/// the statements scanned strictly between the two brackets.
pub proof fn lemma_parse_loop_segment(inner: Seq<Token>, t_open: Token, t_close: Token)
    requires
        t_open.token_type == TokenType::LoopStart,
        t_close.token_type == TokenType::LoopEnd,
        parse_from(parse_init(), inner) is Running,
        (parse_from(parse_init(), inner))->Running_stack.len() == 1,
    ensures
        ({
            let body = (parse_from(parse_init(), inner))->Running_stack[0].stmts;
            &&& spec_parse(inner) == Ok::<Seq<StmtNode>, ErrorKind>(body)
            &&& spec_parse(seq![t_open] + inner + seq![t_close]) == Ok::<
                Seq<StmtNode>,
                ErrorKind,
            >(seq![StmtNode::Loop { body }])
        }),
{
    let fr0 = ParseFrame { open_pos: 0, stmts: Seq::empty() };
    let fo = ParseFrame { open_pos: t_open.position, stmts: Seq::empty() };
    let r1 = (parse_from(parse_init(), inner))->Running_stack;
    let body = r1[0].stmts;
    assert(r1.last() == r1[0]);
    assert(parse_init()->Running_stack =~= seq![fr0]);
    // The same run, started instead from the frame the loop-open pushes.
    assert(Seq::<StmtNode>::empty() + Seq::<StmtNode>::empty() =~= Seq::<StmtNode>::empty());
    lemma_parse_from_base(seq![fr0], seq![fo], Seq::empty(), inner);
    let r2 = (parse_from(ParseState::Running { stack: seq![fo] }, inner))->Running_stack;
    assert(Seq::<StmtNode>::empty() + body =~= body);
    assert(r2 =~~= seq![ParseFrame { open_pos: t_open.position, stmts: body }]);
    // Lift that run under the outermost frame.
    lemma_parse_from_lift(seq![fr0], seq![fo], inner);
    // Fold the wrapped sequence: loop-open, the segment, loop-close.
    let w = seq![t_open] + inner + seq![t_close];
    assert(seq![t_open][0] == t_open);
    assert(seq![t_open].drop_first() =~= Seq::<Token>::empty());
    assert(parse_from(parse_step(parse_init(), t_open), Seq::<Token>::empty()) == parse_step(
        parse_init(),
        t_open,
    ));
    assert(parse_from(parse_init(), seq![t_open]) == parse_step(parse_init(), t_open));
    assert(seq![fr0].push(fo) =~= seq![fr0] + seq![fo]);
    assert(parse_step(parse_init(), t_open) == (ParseState::Running { stack: seq![fr0] + seq![fo] }));
    assert(w =~= seq![t_open] + (inner + seq![t_close]));
    lemma_parse_from_concat(parse_init(), seq![t_open], inner + seq![t_close]);
    lemma_parse_from_concat(
        ParseState::Running { stack: seq![fr0] + seq![fo] },
        inner,
        seq![t_close],
    );
    let mid = ParseState::Running { stack: seq![fr0] + r2 };
    assert(parse_from(ParseState::Running { stack: seq![fr0] + seq![fo] }, inner) == mid);
    assert(parse_from(parse_init(), w) == parse_from(mid, seq![t_close]));
    // The loop-close pops the finished body under the outer level.
    assert(seq![t_close][0] == t_close);
    assert(seq![t_close].drop_first() =~= Seq::<Token>::empty());
    assert(parse_from(parse_step(mid, t_close), Seq::<Token>::empty()) == parse_step(mid, t_close));
    assert(parse_from(mid, seq![t_close]) == parse_step(mid, t_close));
    let ms = seq![fr0] + r2;
    assert(ms.len() == 2);
    assert(ms.last() == ParseFrame { open_pos: t_open.position, stmts: body });
    assert(ms.drop_last() =~= seq![fr0]);
    let fin = push_leaf(seq![fr0], StmtNode::Loop { body });
    assert(fin =~~= seq![
        ParseFrame { open_pos: 0, stmts: Seq::<StmtNode>::empty().push(StmtNode::Loop { body }) },
    ]);
    assert(Seq::<StmtNode>::empty().push(StmtNode::Loop { body }) =~= seq![
        StmtNode::Loop { body },
    ]);
    assert(fin.last() == fin[0]);
}

/// Law: side-by-side segments parse independently.  If two token
/// segments each parse at one open level, their concatenation parses to
/// the concatenation of their statement sequences — what one segment
/// yields neither changes nor reorders what its neighbour yields.
pub proof fn lemma_parse_sibling_segments(ts1: Seq<Token>, ts2: Seq<Token>)
    requires
        parse_from(parse_init(), ts1) is Running,
        (parse_from(parse_init(), ts1))->Running_stack.len() == 1,
        parse_from(parse_init(), ts2) is Running,
        (parse_from(parse_init(), ts2))->Running_stack.len() == 1,
    ensures
        ({
            let body1 = (parse_from(parse_init(), ts1))->Running_stack[0].stmts;
            let body2 = (parse_from(parse_init(), ts2))->Running_stack[0].stmts;
            &&& spec_parse(ts1) == Ok::<Seq<StmtNode>, ErrorKind>(body1)
            &&& spec_parse(ts2) == Ok::<Seq<StmtNode>, ErrorKind>(body2)
            &&& spec_parse(ts1 + ts2) == Ok::<Seq<StmtNode>, ErrorKind>(body1 + body2)
        }),
{
    let fr0 = ParseFrame { open_pos: 0, stmts: Seq::empty() };
    let r1 = (parse_from(parse_init(), ts1))->Running_stack;
    let body1 = r1[0].stmts;
    let r2 = (parse_from(parse_init(), ts2))->Running_stack;
    let body2 = r2[0].stmts;
    assert(r1.last() == r1[0]);
    assert(r2.last() == r2[0]);
    assert(parse_init()->Running_stack =~= seq![fr0]);
    // The first run ends at one open level whose offset is still 0.
    assert(Seq::<StmtNode>::empty() + Seq::<StmtNode>::empty() =~= Seq::<StmtNode>::empty());
    lemma_parse_from_base(seq![fr0], seq![fr0], Seq::empty(), ts1);
    assert(r1 =~~= seq![ParseFrame { open_pos: 0, stmts: body1 }]);
    // The second run, continued from that level, appends behind body1.
    assert(body1 + Seq::<StmtNode>::empty() =~= body1);
    lemma_parse_from_base(seq![fr0], seq![ParseFrame { open_pos: 0, stmts: body1 }], body1, ts2);
    lemma_parse_from_concat(parse_init(), ts1, ts2);
    let rr = (parse_from(ParseState::Running { stack: r1 }, ts2))->Running_stack;
    assert(rr.len() == 1);
    assert(rr[0].stmts == body1 + body2);
    assert(rr.last() == rr[0]);
}

/// The number of loop-open characters among the first `i` of a text.
pub open spec fn opens(s: Seq<char>, i: int) -> nat
    decreases i,
{
    if i <= 0 {
        0
    } else {
        opens(s, i - 1) + if token_type_of(s[i - 1]) == TokenType::LoopStart {
            1nat
        } else {
            0nat
        }
    }
}

/// The number of loop-close characters among the first `i` of a text.
pub open spec fn closes(s: Seq<char>, i: int) -> nat
    decreases i,
{
    if i <= 0 {
        0
    } else {
        closes(s, i - 1) + if token_type_of(s[i - 1]) == TokenType::LoopEnd {
            1nat
        } else {
            0nat
        }
    }
}

/// The running bracket depth after the first `i` characters of a text:
/// loop-opens seen so far minus loop-closes seen so far.
pub open spec fn depth(s: Seq<char>, i: int) -> int {
    opens(s, i) - closes(s, i)
}

/// No prefix of the first `i` characters closes more loops than it opens.
pub open spec fn prefix_ok(s: Seq<char>, i: int) -> bool {
    forall|k: int| 0 <= k <= i ==> depth(s, k) >= 0
}

/// A text's brackets balance: the running depth never drops below zero,
/// and it ends at zero.
pub open spec fn balanced(s: Seq<char>) -> bool {
    prefix_ok(s, s.len() as int) && depth(s, s.len() as int) == 0
}

/// The number of `Loop` nodes in one statement, nested ones included.
pub open spec fn node_loop_count(n: StmtNode) -> nat
    decreases n,
{
    match n {
        StmtNode::Loop { body } => 1 + loop_count(body),
        _ => 0,
    }
}

/// The number of `Loop` nodes in a statement sequence, nested ones
/// included.
pub open spec fn loop_count(ss: Seq<StmtNode>) -> nat
    decreases ss,
{
    if ss.len() == 0 {
        0
    } else {
        loop_count(ss.drop_last()) + node_loop_count(ss.last())
    }
}

proof fn lemma_loop_count_push(ss: Seq<StmtNode>, n: StmtNode)
    ensures
        loop_count(ss.push(n)) == loop_count(ss) + node_loop_count(n),
{
    assert(ss.push(n).drop_last() =~= ss);
    assert(ss.push(n).last() == n);
}

/// The `Loop` nodes finished so far inside all open parse levels.
spec fn stack_loops(stack: Seq<ParseFrame>) -> nat
    decreases stack,
{
    if stack.len() == 0 {
        0
    } else {
        stack_loops(stack.drop_last()) + loop_count(stack.last().stmts)
    }
}

/// What the parse of the first `i` characters' tokens looks like: while
/// no prefix has over-closed, it is running with one open level per
/// unclosed bracket plus the top, and has folded one `Loop` node out of
/// every loop-close seen; the first over-close fails it with
/// `UnmatchedLoopClose`, for good.
proof fn lemma_parse_prefix(s: Seq<char>, i: int)
    requires
        0 <= i <= s.len(),
    ensures
        prefix_ok(s, i) ==> (parse_from(parse_init(), spec_tokens(s).take(i))
            matches ParseState::Running { stack } && stack.len() == depth(s, i) + 1
            && stack_loops(stack) == closes(s, i)),
        !prefix_ok(s, i) ==> (parse_from(parse_init(), spec_tokens(s).take(i))
            matches ParseState::Failed { err: ErrorKind::UnmatchedLoopClose(_) }),
    decreases i,
{
    if i == 0 {
        assert(spec_tokens(s).take(0) =~= Seq::<Token>::empty());
        let st0 = parse_init()->Running_stack;
        assert(st0.len() == 1);
        assert(st0.drop_last() =~= Seq::<ParseFrame>::empty());
        assert(stack_loops(st0.drop_last()) == 0);
        assert(st0.last() == ParseFrame { open_pos: 0usize, stmts: Seq::<StmtNode>::empty() });
        assert(loop_count(st0.last().stmts) == 0);
        assert(stack_loops(st0) == 0);
        assert(forall|k: int| 0 <= k <= 0 ==> depth(s, k) >= 0);
    } else {
        lemma_parse_prefix(s, i - 1);
        let t = spec_tokens(s)[i - 1];
        let before = parse_from(parse_init(), spec_tokens(s).take(i - 1));
        assert(spec_tokens(s).take(i) =~= spec_tokens(s).take(i - 1) + seq![t]);
        lemma_parse_from_concat(parse_init(), spec_tokens(s).take(i - 1), seq![t]);
        assert(seq![t][0] == t);
        assert(seq![t].drop_first() =~= Seq::<Token>::empty());
        assert(parse_from(parse_step(before, t), Seq::<Token>::empty()) == parse_step(before, t));
        let after = parse_step(before, t);
        assert(parse_from(parse_init(), spec_tokens(s).take(i)) == after);
        assert(t.token_type == token_type_of(s[i - 1]));
        // prefix_ok at i is prefix_ok at i - 1 plus the one new prefix.
        assert(prefix_ok(s, i) <==> prefix_ok(s, i - 1) && depth(s, i) >= 0) by {
            if prefix_ok(s, i - 1) && depth(s, i) >= 0 {
                assert(forall|k: int| 0 <= k <= i ==> depth(s, k) >= 0) by {
                    assert(forall|k: int| 0 <= k < i ==> depth(s, k) >= 0);
                }
            }
        }
        if !prefix_ok(s, i - 1) {
            // Already failed; the new token changes nothing.
            assert(!prefix_ok(s, i));
        } else {
            let stack = before->Running_stack;
            match t.token_type {
                TokenType::LoopStart => {
                    let nstack = after->Running_stack;
                    assert(nstack.drop_last() =~= stack);
                    assert(stack_loops(nstack) == stack_loops(stack));
                },
                TokenType::LoopEnd => {
                    if stack.len() >= 2 {
                        let body = stack.last().stmts;
                        let popped = stack.drop_last();
                        let nstack = after->Running_stack;
                        assert(nstack == push_leaf(popped, StmtNode::Loop { body }));
                        assert(nstack.drop_last() =~= popped.drop_last());
                        assert(nstack.last().stmts == popped.last().stmts.push(
                            StmtNode::Loop { body },
                        ));
                        lemma_loop_count_push(popped.last().stmts, StmtNode::Loop { body });
                        assert(stack_loops(nstack) == stack_loops(popped.drop_last())
                            + loop_count(popped.last().stmts) + 1 + loop_count(body));
                        assert(stack_loops(stack) == stack_loops(popped) + loop_count(body));
                        assert(stack_loops(popped) == stack_loops(popped.drop_last())
                            + loop_count(popped.last().stmts));
                    } else {
                        assert(depth(s, i - 1) == 0);
                        assert(depth(s, i) == -1);
                        assert(!prefix_ok(s, i)) by {
                            assert(depth(s, i) < 0);
                        }
                    }
                },
                TokenType::Illegal => {
                },
                TokenType::Eof => {
                    // Only the final token of a scan is Eof, and take(i)
                    // with i at most the text's length never includes it.
                    assert(false);
                },
                _ => {
                    // A leaf token: one statement onto the innermost level.
                    let nstack = after->Running_stack;
                    let ghost node = match t.token_type {
                        TokenType::PtrLeft => StmtNode::Ptr { dir: Value::Dec },
                        TokenType::PtrRight => StmtNode::Ptr { dir: Value::Inc },
                        TokenType::Inc => StmtNode::Math { dir: Value::Inc },
                        TokenType::Dec => StmtNode::Math { dir: Value::Dec },
                        TokenType::Read => StmtNode::Io { mode: IoMode::In },
                        _ => StmtNode::Io { mode: IoMode::Out },
                    };
                    assert(nstack == push_leaf(stack, node));
                    assert(nstack.drop_last() =~= stack.drop_last());
                    lemma_loop_count_push(stack.last().stmts, node);
                    assert(stack_loops(nstack) == stack_loops(stack));
                },
            }
        }
    }
}

/// Law: parsing scanned text succeeds exactly when the text's brackets
/// balance, and structural faults always surface as the matching error.
/// Scanning and parsing have no precondition at all, so the pipeline is
/// defined — and, being verified, free of panics — for every text.
///
/// - A parse that succeeds returns a tree whose `Loop` nodes, nested
///   ones included, number exactly the text's loop-opens and exactly its
///   loop-closes: every `Loop` consumed one bracket pair that stood in
///   the source, and none is left over.
/// - A text with a prefix that closes more loops than it opened fails
///   with `UnmatchedLoopClose`.
/// - A text whose brackets never over-close but stay open to the end
///   fails with `UnmatchedLoopOpen`.
pub proof fn lemma_parse_scan_balance(s: Seq<char>)
    ensures
        spec_parse(spec_tokens(s)) is Ok <==> balanced(s),
        balanced(s) ==> (spec_parse(spec_tokens(s)) matches Ok(nodes) && loop_count(nodes)
            == opens(s, s.len() as int) && opens(s, s.len() as int) == closes(
            s,
            s.len() as int,
        )),
        !prefix_ok(s, s.len() as int) ==> (spec_parse(spec_tokens(s)) matches Err(
            ErrorKind::UnmatchedLoopClose(_),
        )),
        prefix_ok(s, s.len() as int) && depth(s, s.len() as int) != 0 ==> (spec_parse(
            spec_tokens(s),
        ) matches Err(ErrorKind::UnmatchedLoopOpen(_))),
        opens(s, s.len() as int) != closes(s, s.len() as int) ==> spec_parse(spec_tokens(s))
            is Err,
{
    let n = s.len() as int;
    lemma_parse_prefix(s, n);
    let before = parse_from(parse_init(), spec_tokens(s).take(n));
    let eof = spec_tokens(s)[n];
    assert(eof.token_type == TokenType::Eof);
    assert(spec_tokens(s) =~= spec_tokens(s).take(n) + seq![eof]);
    lemma_parse_from_concat(parse_init(), spec_tokens(s).take(n), seq![eof]);
    assert(seq![eof][0] == eof);
    assert(seq![eof].drop_first() =~= Seq::<Token>::empty());
    assert(parse_from(parse_step(before, eof), Seq::<Token>::empty()) == parse_step(before, eof));
    assert(parse_from(parse_init(), spec_tokens(s)) == parse_step(before, eof));
    if prefix_ok(s, n) {
        let stack = before->Running_stack;
        if depth(s, n) == 0 {
            assert(stack.len() == 1);
            assert(stack.drop_last() =~= Seq::<ParseFrame>::empty());
            assert(stack_loops(stack.drop_last()) == 0);
            assert(stack_loops(stack) == loop_count(stack.last().stmts));
            assert(depth(s, n) == opens(s, n) - closes(s, n));
        } else {
            assert(stack.len() >= 2);
        }
    }
}

/// The direction a pointer or cell token stands for: left and decrement
/// lower, right and increment raise.  The other token kinds carry no
/// direction and are kept out by the precondition.
fn get_value(token_type: TokenType) -> (v: Value)
    requires
        token_type == TokenType::PtrLeft || token_type == TokenType::PtrRight || token_type
            == TokenType::Inc || token_type == TokenType::Dec,
    ensures
        (token_type == TokenType::PtrLeft || token_type == TokenType::Dec) ==> v is Dec,
        (token_type == TokenType::PtrRight || token_type == TokenType::Inc) ==> v is Inc,
{
    match token_type {
        TokenType::PtrLeft | TokenType::Dec => Value::Dec,
        _ => Value::Inc,
    }
}

/// One level of the executable parse, mirroring [`ParseFrame`].
struct Frame {
    open_pos: usize,
    stmts: Vec<Statement>,
}

spec fn frame_model(f: Frame) -> ParseFrame {
    ParseFrame { open_pos: f.open_pos, stmts: stmt_nodes(f.stmts@) }
}

spec fn frames_model(fs: Seq<Frame>) -> Seq<ParseFrame> {
    Seq::new(fs.len(), |i: int| frame_model(fs[i]))
}

pub struct Parser {}

impl Parser {
    /// Builds the statement tree of a token stream, consuming it up to
    /// and including the end-of-input token: recursive nesting keyed on
    /// loop-open and loop-close, leaves for the six leaf tokens, illegal
    /// tokens dropped.  Succeeds exactly when the stream's brackets are
    /// properly matched; otherwise reports the structural error and the
    /// offset of the offending bracket, as [`spec_parse`] lays down.
    pub fn parse(tokens: &Vec<Token>) -> (r: Result<Vec<Statement>, ErrorKind>)
        ensures
            match r {
                Ok(stmts) => {
                    &&& spec_parse(tokens@) == Ok::<Seq<StmtNode>, ErrorKind>(stmt_nodes(stmts@))
                    &&& stmts_wf(stmts@)
                },
                Err(e) => spec_parse(tokens@) == Err::<Seq<StmtNode>, ErrorKind>(e),
            },
    {
        let mut stack: Vec<Frame> = Vec::new();
        stack.push(Frame { open_pos: 0, stmts: Vec::new() });
        proof {
            assert(frames_model(stack@) =~~= seq![
                ParseFrame { open_pos: 0, stmts: Seq::empty() },
            ]);
            assert(stmts_wf(stack@[0].stmts@));
        }
        let mut i: usize = 0;
        while i < tokens.len()
            invariant
                i <= tokens@.len(),
                stack@.len() >= 1,
                parse_from(parse_init(), tokens@.take(i as int)) == (ParseState::Running {
                    stack: frames_model(stack@),
                }),
                forall|j: int| 0 <= j < stack@.len() ==> stmts_wf(#[trigger] stack@[j].stmts@),
            decreases tokens@.len() - i,
        {
            let ghost pre = frames_model(stack@);
            let ghost stack0 = stack@;
            let t = tokens[i];
            proof {
                let s0 = ParseState::Running { stack: pre };
                assert(tokens@.take(i as int + 1) =~= tokens@.take(i as int) + seq![
                    tokens@[i as int],
                ]);
                lemma_parse_from_concat(parse_init(), tokens@.take(i as int), seq![t]);
                assert(seq![t][0] == t);
                assert(seq![t].drop_first() =~= Seq::<Token>::empty());
                assert(parse_from(s0, seq![t]) == parse_from(
                    parse_step(s0, t),
                    seq![t].drop_first(),
                ));
                assert(parse_from(parse_step(s0, t), Seq::<Token>::empty()) == parse_step(s0, t));
                assert(parse_from(parse_init(), tokens@.take(i as int + 1)) == parse_step(s0, t));
            }
            match t.token_type {
                TokenType::LoopStart => {
                    stack.push(Frame { open_pos: t.position, stmts: Vec::new() });
                    proof {
                        assert(frames_model(stack@) =~~= pre.push(
                            ParseFrame { open_pos: t.position, stmts: Seq::empty() },
                        ));
                        assert forall|j: int| 0 <= j < stack@.len() implies stmts_wf(
                            #[trigger] stack@[j].stmts@,
                        ) by {
                            if j < stack@.len() - 1 {
                                assert(stack@[j] == stack0[j]);
                            }
                        }
                    }
                },
                TokenType::LoopEnd => {
                    if stack.len() >= 2 {
                        let frame = stack.pop().unwrap();
                        let mut top = stack.pop().unwrap();
                        let ghost body = stmt_nodes(frame.stmts@);
                        let ghost prev = top.stmts@;
                        let looped = Statement { kind: StatementKind::Loop, children: frame.stmts };
                        let ghost loopedg = looped;
                        top.stmts.push(looped);
                        stack.push(top);
                        proof {
                            lemma_stmt_nodes_push(prev, loopedg);
                            assert(frames_model(stack@) =~~= push_leaf(
                                pre.drop_last(),
                                StmtNode::Loop { body },
                            ));
                            assert(stmt_wf(loopedg)) by {
                                assert(stmts_wf(stack0[stack0.len() - 1].stmts@));
                            }
                            lemma_stmts_wf_push(prev, loopedg);
                            assert forall|j: int| 0 <= j < stack@.len() implies stmts_wf(
                                #[trigger] stack@[j].stmts@,
                            ) by {
                                if j < stack@.len() - 1 {
                                    assert(stack@[j] == stack0[j]);
                                }
                            }
                        }
                    } else {
                        proof {
                            assert(tokens@ =~= tokens@.take(i as int + 1) + tokens@.skip(
                                i as int + 1,
                            ));
                            lemma_parse_from_concat(
                                parse_init(),
                                tokens@.take(i as int + 1),
                                tokens@.skip(i as int + 1),
                            );
                            lemma_parse_from_settled(
                                parse_from(parse_init(), tokens@.take(i as int + 1)),
                                tokens@.skip(i as int + 1),
                            );
                        }
                        return Err(ErrorKind::UnmatchedLoopClose(t.position));
                    }
                },
                TokenType::Eof => {
                    proof {
                        assert(tokens@ =~= tokens@.take(i as int + 1) + tokens@.skip(i as int + 1));
                        lemma_parse_from_concat(
                            parse_init(),
                            tokens@.take(i as int + 1),
                            tokens@.skip(i as int + 1),
                        );
                        lemma_parse_from_settled(
                            parse_from(parse_init(), tokens@.take(i as int + 1)),
                            tokens@.skip(i as int + 1),
                        );
                    }
                    if stack.len() == 1 {
                        let frame = stack.pop().unwrap();
                        return Ok(frame.stmts);
                    } else {
                        let top = &stack[stack.len() - 1];
                        return Err(ErrorKind::UnmatchedLoopOpen(top.open_pos));
                    }
                },
                TokenType::Illegal => {
                    proof {
                        assert(frames_model(stack@) =~~= pre);
                    }
                },
                _ => {
                    let node = match t.token_type {
                        TokenType::PtrLeft | TokenType::PtrRight => StatementKind::Ptr(
                            get_value(t.token_type),
                        ),
                        TokenType::Inc | TokenType::Dec => StatementKind::Math(
                            get_value(t.token_type),
                        ),
                        TokenType::Read => StatementKind::Io(IoMode::In),
                        _ => StatementKind::Io(IoMode::Out),
                    };
                    let mut top = stack.pop().unwrap();
                    let ghost prev = top.stmts@;
                    let leaf = Statement { kind: node, children: Vec::new() };
                    let ghost leafg = leaf;
                    top.stmts.push(leaf);
                    stack.push(top);
                    proof {
                        lemma_stmt_nodes_push(prev, leafg);
                        assert(frames_model(stack@) =~~= push_leaf(pre, stmt_node(leafg)));
                        assert(stmt_wf(leafg));
                        lemma_stmts_wf_push(prev, leafg);
                        assert forall|j: int| 0 <= j < stack@.len() implies stmts_wf(
                            #[trigger] stack@[j].stmts@,
                        ) by {
                            if j < stack@.len() - 1 {
                                assert(stack@[j] == stack0[j]);
                            }
                        }
                    }
                },
            }
            i = i + 1;
        }
        proof {
            assert(tokens@.take(i as int) =~= tokens@);
        }
        if stack.len() == 1 {
            let frame = stack.pop().unwrap();
            Ok(frame.stmts)
        } else {
            let top = &stack[stack.len() - 1];
            Err(ErrorKind::UnmatchedLoopOpen(top.open_pos))
        }
    }
}

} // verus!
