//! L-system grammars: string rewriting and the turtle interpretation of the
//! rewritten string.
//!
//! An L-system grammar is defined by a starting string and
//! production rules.  Starting from the starting string, each character that has a
//! rule is replaced by the rule's replacement string (the first rule for a
//! character wins), every other character is kept, and this is repeated for
//! the desired number of iterations.
use vstd::prelude::*;

verus! {

/// Production rules as (from character, replacement) pairs.
pub type RuleSeq = Seq<(char, Seq<char>)>;

/// The replacement of the first rule for `c`, if there is one.
pub open spec fn rule_for(rules: RuleSeq, c: char) -> Option<Seq<char>>
    decreases rules.len(),
{
    if rules.len() == 0 {
        None
    } else if rules[0].0 == c {
        Some(rules[0].1)
    } else {
        rule_for(rules.drop_first(), c)
    }
}

/// The rule for `c` is the first rule that names exactly `c`: when some
/// rule names `c`, `rule_for` gives the replacement of the first such rule;
/// when none does, there is no rule and `c` is kept as it is.
pub proof fn lemma_rule_for(rules: RuleSeq, c: char)
    ensures
        forall|i: int|
            0 <= i < rules.len() && #[trigger] rules[i].0 == c && (forall|j: int|
                0 <= j < i ==> rules[j].0 != c) ==> rule_for(rules, c) == Some(rules[i].1),
        (forall|i: int| 0 <= i < rules.len() ==> rules[i].0 != c) ==> rule_for(rules, c) is None
            && rewrite_char(rules, c) == seq![c],
        rule_for(rules, c) is Some ==> exists|i: int|
            0 <= i < rules.len() && #[trigger] rules[i].0 == c && rule_for(rules, c) == Some(
                rules[i].1,
            ),
    decreases rules.len(),
{
    if rules.len() > 0 {
        let rest = rules.drop_first();
        lemma_rule_for(rest, c);
        assert forall|i: int|
            0 <= i < rules.len() && #[trigger] rules[i].0 == c && (forall|j: int|
                0 <= j < i ==> rules[j].0 != c) implies rule_for(rules, c) == Some(rules[i].1) by {
            if i > 0 {
                assert(rules[0].0 != c);
                assert(rest[i - 1] == rules[i]);
                assert forall|j: int| 0 <= j < i - 1 implies rest[j].0 != c by {
                    assert(rest[j] == rules[j + 1]);
                }
            }
        }
        if (forall|i: int| 0 <= i < rules.len() ==> rules[i].0 != c) {
            assert(rules[0].0 != c);
            assert forall|i: int| 0 <= i < rest.len() implies rest[i].0 != c by {
                assert(rest[i] == rules[i + 1]);
            }
        }
        if rule_for(rules, c) is Some {
            if rules[0].0 == c {
                assert(rules[0].0 == c);
            } else {
                let i = choose|i: int|
                    0 <= i < rest.len() && #[trigger] rest[i].0 == c && rule_for(rest, c) == Some(
                        rest[i].1,
                    );
                assert(rest[i] == rules[i + 1]);
                assert(rules[i + 1].0 == c);
            }
        }
    }
}

/// What one character becomes in one rewriting step.
pub open spec fn rewrite_char(rules: RuleSeq, c: char) -> Seq<char> {
    match rule_for(rules, c) {
        Some(r) => r,
        None => seq![c],
    }
}

/// One rewriting step: every character replaced by its rewriting.
pub open spec fn rewrite(rules: RuleSeq, s: Seq<char>) -> Seq<char>
    decreases s.len(),
{
    if s.len() == 0 {
        Seq::empty()
    } else {
        rewrite(rules, s.drop_last()) + rewrite_char(rules, s.last())
    }
}

/// A string none of whose characters any rule names is left as it is.
pub proof fn lemma_rewrite_unnamed(rules: RuleSeq, s: Seq<char>)
    requires
        forall|i: int, k: int| 0 <= i < rules.len() && 0 <= k < s.len() ==> rules[i].0 != s[k],
    ensures
        rewrite(rules, s) == s,
    decreases s.len(),
{
    if s.len() > 0 {
        let s0 = s.drop_last();
        assert forall|i: int, k: int| 0 <= i < rules.len() && 0 <= k < s0.len() implies rules[i].0
            != s0[k] by {
            assert(s0[k] == s[k]);
        }
        lemma_rewrite_unnamed(rules, s0);
        assert forall|i: int| 0 <= i < rules.len() implies rules[i].0 != s.last() by {
            assert(s.last() == s[s.len() - 1]);
        }
        lemma_rule_for(rules, s.last());
        assert(s0 + seq![s.last()] =~= s);
    }
}

/// The string after `n` rewriting steps from `start`.
pub open spec fn expansion(rules: RuleSeq, start: Seq<char>, n: nat) -> Seq<char>
    decreases n,
{
    if n == 0 {
        start
    } else {
        rewrite(rules, expansion(rules, start, (n - 1) as nat))
    }
}

/// An L-system grammar: starting string and production rules.
///
/// For example, a Koch snowflake can be defined with this L-system grammar:
///   Start: F--F--F (equilateral triangle)
///   Rule:  F -> F+F--F+F
/// Iteration 0: F--F--F
/// Iteration 1: (F+F--F+F)--(F+F--F+F)--(F+F--F+F)
pub struct Grammar {
    /// Starting string
    pub start: &'static str,
    /// Production rules: (from_char, replacement_string)
    pub rules: &'static [(char, &'static str)],
}

impl Grammar {
    /// The rules as characters and replacement sequences.
    pub open spec fn rule_seq(&self) -> RuleSeq {
        self.rules@.map_values(|r: (char, &'static str)| (r.0, r.1@))
    }

    /// The replacement string of the first rule for `ch`.
    fn find_rule(&self, ch: char) -> (r: Option<&'static str>)
        ensures
            match r {
                Some(s) => rule_for(self.rule_seq(), ch) == Some(s@),
                None => rule_for(self.rule_seq(), ch) is None,
            },
    {
        let mut i: usize = 0;
        assert(self.rule_seq().skip(0) =~= self.rule_seq());
        while i < self.rules.len()
            invariant
                i <= self.rules@.len(),
                rule_for(self.rule_seq(), ch) == rule_for(self.rule_seq().skip(i as int), ch),
            decreases self.rules@.len() - i,
        {
            let (from, to) = self.rules[i];
            let ghost rest = self.rule_seq().skip(i as int);
            assert(rest[0] == (from, to@));
            assert(rest.drop_first() =~= self.rule_seq().skip(i + 1));
            if from == ch {
                return Some(to);
            }
            i += 1;
        }
        assert(self.rule_seq().skip(i as int).len() == 0);
        None
    }

    /// One rewriting step applied to `current`.
    fn rewrite_once(&self, current: &str) -> (next: String)
        ensures
            next@ == rewrite(self.rule_seq(), current@),
    {
        let mut next = String::new();
        let ghost s = current@;
        for ch in it: current.chars()
            invariant
                it.seq() == s,
                next@ == rewrite(self.rule_seq(), s.take(it.index() as int)),
        {
            let ghost k = it.index() as int;
            proof {
                assert(s.take(k + 1).drop_last() =~= s.take(k));
                assert(s.take(k + 1).last() == ch);
            }
            match self.find_rule(ch) {
                Some(replacement) => next.append(replacement),
                None => push_char(&mut next, ch),
            }
        }
        proof {
            assert(s.take(s.len() as int) =~= s);
        }
        next
    }

    /// The string after `iterations` rewriting steps from the starting string.
    pub fn expand(&self, iterations: u32) -> (s: String)
        ensures
            s@ == expansion(self.rule_seq(), self.start@, iterations as nat),
    {
        let mut current = String::from_str(self.start);
        let mut n: u32 = 0;
        while n < iterations
            invariant
                n <= iterations,
                current@ == expansion(self.rule_seq(), self.start@, n as nat),
            decreases iterations - n,
        {
            current = self.rewrite_once(current.as_str());
            n += 1;
        }
        current
    }
}

/// Calls `String::push`, which appends one character to the string.
#[verifier::external_body]
fn push_char(s: &mut String, c: char)
    ensures
        final(s)@ == old(s)@.push(c),
{
    s.push(c)
}

// ---------------------------------------------------------------------------
// Laws of rewriting
// ---------------------------------------------------------------------------

/// Rewriting works character by character: rewriting a concatenation is the
/// concatenation of the rewritings.
pub proof fn lemma_rewrite_concat(rules: RuleSeq, a: Seq<char>, b: Seq<char>)
    ensures
        rewrite(rules, a + b) == rewrite(rules, a) + rewrite(rules, b),
    decreases b.len(),
{
    if b.len() == 0 {
        assert(a + b =~= a);
        assert(rewrite(rules, a) + rewrite(rules, b) =~= rewrite(rules, a));
    } else {
        lemma_rewrite_concat(rules, a, b.drop_last());
        assert((a + b).drop_last() =~= a + b.drop_last());
        assert((a + b).last() == b.last());
        assert(rewrite(rules, a + b) =~= rewrite(rules, a) + rewrite(rules, b));
    }
}

/// Characters without a rule are kept: a string none of whose characters has
/// a rule is its own rewriting.
pub proof fn lemma_rewrite_fixed(rules: RuleSeq, s: Seq<char>)
    requires
        forall|i: int| 0 <= i < s.len() ==> rule_for(rules, #[trigger] s[i]) is None,
    ensures
        rewrite(rules, s) == s,
    decreases s.len(),
{
    if s.len() > 0 {
        let t = s.drop_last();
        assert forall|i: int| 0 <= i < t.len() implies rule_for(rules, #[trigger] t[i]) is None by {
            assert(t[i] == s[i]);
        }
        lemma_rewrite_fixed(rules, t);
        assert(rule_for(rules, s[s.len() - 1]) is None);
        assert(rewrite(rules, s) =~= s);
    }
}

/// Expansions compose: `m` more iterations from the `n`-th expansion give the
/// `n + m`-th expansion.
pub proof fn lemma_expansion_compose(rules: RuleSeq, start: Seq<char>, n: nat, m: nat)
    ensures
        expansion(rules, expansion(rules, start, n), m) == expansion(rules, start, n + m),
    decreases m,
{
    if m > 0 {
        lemma_expansion_compose(rules, start, n, (m - 1) as nat);
        assert((n + m - 1) as nat == n + (m - 1) as nat);
    }
}

// ---------------------------------------------------------------------------
// Turtle interpretation
// ---------------------------------------------------------------------------

/// One forward step of the turtle.  Positions are numbered: position 0 is
/// the origin and step `i` creates position `i + 1`.  The step starts at
/// position `from` with heading `initial heading + turns * angle`, moves one
/// unit, and draws a line segment if `draw` is set.
pub struct TurtleMove {
    pub from: usize,
    pub turns: i128,
    pub draw: bool,
}

/// A turtle step as plain values: (from, turns, draw).
pub type MoveSpec = (int, int, bool);

impl TurtleMove {
    pub open spec fn spec_view(&self) -> MoveSpec {
        (self.from as int, self.turns as int, self.draw)
    }
}

/// The turtle: its position, its heading in turns, the saved (position,
/// turns) pairs, and the steps taken so far.
pub struct TurtleState {
    pub pos: int,
    pub turns: int,
    pub stack: Seq<(int, int)>,
    pub moves: Seq<MoveSpec>,
}

/// The turtle before any instruction.
pub open spec fn turtle_start() -> TurtleState {
    TurtleState { pos: 0, turns: 0, stack: Seq::empty(), moves: Seq::empty() }
}

/// The turtle after one instruction:
/// 'F' draw forward, 'f' move forward without drawing, '+' turn left,
/// '-' turn right, '[' push state, ']' pop state (if any); other characters
/// are ignored.
pub open spec fn turtle_step(st: TurtleState, ch: char) -> TurtleState {
    if ch == 'F' || ch == 'f' {
        TurtleState {
            pos: st.moves.len() + 1int,
            moves: st.moves.push((st.pos, st.turns, ch == 'F')),
            ..st
        }
    } else if ch == '+' {
        TurtleState { turns: st.turns + 1, ..st }
    } else if ch == '-' {
        TurtleState { turns: st.turns - 1, ..st }
    } else if ch == '[' {
        TurtleState { stack: st.stack.push((st.pos, st.turns)), ..st }
    } else if ch == ']' {
        if st.stack.len() > 0 {
            TurtleState {
                pos: st.stack.last().0,
                turns: st.stack.last().1,
                stack: st.stack.drop_last(),
                ..st
            }
        } else {
            st
        }
    } else {
        st
    }
}

/// The turtle after running `s` from the start.
pub open spec fn turtle_run(s: Seq<char>) -> TurtleState
    decreases s.len(),
{
    if s.len() == 0 {
        turtle_start()
    } else {
        turtle_step(turtle_run(s.drop_last()), s.last())
    }
}

/// Whether `c` is a step instruction.
pub open spec fn is_step(c: char) -> bool {
    c == 'F' || c == 'f'
}

/// Bounds that hold after `n` instructions.
pub open spec fn turtle_bounded(st: TurtleState, n: int) -> bool {
    &&& 0 <= st.pos <= st.moves.len() <= n
    &&& -n <= st.turns <= n
    &&& forall|i: int|
        0 <= i < st.stack.len() ==> 0 <= #[trigger] st.stack[i].0 <= st.moves.len() && -n
            <= st.stack[i].1 <= n
    &&& forall|i: int| 0 <= i < st.moves.len() ==> 0 <= #[trigger] st.moves[i].0 <= i
}

proof fn lemma_turtle_bounded(s: Seq<char>)
    ensures
        turtle_bounded(turtle_run(s), s.len() as int),
    decreases s.len(),
{
    if s.len() > 0 {
        lemma_turtle_bounded(s.drop_last());
        let st = turtle_run(s.drop_last());
        let st2 = turtle_run(s);
        if s.last() == ']' && st.stack.len() > 0 {
            assert(st.stack[st.stack.len() - 1].0 <= st.moves.len());
        }
        if s.last() == '[' {
            assert forall|i: int| 0 <= i < st2.stack.len() implies 0 <= #[trigger] st2.stack[i].0
                <= st2.moves.len() && -(s.len() as int) <= st2.stack[i].1 <= s.len() by {
                if i < st.stack.len() {
                    assert(st2.stack[i] == st.stack[i]);
                }
            }
        }
        if s.last() == ']' && st.stack.len() > 0 {
            assert forall|i: int| 0 <= i < st2.stack.len() implies 0 <= #[trigger] st2.stack[i].0
                <= st2.moves.len() && -(s.len() as int) <= st2.stack[i].1 <= s.len() by {
                assert(st2.stack[i] == st.stack[i]);
            }
        }
        if is_step(s.last()) {
            assert forall|i: int| 0 <= i < st2.moves.len() implies 0 <= #[trigger] st2.moves[i].0
                <= i by {
                if i < st.moves.len() {
                    assert(st2.moves[i] == st.moves[i]);
                }
            }
        }
    }
}

/// Interpret the L-system string as turtle graphics commands.
/// Returns the turtle's forward steps; those with `draw` set are the line
/// segments of the figure.
pub fn turtle_moves(instructions: &str) -> (moves: Vec<TurtleMove>)
    ensures
        moves@.len() == turtle_run(instructions@).moves.len(),
        forall|i: int|
            0 <= i < moves@.len() ==> #[trigger] moves@[i].spec_view() == turtle_run(
                instructions@,
            ).moves[i],
        forall|i: int| 0 <= i < moves@.len() ==> #[trigger] moves@[i].from <= i,
{
    let ghost s = instructions@;
    let mut moves: Vec<TurtleMove> = Vec::new();
    let mut pos: usize = 0;
    let mut turns: i128 = 0;
    let mut stack: Vec<(usize, i128)> = Vec::new();
    let n = instructions.unicode_len();
    for ch in it: instructions.chars()
        invariant
            it.seq() == s,
            s.len() == n,
            ({
                let st = turtle_run(s.take(it.index() as int));
                &&& pos == st.pos
                &&& turns == st.turns
                &&& stack@.len() == st.stack.len()
                &&& forall|i: int|
                    0 <= i < stack@.len() ==> (#[trigger] stack@[i].0 as int, stack@[i].1 as int)
                        == st.stack[i]
                &&& moves@.len() == st.moves.len()
                &&& forall|i: int|
                    0 <= i < moves@.len() ==> #[trigger] moves@[i].spec_view() == st.moves[i]
                &&& turtle_bounded(st, it.index() as int)
            }),
    {
        let ghost k = it.index() as int;
        let ghost before = turtle_run(s.take(k));
        proof {
            assert(s.take(k + 1).drop_last() =~= s.take(k));
            assert(s.take(k + 1).last() == ch);
            lemma_turtle_bounded(s.take(k + 1));
            assert(k + 1 <= usize::MAX);
        }
        let ghost stack_before = stack@;
        let ghost moves_before = moves@;
        if ch == 'F' || ch == 'f' {
            moves.push(TurtleMove { from: pos, turns, draw: ch == 'F' });
            pos = moves.len();
            proof {
                assert forall|i: int| 0 <= i < moves@.len() implies #[trigger] moves@[i].spec_view()
                    == turtle_run(s.take(k + 1)).moves[i] by {
                    if i < moves_before.len() {
                        assert(moves@[i] == moves_before[i]);
                    }
                }
            }
        } else if ch == '+' {
            turns = turns + 1;
        } else if ch == '-' {
            turns = turns - 1;
        } else if ch == '[' {
            stack.push((pos, turns));
            proof {
                assert forall|i: int| 0 <= i < stack@.len() implies (
                #[trigger] stack@[i].0 as int, stack@[i].1 as int) == turtle_run(
                    s.take(k + 1),
                ).stack[i] by {
                    if i < stack_before.len() {
                        assert(stack@[i] == stack_before[i]);
                    }
                }
            }
        } else if ch == ']' {
            if let Some((saved_pos, saved_turns)) = stack.pop() {
                pos = saved_pos;
                turns = saved_turns;
                proof {
                    assert(stack_before[stack_before.len() - 1] == (saved_pos, saved_turns));
                    assert forall|i: int| 0 <= i < stack@.len() implies (
                    #[trigger] stack@[i].0 as int, stack@[i].1 as int) == turtle_run(
                        s.take(k + 1),
                    ).stack[i] by {
                        assert(stack@[i] == stack_before[i]);
                    }
                }
            }
        }
    }
    proof {
        assert(s.take(s.len() as int) =~= s);
        lemma_turtle_bounded(s);
        assert forall|i: int| 0 <= i < moves@.len() implies #[trigger] moves@[i].from <= i by {
            assert(moves@[i].spec_view() == turtle_run(s).moves[i]);
            assert(turtle_run(s).moves[i].0 <= i);
        }
    }
    moves
}

/// Number of step instructions in `s`.
pub open spec fn count_steps(s: Seq<char>, draw_only: bool) -> nat
    decreases s.len(),
{
    if s.len() == 0 {
        0
    } else {
        count_steps(s.drop_last(), draw_only) + if s.last() == 'F' || (!draw_only && s.last()
            == 'f') {
            1nat
        } else {
            0nat
        }
    }
}

/// Number of drawing steps among `moves`.
pub open spec fn count_draws(moves: Seq<MoveSpec>) -> nat
    decreases moves.len(),
{
    if moves.len() == 0 {
        0
    } else {
        count_draws(moves.drop_last()) + if moves.last().2 {
            1nat
        } else {
            0nat
        }
    }
}

/// The turtle takes one step per 'F' or 'f' and draws one segment per 'F'.
pub proof fn lemma_turtle_counts(s: Seq<char>)
    ensures
        turtle_run(s).moves.len() == count_steps(s, false),
        count_draws(turtle_run(s).moves) == count_steps(s, true),
    decreases s.len(),
{
    if s.len() > 0 {
        lemma_turtle_counts(s.drop_last());
        let st = turtle_run(s.drop_last());
        let st2 = turtle_run(s);
        if is_step(s.last()) {
            assert(st2.moves.drop_last() =~= st.moves);
        } else {
            assert(st2.moves == st.moves);
        }
    }
}

/// The number of `+` minus the number of `-` in `s`.
pub open spec fn net_turns(s: Seq<char>) -> int
    decreases s.len(),
{
    if s.len() == 0 {
        0
    } else {
        net_turns(s.drop_last()) + if s.last() == '+' {
            1int
        } else if s.last() == '-' {
            -1int
        } else {
            0int
        }
    }
}

/// Without brackets the turtle walks one path: each step starts where the
/// previous one ended (the first at the origin), so step `i` starts at
/// position `i` and the turtle ends at the last position; its heading is
/// the number of `+` minus the number of `-` (`+` turns left, `-` right).
pub proof fn lemma_unbranched(s: Seq<char>)
    requires
        forall|k: int| 0 <= k < s.len() ==> #[trigger] s[k] != '[' && s[k] != ']',
    ensures
        turtle_run(s).turns == net_turns(s),
        turtle_run(s).pos == turtle_run(s).moves.len(),
        turtle_run(s).stack.len() == 0,
        forall|i: int| 0 <= i < turtle_run(s).moves.len() ==> #[trigger] turtle_run(s).moves[i].0 == i,
    decreases s.len(),
{
    if s.len() > 0 {
        let s0 = s.drop_last();
        assert forall|k: int| 0 <= k < s0.len() implies #[trigger] s0[k] != '[' && s0[k] != ']' by {
            assert(s0[k] == s[k]);
        }
        lemma_unbranched(s0);
        assert(s.last() == s[s.len() - 1]);
        let st = turtle_run(s0);
        let st2 = turtle_run(s);
        assert forall|i: int| 0 <= i < st2.moves.len() implies #[trigger] st2.moves[i].0 == i by {
            if i < st.moves.len() {
                assert(st2.moves[i] == st.moves[i]);
            }
        }
    }
}

/// Brackets restore the turtle: running `[`, then any instructions whose own
/// brackets are balanced, then `]` leaves the turtle where and as it was,
/// with the steps in between added.
pub proof fn lemma_bracket_restores(s: Seq<char>, t: Seq<char>)
    requires
        balanced(t),
    ensures
        turtle_run(s + seq!['['] + t + seq![']']).pos == turtle_run(s).pos,
        turtle_run(s + seq!['['] + t + seq![']']).turns == turtle_run(s).turns,
        turtle_run(s + seq!['['] + t + seq![']']).stack == turtle_run(s).stack,
{
    let s1 = s + seq!['['];
    assert(s1.drop_last() =~= s);
    lemma_balanced_keeps_stack(s1, t);
    let u = s1 + t + seq![']'];
    assert(u.drop_last() =~= s1 + t);
    assert(s + seq!['['] + t + seq![']'] =~= u);
    assert(turtle_run(s1).stack.drop_last() =~= turtle_run(s).stack);
}

/// `st2` is `st1` with `saved` inserted on its stack just above `base`: same
/// position, heading and steps.
pub open spec fn framed(
    st1: TurtleState,
    st2: TurtleState,
    base: Seq<(int, int)>,
    saved: (int, int),
) -> bool {
    &&& st1.pos == st2.pos
    &&& st1.turns == st2.turns
    &&& st1.moves == st2.moves
    &&& base.len() <= st1.stack.len()
    &&& st1.stack.take(base.len() as int) == base
    &&& st2.stack == base.push(saved) + st1.stack.skip(base.len() as int)
}

proof fn lemma_framed_step(
    st1: TurtleState,
    st2: TurtleState,
    base: Seq<(int, int)>,
    saved: (int, int),
    ch: char,
)
    requires
        framed(st1, st2, base, saved),
        ch == ']' ==> st1.stack.len() > base.len(),
    ensures
        framed(turtle_step(st1, ch), turtle_step(st2, ch), base, saved),
{
    let n1 = turtle_step(st1, ch);
    let n2 = turtle_step(st2, ch);
    let b = base.len() as int;
    if ch == '[' {
        assert(n1.stack.take(b) =~= st1.stack.take(b));
        assert(n2.stack =~= base.push(saved) + n1.stack.skip(b));
    } else if ch == ']' {
        assert(st2.stack.last() == st1.stack.last());
        assert(n1.stack.take(b) =~= st1.stack.take(b));
        assert(n2.stack =~= base.push(saved) + n1.stack.skip(b));
    }
}

proof fn lemma_framed_run(
    a1: Seq<char>,
    a2: Seq<char>,
    t: Seq<char>,
    base: Seq<(int, int)>,
    saved: (int, int),
)
    requires
        framed(turtle_run(a1), turtle_run(a2), base, saved),
        turtle_run(a1).stack.len() == base.len(),
        never_below(t),
    ensures
        framed(turtle_run(a1 + t), turtle_run(a2 + t), base, saved),
    decreases t.len(),
{
    if t.len() == 0 {
        assert(a1 + t =~= a1);
        assert(a2 + t =~= a2);
    } else {
        let t0 = t.drop_last();
        assert forall|i: int| 0 <= i <= t0.len() implies bracket_depth(#[trigger] t0.take(i))
            >= 0 by {
            assert(t0.take(i) =~= t.take(i));
        }
        lemma_framed_run(a1, a2, t0, base, saved);
        assert((a1 + t).drop_last() =~= a1 + t0);
        assert((a2 + t).drop_last() =~= a2 + t0);
        assert((a1 + t).last() == t.last());
        assert((a2 + t).last() == t.last());
        lemma_depth_stack(a1, t0);
        assert(t.take(t.len() as int) =~= t);
        assert(bracket_depth(t) >= 0);
        lemma_framed_step(turtle_run(a1 + t0), turtle_run(a2 + t0), base, saved, t.last());
    }
}

/// `[` only saves the turtle: it keeps the position, the heading and the
/// steps taken, and pushes (position, heading) on the stack.  So a branch
/// `[t]` (with `t` balanced) after any `s` takes exactly the steps that `t`
/// takes right after `s` (starting where and as the turtle stands), and then
/// the turtle is back where and as it was after `s`.
pub proof fn lemma_branch_moves(s: Seq<char>, t: Seq<char>)
    requires
        balanced(t),
    ensures
        turtle_run(s.push('[')).pos == turtle_run(s).pos,
        turtle_run(s.push('[')).turns == turtle_run(s).turns,
        turtle_run(s.push('[')).moves == turtle_run(s).moves,
        turtle_run(s.push('[')).stack == turtle_run(s).stack.push(
            (turtle_run(s).pos, turtle_run(s).turns),
        ),
        turtle_run(s + seq!['['] + t + seq![']']).moves == turtle_run(s + t).moves,
        turtle_run(s + seq!['['] + t + seq![']']).pos == turtle_run(s).pos,
        turtle_run(s + seq!['['] + t + seq![']']).turns == turtle_run(s).turns,
{
    let s1 = s + seq!['['];
    assert(s.push('[') =~= s1);
    assert(s1.drop_last() =~= s);
    let st = turtle_run(s);
    let base = st.stack;
    let saved = (st.pos, st.turns);
    assert(st.stack.take(base.len() as int) =~= base);
    assert(turtle_run(s1).stack =~= base.push(saved) + st.stack.skip(base.len() as int));
    lemma_framed_run(s, s1, t, base, saved);
    let u = s1 + t + seq![']'];
    assert(u.drop_last() =~= s1 + t);
    assert(s + seq!['['] + t + seq![']'] =~= u);
    lemma_bracket_restores(s, t);
}

/// `s` with instruction `c` then `t`.
pub open spec fn with_step(s: Seq<char>, c: char, t: Seq<char>) -> Seq<char> {
    s + seq![c] + t
}

/// The two runs agree except that step `n` draws in one and not the other.
pub open spec fn same_but_pen(st1: TurtleState, st2: TurtleState, n: int) -> bool {
    &&& st1.pos == st2.pos
    &&& st1.turns == st2.turns
    &&& st1.stack == st2.stack
    &&& st1.moves.len() == st2.moves.len()
    &&& 0 <= n < st1.moves.len()
    &&& forall|i: int|
        0 <= i < st1.moves.len() ==> (#[trigger] st1.moves[i]).0 == st2.moves[i].0
            && st1.moves[i].1 == st2.moves[i].1 && (i != n ==> st1.moves[i].2 == st2.moves[i].2)
}

proof fn lemma_same_but_pen_run(a1: Seq<char>, a2: Seq<char>, t: Seq<char>, n: int)
    requires
        same_but_pen(turtle_run(a1), turtle_run(a2), n),
    ensures
        same_but_pen(turtle_run(a1 + t), turtle_run(a2 + t), n),
        turtle_run(a1 + t).moves[n] == turtle_run(a1).moves[n],
        turtle_run(a2 + t).moves[n] == turtle_run(a2).moves[n],
    decreases t.len(),
{
    if t.len() == 0 {
        assert(a1 + t =~= a1);
        assert(a2 + t =~= a2);
    } else {
        let t0 = t.drop_last();
        lemma_same_but_pen_run(a1, a2, t0, n);
        assert((a1 + t).drop_last() =~= a1 + t0);
        assert((a2 + t).drop_last() =~= a2 + t0);
        assert((a1 + t).last() == t.last());
        assert((a2 + t).last() == t.last());
        let p1 = turtle_run(a1 + t0);
        let p2 = turtle_run(a2 + t0);
        let q1 = turtle_run(a1 + t);
        let q2 = turtle_run(a2 + t);
        if t.last() == 'F' || t.last() == 'f' {
            assert(q1.moves[n] == p1.moves[n]);
            assert(q2.moves[n] == p2.moves[n]);
            assert forall|i: int| 0 <= i < q1.moves.len() implies (#[trigger] q1.moves[i]).0
                == q2.moves[i].0 && q1.moves[i].1 == q2.moves[i].1 && (i != n ==> q1.moves[i].2
                == q2.moves[i].2) by {
                if i < p1.moves.len() {
                    assert(q1.moves[i] == p1.moves[i]);
                    assert(q2.moves[i] == p2.moves[i]);
                }
            }
        }
    }
}

/// `f` moves exactly like `F` and only lifts the pen: the runs of `s f t`
/// and `s F t` stand at the same position with the same heading and stack,
/// take the same steps from the same positions with the same headings, and
/// differ only in that the step of the `f` draws nothing.  And a step of
/// either kind leaves the turtle at the position it creates.
pub proof fn lemma_pen_up(s: Seq<char>, t: Seq<char>)
    ensures
        turtle_run(s.push('f')).pos == turtle_run(s).moves.len() + 1,
        turtle_run(s.push('F')).pos == turtle_run(s).moves.len() + 1,
        ({
            let rf = turtle_run(with_step(s, 'f', t));
            let rd = turtle_run(with_step(s, 'F', t));
            let n = turtle_run(s).moves.len() as int;
            &&& rf.pos == rd.pos
            &&& rf.turns == rd.turns
            &&& rf.stack == rd.stack
            &&& rf.moves.len() == rd.moves.len()
            &&& n < rf.moves.len()
            &&& !rf.moves[n].2
            &&& rd.moves[n].2
            &&& forall|i: int|
                0 <= i < rf.moves.len() ==> (#[trigger] rf.moves[i]).0 == rd.moves[i].0
                    && rf.moves[i].1 == rd.moves[i].1 && (i != n ==> rf.moves[i].2
                    == rd.moves[i].2)
        }),
{
    let sf = s.push('f');
    let sd = s.push('F');
    assert(sf.drop_last() =~= s);
    assert(sd.drop_last() =~= s);
    let n = turtle_run(s).moves.len() as int;
    let a = turtle_run(sf);
    let b = turtle_run(sd);
    assert forall|i: int| 0 <= i < a.moves.len() implies (#[trigger] a.moves[i]).0 == b.moves[i].0
        && a.moves[i].1 == b.moves[i].1 && (i != n ==> a.moves[i].2 == b.moves[i].2) by {}
    lemma_same_but_pen_run(sf, sd, t, n);
    assert(with_step(s, 'f', t) =~= sf + t);
    assert(with_step(s, 'F', t) =~= sd + t);
}

// ---------------------------------------------------------------------------
// Brackets and the steps of the turtle
// ---------------------------------------------------------------------------

/// Position `p` renumbered after `nb` earlier steps: the origin stays 0,
/// every later position moves up by `nb`.
pub open spec fn shift_pos(nb: int, p: int) -> int {
    if p == 0 {
        0
    } else {
        p + nb
    }
}

/// A step renumbered after `nb` earlier steps.
pub open spec fn shift_move(nb: int, m: MoveSpec) -> MoveSpec {
    (shift_pos(nb, m.0), m.1, m.2)
}

/// The steps `moves` renumbered after `nb` earlier steps.
pub open spec fn shift_moves(nb: int, moves: Seq<MoveSpec>) -> Seq<MoveSpec> {
    moves.map_values(|m: MoveSpec| shift_move(nb, m))
}

/// A saved stack renumbered after `nb` earlier steps.
pub open spec fn shift_stack(nb: int, stack: Seq<(int, int)>) -> Seq<(int, int)> {
    stack.map_values(|e: (int, int)| (shift_pos(nb, e.0), e.1))
}

/// `st2` is `st1` run after `pre` (of `nb` steps) and with `bottom` saved
/// below its stack: same heading, positions renumbered, steps appended.
pub open spec fn simulates(
    st1: TurtleState,
    st2: TurtleState,
    nb: int,
    pre: Seq<MoveSpec>,
    bottom: Seq<(int, int)>,
) -> bool {
    &&& nb >= 0
    &&& pre.len() == nb
    &&& st1.pos >= 0
    &&& st2.pos == shift_pos(nb, st1.pos)
    &&& st2.turns == st1.turns
    &&& st2.stack == bottom + shift_stack(nb, st1.stack)
    &&& st2.moves == pre + shift_moves(nb, st1.moves)
}

proof fn lemma_simulates_step(
    st1: TurtleState,
    st2: TurtleState,
    nb: int,
    pre: Seq<MoveSpec>,
    bottom: Seq<(int, int)>,
    ch: char,
)
    requires
        simulates(st1, st2, nb, pre, bottom),
        forall|i: int| 0 <= i < st1.stack.len() ==> #[trigger] st1.stack[i].0 >= 0,
        bottom.len() == 0 || ch != ']' || st1.stack.len() > 0,
    ensures
        simulates(turtle_step(st1, ch), turtle_step(st2, ch), nb, pre, bottom),
        forall|i: int|
            0 <= i < turtle_step(st1, ch).stack.len() ==> #[trigger] turtle_step(
                st1,
                ch,
            ).stack[i].0 >= 0,
{
    let n1 = turtle_step(st1, ch);
    let n2 = turtle_step(st2, ch);
    if ch == 'F' || ch == 'f' {
        assert(shift_pos(nb, st1.moves.len() + 1int) == st2.moves.len() + 1);
        assert(n2.moves =~= pre + shift_moves(nb, n1.moves));
    } else if ch == '[' {
        assert(n2.stack =~= bottom + shift_stack(nb, n1.stack));
    } else if ch == ']' {
        if st1.stack.len() > 0 {
            let top = st1.stack.last();
            assert(st2.stack.last() == (shift_pos(nb, top.0), top.1));
            assert(n2.stack =~= bottom + shift_stack(nb, n1.stack));
        } else {
            assert(bottom.len() == 0);
            assert(st2.stack =~= Seq::<(int, int)>::empty());
        }
    }
}

/// Running the same instructions keeps the simulation, as long as they never
/// reach into `bottom`.
proof fn lemma_simulates_run(
    a1: Seq<char>,
    a2: Seq<char>,
    c: Seq<char>,
    nb: int,
    pre: Seq<MoveSpec>,
    bottom: Seq<(int, int)>,
)
    requires
        simulates(turtle_run(a1), turtle_run(a2), nb, pre, bottom),
        forall|i: int|
            0 <= i < turtle_run(a1).stack.len() ==> #[trigger] turtle_run(a1).stack[i].0 >= 0,
        bottom.len() == 0 || (turtle_run(a1).stack.len() == 0 && never_below(c)),
    ensures
        simulates(turtle_run(a1 + c), turtle_run(a2 + c), nb, pre, bottom),
        forall|i: int|
            0 <= i < turtle_run(a1 + c).stack.len() ==> #[trigger] turtle_run(a1 + c).stack[i].0
                >= 0,
    decreases c.len(),
{
    if c.len() == 0 {
        assert(a1 + c =~= a1);
        assert(a2 + c =~= a2);
    } else {
        let c0 = c.drop_last();
        if bottom.len() > 0 {
            assert forall|i: int| 0 <= i <= c0.len() implies bracket_depth(#[trigger] c0.take(i))
                >= 0 by {
                assert(c0.take(i) =~= c.take(i));
            }
        }
        lemma_simulates_run(a1, a2, c0, nb, pre, bottom);
        assert((a1 + c).drop_last() =~= a1 + c0);
        assert((a2 + c).drop_last() =~= a2 + c0);
        assert((a1 + c).last() == c.last());
        assert((a2 + c).last() == c.last());
        if bottom.len() > 0 && c.last() == ']' {
            lemma_depth_stack(a1, c0);
            assert(c.take(c.len() as int) =~= c);
            assert(c.drop_last() == c0);
        }
        lemma_simulates_step(turtle_run(a1 + c0), turtle_run(a2 + c0), nb, pre, bottom, c.last());
    }
}

proof fn lemma_identity_shift(st: TurtleState)
    ensures
        shift_stack(0, st.stack) == st.stack,
        shift_moves(0, st.moves) == st.moves,
{
    assert(shift_stack(0, st.stack) =~= st.stack);
    assert(shift_moves(0, st.moves) =~= st.moves);
}

/// Brackets on turtle output: after `[b]` with `b` balanced, the turtle is
/// back at the origin with its initial heading, having taken exactly the
/// steps of `b`; the steps of a following `c` are those of `c` alone, with
/// the positions that `c` creates numbered after those of `b` (the origin
/// keeps number 0).  So the segments of `[b]c` are those of `b` followed by
/// those of `c`.
pub proof fn lemma_bracket_moves(b: Seq<char>, c: Seq<char>)
    requires
        balanced(b),
    ensures
        turtle_run(seq!['['] + b + seq![']'] + c).moves == turtle_run(b).moves + shift_moves(
            turtle_run(b).moves.len() as int,
            turtle_run(c).moves,
        ),
        turtle_run(seq!['['] + b + seq![']'] + c).turns == turtle_run(c).turns,
        turtle_run(seq!['['] + b + seq![']'] + c).pos == shift_pos(
            turtle_run(b).moves.len() as int,
            turtle_run(c).pos,
        ),
{
    let e = Seq::<char>::empty();
    let open = seq!['['];
    assert(open.drop_last() =~= e);
    let st0 = turtle_run(e);
    let st_open = turtle_run(open);
    let bottom = seq![(0int, 0int)];
    assert(st_open.stack =~= bottom + shift_stack(0, st0.stack));
    assert(st_open.moves =~= Seq::<MoveSpec>::empty() + shift_moves(0, st0.moves));
    assert(simulates(st0, st_open, 0, Seq::empty(), bottom));
    assert(never_below(b));
    lemma_simulates_run(e, open, b, 0, Seq::empty(), bottom);
    assert(e + b =~= b);
    let sb = turtle_run(b);
    let s1 = turtle_run(open + b);
    lemma_depth_stack(e, b);
    assert(sb.stack.len() == 0);
    assert(shift_stack(0, sb.stack) =~= Seq::<(int, int)>::empty());
    assert(s1.stack =~= bottom);
    lemma_identity_shift(sb);
    let pre_str = open + b + seq![']'];
    assert(pre_str.drop_last() =~= open + b);
    let s2 = turtle_run(pre_str);
    assert(s2.pos == 0 && s2.turns == 0 && s2.stack.len() == 0);
    assert(s2.moves == sb.moves);
    let nb = sb.moves.len() as int;
    assert(shift_stack(nb, st0.stack) =~= Seq::<(int, int)>::empty());
    assert(shift_moves(nb, st0.moves) =~= Seq::<MoveSpec>::empty());
    assert(s2.stack =~= Seq::<(int, int)>::empty() + shift_stack(nb, st0.stack));
    assert(s2.moves =~= sb.moves + shift_moves(nb, st0.moves));
    assert(simulates(st0, s2, nb, sb.moves, Seq::empty()));
    lemma_simulates_run(e, pre_str, c, nb, sb.moves, Seq::empty());
    assert(e + c =~= c);
}

/// A `]` with nothing saved is ignored: `]c` leaves the turtle as `c` does.
pub proof fn lemma_unmatched_pop(c: Seq<char>)
    ensures
        turtle_run(seq![']'] + c) == turtle_run(c),
{
    let e = Seq::<char>::empty();
    let close = seq![']'];
    assert(close.drop_last() =~= e);
    let st0 = turtle_run(e);
    assert(turtle_run(close) == st0);
    lemma_identity_shift(st0);
    assert(st0.stack =~= Seq::<(int, int)>::empty() + shift_stack(0, st0.stack));
    assert(st0.moves =~= Seq::<MoveSpec>::empty() + shift_moves(0, st0.moves));
    lemma_simulates_run(e, close, c, 0, Seq::empty(), Seq::empty());
    assert(e + c =~= c);
    let t1 = turtle_run(c);
    let t2 = turtle_run(close + c);
    lemma_identity_shift(t1);
    assert(t2.stack =~= t1.stack);
    assert(t2.moves =~= t1.moves);
}

// ---------------------------------------------------------------------------
// The figure drawn by the steps
// ---------------------------------------------------------------------------

/// A point of the plane.
pub type Point = (int, int);

/// Each step starts at an earlier position: step `i` starts at a position
/// `<= i`.
pub open spec fn moves_valid(moves: Seq<MoveSpec>) -> bool {
    forall|i: int| 0 <= i < moves.len() ==> 0 <= #[trigger] moves[i].0 <= i
}

/// Where position `p` lies when a step with heading `t` (in turns) moves the
/// turtle by `dir(t)`: the origin is position 0, and step `p - 1` leads from
/// the position it starts at to position `p`.
pub open spec fn figure_point(moves: Seq<MoveSpec>, p: int, dir: spec_fn(int) -> Point) -> Point
    decreases p,
{
    if p <= 0 || p > moves.len() {
        (0, 0)
    } else {
        let m = moves[p - 1];
        let base = if 0 <= m.0 < p {
            figure_point(moves, m.0, dir)
        } else {
            (0, 0)
        };
        (base.0 + dir(m.1).0, base.1 + dir(m.1).1)
    }
}

/// The line segments drawn by the first `n` steps, in order.
pub open spec fn figure_segments(moves: Seq<MoveSpec>, n: nat, dir: spec_fn(int) -> Point) -> Seq<
    (Point, Point),
>
    decreases n,
{
    if n == 0 {
        Seq::empty()
    } else {
        let m = moves[n - 1];
        let rest = figure_segments(moves, (n - 1) as nat, dir);
        if m.2 {
            rest.push((figure_point(moves, m.0, dir), figure_point(moves, n as int, dir)))
        } else {
            rest
        }
    }
}

/// The line segments of the figure that the instructions `s` draw.
pub open spec fn turtle_segments(s: Seq<char>, dir: spec_fn(int) -> Point) -> Seq<(Point, Point)> {
    figure_segments(turtle_run(s).moves, turtle_run(s).moves.len(), dir)
}

proof fn lemma_point_prefix(a: Seq<MoveSpec>, x: Seq<MoveSpec>, p: int, dir: spec_fn(int) -> Point)
    requires
        0 <= p <= a.len(),
    ensures
        figure_point(a + x, p, dir) == figure_point(a, p, dir),
    decreases p,
{
    if p > 0 {
        let m = a[p - 1];
        assert((a + x)[p - 1] == m);
        if 0 <= m.0 < p {
            lemma_point_prefix(a, x, m.0, dir);
        }
    }
}

proof fn lemma_segments_prefix(
    a: Seq<MoveSpec>,
    x: Seq<MoveSpec>,
    n: nat,
    dir: spec_fn(int) -> Point,
)
    requires
        moves_valid(a),
        n <= a.len(),
    ensures
        figure_segments(a + x, n, dir) == figure_segments(a, n, dir),
    decreases n,
{
    if n > 0 {
        lemma_segments_prefix(a, x, (n - 1) as nat, dir);
        let m = a[n - 1];
        assert((a + x)[n - 1] == m);
        lemma_point_prefix(a, x, m.0, dir);
        lemma_point_prefix(a, x, n as int, dir);
    }
}

/// The positions of `mc` appended, renumbered, after the `nb` steps of `mb`
/// lie where they lie in `mc` alone.
proof fn lemma_point_shift(
    mb: Seq<MoveSpec>,
    mc: Seq<MoveSpec>,
    p: int,
    dir: spec_fn(int) -> Point,
)
    requires
        moves_valid(mc),
        0 <= p <= mc.len(),
    ensures
        figure_point(mb + shift_moves(mb.len() as int, mc), shift_pos(mb.len() as int, p), dir)
            == figure_point(mc, p, dir),
    decreases p,
{
    let nb = mb.len() as int;
    let all = mb + shift_moves(nb, mc);
    if p > 0 {
        let m = mc[p - 1];
        assert(0 <= m.0 <= p - 1);
        assert(all[p + nb - 1] == shift_move(nb, m));
        lemma_point_shift(mb, mc, m.0, dir);
    }
}

proof fn lemma_segments_shift(
    mb: Seq<MoveSpec>,
    mc: Seq<MoveSpec>,
    k: nat,
    dir: spec_fn(int) -> Point,
)
    requires
        moves_valid(mb),
        moves_valid(mc),
        k <= mc.len(),
    ensures
        figure_segments(mb + shift_moves(mb.len() as int, mc), mb.len() + k, dir)
            == figure_segments(mb, mb.len(), dir) + figure_segments(mc, k, dir),
    decreases k,
{
    let nb = mb.len() as int;
    let all = mb + shift_moves(nb, mc);
    if k == 0 {
        lemma_segments_prefix(mb, shift_moves(nb, mc), mb.len(), dir);
        assert(figure_segments(mc, 0, dir) =~= Seq::empty());
        assert(figure_segments(mb, mb.len(), dir) + figure_segments(mc, 0, dir) =~= figure_segments(
            mb,
            mb.len(),
            dir,
        ));
    } else {
        lemma_segments_shift(mb, mc, (k - 1) as nat, dir);
        let m = mc[k - 1];
        assert(0 <= m.0 <= k - 1);
        assert(all[nb + k - 1] == shift_move(nb, m));
        lemma_point_shift(mb, mc, m.0, dir);
        lemma_point_shift(mb, mc, k as int, dir);
        assert(shift_pos(nb, k as int) == nb + k);
        let head = figure_segments(mb, mb.len(), dir);
        let tail = figure_segments(mc, (k - 1) as nat, dir);
        if m.2 {
            let seg = (figure_point(mc, m.0, dir), figure_point(mc, k as int, dir));
            assert((head + tail).push(seg) =~= head + tail.push(seg));
        }
    }
}

/// Brackets on the drawn figure, whatever displacement `dir(t)` a step with
/// heading `t` makes: for `b` with balanced brackets, `[b]c` draws the
/// segments of `b` followed by those of `c`, since `]` brings the turtle
/// back to where `[` found it; and `]c`, with nothing saved, draws what `c`
/// draws.
pub proof fn lemma_bracket_segments(b: Seq<char>, c: Seq<char>, dir: spec_fn(int) -> Point)
    requires
        balanced(b),
    ensures
        turtle_segments(seq!['['] + b + seq![']'] + c, dir) == turtle_segments(b, dir)
            + turtle_segments(c, dir),
        turtle_segments(seq![']'] + c, dir) == turtle_segments(c, dir),
{
    lemma_bracket_moves(b, c);
    lemma_unmatched_pop(c);
    lemma_turtle_bounded(b);
    lemma_turtle_bounded(c);
    let mb = turtle_run(b).moves;
    let mc = turtle_run(c).moves;
    lemma_segments_shift(mb, mc, mc.len(), dir);
}

/// Depth of unmatched '[' minus unmatched ']' ... a string is balanced when
/// its bracket depth never goes below zero and ends at zero.
pub open spec fn bracket_depth(t: Seq<char>) -> int
    decreases t.len(),
{
    if t.len() == 0 {
        0
    } else {
        bracket_depth(t.drop_last()) + if t.last() == '[' {
            1int
        } else if t.last() == ']' {
            -1int
        } else {
            0int
        }
    }
}

/// Every prefix has non-negative bracket depth.
pub open spec fn never_below(t: Seq<char>) -> bool {
    forall|i: int| 0 <= i <= t.len() ==> bracket_depth(#[trigger] t.take(i)) >= 0
}

pub open spec fn balanced(t: Seq<char>) -> bool {
    never_below(t) && bracket_depth(t) == 0
}

/// Running instructions with never-negative bracket depth `d` on top of a
/// stack only grows it by `d` entries and keeps the entries below.
proof fn lemma_depth_stack(s: Seq<char>, t: Seq<char>)
    requires
        never_below(t),
    ensures
        turtle_run(s + t).stack.len() == turtle_run(s).stack.len() + bracket_depth(t),
        turtle_run(s + t).stack.take(turtle_run(s).stack.len() as int) == turtle_run(s).stack,
    decreases t.len(),
{
    if t.len() == 0 {
        assert(s + t =~= s);
        assert(turtle_run(s).stack.take(turtle_run(s).stack.len() as int) =~= turtle_run(s).stack);
    } else {
        let t0 = t.drop_last();
        assert forall|i: int| 0 <= i <= t0.len() implies bracket_depth(#[trigger] t0.take(i))
            >= 0 by {
            assert(t0.take(i) =~= t.take(i));
        }
        assert(t.take(t.len() as int) =~= t);
        assert(t.take(t0.len() as int) =~= t0);
        lemma_depth_stack(s, t0);
        assert((s + t).drop_last() =~= s + t0);
        assert((s + t).last() == t.last());
        let base = turtle_run(s).stack;
        let st = turtle_run(s + t0);
        let st2 = turtle_run(s + t);
        if t.last() == ']' {
            assert(bracket_depth(t) >= 0);
            assert(st.stack.len() > base.len());
            assert(st2.stack =~= st.stack.drop_last());
            assert(st2.stack.take(base.len() as int) =~= st.stack.take(base.len() as int));
        } else if t.last() == '[' {
            assert(st2.stack.take(base.len() as int) =~= st.stack.take(base.len() as int));
        }
    }
}

/// Balanced instructions leave the stack as they found it.
proof fn lemma_balanced_keeps_stack(s: Seq<char>, t: Seq<char>)
    requires
        balanced(t),
    ensures
        turtle_run(s + t).stack == turtle_run(s).stack,
{
    lemma_depth_stack(s, t);
    assert(turtle_run(s + t).stack =~= turtle_run(s + t).stack.take(
        turtle_run(s).stack.len() as int,
    ));
}

// ---------------------------------------------------------------------------
// Iteration depth
// ---------------------------------------------------------------------------

/// The iteration depth shown by an L-system view, changed with `[` and `]`.
pub struct IterationDepth {
    pub iterations: u32,
    pub max_iterations: u32,
}

impl IterationDepth {
    pub fn new(iterations: u32, max_iterations: u32) -> (d: Self)
        ensures
            d.iterations == iterations,
            d.max_iterations == max_iterations,
    {
        IterationDepth { iterations, max_iterations }
    }

    /// One iteration fewer, unless already at 0.  Returns whether the depth changed.
    pub fn decrease(&mut self) -> (changed: bool)
        ensures
            changed == (old(self).iterations > 0),
            final(self).iterations == if changed {
                old(self).iterations - 1
            } else {
                old(self).iterations as int
            },
            final(self).max_iterations == old(self).max_iterations,
    {
        if self.iterations > 0 {
            self.iterations -= 1;
            true
        } else {
            false
        }
    }

    /// One iteration more, unless already at the maximum.  Returns whether the depth changed.
    pub fn increase(&mut self) -> (changed: bool)
        ensures
            changed == (old(self).iterations < old(self).max_iterations),
            final(self).iterations == if changed {
                old(self).iterations + 1
            } else {
                old(self).iterations as int
            },
            final(self).max_iterations == old(self).max_iterations,
    {
        if self.iterations < self.max_iterations {
            self.iterations += 1;
            true
        } else {
            false
        }
    }
}

} // verus!
