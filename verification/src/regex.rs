//! A matcher for POSIX extended regular expressions, big enough for a case file.
//!
//! A dictionary key may be a quoted regular expression, such as `".*"` or
//! `"(U|k|epsilon)"`. Supported are `.` `*` `+` `?` `|` `(...)` `[abc]`
//! `[^a-z]` `{m}` `{m,}` `{m,n}`, the anchors `^` and `$`, and a backslash to
//! escape any of them. A match is always of the whole name, so the anchors
//! change nothing.

use vstd::prelude::*;

use crate::mesh::copy_list;
use crate::text::{
    chars_of, copy, decimal, digit, digit_run, digits_value, is_digit, lemma_push_join, push_decimal,
    push_text,
    skip_digits,
};

verus! {

/// One member of a character class.
#[derive(Clone, Copy, Debug, PartialEq, Eq, Structural)]
pub enum ClassItem {
    Ch(char),
    Range(char, char),
}

/// One node of a pattern.
#[derive(Debug)]
pub enum Node {
    /// Nothing: an empty branch, or an anchor.
    Empty,
    /// One character.
    Lit(char),
    /// Any character.
    Any,
    /// One character in the set, or outside it.
    Class { set: Vec<ClassItem>, negated: bool },
    /// One pattern, then another.
    Then(Box<Node>, Box<Node>),
    /// One pattern or another.
    Either(Box<Node>, Box<Node>),
    /// A pattern from `min` to `max` times.
    Repeat { node: Box<Node>, min: u32, max: Option<u32> },
}

/// The contents of a [`Node`].
pub enum Pattern {
    Empty,
    Lit(char),
    Any,
    Class { set: Seq<ClassItem>, negated: bool },
    Then(Box<Pattern>, Box<Pattern>),
    Either(Box<Pattern>, Box<Pattern>),
    Repeat { node: Box<Pattern>, min: nat, max: Option<nat> },
}

pub open spec fn bound(max: Option<u32>) -> Option<nat> {
    match max {
        Some(m) => Some(m as nat),
        None => None,
    }
}

impl Node {
    pub open spec fn pattern(self) -> Pattern
        decreases self,
    {
        match self {
            Node::Empty => Pattern::Empty,
            Node::Lit(c) => Pattern::Lit(c),
            Node::Any => Pattern::Any,
            Node::Class { set, negated } => Pattern::Class { set: set@, negated },
            Node::Then(a, b) => Pattern::Then(Box::new(a.pattern()), Box::new(b.pattern())),
            Node::Either(a, b) => Pattern::Either(Box::new(a.pattern()), Box::new(b.pattern())),
            Node::Repeat { node, min, max } => Pattern::Repeat {
                node: Box::new(node.pattern()),
                min: min as nat,
                max: bound(max),
            },
        }
    }
}

// --------------------------------------------------------------------------
//  Matching
// --------------------------------------------------------------------------
pub open spec fn item_has(item: ClassItem, c: char) -> bool {
    match item {
        ClassItem::Ch(x) => x == c,
        ClassItem::Range(a, b) => a <= c <= b,
    }
}

pub open spec fn class_has(set: Seq<ClassItem>, negated: bool, c: char) -> bool {
    (exists|i: int| 0 <= i < set.len() && item_has(#[trigger] set[i], c)) != negated
}

/// The pairs of positions in `t` between which the pattern matches.
pub open spec fn relation(p: Pattern, t: Seq<char>) -> spec_fn(int, int) -> bool
    decreases p,
{
    match p {
        Pattern::Empty => |a: int, b: int| a == b,
        Pattern::Lit(c) => |a: int, b: int| 0 <= a < t.len() && t[a] == c && b == a + 1,
        Pattern::Any => |a: int, b: int| 0 <= a < t.len() && b == a + 1,
        Pattern::Class { set, negated } => |a: int, b: int|
            0 <= a < t.len() && class_has(set, negated, t[a]) && b == a + 1,
        Pattern::Then(p, q) => {
            let x = relation(*p, t);
            let y = relation(*q, t);
            |a: int, b: int| exists|c: int| a <= c <= b && #[trigger] x(a, c) && y(c, b)
        },
        Pattern::Either(p, q) => {
            let x = relation(*p, t);
            let y = relation(*q, t);
            |a: int, b: int| x(a, b) || y(a, b)
        },
        Pattern::Repeat { node, min, max } => {
            let x = relation(*node, t);
            |a: int, b: int|
                exists|k: nat|
                    min <= k && within(k, max) && #[trigger] times(x, k, a, b)
        },
    }
}

/// Is a number of rounds one that the upper bound allows?
pub open spec fn within(k: nat, max: Option<nat>) -> bool {
    max matches Some(m) ==> k <= m
}

/// Do `k` rounds, one behind the other, match from `a` up to `b`? A round may
/// match nothing.
pub open spec fn times(x: spec_fn(int, int) -> bool, k: nat, a: int, b: int) -> bool
    decreases k,
{
    if k == 0 {
        a == b
    } else {
        exists|c: int| a <= c <= b && #[trigger] x(a, c) && times(x, (k - 1) as nat, c, b)
    }
}

/// Does the pattern match the part of `t` from `a` up to `b`?
pub open spec fn derives(p: Pattern, t: Seq<char>, a: int, b: int) -> bool {
    relation(p, t)(a, b)
}

/// Do further rounds match from `a` up to `b` in a text of length `n`, `done`
/// rounds having been matched and `need` of them being called for? Each round
/// takes a character. Where a round could match nothing, such rounds make up
/// the number that is called for, if the upper bound lets them.
spec fn repeats(
    x: spec_fn(int, int) -> bool,
    need: nat,
    max: Option<nat>,
    n: nat,
    a: int,
    b: int,
    done: nat,
) -> bool
    decreases n - a,
{
    let left = if x(a, a) && within(need, max) { 0 } else { need };
    ||| done >= left && a == b
    ||| within(done + 1, max) && exists|c: int|
        a < c <= n && #[trigger] x(a, c) && repeats(x, left, max, n, c, b, done + 1)
}

/// What is enough rounds stays enough where fewer are called for.
proof fn lemma_need_less(
    x: spec_fn(int, int) -> bool,
    need: nat,
    less: nat,
    max: Option<nat>,
    n: nat,
    a: int,
    b: int,
    done: nat,
)
    requires
        less <= need,
        repeats(x, need, max, n, a, b, done),
    ensures
        repeats(x, less, max, n, a, b, done),
    decreases n - a,
{
    let left: nat = if x(a, a) && within(need, max) { 0 } else { need };
    let low: nat = if x(a, a) && within(less, max) { 0 } else { less };
    assert(low <= left);
    if !(done >= left && a == b) {
        let c = choose|c: int|
            a < c <= n && #[trigger] x(a, c) && repeats(x, left, max, n, c, b, done + 1);
        lemma_need_less(x, left, low, max, n, c, b, done + 1);
        assert(x(a, c) && repeats(x, low, max, n, c, b, done + 1));
    }
}

/// Where none are called for, a round fewer matched makes no difference.
proof fn lemma_done_less(
    x: spec_fn(int, int) -> bool,
    max: Option<nat>,
    n: nat,
    a: int,
    b: int,
    done: nat,
)
    requires
        repeats(x, 0, max, n, a, b, done + 1),
    ensures
        repeats(x, 0, max, n, a, b, done),
    decreases n - a,
{
    if a != b {
        let c = choose|c: int|
            a < c <= n && #[trigger] x(a, c) && repeats(x, 0, max, n, c, b, done + 2);
        lemma_done_less(x, max, n, c, b, done + 1);
        assert(x(a, c) && repeats(x, 0, max, n, c, b, done + 1));
    }
}

/// Rounds that match nothing can stand in front.
proof fn lemma_empty_rounds(x: spec_fn(int, int) -> bool, e: nat, k: nat, a: int, b: int)
    requires
        x(a, a),
        a <= b,
        times(x, k, a, b),
    ensures
        times(x, e + k, a, b),
    decreases e,
{
    if e > 0 {
        lemma_empty_rounds(x, (e - 1) as nat, k, a, b);
        assert(x(a, a) && times(x, (e + k - 1) as nat, a, b));
    }
}

/// Rounds that take a character each, with those that make up the number, are
/// rounds.
proof fn lemma_rounds_of(
    x: spec_fn(int, int) -> bool,
    need: nat,
    max: Option<nat>,
    n: nat,
    a: int,
    b: int,
    done: nat,
) -> (k: nat)
    requires
        repeats(x, need, max, n, a, b, done),
        within(done, max),
    ensures
        a <= b,
        need <= done + k,
        within(done + k, max),
        times(x, k, a, b),
    decreases n - a,
{
    let left: nat = if x(a, a) && within(need, max) { 0 } else { need };
    let few: nat = if done >= left && a == b {
        0
    } else {
        let c = choose|c: int|
            a < c <= n && #[trigger] x(a, c) && repeats(x, left, max, n, c, b, done + 1);
        let more = lemma_rounds_of(x, left, max, n, c, b, done + 1);
        assert(x(a, c) && times(x, (more + 1 - 1) as nat, c, b));
        more + 1
    };
    assert(times(x, few, a, b));
    if need <= done + few {
        few
    } else {
        let e = (need - done - few) as nat;
        lemma_empty_rounds(x, e, few, a, b);
        e + few
    }
}

/// Enough rounds can be had from rounds that take a character each.
proof fn lemma_of_rounds(
    x: spec_fn(int, int) -> bool,
    need: nat,
    max: Option<nat>,
    n: nat,
    a: int,
    b: int,
    done: nat,
    k: nat,
)
    requires
        need <= done + k,
        within(done + k, max),
        times(x, k, a, b),
        b <= n,
    ensures
        repeats(x, need, max, n, a, b, done),
    decreases k,
{
    if k > 0 {
        let left: nat = if x(a, a) && within(need, max) { 0 } else { need };
        let c = choose|c: int| a <= c <= b && #[trigger] x(a, c) && times(x, (k - 1) as nat, c, b);
        lemma_of_rounds(x, need, max, n, c, b, done + 1, (k - 1) as nat);
        if a < c {
            lemma_need_less(x, need, left, max, n, c, b, done + 1);
            assert(x(a, c) && repeats(x, left, max, n, c, b, done + 1));
        } else if a != b {
            let d = choose|d: int|
                a < d <= n && #[trigger] x(a, d) && repeats(x, 0, max, n, d, b, done + 2);
            lemma_done_less(x, max, n, d, b, done + 1);
            assert(x(a, d) && repeats(x, 0, max, n, d, b, done + 1));
        }
    }
}

/// The rounds of a repetition are those that [`repeats`] finds.
proof fn lemma_repeats(p: Pattern, min: nat, max: Option<nat>, t: Seq<char>, a: int, b: int)
    requires
        b <= t.len(),
    ensures
        repeats(relation(p, t), min, max, t.len(), a, b, 0) == derives(
            Pattern::Repeat { node: Box::new(p), min, max },
            t,
            a,
            b,
        ),
{
    let x = relation(p, t);
    let whole = Pattern::Repeat { node: Box::new(p), min, max };
    if repeats(x, min, max, t.len(), a, b, 0) {
        let k = lemma_rounds_of(x, min, max, t.len(), a, b, 0);
        assert(min <= k && within(k, max) && times(x, k, a, b));
        assert(derives(whole, t, a, b));
    }
    if derives(whole, t, a, b) {
        let k = choose|k: nat| min <= k && within(k, max) && #[trigger] times(x, k, a, b);
        lemma_of_rounds(x, min, max, t.len(), a, b, 0, k);
    }
}

fn class_matches(set: &Vec<ClassItem>, negated: bool, c: char) -> (r: bool)
    ensures
        r == class_has(set@, negated, c),
{
    let mut i: usize = 0;
    let mut hit: bool = false;
    while i < set.len() && !hit
        invariant
            i <= set.len(),
            hit == exists|k: int| 0 <= k < i && item_has(#[trigger] set@[k], c),
        decreases set.len() - i,
    {
        hit = match set[i] {
            ClassItem::Ch(x) => x == c,
            ClassItem::Range(a, b) => a <= c && c <= b,
        };
        assert(hit == item_has(set@[i as int], c));
        i = i + 1;
    }
    hit != negated
}

/// Where a pattern that starts at `a` may end.
pub open spec fn is_row(m: Seq<bool>, p: Pattern, t: Seq<char>, a: int) -> bool {
    &&& m.len() == t.len() + 1
    &&& forall|b: int| 0 <= b <= t.len() ==> #[trigger] m[b] == derives(p, t, a, b)
}

/// The pairs of positions between which a pattern matches.
pub open spec fn is_table(m: Seq<Vec<bool>>, p: Pattern, t: Seq<char>) -> bool {
    &&& m.len() == t.len() + 1
    &&& forall|a: int| 0 <= a <= t.len() ==> is_row((#[trigger] m[a])@, p, t, a)
}

/// One row of a table for two patterns in sequence.
fn then_row(
    x: &Vec<Vec<bool>>,
    y: &Vec<Vec<bool>>,
    t: &Vec<char>,
    a: usize,
    Ghost(p): Ghost<Pattern>,
    Ghost(q): Ghost<Pattern>,
) -> (r: Vec<bool>)
    requires
        t.len() < usize::MAX,
        a <= t.len(),
        is_table(x@, p, t@),
        is_table(y@, q, t@),
    ensures
        is_row(r@, Pattern::Then(Box::new(p), Box::new(q)), t@, a as int),
{
    let n: usize = t.len();
    let ghost whole = Pattern::Then(Box::new(p), Box::new(q));
    let ghost rp = relation(p, t@);
    let ghost rq = relation(q, t@);
    let mut row: Vec<bool> = Vec::new();
    let mut b: usize = 0;
    while b <= n
        invariant
            b <= n + 1,
            n == t.len(),
            n < usize::MAX,
            a <= n,
            is_table(x@, p, t@),
            is_table(y@, q, t@),
            whole == Pattern::Then(Box::new(p), Box::new(q)),
            rp == relation(p, t@),
            rq == relation(q, t@),
            row.len() == b,
            forall|k: int| 0 <= k < b ==> #[trigger] row[k] == derives(whole, t@, a as int, k),
        decreases n + 1 - b,
    {
        let mut c: usize = a;
        let mut hit: bool = false;
        while c <= b && !hit
            invariant
                a <= n,
                b <= n,
                n == t.len(),
                n < usize::MAX,
                a <= c,
                c <= b + 1 || c == a,
                is_table(x@, p, t@),
                is_table(y@, q, t@),
                hit == exists|k: int|
                    a <= k < c && k <= b && #[trigger] rp(a as int, k) && rq(k, b as int),
                rp == relation(p, t@),
                rq == relation(q, t@),
            decreases b + 1 - c,
        {
            proof {
                assert(is_row(x@[a as int]@, p, t@, a as int));
                assert(is_row(y@[c as int]@, q, t@, c as int));
            }
            let left: bool = x[a][c];
            let right: bool = y[c][b];
            hit = left && right;
            c = c + 1;
        }
        assert(hit == derives(whole, t@, a as int, b as int));
        row.push(hit);
        b = b + 1;
    }
    row
}

/// A table for further rounds of a pattern, `done` of them having been matched;
/// it holds for the starts from `done` on.
spec fn is_round_table(
    m: Seq<Vec<bool>>,
    p: Pattern,
    need: nat,
    max: Option<nat>,
    t: Seq<char>,
    done: nat,
) -> bool {
    &&& m.len() == t.len() + 1
    &&& forall|a: int|
        done <= a <= t.len() ==> is_round_row((#[trigger] m[a])@, p, need, max, t, a, done)
}

spec fn is_round_row(
    m: Seq<bool>,
    p: Pattern,
    need: nat,
    max: Option<nat>,
    t: Seq<char>,
    a: int,
    done: nat,
) -> bool {
    &&& m.len() == t.len() + 1
    &&& forall|b: int|
        0 <= b <= t.len() ==> #[trigger] m[b] == repeats(
            relation(p, t),
            need,
            max,
            t.len(),
            a,
            b,
            done,
        )
}

/// One row of the table of rounds with one round fewer matched; `next` is the
/// table for what is still called for from here on.
fn round_row(
    x: &Vec<Vec<bool>>,
    next: &Vec<Vec<bool>>,
    t: &Vec<char>,
    a: usize,
    may_stop: bool,
    may_go: bool,
    done: usize,
    Ghost(p): Ghost<Pattern>,
    Ghost(need): Ghost<nat>,
    Ghost(left): Ghost<nat>,
    Ghost(max): Ghost<Option<nat>>,
) -> (r: Vec<bool>)
    requires
        t.len() < usize::MAX,
        done <= a <= t.len(),
        left == (if relation(p, t@)(a as int, a as int) && within(need, max) { 0 } else { need }),
        may_stop == (done >= left),
        may_go == within((done + 1) as nat, max),
        is_table(x@, p, t@),
        is_round_table(next@, p, left, max, t@, (done + 1) as nat),
    ensures
        is_round_row(r@, p, need, max, t@, a as int, done as nat),
{
    let n: usize = t.len();
    let ghost rel = relation(p, t@);
    let mut row: Vec<bool> = Vec::new();
    let mut b: usize = 0;
    while b <= n
        invariant
            b <= n + 1,
            n == t.len(),
            n < usize::MAX,
            done <= a <= n,
            left == (if rel(a as int, a as int) && within(need, max) { 0 } else { need }),
            may_stop == (done >= left),
            may_go == within((done + 1) as nat, max),
            is_table(x@, p, t@),
            is_round_table(next@, p, left, max, t@, (done + 1) as nat),
            row.len() == b,
            forall|k: int|
                0 <= k < b ==> #[trigger] row[k] == repeats(
                    rel,
                    need,
                    max,
                    n as nat,
                    a as int,
                    k,
                    done as nat,
                ),
            rel == relation(p, t@),
        decreases n + 1 - b,
    {
        let mut hit: bool = false;
        let mut c: usize = a + 1;
        while c <= n && !hit
            invariant
                n == t.len(),
                n < usize::MAX,
                done <= a <= n,
                b <= n,
                a < c <= n + 1,
                is_table(x@, p, t@),
                is_round_table(next@, p, left, max, t@, (done + 1) as nat),
                hit == exists|k: int|
                    a < k < c && #[trigger] rel(a as int, k) && repeats(
                        rel,
                        left,
                        max,
                        n as nat,
                        k,
                        b as int,
                        (done + 1) as nat,
                    ),
                rel == relation(p, t@),
            decreases n + 1 - c,
        {
            proof {
                assert(is_row(x@[a as int]@, p, t@, a as int));
                assert(is_round_row(
                    next@[c as int]@,
                    p,
                    left,
                    max,
                    t@,
                    c as int,
                    (done + 1) as nat,
                ));
            }
            let one: bool = x[a][c];
            let more: bool = next[c][b];
            hit = one && more;
            c = c + 1;
        }
        let here: bool = (may_stop && a == b) || (may_go && hit);
        assert(here == repeats(rel, need, max, n as nat, a as int, b as int, done as nat));
        row.push(here);
        b = b + 1;
    }
    row
}

/// The table of rounds with one round fewer matched. `next` is the table for
/// `need` rounds and `free` the one for none.
fn round_step(
    x: &Vec<Vec<bool>>,
    next: &Vec<Vec<bool>>,
    free: &Vec<Vec<bool>>,
    t: &Vec<char>,
    need: u32,
    max: Option<u32>,
    done: usize,
    Ghost(p): Ghost<Pattern>,
) -> (r: Vec<Vec<bool>>)
    requires
        t.len() < usize::MAX,
        done <= t.len(),
        is_table(x@, p, t@),
        is_round_table(next@, p, need as nat, bound(max), t@, (done + 1) as nat),
        is_round_table(free@, p, 0, bound(max), t@, (done + 1) as nat),
    ensures
        is_round_table(r@, p, need as nat, bound(max), t@, done as nat),
{
    let n: usize = t.len();
    let enough: bool = done as u64 >= need as u64;
    let (may_go, may_fill): (bool, bool) = match max {
        Some(m) => ((done as u64) < (m as u64), need <= m),
        None => (true, true),
    };
    let mut out: Vec<Vec<bool>> = Vec::new();
    let mut a: usize = 0;
    while a <= n
        invariant
            a <= n + 1,
            n == t.len(),
            n < usize::MAX,
            done <= n,
            enough == (done >= need),
            may_go == within((done + 1) as nat, bound(max)),
            may_fill == within(need as nat, bound(max)),
            is_table(x@, p, t@),
            is_round_table(next@, p, need as nat, bound(max), t@, (done + 1) as nat),
            is_round_table(free@, p, 0, bound(max), t@, (done + 1) as nat),
            out.len() == a,
            forall|i: int|
                done <= i < a ==> is_round_row(
                    (#[trigger] out@[i])@,
                    p,
                    need as nat,
                    bound(max),
                    t@,
                    i,
                    done as nat,
                ),
        decreases n + 1 - a,
    {
        let mut row: Vec<bool> = Vec::new();
        if a >= done {
            assert(is_row(x@[a as int]@, p, t@, a as int));
            let filled: bool = x[a][a] && may_fill;
            let ghost left: nat = if filled { 0 } else { need as nat };
            row = round_row(
                x,
                if filled { free } else { next },
                t,
                a,
                filled || enough,
                may_go,
                done,
                Ghost(p),
                Ghost(need as nat),
                Ghost(left),
                Ghost(bound(max)),
            );
        }
        out.push(row);
        a = a + 1;
    }
    out
}

/// As many empty rows as a table has.
fn bare_table(n: usize) -> (r: Vec<Vec<bool>>)
    requires
        n < usize::MAX,
    ensures
        r.len() == n + 1,
{
    let mut r: Vec<Vec<bool>> = Vec::new();
    let mut i: usize = 0;
    while i <= n
        invariant
            i <= n + 1,
            n < usize::MAX,
            r.len() == i,
        decreases n + 1 - i,
    {
        r.push(Vec::new());
        i = i + 1;
    }
    r
}

/// The table of a repetition.
fn repeat_table(
    x: &Vec<Vec<bool>>,
    t: &Vec<char>,
    min: u32,
    max: Option<u32>,
    Ghost(p): Ghost<Pattern>,
) -> (r: Vec<Vec<bool>>)
    requires
        t.len() < usize::MAX,
        is_table(x@, p, t@),
    ensures
        is_table(
            r@,
            Pattern::Repeat { node: Box::new(p), min: min as nat, max: bound(max) },
            t@,
        ),
{
    let n: usize = t.len();
    let mut cur: Vec<Vec<bool>> = bare_table(n);
    let mut free: Vec<Vec<bool>> = bare_table(n);
    let mut done: usize = n + 1;
    while done > 0
        invariant
            done <= n + 1,
            n == t.len(),
            n < usize::MAX,
            is_table(x@, p, t@),
            is_round_table(cur@, p, min as nat, bound(max), t@, done as nat),
            is_round_table(free@, p, 0, bound(max), t@, done as nat),
        decreases done,
    {
        cur = round_step(x, &cur, &free, t, min, max, done - 1, Ghost(p));
        free = round_step(x, &free, &free, t, 0, max, done - 1, Ghost(p));
        done = done - 1;
    }
    proof {
        let whole = Pattern::Repeat { node: Box::new(p), min: min as nat, max: bound(max) };
        assert forall|a: int| 0 <= a <= t.len() implies is_row(
            (#[trigger] cur@[a])@,
            whole,
            t@,
            a,
        ) by {
            assert(is_round_row(cur@[a]@, p, min as nat, bound(max), t@, a, 0));
            assert forall|b: int| 0 <= b <= t.len() implies #[trigger] cur@[a]@[b] == derives(
                whole,
                t@,
                a,
                b,
            ) by {
                lemma_repeats(p, min as nat, bound(max), t@, a, b);
            }
        }
    }
    cur
}

/// The table of a pattern.
fn table(node: &Node, t: &Vec<char>) -> (r: Vec<Vec<bool>>)
    requires
        t.len() < usize::MAX,
    ensures
        is_table(r@, node.pattern(), t@),
    decreases node,
{
    let n: usize = t.len();
    let mut out: Vec<Vec<bool>> = Vec::new();
    match node {
        Node::Repeat { node: inner, min, max } => {
            let x = table(inner, t);
            return repeat_table(&x, t, *min, *max, Ghost(inner.pattern()));
        },
        Node::Then(p, q) => {
            let x = table(p, t);
            let y = table(q, t);
            let mut a: usize = 0;
            while a <= n
                invariant
                    a <= n + 1,
                    n == t.len(),
                    n < usize::MAX,
                    is_table(x@, p.pattern(), t@),
                    is_table(y@, q.pattern(), t@),
                    node.pattern() == Pattern::Then(
                        Box::new(p.pattern()),
                        Box::new(q.pattern()),
                    ),
                    out.len() == a,
                    forall|i: int|
                        0 <= i < a ==> is_row((#[trigger] out@[i])@, node.pattern(), t@, i),
                decreases n + 1 - a,
            {
                let row = then_row(&x, &y, t, a, Ghost(p.pattern()), Ghost(q.pattern()));
                out.push(row);
                a = a + 1;
            }
            return out;
        },
        Node::Either(p, q) => {
            let x = table(p, t);
            let y = table(q, t);
            let mut a: usize = 0;
            while a <= n
                invariant
                    a <= n + 1,
                    n == t.len(),
                    n < usize::MAX,
                    is_table(x@, p.pattern(), t@),
                    is_table(y@, q.pattern(), t@),
                    node.pattern() == Pattern::Either(
                        Box::new(p.pattern()),
                        Box::new(q.pattern()),
                    ),
                    out.len() == a,
                    forall|i: int|
                        0 <= i < a ==> is_row((#[trigger] out@[i])@, node.pattern(), t@, i),
                decreases n + 1 - a,
            {
                let mut row: Vec<bool> = Vec::new();
                let mut b: usize = 0;
                while b <= n
                    invariant
                        b <= n + 1,
                        a <= n,
                        n == t.len(),
                        n < usize::MAX,
                        is_table(x@, p.pattern(), t@),
                        is_table(y@, q.pattern(), t@),
                        node.pattern() == Pattern::Either(
                            Box::new(p.pattern()),
                            Box::new(q.pattern()),
                        ),
                        row.len() == b,
                        forall|k: int|
                            0 <= k < b ==> #[trigger] row[k] == derives(
                                node.pattern(),
                                t@,
                                a as int,
                                k,
                            ),
                    decreases n + 1 - b,
                {
                    proof {
                        assert(is_row(x@[a as int]@, p.pattern(), t@, a as int));
                        assert(is_row(y@[a as int]@, q.pattern(), t@, a as int));
                    }
                    row.push(x[a][b] || y[a][b]);
                    b = b + 1;
                }
                out.push(row);
                a = a + 1;
            }
            return out;
        },
        _ => {},
    }
    let mut a: usize = 0;
    while a <= n
        invariant
            a <= n + 1,
            n == t.len(),
            n < usize::MAX,
            !(node is Repeat) && !(node is Then) && !(node is Either),
            out.len() == a,
            forall|i: int|
                0 <= i < a ==> is_row((#[trigger] out@[i])@, node.pattern(), t@, i),
        decreases n + 1 - a,
    {
        let empty: bool = match node {
            Node::Empty => true,
            _ => false,
        };
        let single: bool = a < n && match node {
            Node::Lit(c) => t[a] == *c,
            Node::Any => true,
            Node::Class { set, negated } => class_matches(set, *negated, t[a]),
            _ => false,
        };
        let mut row: Vec<bool> = Vec::new();
        let mut b: usize = 0;
        while b <= n
            invariant
                b <= n + 1,
                a <= n,
                n == t.len(),
                n < usize::MAX,
                row.len() == b,
                forall|k: int|
                    0 <= k < b ==> #[trigger] row[k] == ((empty && k == a) || (single && k == a
                        + 1)),
            decreases n + 1 - b,
        {
            row.push((empty && b == a) || (single && b == a + 1));
            b = b + 1;
        }
        proof {
            assert(is_row(row@, node.pattern(), t@, a as int));
        }
        out.push(row);
        a = a + 1;
    }
    out
}

// --------------------------------------------------------------------------
//  Parsing
// --------------------------------------------------------------------------
/// The members of a class from `i` on, and where it ends. A `]` that comes
/// first is a member, and so is a `-` that stands before the closing bracket.
pub open spec fn class_items(s: Seq<char>, i: int, first: bool) -> Result<
    (Seq<ClassItem>, int),
    Seq<char>,
>
    decreases s.len() - i,
{
    if i < 0 || i >= s.len() {
        Err("missing ']'"@)
    } else if s[i] == ']' && !first {
        Ok((Seq::empty(), i + 1))
    } else if s[i] == '\\' && i + 1 >= s.len() {
        Err("trailing backslash"@)
    } else {
        let (lo, j) = if s[i] == '\\' { (s[i + 1], i + 2) } else { (s[i], i + 1) };
        if j < s.len() && s[j] == '-' && !(j + 1 < s.len() && s[j + 1] == ']') {
            if j + 1 >= s.len() {
                Err("missing ']'"@)
            } else {
                match class_items(s, j + 2, false) {
                    Err(e) => Err(e),
                    Ok((rest, k)) => Ok((seq![ClassItem::Range(lo, s[j + 1])] + rest, k)),
                }
            }
        } else {
            match class_items(s, j, false) {
                Err(e) => Err(e),
                Ok((rest, k)) => Ok((seq![ClassItem::Ch(lo)] + rest, k)),
            }
        }
    }
}

/// A class behind its opening bracket.
pub open spec fn class_at(s: Seq<char>, i: int) -> Result<(Pattern, int), Seq<char>> {
    let negated = i < s.len() && s[i] == '^';
    match class_items(s, if negated { i + 1 } else { i }, true) {
        Err(e) => Err(e),
        Ok((set, k)) => Ok((Pattern::Class { set, negated }, k)),
    }
}

/// A repetition count at `i`.
pub open spec fn count_at(s: Seq<char>, i: int) -> Result<(nat, int), Seq<char>> {
    let j = digit_run(s, i);
    if j == i {
        Err("expected a repetition count"@)
    } else if digits_value(s.subrange(i, j)) > u32::MAX {
        Err("repetition count out of range"@)
    } else {
        Ok((digits_value(s.subrange(i, j)), j))
    }
}

pub open spec fn char_is(s: Seq<char>, i: int, c: char) -> bool {
    i < s.len() && s[i] == c
}

/// The repetition written at `j`, if one is, and where it ends. A brace opens a
/// bound only where a digit follows.
pub open spec fn suffix_at(s: Seq<char>, j: int) -> Result<
    (Option<(nat, Option<nat>)>, int),
    Seq<char>,
> {
    if char_is(s, j, '*') {
        Ok((Some((0nat, None)), j + 1))
    } else if char_is(s, j, '+') {
        Ok((Some((1nat, None)), j + 1))
    } else if char_is(s, j, '?') {
        Ok((Some((0nat, Some(1nat))), j + 1))
    } else if char_is(s, j, '{') && j + 1 < s.len() && is_digit(s[j + 1]) {
        match count_at(s, j + 1) {
            Err(e) => Err(e),
            Ok((min, k)) => {
                let upper: Result<(Option<nat>, int), Seq<char>> = if char_is(s, k, ',') {
                    if char_is(s, k + 1, '}') {
                        Ok((None, k + 1))
                    } else {
                        match count_at(s, k + 1) {
                            Err(e) => Err(e),
                            Ok((max, m)) => Ok((Some(max), m)),
                        }
                    }
                } else {
                    Ok((Some(min), k))
                };
                match upper {
                    Err(e) => Err(e),
                    Ok((max, m)) => if char_is(s, m, '}') {
                        Ok((Some((min, max)), m + 1))
                    } else {
                        Err("expected a closing brace"@)
                    },
                }
            },
        }
    } else {
        Ok((None, j))
    }
}

/// A pattern with the repetition behind it; a `?` behind that makes no
/// difference to what matches.
pub open spec fn suffixed(s: Seq<char>, p: Pattern, j: int) -> Result<(Pattern, int), Seq<char>> {
    match suffix_at(s, j) {
        Err(e) => Err(e),
        Ok((None, k)) => Ok((p, k)),
        Ok((Some((min, max)), k)) => Ok(
            (
                Pattern::Repeat { node: Box::new(p), min, max },
                if char_is(s, k, '?') { k + 1 } else { k },
            ),
        ),
    }
}

/// Does a branch end at `i`?
pub open spec fn branch_ends(s: Seq<char>, i: int) -> bool {
    i >= s.len() || s[i] == '|' || s[i] == ')'
}

/// Branches parted by `|`.
pub open spec fn alternation_at(s: Seq<char>, i: int) -> Result<(Pattern, int), Seq<char>>
    decreases s.len() - i, 2int,
{
    match branch_at(s, i) {
        Err(e) => Err(e),
        Ok((p, j)) => if i <= j && char_is(s, j, '|') {
            match alternation_at(s, j + 1) {
                Err(e) => Err(e),
                Ok((q, k)) => Ok((Pattern::Either(Box::new(p), Box::new(q)), k)),
            }
        } else {
            Ok((p, j))
        },
    }
}

/// Items in a row.
pub open spec fn branch_at(s: Seq<char>, i: int) -> Result<(Pattern, int), Seq<char>>
    decreases s.len() - i, 1int,
{
    if branch_ends(s, i) {
        Ok((Pattern::Empty, i))
    } else {
        match item_at(s, i) {
            Err(e) => Err(e),
            Ok((p, j)) => if branch_ends(s, j) {
                Ok((p, j))
            } else if i < j {
                match branch_at(s, j) {
                    Err(e) => Err(e),
                    Ok((q, k)) => Ok((Pattern::Then(Box::new(p), Box::new(q)), k)),
                }
            } else {
                Ok((p, j))
            },
        }
    }
}

/// One character, class or group, with its repetition.
pub open spec fn item_at(s: Seq<char>, i: int) -> Result<(Pattern, int), Seq<char>>
    decreases s.len() - i, 0int,
{
    if i < 0 || i >= s.len() {
        Ok((Pattern::Empty, i))
    } else {
        let atom: Result<(Pattern, int), Seq<char>> = if s[i] == '(' {
            match alternation_at(s, i + 1) {
                Err(e) => Err(e),
                Ok((p, j)) => if char_is(s, j, ')') {
                    Ok((p, j + 1))
                } else {
                    Err("missing ')'"@)
                },
            }
        } else if s[i] == '[' {
            class_at(s, i + 1)
        } else if s[i] == '.' {
            Ok((Pattern::Any, i + 1))
        } else if s[i] == '^' || s[i] == '$' {
            Ok((Pattern::Empty, i + 1))
        } else if s[i] == '\\' {
            if i + 1 < s.len() {
                Ok((Pattern::Lit(s[i + 1]), i + 2))
            } else {
                Err("trailing backslash"@)
            }
        } else if s[i] == '*' || s[i] == '+' {
            Err("'"@ + seq![s[i]] + "' has nothing to repeat"@)
        } else {
            Ok((Pattern::Lit(s[i]), i + 1))
        };
        match atom {
            Err(e) => Err(e),
            Ok((p, j)) => suffixed(s, p, j),
        }
    }
}

/// What a pattern's text says, or why it says nothing: the error names the
/// pattern.
pub open spec fn compiled(s: Seq<char>) -> Result<Pattern, Seq<char>> {
    match alternation_at(s, 0) {
        Err(e) => Err("regular expression \""@ + s + "\": "@ + e),
        Ok((p, j)) => if j == s.len() {
            Ok(p)
        } else {
            Err(
                "regular expression \""@ + s + "\": "@ + "unbalanced ')' at character "@ + decimal(
                    (j + 1) as nat,
                ),
            )
        },
    }
}

/// Does what was parsed stand for what the text says?
pub open spec fn agrees(r: Result<(Node, usize), String>, want: Result<(Pattern, int), Seq<char>>) -> bool {
    match (r, want) {
        (Ok((n, j)), Ok((p, k))) => n.pattern() == p && j == k,
        (Err(e), Err(f)) => e@ == f,
        _ => false,
    }
}

fn parse_class(s: &Vec<char>, i: usize) -> (r: Result<(Node, usize), String>)
    requires
        0 < i <= s.len(),
    ensures
        agrees(r, class_at(s@, i as int)),
        r matches Ok((_, j)) ==> i < j <= s.len(),
{
    let n: usize = s.len();
    let mut k: usize = i;
    let mut negated: bool = false;
    if k < n && s[k] == '^' {
        negated = true;
        k = k + 1;
    }
    let ghost from = k as int;
    let ghost want = class_items(s@, from, true);
    let mut set: Vec<ClassItem> = Vec::new();
    let mut first: bool = true;
    proof {
        if want is Ok {
            assert(Seq::<ClassItem>::empty() + want->Ok_0.0 =~= want->Ok_0.0);
        }
    }
    loop
        invariant
            n == s.len(),
            0 < i <= k <= n,
            first ==> k == from,
            negated == (i < n && s[i as int] == '^'),
            from == (if negated { i + 1 } else { i as int }),
            want == class_items(s@, from, true),
            match (want, class_items(s@, k as int, first)) {
                (Ok((all, e)), Ok((rest, f))) => all == set@ + rest && e == f,
                (Err(e), Err(f)) => e == f,
                _ => false,
            },
        decreases n - k,
    {
        if k >= n {
            return Err(copy("missing ']'"));
        }
        let c: char = s[k];
        if c == ']' && !first {
            proof {
                assert(set@ + Seq::<ClassItem>::empty() =~= set@);
            }
            return Ok((Node::Class { set, negated }, k + 1));
        }
        let ghost before = set@;
        let lo: char;
        let j: usize;
        if c == '\\' {
            if k + 1 >= n {
                return Err(copy("trailing backslash"));
            }
            lo = s[k + 1];
            j = k + 2;
        } else {
            lo = c;
            j = k + 1;
        }
        let item: ClassItem;
        let next: usize;
        if j < n && s[j] == '-' && !(j + 1 < n && s[j + 1] == ']') {
            if j + 1 >= n {
                return Err(copy("missing ']'"));
            }
            item = ClassItem::Range(lo, s[j + 1]);
            next = j + 2;
        } else {
            item = ClassItem::Ch(lo);
            next = j;
        }
        set.push(item);
        proof {
            match class_items(s@, next as int, false) {
                Ok((rest, f)) => {
                    lemma_push_join(before, item, rest);
                },
                Err(f) => {},
            }
        }
        first = false;
        k = next;
    }
}

fn parse_count(s: &Vec<char>, i: usize) -> (r: Result<(u32, usize), String>)
    requires
        i <= s.len(),
    ensures
        match (r, count_at(s@, i as int)) {
            (Ok((v, j)), Ok((w, k))) => v == w && j == k && i < j <= s.len(),
            (Err(e), Err(f)) => e@ == f,
            _ => false,
        },
{
    let j: usize = skip_digits(s, i);
    if j == i {
        return Err(copy("expected a repetition count"));
    }
    let mut v: u64 = 0;
    let mut over: bool = false;
    let mut k: usize = i;
    while k < j
        invariant
            i <= k <= j <= s.len(),
            forall|x: int| i <= x < j ==> is_digit(s[x]),
            v <= u32::MAX,
            !over ==> v == digits_value(s@.subrange(i as int, k as int)),
            over ==> digits_value(s@.subrange(i as int, k as int)) > u32::MAX,
        decreases j - k,
    {
        let d: u64 = (s[k] as u32 - '0' as u32) as u64;
        assert(s@.subrange(i as int, k + 1).drop_last() =~= s@.subrange(i as int, k as int));
        let next: u64 = v * 10 + d;
        if over || next > u32::MAX as u64 {
            over = true;
        } else {
            v = next;
        }
        k = k + 1;
    }
    if over {
        return Err(copy("repetition count out of range"));
    }
    Ok((v as u32, j))
}

fn has_char(s: &Vec<char>, i: usize, c: char) -> (r: bool)
    ensures
        r == char_is(s@, i as int, c),
{
    i < s.len() && s[i] == c
}

fn parse_suffix(s: &Vec<char>, j: usize) -> (r: Result<(Option<(u32, Option<u32>)>, usize), String>)
    requires
        j <= s.len(),
    ensures
        match (r, suffix_at(s@, j as int)) {
            (Ok((None, a)), Ok((None, b))) => a == b && a == j,
            (Ok((Some((lo, hi)), a)), Ok((Some((min, max)), b))) => a == b && lo == min && bound(hi)
                == max && j < a <= s.len(),
            (Err(e), Err(f)) => e@ == f,
            _ => false,
        },
{
    if has_char(s, j, '*') {
        return Ok((Some((0, None)), j + 1));
    }
    if has_char(s, j, '+') {
        return Ok((Some((1, None)), j + 1));
    }
    if has_char(s, j, '?') {
        return Ok((Some((0, Some(1))), j + 1));
    }
    if has_char(s, j, '{') && j + 1 < s.len() && digit(s[j + 1]) {
        let (min, k) = match parse_count(s, j + 1) {
            Ok(x) => x,
            Err(e) => {
                return Err(e);
            },
        };
        let mut max: Option<u32> = Some(min);
        let mut m: usize = k;
        if has_char(s, k, ',') {
            if has_char(s, k + 1, '}') {
                max = None;
                m = k + 1;
            } else {
                match parse_count(s, k + 1) {
                    Ok((v, e)) => {
                        max = Some(v);
                        m = e;
                    },
                    Err(e) => {
                        return Err(e);
                    },
                }
            }
        }
        if !has_char(s, m, '}') {
            return Err(copy("expected a closing brace"));
        }
        return Ok((Some((min, max)), m + 1));
    }
    Ok((None, j))
}

fn parse_alternation(s: &Vec<char>, i: usize) -> (r: Result<(Node, usize), String>)
    requires
        i <= s.len(),
    ensures
        agrees(r, alternation_at(s@, i as int)),
        r matches Ok((_, j)) ==> i <= j <= s.len(),
    decreases s.len() - i, 2int,
{
    let (p, j) = match parse_branch(s, i) {
        Ok(x) => x,
        Err(e) => {
            return Err(e);
        },
    };
    if has_char(s, j, '|') {
        match parse_alternation(s, j + 1) {
            Ok((q, k)) => Ok((Node::Either(Box::new(p), Box::new(q)), k)),
            Err(e) => Err(e),
        }
    } else {
        Ok((p, j))
    }
}

fn at_branch_end(s: &Vec<char>, i: usize) -> (r: bool)
    ensures
        r == branch_ends(s@, i as int),
{
    i >= s.len() || s[i] == '|' || s[i] == ')'
}

fn parse_branch(s: &Vec<char>, i: usize) -> (r: Result<(Node, usize), String>)
    requires
        i <= s.len(),
    ensures
        agrees(r, branch_at(s@, i as int)),
        r matches Ok((_, j)) ==> i <= j <= s.len(),
    decreases s.len() - i, 1int,
{
    if at_branch_end(s, i) {
        return Ok((Node::Empty, i));
    }
    let (p, j) = match parse_item(s, i) {
        Ok(x) => x,
        Err(e) => {
            return Err(e);
        },
    };
    if at_branch_end(s, j) {
        return Ok((p, j));
    }
    match parse_branch(s, j) {
        Ok((q, k)) => Ok((Node::Then(Box::new(p), Box::new(q)), k)),
        Err(e) => Err(e),
    }
}

proof fn lemma_lit(c: char)
    ensures
        Node::Lit(c).pattern() == Pattern::Lit(c),
{
}

fn parse_atom(s: &Vec<char>, i: usize) -> (r: Result<(Node, usize), String>)
    requires
        i < s.len(),
        s[i as int] != '(',
    ensures
        match r {
            Ok((n, j)) => i < j <= s.len() && item_at(s@, i as int) == suffixed(
                s@,
                n.pattern(),
                j as int,
            ),
            Err(e) => item_at(s@, i as int) == Err::<(Pattern, int), Seq<char>>(e@),
        },
{
    let c: char = s[i];
    if c == '[' {
        return parse_class(s, i + 1);
    }
    if c == '.' {
        return Ok((Node::Any, i + 1));
    }
    if c == '^' || c == '$' {
        return Ok((Node::Empty, i + 1));
    }
    if c == '\\' {
        if i + 1 < s.len() {
            let node = Node::Lit(s[i + 1]);
            proof {
                lemma_lit(s@[i + 1]);
            }
            return Ok((node, i + 2));
        }
        return Err(copy("trailing backslash"));
    }
    if c == '*' || c == '+' {
        let mut m = copy("'");
        m.push(c);
        push_text(&mut m, "' has nothing to repeat");
        assert(m@ =~= "'"@ + seq![c] + "' has nothing to repeat"@);
        return Err(m);
    }
    let node = Node::Lit(c);
    proof {
        lemma_lit(c);
    }
    Ok((node, i + 1))
}

fn parse_item(s: &Vec<char>, i: usize) -> (r: Result<(Node, usize), String>)
    requires
        i < s.len(),
    ensures
        agrees(r, item_at(s@, i as int)),
        r matches Ok((_, j)) ==> i < j <= s.len(),
    decreases s.len() - i, 0int,
{
    let (p, j): (Node, usize);
    if s[i] == '(' {
        match parse_alternation(s, i + 1) {
            Ok((inner, k)) => {
                if !has_char(s, k, ')') {
                    return Err(copy("missing ')'"));
                }
                p = inner;
                j = k + 1;
            },
            Err(e) => {
                return Err(e);
            },
        }
    } else {
        match parse_atom(s, i) {
            Ok((inner, k)) => {
                p = inner;
                j = k;
            },
            Err(e) => {
                return Err(e);
            },
        }
    }
    match parse_suffix(s, j) {
        Err(e) => Err(e),
        Ok((None, k)) => Ok((p, k)),
        Ok((Some((min, max)), k)) => {
            let end: usize = if has_char(s, k, '?') { k + 1 } else { k };
            Ok((Node::Repeat { node: Box::new(p), min, max }, end))
        },
    }
}

/// A compiled pattern.
#[derive(Debug)]
pub struct Regex {
    root: Node,
    src: String,
}

fn copy_node(n: &Node) -> (r: Node)
    ensures
        r.pattern() == n.pattern(),
    decreases n,
{
    match n {
        Node::Empty => Node::Empty,
        Node::Lit(c) => Node::Lit(*c),
        Node::Any => Node::Any,
        Node::Class { set, negated } => Node::Class { set: copy_list(set), negated: *negated },
        Node::Then(a, b) => Node::Then(Box::new(copy_node(a)), Box::new(copy_node(b))),
        Node::Either(a, b) => Node::Either(Box::new(copy_node(a)), Box::new(copy_node(b))),
        Node::Repeat { node, min, max } => Node::Repeat {
            node: Box::new(copy_node(node)),
            min: *min,
            max: *max,
        },
    }
}

impl Clone for Regex {
    fn clone(&self) -> (r: Regex)
        ensures
            r.pattern() == self.pattern(),
            r.source() == self.source(),
    {
        Regex { root: copy_node(&self.root), src: copy(&self.src) }
    }
}

impl Regex {
    /// The pattern.
    pub closed spec fn pattern(self) -> Pattern {
        self.root.pattern()
    }

    /// The text it was compiled from.
    pub closed spec fn source(self) -> Seq<char> {
        self.src@
    }

    /// Compile a pattern; the error says what is wrong with it.
    pub fn new(pattern: &str) -> (r: Result<Regex, String>)
        requires
            pattern@.len() < usize::MAX,
        ensures
            match (r, compiled(pattern@)) {
                (Ok(x), Ok(p)) => x.pattern() == p && x.source() == pattern@,
                (Err(e), Err(f)) => e@ == f,
                _ => false,
            },
    {
        let s = chars_of(pattern);
        let mut m = copy("regular expression \"");
        push_text(&mut m, pattern);
        push_text(&mut m, "\": ");
        match parse_alternation(&s, 0) {
            Err(e) => {
                push_text(&mut m, e.as_str());
                Err(m)
            },
            Ok((root, j)) => {
                if j != s.len() {
                    push_text(&mut m, "unbalanced ')' at character ");
                    push_decimal(&mut m, (j + 1) as u64);
                    return Err(m);
                }
                Ok(Regex { root, src: copy(pattern) })
            },
        }
    }

    /// Does the pattern match the whole of `text`?
    pub fn is_match(&self, text: &str) -> (r: bool)
        requires
            text@.len() < usize::MAX,
        ensures
            r == derives(self.pattern(), text@, 0, text@.len() as int),
    {
        let t = chars_of(text);
        let m = table(&self.root, &t);
        assert(is_row(m@[0]@, self.pattern(), t@, 0));
        m[0][t.len()]
    }

    /// The text the pattern was compiled from.
    pub fn as_str(&self) -> (r: &str)
        ensures
            r@ == self.source(),
    {
        self.src.as_str()
    }
}

pub open spec fn is_meta(c: char) -> bool {
    c == '.' || c == '*' || c == '+' || c == '?' || c == '|' || c == '(' || c == '[' || c == '{' || c
        == '\\' || c == '^' || c == '$'
}

/// Does any character of a name have a meaning in a pattern?
pub open spec fn is_pattern_text(s: Seq<char>) -> bool {
    exists|i: int| 0 <= i < s.len() && is_meta(#[trigger] s[i])
}

/// Is `pattern` worth compiling? A name without any such character matches only
/// itself.
pub fn looks_like_a_pattern(pattern: &str) -> (r: bool)
    ensures
        r == is_pattern_text(pattern@),
{
    let s = chars_of(pattern);
    let mut i: usize = 0;
    while i < s.len()
        invariant
            i <= s.len(),
            s@ == pattern@,
            forall|k: int| 0 <= k < i ==> !is_meta(#[trigger] s@[k]),
        decreases s.len() - i,
    {
        let c: char = s[i];
        if c == '.' || c == '*' || c == '+' || c == '?' || c == '|' || c == '(' || c == '[' || c
            == '{' || c == '\\' || c == '^' || c == '$' {
            assert(is_meta(s@[i as int]));
            return true;
        }
        i = i + 1;
    }
    false
}

/// The pattern of a plain name.
spec fn literal_row(s: Seq<char>) -> Pattern
    decreases s.len(),
{
    if s.len() == 0 {
        Pattern::Empty
    } else if s.len() == 1 {
        Pattern::Lit(s[0])
    } else {
        Pattern::Then(Box::new(Pattern::Lit(s[0])), Box::new(literal_row(s.skip(1))))
    }
}

/// A name without any character that means something in a pattern is read up to
/// its end, or up to its first closing bracket.
proof fn lemma_plain_branch(s: Seq<char>, i: int, e: int)
    requires
        !is_pattern_text(s),
        0 <= i <= e <= s.len(),
        forall|k: int| 0 <= k < e ==> #[trigger] s[k] != ')',
        e < s.len() ==> s[e] == ')',
    ensures
        branch_at(s, i) == Ok::<(Pattern, int), Seq<char>>((literal_row(s.subrange(i, e)), e)),
    decreases e - i,
{
    let q = s.subrange(i, e);
    if i < e {
        assert(!is_meta(s[i]));
        assert(q[0] == s[i]);
        if i + 1 < s.len() {
            assert(!is_meta(s[i + 1]));
        }
        lemma_plain_branch(s, i + 1, e);
        assert(q.skip(1) =~= s.subrange(i + 1, e));
        assert(suffix_at(s, i + 1) == Ok::<(Option<(nat, Option<nat>)>, int), Seq<char>>(
            (None, i + 1),
        ));
        assert(item_at(s, i) == Ok::<(Pattern, int), Seq<char>>((Pattern::Lit(s[i]), i + 1)));
    }
}

/// The first closing bracket of a text that holds one.
proof fn lemma_first_close(s: Seq<char>, i: int) -> (e: int)
    requires
        0 <= i <= s.len(),
        forall|k: int| 0 <= k < i ==> #[trigger] s[k] != ')',
        s.contains(')'),
    ensures
        0 <= e < s.len(),
        s[e] == ')',
        forall|k: int| 0 <= k < e ==> #[trigger] s[k] != ')',
    decreases s.len() - i,
{
    if i < s.len() && s[i] == ')' {
        i
    } else if i < s.len() {
        lemma_first_close(s, i + 1)
    } else {
        0
    }
}

proof fn lemma_literal_row(q: Seq<char>, t: Seq<char>, a: int, b: int)
    requires
        0 <= a <= t.len(),
    ensures
        derives(literal_row(q), t, a, b) <==> (b == a + q.len() && b <= t.len() && t.subrange(a, b)
            == q),
    decreases q.len(),
{
    let p = literal_row(q);
    if q.len() == 0 {
        if a == b {
            assert(t.subrange(a, b) =~= q);
        }
    } else if q.len() == 1 {
        if b == a + 1 && b <= t.len() {
            if t[a] == q[0] {
                assert(t.subrange(a, b) =~= q);
            } else {
                assert(t.subrange(a, b)[0] == t[a]);
            }
        }
    } else {
        let rest = q.skip(1);
        let head = Pattern::Lit(q[0]);
        let x = relation(head, t);
        let y = relation(literal_row(rest), t);
        if derives(p, t, a, b) {
            let c = choose|c: int| a <= c <= b && #[trigger] x(a, c) && y(c, b);
            assert(c == a + 1);
            lemma_literal_row(rest, t, c, b);
            assert(t.subrange(a, b) =~= q) by {
                assert forall|k: int| 0 <= k < q.len() implies t.subrange(a, b)[k] == q[k] by {
                    if k > 0 {
                        assert(t.subrange(c, b)[k - 1] == rest[k - 1]);
                    }
                }
            }
        }
        if b == a + q.len() && b <= t.len() && t.subrange(a, b) == q {
            assert(t.subrange(a, b)[0] == t[a]);
            assert(t.subrange(a + 1, b) =~= rest) by {
                assert forall|k: int| 0 <= k < rest.len() implies t.subrange(a + 1, b)[k]
                    == rest[k] by {
                    assert(t.subrange(a, b)[k + 1] == q[k + 1]);
                }
            }
            lemma_literal_row(rest, t, a + 1, b);
            assert(x(a, a + 1) && y(a + 1, b));
            assert(derives(p, t, a, b));
        }
    }
}

/// A name without any character that means something in a pattern compiles
/// unless it holds a closing bracket, and then matches itself and nothing else.
pub proof fn plain_name_matches_itself(s: Seq<char>, t: Seq<char>)
    requires
        !is_pattern_text(s),
    ensures
        compiled(s) is Ok <==> !s.contains(')'),
        compiled(s) matches Ok(p) ==> (derives(p, t, 0, t.len() as int) <==> t == s),
{
    let e: int = if s.contains(')') { lemma_first_close(s, 0) } else { s.len() as int };
    assert forall|k: int| 0 <= k < e implies #[trigger] s[k] != ')' by {
        if !s.contains(')') {
            assert(s.contains(s[k]));
        }
    }
    lemma_plain_branch(s, 0, e);
    assert(alternation_at(s, 0) == branch_at(s, 0));
    if !s.contains(')') {
        assert(s.subrange(0, e) =~= s);
        lemma_literal_row(s, t, 0, t.len() as int);
        assert(t.subrange(0, t.len() as int) =~= t);
    }
}

} // verus!
