//! What precedence climbing computes, stated without the climbing: an
//! expression is a primary and a chain of operators with their operands, and
//! its tree has at the root the last of the operators that bind loosest.

use vstd::prelude::*;
use crate::grammar::{
    lemma_operand_shrinks, lemma_primary_shrinks, operator, parse_bin_rhs, parse_expr,
    parse_operand, parse_primary, precedence, Parse,
};
use crate::printer::operator_token;
use crate::syntax::ExprView;
use crate::token::{nth, token_item, Item};

verus! {

/// An operator and the operand behind it.
pub struct Step {
    pub op: char,
    pub operand: ExprView,
}

/// How tightly the operator that `op` names binds.
pub open spec fn binding(op: char) -> int {
    precedence(token_item(operator_token(op)))
}

/// Whether the step at `k` is the last of those whose operators bind
/// loosest: none before it binds looser, and all after it bind tighter.
pub open spec fn is_root(steps: Seq<Step>, k: int) -> bool {
    &&& 0 <= k < steps.len()
    &&& forall|i: int| 0 <= i < k ==> binding(#[trigger] steps[i].op) >= binding(steps[k].op)
    &&& forall|i: int|
        k < i < steps.len() ==> binding(#[trigger] steps[i].op) > binding(steps[k].op)
}

/// The place of the last of the steps whose operators bind loosest.
pub open spec fn root_index(steps: Seq<Step>) -> int
    decreases steps.len(),
{
    if steps.len() <= 1 {
        0
    } else {
        let k = root_index(steps.drop_last());
        if binding(steps.last().op) <= binding(steps[k].op) {
            steps.len() - 1
        } else {
            k
        }
    }
}

/// `root_index` finds the root.
pub proof fn lemma_root_index(steps: Seq<Step>)
    requires
        steps.len() > 0,
    ensures
        is_root(steps, root_index(steps)),
    decreases steps.len(),
{
    if steps.len() > 1 {
        let front = steps.drop_last();
        lemma_root_index(front);
        let k = root_index(front);
        assert(front[k] == steps[k]);
        assert forall|i: int| 0 <= i < steps.len() - 1 implies #[trigger] steps[i] == front[i] by {}
        if binding(steps.last().op) <= binding(steps[k].op) {
            let n = steps.len() - 1;
            assert forall|i: int| 0 <= i < n implies binding(#[trigger] steps[i].op) >= binding(
                steps[n].op,
            ) by {
                assert(steps[i] == front[i]);
                if i < k {
                    assert(binding(front[i].op) >= binding(front[k].op));
                } else if i > k {
                    assert(binding(front[i].op) > binding(front[k].op));
                }
            }
        } else {
            assert forall|i: int| 0 <= i < k implies binding(#[trigger] steps[i].op) >= binding(
                steps[k].op,
            ) by {
                assert(steps[i] == front[i]);
                assert(binding(front[i].op) >= binding(front[k].op));
            }
            assert forall|i: int| k < i < steps.len() implies binding(#[trigger] steps[i].op)
                > binding(steps[k].op) by {
                if i < steps.len() - 1 {
                    assert(steps[i] == front[i]);
                    assert(binding(front[i].op) > binding(front[k].op));
                }
            }
        }
    }
}

/// There is one root only.
pub proof fn lemma_root_unique(steps: Seq<Step>, k: int)
    requires
        is_root(steps, k),
    ensures
        root_index(steps) == k,
{
    lemma_root_index(steps);
    let r = root_index(steps);
    if r < k {
        assert(binding(steps[r].op) >= binding(steps[k].op));
        assert(binding(steps[k].op) > binding(steps[r].op));
    } else if r > k {
        assert(binding(steps[k].op) >= binding(steps[r].op));
        assert(binding(steps[r].op) > binding(steps[k].op));
    }
}

/// The tree of an operand and the chain behind it. The root is the last of
/// the operators that bind loosest; what stands before it is its left
/// operand, what stands after it its right operand. So operators that bind
/// tighter lie deeper, and operators that bind alike group to the left.
pub open spec fn tree(first: ExprView, steps: Seq<Step>) -> ExprView
    decreases steps.len(),
    via tree_decreases
{
    if steps.len() == 0 {
        first
    } else {
        let k = root_index(steps);
        ExprView::Bin(
            Box::new(tree(first, steps.take(k))),
            steps[k].op,
            Box::new(tree(steps[k].operand, steps.skip(k + 1))),
        )
    }
}

#[via_fn]
proof fn tree_decreases(first: ExprView, steps: Seq<Step>) {
    if steps.len() > 0 {
        lemma_root_index(steps);
    }
}

/// The first operator of a chain takes as its right operand the steps that
/// follow it and bind tighter than it, up to the first that does not; the
/// operation so made is the first operand of the chain that is left.
pub proof fn lemma_tree_absorb(first: ExprView, steps: Seq<Step>, j: int)
    requires
        1 <= j <= steps.len(),
        forall|i: int| 1 <= i < j ==> binding(#[trigger] steps[i].op) > binding(steps[0].op),
        j < steps.len() ==> binding(steps[j].op) <= binding(steps[0].op),
    ensures
        tree(first, steps) == tree(
            ExprView::Bin(
                Box::new(first),
                steps[0].op,
                Box::new(tree(steps[0].operand, steps.subrange(1, j))),
            ),
            steps.skip(j),
        ),
    decreases steps.len(),
{
    let p = binding(steps[0].op);
    let head = ExprView::Bin(
        Box::new(first),
        steps[0].op,
        Box::new(tree(steps[0].operand, steps.subrange(1, j))),
    );
    lemma_root_index(steps);
    let k = root_index(steps);
    if j == steps.len() {
        assert(is_root(steps, 0));
        lemma_root_unique(steps, 0);
        assert(steps.take(0) =~= Seq::<Step>::empty());
        assert(steps.skip(1) =~= steps.subrange(1, j));
        assert(steps.skip(j) =~= Seq::<Step>::empty());
        assert(tree(first, steps.take(0)) == first);
        assert(tree(head, steps.skip(j)) == head);
    } else {
        assert(k >= j) by {
            if k == 0 {
                assert(binding(steps[j].op) > p);
            } else if k < j {
                assert(binding(steps[0].op) >= binding(steps[k].op));
                assert(binding(steps[k].op) > p);
            }
        }
        let left = steps.take(k);
        let tail = steps.skip(j);
        assert(is_root(tail, k - j)) by {
            assert(tail[k - j] == steps[k]);
            assert forall|i: int| 0 <= i < k - j implies binding(#[trigger] tail[i].op)
                >= binding(tail[k - j].op) by {
                assert(tail[i] == steps[i + j]);
                assert(binding(steps[i + j].op) >= binding(steps[k].op));
            }
            assert forall|i: int| k - j < i < tail.len() implies binding(#[trigger] tail[i].op)
                > binding(tail[k - j].op) by {
                assert(tail[i] == steps[i + j]);
                assert(binding(steps[i + j].op) > binding(steps[k].op));
            }
        }
        lemma_root_unique(tail, k - j);
        assert(tail.skip(k - j + 1) =~= steps.skip(k + 1));
        assert(tail.take(k - j) =~= left.skip(j));
        assert(left.subrange(1, j) =~= steps.subrange(1, j));
        assert(left[0] == steps[0]);
        assert forall|i: int| 1 <= i < j implies binding(#[trigger] left[i].op) > binding(
            left[0].op,
        ) by {
            assert(left[i] == steps[i]);
            assert(binding(steps[i].op) > binding(steps[0].op));
        }
        if j < left.len() {
            assert(left[j] == steps[j]);
        }
        lemma_tree_absorb(first, left, j);
        assert(tree(first, left) == tree(head, left.skip(j)));
        assert(tree(head, tail) == ExprView::Bin(
            Box::new(tree(head, tail.take(k - j))),
            tail[k - j].op,
            Box::new(tree(tail[k - j].operand, tail.skip(k - j + 1))),
        ));
    }
}

/// `(binop primary)*`: the chain of the operators that bind at least as
/// tightly as `min_prec`, each with the primary behind it, up to the first
/// item that is no such operator.
pub open spec fn parse_chain(s: Seq<Item>, min_prec: int) -> Parse<Seq<Step>>
    decreases s.len(),
    via parse_chain_decreases
{
    match operator(nth(s, 0)) {
        Some(op) if precedence(nth(s, 0)) >= min_prec => {
            let (operand, rest) = parse_primary(s.drop_first());
            match operand {
                Ok(operand) => {
                    let (more, rest) = parse_chain(rest, min_prec);
                    match more {
                        Ok(more) => (Ok(seq![Step { op, operand }] + more), rest),
                        Err(e) => (Err(e), rest),
                    }
                },
                Err(e) => (Err(e), rest),
            }
        },
        _ => (Ok(Seq::empty()), s),
    }
}

#[via_fn]
proof fn parse_chain_decreases(s: Seq<Item>, min_prec: int) {
    lemma_primary_shrinks(s.drop_first());
}

/// The tree of `first` and a chain that was parsed; the error of one that
/// was not.
pub open spec fn grow(first: ExprView, chain: Parse<Seq<Step>>) -> Parse<ExprView> {
    match chain.0 {
        Ok(steps) => (Ok(tree(first, steps)), chain.1),
        Err(e) => (Err(e), chain.1),
    }
}

/// A chain that was parsed, made longer by the chain of the operators that
/// bind at least as tightly as `min_prec` and follow it.
pub open spec fn extend(chain: Parse<Seq<Step>>, min_prec: int) -> Parse<Seq<Step>> {
    match chain.0 {
        Ok(steps) => match parse_chain(chain.1, min_prec).0 {
            Ok(more) => (Ok(steps + more), parse_chain(chain.1, min_prec).1),
            Err(e) => (Err(e), parse_chain(chain.1, min_prec).1),
        },
        Err(e) => (Err(e), chain.1),
    }
}

/// An operator binds as the precedence of its token says.
pub proof fn lemma_operator_binding(item: Item)
    ensures
        operator(item) matches Some(op) ==> precedence(item) == binding(op) && binding(op) >= 10,
        operator(item) is None ==> precedence(item) == -1,
{
}

/// The operators of a chain bind at least as tightly as the chain asked,
/// the first of them stands at the front of the stream, and no such
/// operator stands at the front of what the chain leaves.
pub proof fn lemma_chain_bounds(s: Seq<Item>, min_prec: int)
    requires
        min_prec >= 0,
    ensures
        parse_chain(s, min_prec).1.len() <= s.len(),
        parse_chain(s, min_prec).0 matches Ok(steps) ==> forall|i: int|
            0 <= i < steps.len() ==> binding(#[trigger] steps[i].op) >= min_prec,
        parse_chain(s, min_prec).0 matches Ok(steps) ==> (steps.len() > 0 ==> operator(nth(s, 0))
            == Some(steps[0].op)),
        parse_chain(s, min_prec).0 matches Ok(steps) ==> (steps.len() == 0 ==> parse_chain(
            s,
            min_prec,
        ).1 == s),
        parse_chain(s, min_prec).0 is Ok ==> precedence(nth(parse_chain(s, min_prec).1, 0))
            < min_prec,
    decreases s.len(),
{
    lemma_operator_binding(nth(s, 0));
    if operator(nth(s, 0)) is Some && precedence(nth(s, 0)) >= min_prec {
        let op = operator(nth(s, 0))->Some_0;
        lemma_primary_shrinks(s.drop_first());
        let (operand, rest) = parse_primary(s.drop_first());
        if operand is Ok {
            lemma_chain_bounds(rest, min_prec);
            let (more, left) = parse_chain(rest, min_prec);
            if more is Ok {
                let step = Step { op, operand: operand->Ok_0 };
                let steps = seq![step] + more->Ok_0;
                assert(steps[0] == step);
                assert forall|i: int| 0 <= i < steps.len() implies binding(
                    #[trigger] steps[i].op,
                ) >= min_prec by {
                    if i > 0 {
                        assert(steps[i] == (more->Ok_0)[i - 1]);
                    }
                }
            }
        }
    }
}

/// A chain is the chain of the operators that bind tighter still, made
/// longer by what follows that.
pub proof fn lemma_chain_split(s: Seq<Item>, min_prec: int, tighter: int)
    requires
        min_prec <= tighter,
    ensures
        parse_chain(s, min_prec) == extend(parse_chain(s, tighter), min_prec),
    decreases s.len(),
{
    if operator(nth(s, 0)) is Some && precedence(nth(s, 0)) >= tighter {
        let op = operator(nth(s, 0))->Some_0;
        lemma_primary_shrinks(s.drop_first());
        let (operand, rest) = parse_primary(s.drop_first());
        if operand is Ok {
            lemma_chain_split(rest, min_prec, tighter);
            let step = Step { op, operand: operand->Ok_0 };
            let (inner, mid) = parse_chain(rest, tighter);
            if inner is Ok {
                let (more, left) = parse_chain(mid, min_prec);
                if more is Ok {
                    assert(seq![step] + (inner->Ok_0 + more->Ok_0) =~= (seq![step] + inner->Ok_0)
                        + more->Ok_0);
                }
            }
        }
    } else {
        let (more, left) = parse_chain(s, min_prec);
        if more is Ok {
            assert(Seq::<Step>::empty() + more->Ok_0 =~= more->Ok_0);
        }
    }
}

/// Precedence climbing builds the tree of the chain: what is parsed behind
/// a left operand is the tree of that operand and of the chain of the
/// operators that bind at least as tightly as `min_prec`.
pub proof fn lemma_bin_rhs_is_tree(s: Seq<Item>, lhs: ExprView, min_prec: int)
    requires
        min_prec >= 0,
    ensures
        parse_bin_rhs(s, lhs, min_prec) == grow(lhs, parse_chain(s, min_prec)),
    decreases s.len(),
{
    lemma_operator_binding(nth(s, 0));
    let prec = precedence(nth(s, 0));
    if prec >= min_prec {
        let op = operator(nth(s, 0))->Some_0;
        let t = s.drop_first();
        lemma_primary_shrinks(t);
        lemma_operand_shrinks(t, prec);
        let (first, r1) = parse_primary(t);
        if first is Ok {
            let x = first->Ok_0;
            let step = Step { op, operand: x };
            // the right operand is the tree of the steps that bind tighter
            lemma_bin_rhs_is_tree(r1, x, prec + 1);
            lemma_chain_bounds(r1, prec + 1);
            lemma_chain_split(r1, min_prec, prec + 1);
            let (inner, r2) = parse_chain(r1, prec + 1);
            assert(parse_operand(t, prec) == grow(x, (inner, r2)));
            if inner is Ok {
                let a = inner->Ok_0;
                let rhs = tree(x, a);
                let next = ExprView::Bin(Box::new(lhs), op, Box::new(rhs));
                lemma_bin_rhs_is_tree(r2, next, min_prec);
                lemma_chain_bounds(r2, min_prec);
                let (outer, r3) = parse_chain(r2, min_prec);
                if outer is Ok {
                    let c = outer->Ok_0;
                    let steps = seq![step] + (a + c);
                    let j = (1 + a.len()) as int;
                    assert(steps[0] == step);
                    assert(steps.subrange(1, j) =~= a);
                    assert(steps.skip(j) =~= c);
                    assert forall|i: int| 1 <= i < j implies binding(#[trigger] steps[i].op)
                        > binding(steps[0].op) by {
                        assert(steps[i] == a[i - 1]);
                        assert(binding(a[i - 1].op) >= prec + 1);
                    }
                    if j < steps.len() {
                        assert(steps[j] == c[0]);
                        lemma_operator_binding(nth(r2, 0));
                    }
                    lemma_tree_absorb(lhs, steps, j);
                }
            }
        }
    }
}

/// An expression is a primary and the chain of all the operators behind it,
/// and its tree is the tree of that chain.
pub proof fn lemma_expr_is_tree(s: Seq<Item>)
    ensures
        parse_primary(s).0 matches Ok(first) ==> parse_expr(s) == grow(
            first,
            parse_chain(parse_primary(s).1, 0),
        ),
        parse_primary(s).0 is Err ==> parse_expr(s) == parse_primary(s),
{
    lemma_primary_shrinks(s);
    if parse_primary(s).0 is Ok {
        lemma_bin_rhs_is_tree(parse_primary(s).1, parse_primary(s).0->Ok_0, 0);
    }
}

} // verus!
