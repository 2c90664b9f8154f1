use vstd::prelude::*;
use crate::types::{Move, captures_of};

verus! {

/// The move captures at least one piece.
pub open spec fn is_capture_move(mv: Move) -> bool {
    captures_of(mv).squares().len() > 0
}

/// Sort key: the remembered best move first, then captures, then the rest.
pub open spec fn priority(mv: Move, tt_move: Option<Move>) -> u8 {
    if Some(mv) == tt_move {
        0
    } else if is_capture_move(mv) {
        1
    } else {
        2
    }
}

/// Moves of sort key `k`, as a predicate.
pub open spec fn has_priority(tt_move: Option<Move>, k: u8) -> spec_fn(Move) -> bool {
    |mv: Move| priority(mv, tt_move) == k
}

/// `moves` stably sorted by `priority`.
pub open spec fn ordered(moves: Seq<Move>, tt_move: Option<Move>) -> Seq<Move> {
    moves.filter(has_priority(tt_move, 0)) + moves.filter(has_priority(tt_move, 1)) + moves.filter(
        has_priority(tt_move, 2),
    )
}

/// Orders `moves` in place to maximize alpha-beta cutoffs: the
/// transposition table's remembered best move first (if present among
/// `moves`), then capturing moves, then everything else in generation
/// order (a stable sort by priority).
pub fn order_moves(moves: &mut Vec<Move>, tt_move: Option<Move>)
    ensures
        final(moves)@ == ordered(old(moves)@, tt_move),
{
    let ghost orig = moves@;
    let mut first: Vec<Move> = Vec::new();
    let mut captures: Vec<Move> = Vec::new();
    let mut rest: Vec<Move> = Vec::new();
    let mut i: usize = 0;
    proof {
        reveal(Seq::filter);
        assert(orig.take(0) =~= Seq::<Move>::empty());
    }
    while i < moves.len()
        invariant
            i <= moves@.len(),
            moves@ == orig,
            first@ == orig.take(i as int).filter(has_priority(tt_move, 0)),
            captures@ == orig.take(i as int).filter(has_priority(tt_move, 1)),
            rest@ == orig.take(i as int).filter(has_priority(tt_move, 2)),
        decreases moves@.len() - i,
    {
        let mv = moves[i];
        let p = move_priority(mv, tt_move);
        proof {
            reveal(Seq::filter);
            assert(orig.take(i + 1).drop_last() =~= orig.take(i as int));
            assert(orig.take(i + 1).last() == mv);
        }
        if p == 0 {
            first.push(mv);
        } else if p == 1 {
            captures.push(mv);
        } else {
            rest.push(mv);
        }
        i = i + 1;
    }
    proof {
        assert(orig.take(orig.len() as int) =~= orig);
    }
    first.append(&mut captures);
    first.append(&mut rest);
    *moves = first;
}

fn move_priority(mv: Move, tt_move: Option<Move>) -> (r: u8)
    ensures
        r == priority(mv, tt_move),
{
    if Some(mv) == tt_move {
        0
    } else if is_capture(mv) {
        1
    } else {
        2
    }
}

/// Whether the move captures.
pub fn is_capture(mv: Move) -> (r: bool)
    ensures
        r == is_capture_move(mv),
{
    match mv {
        Move::Place { captures, .. } => !captures.is_empty(),
        Move::Slide { captures, .. } => !captures.is_empty(),
        Move::Fly { captures, .. } => !captures.is_empty(),
    }
}

/// Ordering only rearranges: the same moves, each as often as before.
pub proof fn lemma_ordered_permutation(moves: Seq<Move>, tt_move: Option<Move>)
    ensures
        ordered(moves, tt_move).to_multiset() =~= moves.to_multiset(),
    decreases moves.len(),
{
    broadcast use vstd::seq_lib::lemma_multiset_commutative, vstd::seq_lib::to_multiset_build,
        vstd::multiset::group_multiset_axioms;

    reveal(Seq::filter);
    if moves.len() == 0 {
        assert(moves.filter(has_priority(tt_move, 0)) =~= moves);
        assert(moves.filter(has_priority(tt_move, 1)) =~= moves);
        assert(moves.filter(has_priority(tt_move, 2)) =~= moves);
        assert(ordered(moves, tt_move) =~= moves);
    } else {
        let init = moves.drop_last();
        let last = moves.last();
        lemma_ordered_permutation(init, tt_move);
        assert(moves =~= init.push(last));
        let a = init.filter(has_priority(tt_move, 0));
        let b = init.filter(has_priority(tt_move, 1));
        let c = init.filter(has_priority(tt_move, 2));
        assert((a + b + c).to_multiset() =~= a.to_multiset().add(b.to_multiset()).add(c.to_multiset()));
        let k = priority(last, tt_move);
        if k == 0 {
            assert((a.push(last) + b + c).to_multiset() =~= a.to_multiset().insert(last).add(b.to_multiset()).add(c.to_multiset()));
        } else if k == 1 {
            assert((a + b.push(last) + c).to_multiset() =~= a.to_multiset().add(b.to_multiset().insert(last)).add(c.to_multiset()));
        } else {
            assert((a + b + c.push(last)).to_multiset() =~= a.to_multiset().add(b.to_multiset()).add(c.to_multiset().insert(last)));
        }
    }
}

/// The remembered best move, when it is among the moves, comes first.
pub proof fn lemma_tt_move_first(moves: Seq<Move>, t: Move)
    requires
        moves.contains(t),
    ensures
        ordered(moves, Some(t))[0] == t,
{
    let p = has_priority(Some(t), 0);
    let i = choose|i: int| 0 <= i < moves.len() && moves[i] == t;
    moves.lemma_filter_contains(p, i);
    moves.lemma_filter_pred(p, 0);
}

/// Without a remembered move, every capture comes before every quiet move.
pub proof fn lemma_captures_first(moves: Seq<Move>)
    ensures
        forall|i: int, j: int| 0 <= i < j < ordered(moves, None).len() && is_capture_move(
            #[trigger] ordered(moves, None)[j],
        ) ==> is_capture_move(#[trigger] ordered(moves, None)[i]),
{
    let a = moves.filter(has_priority(None, 0));
    let b = moves.filter(has_priority(None, 1));
    let c = moves.filter(has_priority(None, 2));
    let o = ordered(moves, None);
    assert(a.len() == 0) by {
        if a.len() > 0 {
            moves.lemma_filter_pred(has_priority(None, 0), 0);
        }
    }
    assert forall|i: int, j: int| 0 <= i < j < o.len() && is_capture_move(#[trigger] o[j]) implies is_capture_move(
        #[trigger] o[i],
    ) by {
        if j >= b.len() {
            moves.lemma_filter_pred(has_priority(None, 2), j - b.len());
            assert(o[j] == c[j - b.len()]);
        }
        assert(o[i] == b[i]);
        moves.lemma_filter_pred(has_priority(None, 1), i);
    }
}

/// Ordering sorts by priority: the remembered move, then captures, then
/// the rest.
pub proof fn lemma_ordered_priority(moves: Seq<Move>, tt_move: Option<Move>)
    ensures
        forall|a: int, b: int| 0 <= a < b < ordered(moves, tt_move).len()
            ==> priority(#[trigger] ordered(moves, tt_move)[a], tt_move) <= priority(
            #[trigger] ordered(moves, tt_move)[b],
            tt_move,
        ),
{
    let f0 = moves.filter(has_priority(tt_move, 0));
    let f1 = moves.filter(has_priority(tt_move, 1));
    let f2 = moves.filter(has_priority(tt_move, 2));
    let o = ordered(moves, tt_move);
    assert forall|k: int| 0 <= k < o.len() implies priority(#[trigger] o[k], tt_move) == (if k < f0.len() {
        0u8
    } else if k < f0.len() + f1.len() {
        1u8
    } else {
        2u8
    }) by {
        if k < f0.len() {
            moves.lemma_filter_pred(has_priority(tt_move, 0), k);
        } else if k < f0.len() + f1.len() {
            moves.lemma_filter_pred(has_priority(tt_move, 1), k - f0.len());
        } else {
            moves.lemma_filter_pred(has_priority(tt_move, 2), k - f0.len() - f1.len());
        }
    }
}

proof fn lemma_filter_class(moves: Seq<Move>, tt_move: Option<Move>, j: u8, k: u8)
    ensures
        moves.filter(has_priority(tt_move, j)).filter(has_priority(tt_move, k)) == (if j == k {
            moves.filter(has_priority(tt_move, k))
        } else {
            Seq::empty()
        }),
    decreases moves.len(),
{
    reveal(Seq::filter);
    if moves.len() > 0 {
        lemma_filter_class(moves.drop_last(), tt_move, j, k);
        let f = moves.drop_last().filter(has_priority(tt_move, j));
        if priority(moves.last(), tt_move) == j {
            assert(f.push(moves.last()).drop_last() =~= f);
        }
    }
}

/// Ordering is stable: the moves of each priority keep their relative
/// order.
pub proof fn lemma_ordered_stable(moves: Seq<Move>, tt_move: Option<Move>, k: u8)
    ensures
        ordered(moves, tt_move).filter(has_priority(tt_move, k)) == moves.filter(has_priority(tt_move, k)),
{
    broadcast use Seq::filter_distributes_over_add;

    lemma_filter_class(moves, tt_move, 0, k);
    lemma_filter_class(moves, tt_move, 1, k);
    lemma_filter_class(moves, tt_move, 2, k);
    let p = has_priority(tt_move, k);
    let f0 = moves.filter(has_priority(tt_move, 0));
    let f1 = moves.filter(has_priority(tt_move, 1));
    let f2 = moves.filter(has_priority(tt_move, 2));
    assert((f0 + f1 + f2).filter(p) == (f0 + f1).filter(p) + f2.filter(p));
    assert((f0 + f1).filter(p) == f0.filter(p) + f1.filter(p));
    if k > 2 {
        reveal(Seq::filter);
        lemma_no_priority_above_two(moves, tt_move, k);
    }
    assert((f0 + f1 + f2).filter(p) =~= moves.filter(p));
}

proof fn lemma_no_priority_above_two(moves: Seq<Move>, tt_move: Option<Move>, k: u8)
    requires
        k > 2,
    ensures
        moves.filter(has_priority(tt_move, k)) == Seq::<Move>::empty(),
    decreases moves.len(),
{
    reveal(Seq::filter);
    if moves.len() > 0 {
        lemma_no_priority_above_two(moves.drop_last(), tt_move, k);
    }
}

/// Ordering keeps the length, and every ordered move is one of the inputs.
pub proof fn lemma_ordered_members(moves: Seq<Move>, tt_move: Option<Move>)
    ensures
        ordered(moves, tt_move).len() == moves.len(),
        forall|k: int| 0 <= k < moves.len() ==> moves.contains(#[trigger] ordered(moves, tt_move)[k]),
{
    broadcast use vstd::seq_lib::to_multiset_len, vstd::seq_lib::to_multiset_contains;

    lemma_ordered_permutation(moves, tt_move);
    let o = ordered(moves, tt_move);
    assert(o.len() == o.to_multiset().len());
    assert forall|k: int| 0 <= k < moves.len() implies moves.contains(#[trigger] o[k]) by {
        assert(o.contains(o[k]));
        assert(o.to_multiset().count(o[k]) > 0);
    }
}

/// Keeping the elements that all satisfy a predicate keeps everything.
proof fn lemma_filter_all(s: Seq<Move>, p: spec_fn(Move) -> bool)
    requires
        forall|i: int| 0 <= i < s.len() ==> p(#[trigger] s[i]),
    ensures
        s.filter(p) == s,
    decreases s.len(),
{
    reveal(Seq::filter);
    if s.len() > 0 {
        lemma_filter_all(s.drop_last(), p);
        assert(s.drop_last().push(s.last()) =~= s);
    }
}

/// Keeping the elements that none satisfies keeps nothing.
proof fn lemma_filter_none(s: Seq<Move>, p: spec_fn(Move) -> bool)
    requires
        forall|i: int| 0 <= i < s.len() ==> !p(#[trigger] s[i]),
    ensures
        s.filter(p) == Seq::<Move>::empty(),
    decreases s.len(),
{
    reveal(Seq::filter);
    if s.len() > 0 {
        lemma_filter_none(s.drop_last(), p);
    }
}

/// A list of captures is already in order when no move is remembered.
pub proof fn lemma_ordered_captures(moves: Seq<Move>)
    requires
        forall|i: int| 0 <= i < moves.len() ==> is_capture_move(#[trigger] moves[i]),
    ensures
        ordered(moves, None) == moves,
{
    lemma_filter_none(moves, has_priority(None, 0));
    lemma_filter_all(moves, has_priority(None, 1));
    lemma_filter_none(moves, has_priority(None, 2));
    assert(ordered(moves, None) =~= moves);
}

} // verus!
