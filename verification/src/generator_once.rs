//! The move generator gives no move twice.
use vstd::prelude::*;
use crate::bit_help::{Dir, distance, lemma_ray_order, sees};
use crate::bits::{
    bit, has_several, lemma_bit_and, lemma_bit_not, lemma_bit_or, lemma_bit_single, lemma_bit_zero,
    lemma_rest, lemma_single_index, lemma_single_nonzero, lowest, rest, single,
};
use crate::chess_impl::{BoardState, Move, PieceType, lemma_holds, sq};
use crate::king_safety::{
    lemma_between_reversed, lemma_pinned_loop_holds, lemma_pinners_bit, lemma_sees_between,
    lies_between, pin_of, slides,
};
use crate::legal_moves::{
    PinnedPart, en_passant_barred, en_passant_move, lemma_occupancy_bit, lemma_single_from_rest,
    quiet_king_move, spec_add_loop, spec_add_moves, spec_en_passant_loop, spec_en_passant_part,
    spec_kind_on, spec_king_part, spec_moves_for_target, spec_pinned_loop, spec_pinned_part,
    spec_pinned_step, spec_pinners, spec_possible_moves, spec_sweep_loop,
};
use crate::move_generation::{lemma_between_bit, spec_between, spec_moves};
use crate::generator_laws::{
    lemma_between_on_line, lemma_one_direction, promotes_rightly, rook_way_free,
};
use crate::two_player_game::Player;

verus! {

/// Whether no move stands twice in `moves`.
pub open spec fn no_twice(moves: Seq<Move>) -> bool {
    forall|i: int, j: int| 0 <= i < j < moves.len() ==> moves[i] != moves[j]
}

/// Whether the move takes nothing, or what stands where it lands.
pub open spec fn takes_where_it_lands(x: Move) -> bool {
    x.eaten_loc == 0 || x.eaten_loc == x.to
}

/// Whether `x` is a move from `from` of a piece of kind `piece_type` to a
/// member of `targets`.
pub open spec fn goes_from(x: Move, from: u64, piece_type: PieceType, targets: u64) -> bool {
    &&& x.from == from
    &&& x.start_type == piece_type
    &&& bit(targets, sq(x.to))
    &&& x.to == single(sq(x.to))
    &&& takes_where_it_lands(x)
    &&& promotes_rightly(x)
}

/// Whether `x` promotes and castles as the generator's moves do: a pawn is
/// promoted exactly on the last rank, and castling on the queen's side
/// finds the way of the rook free.
pub open spec fn tidy(b: BoardState, x: Move) -> bool {
    promotes_rightly(x) && rook_way_free(b, x)
}

/// The moves to the members of `remaining` are new: where nothing stands
/// twice in `acc`, and no move of `acc` goes from `from` to one of them,
/// nothing stands twice after them.
pub proof fn lemma_add_loop_once(
    board: BoardState,
    from: u64,
    remaining: u64,
    piece_type: PieceType,
    enemy_occ: u64,
    acc: Seq<Move>,
)
    requires
        no_twice(acc),
        forall|k: int|
            0 <= k < acc.len() && (#[trigger] acc[k]).from == from ==> !takes_where_it_lands(acc[k])
                || (acc[k].to == single(sq(acc[k].to)) && !bit(remaining, sq(acc[k].to))),
    ensures
        no_twice(spec_add_loop(board, from, remaining, piece_type, enemy_occ, acc)),
        forall|k: int|
            0 <= k < spec_add_loop(board, from, remaining, piece_type, enemy_occ, acc).len()
                ==> acc.contains(
                #[trigger] spec_add_loop(board, from, remaining, piece_type, enemy_occ, acc)[k],
            ) || goes_from(
                spec_add_loop(board, from, remaining, piece_type, enemy_occ, acc)[k],
                from,
                piece_type,
                remaining,
            ),
    decreases remaining,
{
    let out = spec_add_loop(board, from, remaining, piece_type, enemy_occ, acc);
    if remaining != 0 {
        lemma_rest(remaining);
        let j0 = lowest(remaining);
        lemma_single_index(j0);
        let to = single(j0);
        let here = spec_moves_for_target(board, from, to, piece_type, enemy_occ);
        let acc1 = acc + here;
        assert forall|k: int| 0 <= k < here.len() implies goes_from(
            #[trigger] here[k],
            from,
            piece_type,
            remaining,
        ) && here[k].to == to by {}
        assert(no_twice(here));
        assert(no_twice(acc1)) by {
            assert forall|i: int, j: int| 0 <= i < j < acc1.len() implies acc1[i] != acc1[j] by {
                if j < acc.len() {
                    assert(acc1[i] == acc[i] && acc1[j] == acc[j]);
                } else if i >= acc.len() {
                    assert(acc1[i] == here[i - acc.len()] && acc1[j] == here[j - acc.len()]);
                } else {
                    assert(acc1[i] == acc[i] && acc1[j] == here[j - acc.len()]);
                    assert(goes_from(here[j - acc.len()], from, piece_type, remaining));
                }
            }
        }
        assert forall|k: int|
            0 <= k < acc1.len() && (#[trigger] acc1[k]).from == from implies !takes_where_it_lands(
            acc1[k],
        ) || (acc1[k].to == single(sq(acc1[k].to)) && !bit(rest(remaining), sq(acc1[k].to))) by {
            if k < acc.len() {
                assert(acc1[k] == acc[k]);
            } else {
                assert(acc1[k] == here[k - acc.len()]);
            }
        }
        lemma_add_loop_once(board, from, rest(remaining), piece_type, enemy_occ, acc1);
        assert forall|k: int| 0 <= k < out.len() implies acc.contains(#[trigger] out[k]) || goes_from(
            out[k],
            from,
            piece_type,
            remaining,
        ) by {
            let x = out[k];
            if acc1.contains(x) {
                let i = choose|i: int| 0 <= i < acc1.len() && acc1[i] == x;
                if i < acc.len() {
                    assert(acc[i] == x);
                } else {
                    assert(here[i - acc.len()] == x);
                }
            } else {
                assert(goes_from(x, from, piece_type, rest(remaining)));
            }
        }
    } else {
        assert forall|k: int| 0 <= k < out.len() implies acc.contains(#[trigger] out[k]) by {
            assert(acc[k] == out[k]);
        }
    }
}

/// A slider pins one piece, and a piece is pinned by one slider: two
/// sliders that the stage of the pinned pieces comes to do not have the
/// same piece as the only one between them and the king.
pub proof fn lemma_one_pinner_each(b: BoardState, p: Player, i: int, i2: int)
    requires
        b.wf(p),
        bit(spec_pinners(b, p), i),
        bit(spec_pinners(b, p), i2),
        pin_of(b, p, i) != 0,
        pin_of(b, p, i) == pin_of(b, p, i2),
    ensures
        i == i2,
{
    let k = sq(b.spec_get(p, PieceType::KING));
    let other = p.spec_other();
    let eo = b.spec_occupancy(other);
    let pin = pin_of(b, p, i);
    crate::bits::lemma_lowest(pin);
    let g = lowest(pin);
    lemma_bit_and(spec_between(k, i), b.spec_occupancy(p), g);
    lemma_bit_and(spec_between(k, i2), b.spec_occupancy(p), g);
    lemma_between_bit(k, i, g);
    lemma_between_bit(k, i2, g);
    lemma_between_on_line(k, i, g);
    lemma_between_on_line(k, i2, g);
    let d = choose|d: Dir| #[trigger] lies_between(k, d, g, i);
    let d2 = choose|d2: Dir| #[trigger] lies_between(k, d2, g, i2);
    lemma_one_direction(k, d, d2, g);
    lemma_pinners_bit(b, p, i);
    lemma_pinners_bit(b, p, i2);
    let (t, e) = choose|t: PieceType, e: Dir|
        slides(t, e) && bit(b.spec_get(other, t), i) && #[trigger] slides(t, e) && #[trigger] sees(
            k,
            eo,
            e,
            i,
        );
    let (t2, e2) = choose|t2: PieceType, e2: Dir|
        slides(t2, e2) && bit(b.spec_get(other, t2), i2) && #[trigger] slides(t2, e2) && #[trigger] sees(
            k,
            eo,
            e2,
            i2,
        );
    lemma_one_direction(k, d, e, i);
    lemma_one_direction(k, d, e2, i2);
    lemma_sees_between(k, eo, d, i);
    lemma_sees_between(k, eo, d, i2);
    lemma_holds(b, other, i);
    lemma_holds(b, other, i2);
    lemma_occupancy_bit(b, other, i);
    lemma_occupancy_bit(b, other, i2);
    lemma_ray_order(k, d, i, i2);
    lemma_ray_order(k, d, i2, i);
    if i != i2 {
        if distance(k, i) < distance(k, i2) {
            assert(lies_between(k, d, i, i2));
        } else {
            assert(lies_between(k, d, i2, i));
        }
    }
}

/// Whether `x` is a move that the stage of the king gives: it starts
/// where the king stands.
pub open spec fn of_king(b: BoardState, p: Player, x: Move) -> bool {
    x.from == b.spec_get(p, PieceType::KING) && takes_where_it_lands(x)
}

/// Whether `x` is a move of a piece pinned by one of the sliders that the
/// stage of the pinned pieces has come to, `remaining` being those yet to
/// come.
pub open spec fn of_pinned(b: BoardState, p: Player, x: Move, remaining: u64) -> bool {
    takes_where_it_lands(x) && exists|i: int|
        bit(spec_pinners(b, p), i) && !bit(remaining, i) && x.from == #[trigger] pin_of(b, p, i)
            && pin_of(b, p, i) != 0 && rest(pin_of(b, p, i)) == 0
}

/// The stage of the king gives no move twice.
pub proof fn lemma_king_part_once(b: BoardState, p: Player)
    requires
        b.wf(p),
    ensures
        no_twice(spec_king_part(b, p, Seq::empty()).moves),
        forall|k: int|
            0 <= k < spec_king_part(b, p, Seq::empty()).moves.len() ==> of_king(
                b,
                p,
                #[trigger] spec_king_part(b, p, Seq::empty()).moves[k],
            ) && tidy(b, spec_king_part(b, p, Seq::empty()).moves[k]),
{
    broadcast use crate::move_generation::lemma_king_attacks_bit;

    let other = p.spec_other();
    let king = b.spec_get(p, PieceType::KING);
    let fi = sq(king);
    let danger = crate::move_generation::spec_king_danger_squares(b, p);
    let targets = crate::move_generation::spec_king_attacks(fi) & !b.spec_occupancy(p) & !danger;
    let asked = targets & !b.spec_get(other, PieceType::KING);
    let enemy_occ = b.spec_occupancy(other);
    let none = Seq::<Move>::empty();
    lemma_add_loop_once(b, king, asked, PieceType::KING, enemy_occ, none);
    let m1 = spec_add_moves(b, p, king, targets, PieceType::KING, enemy_occ, none);
    assert(king == single(fi));
    lemma_single_index(fi);
    assert forall|k: int| 0 <= k < m1.len() implies goes_from(
        #[trigger] m1[k],
        king,
        PieceType::KING,
        asked,
    ) && crate::move_generation::king_step(fi, sq(m1[k].to)) && tidy(b, m1[k]) by {
        assert(!none.contains(m1[k]));
        let j = sq(m1[k].to);
        lemma_bit_and(targets, !b.spec_get(other, PieceType::KING), j);
        lemma_bit_and(
            crate::move_generation::spec_king_attacks(fi) & !b.spec_occupancy(p),
            !danger,
            j,
        );
        lemma_bit_and(crate::move_generation::spec_king_attacks(fi), !b.spec_occupancy(p), j);
    }
    let kp = spec_king_part(b, p, none);
    let c = crate::legal_moves::spec_checkers(b, p);
    if c == 0 {
        let short = quiet_king_move(king, king >> 2);
        let long = quiet_king_move(king, king << 2);
        let can_short = crate::legal_moves::can_castle_kingside(b, p, danger);
        let can_long = crate::legal_moves::can_castle_queenside(b, p, danger);
        if can_short || can_long {
            crate::chess_impl::lemma_castle_squares();
            assert(king == crate::chess_impl::king_place(p));
            assert(fi == 3 || fi == 59);
            crate::bit_help::lemma_shift_single(fi, 2);
            lemma_single_index(fi - 2);
            lemma_single_index(fi + 2);
            lemma_single_nonzero(fi - 2);
            lemma_single_nonzero(fi + 2);
            assert(sq(short.to) == fi - 2 && sq(long.to) == fi + 2);
            assert(!crate::move_generation::king_step(fi, fi - 2));
            assert(!crate::move_generation::king_step(fi, fi + 2));
            if can_long {
                // The way of the rook is free.
                let way = (spec_between(fi, fi + 3) & (danger | b.spec_all_occupancy())) | (
                spec_between(fi + 4, fi) & b.spec_all_occupancy());
                assert(way == 0);
                lemma_bit_zero(fi + 3);
                lemma_bit_or(
                    spec_between(fi, fi + 3) & (danger | b.spec_all_occupancy()),
                    spec_between(fi + 4, fi) & b.spec_all_occupancy(),
                    fi + 3,
                );
                lemma_bit_and(spec_between(fi + 4, fi), b.spec_all_occupancy(), fi + 3);
                lemma_between_bit(fi + 4, fi, fi + 3);
                crate::legal_moves::lemma_castle_between(fi, fi + 3);
                lemma_occupancy_bit(b, p, fi + 3);
                assert(b.free(fi + 3));
                assert(tidy(b, long));
            }
            if can_short {
                assert(tidy(b, short));
            }
        }
        let acc1 = if can_short {
            m1.push(short)
        } else {
            m1
        };
        assert(no_twice(acc1) && forall|k: int|
            0 <= k < acc1.len() ==> of_king(b, p, #[trigger] acc1[k]) && tidy(b, acc1[k]) && (acc1[k]
                == short || crate::move_generation::king_step(fi, sq(acc1[k].to)))) by {
            assert forall|k: int| 0 <= k < acc1.len() implies of_king(b, p, #[trigger] acc1[k])
                && tidy(b, acc1[k]) && (acc1[k] == short || crate::move_generation::king_step(
                fi,
                sq(acc1[k].to),
            )) by {
                if k < m1.len() {
                    assert(acc1[k] == m1[k]);
                }
            }
            assert forall|i: int, j: int| 0 <= i < j < acc1.len() implies acc1[i] != acc1[j] by {
                if j < m1.len() {
                    assert(acc1[i] == m1[i] && acc1[j] == m1[j]);
                } else {
                    assert(acc1[i] == m1[i]);
                }
            }
        }
        let acc2 = if can_long {
            acc1.push(long)
        } else {
            acc1
        };
        assert(kp.moves == acc2);
        assert forall|k: int| 0 <= k < acc2.len() implies of_king(b, p, #[trigger] acc2[k]) && tidy(
            b,
            acc2[k],
        ) by {
            if k < acc1.len() {
                assert(acc2[k] == acc1[k]);
            }
        }
        assert forall|i: int, j: int| 0 <= i < j < acc2.len() implies acc2[i] != acc2[j] by {
            if j < acc1.len() {
                assert(acc2[i] == acc1[i] && acc2[j] == acc1[j]);
            } else {
                assert(acc2[i] == acc1[i]);
            }
        }
    } else {
        assert(kp.moves == m1);
    }
}

/// The stage of the pinned pieces gives no move twice.
pub proof fn lemma_pinned_loop_once(
    b: BoardState,
    p: Player,
    capture_mask: u64,
    push_mask: u64,
    remaining: u64,
    acc: PinnedPart,
)
    requires
        b.wf(p),
        no_twice(acc.moves),
        forall|i: int| #[trigger] bit(remaining, i) ==> bit(spec_pinners(b, p), i),
        forall|k: int|
            0 <= k < acc.moves.len() ==> of_king(b, p, #[trigger] acc.moves[k]) || of_pinned(
                b,
                p,
                acc.moves[k],
                remaining,
            ),
        forall|k: int| 0 <= k < acc.moves.len() ==> tidy(b, #[trigger] acc.moves[k]),
    ensures
        no_twice(spec_pinned_loop(b, p, capture_mask, push_mask, remaining, acc).moves),
        forall|k: int|
            0 <= k < spec_pinned_loop(b, p, capture_mask, push_mask, remaining, acc).moves.len()
                ==> tidy(
                b,
                #[trigger] spec_pinned_loop(b, p, capture_mask, push_mask, remaining, acc).moves[k],
            ),
        forall|k: int|
            0 <= k < spec_pinned_loop(b, p, capture_mask, push_mask, remaining, acc).moves.len()
                ==> of_king(
                b,
                p,
                #[trigger] spec_pinned_loop(b, p, capture_mask, push_mask, remaining, acc).moves[k],
            ) || of_pinned(
                b,
                p,
                spec_pinned_loop(b, p, capture_mask, push_mask, remaining, acc).moves[k],
                0,
            ),
    decreases remaining,
{
    let out = spec_pinned_loop(b, p, capture_mask, push_mask, remaining, acc).moves;
    if remaining != 0 {
        lemma_rest(remaining);
        let i0 = lowest(remaining);
        let next = spec_pinned_step(b, p, capture_mask, push_mask, i0, acc);
        let k0 = sq(b.spec_get(p, PieceType::KING));
        let king = b.spec_get(p, PieceType::KING);
        let my_occ = b.spec_occupancy(p);
        let enemy_occ = b.spec_occupancy(p.spec_other());
        let pin = pin_of(b, p, i0);
        if pin != 0 && rest(pin) == 0 {
            let pin_space = single(i0) | spec_between(k0, i0);
            let piece_type = spec_kind_on(b, pin);
            let moves = spec_moves(sq(pin), p, piece_type, my_occ | enemy_occ) & pin_space & (
            capture_mask | push_mask) & !my_occ;
            let asked = moves & !b.spec_get(p.spec_other(), PieceType::KING);
            // The pinned piece is not the king, and no slider before has pinned it.
            lemma_single_from_rest(pin);
            let g = lowest(pin);
            lemma_bit_single(g, g);
            lemma_bit_and(spec_between(k0, i0), my_occ, g);
            lemma_between_bit(k0, i0, g);
            lemma_between_on_line(k0, i0, g);
            let d = choose|d: Dir| #[trigger] lies_between(k0, d, g, i0);
            lemma_between_reversed(k0, d, g, i0);
            assert(g != k0);
            lemma_bit_single(k0, g);
            assert(pin != king);
            assert forall|k: int| 0 <= k < acc.moves.len() implies (#[trigger] acc.moves[k]).from
                != pin by {
                let x = acc.moves[k];
                if x.from == pin {
                    assert(of_pinned(b, p, x, remaining));
                    let i = choose|i: int|
                        bit(spec_pinners(b, p), i) && !bit(remaining, i) && x.from == #[trigger] pin_of(
                            b,
                            p,
                            i,
                        ) && pin_of(b, p, i) != 0 && rest(pin_of(b, p, i)) == 0;
                    lemma_one_pinner_each(b, p, i, i0);
                }
            }
            lemma_add_loop_once(b, pin, asked, piece_type, enemy_occ, acc.moves);
            lemma_single_index(g);
            lemma_occupancy_bit(b, p, g);
            crate::legal_moves::lemma_type_at_own(b, p, g);
            assert(piece_type != PieceType::KING);
            assert forall|k: int| 0 <= k < next.moves.len() implies tidy(b, #[trigger] next.moves[k]) by {
                let x = next.moves[k];
                if acc.moves.contains(x) {
                    let j = choose|j: int| 0 <= j < acc.moves.len() && acc.moves[j] == x;
                    assert(tidy(b, acc.moves[j]));
                } else {
                    assert(goes_from(x, pin, piece_type, asked));
                }
            }
            assert forall|k: int| 0 <= k < next.moves.len() implies of_king(
                b,
                p,
                #[trigger] next.moves[k],
            ) || of_pinned(b, p, next.moves[k], rest(remaining)) by {
                let x = next.moves[k];
                if acc.moves.contains(x) {
                    let j = choose|j: int| 0 <= j < acc.moves.len() && acc.moves[j] == x;
                    if !of_king(b, p, x) {
                        assert(of_pinned(b, p, acc.moves[j], remaining));
                        let i = choose|i: int|
                            bit(spec_pinners(b, p), i) && !bit(remaining, i) && x.from == #[trigger] pin_of(
                                b,
                                p,
                                i,
                            ) && pin_of(b, p, i) != 0 && rest(pin_of(b, p, i)) == 0;
                        assert(!bit(rest(remaining), i));
                    }
                } else {
                    assert(goes_from(x, pin, piece_type, asked));
                    assert(!bit(rest(remaining), i0) && x.from == pin_of(b, p, i0));
                }
            }
        } else {
            assert forall|k: int| 0 <= k < next.moves.len() implies of_king(
                b,
                p,
                #[trigger] next.moves[k],
            ) || of_pinned(b, p, next.moves[k], rest(remaining)) by {
                let x = next.moves[k];
                if !of_king(b, p, x) {
                    assert(of_pinned(b, p, acc.moves[k], remaining));
                    let i = choose|i: int|
                        bit(spec_pinners(b, p), i) && !bit(remaining, i) && x.from == #[trigger] pin_of(
                            b,
                            p,
                            i,
                        ) && pin_of(b, p, i) != 0 && rest(pin_of(b, p, i)) == 0;
                    assert(!bit(rest(remaining), i));
                }
            }
        }
        lemma_pinned_loop_once(b, p, capture_mask, push_mask, rest(remaining), next);
    } else {
        assert forall|k: int| 0 <= k < out.len() implies of_king(b, p, #[trigger] out[k]) || of_pinned(
            b,
            p,
            out[k],
            0,
        ) by {}
    }
}

/// The stage of the en-passant captures gives no move twice.
pub proof fn lemma_en_passant_loop_once(
    b: BoardState,
    p: Player,
    pinned: u64,
    eaten: u64,
    remaining: u64,
    acc: Seq<Move>,
)
    requires
        no_twice(acc),
        eaten != 0,
        eaten != b.en_passant_square,
        forall|k: int|
            0 <= k < acc.len() ==> takes_where_it_lands(#[trigger] acc[k]) || (acc[k].from == single(
                sq(acc[k].from),
            ) && !bit(remaining, sq(acc[k].from))),
        forall|k: int| 0 <= k < acc.len() ==> tidy(b, #[trigger] acc[k]),
        b.en_passant_wf(p),
    ensures
        no_twice(spec_en_passant_loop(b, p, pinned, eaten, remaining, acc)),
        forall|k: int|
            0 <= k < spec_en_passant_loop(b, p, pinned, eaten, remaining, acc).len() ==> tidy(
                b,
                #[trigger] spec_en_passant_loop(b, p, pinned, eaten, remaining, acc)[k],
            ),
        forall|k: int|
            0 <= k < spec_en_passant_loop(b, p, pinned, eaten, remaining, acc).len()
                ==> acc.contains(#[trigger] spec_en_passant_loop(b, p, pinned, eaten, remaining, acc)[k])
                || !takes_where_it_lands(spec_en_passant_loop(b, p, pinned, eaten, remaining, acc)[k]),
    decreases remaining,
{
    let out = spec_en_passant_loop(b, p, pinned, eaten, remaining, acc);
    if remaining != 0 {
        lemma_rest(remaining);
        let i0 = lowest(remaining);
        lemma_single_index(i0);
        let made = en_passant_move(b, eaten, i0);
        let next = if en_passant_barred(b, p, pinned, eaten, i0) {
            acc
        } else {
            acc.push(made)
        };
        assert(no_twice(next)) by {
            assert forall|i: int, j: int| 0 <= i < j < next.len() implies next[i] != next[j] by {
                if j < acc.len() {
                    assert(next[i] == acc[i] && next[j] == acc[j]);
                } else {
                    assert(next[i] == acc[i] && next[j] == made);
                }
            }
        }
        assert forall|k: int| 0 <= k < next.len() implies takes_where_it_lands(#[trigger] next[k]) || (
        next[k].from == single(sq(next[k].from)) && !bit(rest(remaining), sq(next[k].from))) by {
            if k < acc.len() {
                assert(next[k] == acc[k]);
            }
        }
        assert forall|k: int| 0 <= k < next.len() implies tidy(b, #[trigger] next[k]) by {
            if k < acc.len() {
                assert(next[k] == acc[k]);
            } else {
                // The target lies on the third rank from the far side, not the last.
                assert(!crate::legal_moves::promotes(PieceType::PAWN, made.to));
            }
        }
        lemma_en_passant_loop_once(b, p, pinned, eaten, rest(remaining), next);
        assert forall|k: int| 0 <= k < out.len() implies acc.contains(#[trigger] out[k])
            || !takes_where_it_lands(out[k]) by {
            let x = out[k];
            if next.contains(x) {
                let j = choose|j: int| 0 <= j < next.len() && next[j] == x;
                if j < acc.len() {
                    assert(acc[j] == x);
                }
            }
        }
    } else {
        assert forall|k: int| 0 <= k < out.len() implies acc.contains(#[trigger] out[k]) by {
            assert(acc[k] == out[k]);
        }
    }
}

/// Whether `x` is a move that the generator gives before the sweep: an
/// en-passant capture, a move of the king, or a move of a pinned piece.
pub open spec fn before_sweep(b: BoardState, p: Player, pinned: u64, x: Move) -> bool {
    ||| !takes_where_it_lands(x)
    ||| x.from == b.spec_get(p, PieceType::KING)
    ||| (x.from == single(sq(x.from)) && bit(pinned, sq(x.from)))
}

/// The sweep gives no move twice, nor one that was given before it.
pub proof fn lemma_sweep_loop_once(
    b: BoardState,
    p: Player,
    checkers: u64,
    push_mask: u64,
    pinned: u64,
    remaining: u64,
    acc: Seq<Move>,
)
    requires
        b.wf(p),
        no_twice(acc),
        forall|f: int| #[trigger]
            bit(remaining, f) ==> !bit(pinned, f) && !bit(b.spec_get(p, PieceType::KING), f),
        forall|k: int|
            0 <= k < acc.len() ==> before_sweep(b, p, pinned, #[trigger] acc[k]) || (acc[k].from
                == single(sq(acc[k].from)) && !bit(remaining, sq(acc[k].from))),
        forall|f: int| #[trigger] bit(remaining, f) ==> bit(b.spec_occupancy(p), f),
        forall|k: int| 0 <= k < acc.len() ==> tidy(b, #[trigger] acc[k]),
    ensures
        no_twice(spec_sweep_loop(b, p, checkers, push_mask, remaining, acc)),
        forall|k: int|
            0 <= k < spec_sweep_loop(b, p, checkers, push_mask, remaining, acc).len() ==> tidy(
                b,
                #[trigger] spec_sweep_loop(b, p, checkers, push_mask, remaining, acc)[k],
            ),
    decreases remaining,
{
    if remaining != 0 {
        lemma_rest(remaining);
        let f0 = lowest(remaining);
        lemma_single_index(f0);
        let from = single(f0);
        let king = b.spec_get(p, PieceType::KING);
        let my_occ = b.spec_occupancy(p);
        let blockers = b.spec_all_occupancy();
        let piece_type = spec_kind_on(b, from);
        let moves = spec_moves(f0, p, piece_type, blockers) & (checkers | push_mask) & !my_occ;
        let asked = moves & !b.spec_get(p.spec_other(), PieceType::KING);
        let next = spec_add_moves(b, p, from, moves, piece_type, blockers & !my_occ, acc);
        lemma_bit_single(sq(king), f0);
        assert(from != king);
        // Of what was given before, only an en-passant capture goes from this square.
        assert forall|k: int| 0 <= k < acc.len() && (#[trigger] acc[k]).from == from
            implies !takes_where_it_lands(acc[k]) by {}
        lemma_add_loop_once(b, from, asked, piece_type, blockers & !my_occ, acc);
        lemma_occupancy_bit(b, p, f0);
        crate::legal_moves::lemma_type_at_own(b, p, f0);
        assert(piece_type != PieceType::KING);
        assert forall|k: int| 0 <= k < next.len() implies tidy(b, #[trigger] next[k]) by {
            let x = next[k];
            if acc.contains(x) {
                let j = choose|j: int| 0 <= j < acc.len() && acc[j] == x;
                assert(tidy(b, acc[j]));
            } else {
                assert(goes_from(x, from, piece_type, asked));
            }
        }
        assert forall|k: int| 0 <= k < next.len() implies before_sweep(b, p, pinned, #[trigger] next[k])
            || (next[k].from == single(sq(next[k].from)) && !bit(rest(remaining), sq(next[k].from))) by {
            let x = next[k];
            if acc.contains(x) {
                let j = choose|j: int| 0 <= j < acc.len() && acc[j] == x;
                assert(before_sweep(b, p, pinned, acc[j]) || (acc[j].from == single(sq(acc[j].from))
                    && !bit(remaining, sq(acc[j].from))));
            } else {
                assert(goes_from(x, from, piece_type, asked));
            }
        }
        lemma_sweep_loop_once(b, p, checkers, push_mask, pinned, rest(remaining), next);
    }
}

/// The generator gives no move twice.
pub proof fn lemma_generator_once(b: BoardState, p: Player)
    requires
        b.wf(p),
    ensures
        no_twice(spec_possible_moves(b, p)),
        forall|k: int|
            0 <= k < spec_possible_moves(b, p).len() ==> tidy(b, #[trigger] spec_possible_moves(b, p)[k]),
{
    reveal(spec_possible_moves);
    let other = p.spec_other();
    let king = b.spec_get(p, PieceType::KING);
    let kp = spec_king_part(b, p, Seq::empty());
    lemma_king_part_once(b, p);
    if !has_several(kp.checkers) {
        let start = PinnedPart { moves: kp.moves, pinned: 0 };
        let pinners = spec_pinners(b, p);
        lemma_pinned_loop_once(b, p, kp.checkers, kp.push_mask, pinners, start);
        let pp = spec_pinned_part(b, p, kp.checkers, kp.push_mask, kp.moves);
        assert forall|k: int| 0 <= k < pp.moves.len() implies takes_where_it_lands(
            #[trigger] pp.moves[k],
        ) && before_sweep(b, p, pp.pinned, pp.moves[k]) by {
            let x = pp.moves[k];
            if !of_king(b, p, x) {
                assert(of_pinned(b, p, x, 0));
                let i = choose|i: int|
                    bit(pinners, i) && !bit(0u64, i) && x.from == #[trigger] pin_of(b, p, i) && pin_of(
                        b,
                        p,
                        i,
                    ) != 0 && rest(pin_of(b, p, i)) == 0;
                lemma_single_from_rest(pin_of(b, p, i));
                let g = lowest(pin_of(b, p, i));
                lemma_single_index(g);
                lemma_pinned_loop_holds(b, p, kp.checkers, kp.push_mask, pinners, start, i, g);
            }
        }
        let ep = b.en_passant_square;
        let m3 = spec_en_passant_part(b, p, kp.checkers, kp.push_mask, pp.pinned, pp.moves);
        assert(no_twice(m3) && forall|k: int|
            0 <= k < m3.len() ==> before_sweep(b, p, pp.pinned, #[trigger] m3[k]) && tidy(b, m3[k])) by {
            if ep != 0 {
                let eaten = crate::move_generation::spec_pawn_moves(other, sq(ep), 0);
                let pawns = crate::move_generation::spec_pawn_captures(
                    other,
                    sq(ep),
                    b.spec_get(p, PieceType::PAWN),
                );
                if (eaten & kp.checkers) | (ep & kp.push_mask) != 0 {
                    if pawns != 0 {
                        crate::bits::lemma_lowest(pawns);
                        crate::king_safety::lemma_en_passant_setup(b, p, lowest(pawns));
                        lemma_en_passant_loop_once(b, p, pp.pinned, eaten, pawns, pp.moves);
                        assert forall|k: int| 0 <= k < m3.len() implies before_sweep(
                            b,
                            p,
                            pp.pinned,
                            #[trigger] m3[k],
                        ) && tidy(b, m3[k]) by {
                            let x = m3[k];
                            if pp.moves.contains(x) {
                                let j = choose|j: int| 0 <= j < pp.moves.len() && pp.moves[j] == x;
                                assert(before_sweep(b, p, pp.pinned, pp.moves[j]));
                            }
                        }
                    } else {
                        assert(m3 == pp.moves);
                    }
                }
            }
        }
        let can_move = b.spec_occupancy(p) & !pp.pinned & !king;
        assert forall|f: int| #[trigger] bit(can_move, f) implies !bit(pp.pinned, f) && !bit(
            king,
            f,
        ) && bit(b.spec_occupancy(p), f) by {
            lemma_bit_and(b.spec_occupancy(p) & !pp.pinned, !king, f);
            lemma_bit_and(b.spec_occupancy(p), !pp.pinned, f);
            lemma_bit_not(pp.pinned, f);
            lemma_bit_not(king, f);
        }
        lemma_sweep_loop_once(b, p, kp.checkers, kp.push_mask, pp.pinned, can_move, m3);
    }
}

} // verus!
