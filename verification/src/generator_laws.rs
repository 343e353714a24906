//! The move generator leaves no legal move out: every move that fits the
//! board, promotes and castles by the rules and leaves the king unattacked
//! is among the moves it gives.
use vstd::prelude::*;
use crate::bit_help::{
    Dir, distance, file_of, is_step, lemma_ray_order, lemma_shift_single, on_ray, rank_of, sees,
};
use crate::bits::{
    bit, has_several, lemma_bit_and, lemma_bit_not, lemma_bit_or, lemma_bit_single, lemma_rest,
    lemma_test_single, lowest, rest, single,
};
use crate::chess_impl::{
    BoardState, Move, PieceType, king_place, kingside_rook, lemma_apply_bits, lemma_castle_squares,
    lemma_fits_shape, lemma_holds, queenside_rook, sq,
};
use crate::king_safety::{
    castles_rightly, castling_rook, king_attacked, lemma_after_move, lemma_between_reversed,
    lemma_castle_occupancy, lemma_checkers_bit, lemma_en_passant_setup, lemma_kind_attacks_monotone,
    lemma_pinners_bit, lemma_sees_between, lemma_sees_symmetric, lemma_slider_attack, lies_between,
    passed_by_king, passed_pawn, pin_of, safe_after, slides,
};
use crate::legal_moves::{
    PinnedPart, can_castle_kingside, can_castle_queenside, en_passant_barred, en_passant_move,
    lemma_castle_between, lemma_common, lemma_occupancy_bit, lemma_single_from_rest,
    lemma_type_at_enemy, promotes, quiet_king_move, spec_add_loop, spec_add_moves,
    spec_castle_moves, spec_checkers, spec_eaten, spec_en_passant_loop, spec_en_passant_part,
    spec_kind_on, spec_king_part, spec_move, spec_moves_for_target, spec_pinned_loop,
    spec_pinned_part, spec_pinned_step, spec_pinners, spec_possible_moves, spec_push_mask,
    spec_sweep_loop,
};
use crate::move_generation::{
    attacked, attacks_as, attacks_from, between, forward, kind_attacks, knight_jump,
    lemma_between_bit, lemma_king_attacks_bit, lemma_king_danger_bit, lemma_pawn_captures_bit,
    lemma_pawn_moves_bit, lemma_rook_attacks_bit, pawn_attack, spec_between, spec_king_attacks,
    spec_king_danger_squares, spec_moves, spec_pawn_captures, spec_pawn_moves, spec_rook_attacks,
};
use crate::two_player_game::Player;

verus! {

/// The moves to the members of `remaining` come after `acc`: what was
/// gathered stays, and the moves to each member are added.
pub proof fn lemma_add_loop_has(
    board: BoardState,
    from: u64,
    remaining: u64,
    piece_type: PieceType,
    enemy_occ: u64,
    acc: Seq<Move>,
    x: Move,
)
    ensures
        acc.contains(x) ==> spec_add_loop(board, from, remaining, piece_type, enemy_occ, acc).contains(
            x,
        ),
        forall|j: int| #[trigger]
            bit(remaining, j) && spec_moves_for_target(
                board,
                from,
                single(j),
                piece_type,
                enemy_occ,
            ).contains(x) ==> spec_add_loop(
                board,
                from,
                remaining,
                piece_type,
                enemy_occ,
                acc,
            ).contains(x),
    decreases remaining,
{
    if remaining != 0 {
        lemma_rest(remaining);
        let here = spec_moves_for_target(board, from, single(lowest(remaining)), piece_type, enemy_occ);
        let acc1 = acc + here;
        lemma_add_loop_has(board, from, rest(remaining), piece_type, enemy_occ, acc1, x);
        if acc.contains(x) {
            let k = choose|k: int| 0 <= k < acc.len() && acc[k] == x;
            assert(acc1[k] == x);
        }
        if here.contains(x) {
            let k = choose|k: int| 0 <= k < here.len() && here[k] == x;
            assert(acc1[acc.len() + k] == x);
        }
        assert forall|j: int| #[trigger]
            bit(remaining, j) && spec_moves_for_target(
                board,
                from,
                single(j),
                piece_type,
                enemy_occ,
            ).contains(x) implies spec_add_loop(
            board,
            from,
            remaining,
            piece_type,
            enemy_occ,
            acc,
        ).contains(x) by {
            if j != lowest(remaining) {
                assert(bit(rest(remaining), j));
            }
        }
    } else {
        assert forall|j: int| !#[trigger] bit(remaining, j) by {
            crate::bits::lemma_bit_zero(j);
        }
    }
}

/// The stage of the pinned pieces keeps what was gathered.
pub proof fn lemma_pinned_loop_keeps(
    board: BoardState,
    player: Player,
    capture_mask: u64,
    push_mask: u64,
    remaining: u64,
    acc: PinnedPart,
    x: Move,
)
    requires
        acc.moves.contains(x),
    ensures
        spec_pinned_loop(board, player, capture_mask, push_mask, remaining, acc).moves.contains(x),
    decreases remaining,
{
    if remaining != 0 {
        lemma_rest(remaining);
        let i = lowest(remaining);
        let next = spec_pinned_step(board, player, capture_mask, push_mask, i, acc);
        let k = sq(board.spec_get(player, PieceType::KING));
        let my_occ = board.spec_occupancy(player);
        let enemy_occ = board.spec_occupancy(player.spec_other());
        let pin = crate::move_generation::spec_between(k, i) & my_occ;
        if pin != 0 && rest(pin) == 0 {
            let pin_space = single(i) | crate::move_generation::spec_between(k, i);
            let piece_type = crate::legal_moves::spec_kind_on(board, pin);
            let moves = crate::move_generation::spec_moves(
                sq(pin),
                player,
                piece_type,
                my_occ | enemy_occ,
            ) & pin_space & (capture_mask | push_mask) & !my_occ;
            lemma_add_loop_has(
                board,
                pin,
                moves & !board.spec_get(player.spec_other(), PieceType::KING),
                piece_type,
                enemy_occ,
                acc.moves,
                x,
            );
        }
        lemma_pinned_loop_keeps(board, player, capture_mask, push_mask, rest(remaining), next, x);
    }
}

/// The stage of the en-passant captures keeps what was gathered.
pub proof fn lemma_en_passant_loop_keeps(
    board: BoardState,
    player: Player,
    pinned: u64,
    eaten: u64,
    remaining: u64,
    acc: Seq<Move>,
    x: Move,
)
    requires
        acc.contains(x),
    ensures
        spec_en_passant_loop(board, player, pinned, eaten, remaining, acc).contains(x),
    decreases remaining,
{
    if remaining != 0 {
        lemma_rest(remaining);
        let i = lowest(remaining);
        let next = if crate::legal_moves::en_passant_barred(board, player, pinned, eaten, i) {
            acc
        } else {
            acc.push(crate::legal_moves::en_passant_move(board, eaten, i))
        };
        let k = choose|k: int| 0 <= k < acc.len() && acc[k] == x;
        assert(next[k] == x);
        lemma_en_passant_loop_keeps(board, player, pinned, eaten, rest(remaining), next, x);
    }
}

/// The sweep over the other pieces keeps what was gathered.
pub proof fn lemma_sweep_loop_keeps(
    board: BoardState,
    player: Player,
    checkers: u64,
    push_mask: u64,
    remaining: u64,
    acc: Seq<Move>,
    x: Move,
)
    requires
        acc.contains(x),
    ensures
        spec_sweep_loop(board, player, checkers, push_mask, remaining, acc).contains(x),
    decreases remaining,
{
    if remaining != 0 {
        lemma_rest(remaining);
        let p = single(lowest(remaining));
        let my_occ = board.spec_occupancy(player);
        let blockers = board.spec_all_occupancy();
        let piece_type = crate::legal_moves::spec_kind_on(board, p);
        let moves = crate::move_generation::spec_moves(lowest(remaining), player, piece_type, blockers)
            & (checkers | push_mask) & !my_occ;
        let next = spec_add_moves(board, player, p, moves, piece_type, blockers & !my_occ, acc);
        lemma_add_loop_has(
            board,
            p,
            moves & !board.spec_get(player.spec_other(), PieceType::KING),
            piece_type,
            blockers & !my_occ,
            acc,
            x,
        );
        lemma_sweep_loop_keeps(board, player, checkers, push_mask, rest(remaining), next, x);
    }
}

/// What the first stage of the generator finds is among the moves that
/// the generator gives.
pub proof fn lemma_king_part_stays(board: BoardState, player: Player, x: Move)
    requires
        spec_king_part(board, player, Seq::empty()).moves.contains(x),
    ensures
        spec_possible_moves(board, player).contains(x),
{
    reveal(spec_possible_moves);
    let kp = spec_king_part(board, player, Seq::empty());
    if !has_several(kp.checkers) {
        lemma_pinned_loop_keeps(
            board,
            player,
            kp.checkers,
            kp.push_mask,
            crate::legal_moves::spec_pinners(board, player),
            PinnedPart { moves: kp.moves, pinned: 0 },
            x,
        );
        let pp = spec_pinned_part(board, player, kp.checkers, kp.push_mask, kp.moves);
        let enemy = player.spec_other();
        let ep = board.en_passant_square;
        let m3 = spec_en_passant_part(board, player, kp.checkers, kp.push_mask, pp.pinned, pp.moves);
        if ep != 0 {
            let eaten = crate::move_generation::spec_pawn_moves(enemy, sq(ep), 0);
            if (eaten & kp.checkers) | (ep & kp.push_mask) != 0 {
                lemma_en_passant_loop_keeps(
                    board,
                    player,
                    pp.pinned,
                    eaten,
                    crate::move_generation::spec_pawn_captures(
                        enemy,
                        sq(ep),
                        board.spec_get(player, PieceType::PAWN),
                    ),
                    pp.moves,
                    x,
                );
            }
        }
        assert(m3.contains(x));
        let can_move = board.spec_occupancy(player) & !pp.pinned & !board.spec_get(
            player,
            PieceType::KING,
        );
        lemma_sweep_loop_keeps(board, player, kp.checkers, kp.push_mask, can_move, m3, x);
    }
}

/// A piece does not attack the square it stands on.
pub proof fn lemma_attack_goes_away(t: PieceType, attacker: Player, occ: u64, s: int, j: int)
    requires
        kind_attacks(t, attacker, occ, s, j),
    ensures
        s != j,
        0 <= s < 64,
        0 <= j < 64,
{
}

/// A step of the king onto a danger square leaves the king attacked.
pub proof fn lemma_king_step_unsafe(b: BoardState, p: Player, m: Move)
    requires
        b.wf(p),
        b.fits(p, m),
        m.start_type == PieceType::KING,
        !m.is_castle(),
        bit(spec_king_danger_squares(b, p), sq(m.to)),
    ensures
        !safe_after(b, p, m),
{
    let a = b.spec_apply(p, m);
    let other = p.spec_other();
    let fi = sq(m.from);
    let ti = sq(m.to);
    let occ = b.spec_all_occupancy();
    let king = b.spec_get(p, PieceType::KING);
    let occ_nok = occ & !king;
    let occ_after = a.spec_all_occupancy();
    lemma_after_move(b, p, m);
    lemma_fits_shape(b, p, m);
    lemma_king_danger_bit(b, p, ti);
    lemma_bit_single(sq(king), fi);
    assert(king == single(fi));
    let s = choose|s: int| #[trigger] attacks_from(b, other, occ_nok, s, ti);
    let t = choose|t: PieceType| attacks_as(b, t, other, occ_nok, s, ti);
    lemma_attack_goes_away(t, other, occ_nok, s, ti);
    assert forall|d: Dir, x: int| #[trigger] bit(occ_after, x) && #[trigger] lies_between(
        s,
        d,
        x,
        ti,
    ) implies bit(occ_nok, x) by {
        lemma_bit_and(occ, !king, x);
        lemma_bit_not(king, x);
        lemma_bit_single(fi, x);
        lemma_between_reversed(s, d, x, ti);
    }
    lemma_kind_attacks_monotone(t, other, occ_nok, occ_after, s, ti);
    // The attacker is still there: the king takes on the square it lands on only.
    lemma_apply_bits(b, p, m, other, t, s);
    assert(bit(a.spec_get(other, t), s));
    assert(attacks_as(a, t, other, occ_after, s, ti));
    assert(attacks_from(a, other, occ_after, s, ti));
    assert(king_attacked(a, p));
}

/// The move that the generator makes of a fitting move's squares is that
/// move: what a move takes is settled by where it lands.
pub proof fn lemma_move_rebuilt(b: BoardState, p: Player, m: Move)
    requires
        b.wf(p),
        b.fits(p, m),
        m.eaten_loc == 0 || m.eaten_loc == m.to,
    ensures
        spec_move(
            m.from,
            m.to,
            m.start_type,
            m.end_type,
            spec_eaten(b, m.to, b.spec_occupancy(p.spec_other())),
        ) == m,
        spec_move(
            m.from,
            m.to,
            m.start_type,
            m.end_type,
            spec_eaten(b, m.to, b.spec_all_occupancy() & !b.spec_occupancy(p)),
        ) == m,
        !bit(b.spec_get(p.spec_other(), PieceType::KING), sq(m.to)),
{
    let other = p.spec_other();
    let ti = sq(m.to);
    let enemy_occ = b.spec_occupancy(other);
    let not_mine = b.spec_all_occupancy() & !b.spec_occupancy(p);
    lemma_occupancy_bit(b, other, ti);
    lemma_occupancy_bit(b, p, ti);
    lemma_test_single(enemy_occ, ti);
    lemma_test_single(not_mine, ti);
    lemma_bit_and(b.spec_all_occupancy(), !b.spec_occupancy(p), ti);
    lemma_bit_not(b.spec_occupancy(p), ti);
    lemma_holds(b, other, ti);
    lemma_holds(b, p, ti);
    if b.holds(other, ti) {
        lemma_type_at_enemy(b, p, ti);
        assert(m.eaten_loc != 0);
        assert(sq(m.eaten_loc) == ti);
        let found = b.spec_type_at(single(ti))->0;
        assert(bit(b.spec_get(other, found.1), ti));
        assert(bit(b.spec_get(other, m.eaten_type), ti));
        assert(found.1 == m.eaten_type);
    } else {
        if m.eaten_loc != 0 {
            assert(bit(b.spec_get(other, m.eaten_type), sq(m.eaten_loc)));
        }
    }
}

/// No step of the king is left out: every step of the king that fits the
/// board and leaves the king unattacked is among the moves that the
/// generator gives.
pub proof fn lemma_king_steps_complete(b: BoardState, p: Player, m: Move)
    requires
        b.wf(p),
        b.fits(p, m),
        m.start_type == PieceType::KING,
        !m.is_castle(),
        safe_after(b, p, m),
    ensures
        spec_possible_moves(b, p).contains(m),
{
    let other = p.spec_other();
    let fi = sq(m.from);
    let ti = sq(m.to);
    let king = b.spec_get(p, PieceType::KING);
    let danger = spec_king_danger_squares(b, p);
    let enemy_occ = b.spec_occupancy(other);
    lemma_fits_shape(b, p, m);
    lemma_bit_single(sq(king), fi);
    assert(king == m.from);
    if bit(danger, ti) {
        lemma_king_step_unsafe(b, p, m);
    }
    lemma_move_rebuilt(b, p, m);
    let targets = spec_king_attacks(sq(king)) & !b.spec_occupancy(p) & !danger;
    let asked = targets & !b.spec_get(other, PieceType::KING);
    assert(bit(asked, ti)) by {
        lemma_bit_and(targets, !b.spec_get(other, PieceType::KING), ti);
        lemma_bit_not(b.spec_get(other, PieceType::KING), ti);
        lemma_bit_and(spec_king_attacks(sq(king)) & !b.spec_occupancy(p), !danger, ti);
        lemma_bit_and(spec_king_attacks(sq(king)), !b.spec_occupancy(p), ti);
        lemma_bit_not(b.spec_occupancy(p), ti);
        lemma_bit_not(danger, ti);
        lemma_king_attacks_bit(fi, ti);
        lemma_occupancy_bit(b, p, ti);
    }
    let made = spec_moves_for_target(b, king, single(ti), PieceType::KING, enemy_occ);
    assert(made[0] == m);
    assert(made.contains(m));
    lemma_add_loop_has(b, king, asked, PieceType::KING, enemy_occ, Seq::empty(), m);
    let m1 = spec_add_moves(b, p, king, targets, PieceType::KING, enemy_occ, Seq::empty());
    assert(m1.contains(m));
    let kp = spec_king_part(b, p, Seq::empty());
    assert(kp.moves.contains(m)) by {
        let k = choose|k: int| 0 <= k < m1.len() && m1[k] == m;
        let castled = spec_castle_moves(b, p, 0, danger, m1);
        assert(castled[k] == m);
    }
    lemma_king_part_stays(b, p, m);
}

/// A check that is left unanswered stays: where a piece other than the
/// king moves, and neither takes the piece that gives check nor lands
/// between it and the king, the king is attacked after the move.
pub proof fn lemma_unanswered_check(b: BoardState, p: Player, m: Move, s: int)
    requires
        b.wf(p),
        b.fits(p, m),
        m.start_type != PieceType::KING,
        0 <= s < 64,
        bit(spec_checkers(b, p), s),
        !(m.eaten_loc != 0 && s == sq(m.eaten_loc)),
        !between(sq(b.spec_get(p, PieceType::KING)), s, sq(m.to)),
    ensures
        !safe_after(b, p, m),
{
    let a = b.spec_apply(p, m);
    let other = p.spec_other();
    let k = sq(b.spec_get(p, PieceType::KING));
    let ti = sq(m.to);
    let occ = b.spec_all_occupancy();
    let occ_after = a.spec_all_occupancy();
    lemma_fits_shape(b, p, m);
    lemma_after_move(b, p, m);
    lemma_checkers_bit(b, p, s);
    let t = choose|t: PieceType| t != PieceType::KING && #[trigger] attacks_as(b, t, other, occ, s, k);
    assert forall|d: Dir, x: int| #[trigger] bit(occ_after, x) && #[trigger] lies_between(
        s,
        d,
        x,
        k,
    ) implies bit(occ, x) by {
        if x == ti {
            lemma_between_reversed(s, d, x, k);
            assert(between(k, s, ti)) by {
                match d {
                    Dir::North => {},
                    Dir::South => {},
                    Dir::East => {},
                    Dir::West => {},
                    Dir::NorthEast => {},
                    Dir::NorthWest => {},
                    Dir::SouthEast => {},
                    Dir::SouthWest => {},
                }
            }
        }
    }
    lemma_kind_attacks_monotone(t, other, occ, occ_after, s, k);
    lemma_apply_bits(b, p, m, other, t, s);
    assert(bit(a.spec_get(other, t), s));
    assert(attacks_as(a, t, other, occ_after, s, k));
    assert(attacks_from(a, other, occ_after, s, k));
    assert(king_attacked(a, p));
}

/// A pinned piece that leaves the line opens it: where the piece on the
/// move alone stands between the king and a slider of the opponent, and
/// lands neither between the two nor on the slider, the king is attacked
/// after the move.
pub proof fn lemma_pin_left(b: BoardState, p: Player, m: Move, i: int)
    requires
        b.wf(p),
        b.fits(p, m),
        m.start_type != PieceType::KING,
        0 <= i < 64,
        bit(spec_pinners(b, p), i),
        pin_of(b, p, i) == m.from,
        sq(m.to) != i,
        !between(sq(b.spec_get(p, PieceType::KING)), i, sq(m.to)),
    ensures
        !safe_after(b, p, m),
{
    let a = b.spec_apply(p, m);
    let other = p.spec_other();
    let k = sq(b.spec_get(p, PieceType::KING));
    let fi = sq(m.from);
    let ti = sq(m.to);
    let occ = b.spec_all_occupancy();
    let eo = b.spec_occupancy(other);
    let occ_after = a.spec_all_occupancy();
    lemma_fits_shape(b, p, m);
    lemma_after_move(b, p, m);
    lemma_pinners_bit(b, p, i);
    let (t, d) = choose|t: PieceType, d: Dir|
        slides(t, d) && bit(b.spec_get(other, t), i) && #[trigger] slides(t, d) && #[trigger] sees(
            k,
            eo,
            d,
            i,
        );
    lemma_sees_between(k, eo, d, i);
    lemma_sees_between(k, occ_after, d, i);
    assert forall|x: int| #[trigger] bit(occ_after, x) implies !lies_between(k, d, x, i) by {
        if lies_between(k, d, x, i) {
            lemma_between_reversed(k, d, x, i);
            assert(between(k, i, x)) by {
                match d {
                    Dir::North => {},
                    Dir::South => {},
                    Dir::East => {},
                    Dir::West => {},
                    Dir::NorthEast => {},
                    Dir::NorthWest => {},
                    Dir::SouthEast => {},
                    Dir::SouthWest => {},
                }
            }
            assert(x != ti);
            assert(bit(occ, x) && x != fi);
            lemma_occupancy_bit(b, p, x);
            lemma_occupancy_bit(b, other, x);
            assert(!bit(eo, x));
            assert(b.holds(p, x));
            lemma_between_bit(k, i, x);
            lemma_bit_and(spec_between(k, i), b.spec_occupancy(p), x);
            assert(bit(pin_of(b, p, i), x));
            lemma_bit_single(fi, x);
        }
    }
    assert(sees(k, occ_after, d, i));
    lemma_sees_symmetric(k, occ_after, d, i);
    assert(sees(i, occ_after, d.spec_flip(), k));
    assert(slides(t, d.spec_flip())) by {
        match d {
            Dir::North => {},
            Dir::South => {},
            Dir::East => {},
            Dir::West => {},
            Dir::NorthEast => {},
            Dir::NorthWest => {},
            Dir::SouthEast => {},
            Dir::SouthWest => {},
        }
    }
    lemma_slider_attack(t, other, occ_after, i, k);
    assert(kind_attacks(t, other, occ_after, i, k));
    lemma_apply_bits(b, p, m, other, t, i);
    assert(bit(a.spec_get(other, t), i));
    assert(attacks_as(a, t, other, occ_after, i, k));
    assert(attacks_from(a, other, occ_after, i, k));
    assert(king_attacked(a, p));
}

/// The targets that the sweep asks for the piece on `f`.
pub open spec fn sweep_targets(b: BoardState, p: Player, checkers: u64, push_mask: u64, f: int) -> u64 {
    spec_moves(f, p, spec_kind_on(b, single(f)), b.spec_all_occupancy()) & (checkers | push_mask)
        & !b.spec_occupancy(p) & !b.spec_get(p.spec_other(), PieceType::KING)
}

/// The sweep gives the moves of each piece it comes to, to each of the
/// targets that it asks for.
pub proof fn lemma_sweep_has(
    b: BoardState,
    p: Player,
    checkers: u64,
    push_mask: u64,
    remaining: u64,
    acc: Seq<Move>,
    f: int,
    j: int,
    x: Move,
)
    requires
        bit(remaining, f),
        bit(sweep_targets(b, p, checkers, push_mask, f), j),
        spec_moves_for_target(
            b,
            single(f),
            single(j),
            spec_kind_on(b, single(f)),
            b.spec_all_occupancy() & !b.spec_occupancy(p),
        ).contains(x),
    ensures
        spec_sweep_loop(b, p, checkers, push_mask, remaining, acc).contains(x),
    decreases remaining,
{
    if remaining != 0 {
        lemma_rest(remaining);
        let f0 = lowest(remaining);
        let from = single(f0);
        let my_occ = b.spec_occupancy(p);
        let blockers = b.spec_all_occupancy();
        let piece_type = spec_kind_on(b, from);
        let moves = spec_moves(f0, p, piece_type, blockers) & (checkers | push_mask) & !my_occ;
        let next = spec_add_moves(b, p, from, moves, piece_type, blockers & !my_occ, acc);
        if f == f0 {
            lemma_add_loop_has(
                b,
                from,
                moves & !b.spec_get(p.spec_other(), PieceType::KING),
                piece_type,
                blockers & !my_occ,
                acc,
                x,
            );
            lemma_sweep_loop_keeps(b, p, checkers, push_mask, rest(remaining), next, x);
        } else {
            lemma_sweep_has(b, p, checkers, push_mask, rest(remaining), next, f, j, x);
        }
    } else {
        crate::bits::lemma_bit_zero(f);
    }
}

/// The targets that the stage of the pinned pieces asks for the piece
/// pinned by the slider on `i`.
pub open spec fn pinned_targets(b: BoardState, p: Player, capture_mask: u64, push_mask: u64, i: int) -> u64 {
    let k = sq(b.spec_get(p, PieceType::KING));
    let my_occ = b.spec_occupancy(p);
    let enemy_occ = b.spec_occupancy(p.spec_other());
    let pin = pin_of(b, p, i);
    spec_moves(sq(pin), p, spec_kind_on(b, pin), my_occ | enemy_occ) & (single(i) | spec_between(k, i))
        & (capture_mask | push_mask) & !my_occ & !b.spec_get(p.spec_other(), PieceType::KING)
}

/// The stage of the pinned pieces gives the moves of each piece that it
/// finds pinned, to each of the targets that it asks for.
pub proof fn lemma_pinned_has(
    b: BoardState,
    p: Player,
    capture_mask: u64,
    push_mask: u64,
    remaining: u64,
    acc: PinnedPart,
    i: int,
    j: int,
    x: Move,
)
    requires
        bit(remaining, i),
        pin_of(b, p, i) != 0,
        rest(pin_of(b, p, i)) == 0,
        bit(pinned_targets(b, p, capture_mask, push_mask, i), j),
        spec_moves_for_target(
            b,
            pin_of(b, p, i),
            single(j),
            spec_kind_on(b, pin_of(b, p, i)),
            b.spec_occupancy(p.spec_other()),
        ).contains(x),
    ensures
        spec_pinned_loop(b, p, capture_mask, push_mask, remaining, acc).moves.contains(x),
    decreases remaining,
{
    if remaining != 0 {
        lemma_rest(remaining);
        let i0 = lowest(remaining);
        let next = spec_pinned_step(b, p, capture_mask, push_mask, i0, acc);
        if i == i0 {
            let k = sq(b.spec_get(p, PieceType::KING));
            let my_occ = b.spec_occupancy(p);
            let enemy_occ = b.spec_occupancy(p.spec_other());
            let pin = pin_of(b, p, i);
            let piece_type = spec_kind_on(b, pin);
            let moves = spec_moves(sq(pin), p, piece_type, my_occ | enemy_occ) & (single(i)
                | spec_between(k, i)) & (capture_mask | push_mask) & !my_occ;
            lemma_add_loop_has(
                b,
                pin,
                moves & !b.spec_get(p.spec_other(), PieceType::KING),
                piece_type,
                enemy_occ,
                acc.moves,
                x,
            );
            lemma_pinned_loop_keeps(b, p, capture_mask, push_mask, rest(remaining), next, x);
        } else {
            lemma_pinned_has(b, p, capture_mask, push_mask, rest(remaining), next, i, j, x);
        }
    } else {
        crate::bits::lemma_bit_zero(i);
    }
}

/// A piece that the stage of the pinned pieces marks is the one piece of
/// its player between the king and one of the sliders that the stage comes
/// to.
pub proof fn lemma_pinned_has_pinner(
    b: BoardState,
    p: Player,
    capture_mask: u64,
    push_mask: u64,
    remaining: u64,
    acc: PinnedPart,
    f: int,
)
    requires
        0 <= f < 64,
        !bit(acc.pinned, f),
        bit(spec_pinned_loop(b, p, capture_mask, push_mask, remaining, acc).pinned, f),
    ensures
        exists|i: int| #[trigger] bit(remaining, i) && pin_of(b, p, i) == single(f),
    decreases remaining,
{
    if remaining != 0 {
        lemma_rest(remaining);
        let i0 = lowest(remaining);
        let next = spec_pinned_step(b, p, capture_mask, push_mask, i0, acc);
        let pin = pin_of(b, p, i0);
        if bit(next.pinned, f) {
            lemma_bit_or(acc.pinned, pin, f);
            assert(pin != 0 && rest(pin) == 0);
            lemma_single_from_rest(pin);
            lemma_bit_single(lowest(pin), f);
            assert(bit(remaining, i0) && pin_of(b, p, i0) == single(f));
        } else {
            lemma_pinned_has_pinner(b, p, capture_mask, push_mask, rest(remaining), next, f);
            let i = choose|i: int| #[trigger] bit(rest(remaining), i) && pin_of(b, p, i) == single(f);
            assert(bit(remaining, i) && pin_of(b, p, i) == single(f));
        }
    }
}

/// What the stage of the pinned pieces finds is among the moves that the
/// generator gives.
pub proof fn lemma_pinned_part_stays(b: BoardState, p: Player, x: Move)
    requires
        !has_several(spec_checkers(b, p)),
        spec_pinned_part(
            b,
            p,
            spec_checkers(b, p),
            spec_push_mask(b, p),
            spec_king_part(b, p, Seq::empty()).moves,
        ).moves.contains(x),
    ensures
        spec_possible_moves(b, p).contains(x),
{
    reveal(spec_possible_moves);
    let kp = spec_king_part(b, p, Seq::empty());
    let pp = spec_pinned_part(b, p, kp.checkers, kp.push_mask, kp.moves);
    let enemy = p.spec_other();
    let ep = b.en_passant_square;
    let m3 = spec_en_passant_part(b, p, kp.checkers, kp.push_mask, pp.pinned, pp.moves);
    if ep != 0 {
        let eaten = spec_pawn_moves(enemy, sq(ep), 0);
        if (eaten & kp.checkers) | (ep & kp.push_mask) != 0 {
            lemma_en_passant_loop_keeps(
                b,
                p,
                pp.pinned,
                eaten,
                spec_pawn_captures(enemy, sq(ep), b.spec_get(p, PieceType::PAWN)),
                pp.moves,
                x,
            );
        }
    }
    assert(m3.contains(x));
    let can_move = b.spec_occupancy(p) & !pp.pinned & !b.spec_get(p, PieceType::KING);
    lemma_sweep_loop_keeps(b, p, kp.checkers, kp.push_mask, can_move, m3, x);
}

/// Whether a pawn that moves is made a queen, rook, bishop or knight
/// exactly where it reaches the last rank.
pub open spec fn promotes_rightly(m: Move) -> bool {
    m.start_type == PieceType::PAWN ==> ((m.end_type != PieceType::PAWN) == promotes(
        PieceType::PAWN,
        m.to,
    ))
}

/// A move that fits the board goes to a square that the tables give for
/// its piece, where it is no move of the king and takes, if anything, what
/// stands where it lands.
pub proof fn lemma_fitting_target(b: BoardState, p: Player, m: Move)
    requires
        b.wf(p),
        b.fits(p, m),
        m.start_type != PieceType::KING,
        m.eaten_loc == 0 || m.eaten_loc == m.to,
    ensures
        bit(spec_moves(sq(m.from), p, m.start_type, b.spec_all_occupancy()), sq(m.to)),
        bit(
            spec_moves(
                sq(m.from),
                p,
                m.start_type,
                b.spec_occupancy(p) | b.spec_occupancy(p.spec_other()),
            ),
            sq(m.to),
        ),
        !bit(b.spec_occupancy(p), sq(m.to)),
        spec_kind_on(b, m.from) == m.start_type,
        bit(b.spec_occupancy(p), sq(m.from)),
        !bit(b.spec_get(p, PieceType::KING), sq(m.from)),
{
    let other = p.spec_other();
    let fi = sq(m.from);
    let ti = sq(m.to);
    let occ = b.spec_all_occupancy();
    lemma_fits_shape(b, p, m);
    lemma_occupancy_bit(b, p, ti);
    lemma_occupancy_bit(b, other, ti);
    lemma_occupancy_bit(b, p, fi);
    lemma_holds(b, p, fi);
    lemma_holds(b, other, ti);
    crate::legal_moves::lemma_type_at_own(b, p, fi);
    assert(b.spec_occupancy(p) | b.spec_occupancy(other) == occ) by {
        bv_or_either_way(b.spec_occupancy(p), b.spec_occupancy(other));
    }
    if m.start_type == PieceType::PAWN {
        let d = forward(p);
        lemma_pawn_moves_bit(p, fi, occ, ti);
        lemma_pawn_captures_bit(p, fi, occ, ti);
        lemma_bit_or(spec_pawn_moves(p, fi, occ), spec_pawn_captures(p, fi, occ), ti);
        if m.eaten_loc != 0 {
            assert(sq(m.eaten_loc) == ti);
            assert(b.holds(other, ti));
        } else {
            assert(b.free(ti));
            if !is_step(fi, d, 1, ti) {
                lemma_occupancy_bit(b, p, fi + d.delta());
            }
        }
    }
}

proof fn bv_or_either_way(a: u64, b: u64)
    by (bit_vector)
    ensures
        a | b == b | a,
{
}

/// The moves that the generator makes for the squares of a fitting move
/// hold that move, where it promotes as it must.
pub proof fn lemma_made_for_target(b: BoardState, p: Player, m: Move)
    requires
        b.wf(p),
        b.fits(p, m),
        m.eaten_loc == 0 || m.eaten_loc == m.to,
        promotes_rightly(m),
    ensures
        spec_moves_for_target(b, m.from, m.to, m.start_type, b.spec_occupancy(p.spec_other())).contains(
            m,
        ),
        spec_moves_for_target(
            b,
            m.from,
            m.to,
            m.start_type,
            b.spec_all_occupancy() & !b.spec_occupancy(p),
        ).contains(m),
{
    lemma_move_rebuilt(b, p, m);
    let first = spec_moves_for_target(b, m.from, m.to, m.start_type, b.spec_occupancy(p.spec_other()));
    let second = spec_moves_for_target(
        b,
        m.from,
        m.to,
        m.start_type,
        b.spec_all_occupancy() & !b.spec_occupancy(p),
    );
    if promotes(m.start_type, m.to) {
        match m.end_type {
            PieceType::QUEEN => {
                assert(first[0] == m && second[0] == m);
            },
            PieceType::ROOK => {
                assert(first[1] == m && second[1] == m);
            },
            PieceType::BISHOP => {
                assert(first[2] == m && second[2] == m);
            },
            PieceType::KNIGHT => {
                assert(first[3] == m && second[3] == m);
            },
            _ => {},
        }
    } else {
        assert(first[0] == m && second[0] == m);
    }
}

/// No move of a piece other than the king is left out while there is one
/// check at most: every such move that fits the board, takes nothing or
/// what stands where it lands, promotes as it must and leaves the king
/// unattacked is among the moves that the generator gives.
pub proof fn lemma_piece_moves_complete(b: BoardState, p: Player, m: Move)
    requires
        b.wf(p),
        b.fits(p, m),
        m.start_type != PieceType::KING,
        m.eaten_loc == 0 || m.eaten_loc == m.to,
        promotes_rightly(m),
        safe_after(b, p, m),
        !has_several(spec_checkers(b, p)),
    ensures
        spec_possible_moves(b, p).contains(m),
{
    reveal(spec_possible_moves);
    let other = p.spec_other();
    let fi = sq(m.from);
    let ti = sq(m.to);
    let k = sq(b.spec_get(p, PieceType::KING));
    let c = spec_checkers(b, p);
    let push = spec_push_mask(b, p);
    let occ = b.spec_all_occupancy();
    let my_occ = b.spec_occupancy(p);
    let enemy_king = b.spec_get(other, PieceType::KING);
    lemma_fits_shape(b, p, m);
    lemma_fitting_target(b, p, m);
    lemma_made_for_target(b, p, m);
    lemma_move_rebuilt(b, p, m);
    // The move deals with the check.
    assert(bit(c | push, ti)) by {
        lemma_bit_or(c, push, ti);
        if c == 0 {
            lemma_bit_not(0u64, ti);
            crate::bits::lemma_bit_zero(ti);
        } else {
            lemma_single_from_rest(c);
            let s = lowest(c);
            lemma_bit_single(s, s);
            crate::bits::lemma_single_index(s);
            assert(sq(c) == s);
            if !(m.eaten_loc != 0 && s == sq(m.eaten_loc)) && !between(k, s, ti) {
                lemma_unanswered_check(b, p, m, s);
            }
            lemma_between_bit(k, s, ti);
            lemma_bit_single(s, ti);
        }
    }
    let kp = spec_king_part(b, p, Seq::empty());
    let pp = spec_pinned_part(b, p, kp.checkers, kp.push_mask, kp.moves);
    assert(kp.checkers == c && kp.push_mask == push);
    if bit(pp.pinned, fi) {
        crate::bits::lemma_bit_zero(fi);
        lemma_pinned_has_pinner(
            b,
            p,
            c,
            push,
            spec_pinners(b, p),
            PinnedPart { moves: kp.moves, pinned: 0 },
            fi,
        );
        let i = choose|i: int| #[trigger] bit(spec_pinners(b, p), i) && pin_of(b, p, i) == single(fi);
        assert(0 <= i < 64);
        if !(ti == i || between(k, i, ti)) {
            lemma_pin_left(b, p, m, i);
        }
        let pin = pin_of(b, p, i);
        assert(pin == m.from);
        crate::bits::lemma_single_nonzero(fi);
        crate::bits::lemma_single_index(fi);
        assert(rest(pin) == 0) by {
            assert forall|x: int| 0 <= x < 64 implies !#[trigger] bit(rest(pin), x) by {
                lemma_rest(pin);
                lemma_bit_single(fi, x);
            }
            crate::bits::lemma_no_members(rest(pin));
        }
        let space = single(i) | spec_between(k, i);
        assert(bit(pinned_targets(b, p, c, push, i), ti)) by {
            let enemy_occ = b.spec_occupancy(other);
            let moves = spec_moves(sq(pin), p, spec_kind_on(b, pin), my_occ | enemy_occ);
            lemma_bit_or(single(i), spec_between(k, i), ti);
            lemma_bit_single(i, ti);
            lemma_between_bit(k, i, ti);
            lemma_bit_and(moves, space, ti);
            lemma_bit_and(moves & space, c | push, ti);
            lemma_bit_and(moves & space & (c | push), !my_occ, ti);
            lemma_bit_not(my_occ, ti);
            lemma_bit_and(moves & space & (c | push) & !my_occ, !enemy_king, ti);
            lemma_bit_not(enemy_king, ti);
        }
        lemma_pinned_has(
            b,
            p,
            c,
            push,
            spec_pinners(b, p),
            PinnedPart { moves: kp.moves, pinned: 0 },
            i,
            ti,
            m,
        );
        lemma_pinned_part_stays(b, p, m);
    } else {
        let m3 = spec_en_passant_part(b, p, c, push, pp.pinned, pp.moves);
        let can_move = my_occ & !pp.pinned & !b.spec_get(p, PieceType::KING);
        assert(bit(can_move, fi)) by {
            lemma_bit_and(my_occ & !pp.pinned, !b.spec_get(p, PieceType::KING), fi);
            lemma_bit_and(my_occ, !pp.pinned, fi);
            lemma_bit_not(pp.pinned, fi);
            lemma_bit_not(b.spec_get(p, PieceType::KING), fi);
        }
        assert(bit(sweep_targets(b, p, c, push, fi), ti)) by {
            let moves = spec_moves(fi, p, spec_kind_on(b, single(fi)), occ);
            lemma_bit_and(moves, c | push, ti);
            lemma_bit_and(moves & (c | push), !my_occ, ti);
            lemma_bit_not(my_occ, ti);
            lemma_bit_and(moves & (c | push) & !my_occ, !enemy_king, ti);
            lemma_bit_not(enemy_king, ti);
        }
        lemma_sweep_has(b, p, c, push, can_move, m3, fi, ti, m);
    }
}

/// Two squares have one direction between them at most.
pub proof fn lemma_one_direction(a: int, d1: Dir, d2: Dir, b: int)
    requires
        on_ray(a, d1, b),
        on_ray(a, d2, b),
    ensures
        d1 == d2,
{
    let n = distance(a, b);
    assert(n >= 1);
    match d1 {
        Dir::North => {},
        Dir::South => {},
        Dir::East => {},
        Dir::West => {},
        Dir::NorthEast => {},
        Dir::NorthWest => {},
        Dir::SouthEast => {},
        Dir::SouthWest => {},
    }
}

/// What lies between two squares lies on the line from the one to the
/// other.
pub proof fn lemma_between_on_line(a: int, b: int, m: int)
    requires
        between(a, b, m),
    ensures
        exists|d: Dir| #[trigger] lies_between(a, d, m, b),
{
    let d = if on_ray(a, Dir::North, m) && on_ray(b, Dir::South, m) {
        Dir::North
    } else if on_ray(a, Dir::South, m) && on_ray(b, Dir::North, m) {
        Dir::South
    } else if on_ray(a, Dir::East, m) && on_ray(b, Dir::West, m) {
        Dir::East
    } else if on_ray(a, Dir::West, m) && on_ray(b, Dir::East, m) {
        Dir::West
    } else if on_ray(a, Dir::NorthEast, m) && on_ray(b, Dir::SouthWest, m) {
        Dir::NorthEast
    } else if on_ray(a, Dir::NorthWest, m) && on_ray(b, Dir::SouthEast, m) {
        Dir::NorthWest
    } else if on_ray(a, Dir::SouthEast, m) && on_ray(b, Dir::NorthWest, m) {
        Dir::SouthEast
    } else {
        Dir::SouthWest
    };
    assert(on_ray(a, d, m) && on_ray(b, d.spec_flip(), m));
    lemma_ray_order(a, d, m, b);
    lemma_ray_order(b, d.spec_flip(), m, a);
    lemma_between_reversed(a, d, m, b);
    assert(lies_between(a, d, m, b));
}

/// The line of a check is clear: no piece stands between the king and a
/// piece that gives check.
pub proof fn lemma_check_line_clear(b: BoardState, p: Player, s: int, d: Dir, x: int)
    requires
        b.wf(p),
        0 <= s < 64,
        bit(spec_checkers(b, p), s),
        bit(b.spec_all_occupancy(), x),
    ensures
        !lies_between(sq(b.spec_get(p, PieceType::KING)), d, x, s),
{
    let k = sq(b.spec_get(p, PieceType::KING));
    let other = p.spec_other();
    let occ = b.spec_all_occupancy();
    if lies_between(k, d, x, s) {
        lemma_checkers_bit(b, p, s);
        let t = choose|t: PieceType|
            t != PieceType::KING && #[trigger] attacks_as(b, t, other, occ, s, k);
        lemma_between_reversed(k, d, x, s);
        lemma_ray_order(k, d, x, s);
        assert(distance(k, s) >= 2);
        assert(distance(s, k) >= 2);
        assert(t != PieceType::PAWN);
        assert(t != PieceType::KNIGHT) by {
            if t == PieceType::KNIGHT {
                lemma_knight_off_line(k, d, s);
            }
        }
        lemma_slider_attack(t, other, occ, s, k);
        let d2 = choose|d2: Dir| slides(t, d2) && #[trigger] sees(s, occ, d2, k);
        lemma_one_direction(s, d2, d.spec_flip(), k);
        lemma_sees_between(s, occ, d2, k);
    }
}

/// A knight's jump does not follow a line.
proof fn lemma_knight_off_line(a: int, d: Dir, b: int)
    requires
        on_ray(a, d, b),
    ensures
        !knight_jump(a, b),
        !knight_jump(b, a),
{
    let n = distance(a, b);
    match d {
        Dir::North => {},
        Dir::South => {},
        Dir::East => {},
        Dir::West => {},
        Dir::NorthEast => {},
        Dir::NorthWest => {},
        Dir::SouthEast => {},
        Dir::SouthWest => {},
    }
}

/// The square behind a pawn that gives check is on no line from the king.
proof fn lemma_target_off_line(p: Player, k: int, e: int, t: int, d: Dir)
    requires
        pawn_attack(p.spec_other(), e, k),
        0 <= t < 64,
        e == t + forward(p.spec_other()).delta(),
    ensures
        !on_ray(k, d, t),
{
    match d {
        Dir::North => {},
        Dir::South => {},
        Dir::East => {},
        Dir::West => {},
        Dir::NorthEast => {},
        Dir::NorthWest => {},
        Dir::SouthEast => {},
        Dir::SouthWest => {},
    }
}

/// In double check only the king moves: after a move of another piece
/// that fits the board the king is still attacked.
pub proof fn lemma_double_check(b: BoardState, p: Player, m: Move)
    requires
        b.wf(p),
        b.fits(p, m),
        m.start_type != PieceType::KING,
        has_several(spec_checkers(b, p)),
    ensures
        !safe_after(b, p, m),
{
    let other = p.spec_other();
    let c = spec_checkers(b, p);
    let k = sq(b.spec_get(p, PieceType::KING));
    let ti = sq(m.to);
    let occ = b.spec_all_occupancy();
    lemma_fits_shape(b, p, m);
    lemma_rest(c);
    lemma_rest(rest(c));
    let s1 = lowest(c);
    let s2 = lowest(rest(c));
    assert(bit(c, s1) && bit(c, s2) && s1 != s2);
    let taken1 = m.eaten_loc != 0 && s1 == sq(m.eaten_loc);
    let taken2 = m.eaten_loc != 0 && s2 == sq(m.eaten_loc);
    if !taken1 && !between(k, s1, ti) {
        lemma_unanswered_check(b, p, m, s1);
    } else if !taken2 && !between(k, s2, ti) {
        lemma_unanswered_check(b, p, m, s2);
    } else {
        // One check is answered by taking, the other by blocking, or both by blocking.
        let (near, far) = if taken1 {
            (s1, s2)
        } else if taken2 {
            (s2, s1)
        } else {
            (s1, s2)
        };
        assert(between(k, far, ti));
        lemma_between_on_line(k, far, ti);
        let d = choose|d: Dir| #[trigger] lies_between(k, d, ti, far);
        lemma_checkers_bit(b, p, near);
        let t = choose|t: PieceType|
            t != PieceType::KING && #[trigger] attacks_as(b, t, other, occ, near, k);
        lemma_holds(b, other, near);
        lemma_occupancy_bit(b, other, near);
        lemma_occupancy_bit(b, p, near);
        assert(bit(occ, near)) by {
            lemma_bit_or(b.spec_occupancy(Player::PLAYER1), b.spec_occupancy(Player::PLAYER2), near);
        }
        if taken1 || taken2 {
            if m.eaten_loc == m.to {
                lemma_check_line_clear(b, p, far, d, near);
            } else {
                // The pawn taken in passing gives the check.
                assert(bit(b.spec_get(other, PieceType::PAWN), near));
                assert(t == PieceType::PAWN);
                lemma_target_off_line(p, k, near, ti, d);
            }
        } else {
            assert(between(k, near, ti));
            lemma_between_on_line(k, near, ti);
            let d1 = choose|d1: Dir| #[trigger] lies_between(k, d1, ti, near);
            lemma_one_direction(k, d, d1, ti);
            lemma_ray_order(k, d, near, far);
            lemma_ray_order(k, d, far, near);
            lemma_holds(b, other, far);
            lemma_occupancy_bit(b, other, far);
            assert(bit(occ, far)) by {
                lemma_bit_or(
                    b.spec_occupancy(Player::PLAYER1),
                    b.spec_occupancy(Player::PLAYER2),
                    far,
                );
                lemma_checkers_bit(b, p, far);
            }
            if distance(k, near) < distance(k, far) {
                lemma_check_line_clear(b, p, far, d, near);
            } else {
                lemma_check_line_clear(b, p, near, d, far);
            }
        }
    }
}

/// The stage of the en-passant captures gives the capture by each pawn
/// that it comes to and does not bar.
pub proof fn lemma_en_passant_has(
    b: BoardState,
    p: Player,
    pinned: u64,
    eaten: u64,
    remaining: u64,
    acc: Seq<Move>,
    i: int,
)
    requires
        bit(remaining, i),
        !en_passant_barred(b, p, pinned, eaten, i),
    ensures
        spec_en_passant_loop(b, p, pinned, eaten, remaining, acc).contains(
            en_passant_move(b, eaten, i),
        ),
    decreases remaining,
{
    if remaining != 0 {
        lemma_rest(remaining);
        let i0 = lowest(remaining);
        let next = if en_passant_barred(b, p, pinned, eaten, i0) {
            acc
        } else {
            acc.push(en_passant_move(b, eaten, i0))
        };
        if i == i0 {
            assert(next[next.len() - 1] == en_passant_move(b, eaten, i));
            lemma_en_passant_loop_keeps(
                b,
                p,
                pinned,
                eaten,
                rest(remaining),
                next,
                en_passant_move(b, eaten, i),
            );
        } else {
            lemma_en_passant_has(b, p, pinned, eaten, rest(remaining), next, i);
        }
    } else {
        crate::bits::lemma_bit_zero(i);
    }
}

/// Of two squares between the same two, one lies between the first and
/// the other.
proof fn lemma_two_between(a: int, b: int, x: int, y: int)
    requires
        between(a, b, x),
        between(a, b, y),
        x != y,
    ensures
        between(a, x, y) || between(a, y, x),
{
    lemma_between_on_line(a, b, x);
    lemma_between_on_line(a, b, y);
    let d = choose|d: Dir| #[trigger] lies_between(a, d, x, b);
    let d2 = choose|d2: Dir| #[trigger] lies_between(a, d2, y, b);
    lemma_one_direction(a, d, d2, b);
    lemma_ray_order(a, d, x, y);
    lemma_ray_order(a, d, y, x);
    if distance(a, y) < distance(a, x) {
        assert(lies_between(a, d, y, x));
        lemma_line_between(a, d, y, x);
    } else {
        assert(lies_between(a, d, x, y));
        lemma_line_between(a, d, x, y);
    }
}

/// What lies on the line from one square to another, before it, lies
/// between the two.
pub proof fn lemma_line_between(a: int, d: Dir, m: int, b: int)
    requires
        lies_between(a, d, m, b),
    ensures
        between(a, b, m),
{
    lemma_between_reversed(a, d, m, b);
    lemma_ray_order(a, d, m, b);
    lemma_between_reversed(m, d, b, b);
    assert(on_ray(b, d.spec_flip(), m)) by {
        lemma_between_reversed(m, d, m, b);
    }
    match d {
        Dir::North => {},
        Dir::South => {},
        Dir::East => {},
        Dir::West => {},
        Dir::NorthEast => {},
        Dir::NorthWest => {},
        Dir::SouthEast => {},
        Dir::SouthWest => {},
    }
}

proof fn bv_masks(x: u64, y: u64)
    by (bit_vector)
    ensures
        x != 0 ==> x | y != 0,
        y != 0 ==> x | y != 0,
        y & !0u64 == y,
{
}

/// Two bitboards with a common member share a square.
proof fn lemma_shared(a: u64, b: u64, j: int)
    requires
        bit(a, j),
        bit(b, j),
    ensures
        a & b != 0,
{
    lemma_bit_and(a, b, j);
    crate::bits::lemma_bit_zero(j);
}

/// Taking en passant on the king's rank opens it: where king and pawn
/// share a rank on which a rook or queen attacks the king once both pawns
/// are gone, the king is attacked after the capture.
pub proof fn lemma_rank_opened(b: BoardState, p: Player, m: Move)
    requires
        b.wf(p),
        b.fits(p, m),
        m.eaten_loc != 0,
        m.eaten_loc != m.to,
        spec_rook_attacks(
            sq(b.spec_get(p, PieceType::KING)),
            b.spec_all_occupancy() & !m.eaten_loc & !m.from,
        ) & (b.spec_get(p.spec_other(), PieceType::ROOK) | b.spec_get(
            p.spec_other(),
            PieceType::QUEEN,
        )) != 0,
        sq(b.spec_get(p, PieceType::KING)) / 8 == sq(m.from) / 8,
    ensures
        !safe_after(b, p, m),
{
    let a = b.spec_apply(p, m);
    let other = p.spec_other();
    let k = sq(b.spec_get(p, PieceType::KING));
    let fi = sq(m.from);
    let ti = sq(m.to);
    let ei = sq(m.eaten_loc);
    let occ = b.spec_all_occupancy();
    let occ2 = occ & !m.eaten_loc & !m.from;
    let occ_after = a.spec_all_occupancy();
    let sliders = b.spec_get(other, PieceType::ROOK) | b.spec_get(other, PieceType::QUEEN);
    lemma_fits_shape(b, p, m);
    lemma_after_move(b, p, m);
    crate::king_safety::lemma_en_passant_squares(p, fi, ti, ei);
    lemma_common(spec_rook_attacks(k, occ2), sliders);
    let s = choose|s: int| 0 <= s < 64 && bit(spec_rook_attacks(k, occ2), s) && bit(sliders, s);
    lemma_rook_attacks_bit(k, occ2, s);
    lemma_bit_or(b.spec_get(other, PieceType::ROOK), b.spec_get(other, PieceType::QUEEN), s);
    let t = if bit(b.spec_get(other, PieceType::ROOK), s) {
        PieceType::ROOK
    } else {
        PieceType::QUEEN
    };
    let d = if sees(k, occ2, Dir::North, s) {
        Dir::North
    } else if sees(k, occ2, Dir::South, s) {
        Dir::South
    } else if sees(k, occ2, Dir::East, s) {
        Dir::East
    } else {
        Dir::West
    };
    assert(sees(k, occ2, d, s));
    lemma_sees_between(k, occ2, d, s);
    lemma_sees_between(k, occ_after, d, s);
    assert forall|x: int| #[trigger] bit(occ_after, x) implies !lies_between(k, d, x, s) by {
        if lies_between(k, d, x, s) {
            // The pawn lands off the king's rank and off its file.
            assert(ei != k) by {
                lemma_bit_single(k, k);
                if ei == k {
                    assert(bit(b.spec_get(other, PieceType::PAWN), k));
                    assert(bit(b.spec_get(p, PieceType::KING), k));
                }
            }
            assert(rank_of(ti) != rank_of(k));
            assert(file_of(ti) != file_of(k));
            assert(file_of(x) == file_of(k) || rank_of(x) == rank_of(k)) by {
                match d {
                    Dir::North => {},
                    Dir::South => {},
                    Dir::East => {},
                    Dir::West => {},
                    _ => {},
                }
            }
            assert(x != ti);
            lemma_bit_and(occ & !m.eaten_loc, !m.from, x);
            lemma_bit_and(occ, !m.eaten_loc, x);
            lemma_bit_not(m.eaten_loc, x);
            lemma_bit_not(m.from, x);
            lemma_bit_single(fi, x);
            lemma_bit_single(ei, x);
            assert(bit(occ2, x));
        }
    }
    assert(sees(k, occ_after, d, s));
    lemma_sees_symmetric(k, occ_after, d, s);
    assert(slides(t, d.spec_flip()));
    lemma_slider_attack(t, other, occ_after, s, k);
    lemma_apply_bits(b, p, m, other, t, s);
    assert(bit(a.spec_get(other, t), s));
    assert(attacks_as(a, t, other, occ_after, s, k));
    assert(attacks_from(a, other, occ_after, s, k));
    assert(king_attacked(a, p));
}

/// No en-passant capture is left out: every capture in passing that fits
/// the board and leaves the king unattacked is among the moves that the
/// generator gives.
pub proof fn lemma_en_passant_complete(b: BoardState, p: Player, m: Move)
    requires
        b.wf(p),
        b.fits(p, m),
        m.eaten_loc != 0,
        m.eaten_loc != m.to,
        safe_after(b, p, m),
    ensures
        spec_possible_moves(b, p).contains(m),
{
    reveal(spec_possible_moves);
    let other = p.spec_other();
    let fi = sq(m.from);
    let ti = sq(m.to);
    let ei = sq(m.eaten_loc);
    let k = sq(b.spec_get(p, PieceType::KING));
    let ep = b.en_passant_square;
    let c = spec_checkers(b, p);
    let push = spec_push_mask(b, p);
    lemma_fits_shape(b, p, m);
    assert(m.to == ep && m.start_type == PieceType::PAWN);
    crate::bits::lemma_single_nonzero(ti);
    crate::bits::lemma_single_index(ti);
    assert(ep != 0 && sq(ep) == ti);
    let pawns = spec_pawn_captures(other, ti, b.spec_get(p, PieceType::PAWN));
    assert(bit(pawns, fi)) by {
        lemma_pawn_captures_bit(other, ti, b.spec_get(p, PieceType::PAWN), fi);
        assert(pawn_attack(other, ti, fi)) by {
            match p {
                Player::PLAYER1 => {},
                Player::PLAYER2 => {},
            }
        }
    }
    lemma_en_passant_setup(b, p, fi);
    let eaten = spec_pawn_moves(other, ti, 0);
    assert(passed_pawn(b, p) == ei);
    assert(eaten == m.eaten_loc);
    assert(m == en_passant_move(b, eaten, fi));
    if has_several(c) {
        lemma_double_check(b, p, m);
    }
    let kp = spec_king_part(b, p, Seq::empty());
    let pp = spec_pinned_part(b, p, kp.checkers, kp.push_mask, kp.moves);
    assert(kp.checkers == c && kp.push_mask == push);
    // The capture deals with the check.
    assert((eaten & c) | (ep & push) != 0) by {
        bv_masks(eaten & c, ep & push);
        bv_masks(eaten, ep);
        if c != 0 {
            lemma_single_from_rest(c);
            let s = lowest(c);
            lemma_bit_single(s, s);
            crate::bits::lemma_single_index(s);
            if !(s == ei) && !between(k, s, ti) {
                lemma_unanswered_check(b, p, m, s);
            }
            if s == ei {
                lemma_bit_single(ei, ei);
                lemma_shared(eaten, c, ei);
            } else {
                lemma_between_bit(k, s, ti);
                lemma_bit_single(ti, ti);
                lemma_shared(ep, push, ti);
            }
        }
    }
    // The pawn is not barred.
    if en_passant_barred(b, p, pp.pinned, eaten, fi) {
        if k / 8 == fi / 8 && spec_rook_attacks(k, b.spec_all_occupancy() & !eaten & !single(fi)) & (
        b.spec_get(other, PieceType::ROOK) | b.spec_get(other, PieceType::QUEEN)) != 0 {
            lemma_rank_opened(b, p, m);
        } else {
            lemma_test_single(pp.pinned, fi);
            crate::bits::lemma_bit_zero(fi);
            lemma_pinned_has_pinner(
                b,
                p,
                c,
                push,
                spec_pinners(b, p),
                PinnedPart { moves: kp.moves, pinned: 0 },
                fi,
            );
            let i = choose|i: int| #[trigger] bit(spec_pinners(b, p), i) && pin_of(b, p, i) == single(fi);
            assert(0 <= i < 64);
            lemma_pinners_bit(b, p, i);
            let (t, d) = choose|t: PieceType, d: Dir|
                slides(t, d) && bit(b.spec_get(other, t), i) && #[trigger] slides(t, d) && #[trigger] sees(
                    k,
                    b.spec_occupancy(other),
                    d,
                    i,
                );
            lemma_holds(b, other, i);
            assert(ti != i);
            if !between(k, i, ti) {
                lemma_pin_left(b, p, m, i);
            }
            lemma_bit_single(fi, fi);
            lemma_bit_and(spec_between(k, i), b.spec_occupancy(p), fi);
            lemma_between_bit(k, i, fi);
            lemma_two_between(k, i, fi, ti);
            lemma_between_bit(k, ti, fi);
            lemma_between_bit(k, fi, ti);
            lemma_test_single(spec_between(k, ti), fi);
            lemma_test_single(spec_between(k, fi), ti);
        }
    }
    lemma_en_passant_has(b, p, pp.pinned, eaten, pawns, pp.moves, fi);
    let m3 = spec_en_passant_part(b, p, c, push, pp.pinned, pp.moves);
    assert(m3.contains(m));
    let can_move = b.spec_occupancy(p) & !pp.pinned & !b.spec_get(p, PieceType::KING);
    lemma_sweep_loop_keeps(b, p, c, push, can_move, m3, m);
}

/// A slider that sees a square sees the squares before it.
proof fn lemma_sees_nearer(s: int, occ: u64, d: Dir, x: int, j: int)
    requires
        sees(s, occ, d, j),
        lies_between(s, d, x, j),
    ensures
        sees(s, occ, d, x),
{
}

/// Castling onto a danger square leaves the king attacked, where the
/// square that the king passes is no danger square.
pub proof fn lemma_castle_unsafe(b: BoardState, p: Player, m: Move)
    requires
        b.wf(p),
        b.fits(p, m),
        m.is_castle(),
        bit(spec_king_danger_squares(b, p), sq(m.to)),
        !bit(spec_king_danger_squares(b, p), passed_by_king(m)),
    ensures
        !safe_after(b, p, m),
{
    let a = b.spec_apply(p, m);
    let other = p.spec_other();
    let fi = sq(m.from);
    let ti = sq(m.to);
    let passed = passed_by_king(m);
    let occ = b.spec_all_occupancy();
    let king = b.spec_get(p, PieceType::KING);
    let occ_nok = occ & !king;
    let occ_after = a.spec_all_occupancy();
    lemma_fits_shape(b, p, m);
    lemma_castle_squares();
    crate::chess_impl::lemma_king_after(b, p, m);
    crate::bits::lemma_single_index(ti);
    lemma_king_danger_bit(b, p, ti);
    lemma_king_danger_bit(b, p, passed);
    lemma_bit_single(sq(king), fi);
    assert(king == single(fi));
    assert(fi == 3 || fi == 59);
    assert(ti == fi - 2 || ti == fi + 2);
    let s = choose|s: int| #[trigger] attacks_from(b, other, occ_nok, s, ti);
    let t = choose|t: PieceType| attacks_as(b, t, other, occ_nok, s, ti);
    lemma_attack_goes_away(t, other, occ_nok, s, ti);
    assert forall|d: Dir, x: int| #[trigger] bit(occ_after, x) && #[trigger] lies_between(
        s,
        d,
        x,
        ti,
    ) implies bit(occ_nok, x) by {
        lemma_bit_and(occ, !king, x);
        lemma_bit_not(king, x);
        lemma_bit_single(fi, x);
        lemma_between_reversed(s, d, x, ti);
        lemma_castle_occupancy(b, p, m, x);
        if x == passed {
            // The king would have passed an attacked square.
            lemma_ray_order(s, d, x, ti);
            assert(distance(s, ti) >= 2);
            assert(t != PieceType::KNIGHT) by {
                if t == PieceType::KNIGHT {
                    lemma_knight_off_line(s, d, ti);
                }
            }
            assert(t != PieceType::PAWN && t != PieceType::KING);
            lemma_slider_attack(t, other, occ_nok, s, ti);
            let d2 = choose|d2: Dir| slides(t, d2) && #[trigger] sees(s, occ_nok, d2, ti);
            lemma_one_direction(s, d2, d, ti);
            lemma_sees_nearer(s, occ_nok, d, x, ti);
            lemma_slider_attack(t, other, occ_nok, s, x);
            assert(attacks_as(b, t, other, occ_nok, s, x));
            assert(attacks_from(b, other, occ_nok, s, x));
            assert(attacked(b, other, occ_nok, x));
        }
    }
    lemma_kind_attacks_monotone(t, other, occ_nok, occ_after, s, ti);
    lemma_castle_occupancy(b, p, m, s);
    assert(bit(a.spec_get(other, t), s));
    assert(attacks_as(a, t, other, occ_after, s, ti));
    assert(attacks_from(a, other, occ_after, s, ti));
    assert(king_attacked(a, p));
}

/// Whether the way of the rook is free where `m` castles on the queen's
/// side: the square next to the rook, which the king does not come to.
pub open spec fn rook_way_free(b: BoardState, m: Move) -> bool {
    m.is_castle() && sq(m.to) == sq(m.from) + 2 ==> b.free(sq(m.from) + 3)
}

/// No castling is left out: castling that fits the board, is made by the
/// rules, with the way of the rook free, and leaves the king unattacked is
/// among the moves that the generator gives.
pub proof fn lemma_castling_complete(b: BoardState, p: Player, m: Move)
    requires
        b.wf(p),
        b.fits(p, m),
        m.is_castle(),
        castles_rightly(b, p, m),
        rook_way_free(b, m),
        safe_after(b, p, m),
    ensures
        spec_possible_moves(b, p).contains(m),
{
    let other = p.spec_other();
    let fi = sq(m.from);
    let ti = sq(m.to);
    let king = b.spec_get(p, PieceType::KING);
    let danger = spec_king_danger_squares(b, p);
    let occ = b.spec_all_occupancy();
    let rooks = b.spec_get(p, PieceType::ROOK);
    let c = spec_checkers(b, p);
    lemma_fits_shape(b, p, m);
    lemma_castle_squares();
    lemma_bit_single(sq(king), fi);
    assert(king == m.from);
    assert(m.from == king_place(p));
    assert(fi == 3 || fi == 59);
    assert(ti == fi - 2 || ti == fi + 2);
    lemma_shift_single(fi, 2);
    crate::bits::lemma_single_index(fi - 2);
    crate::bits::lemma_single_index(fi + 2);
    // There is no check.
    assert(c == 0) by {
        assert forall|s: int| 0 <= s < 64 implies !bit(c, s) by {
            lemma_checkers_bit(b, p, s);
            if bit(c, s) {
                let t = choose|t: PieceType|
                    t != PieceType::KING && #[trigger] attacks_as(b, t, other, occ, s, fi);
                assert(attacks_from(b, other, occ, s, fi));
            }
        }
        crate::bits::lemma_no_members(c);
    }
    if bit(danger, ti) {
        lemma_castle_unsafe(b, p, m);
    }
    assert forall|j: int| 0 <= j < 64 implies (bit(occ, j) == !b.free(j)) by {
        lemma_occupancy_bit(b, p, j);
    }
    lemma_holds(b, p, ti);
    lemma_holds(b, other, ti);
    assert(b.free(ti));
    let m1 = spec_add_moves(
        b,
        p,
        king,
        spec_king_attacks(sq(king)) & !b.spec_occupancy(p) & !danger,
        PieceType::KING,
        b.spec_occupancy(other),
        Seq::empty(),
    );
    let castled = spec_castle_moves(b, p, c, danger, m1);
    if ti == fi - 2 {
        assert(passed_by_king(m) == fi - 1);
        assert(castling_rook(m) == fi - 3);
        assert(kingside_rook(p) == single(fi - 3));
        assert(can_castle_kingside(b, p, danger)) by {
            let way = spec_between(fi, fi - 3) & (danger | occ);
            assert forall|j: int| 0 <= j < 64 implies !bit(way, j) by {
                lemma_bit_and(spec_between(fi, fi - 3), danger | occ, j);
                lemma_bit_or(danger, occ, j);
                lemma_between_bit(fi, fi - 3, j);
                lemma_castle_between(fi, j);
            }
            crate::bits::lemma_no_members(way);
            lemma_test_single(b.castle_memory, fi - 3);
            lemma_bit_single(fi - 3, fi - 3);
            lemma_shared(b.castle_memory, single(fi - 3), fi - 3);
            lemma_bit_and(b.castle_memory, single(fi - 3), fi - 3);
            lemma_shared(b.castle_memory & single(fi - 3), rooks, fi - 3);
        }
        assert(m == quiet_king_move(king, king >> 2));
        let first = m1.push(quiet_king_move(king, king >> 2));
        assert(first[first.len() - 1] == m);
        if can_castle_queenside(b, p, danger) {
            assert(castled[m1.len() as int] == m);
        } else {
            assert(castled[castled.len() - 1] == m);
        }
    } else {
        assert(passed_by_king(m) == fi + 1);
        assert(castling_rook(m) == fi + 4);
        assert(queenside_rook(p) == single(fi + 4));
        assert(can_castle_queenside(b, p, danger)) by {
            let way = spec_between(fi, fi + 3) & (danger | occ);
            let rook_way = spec_between(fi + 4, fi) & occ;
            assert forall|j: int| 0 <= j < 64 implies !bit(way | rook_way, j) by {
                lemma_bit_or(way, rook_way, j);
                lemma_bit_and(spec_between(fi, fi + 3), danger | occ, j);
                lemma_bit_and(spec_between(fi + 4, fi), occ, j);
                lemma_bit_or(danger, occ, j);
                lemma_between_bit(fi, fi + 3, j);
                lemma_between_bit(fi + 4, fi, j);
                lemma_castle_between(fi, j);
            }
            crate::bits::lemma_no_members(way | rook_way);
            lemma_test_single(b.castle_memory, fi + 4);
            lemma_bit_single(fi + 4, fi + 4);
            lemma_shared(b.castle_memory, single(fi + 4), fi + 4);
            lemma_bit_and(b.castle_memory, single(fi + 4), fi + 4);
            lemma_shared(b.castle_memory & single(fi + 4), rooks, fi + 4);
        }
        assert(m == quiet_king_move(king, king << 2));
        assert(castled[castled.len() - 1] == m);
    }
    assert(castled.contains(m));
    lemma_king_part_stays(b, p, m);
}

/// Whether `m` is a legal move of `p` on `b`: it fits the board, a pawn is
/// promoted exactly on the last rank, castling is made by the rules and
/// with the way of the rook free, and the king of `p` is not attacked
/// after it.
pub open spec fn is_legal_move(b: BoardState, p: Player, m: Move) -> bool {
    &&& b.fits(p, m)
    &&& promotes_rightly(m)
    &&& castles_rightly(b, p, m)
    &&& rook_way_free(b, m)
    &&& safe_after(b, p, m)
}

/// The generator leaves no legal move out: every legal move of `p` on a
/// well-formed board is among the moves that the generator gives.
pub proof fn lemma_generator_complete(b: BoardState, p: Player, m: Move)
    requires
        b.wf(p),
        is_legal_move(b, p, m),
    ensures
        spec_possible_moves(b, p).contains(m),
{
    if m.start_type == PieceType::KING {
        if m.is_castle() {
            lemma_castling_complete(b, p, m);
        } else {
            lemma_king_steps_complete(b, p, m);
        }
    } else if m.eaten_loc != 0 && m.eaten_loc != m.to {
        lemma_en_passant_complete(b, p, m);
    } else {
        if has_several(spec_checkers(b, p)) {
            lemma_double_check(b, p, m);
        }
        lemma_piece_moves_complete(b, p, m);
    }
}

/// Every legal move is among the moves that the generator gives.
pub proof fn lemma_all_legal_given(b: BoardState, p: Player)
    requires
        b.wf(p),
    ensures
        forall|m: Move| #[trigger] is_legal_move(b, p, m) ==> spec_possible_moves(b, p).contains(m),
{
    assert forall|m: Move| #[trigger] is_legal_move(b, p, m) implies spec_possible_moves(
        b,
        p,
    ).contains(m) by {
        lemma_generator_complete(b, p, m);
    }
}

} // verus!
