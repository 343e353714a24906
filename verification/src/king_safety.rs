//! Why the moves of the generator leave the mover's king unattacked.
use vstd::prelude::*;
use crate::bit_help::{Dir, distance, lemma_ray_order, on_ray, sees, is_step};
use crate::bits::{bit, single, lemma_bit_and, lemma_bit_not, lemma_bit_or, lemma_bit_single, lemma_bit_zero};
use crate::bit_help::{index, index_to_place, iter_index};
use crate::chess_impl::{
    BoardState, Chess, Move, PieceType, sq, lemma_apply_bits, lemma_fits_shape, lemma_holds,
};
use crate::move_generation::{lemma_king_attacks_bit, spec_king_attacks};
use crate::move_generation::{
    attacked, attacks_as, attacks_from, between, bishop_sees, kind_attacks, king_step, knight_jump,
    pawn_attack, rook_sees, spec_king_danger_squares, lemma_king_danger_bit,
};
use crate::bits::{has_several, lemma_bits_equal, lemma_rest, lowest, rest};
use crate::legal_moves::{
    lemma_occupancy_bit, lemma_single_from_rest, spec_checkers, spec_pinned_loop, spec_pinned_part,
    spec_pinned_step, spec_pinners, PinnedPart, all_fit, spec_moves_for_target, spec_eaten,
    lemma_no_common, en_passant_barred, en_passant_move, lemma_en_passant_fits, lemma_common,
};
use crate::move_generation::{forward, spec_pawn_moves};
use crate::bit_help::{abs_diff, file_of, rank_of};
use crate::chess_impl::{lemma_castle_squares};
use crate::move_generation::{lemma_between_bit, spec_between};
use crate::move_generation::{
    group_attacks, lemma_bishop_attacks_bit, lemma_pawn_captures_bit, lemma_rook_attacks_bit,
    spec_bishop_attacks, spec_pawn_captures, spec_rook_attacks,
};
use crate::search_model::lemma_apply_free;
use crate::two_player_game::Player;

verus! {

/// Whether `m` lies strictly between `a` and `b` on the line that leaves
/// `a` in direction `d`.
pub open spec fn lies_between(a: int, d: Dir, m: int, b: int) -> bool {
    on_ray(a, d, m) && on_ray(a, d, b) && distance(a, m) < distance(a, b)
}

/// A slider sees along a line exactly when no blocker lies strictly
/// between.
pub proof fn lemma_sees_between(a: int, occ: u64, d: Dir, b: int)
    ensures
        sees(a, occ, d, b) <==> on_ray(a, d, b) && forall|m: int| #[trigger]
            bit(occ, m) ==> !lies_between(a, d, m, b),
{
    if on_ray(a, d, b) {
        if sees(a, occ, d, b) {
            assert forall|m: int| #[trigger] bit(occ, m) implies !lies_between(a, d, m, b) by {}
        }
        if forall|m: int| #[trigger] bit(occ, m) ==> !lies_between(a, d, m, b) {
            assert forall|m: int| #[trigger] bit(occ, m) && on_ray(a, d, m) implies distance(a, m)
                >= distance(a, b) by {
                assert(!lies_between(a, d, m, b));
            }
        }
    }
}

/// Lying between two squares does not depend on the end from which the line
/// is walked.
pub proof fn lemma_between_reversed(a: int, d: Dir, m: int, b: int)
    ensures
        lies_between(a, d, m, b) == lies_between(b, d.spec_flip(), m, a),
        on_ray(a, d, b) == on_ray(b, d.spec_flip(), a),
        lies_between(a, d, m, b) ==> m != a && m != b && a != b,
{
}

/// What a slider sees along a line, the line can be seen back along.
pub proof fn lemma_sees_symmetric(a: int, occ: u64, d: Dir, b: int)
    ensures
        sees(a, occ, d, b) == sees(b, occ, d.spec_flip(), a),
{
    lemma_sees_between(a, occ, d, b);
    lemma_sees_between(b, occ, d.spec_flip(), a);
    lemma_between_reversed(a, d, b, b);
    if on_ray(a, d, b) {
        assert forall|m: int| lies_between(a, d, m, b) == lies_between(b, d.spec_flip(), m, a) by {
            lemma_between_reversed(a, d, m, b);
        }
    }
}

/// Blockers that are not strictly between do not matter.
pub proof fn lemma_sees_monotone(a: int, occ1: u64, occ2: u64, d: Dir, b: int)
    requires
        sees(a, occ1, d, b),
        forall|m: int| #[trigger] bit(occ2, m) && lies_between(a, d, m, b) ==> bit(occ1, m),
    ensures
        sees(a, occ2, d, b),
{
    lemma_sees_between(a, occ1, d, b);
    lemma_sees_between(a, occ2, d, b);
}

/// Whether the king of `p` stands attacked.
pub open spec fn king_attacked(b: BoardState, p: Player) -> bool {
    attacked(b, p.spec_other(), b.spec_all_occupancy(), sq(b.spec_get(p, PieceType::KING)))
}

/// Whether the king of `p` stands unattacked after `p` has made the move
/// `m`.
pub open spec fn safe_after(b: BoardState, p: Player, m: Move) -> bool {
    !king_attacked(b.spec_apply(p, m), p)
}

/// An attack stays an attack when blockers are taken away, or put where
/// they are not in the way.
pub proof fn lemma_kind_attacks_monotone(
    t: PieceType,
    attacker: Player,
    occ1: u64,
    occ2: u64,
    s: int,
    j: int,
)
    requires
        kind_attacks(t, attacker, occ1, s, j),
        forall|d: Dir, m: int| #[trigger] bit(occ2, m) && #[trigger] lies_between(s, d, m, j) ==> bit(occ1, m),
    ensures
        kind_attacks(t, attacker, occ2, s, j),
{
    lemma_sees_dir(occ1, occ2, Dir::North, s, j);
    lemma_sees_dir(occ1, occ2, Dir::South, s, j);
    lemma_sees_dir(occ1, occ2, Dir::East, s, j);
    lemma_sees_dir(occ1, occ2, Dir::West, s, j);
    lemma_sees_dir(occ1, occ2, Dir::NorthEast, s, j);
    lemma_sees_dir(occ1, occ2, Dir::NorthWest, s, j);
    lemma_sees_dir(occ1, occ2, Dir::SouthEast, s, j);
    lemma_sees_dir(occ1, occ2, Dir::SouthWest, s, j);
}

proof fn lemma_sees_dir(occ1: u64, occ2: u64, d: Dir, s: int, j: int)
    requires
        forall|d: Dir, m: int| #[trigger] bit(occ2, m) && #[trigger] lies_between(s, d, m, j) ==> bit(occ1, m),
    ensures
        sees(s, occ1, d, j) ==> sees(s, occ2, d, j),
{
    if sees(s, occ1, d, j) {
        assert forall|m: int| #[trigger] bit(occ2, m) && lies_between(s, d, m, j) implies bit(occ1, m) by {
            assert(lies_between(s, d, m, j));
        }
        lemma_sees_monotone(s, occ1, occ2, d, j);
    }
}

/// What stands where after a fitting move that is no castling: the
/// opponent's pieces but the one taken, the occupied squares, and the
/// mover's king.
pub proof fn lemma_after_move(b: BoardState, p: Player, m: Move)
    requires
        b.wf(p),
        b.fits(p, m),
        !m.is_castle(),
    ensures
        forall|t: PieceType, s: int| #[trigger]
            bit(b.spec_apply(p, m).spec_get(p.spec_other(), t), s) ==> bit(
                b.spec_get(p.spec_other(), t),
                s,
            ) && !(m.eaten_loc != 0 && s == sq(m.eaten_loc)),
        forall|j: int|
            0 <= j < 64 ==> #[trigger] bit(b.spec_apply(p, m).spec_all_occupancy(), j) == ((bit(
                b.spec_all_occupancy(),
                j,
            ) && j != sq(m.from) && !(m.eaten_loc != 0 && j == sq(m.eaten_loc))) || j == sq(m.to)),
        sq(b.spec_apply(p, m).spec_get(p, PieceType::KING)) == if m.start_type == PieceType::KING {
            sq(m.to)
        } else {
            sq(b.spec_get(p, PieceType::KING))
        },
{
    let a = b.spec_apply(p, m);
    let other = p.spec_other();
    assert forall|t: PieceType, s: int| #[trigger] bit(a.spec_get(other, t), s) implies bit(
        b.spec_get(other, t),
        s,
    ) && !(m.eaten_loc != 0 && s == sq(m.eaten_loc)) by {
        lemma_apply_bits(b, p, m, other, t, s);
        if m.eaten_loc != 0 && s == sq(m.eaten_loc) {
            // What stood on the square that was taken was the piece taken.
            assert(bit(b.spec_get(other, m.eaten_type), s));
        }
    }
    assert forall|j: int| 0 <= j < 64 implies #[trigger] bit(a.spec_all_occupancy(), j) == ((bit(
        b.spec_all_occupancy(),
        j,
    ) && j != sq(m.from) && !(m.eaten_loc != 0 && j == sq(m.eaten_loc))) || j == sq(m.to)) by {
        lemma_apply_free(b, p, m, j);
        lemma_occupancy_bit(a, p, j);
        lemma_occupancy_bit(b, p, j);
    }
    crate::chess_impl::lemma_king_after(b, p, m);
}

/// A step of the king to a square outside the danger squares leaves the
/// king unattacked.
pub proof fn lemma_king_step_safe(b: BoardState, p: Player, m: Move)
    requires
        b.wf(p),
        b.fits(p, m),
        m.start_type == PieceType::KING,
        !m.is_castle(),
        !bit(spec_king_danger_squares(b, p), sq(m.to)),
    ensures
        safe_after(b, p, m),
{
    let a = b.spec_apply(p, m);
    let other = p.spec_other();
    let fi = sq(m.from);
    let ti = sq(m.to);
    let occ = b.spec_all_occupancy();
    let king = b.spec_get(p, PieceType::KING);
    let occ_nok = occ & !king;
    let occ_after = a.spec_all_occupancy();
    lemma_after_move(b, p, m);
    lemma_king_danger_bit(b, p, ti);
    lemma_bit_single(sq(king), fi);
    assert(king == single(fi));
    if king_attacked(a, p) {
        let s = choose|s: int| #[trigger] attacks_from(a, other, occ_after, s, ti);
        assert forall|d: Dir, x: int| #[trigger] bit(occ_nok, x) && #[trigger] lies_between(s, d, x, ti) implies bit(
            occ_after,
            x,
        ) by {
            lemma_bit_and(occ, !king, x);
            lemma_bit_not(king, x);
            lemma_bit_single(fi, x);
            lemma_between_reversed(s, d, x, ti);
        }
        assert forall|t: PieceType| attacks_as(a, t, other, occ_after, s, ti) implies attacks_as(
            b,
            t,
            other,
            occ_nok,
            s,
            ti,
        ) by {
            lemma_kind_attacks_monotone(t, other, occ_after, occ_nok, s, ti);
        }
        assert(attacks_from(b, other, occ_nok, s, ti));
        assert(attacked(b, other, occ_nok, ti));
    }
}

/// Whether the two kings do not stand next to each other.
pub open spec fn kings_apart(b: BoardState) -> bool {
    !king_step(
        sq(b.spec_get(Player::PLAYER1, PieceType::KING)),
        sq(b.spec_get(Player::PLAYER2, PieceType::KING)),
    )
}

/// Whether a piece of kind `t` moves along the lines of direction `d`.
pub open spec fn slides(t: PieceType, d: Dir) -> bool {
    match t {
        PieceType::ROOK => d.dx() == 0 || d.dy() == 0,
        PieceType::BISHOP => d.dx() != 0 && d.dy() != 0,
        PieceType::QUEEN => true,
        _ => false,
    }
}

/// A sliding attack is sight along one of the lines of the piece.
pub proof fn lemma_slider_attack(t: PieceType, attacker: Player, occ: u64, s: int, j: int)
    requires
        t == PieceType::ROOK || t == PieceType::BISHOP || t == PieceType::QUEEN,
    ensures
        kind_attacks(t, attacker, occ, s, j) <==> exists|d: Dir| slides(t, d) && #[trigger] sees(s, occ, d, j),
{
    if kind_attacks(t, attacker, occ, s, j) {
        if sees(s, occ, Dir::North, j) {
            assert(slides(t, Dir::North));
        } else if sees(s, occ, Dir::South, j) {
            assert(slides(t, Dir::South));
        } else if sees(s, occ, Dir::East, j) {
            assert(slides(t, Dir::East));
        } else if sees(s, occ, Dir::West, j) {
            assert(slides(t, Dir::West));
        } else if sees(s, occ, Dir::NorthEast, j) {
            assert(slides(t, Dir::NorthEast));
        } else if sees(s, occ, Dir::NorthWest, j) {
            assert(slides(t, Dir::NorthWest));
        } else if sees(s, occ, Dir::SouthEast, j) {
            assert(slides(t, Dir::SouthEast));
        } else {
            assert(sees(s, occ, Dir::SouthWest, j));
            assert(slides(t, Dir::SouthWest));
        }
    }
    if exists|d: Dir| slides(t, d) && #[trigger] sees(s, occ, d, j) {
        let d = choose|d: Dir| slides(t, d) && #[trigger] sees(s, occ, d, j);
        match d {
            Dir::North => {},
            Dir::South => {},
            Dir::East => {},
            Dir::West => {},
            Dir::NorthEast => {},
            Dir::NorthWest => {},
            Dir::SouthEast => {},
            Dir::SouthWest => {},
        }
    }
}

/// The pieces that give check are the opponent's pieces, the king apart,
/// that attack the king's square.
pub proof fn lemma_checkers_bit(b: BoardState, p: Player, s: int)
    requires
        0 <= s < 64,
    ensures
        bit(spec_checkers(b, p), s) <==> exists|t: PieceType|
            t != PieceType::KING && #[trigger] attacks_as(
                b,
                t,
                p.spec_other(),
                b.spec_all_occupancy(),
                s,
                sq(b.spec_get(p, PieceType::KING)),
            ),
{
    broadcast use crate::bits::group_bits, group_attacks;

    let k = sq(b.spec_get(p, PieceType::KING));
    let enemy = p.spec_other();
    let occ = b.spec_all_occupancy();
    lemma_sees_symmetric(k, occ, Dir::North, s);
    lemma_sees_symmetric(k, occ, Dir::South, s);
    lemma_sees_symmetric(k, occ, Dir::East, s);
    lemma_sees_symmetric(k, occ, Dir::West, s);
    lemma_sees_symmetric(k, occ, Dir::NorthEast, s);
    lemma_sees_symmetric(k, occ, Dir::NorthWest, s);
    lemma_sees_symmetric(k, occ, Dir::SouthEast, s);
    lemma_sees_symmetric(k, occ, Dir::SouthWest, s);
    assert(rook_sees(k, occ, s) == rook_sees(s, occ, k));
    assert(bishop_sees(k, occ, s) == bishop_sees(s, occ, k));
    assert(knight_jump(k, s) == knight_jump(s, k));
    assert(pawn_attack(p, k, s) == pawn_attack(enemy, s, k));
    let c = spec_checkers(b, p);
    if bit(c, s) {
        if bit(b.spec_get(enemy, PieceType::QUEEN), s) && (rook_sees(k, occ, s) || bishop_sees(
            k,
            occ,
            s,
        )) {
            assert(attacks_as(b, PieceType::QUEEN, enemy, occ, s, k));
        } else if bit(b.spec_get(enemy, PieceType::ROOK), s) && rook_sees(k, occ, s) {
            assert(attacks_as(b, PieceType::ROOK, enemy, occ, s, k));
        } else if bit(b.spec_get(enemy, PieceType::BISHOP), s) && bishop_sees(k, occ, s) {
            assert(attacks_as(b, PieceType::BISHOP, enemy, occ, s, k));
        } else if bit(b.spec_get(enemy, PieceType::KNIGHT), s) && knight_jump(k, s) {
            assert(attacks_as(b, PieceType::KNIGHT, enemy, occ, s, k));
        } else {
            assert(attacks_as(b, PieceType::PAWN, enemy, occ, s, k));
        }
    }
    if exists|t: PieceType| t != PieceType::KING && #[trigger] attacks_as(b, t, enemy, occ, s, k) {
        let t = choose|t: PieceType| t != PieceType::KING && #[trigger] attacks_as(b, t, enemy, occ, s, k);
        match t {
            PieceType::PAWN => {},
            PieceType::KNIGHT => {},
            PieceType::BISHOP => {},
            PieceType::ROOK => {},
            PieceType::QUEEN => {},
            PieceType::KING => {},
        }
    }
}

/// Whether the move `m` deals with every check there is: it takes the
/// piece that gives it, or lands between that piece and the king.
pub open spec fn answers_checks(b: BoardState, p: Player, m: Move) -> bool {
    forall|s: int| #[trigger]
        bit(spec_checkers(b, p), s) ==> (m.eaten_loc != 0 && s == sq(m.eaten_loc)) || between(
            sq(b.spec_get(p, PieceType::KING)),
            s,
            sq(m.to),
        )
}

/// Whether the piece on `f` alone stands between the king of `p` and a
/// slider of the opponent on `s` that moves along their line `d`.
pub open spec fn shields(b: BoardState, p: Player, f: int, s: int, d: Dir) -> bool {
    let k = sq(b.spec_get(p, PieceType::KING));
    &&& lies_between(s, d, f, k)
    &&& exists|t: PieceType| slides(t, d) && #[trigger] bit(b.spec_get(p.spec_other(), t), s)
    &&& forall|x: int| #[trigger]
        bit(b.spec_all_occupancy(), x) && lies_between(s, d, x, k) ==> x == f
}

/// Whether the move `m` opens no line to the king: where the piece that
/// moves alone shields the king from a slider, the move takes that slider
/// or stays between it and the king.
pub open spec fn keeps_shield(b: BoardState, p: Player, m: Move) -> bool {
    forall|s: int, d: Dir| #[trigger]
        shields(b, p, sq(m.from), s, d) ==> s == sq(m.to) || lies_between(
            s,
            d,
            sq(m.to),
            sq(b.spec_get(p, PieceType::KING)),
        )
}

/// A pawn or knight that attacks the king gives check, and a move that
/// answers the check takes it.
proof fn lemma_jump_answered(b: BoardState, p: Player, m: Move, t: PieceType, s: int)
    requires
        b.wf(p),
        answers_checks(b, p, m),
        t == PieceType::PAWN || t == PieceType::KNIGHT,
        0 <= s < 64,
        attacks_as(
            b,
            t,
            p.spec_other(),
            b.spec_all_occupancy(),
            s,
            sq(b.spec_get(p, PieceType::KING)),
        ),
    ensures
        m.eaten_loc != 0 && s == sq(m.eaten_loc),
{
    lemma_checkers_bit(b, p, s);
    assert(bit(spec_checkers(b, p), s));
}

/// A slider that sees the king after the move saw it before, or was
/// shielded from it by the piece that moved; either way the move has taken
/// it.
proof fn lemma_slide_answered(
    b: BoardState,
    p: Player,
    m: Move,
    t: PieceType,
    s: int,
    d: Dir,
    occ_after: u64,
)
    requires
        b.wf(p),
        answers_checks(b, p, m),
        keeps_shield(b, p, m),
        0 <= s < 64,
        0 <= sq(m.to) < 64,
        slides(t, d),
        bit(b.spec_get(p.spec_other(), t), s),
        sees(s, occ_after, d, sq(b.spec_get(p, PieceType::KING))),
        bit(occ_after, sq(m.to)),
        forall|x: int|
            0 <= x < 64 && x != sq(m.from) && #[trigger] bit(b.spec_all_occupancy(), x) ==> bit(
                occ_after,
                x,
            ),
    ensures
        s == sq(m.to) || (m.eaten_loc != 0 && s == sq(m.eaten_loc)),
{
    let other = p.spec_other();
    let fi = sq(m.from);
    let ti = sq(m.to);
    let occ = b.spec_all_occupancy();
    let k = sq(b.spec_get(p, PieceType::KING));
    lemma_sees_between(s, occ_after, d, k);
    lemma_sees_between(s, occ, d, k);
    assert(!lies_between(s, d, ti, k));
    if sees(s, occ, d, k) {
        lemma_slider_attack(t, other, occ, s, k);
        assert(attacks_as(b, t, other, occ, s, k));
        lemma_checkers_bit(b, p, s);
        assert(bit(spec_checkers(b, p), s));
        if !(m.eaten_loc != 0 && s == sq(m.eaten_loc)) {
            assert(between(k, s, ti));
            lemma_between_reversed(s, d, k, k);
            lemma_between_line(k, s, ti, d.spec_flip());
            lemma_between_reversed(s, d, ti, k);
        }
    } else {
        let x = choose|x: int| #[trigger] bit(occ, x) && lies_between(s, d, x, k);
        assert(bit(occ, x) && lies_between(s, d, x, k));
        if x != fi {
            assert(bit(occ_after, x));
        }
        assert forall|y: int| #[trigger] bit(occ, y) && lies_between(s, d, y, k) implies y == fi by {
            if y != fi {
                assert(bit(occ_after, y));
            }
        }
        assert(shields(b, p, fi, s, d));
    }
}

/// A move of a piece that is no king, and no en-passant capture, leaves the
/// king unattacked where it answers every check and keeps every shield,
/// the kings standing apart.
pub proof fn lemma_piece_move_safe(b: BoardState, p: Player, m: Move)
    requires
        b.wf(p),
        b.fits(p, m),
        m.start_type != PieceType::KING,
        m.eaten_loc == 0 || m.eaten_loc == m.to,
        kings_apart(b),
        answers_checks(b, p, m),
        keeps_shield(b, p, m),
    ensures
        safe_after(b, p, m),
{
    let a = b.spec_apply(p, m);
    let other = p.spec_other();
    let ti = sq(m.to);
    let occ = b.spec_all_occupancy();
    let occ_after = a.spec_all_occupancy();
    let k = sq(b.spec_get(p, PieceType::KING));
    lemma_fits_shape(b, p, m);
    lemma_after_move(b, p, m);
    crate::chess_impl::lemma_king_after(b, p, m);
    if king_attacked(a, p) {
        let s = choose|s: int| #[trigger] attacks_from(a, other, occ_after, s, k);
        let t = if attacks_as(a, PieceType::PAWN, other, occ_after, s, k) {
            PieceType::PAWN
        } else if attacks_as(a, PieceType::KNIGHT, other, occ_after, s, k) {
            PieceType::KNIGHT
        } else if attacks_as(a, PieceType::BISHOP, other, occ_after, s, k) {
            PieceType::BISHOP
        } else if attacks_as(a, PieceType::ROOK, other, occ_after, s, k) {
            PieceType::ROOK
        } else if attacks_as(a, PieceType::QUEEN, other, occ_after, s, k) {
            PieceType::QUEEN
        } else {
            PieceType::KING
        };
        assert(attacks_as(a, t, other, occ_after, s, k));
        assert(bit(b.spec_get(other, t), s));
        assert(0 <= s < 64);
        lemma_holds(b, other, s);
        lemma_holds(b, p, s);
        lemma_holds(b, other, ti);
        lemma_holds(b, p, ti);
        if t == PieceType::KING {
            let ek = b.spec_get(other, PieceType::KING);
            lemma_bit_single(sq(ek), s);
        } else if t == PieceType::PAWN || t == PieceType::KNIGHT {
            lemma_jump_answered(b, p, m, t, s);
        } else {
            lemma_slider_attack(t, other, occ_after, s, k);
            let d = choose|d: Dir| slides(t, d) && #[trigger] sees(s, occ_after, d, k);
            assert forall|x: int| 0 <= x < 64 && x != sq(m.from) && #[trigger] bit(occ, x) implies bit(
                occ_after,
                x,
            ) by {}
            lemma_slide_answered(b, p, m, t, s, d, occ_after);
        }
    }
}

/// A square between two squares lies on the line from the one to the
/// other.
pub proof fn lemma_between_line(a: int, b: int, m: int, d: Dir)
    requires
        between(a, b, m),
        on_ray(a, d, b),
    ensures
        lies_between(a, d, m, b),
{
}

/// The squares on which a piece that is no king deals with the checks of
/// `checkers`: every square where there is no check, the checker's square
/// and those between it and the king where there is one.
pub open spec fn check_mask(b: BoardState, p: Player, checkers: u64) -> u64 {
    checkers | if checkers != 0 {
        spec_between(sq(b.spec_get(p, PieceType::KING)), sq(checkers))
    } else {
        !0u64
    }
}

/// Whether a move to `j` deals with every check there is.
pub open spec fn target_answers(b: BoardState, p: Player, j: int) -> bool {
    forall|s: int| #[trigger]
        bit(spec_checkers(b, p), s) ==> (b.holds(p.spec_other(), j) && s == j) || between(
            sq(b.spec_get(p, PieceType::KING)),
            s,
            j,
        )
}

/// Whether a move from `fi` to `j` opens no line to the king.
pub open spec fn target_keeps(b: BoardState, p: Player, fi: int, j: int) -> bool {
    forall|s: int, d: Dir| #[trigger]
        shields(b, p, fi, s, d) ==> s == j || lies_between(
            s,
            d,
            j,
            sq(b.spec_get(p, PieceType::KING)),
        )
}

/// A target inside the check mask deals with every check, while there is
/// at most one.
pub proof fn lemma_mask_answers(b: BoardState, p: Player, j: int)
    requires
        b.wf(p),
        !has_several(spec_checkers(b, p)),
        bit(check_mask(b, p, spec_checkers(b, p)), j),
    ensures
        target_answers(b, p, j),
{
    let c = spec_checkers(b, p);
    let k = sq(b.spec_get(p, PieceType::KING));
    let other = p.spec_other();
    if c != 0 {
        lemma_single_from_rest(c);
        let ci = lowest(c);
        crate::bits::lemma_single_index(ci);
        assert forall|s: int| #[trigger] bit(c, s) implies (b.holds(other, j) && s == j) || between(
            k,
            s,
            j,
        ) by {
            lemma_bit_single(ci, s);
            lemma_bit_single(ci, j);
            lemma_bit_or(c, spec_between(k, ci), j);
            lemma_between_bit(k, ci, j);
            if j == ci {
                lemma_checkers_bit(b, p, s);
                let t = choose|t: PieceType|
                    t != PieceType::KING && #[trigger] attacks_as(
                        b,
                        t,
                        other,
                        b.spec_all_occupancy(),
                        s,
                        k,
                    );
                lemma_holds(b, other, s);
            }
        }
    } else {
        assert forall|s: int| #[trigger] bit(c, s) implies (b.holds(other, j) && s == j) || between(
            k,
            s,
            j,
        ) by {
            lemma_bit_zero(s);
        }
    }
}

/// The opponent's sliders that would see the king if only the opponent's
/// pieces stood on the board.
pub proof fn lemma_pinners_bit(b: BoardState, p: Player, i: int)
    requires
        0 <= i < 64,
    ensures
        bit(spec_pinners(b, p), i) <==> exists|t: PieceType, d: Dir|
            slides(t, d) && bit(b.spec_get(p.spec_other(), t), i) && #[trigger] slides(t, d) && #[trigger] sees(
                sq(b.spec_get(p, PieceType::KING)),
                b.spec_occupancy(p.spec_other()),
                d,
                i,
            ),
{
    broadcast use crate::bits::group_bits, group_attacks;

    let k = sq(b.spec_get(p, PieceType::KING));
    let enemy = p.spec_other();
    let eo = b.spec_occupancy(enemy);
    if bit(spec_pinners(b, p), i) {
        let straight = rook_sees(k, eo, i);
        let t = if straight && bit(b.spec_get(enemy, PieceType::ROOK), i) {
            PieceType::ROOK
        } else if straight {
            PieceType::QUEEN
        } else if bit(b.spec_get(enemy, PieceType::BISHOP), i) {
            PieceType::BISHOP
        } else {
            PieceType::QUEEN
        };
        let d = if sees(k, eo, Dir::North, i) {
            Dir::North
        } else if sees(k, eo, Dir::South, i) {
            Dir::South
        } else if sees(k, eo, Dir::East, i) {
            Dir::East
        } else if sees(k, eo, Dir::West, i) {
            Dir::West
        } else if sees(k, eo, Dir::NorthEast, i) {
            Dir::NorthEast
        } else if sees(k, eo, Dir::NorthWest, i) {
            Dir::NorthWest
        } else if sees(k, eo, Dir::SouthEast, i) {
            Dir::SouthEast
        } else {
            Dir::SouthWest
        };
        assert(slides(t, d) && bit(b.spec_get(enemy, t), i) && sees(k, eo, d, i));
    }
    if exists|t: PieceType, d: Dir|
        slides(t, d) && bit(b.spec_get(p.spec_other(), t), i) && #[trigger] slides(t, d) && #[trigger] sees(
            k,
            eo,
            d,
            i,
        ) {
        let (t, d) = choose|t: PieceType, d: Dir|
            slides(t, d) && bit(b.spec_get(p.spec_other(), t), i) && #[trigger] slides(t, d) && #[trigger] sees(
                k,
                eo,
                d,
                i,
            );
        match d {
            Dir::North => {},
            Dir::South => {},
            Dir::East => {},
            Dir::West => {},
            Dir::NorthEast => {},
            Dir::NorthWest => {},
            Dir::SouthEast => {},
            Dir::SouthWest => {},
        }
    }
}

/// The piece of `p` that alone stands between the king and the pinner `i`,
/// as a bitboard; empty or more than one square where there is no such
/// piece.
pub open spec fn pin_of(b: BoardState, p: Player, i: int) -> u64 {
    spec_between(sq(b.spec_get(p, PieceType::KING)), i) & b.spec_occupancy(p)
}

/// The pinned pieces grow along the pinners, and hold the piece pinned by
/// each pinner yet to come.
pub proof fn lemma_pinned_loop_holds(
    b: BoardState,
    p: Player,
    capture_mask: u64,
    push_mask: u64,
    remaining: u64,
    acc: PinnedPart,
    i: int,
    j: int,
)
    ensures
        bit(acc.pinned, j) ==> bit(
            spec_pinned_loop(b, p, capture_mask, push_mask, remaining, acc).pinned,
            j,
        ),
        bit(remaining, i) && pin_of(b, p, i) == single(j) && 0 <= j < 64 ==> bit(
            spec_pinned_loop(b, p, capture_mask, push_mask, remaining, acc).pinned,
            j,
        ),
    decreases remaining,
{
    if remaining != 0 {
        lemma_rest(remaining);
        let i0 = lowest(remaining);
        let next = spec_pinned_step(b, p, capture_mask, push_mask, i0, acc);
        let pin = pin_of(b, p, i0);
        lemma_bit_or(acc.pinned, pin, j);
        lemma_pinned_loop_holds(b, p, capture_mask, push_mask, rest(remaining), next, i, j);
        assert(bit(acc.pinned, j) ==> bit(next.pinned, j));
        if i == i0 && pin == single(j) && 0 <= j < 64 {
            crate::bits::lemma_single_nonzero(j);
            crate::bits::lemma_single_index(j);
            lemma_bit_single(j, j);
            assert(rest(pin) == 0) by {
                assert forall|x: int| 0 <= x < 64 implies !#[trigger] bit(rest(pin), x) by {
                    lemma_rest(pin);
                    lemma_bit_single(j, x);
                }
                crate::bits::lemma_no_members(rest(pin));
            }
            assert(bit(next.pinned, j));
        }
    } else {
        lemma_bit_zero(i);
    }
}

/// A piece that alone shields the king from a slider is among the pinned
/// pieces.
pub proof fn lemma_shield_is_pinned(
    b: BoardState,
    p: Player,
    f: int,
    s: int,
    d: Dir,
    capture_mask: u64,
    push_mask: u64,
    acc: Seq<Move>,
)
    requires
        b.wf(p),
        shields(b, p, f, s, d),
        b.holds(p, f),
    ensures
        bit(spec_pinned_part(b, p, capture_mask, push_mask, acc).pinned, f),
        bit(spec_pinners(b, p), s),
        pin_of(b, p, s) == single(f),
{
    let k = sq(b.spec_get(p, PieceType::KING));
    let other = p.spec_other();
    let occ = b.spec_all_occupancy();
    let eo = b.spec_occupancy(other);
    let t = choose|t: PieceType| slides(t, d) && #[trigger] bit(b.spec_get(other, t), s);
    lemma_holds(b, other, s);
    // No piece of the opponent stands between.
    assert forall|x: int| #[trigger] bit(eo, x) implies !lies_between(s, d, x, k) by {
        lemma_occupancy_bit(b, other, x);
        lemma_occupancy_bit(b, p, x);
        lemma_holds(b, other, x);
        lemma_holds(b, p, x);
        lemma_holds(b, p, f);
        lemma_holds(b, other, f);
        if lies_between(s, d, x, k) {
            assert(bit(occ, x));
        }
    }
    lemma_sees_between(s, eo, d, k);
    lemma_sees_symmetric(s, eo, d, k);
    assert(sees(k, eo, d.spec_flip(), s));
    lemma_pinners_bit(b, p, s);
    assert(slides(t, d.spec_flip()));
    assert(bit(spec_pinners(b, p), s));
    let pin = pin_of(b, p, s);
    assert forall|x: int| 0 <= x < 64 implies #[trigger] bit(pin, x) == bit(single(f), x) by {
        lemma_bit_and(spec_between(k, s), b.spec_occupancy(p), x);
        lemma_between_bit(k, s, x);
        lemma_occupancy_bit(b, p, x);
        lemma_bit_single(f, x);
        lemma_between_reversed(s, d, x, k);
        lemma_between_reversed(s, d, f, k);
        if between(k, s, x) {
            lemma_between_line(k, s, x, d.spec_flip());
        }
        if x == f {
            assert(between(k, s, f));
        }
    }
    lemma_bits_equal(pin, single(f));
    lemma_pinned_loop_holds(
        b,
        p,
        capture_mask,
        push_mask,
        spec_pinners(b, p),
        PinnedPart { moves: acc, pinned: 0 },
        s,
        f,
    );
}

/// A piece that is not among the pinned pieces shields the king from no
/// slider, so none of its moves opens a line.
pub proof fn lemma_unpinned_keeps(
    b: BoardState,
    p: Player,
    f: int,
    capture_mask: u64,
    push_mask: u64,
    acc: Seq<Move>,
    j: int,
)
    requires
        b.wf(p),
        b.holds(p, f),
        !bit(spec_pinned_part(b, p, capture_mask, push_mask, acc).pinned, f),
    ensures
        target_keeps(b, p, f, j),
{
    assert forall|s: int, d: Dir| #[trigger] shields(b, p, f, s, d) implies s == j || lies_between(
        s,
        d,
        j,
        sq(b.spec_get(p, PieceType::KING)),
    ) by {
        lemma_shield_is_pinned(b, p, f, s, d, capture_mask, push_mask, acc);
    }
}

/// Two sliders in one line with the king and one square between, and with
/// nothing else between, are the same slider.
proof fn lemma_one_pinner(k: int, f: int, i: int, back: Dir, s: int, occ: u64, eo: u64)
    requires
        lies_between(k, back, f, i),
        lies_between(k, back, f, s),
        bit(eo, s),
        bit(occ, i),
        i != f,
        forall|x: int| #[trigger] bit(eo, x) ==> !lies_between(k, back, x, i),
        forall|x: int| #[trigger] bit(occ, x) && lies_between(k, back, x, s) ==> x == f,
    ensures
        s == i,
{
    lemma_ray_order(k, back, s, i);
    lemma_ray_order(k, back, i, s);
    if distance(k, s) < distance(k, i) {
        assert(lies_between(k, back, s, i));
    } else if distance(k, i) < distance(k, s) {
        assert(lies_between(k, back, i, s));
    }
}

/// One slider from which a pinned piece shields the king is its pinner, so
/// that a target on the pin keeps the shield.
#[verifier::spinoff_prover]
#[verifier::rlimit(50)]
proof fn lemma_pinned_keeps_one(
    b: BoardState,
    p: Player,
    f: int,
    i: int,
    back: Dir,
    j: int,
    s: int,
    d: Dir,
)
    requires
        lies_between(sq(b.spec_get(p, PieceType::KING)), back, f, i),
        bit(b.spec_all_occupancy(), i),
        i != f,
        sees(sq(b.spec_get(p, PieceType::KING)), b.spec_occupancy(p.spec_other()), back, i),
        shields(b, p, f, s, d),
        j == i || between(sq(b.spec_get(p, PieceType::KING)), i, j),
    ensures
        s == j || lies_between(s, d, j, sq(b.spec_get(p, PieceType::KING))),
{
    let k = sq(b.spec_get(p, PieceType::KING));
    let other = p.spec_other();
    let eo = b.spec_occupancy(other);
    let occ = b.spec_all_occupancy();
    lemma_between_reversed(s, d, f, k);
    assert(d.spec_flip() == back);
    let t = choose|t: PieceType| slides(t, d) && #[trigger] bit(b.spec_get(other, t), s);
    lemma_holds(b, other, s);
    lemma_occupancy_bit(b, other, s);
    assert(bit(eo, s));
    lemma_sees_between(k, eo, back, i);
    assert forall|x: int| #[trigger] bit(occ, x) && lies_between(k, back, x, s) implies x == f by {
        lemma_between_reversed(s, d, x, k);
    }
    lemma_one_pinner(k, f, i, back, s, occ, eo);
    if j != i {
        lemma_between_line(k, i, j, back);
        lemma_between_reversed(s, d, j, k);
    }
}

/// A pinned piece that takes its pinner, or stays between it and the king,
/// opens no line.
#[verifier::spinoff_prover]
#[verifier::rlimit(50)]
pub proof fn lemma_pinned_keeps(b: BoardState, p: Player, f: int, i: int, j: int)
    requires
        b.wf(p),
        0 <= i < 64,
        0 <= f < 64,
        bit(spec_pinners(b, p), i),
        pin_of(b, p, i) == single(f),
        bit(single(i) | spec_between(sq(b.spec_get(p, PieceType::KING)), i), j),
    ensures
        target_keeps(b, p, f, j),
{
    let k = sq(b.spec_get(p, PieceType::KING));
    let other = p.spec_other();
    let eo = b.spec_occupancy(other);
    let occ = b.spec_all_occupancy();
    lemma_pinners_bit(b, p, i);
    let (ti, di) = choose|t: PieceType, d: Dir|
        slides(t, d) && bit(b.spec_get(other, t), i) && #[trigger] slides(t, d) && #[trigger] sees(
            k,
            eo,
            d,
            i,
        );
    assert(sees(k, eo, di, i));
    assert(lies_between(k, di, f, i)) by {
        lemma_bit_single(f, f);
        lemma_bit_and(spec_between(k, i), b.spec_occupancy(p), f);
        lemma_between_bit(k, i, f);
        lemma_between_line(k, i, f, di);
    }
    assert(bit(occ, i)) by {
        lemma_occupancy_bit(b, other, i);
        lemma_holds(b, other, i);
    }
    assert(i != f);
    assert(j == i || between(k, i, j)) by {
        lemma_bit_or(single(i), spec_between(k, i), j);
        lemma_bit_single(i, j);
        lemma_between_bit(k, i, j);
    }
    assert forall|s: int, d: Dir| #[trigger] shields(b, p, f, s, d) implies s == j || lies_between(
        s,
        d,
        j,
        k,
    ) by {
        lemma_pinned_keeps_one(b, p, f, i, di, j, s, d);
    }
}

/// The square of the pawn that can be taken en passant.
pub open spec fn passed_pawn(b: BoardState, p: Player) -> int {
    sq(b.en_passant_square) + forward(p.spec_other()).delta()
}

/// Whether the pawn that can be taken en passant alone shields the king of
/// `p` from a bishop or queen on one of its diagonals.
///
/// No game comes to such a position: the double step would have been made
/// while the opponent's king stood attacked. Taking the pawn en passant
/// there uncovers the king, and the generator does not look for it.
pub open spec fn uncovered_by_en_passant(b: BoardState, p: Player) -> bool {
    b.en_passant_square != 0 && exists|s: int, d: Dir|
        d.dx() != 0 && d.dy() != 0 && #[trigger] shields(b, p, passed_pawn(b, p), s, d)
}

/// Whether `m` has the shape of an en-passant capture: what it takes does
/// not stand where it lands.
pub open spec fn takes_beside(m: Move) -> bool {
    m.eaten_loc != 0 && m.eaten_loc != m.to
}

/// The square that a castling king passes.
pub open spec fn passed_by_king(m: Move) -> int {
    (sq(m.from) + sq(m.to)) / 2
}

/// The square of the rook that castles with the king.
pub open spec fn castling_rook(m: Move) -> int {
    if sq(m.to) < sq(m.from) {
        sq(m.from) - 3
    } else {
        sq(m.from) + 4
    }
}

/// Whether `m`, where it is castling, is castling by the rules as far as
/// they look back and at the king's way: king and rook keep their castling
/// memory, no piece but a king gives check, and the square that the king
/// passes is no danger square.
pub open spec fn castles_unchecked(b: BoardState, p: Player, m: Move) -> bool {
    m.is_castle() ==> {
        &&& spec_checkers(b, p) == 0
        &&& !bit(spec_king_danger_squares(b, p), passed_by_king(m))
        &&& b.castle_memory & m.from != 0
        &&& b.castle_memory & single(castling_rook(m)) != 0
    }
}

/// Whether `m`, where it is castling, is castling by the rules: king and
/// rook keep their castling memory, the king is not in check, and the
/// square that it passes is not attacked.
pub open spec fn castles_rightly(b: BoardState, p: Player, m: Move) -> bool {
    m.is_castle() ==> {
        &&& !king_attacked(b, p)
        &&& !bit(spec_king_danger_squares(b, p), passed_by_king(m))
        &&& b.castle_memory & m.from != 0
        &&& b.castle_memory & single(castling_rook(m)) != 0
    }
}

/// Whether every move of `moves` leaves the king of `p` unattacked and
/// castles by the rules; of the en-passant captures the first is asked only
/// where the pawn to take does not alone shield the king on a diagonal.
pub open spec fn all_safe(b: BoardState, p: Player, moves: Seq<Move>) -> bool {
    forall|k: int|
        0 <= k < moves.len() ==> (safe_after(b, p, #[trigger] moves[k]) || (takes_beside(moves[k])
            && uncovered_by_en_passant(b, p))) && castles_unchecked(b, p, moves[k])
}

/// Whether a piece of kind `piece_type` on `fi` can go to `j` without
/// leaving the king attacked: a king goes to no danger square; another
/// piece answers every check and opens no line, the kings standing apart.
pub open spec fn target_safe(b: BoardState, p: Player, piece_type: PieceType, fi: int, j: int) -> bool {
    if piece_type == PieceType::KING {
        !bit(spec_king_danger_squares(b, p), j)
    } else {
        kings_apart(b) && target_answers(b, p, j) && target_keeps(b, p, fi, j)
    }
}

/// Whether every member of `to_options` is a safe target.
pub open spec fn targets_safe(
    b: BoardState,
    p: Player,
    piece_type: PieceType,
    fi: int,
    to_options: u64,
) -> bool {
    forall|j: int| #[trigger] bit(to_options, j) ==> target_safe(b, p, piece_type, fi, j)
}

/// The moves to one fitting and safe target leave the king unattacked.
pub proof fn lemma_target_moves_safe(
    b: BoardState,
    p: Player,
    from: u64,
    ti: int,
    piece_type: PieceType,
    enemy_occ: u64,
)
    requires
        b.wf(p),
        0 <= ti < 64,
        all_fit(b, p, spec_moves_for_target(b, from, single(ti), piece_type, enemy_occ)),
        enemy_occ == b.spec_occupancy(p.spec_other()),
        piece_type == PieceType::KING ==> king_step(sq(from), ti),
        target_safe(b, p, piece_type, sq(from), ti),
    ensures
        all_safe(b, p, spec_moves_for_target(b, from, single(ti), piece_type, enemy_occ)),
{
    let moves = spec_moves_for_target(b, from, single(ti), piece_type, enemy_occ);
    let other = p.spec_other();
    crate::bits::lemma_single_index(ti);
    assert forall|k: int| 0 <= k < moves.len() implies safe_after(b, p, #[trigger] moves[k])
        && !moves[k].is_castle() by {
        let m = moves[k];
        assert(b.fits(p, m));
        assert(m.eaten_loc == spec_eaten(b, single(ti), enemy_occ).0);
        assert(m.eaten_loc == 0 || m.eaten_loc == m.to);
        assert(m.from == from && m.to == single(ti) && m.start_type == piece_type);
        lemma_fits_shape(b, p, m);
        if piece_type == PieceType::KING {
            lemma_king_step_safe(b, p, m);
        } else {
            assert forall|s: int| #[trigger] bit(spec_checkers(b, p), s) implies (m.eaten_loc != 0
                && s == sq(m.eaten_loc)) || between(sq(b.spec_get(p, PieceType::KING)), s, sq(m.to)) by {
                if b.holds(other, ti) && s == ti {
                    assert(m.eaten_loc != 0);
                }
            }
            lemma_piece_move_safe(b, p, m);
        }
    }
}

/// Which squares are occupied after castling: king and rook have left
/// their squares and stand on the two between.
pub proof fn lemma_castle_occupancy(b: BoardState, p: Player, m: Move, j: int)
    requires
        b.wf(p),
        b.fits(p, m),
        m.is_castle(),
        0 <= j < 64,
    ensures
        bit(b.spec_apply(p, m).spec_all_occupancy(), j) == if sq(m.to) == sq(m.from) - 2 {
            (bit(b.spec_all_occupancy(), j) && j != sq(m.from) && j != sq(m.from) - 3) || j == sq(
                m.from,
            ) - 2 || j == sq(m.from) - 1
        } else {
            (bit(b.spec_all_occupancy(), j) && j != sq(m.from) && j != sq(m.from) + 4) || j == sq(
                m.from,
            ) + 2 || j == sq(m.from) + 1
        },
        forall|t: PieceType| #[trigger]
            bit(b.spec_apply(p, m).spec_get(p.spec_other(), t), j) == bit(
                b.spec_get(p.spec_other(), t),
                j,
            ),
{
    let a = b.spec_apply(p, m);
    let other = p.spec_other();
    lemma_fits_shape(b, p, m);
    assert forall|q: Player, t: PieceType| #[trigger]
        bit(a.spec_get(q, t), j) == b.applied_bit(p, m, q, t, j) by {
        lemma_apply_bits(b, p, m, q, t, j);
    }
    lemma_occupancy_bit(a, p, j);
    lemma_occupancy_bit(b, p, j);
    lemma_holds(b, p, j);
    lemma_holds(b, other, j);
    lemma_holds(a, p, j);
    lemma_holds(a, other, j);
    lemma_holds(b, p, sq(m.from));
    lemma_holds(b, other, sq(m.from));
    lemma_holds(b, p, sq(m.from) - 3);
    lemma_holds(b, other, sq(m.from) - 3);
    lemma_holds(b, p, sq(m.from) + 4);
    lemma_holds(b, other, sq(m.from) + 4);
    if j == sq(m.to) {
        assert(bit(a.spec_get(p, PieceType::KING), j));
    }
    if (sq(m.to) == sq(m.from) - 2 && j == sq(m.from) - 1) || (sq(m.to) != sq(m.from) - 2 && j == sq(
        m.from,
    ) + 1) {
        assert(bit(a.spec_get(p, PieceType::ROOK), j));
    }
}

/// Castling over squares outside the danger squares leaves the king
/// unattacked.
pub proof fn lemma_castle_safe(b: BoardState, p: Player, m: Move)
    requires
        b.wf(p),
        b.fits(p, m),
        m.is_castle(),
        !bit(spec_king_danger_squares(b, p), sq(m.to)),
    ensures
        safe_after(b, p, m),
{
    let a = b.spec_apply(p, m);
    let other = p.spec_other();
    let fi = sq(m.from);
    let ti = sq(m.to);
    let occ = b.spec_all_occupancy();
    let king = b.spec_get(p, PieceType::KING);
    let occ_nok = occ & !king;
    let occ_after = a.spec_all_occupancy();
    lemma_fits_shape(b, p, m);
    lemma_castle_squares();
    crate::chess_impl::lemma_king_after(b, p, m);
    crate::bits::lemma_single_index(ti);
    lemma_king_danger_bit(b, p, ti);
    lemma_bit_single(sq(king), fi);
    assert(king == single(fi));
    assert(fi == 3 || fi == 59);
    if king_attacked(a, p) {
        let s = choose|s: int| #[trigger] attacks_from(a, other, occ_after, s, ti);
        assert forall|d: Dir, x: int| #[trigger] bit(occ_nok, x) && #[trigger] lies_between(s, d, x, ti) implies bit(
            occ_after,
            x,
        ) by {
            lemma_bit_and(occ, !king, x);
            lemma_bit_not(king, x);
            lemma_bit_single(fi, x);
            lemma_castle_occupancy(b, p, m, x);
            lemma_corner(fi, s, d, x, ti);
        }
        assert forall|t: PieceType| attacks_as(a, t, other, occ_after, s, ti) implies attacks_as(
            b,
            t,
            other,
            occ_nok,
            s,
            ti,
        ) by {
            lemma_castle_occupancy(b, p, m, s);
            lemma_kind_attacks_monotone(t, other, occ_after, occ_nok, s, ti);
        }
        assert(attacks_from(b, other, occ_nok, s, ti));
        assert(attacked(b, other, occ_nok, ti));
    }
}

/// The corner that a castling rook leaves is between no square and the
/// square on which the king lands.
proof fn lemma_corner(fi: int, s: int, d: Dir, x: int, ti: int)
    requires
        fi == 3 || fi == 59,
        ti == fi - 2 || ti == fi + 2,
        lies_between(s, d, x, ti),
    ensures
        ti == fi - 2 ==> x != fi - 3,
        ti == fi + 2 ==> x != fi + 4,
{
}

/// Where the squares of an en-passant capture lie: the pawn taken stands
/// beside the capturing pawn and on the file of the target, one rank from
/// it.
pub proof fn lemma_en_passant_squares(p: Player, f: int, t: int, e: int)
    requires
        0 <= f < 64,
        0 <= t < 64,
        0 <= e < 64,
        pawn_attack(p, f, t),
        e == t + forward(p.spec_other()).delta(),
    ensures
        rank_of(e) == rank_of(f),
        abs_diff(file_of(e), file_of(f)) == 1,
        file_of(t) == file_of(e),
        abs_diff(rank_of(t), rank_of(e)) == 1,
        distance(f, t) == 1,
        e != f && e != t && f != t,
{
}

/// A pinned pawn that takes en passant along the line from the king stays
/// between the king and its pinner.
proof fn lemma_pawn_keeps_line(k: int, f: int, t: int, s: int, d: Dir)
    requires
        lies_between(s, d, f, k),
        between(k, t, f),
        distance(f, t) == 1,
        0 <= t < 64,
        t != s,
    ensures
        lies_between(s, d, t, k),
{
    lemma_between_reversed(s, d, f, k);
    let back = d.spec_flip();
    assert(on_ray(k, back, f));
    assert(on_ray(k, back, s));
    assert(on_ray(k, back, t));
    lemma_ray_order(k, back, f, t);
    lemma_ray_order(k, back, f, s);
    lemma_ray_order(k, back, t, s);
    lemma_ray_order(k, back, s, t);
    lemma_between_reversed(s, d, t, k);
}

/// A target between the king and the pawn that shields it lies in the line
/// from the slider to the king.
proof fn lemma_target_in_line(k: int, f: int, t: int, s: int, d: Dir)
    requires
        lies_between(s, d, f, k),
        between(k, f, t),
    ensures
        lies_between(s, d, t, k),
{
    lemma_between_reversed(s, d, f, k);
    let back = d.spec_flip();
    assert(on_ray(k, back, f));
    lemma_between_line(k, f, t, back);
    assert(lies_between(k, back, t, s));
    lemma_between_reversed(s, d, t, k);
}

/// On a rank or file through the pawn taken en passant, the capturing pawn
/// or the target stands in the line as well.
proof fn lemma_straight_through_pawn(k: int, f: int, t: int, e: int, s: int, d: Dir)
    requires
        lies_between(s, d, e, k),
        d.dx() == 0 || d.dy() == 0,
        0 <= f < 64,
        0 <= t < 64,
        rank_of(e) == rank_of(f),
        abs_diff(file_of(e), file_of(f)) == 1,
        file_of(t) == file_of(e),
        abs_diff(rank_of(t), rank_of(e)) == 1,
        t != s && t != k && f != s && f != k,
    ensures
        lies_between(s, d, t, k) || lies_between(s, d, f, k),
{
    lemma_ray_order(s, d, e, k);
}

/// A line through both pawns of an en-passant capture is their rank, and
/// the king stands on it.
proof fn lemma_rank_through_pawns(k: int, f: int, e: int, s: int, d: Dir)
    requires
        lies_between(s, d, f, k),
        lies_between(s, d, e, k),
        rank_of(e) == rank_of(f),
        e != f,
    ensures
        d.dy() == 0,
        rank_of(k) == rank_of(f),
        k / 8 == f / 8,
{
}

/// Whether the en-passant capture deals with every check there is: the
/// pawn taken gives it, or the target lies between the checker and the
/// king.
proof fn lemma_en_passant_answers(b: BoardState, p: Player, capture_mask: u64, push_mask: u64, s: int)
    requires
        b.wf(p),
        b.en_passant_square != 0,
        !has_several(spec_checkers(b, p)),
        capture_mask == spec_checkers(b, p),
        push_mask == crate::legal_moves::spec_push_mask(b, p),
        0 <= passed_pawn(b, p) < 64,
        (single(passed_pawn(b, p)) & capture_mask) | (b.en_passant_square & push_mask) != 0,
        bit(spec_checkers(b, p), s),
    ensures
        s == passed_pawn(b, p) || between(
            sq(b.spec_get(p, PieceType::KING)),
            s,
            sq(b.en_passant_square),
        ),
{
    let c = spec_checkers(b, p);
    let k = sq(b.spec_get(p, PieceType::KING));
    let e = passed_pawn(b, p);
    let t = sq(b.en_passant_square);
    lemma_bit_zero(s);
    lemma_single_from_rest(c);
    let ci = lowest(c);
    crate::bits::lemma_single_index(ci);
    lemma_bit_single(ci, s);
    let x = single(e) & capture_mask;
    let y = b.en_passant_square & push_mask;
    if x != 0 {
        lemma_common(single(e), capture_mask);
        let j = choose|j: int| 0 <= j < 64 && bit(single(e), j) && bit(capture_mask, j);
        lemma_bit_single(e, j);
        lemma_bit_single(ci, j);
    } else {
        bv_or_nonzero(x, y);
        lemma_common(b.en_passant_square, push_mask);
        let j = choose|j: int| 0 <= j < 64 && bit(b.en_passant_square, j) && bit(push_mask, j);
        lemma_bit_single(t, j);
        lemma_between_bit(k, ci, j);
    }
}

proof fn bv_or_nonzero(a: u64, b: u64)
    by (bit_vector)
    ensures
        a | b != 0 && a == 0 ==> b != 0,
{
}

/// What an en-passant capture by the pawn on `i` is made of.
pub proof fn lemma_en_passant_setup(b: BoardState, p: Player, i: int)
    requires
        b.wf(p),
        b.en_passant_square != 0,
        bit(
            spec_pawn_captures(
                p.spec_other(),
                sq(b.en_passant_square),
                b.spec_get(p, PieceType::PAWN),
            ),
            i,
        ),
    ensures
        spec_pawn_moves(p.spec_other(), sq(b.en_passant_square), 0) == single(passed_pawn(b, p)),
        0 <= i < 64,
        0 <= passed_pawn(b, p) < 64,
        0 <= sq(b.en_passant_square) < 64,
        b.en_passant_square == single(sq(b.en_passant_square)),
        pawn_attack(p, i, sq(b.en_passant_square)),
        b.holds(p, i),
        b.free(sq(b.en_passant_square)),
        bit(b.spec_get(p.spec_other(), PieceType::PAWN), passed_pawn(b, p)),
        !bit(b.spec_get(p, PieceType::KING), i),
        b.fits(p, en_passant_move(b, single(passed_pawn(b, p)), i)),
        sq(single(i)) == i,
        sq(single(passed_pawn(b, p))) == passed_pawn(b, p),
        single(passed_pawn(b, p)) != 0,
        single(passed_pawn(b, p)) != b.en_passant_square,
{
    let other = p.spec_other();
    let t = sq(b.en_passant_square);
    let e = passed_pawn(b, p);
    lemma_en_passant_fits(b, p, i);
    lemma_pawn_captures_bit(other, t, b.spec_get(p, PieceType::PAWN), i);
    crate::bits::lemma_single_index(e);
    crate::bits::lemma_single_index(i);
    crate::bits::lemma_single_nonzero(e);
    lemma_holds(b, p, i);
    lemma_bit_single(e, t);
    lemma_bit_single(t, t);
}

/// An en-passant capture that the generator does not bar leaves the king
/// unattacked, where the pawn taken does not alone shield the king on a
/// diagonal.
#[verifier::rlimit(60)]
pub proof fn lemma_en_passant_safe(
    b: BoardState,
    p: Player,
    i: int,
    pinned: u64,
    capture_mask: u64,
    push_mask: u64,
    acc: Seq<Move>,
)
    requires
        b.wf(p),
        b.en_passant_square != 0,
        bit(
            spec_pawn_captures(
                p.spec_other(),
                sq(b.en_passant_square),
                b.spec_get(p, PieceType::PAWN),
            ),
            i,
        ),
        kings_apart(b),
        !has_several(spec_checkers(b, p)),
        capture_mask == spec_checkers(b, p),
        push_mask == crate::legal_moves::spec_push_mask(b, p),
        pinned == spec_pinned_part(b, p, capture_mask, push_mask, acc).pinned,
        (spec_pawn_moves(p.spec_other(), sq(b.en_passant_square), 0) & capture_mask) | (
        b.en_passant_square & push_mask) != 0,
        !en_passant_barred(
            b,
            p,
            pinned,
            spec_pawn_moves(p.spec_other(), sq(b.en_passant_square), 0),
            i,
        ),
        !uncovered_by_en_passant(b, p),
    ensures
        safe_after(
            b,
            p,
            en_passant_move(b, spec_pawn_moves(p.spec_other(), sq(b.en_passant_square), 0), i),
        ),
{
    let other = p.spec_other();
    let e = passed_pawn(b, p);
    let m = en_passant_move(b, single(e), i);
    let a = b.spec_apply(p, m);
    let occ_after = a.spec_all_occupancy();
    let k = sq(b.spec_get(p, PieceType::KING));
    lemma_en_passant_setup(b, p, i);
    assert(sq(m.from) == i && sq(m.to) == sq(b.en_passant_square) && sq(m.eaten_loc) == e
        && m.eaten_loc != 0);
    assert(!m.is_castle());
    lemma_after_move(b, p, m);
    crate::chess_impl::lemma_king_after(b, p, m);
    if king_attacked(a, p) {
        let s = choose|s: int| #[trigger] attacks_from(a, other, occ_after, s, k);
        let t = if attacks_as(a, PieceType::PAWN, other, occ_after, s, k) {
            PieceType::PAWN
        } else if attacks_as(a, PieceType::KNIGHT, other, occ_after, s, k) {
            PieceType::KNIGHT
        } else if attacks_as(a, PieceType::BISHOP, other, occ_after, s, k) {
            PieceType::BISHOP
        } else if attacks_as(a, PieceType::ROOK, other, occ_after, s, k) {
            PieceType::ROOK
        } else if attacks_as(a, PieceType::QUEEN, other, occ_after, s, k) {
            PieceType::QUEEN
        } else {
            PieceType::KING
        };
        assert(attacks_as(a, t, other, occ_after, s, k));
        assert(bit(b.spec_get(other, t), s) && s != e);
        lemma_en_passant_attacker(b, p, i, pinned, capture_mask, push_mask, acc, s, t, occ_after);
    }
}

/// A king does not attack a king that stands apart.
proof fn lemma_king_apart(b: BoardState, p: Player, s: int)
    requires
        b.wf(p),
        kings_apart(b),
        bit(b.spec_get(p.spec_other(), PieceType::KING), s),
    ensures
        !king_step(s, sq(b.spec_get(p, PieceType::KING))),
{
    let ek = b.spec_get(p.spec_other(), PieceType::KING);
    lemma_bit_single(sq(ek), s);
}

/// A pawn or knight that attacks the king is the pawn that can be taken en
/// passant, where such a capture is allowed.
proof fn lemma_en_passant_jump(
    b: BoardState,
    p: Player,
    capture_mask: u64,
    push_mask: u64,
    t: PieceType,
    s: int,
)
    requires
        b.wf(p),
        b.en_passant_square != 0,
        !has_several(spec_checkers(b, p)),
        capture_mask == spec_checkers(b, p),
        push_mask == crate::legal_moves::spec_push_mask(b, p),
        0 <= passed_pawn(b, p) < 64,
        0 <= s < 64,
        (single(passed_pawn(b, p)) & capture_mask) | (b.en_passant_square & push_mask) != 0,
        t == PieceType::PAWN || t == PieceType::KNIGHT,
        attacks_as(
            b,
            t,
            p.spec_other(),
            b.spec_all_occupancy(),
            s,
            sq(b.spec_get(p, PieceType::KING)),
        ),
    ensures
        s == passed_pawn(b, p),
{
    lemma_checkers_bit(b, p, s);
    lemma_en_passant_answers(b, p, capture_mask, push_mask, s);
}

/// No piece of the opponent attacks the king after such a capture.
proof fn lemma_en_passant_attacker(
    b: BoardState,
    p: Player,
    i: int,
    pinned: u64,
    capture_mask: u64,
    push_mask: u64,
    acc: Seq<Move>,
    s: int,
    t: PieceType,
    occ_after: u64,
)
    requires
        b.wf(p),
        b.en_passant_square != 0,
        bit(
            spec_pawn_captures(
                p.spec_other(),
                sq(b.en_passant_square),
                b.spec_get(p, PieceType::PAWN),
            ),
            i,
        ),
        kings_apart(b),
        !has_several(spec_checkers(b, p)),
        capture_mask == spec_checkers(b, p),
        push_mask == crate::legal_moves::spec_push_mask(b, p),
        pinned == spec_pinned_part(b, p, capture_mask, push_mask, acc).pinned,
        (single(passed_pawn(b, p)) & capture_mask) | (b.en_passant_square & push_mask) != 0,
        !en_passant_barred(b, p, pinned, single(passed_pawn(b, p)), i),
        !uncovered_by_en_passant(b, p),
        forall|j: int|
            0 <= j < 64 ==> #[trigger] bit(occ_after, j) == ((bit(b.spec_all_occupancy(), j) && j != i
                && j != passed_pawn(b, p)) || j == sq(b.en_passant_square)),
        bit(b.spec_get(p.spec_other(), t), s),
        kind_attacks(t, p.spec_other(), occ_after, s, sq(b.spec_get(p, PieceType::KING))),
    ensures
        s == passed_pawn(b, p),
{
    let other = p.spec_other();
    let k = sq(b.spec_get(p, PieceType::KING));
    lemma_en_passant_setup(b, p, i);
    if t == PieceType::KING {
        lemma_king_apart(b, p, s);
    } else if t == PieceType::PAWN || t == PieceType::KNIGHT {
        lemma_en_passant_jump(b, p, capture_mask, push_mask, t, s);
    } else {
        lemma_slider_attack(t, other, occ_after, s, k);
        let d = choose|d: Dir| slides(t, d) && #[trigger] sees(s, occ_after, d, k);
        lemma_en_passant_slider(b, p, i, pinned, capture_mask, push_mask, acc, t, s, d, occ_after);
    }
}

/// The same for one slider that would see the king after the capture: it
/// saw the king before, or one or both pawns stood in its line; the
/// generator has looked for each.
proof fn lemma_en_passant_slider(
    b: BoardState,
    p: Player,
    f: int,
    pinned: u64,
    capture_mask: u64,
    push_mask: u64,
    acc: Seq<Move>,
    kind: PieceType,
    s: int,
    d: Dir,
    occ_after: u64,
)
    requires
        b.wf(p),
        b.en_passant_square != 0,
        0 <= f < 64,
        0 <= s < 64,
        0 <= passed_pawn(b, p) < 64,
        0 <= sq(b.en_passant_square) < 64,
        b.en_passant_square == single(sq(b.en_passant_square)),
        pawn_attack(p, f, sq(b.en_passant_square)),
        b.holds(p, f),
        b.free(sq(b.en_passant_square)),
        bit(b.spec_get(p.spec_other(), PieceType::PAWN), passed_pawn(b, p)),
        !bit(b.spec_get(p, PieceType::KING), f),
        !has_several(spec_checkers(b, p)),
        capture_mask == spec_checkers(b, p),
        push_mask == crate::legal_moves::spec_push_mask(b, p),
        pinned == spec_pinned_part(b, p, capture_mask, push_mask, acc).pinned,
        (single(passed_pawn(b, p)) & capture_mask) | (b.en_passant_square & push_mask) != 0,
        !en_passant_barred(b, p, pinned, single(passed_pawn(b, p)), f),
        !uncovered_by_en_passant(b, p),
        slides(kind, d),
        bit(b.spec_get(p.spec_other(), kind), s),
        sees(s, occ_after, d, sq(b.spec_get(p, PieceType::KING))),
        forall|j: int|
            0 <= j < 64 ==> #[trigger] bit(occ_after, j) == ((bit(b.spec_all_occupancy(), j) && j != f
                && j != passed_pawn(b, p)) || j == sq(b.en_passant_square)),
    ensures
        s == passed_pawn(b, p),
{
    let other = p.spec_other();
    let t = sq(b.en_passant_square);
    let e = passed_pawn(b, p);
    let occ = b.spec_all_occupancy();
    let k = sq(b.spec_get(p, PieceType::KING));
    lemma_en_passant_squares(p, f, t, e);
    lemma_holds(b, p, f);
    lemma_holds(b, other, f);
    lemma_holds(b, p, e);
    lemma_holds(b, other, e);
    lemma_holds(b, p, t);
    lemma_holds(b, other, t);
    lemma_holds(b, p, s);
    lemma_holds(b, other, s);
    lemma_holds(b, p, k);
    lemma_holds(b, other, k);
    lemma_bit_single(k, k);
    lemma_occupancy_bit(b, p, t);
    lemma_occupancy_bit(b, p, f);
    lemma_occupancy_bit(b, p, e);
    lemma_occupancy_bit(b, p, k);
    lemma_occupancy_bit(b, p, s);
    lemma_sees_between(s, occ_after, d, k);
    lemma_sees_between(s, occ, d, k);
    assert(bit(occ_after, t));
    assert(!lies_between(s, d, t, k));
    if s != e {
        if sees(s, occ, d, k) {
            lemma_slider_attack(kind, other, occ, s, k);
            assert(attacks_as(b, kind, other, occ, s, k));
            lemma_checkers_bit(b, p, s);
            lemma_en_passant_answers(b, p, capture_mask, push_mask, s);
            lemma_between_reversed(s, d, k, k);
            lemma_between_line(k, s, t, d.spec_flip());
            lemma_between_reversed(s, d, t, k);
        } else {
            let f_in = bit(occ, f) && lies_between(s, d, f, k);
            let e_in = bit(occ, e) && lies_between(s, d, e, k);
            assert forall|y: int| #[trigger] bit(occ, y) && lies_between(s, d, y, k) implies y == f
                || y == e by {
                if y != f && y != e {
                    assert(bit(occ_after, y));
                }
            }
            if f_in && e_in {
                lemma_rank_through_pawns(k, f, e, s, d);
                // The generator has looked along the rank with both pawns gone.
                let occ2 = occ & !single(e) & !single(f);
                assert forall|y: int| #[trigger] bit(occ2, y) implies !lies_between(s, d, y, k) by {
                    lemma_bit_and(occ & !single(e), !single(f), y);
                    lemma_bit_and(occ, !single(e), y);
                    lemma_bit_not(single(e), y);
                    lemma_bit_not(single(f), y);
                    lemma_bit_single(e, y);
                    lemma_bit_single(f, y);
                }
                lemma_sees_between(s, occ2, d, k);
                lemma_sees_symmetric(s, occ2, d, k);
                assert(rook_sees(k, occ2, s));
                lemma_rook_attacks_bit(k, occ2, s);
                let sliders = b.spec_get(other, PieceType::ROOK) | b.spec_get(
                    other,
                    PieceType::QUEEN,
                );
                lemma_bit_or(
                    b.spec_get(other, PieceType::ROOK),
                    b.spec_get(other, PieceType::QUEEN),
                    s,
                );
                assert(bit(sliders, s));
                if spec_rook_attacks(k, occ2) & sliders == 0 {
                    lemma_no_common(spec_rook_attacks(k, occ2), sliders);
                }
            } else if f_in {
                assert(shields(b, p, f, s, d));
                lemma_shield_is_pinned(b, p, f, s, d, capture_mask, push_mask, acc);
                crate::bits::lemma_test_single(pinned, f);
                crate::bits::lemma_test_single(spec_between(k, t), f);
                lemma_between_bit(k, t, f);
                crate::bits::lemma_test_single(spec_between(k, f), t);
                lemma_between_bit(k, f, t);
                if between(k, t, f) {
                    lemma_pawn_keeps_line(k, f, t, s, d);
                } else {
                    assert(between(k, f, t));
                    lemma_target_in_line(k, f, t, s, d);
                }
            } else {
                assert(e_in);
                assert(shields(b, p, e, s, d));
                if d.dx() == 0 || d.dy() == 0 {
                    lemma_straight_through_pawn(k, f, t, e, s, d);
                }
            }
        }
    }
}

impl BoardState {
    /// Whether the board is one that a game can come to, as far as this
    /// crate looks: well-formed, the player who has just moved not in check
    /// (so that the kings stand apart), and the pawn that can be taken en
    /// passant, if there is one, not alone shielding the king of the player
    /// to move on a diagonal (it would have uncovered a check by stepping
    /// there).
    pub open spec fn legal(self, to_move: Player) -> bool {
        &&& self.wf(to_move)
        &&& !king_attacked(self, to_move.spec_other())
        &&& !uncovered_by_en_passant(self, to_move)
    }
}

/// On a board where the player who has just moved is not in check, the
/// kings stand apart.
pub proof fn lemma_legal_kings_apart(b: BoardState, p: Player)
    requires
        b.wf(p),
        !king_attacked(b, p.spec_other()),
    ensures
        kings_apart(b),
{
    let other = p.spec_other();
    let k = b.spec_get(p, PieceType::KING);
    let ek = b.spec_get(other, PieceType::KING);
    lemma_bit_single(sq(k), sq(k));
    if !kings_apart(b) {
        assert(king_step(sq(k), sq(ek)));
        assert(attacks_as(b, PieceType::KING, p, b.spec_all_occupancy(), sq(k), sq(ek)));
        assert(attacks_from(b, p, b.spec_all_occupancy(), sq(k), sq(ek)));
    }
}

/// A pawn that has made its double step shields the opponent's king on no
/// diagonal alone, where that king was not attacked before.
proof fn lemma_push_covers(b: BoardState, p: Player, m: Move)
    requires
        b.wf(p),
        !king_attacked(b, p.spec_other()),
        b.fits(p, m),
    ensures
        !uncovered_by_en_passant(b.spec_apply(p, m), p.spec_other()),
{
    let a = b.spec_apply(p, m);
    let other = p.spec_other();
    let fi = sq(m.from);
    let ti = sq(m.to);
    let occ = b.spec_all_occupancy();
    let k = sq(b.spec_get(other, PieceType::KING));
    lemma_fits_shape(b, p, m);
    crate::chess_impl::lemma_apply_wf(b, p, m);
    crate::chess_impl::lemma_king_after(b, p, m);
    if uncovered_by_en_passant(a, other) {
        reveal(BoardState::spec_apply);
        assert(m.is_double_push());
        assert(!m.is_castle());
        lemma_after_move(b, p, m);
        let step = forward(p);
        assert(is_step(fi, step, 2, ti));
        let middle = (rank_of(fi) + rank_of(ti)) / 2 * 8 + file_of(fi);
        assert(middle == fi + step.delta());
        crate::bits::lemma_single_index(middle);
        assert(a.en_passant_square == single(middle));
        assert(passed_pawn(a, other) == ti);
        let (s, d) = choose|s: int, d: Dir|
            d.dx() != 0 && d.dy() != 0 && #[trigger] shields(a, other, ti, s, d);
        let t = choose|t: PieceType| slides(t, d) && #[trigger] bit(a.spec_get(p, t), s);
        lemma_apply_bits(b, p, m, p, t, s);
        assert(bit(b.spec_get(p, t), s));
        lemma_holds(b, p, ti);
        lemma_holds(b, other, ti);
        lemma_occupancy_bit(b, p, ti);
        assert forall|x: int| #[trigger] bit(occ, x) implies !lies_between(s, d, x, k) by {
            if lies_between(s, d, x, k) {
                lemma_push_off_line(fi, ti, s, d, k, x);
                assert(bit(a.spec_all_occupancy(), x));
            }
        }
        lemma_sees_between(s, occ, d, k);
        lemma_slider_attack(t, p, occ, s, k);
        assert(attacks_as(b, t, p, occ, s, k));
        assert(attacks_from(b, p, occ, s, k));
    }
}

/// The square that a pawn leaves by its double step is not on a diagonal
/// through the square that it reaches.
proof fn lemma_push_off_line(fi: int, ti: int, s: int, d: Dir, k: int, x: int)
    requires
        0 <= fi < 64,
        file_of(fi) == file_of(ti),
        fi != ti,
        d.dx() != 0 && d.dy() != 0,
        lies_between(s, d, ti, k),
        lies_between(s, d, x, k),
    ensures
        x != fi,
{
}

/// A fitting move that leaves the mover's king unattacked leads from a
/// legal board to a legal board.
pub proof fn lemma_legal_stays(b: BoardState, p: Player, m: Move)
    requires
        b.legal(p),
        b.fits(p, m),
        safe_after(b, p, m),
    ensures
        b.spec_apply(p, m).legal(p.spec_other()),
{
    crate::chess_impl::lemma_apply_wf(b, p, m);
    lemma_push_covers(b, p, m);
}

/// Whether every move of `moves` leaves the king of `p` unattacked and
/// castles by the rules.
pub open spec fn every_safe(b: BoardState, p: Player, moves: Seq<Move>) -> bool {
    forall|k: int|
        0 <= k < moves.len() ==> safe_after(b, p, #[trigger] moves[k]) && castles_rightly(
            b,
            p,
            moves[k],
        )
}

/// Where no piece but a king gives check and the kings stand apart, the
/// king is not attacked.
pub proof fn lemma_unchecked(b: BoardState, p: Player)
    requires
        b.wf(p),
        kings_apart(b),
        spec_checkers(b, p) == 0,
    ensures
        !king_attacked(b, p),
{
    let other = p.spec_other();
    let occ = b.spec_all_occupancy();
    let k = sq(b.spec_get(p, PieceType::KING));
    if king_attacked(b, p) {
        let s = choose|s: int| #[trigger] attacks_from(b, other, occ, s, k);
        if attacks_as(b, PieceType::KING, other, occ, s, k) {
            lemma_king_apart(b, p, s);
        } else {
            lemma_holds(b, other, s);
            lemma_checkers_bit(b, p, s);
            lemma_bit_zero(s);
        }
    }
}

/// On a legal board the kings stand apart and no en-passant capture
/// uncovers the king, so that moves that are safe but for these are safe.
pub proof fn lemma_all_safe_on_legal(b: BoardState, p: Player, moves: Seq<Move>)
    requires
        b.legal(p),
        kings_apart(b) ==> all_safe(b, p, moves),
    ensures
        every_safe(b, p, moves),
        kings_apart(b),
{
    lemma_legal_kings_apart(b, p);
    if spec_checkers(b, p) == 0 {
        lemma_unchecked(b, p);
    }
}

/// A slider is a candidate for being uncovered by the square `e` exactly
/// when `e` alone shields the king from it on a diagonal.
proof fn lemma_shield_candidate(b: BoardState, p: Player, e: int, s: int)
    requires
        0 <= e < 64,
        0 <= s < 64,
    ensures
        (bit(
            spec_bishop_attacks(
                sq(b.spec_get(p, PieceType::KING)),
                b.spec_all_occupancy() & !single(e),
            ) & (b.spec_get(p.spec_other(), PieceType::BISHOP) | b.spec_get(
                p.spec_other(),
                PieceType::QUEEN,
            )),
            s,
        ) && bit(spec_between(sq(b.spec_get(p, PieceType::KING)), s), e)) <==> exists|d: Dir|
            d.dx() != 0 && d.dy() != 0 && #[trigger] shields(b, p, e, s, d),
{
    let other = p.spec_other();
    let k = sq(b.spec_get(p, PieceType::KING));
    let occ = b.spec_all_occupancy();
    let without = occ & !single(e);
    let sliders = b.spec_get(other, PieceType::BISHOP) | b.spec_get(other, PieceType::QUEEN);
    let seen = spec_bishop_attacks(k, without);
    lemma_bit_and(seen, sliders, s);
    lemma_bit_or(b.spec_get(other, PieceType::BISHOP), b.spec_get(other, PieceType::QUEEN), s);
    lemma_bishop_attacks_bit(k, without, s);
    lemma_between_bit(k, s, e);
    assert forall|x: int| #[trigger] bit(without, x) == (bit(occ, x) && x != e) by {
        lemma_bit_and(occ, !single(e), x);
        lemma_bit_not(single(e), x);
        lemma_bit_single(e, x);
    }
    if bit(seen & sliders, s) && bit(spec_between(k, s), e) {
        let back = if sees(k, without, Dir::NorthWest, s) {
            Dir::NorthWest
        } else if sees(k, without, Dir::NorthEast, s) {
            Dir::NorthEast
        } else if sees(k, without, Dir::SouthWest, s) {
            Dir::SouthWest
        } else {
            Dir::SouthEast
        };
        let d = back.spec_flip();
        assert(sees(k, without, back, s));
        lemma_sees_between(k, without, back, s);
        lemma_between_line(k, s, e, back);
        lemma_between_reversed(k, back, e, s);
        let t = if bit(b.spec_get(other, PieceType::BISHOP), s) {
            PieceType::BISHOP
        } else {
            PieceType::QUEEN
        };
        assert(slides(t, d) && bit(b.spec_get(other, t), s));
        assert forall|x: int| #[trigger] bit(occ, x) && lies_between(s, d, x, k) implies x == e by {
            lemma_between_reversed(k, back, x, s);
            if x != e {
                assert(bit(without, x));
            }
        }
        assert(shields(b, p, e, s, d));
    }
    if exists|d: Dir| d.dx() != 0 && d.dy() != 0 && #[trigger] shields(b, p, e, s, d) {
        let d = choose|d: Dir| d.dx() != 0 && d.dy() != 0 && #[trigger] shields(b, p, e, s, d);
        let back = d.spec_flip();
        let t = choose|t: PieceType| slides(t, d) && #[trigger] bit(b.spec_get(other, t), s);
        assert(t == PieceType::BISHOP || t == PieceType::QUEEN);
        lemma_between_reversed(s, d, e, k);
        assert forall|x: int| #[trigger] bit(without, x) implies !lies_between(k, back, x, s) by {
            lemma_between_reversed(s, d, x, k);
        }
        lemma_sees_between(k, without, back, s);
        assert(sees(k, without, back, s));
        assert(bishop_sees(k, without, s));
        assert(between(k, s, e));
    }
}

impl<'a> Chess<'a> {
    /// The opponent's pieces, the king apart, that attack the king of
    /// `player`.
    pub fn checkers_of(&self, player: Player) -> (r: u64)
        requires
            self.tables.wf(),
            self.board.one_king(player),
        ensures
            r == spec_checkers(self.board, player),
    {
        let king_index = index(self.board.get(player, PieceType::KING));
        let enemy = player.other();
        let occ = self.board.all_occupancy();

        let straight = self.tables.get_rook_moves(king_index, occ) & (self.board.get(
            enemy,
            PieceType::QUEEN,
        ) | self.board.get(enemy, PieceType::ROOK));
        let diagonal = self.tables.get_bishop_moves(king_index, occ) & (self.board.get(
            enemy,
            PieceType::QUEEN,
        ) | self.board.get(enemy, PieceType::BISHOP));
        let jumps = self.tables.get_knight_moves(king_index) & self.board.get(
            enemy,
            PieceType::KNIGHT,
        );
        let pawns = self.tables.get_pawn_captures(
            player,
            king_index,
            self.board.get(enemy, PieceType::PAWN),
        );
        straight | diagonal | jumps | pawns
    }

    /// Whether the king of `player` stands attacked.
    pub fn king_in_check(&self, player: Player) -> (r: bool)
        requires
            self.tables.wf(),
            self.board.one_king(Player::PLAYER1),
            self.board.one_king(Player::PLAYER2),
        ensures
            r == king_attacked(self.board, player),
    {
        let enemy = player.other();
        let king_index = index(self.board.get(player, PieceType::KING));
        let enemy_king = self.board.get(enemy, PieceType::KING);
        let checkers = self.checkers_of(player);
        let beside = self.tables.get_king_moves(king_index) & enemy_king;
        proof {
            let b = self.board;
            let occ = b.spec_all_occupancy();
            let k = king_index as int;
            if checkers != 0 {
                crate::bits::lemma_has_member(checkers);
                let s = choose|s: int| 0 <= s < 64 && bit(checkers, s);
                lemma_checkers_bit(b, player, s);
                let t = choose|t: PieceType|
                    t != PieceType::KING && #[trigger] attacks_as(b, t, enemy, occ, s, k);
                assert(attacks_from(b, enemy, occ, s, k));
            }
            if beside != 0 {
                lemma_common(spec_king_attacks(k), enemy_king);
                let s = choose|s: int| 0 <= s < 64 && bit(spec_king_attacks(k), s) && bit(enemy_king, s);
                lemma_king_attacks_bit(k, s);
                assert(attacks_as(b, PieceType::KING, enemy, occ, s, k));
                assert(attacks_from(b, enemy, occ, s, k));
            }
            if king_attacked(b, player) {
                let s = choose|s: int| #[trigger] attacks_from(b, enemy, occ, s, k);
                if attacks_as(b, PieceType::KING, enemy, occ, s, k) {
                    lemma_king_attacks_bit(k, s);
                    if beside == 0 {
                        lemma_no_common(spec_king_attacks(k), enemy_king);
                    }
                } else {
                    lemma_holds(b, enemy, s);
                    lemma_checkers_bit(b, player, s);
                    lemma_bit_zero(s);
                }
            }
        }
        checkers != 0 || beside != 0
    }

    /// Whether the pawn that can be taken en passant alone shields the king
    /// of the player to move on a diagonal.
    pub fn en_passant_uncovers(&self) -> (r: bool)
        requires
            self.tables.wf(),
            self.board.wf(self.current_player),
        ensures
            r == uncovered_by_en_passant(self.board, self.current_player),
    {
        if self.board.en_passant_square == 0 {
            return false;
        }
        let player = self.current_player;
        let mover = player.other();
        let target = index(self.board.en_passant_square);
        let e = match mover {
            Player::PLAYER1 => target + 8,
            Player::PLAYER2 => target - 8,
        };
        let k = index(self.board.get(player, PieceType::KING));
        let pawn = index_to_place(e);
        let without = self.board.all_occupancy() & !pawn;
        let sliders = self.board.get(mover, PieceType::BISHOP) | self.board.get(
            mover,
            PieceType::QUEEN,
        );
        let candidates = self.tables.get_bishop_moves(k, without) & sliders;
        let ghost b = self.board;
        let mut it = iter_index(candidates);
        loop
            invariant
                self.tables.wf(),
                b == self.board,
                player == self.current_player,
                b.en_passant_square != 0,
                e == passed_pawn(b, player),
                e < 64,
                k < 64,
                k == sq(b.spec_get(player, PieceType::KING)),
                pawn == single(e as int),
                candidates == spec_bishop_attacks(k as int, b.spec_all_occupancy() & !single(e as int))
                    & (b.spec_get(player.spec_other(), PieceType::BISHOP) | b.spec_get(
                    player.spec_other(),
                    PieceType::QUEEN,
                )),
                forall|s: int| #[trigger] bit(it.remaining(), s) ==> bit(candidates, s),
                forall|s: int|
                    0 <= s < 64 && bit(candidates, s) && !bit(it.remaining(), s) ==> !#[trigger] bit(
                        spec_between(k as int, s),
                        e as int,
                    ),
            ensures
                it.remaining() == 0,
            decreases it.remaining(),
        {
            let ghost rem = it.remaining();
            match it.next() {
                None => {
                    break ;
                },
                Some(s) => {
                    proof {
                        lemma_rest(rem);
                        crate::bits::lemma_test_single(spec_between(k as int, s as int), e as int);
                    }
                    if self.tables.get_ray(k, s) & pawn != 0 {
                        proof {
                            lemma_shield_candidate(b, player, e as int, s as int);
                        }
                        return true;
                    }
                },
            }
        }
        proof {
            if uncovered_by_en_passant(b, player) {
                let (s, d) = choose|s: int, d: Dir|
                    d.dx() != 0 && d.dy() != 0 && #[trigger] shields(b, player, e as int, s, d);
                assert(0 <= s < 64);
                lemma_shield_candidate(b, player, e as int, s);
                lemma_bit_zero(s);
            }
        }
        false
    }

    /// Whether the position is one that a game can come to.
    pub fn is_legal(&self) -> (r: bool)
        requires
            self.tables.wf(),
        ensures
            r == self.board.legal(self.current_player),
    {
        if !self.board.is_wf(self.current_player) {
            return false;
        }
        if self.king_in_check(self.current_player.other()) {
            return false;
        }
        !self.en_passant_uncovers()
    }
}

} // verus!
