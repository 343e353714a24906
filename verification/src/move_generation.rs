//! Attack tables: what a piece on a square attacks, given the occupied
//! squares. Sliding pieces are looked up through multiply-and-shift indexed
//! tables; knights and kings through per-square masks; pawns are computed.
use vstd::prelude::*;
use vstd::std_specs::bits::*;
use crate::bit_help::{
    Dir, ray, _ray, ray_until_blocker, index_to_place, index_to_coord, coord_to_index, iter_index,
    on_ray, is_step, sees, distance, steps_to_edge, spec_ray, file_of, rank_of, abs_diff,
    lemma_ray_bit, lemma_ray_until_blocker_bit, lemma_ray_order,
};
use crate::bits::{
    bit, single, mask_of, group_bits, lemma_bit_and, lemma_bit_or, lemma_bit_not, lemma_bit_zero,
    lemma_bit_single, lemma_bits_equal, lemma_mask_of_bit, lemma_mask_of_unique,
    lemma_single_index, lemma_lowest,
};
use crate::chess_impl::{BoardState, PieceType};
use crate::two_player_game::Player;

verus! {

/// Per square, the multiplier that spreads the relevant rook blockers over the
/// top bits of the product without mixing up two blocker sets that differ in
/// what the rook sees.
pub const ROOK_MAGICS: [u64; 64] = [
    0xa8002c000108020_u64, 0x6c00049b0002001_u64, 0x100200010090040_u64, 0x2480041000800801_u64, 0x280028004000800_u64,
    0x900410008040022_u64, 0x280020001001080_u64, 0x2880002041000080_u64, 0xa000800080400034_u64, 0x4808020004000_u64,
    0x2290802004801000_u64, 0x411000d00100020_u64, 0x402800800040080_u64, 0xb000401004208_u64, 0x2409000100040200_u64,
    0x1002100004082_u64, 0x22878001e24000_u64, 0x1090810021004010_u64, 0x801030040200012_u64, 0x500808008001000_u64,
    0xa08018014000880_u64, 0x8000808004000200_u64, 0x201008080010200_u64, 0x801020000441091_u64, 0x800080204005_u64,
    0x1040200040100048_u64, 0x120200402082_u64, 0xd14880480100080_u64, 0x12040280080080_u64, 0x100040080020080_u64,
    0x9020010080800200_u64, 0x813241200148449_u64, 0x491604001800080_u64, 0x100401000402001_u64, 0x4820010021001040_u64,
    0x400402202000812_u64, 0x209009005000802_u64, 0x810800601800400_u64, 0x4301083214000150_u64, 0x204026458e001401_u64,
    0x40204000808000_u64, 0x8001008040010020_u64, 0x8410820820420010_u64, 0x1003001000090020_u64, 0x804040008008080_u64,
    0x12000810020004_u64, 0x1000100200040208_u64, 0x430000a044020001_u64, 0x280009023410300_u64, 0xe0100040002240_u64,
    0x200100401700_u64, 0x2244100408008080_u64, 0x8000400801980_u64, 0x2000810040200_u64, 0x8010100228810400_u64,
    0x2000009044210200_u64, 0x4080008040102101_u64, 0x40002080411d01_u64, 0x2005524060000901_u64, 0x502001008400422_u64,
    0x489a000810200402_u64, 0x1004400080a13_u64, 0x4000011008020084_u64, 0x26002114058042_u64
];

/// Per square, the multiplier for the relevant bishop blockers.
pub const BISHOP_MAGICS: [u64; 64] = [
    0x89a1121896040240_u64, 0x2004844802002010_u64, 0x2068080051921000_u64, 0x62880a0220200808_u64, 0x4042004000000_u64,
    0x100822020200011_u64, 0xc00444222012000a_u64, 0x28808801216001_u64, 0x400492088408100_u64, 0x201c401040c0084_u64,
    0x840800910a0010_u64, 0x82080240060_u64, 0x2000840504006000_u64, 0x30010c4108405004_u64, 0x1008005410080802_u64,
    0x8144042209100900_u64, 0x208081020014400_u64, 0x4800201208ca00_u64, 0xf18140408012008_u64, 0x1004002802102001_u64,
    0x841000820080811_u64, 0x40200200a42008_u64, 0x800054042000_u64, 0x88010400410c9000_u64, 0x520040470104290_u64,
    0x1004040051500081_u64, 0x2002081833080021_u64, 0x400c00c010142_u64, 0x941408200c002000_u64, 0x658810000806011_u64,
    0x188071040440a00_u64, 0x4800404002011c00_u64, 0x104442040404200_u64, 0x511080202091021_u64, 0x4022401120400_u64,
    0x80c0040400080120_u64, 0x8040010040820802_u64, 0x480810700020090_u64, 0x102008e00040242_u64, 0x809005202050100_u64,
    0x8002024220104080_u64, 0x431008804142000_u64, 0x19001802081400_u64, 0x200014208040080_u64, 0x3308082008200100_u64,
    0x41010500040c020_u64, 0x4012020c04210308_u64, 0x208220a202004080_u64, 0x111040120082000_u64, 0x6803040141280a00_u64,
    0x2101004202410000_u64, 0x8200000041108022_u64, 0x21082088000_u64, 0x2410204010040_u64, 0x40100400809000_u64,
    0x822088220820214_u64, 0x40808090012004_u64, 0x910224040218c9_u64, 0x402814422015008_u64, 0x90014004842410_u64,
    0x1000042304105_u64, 0x10008830412a00_u64, 0x2520081090008908_u64, 0x40102000a0a60140_u64,
];

/// Per square, the number of top bits of the product that index the rook table.
pub const ROOK_INDEX_BITS: [u32; 64] = [
    12, 11, 11, 11, 11, 11, 11, 12,
    11, 10, 10, 10, 10, 10, 10, 11,
    11, 10, 10, 10, 10, 10, 10, 11,
    11, 10, 10, 10, 10, 10, 10, 11,
    11, 10, 10, 10, 10, 10, 10, 11,
    11, 10, 10, 10, 10, 10, 10, 11,
    11, 10, 10, 10, 10, 10, 10, 11,
    12, 11, 11, 11, 11, 11, 11, 12
];

/// Per square, the number of top bits of the product that index the bishop
/// table.
pub const BISHOP_INDEX_BITS: [u32; 64] = [
    6, 5, 5, 5, 5, 5, 5, 6,
    5, 5, 5, 5, 5, 5, 5, 5,
    5, 5, 7, 7, 7, 7, 5, 5,
    5, 5, 7, 9, 9, 7, 5, 5,
    5, 5, 7, 9, 9, 7, 5, 5,
    5, 5, 7, 7, 7, 7, 5, 5,
    5, 5, 5, 5, 5, 5, 5, 5,
    6, 5, 5, 5, 5, 5, 5, 6
];

/// Whether a rook on `i` sees `j` past the blockers `b`.
pub open spec fn rook_sees(i: int, b: u64, j: int) -> bool {
    sees(i, b, Dir::North, j) || sees(i, b, Dir::South, j) || sees(i, b, Dir::East, j) || sees(
        i,
        b,
        Dir::West,
        j,
    )
}

/// Whether a bishop on `i` sees `j` past the blockers `b`.
pub open spec fn bishop_sees(i: int, b: u64, j: int) -> bool {
    sees(i, b, Dir::NorthWest, j) || sees(i, b, Dir::NorthEast, j) || sees(i, b, Dir::SouthWest, j)
        || sees(i, b, Dir::SouthEast, j)
}

/// The squares a rook on `i` attacks when `b` are the occupied squares: each
/// orthogonal ray up to and including its first occupied square.
pub open spec fn spec_rook_attacks(i: int, b: u64) -> u64 {
    mask_of(|j: int| rook_sees(i, b, j))
}

/// The squares a bishop on `i` attacks when `b` are the occupied squares.
pub open spec fn spec_bishop_attacks(i: int, b: u64) -> u64 {
    mask_of(|j: int| bishop_sees(i, b, j))
}

/// Whether an occupant of `j` can change what a rook on `i` sees: `j` is on
/// an orthogonal ray from `i` and not the last square of it.
pub open spec fn rook_relevant(i: int, j: int) -> bool {
    (on_ray(i, Dir::North, j) && steps_to_edge(j, Dir::North) >= 1)
    || (on_ray(i, Dir::East, j) && steps_to_edge(j, Dir::East) >= 1)
    || (on_ray(i, Dir::West, j) && steps_to_edge(j, Dir::West) >= 1)
    || (on_ray(i, Dir::South, j) && steps_to_edge(j, Dir::South) >= 1)
}

/// Whether an occupant of `j` can change what a bishop on `i` sees.
pub open spec fn bishop_relevant(i: int, j: int) -> bool {
    (on_ray(i, Dir::NorthEast, j) && steps_to_edge(j, Dir::NorthEast) >= 1)
    || (on_ray(i, Dir::NorthWest, j) && steps_to_edge(j, Dir::NorthWest) >= 1)
    || (on_ray(i, Dir::SouthEast, j) && steps_to_edge(j, Dir::SouthEast) >= 1)
    || (on_ray(i, Dir::SouthWest, j) && steps_to_edge(j, Dir::SouthWest) >= 1)
}

pub open spec fn spec_rook_mask(i: int) -> u64 {
    mask_of(|j: int| rook_relevant(i, j))
}

pub open spec fn spec_bishop_mask(i: int) -> u64 {
    mask_of(|j: int| bishop_relevant(i, j))
}

/// Whether `j` is a knight's jump from `i`.
pub open spec fn knight_jump(i: int, j: int) -> bool {
    &&& 0 <= i < 64
    &&& 0 <= j < 64
    &&& {
        let dx = abs_diff(file_of(i), file_of(j));
        let dy = abs_diff(rank_of(i), rank_of(j));
        (dx == 1 && dy == 2) || (dx == 2 && dy == 1)
    }
}

pub open spec fn spec_knight_attacks(i: int) -> u64 {
    mask_of(|j: int| knight_jump(i, j))
}

/// Whether `j` is next to `i`.
pub open spec fn king_step(i: int, j: int) -> bool {
    0 <= i < 64 && 0 <= j < 64 && distance(i, j) == 1
}

pub open spec fn spec_king_attacks(i: int) -> u64 {
    mask_of(|j: int| king_step(i, j))
}

/// The direction in which `player`'s pawns advance.
pub open spec fn forward(player: Player) -> Dir {
    player.spec_dir(Dir::North)
}

/// The rank coordinate on which `player`'s pawns start.
pub open spec fn pawn_start_rank(player: Player) -> int {
    match player {
        Player::PLAYER1 => 1,
        Player::PLAYER2 => 6,
    }
}

/// Whether a pawn of `player` on `i` can advance to `j`: one step onto a
/// free square, or two steps from its starting rank over free squares.
pub open spec fn pawn_push(player: Player, i: int, blockers: u64, j: int) -> bool {
    (is_step(i, forward(player), 1, j) && !bit(blockers, j))
    || (rank_of(i) == pawn_start_rank(player) && is_step(i, forward(player), 2, j) && !bit(blockers, j) && !bit(blockers, i + forward(player).delta()))
}

pub open spec fn spec_pawn_moves(player: Player, i: int, blockers: u64) -> u64 {
    mask_of(|j: int| pawn_push(player, i, blockers, j))
}

/// Whether a pawn of `player` on `i` attacks `j`: one step diagonally
/// forward.
pub open spec fn pawn_attack(player: Player, i: int, j: int) -> bool {
    is_step(i, player.spec_dir(Dir::NorthEast), 1, j) || is_step(
        i,
        player.spec_dir(Dir::NorthWest),
        1,
        j,
    )
}

pub open spec fn spec_pawn_captures(player: Player, i: int, enemy_blockers: u64) -> u64 {
    mask_of(|j: int| pawn_attack(player, i, j) && bit(enemy_blockers, j))
}

/// The squares to which a piece of `player` of kind `piece_type` on `i` can
/// go by its ordinary move or capture when `blockers` are the occupied
/// squares; castling and en-passant captures are not among them.
pub open spec fn spec_moves(i: int, player: Player, piece_type: PieceType, blockers: u64) -> u64 {
    match piece_type {
        PieceType::PAWN => spec_pawn_moves(player, i, blockers) | spec_pawn_captures(
            player,
            i,
            blockers,
        ),
        PieceType::KNIGHT => spec_knight_attacks(i),
        PieceType::BISHOP => spec_bishop_attacks(i, blockers),
        PieceType::ROOK => spec_rook_attacks(i, blockers),
        PieceType::QUEEN => spec_rook_attacks(i, blockers) | spec_bishop_attacks(i, blockers),
        PieceType::KING => spec_king_attacks(i),
    }
}

/// Whether `m` lies strictly between `from` and `to` on a shared rank, file
/// or diagonal.
pub open spec fn between(from: int, to: int, m: int) -> bool {
    (on_ray(from, Dir::North, m) && on_ray(to, Dir::South, m))
    || (on_ray(from, Dir::South, m) && on_ray(to, Dir::North, m))
    || (on_ray(from, Dir::East, m) && on_ray(to, Dir::West, m))
    || (on_ray(from, Dir::West, m) && on_ray(to, Dir::East, m))
    || (on_ray(from, Dir::NorthEast, m) && on_ray(to, Dir::SouthWest, m))
    || (on_ray(from, Dir::NorthWest, m) && on_ray(to, Dir::SouthEast, m))
    || (on_ray(from, Dir::SouthEast, m) && on_ray(to, Dir::NorthWest, m))
    || (on_ray(from, Dir::SouthWest, m) && on_ray(to, Dir::NorthEast, m))
}

pub open spec fn spec_between(from: int, to: int) -> u64 {
    mask_of(|m: int| between(from, to, m))
}

pub broadcast proof fn lemma_rook_attacks_bit(i: int, b: u64, j: int)
    ensures
        #[trigger] bit(spec_rook_attacks(i, b), j) == rook_sees(i, b, j),
{
    lemma_mask_of_bit(|j: int| rook_sees(i, b, j), j);
}

pub broadcast proof fn lemma_bishop_attacks_bit(i: int, b: u64, j: int)
    ensures
        #[trigger] bit(spec_bishop_attacks(i, b), j) == bishop_sees(i, b, j),
{
    lemma_mask_of_bit(|j: int| bishop_sees(i, b, j), j);
}

pub broadcast proof fn lemma_knight_attacks_bit(i: int, j: int)
    ensures
        #[trigger] bit(spec_knight_attacks(i), j) == knight_jump(i, j),
{
    lemma_mask_of_bit(|j: int| knight_jump(i, j), j);
}

pub broadcast proof fn lemma_king_attacks_bit(i: int, j: int)
    ensures
        #[trigger] bit(spec_king_attacks(i), j) == king_step(i, j),
{
    lemma_mask_of_bit(|j: int| king_step(i, j), j);
}

pub broadcast proof fn lemma_pawn_moves_bit(player: Player, i: int, blockers: u64, j: int)
    ensures
        #[trigger] bit(spec_pawn_moves(player, i, blockers), j) == pawn_push(player, i, blockers, j),
{
    lemma_mask_of_bit(|j: int| pawn_push(player, i, blockers, j), j);
}

pub broadcast proof fn lemma_pawn_captures_bit(player: Player, i: int, enemy: u64, j: int)
    ensures
        #[trigger] bit(spec_pawn_captures(player, i, enemy), j) == (pawn_attack(player, i, j) && bit(
            enemy,
            j,
        )),
{
    lemma_mask_of_bit(|j: int| pawn_attack(player, i, j) && bit(enemy, j), j);
}

pub broadcast proof fn lemma_between_bit(from: int, to: int, m: int)
    ensures
        #[trigger] bit(spec_between(from, to), m) == between(from, to, m),
{
    lemma_mask_of_bit(|m: int| between(from, to, m), m);
}

pub broadcast group group_attacks {
    lemma_rook_attacks_bit,
    lemma_bishop_attacks_bit,
    lemma_knight_attacks_bit,
    lemma_king_attacks_bit,
    lemma_pawn_moves_bit,
    lemma_pawn_captures_bit,
    lemma_between_bit,
}

/// One and two steps along a file, in squares.
pub proof fn lemma_vertical_steps(i: int, dir: Dir, j: int)
    requires
        dir == Dir::North || dir == Dir::South,
        0 <= i < 64,
        0 <= j < 64,
    ensures
        is_step(i, dir, 1, j) == (j == i + dir.delta()),
        is_step(i, dir, 2, j) == (j == i + 2 * dir.delta()),
        dir.spec_mv(single(i)) is Some <==> 0 <= i + dir.delta() < 64,
        dir.spec_mv(single(i)) is Some ==> dir.spec_mv(single(i)) == Some(single(i + dir.delta())),
{
    lemma_single_index(i);
}

/// Whether a piece of kind `t` of `attacker` on `s` attacks `j` when `occ`
/// are the occupied squares. A pawn attacks diagonally forward only.
pub open spec fn kind_attacks(t: PieceType, attacker: Player, occ: u64, s: int, j: int) -> bool {
    match t {
        PieceType::PAWN => pawn_attack(attacker, s, j),
        PieceType::KNIGHT => knight_jump(s, j),
        PieceType::BISHOP => bishop_sees(s, occ, j),
        PieceType::ROOK => rook_sees(s, occ, j),
        PieceType::QUEEN => rook_sees(s, occ, j) || bishop_sees(s, occ, j),
        PieceType::KING => king_step(s, j),
    }
}

/// Whether `attacker` has a piece of kind `t` on `s` that attacks `j`.
pub open spec fn attacks_as(
    board: BoardState,
    t: PieceType,
    attacker: Player,
    occ: u64,
    s: int,
    j: int,
) -> bool {
    bit(board.spec_get(attacker, t), s) && kind_attacks(t, attacker, occ, s, j)
}

/// Whether `attacker` has a piece on `s` that attacks `j` when `occ` are the
/// occupied squares.
pub open spec fn attacks_from(board: BoardState, attacker: Player, occ: u64, s: int, j: int) -> bool {
    attacks_as(board, PieceType::PAWN, attacker, occ, s, j) || attacks_as(
        board,
        PieceType::KNIGHT,
        attacker,
        occ,
        s,
        j,
    ) || attacks_as(board, PieceType::BISHOP, attacker, occ, s, j) || attacks_as(
        board,
        PieceType::ROOK,
        attacker,
        occ,
        s,
        j,
    ) || attacks_as(board, PieceType::QUEEN, attacker, occ, s, j) || attacks_as(
        board,
        PieceType::KING,
        attacker,
        occ,
        s,
        j,
    )
}

/// Whether some piece of `attacker` attacks `j` when `occ` are the occupied
/// squares.
pub open spec fn attacked(board: BoardState, attacker: Player, occ: u64, j: int) -> bool {
    exists|s: int| #[trigger] attacks_from(board, attacker, occ, s, j)
}

/// The squares on which `player`'s king would stand attacked: what the
/// opponent's pieces attack when the king itself blocks nothing.
pub open spec fn spec_king_danger_squares(board: BoardState, player: Player) -> u64 {
    mask_of(
        |j: int|
            attacked(
                board,
                player.spec_other(),
                board.spec_all_occupancy() & !board.spec_get(player, PieceType::KING),
                j,
            ),
    )
}

pub broadcast proof fn lemma_king_danger_bit(board: BoardState, player: Player, j: int)
    ensures
        #[trigger] bit(spec_king_danger_squares(board, player), j) == (0 <= j < 64 && attacked(
            board,
            player.spec_other(),
            board.spec_all_occupancy() & !board.spec_get(player, PieceType::KING),
            j,
        )),
{
    lemma_mask_of_bit(
        |j: int|
            attacked(
                board,
                player.spec_other(),
                board.spec_all_occupancy() & !board.spec_get(player, PieceType::KING),
                j,
            ),
        j,
    );
}

/// The attacks gathered so far while the opponent's pieces are walked kind
/// by kind: those of the kinds before position `k`, and those of kind `k`
/// from squares no longer in `remaining`.
pub open spec fn gathered_as(
    board: BoardState,
    t: PieceType,
    attacker: Player,
    occ: u64,
    k: int,
    remaining: u64,
    s: int,
    j: int,
) -> bool {
    attacks_as(board, t, attacker, occ, s, j) && (t.spec_ordinal() < k || (t.spec_ordinal() == k
        && !bit(remaining, s)))
}

pub open spec fn gathered(
    board: BoardState,
    attacker: Player,
    occ: u64,
    k: int,
    remaining: u64,
    s: int,
    j: int,
) -> bool {
    gathered_as(board, PieceType::PAWN, attacker, occ, k, remaining, s, j) || gathered_as(
        board,
        PieceType::KNIGHT,
        attacker,
        occ,
        k,
        remaining,
        s,
        j,
    ) || gathered_as(board, PieceType::BISHOP, attacker, occ, k, remaining, s, j) || gathered_as(
        board,
        PieceType::ROOK,
        attacker,
        occ,
        k,
        remaining,
        s,
        j,
    ) || gathered_as(board, PieceType::QUEEN, attacker, occ, k, remaining, s, j) || gathered_as(
        board,
        PieceType::KING,
        attacker,
        occ,
        k,
        remaining,
        s,
        j,
    )
}

/// The direction at position `d` of tables indexed by direction.
pub open spec fn dir_at(d: int) -> Dir {
    if d == 0 {
        Dir::North
    } else if d == 1 {
        Dir::South
    } else if d == 2 {
        Dir::East
    } else if d == 3 {
        Dir::West
    } else if d == 4 {
        Dir::NorthEast
    } else if d == 5 {
        Dir::NorthWest
    } else if d == 6 {
        Dir::SouthEast
    } else {
        Dir::SouthWest
    }
}

/// Index into the rook table of square `i` for the occupied squares `b`.
pub open spec fn rook_key(i: int, b: u64) -> int {
    ((b & spec_rook_mask(i)).wrapping_mul(ROOK_MAGICS[i]) >> ((64 - ROOK_INDEX_BITS[i]) as u32)) as int
}

/// Index into the bishop table of square `i` for the occupied squares `b`.
pub open spec fn bishop_key(i: int, b: u64) -> int {
    ((b & spec_bishop_mask(i)).wrapping_mul(BISHOP_MAGICS[i]) >> ((64 - BISHOP_INDEX_BITS[i]) as u32)) as int
}

proof fn bv_subsets(n: u64, mask: u64, s: u64)
    by (bit_vector)
    ensures
        0u64 & !mask == 0,
        (s & mask) & !mask == 0,
        (s & mask) & mask == s & mask,
        s & !mask == 0 ==> s <= mask && s & mask == s,
        n & !mask == 0 && n != mask ==> (n | !mask) < 0xffff_ffff_ffff_ffffu64,
        n & !mask == 0 && n != mask ==> (((n | !mask) + 1) as u64 & mask) & !mask == 0,
        n & !mask == 0 && n != mask ==> (((n | !mask) + 1) as u64 & mask) > n,
        n & !mask == 0 && n != mask && s & !mask == 0 && s < (((n | !mask) + 1) as u64 & mask) ==> s
            <= n,
{
}

proof fn bv_key_bound(x: u64, sh: u32)
    by (bit_vector)
    requires
        52 <= sh < 64,
    ensures
        (x >> sh) < 4096,
        sh >= 55 ==> (x >> sh) < 512,
{
}

/// Blockers outside `mask` do not change what a slider sees in direction
/// `d`, when `mask` holds every square of the ray but its last.
proof fn lemma_sees_masked(i: int, b: u64, mask: u64, d: Dir, j: int)
    requires
        forall|m: int| on_ray(i, d, m) && steps_to_edge(m, d) >= 1 ==> #[trigger] bit(mask, m),
    ensures
        sees(i, b & mask, d, j) == sees(i, b, d, j),
{
    if on_ray(i, d, j) {
        if sees(i, b, d, j) {
            assert forall|m: int| #[trigger] bit(b & mask, m) && on_ray(i, d, m) implies distance(
                i,
                m,
            ) >= distance(i, j) by {
                lemma_bit_and(b, mask, m);
            }
        }
        if sees(i, b & mask, d, j) {
            assert forall|m: int| #[trigger] bit(b, m) && on_ray(i, d, m) implies distance(i, m)
                >= distance(i, j) by {
                if distance(i, m) < distance(i, j) {
                    lemma_ray_order(i, d, m, j);
                    lemma_ray_order(m, d, j, j);
                    assert(bit(mask, m));
                    lemma_bit_and(b, mask, m);
                    assert(bit(b & mask, m));
                }
            }
        }
    }
}

/// What a rook sees depends only on the occupants of its relevant squares.
pub proof fn lemma_rook_mask_enough(i: int, b: u64)
    ensures
        spec_rook_attacks(i, b & spec_rook_mask(i)) == spec_rook_attacks(i, b),
{
    let mask = spec_rook_mask(i);
    assert forall|m: int| rook_relevant(i, m) implies #[trigger] bit(mask, m) by {
        lemma_mask_of_bit(|j: int| rook_relevant(i, j), m);
    }
    assert forall|j: int| 0 <= j < 64 implies #[trigger] bit(spec_rook_attacks(i, b & mask), j)
        == bit(spec_rook_attacks(i, b), j) by {
        lemma_rook_attacks_bit(i, b & mask, j);
        lemma_rook_attacks_bit(i, b, j);
        lemma_sees_masked(i, b, mask, Dir::North, j);
        lemma_sees_masked(i, b, mask, Dir::South, j);
        lemma_sees_masked(i, b, mask, Dir::East, j);
        lemma_sees_masked(i, b, mask, Dir::West, j);
    }
    lemma_bits_equal(spec_rook_attacks(i, b & mask), spec_rook_attacks(i, b));
}

/// What a bishop sees depends only on the occupants of its relevant squares.
pub proof fn lemma_bishop_mask_enough(i: int, b: u64)
    ensures
        spec_bishop_attacks(i, b & spec_bishop_mask(i)) == spec_bishop_attacks(i, b),
{
    let mask = spec_bishop_mask(i);
    assert forall|m: int| bishop_relevant(i, m) implies #[trigger] bit(mask, m) by {
        lemma_mask_of_bit(|j: int| bishop_relevant(i, j), m);
    }
    assert forall|j: int| 0 <= j < 64 implies #[trigger] bit(spec_bishop_attacks(i, b & mask), j)
        == bit(spec_bishop_attacks(i, b), j) by {
        lemma_bishop_attacks_bit(i, b & mask, j);
        lemma_bishop_attacks_bit(i, b, j);
        lemma_sees_masked(i, b, mask, Dir::NorthWest, j);
        lemma_sees_masked(i, b, mask, Dir::NorthEast, j);
        lemma_sees_masked(i, b, mask, Dir::SouthWest, j);
        lemma_sees_masked(i, b, mask, Dir::SouthEast, j);
    }
    lemma_bits_equal(spec_bishop_attacks(i, b & mask), spec_bishop_attacks(i, b));
}

proof fn lemma_index_bits(i: int)
    requires
        0 <= i < 64,
    ensures
        10 <= ROOK_INDEX_BITS[i] <= 12,
        5 <= BISHOP_INDEX_BITS[i] <= 9,
{
}

/// The subset of `mask` that the bits of `index` from bit `k` on select,
/// lowest member of `mask` first.
pub open spec fn spec_blockers_from_index(index: i32, mask: u64, k: int) -> u64
    decreases mask,
    via blockers_from_index_decreases
{
    if mask == 0 {
        0
    } else {
        (if 0 <= k < 31 && (index & (1i32 << (k as u32))) != 0 {
            single(u64_trailing_zeros(mask) as int)
        } else {
            0
        }) | spec_blockers_from_index(index, mask & ((mask - 1) as u64), k + 1)
    }
}

#[via_fn]
proof fn blockers_from_index_decreases(index: i32, mask: u64, k: int) {
    if mask != 0 {
        lemma_lowest(mask);
    }
}

proof fn bv_or_assoc(a: u64, b: u64, c: u64)
    by (bit_vector)
    ensures
        a | (b | c) == (a | b) | c,
        a | 0 == a,
        a | (0 | c) == a | c,
        0u64 | c == c,
{
}

proof fn bv_index_count(bits: u32)
    by (bit_vector)
    requires
        bits <= 12,
    ensures
        (1u32 << bits) <= 4096,
        (1u32 << bits) >= 1,
{
}

/// Position of a knight's or king's coordinate change in the order in which
/// the tables are filled.
pub open spec fn offset_index(d: int) -> int {
    if d == -2 {
        0
    } else if d == -1 {
        1
    } else if d == 1 {
        2
    } else if d == 2 {
        3
    } else {
        4
    }
}

/// Position, in table order, of the direction of the king step from `i` to
/// `j`.
pub open spec fn step_dir_index(i: int, j: int) -> int {
    if is_step(i, Dir::North, 1, j) {
        0
    } else if is_step(i, Dir::South, 1, j) {
        1
    } else if is_step(i, Dir::East, 1, j) {
        2
    } else if is_step(i, Dir::West, 1, j) {
        3
    } else if is_step(i, Dir::NorthEast, 1, j) {
        4
    } else if is_step(i, Dir::NorthWest, 1, j) {
        5
    } else if is_step(i, Dir::SouthEast, 1, j) {
        6
    } else {
        7
    }
}

fn abs_i32(x: i32) -> (r: i32)
    requires
        x > i32::MIN,
    ensures
        r == if x < 0 {
            -x
        } else {
            x as int
        },
{
    if x < 0 {
        -x
    } else {
        x
    }
}

/// The attack tables. Built once, never changed afterwards.
pub struct MoveTables {
    // The squares whose occupants matter to a slider on each square.
    bishop_masks: [u64; 64],
    rook_masks: [u64; 64],
    // Per square, from table index to the squares attacked.
    bishop_table: Vec<[u64; 1024]>,
    rook_table: Vec<[u64; 4096]>,
    knight_masks: [u64; 64],
    king_masks: [u64; 64],
    rays: [[u64; 64]; 8],
    // Whether every entry that a lookup can reach was found equal to ray
    // casting when the tables were built. Lookups cast rays where it is not.
    magic: bool,
}

impl MoveTables {
    /// Whether every rook lookup agrees with ray casting.
    pub closed spec fn rook_hits(&self) -> bool {
        forall|i: int, b: u64|
            0 <= i < 64 ==> self.rook_table[i][#[trigger] rook_key(i, b)] == spec_rook_attacks(i, b)
    }

    /// Whether every bishop lookup agrees with ray casting.
    pub closed spec fn bishop_hits(&self) -> bool {
        forall|i: int, b: u64|
            0 <= i < 64 ==> self.bishop_table[i][#[trigger] bishop_key(i, b)] == spec_bishop_attacks(
                i,
                b,
            )
    }

    pub closed spec fn masks_wf(&self) -> bool {
        &&& forall|i: int| 0 <= i < 64 ==> #[trigger] self.rook_masks[i] == spec_rook_mask(i)
        &&& forall|i: int| 0 <= i < 64 ==> #[trigger] self.bishop_masks[i] == spec_bishop_mask(i)
    }

    /// The tables hold what their names say, for every square.
    pub closed spec fn wf(&self) -> bool {
        &&& self.rook_table.len() == 64
        &&& self.bishop_table.len() == 64
        &&& self.masks_wf()
        &&& forall|i: int| 0 <= i < 64 ==> #[trigger] self.knight_masks[i] == spec_knight_attacks(i)
        &&& forall|i: int| 0 <= i < 64 ==> #[trigger] self.king_masks[i] == spec_king_attacks(i)
        &&& forall|d: int, i: int|
            0 <= d < 8 && 0 <= i < 64 ==> #[trigger] self.rays[d][i] == spec_ray(i, dir_at(d), 0)
        &&& self.magic ==> self.rook_hits() && self.bishop_hits()
    }

    /// Whether sliding attacks are answered from the tables. Where the
    /// multipliers are sound this is so; otherwise they are answered by ray
    /// casting, with the same results.
    pub closed spec fn spec_uses_tables(&self) -> bool {
        self.magic
    }

    pub fn uses_tables(&self) -> (r: bool)
        ensures
            r == self.spec_uses_tables(),
    {
        self.magic
    }

    /// What the rook table holds for square `i` under the index that the
    /// occupied squares `b` give.
    pub closed spec fn spec_rook_lookup(&self, i: int, b: u64) -> u64 {
        self.rook_table[i][rook_key(i, b)]
    }

    /// What the bishop table holds for square `i` under the index that the
    /// occupied squares `b` give.
    pub closed spec fn spec_bishop_lookup(&self, i: int, b: u64) -> u64 {
        self.bishop_table[i][bishop_key(i, b)]
    }

    /// Attack-table correctness: where sliding attacks are answered from
    /// the tables, the entry that the multiply-and-shift index finds is what
    /// ray casting gives, for every square and every set of occupied
    /// squares.
    pub proof fn lemma_lookup_is_ray_casting(&self, i: int, b: u64)
        requires
            self.wf(),
            self.spec_uses_tables(),
            0 <= i < 64,
        ensures
            self.spec_rook_lookup(i, b) == spec_rook_attacks(i, b),
            self.spec_bishop_lookup(i, b) == spec_bishop_attacks(i, b),
    {
        assert(self.rook_table[i][rook_key(i, b)] == spec_rook_attacks(i, b));
        assert(self.bishop_table[i][bishop_key(i, b)] == spec_bishop_attacks(i, b));
    }

    /// The squares a bishop on `index` attacks when `blockers` are occupied.
    pub fn get_bishop_moves(&self, index: usize, blockers: u64) -> (r: u64)
        requires
            self.wf(),
            index < 64,
        ensures
            r == spec_bishop_attacks(index as int, blockers),
            self.spec_uses_tables() ==> r == self.spec_bishop_lookup(index as int, blockers),
    {
        if self.magic {
            proof {
                lemma_index_bits(index as int);
                bv_key_bound(
                    (blockers & self.bishop_masks[index as int]).wrapping_mul(
                        BISHOP_MAGICS[index as int],
                    ),
                    (64 - BISHOP_INDEX_BITS[index as int]) as u32,
                );
                assert(self.bishop_masks[index as int] == spec_bishop_mask(index as int));
                assert(self.bishop_table[index as int][bishop_key(index as int, blockers)]
                    == spec_bishop_attacks(index as int, blockers));
            }
            let key = ((blockers & self.bishop_masks[index]).wrapping_mul(BISHOP_MAGICS[index])) >> (64
                - BISHOP_INDEX_BITS[index]);
            self.bishop_table[index][key as usize]
        } else {
            Self::_bishop_moves_slow(index, blockers)
        }
    }

    /// The squares a rook on `index` attacks when `blockers` are occupied.
    pub fn get_rook_moves(&self, index: usize, blockers: u64) -> (r: u64)
        requires
            self.wf(),
            index < 64,
        ensures
            r == spec_rook_attacks(index as int, blockers),
            self.spec_uses_tables() ==> r == self.spec_rook_lookup(index as int, blockers),
    {
        if self.magic {
            proof {
                lemma_index_bits(index as int);
                bv_key_bound(
                    (blockers & self.rook_masks[index as int]).wrapping_mul(ROOK_MAGICS[index as int]),
                    (64 - ROOK_INDEX_BITS[index as int]) as u32,
                );
                assert(self.rook_masks[index as int] == spec_rook_mask(index as int));
                assert(self.rook_table[index as int][rook_key(index as int, blockers)]
                    == spec_rook_attacks(index as int, blockers));
            }
            let key = ((blockers & self.rook_masks[index]).wrapping_mul(ROOK_MAGICS[index])) >> (64
                - ROOK_INDEX_BITS[index]);
            self.rook_table[index][key as usize]
        } else {
            Self::_rook_moves_slow(index, blockers)
        }
    }

    /// The squares a knight on `index` attacks.
    pub fn get_knight_moves(&self, index: usize) -> (r: u64)
        requires
            self.wf(),
            index < 64,
        ensures
            r == spec_knight_attacks(index as int),
    {
        self.knight_masks[index]
    }

    /// The squares a king on `index` attacks.
    pub fn get_king_moves(&self, index: usize) -> (r: u64)
        requires
            self.wf(),
            index < 64,
        ensures
            r == spec_king_attacks(index as int),
    {
        self.king_masks[index]
    }

    /// Where a piece on `index` can go by its ordinary move or capture.
    pub fn get_moves(&self, index: usize, player: Player, piece_type: PieceType, blockers: u64) -> (r:
        u64)
        requires
            self.wf(),
            index < 64,
        ensures
            r == spec_moves(index as int, player, piece_type, blockers),
    {
        // Does not include castle or en passant capture
        match piece_type {
            PieceType::PAWN => self.get_pawn_moves(player, index, blockers) | self.get_pawn_captures(
                player,
                index,
                blockers,
            ),
            PieceType::KNIGHT => self.get_knight_moves(index),
            PieceType::BISHOP => self.get_bishop_moves(index, blockers),
            PieceType::ROOK => self.get_rook_moves(index, blockers),
            PieceType::QUEEN => self.get_rook_moves(index, blockers) | self.get_bishop_moves(
                index,
                blockers,
            ),
            PieceType::KING => self.get_king_moves(index),
        }
    }

    /// The squares on which `player`'s king would stand attacked.
    pub fn get_king_danger_squares(&self, board: &BoardState, player: Player) -> (r: u64)
        requires
            self.wf(),
        ensures
            r == spec_king_danger_squares(*board, player),
    {
        let mut king_danger = 0_u64;
        let other = player.other();

        let occ_no_king = board.all_occupancy() & !board.get(player, PieceType::KING);
        let kinds = PieceType::all();
        let mut k: usize = 0;
        proof {
            assert forall|j: int| 0 <= j < 64 implies #[trigger] bit(king_danger, j) == (exists|
                s: int,
            | #[trigger] gathered(*board, other, occ_no_king, 0, !0u64, s, j)) by {
                lemma_bit_zero(j);
                assert forall|s: int| !#[trigger] gathered(
                    *board,
                    other,
                    occ_no_king,
                    0,
                    !0u64,
                    s,
                    j,
                ) by {
                    lemma_bit_not(0, s);
                    lemma_bit_zero(s);
                }
            }
        }
        while k < 6
            invariant
                k <= 6,
                self.wf(),
                other == player.spec_other(),
                occ_no_king == board.spec_all_occupancy() & !board.spec_get(player, PieceType::KING),
                forall|q: int| 0 <= q < 6 ==> (#[trigger] kinds@[q]).spec_ordinal() == q,
                forall|j: int|
                    0 <= j < 64 ==> #[trigger] bit(king_danger, j) == (exists|s: int| #[trigger]
                        gathered(*board, other, occ_no_king, k as int, !0u64, s, j)),
            decreases 6 - k,
        {
            let piece_type = kinds[k];
            let pieces = board.get(other, piece_type);
            let mut it = iter_index(pieces);
            proof {
                assert forall|j: int| 0 <= j < 64 implies #[trigger] bit(king_danger, j) == (exists|
                    s: int,
                | #[trigger] gathered(*board, other, occ_no_king, k as int, pieces, s, j)) by {
                    if bit(king_danger, j) {
                        let s = choose|s: int| #[trigger]
                            gathered(*board, other, occ_no_king, k as int, !0u64, s, j);
                        lemma_bit_not(0, s);
                        lemma_bit_zero(s);
                        assert(gathered(*board, other, occ_no_king, k as int, pieces, s, j));
                    }
                    if exists|s: int| #[trigger]
                        gathered(*board, other, occ_no_king, k as int, pieces, s, j) {
                        let s = choose|s: int| #[trigger]
                            gathered(*board, other, occ_no_king, k as int, pieces, s, j);
                        lemma_bit_not(0, s);
                        lemma_bit_zero(s);
                        assert(gathered(*board, other, occ_no_king, k as int, !0u64, s, j));
                    }
                }
            }
            loop
                invariant
                    k < 6,
                    self.wf(),
                    piece_type.spec_ordinal() == k,
                    pieces == board.spec_get(other, piece_type),
                    forall|j: int| #[trigger] bit(it.remaining(), j) ==> bit(pieces, j),
                    forall|j: int|
                        0 <= j < 64 ==> #[trigger] bit(king_danger, j) == (exists|s: int| #[trigger]
                            gathered(*board, other, occ_no_king, k as int, it.remaining(), s, j)),
                ensures
                    it.remaining() == 0,
                decreases it.remaining(),
            {
                let ghost rem = it.remaining();
                let ghost before = king_danger;
                match it.next() {
                    None => {
                        break ;
                    },
                    Some(index) => {
                        let att = if piece_type == PieceType::PAWN {
                            self.get_pawn_captures(other, index, !0)
                        } else {
                            self.get_moves(index, other, piece_type, occ_no_king)
                        };
                        king_danger |= att;
                        proof {
                            broadcast use group_attacks;

                            let i = index as int;
                            assert forall|j: int| 0 <= j < 64 implies #[trigger] bit(att, j)
                                == kind_attacks(piece_type, other, occ_no_king, i, j) by {
                                lemma_bit_not(0, j);
                                lemma_bit_zero(j);
                                lemma_bit_or(
                                    spec_rook_attacks(i, occ_no_king),
                                    spec_bishop_attacks(i, occ_no_king),
                                    j,
                                );
                            }
                            assert forall|j: int| #[trigger] bit(it.remaining(), j) implies bit(
                                pieces,
                                j,
                            ) by {
                                lemma_bit_and(rem, !single(i), j);
                            }
                            assert forall|j: int| 0 <= j < 64 implies #[trigger] bit(king_danger, j)
                                == (exists|s: int| #[trigger]
                                gathered(*board, other, occ_no_king, k as int, it.remaining(), s, j)) by {
                                lemma_bit_or(before, att, j);
                                if bit(before, j) {
                                    let s = choose|s: int| #[trigger]
                                        gathered(*board, other, occ_no_king, k as int, rem, s, j);
                                    lemma_bit_and(rem, !single(i), s);
                                    assert(gathered(
                                        *board,
                                        other,
                                        occ_no_king,
                                        k as int,
                                        it.remaining(),
                                        s,
                                        j,
                                    ));
                                }
                                if bit(att, j) {
                                    lemma_bit_and(rem, !single(i), i);
                                    lemma_bit_not(single(i), i);
                                    lemma_bit_single(i, i);
                                    assert(gathered(
                                        *board,
                                        other,
                                        occ_no_king,
                                        k as int,
                                        it.remaining(),
                                        i,
                                        j,
                                    ));
                                }
                                if exists|s: int| #[trigger]
                                    gathered(*board, other, occ_no_king, k as int, it.remaining(), s, j) {
                                    let s = choose|s: int| #[trigger]
                                        gathered(
                                            *board,
                                            other,
                                            occ_no_king,
                                            k as int,
                                            it.remaining(),
                                            s,
                                            j,
                                        );
                                    lemma_bit_and(rem, !single(i), s);
                                    lemma_bit_not(single(i), s);
                                    lemma_bit_single(i, s);
                                    if s != i {
                                        assert(gathered(
                                            *board,
                                            other,
                                            occ_no_king,
                                            k as int,
                                            rem,
                                            s,
                                            j,
                                        ));
                                        assert(bit(before, j));
                                    } else if attacks_as(*board, piece_type, other, occ_no_king, i, j) {
                                        assert(bit(att, j));
                                    } else {
                                        assert(gathered(
                                            *board,
                                            other,
                                            occ_no_king,
                                            k as int,
                                            rem,
                                            s,
                                            j,
                                        ));
                                        assert(bit(before, j));
                                    }
                                }
                            }
                        }
                    },
                }
            }
            proof {
                assert forall|j: int| 0 <= j < 64 implies #[trigger] bit(king_danger, j) == (exists|
                    s: int,
                | #[trigger] gathered(*board, other, occ_no_king, k + 1, !0u64, s, j)) by {
                    if bit(king_danger, j) {
                        let s = choose|s: int| #[trigger]
                            gathered(*board, other, occ_no_king, k as int, 0, s, j);
                        lemma_bit_zero(s);
                        lemma_bit_not(0, s);
                        assert(gathered(*board, other, occ_no_king, k + 1, !0u64, s, j));
                    }
                    if exists|s: int| #[trigger]
                        gathered(*board, other, occ_no_king, k + 1, !0u64, s, j) {
                        let s = choose|s: int| #[trigger]
                            gathered(*board, other, occ_no_king, k + 1, !0u64, s, j);
                        lemma_bit_zero(s);
                        lemma_bit_not(0, s);
                        assert(gathered(*board, other, occ_no_king, k as int, 0, s, j));
                    }
                }
            }
            k += 1;
        }
        proof {
            let f = |j: int| attacked(*board, other, occ_no_king, j);
            assert forall|j: int| 0 <= j < 64 implies #[trigger] bit(king_danger, j) == f(j) by {
                if bit(king_danger, j) {
                    let s = choose|s: int| #[trigger]
                        gathered(*board, other, occ_no_king, 6, !0u64, s, j);
                    assert(attacks_from(*board, other, occ_no_king, s, j));
                }
                if f(j) {
                    let s = choose|s: int| #[trigger]
                        attacks_from(*board, other, occ_no_king, s, j);
                    assert(gathered(*board, other, occ_no_king, 6, !0u64, s, j));
                }
            }
            lemma_mask_of_unique(king_danger, f);
        }
        king_danger
    }

    /// The squares strictly between `from` and `to`, where the two share a
    /// rank, file or diagonal; none otherwise.
    pub fn get_ray(&self, from: usize, to: usize) -> (r: u64)
        requires
            self.wf(),
            from < 64,
            to < 64,
        ensures
            r == spec_between(from as int, to as int),
    {
        // Not including from and to.
        let mut res: u64 = 0;
        let dirs = Dir::all();
        let mut k: usize = 0;
        proof {
            assert forall|m: int| 0 <= m < 64 implies !#[trigger] bit(res, m) by {
                lemma_bit_zero(m);
            }
        }
        while k < 8
            invariant
                k <= 8,
                self.wf(),
                from < 64,
                to < 64,
                dirs@ == seq![
                    Dir::North,
                    Dir::South,
                    Dir::East,
                    Dir::West,
                    Dir::NorthEast,
                    Dir::NorthWest,
                    Dir::SouthEast,
                    Dir::SouthWest,
                ],
                forall|m: int|
                    0 <= m < 64 ==> #[trigger] bit(res, m) == (exists|d: int|
                        0 <= d < k && on_ray(from as int, #[trigger] dir_at(d), m) && on_ray(
                            to as int,
                            dir_at(d).spec_flip(),
                            m,
                        )),
            decreases 8 - k,
        {
            let dir = dirs[k];
            let ghost before = res;
            assert(dir == dir_at(k as int));
            let a = self.rays[dir.ordinal()][from];
            let b = self.rays[dir.flip().ordinal()][to];
            assert(a == spec_ray(from as int, dir, 0));
            assert(b == spec_ray(to as int, dir.spec_flip(), 0)) by {
                assert(dir_at(dir.spec_flip().spec_ordinal()) == dir.spec_flip());
            }
            res |= a & b;
            proof {
                assert forall|m: int| 0 <= m < 64 implies #[trigger] bit(res, m) == (exists|d: int|
                    0 <= d < k + 1 && on_ray(from as int, #[trigger] dir_at(d), m) && on_ray(
                        to as int,
                        dir_at(d).spec_flip(),
                        m,
                    )) by {
                    lemma_bit_or(before, a & b, m);
                    lemma_bit_and(a, b, m);
                    lemma_ray_bit(from as int, dir, 0, m);
                    lemma_ray_bit(to as int, dir.spec_flip(), 0, m);
                    if bit(a & b, m) {
                        assert(on_ray(from as int, dir_at(k as int), m));
                    }
                }
            }
            k += 1;
        }
        proof {
            let f = |m: int| between(from as int, to as int, m);
            assert forall|m: int| 0 <= m < 64 implies #[trigger] bit(res, m) == f(m) by {
                if f(m) {
                    assert(dir_at(0) == Dir::North && dir_at(1) == Dir::South && dir_at(2)
                        == Dir::East && dir_at(3) == Dir::West && dir_at(4) == Dir::NorthEast
                        && dir_at(5) == Dir::NorthWest && dir_at(6) == Dir::SouthEast && dir_at(7)
                        == Dir::SouthWest);
                }
            }
            lemma_mask_of_unique(res, f);
        }
        res
    }

    /// Builds the tables. Sliding attacks are answered from the tables
    /// exactly when every entry that a lookup can reach was found to be what
    /// ray casting gives.
    pub fn new() -> (m: MoveTables)
        ensures
            m.wf(),
            m.spec_uses_tables() == (m.rook_hits() && m.bishop_hits()),
    {
        Self::_init()
    }

    fn _init() -> (m: MoveTables)
        ensures
            m.wf(),
            m.spec_uses_tables() == (m.rook_hits() && m.bishop_hits()),
    {
        let bishop_masks = Self::_init_bishop_masks();
        let rook_masks = Self::_init_rook_masks();
        let bishop_table = Self::_init_bishop_tables(&bishop_masks);
        let rook_table = Self::_init_rook_tables(&rook_masks);

        let knight_masks = Self::_init_knight_masks();
        let king_masks = Self::_init_king_masks();

        let rays = Self::_init_rays();
        let mut m = MoveTables {
            bishop_masks,
            rook_masks,
            bishop_table,
            rook_table,
            knight_masks,
            king_masks,
            rays,
            magic: false,
        };
        let sound = m._check_bishop_tables() && m._check_rook_tables();
        m.magic = sound;
        m
    }

    /// The blocker set number `index` among the subsets of `mask`: bit `k`
    /// of `index` says whether the `k`-th lowest member of `mask` is in it.
    fn _create_blockers_from_index(index: i32, mask: u64) -> (r: u64)
        ensures
            r == spec_blockers_from_index(index, mask, 0),
    {
        let mut mask = mask;
        let mut blockers: u64 = 0;
        let mut i: u32 = 0;
        let ghost start = mask;
        proof {
            bv_or_assoc(0, 0, spec_blockers_from_index(index, mask, 0));
        }
        while mask != 0
            invariant
                i <= 64,
                spec_blockers_from_index(index, start, 0) == blockers | spec_blockers_from_index(
                    index,
                    mask,
                    i as int,
                ),
                forall|j: int| 0 <= j < i ==> !#[trigger] bit(mask, j),
            decreases mask,
        {
            let ghost t = u64_trailing_zeros(mask) as int;
            let ghost rest = spec_blockers_from_index(index, mask & ((mask - 1) as u64), i + 1);
            let ghost before = mask;
            proof {
                lemma_lowest(mask);
                bv_or_assoc(blockers, single(t), rest);
                bv_or_assoc(blockers, 0, rest);
            }
            let bit_pos = mask.trailing_zeros();
            mask = mask & (mask - 1);
            if i < 31 && (index & (1i32 << i)) != 0 {
                blockers |= 1_u64 << bit_pos
            }
            i += 1;
            proof {
                assert forall|j: int| 0 <= j < i implies !#[trigger] bit(mask, j) by {
                    lemma_bit_and(before, !single(t), j);
                    lemma_bit_not(single(t), j);
                    lemma_bit_single(t, j);
                }
            }
        }
        proof {
            bv_or_assoc(blockers, 0, 0);
        }
        blockers
    }

    fn _init_bishop_masks() -> (masks: [u64; 64])
        ensures
            forall|i: int| 0 <= i < 64 ==> #[trigger] masks[i] == spec_bishop_mask(i),
    {
        let mut masks = [0u64;64];
        let mut index: usize = 0;
        while index < 64
            invariant
                index <= 64,
                forall|i: int| 0 <= i < index ==> #[trigger] masks[i] == spec_bishop_mask(i),
            decreases 64 - index,
        {
            let mut m: u64 = 0;
            m |= _ray(index, Dir::NorthEast, 1);
            m |= _ray(index, Dir::NorthWest, 1);
            m |= _ray(index, Dir::SouthEast, 1);
            m |= _ray(index, Dir::SouthWest, 1);
            proof {
                broadcast use group_bits, lemma_ray_bit;

                let f = |j: int| bishop_relevant(index as int, j);
                assert forall|j: int| 0 <= j < 64 implies #[trigger] bit(m, j) == f(j) by {}
                lemma_mask_of_unique(m, f);
            }
            masks[index] = m;
            index += 1;
        }
        masks
    }

    fn _init_rook_masks() -> (masks: [u64; 64])
        ensures
            forall|i: int| 0 <= i < 64 ==> #[trigger] masks[i] == spec_rook_mask(i),
    {
        let mut masks = [0u64;64];
        let mut index: usize = 0;
        while index < 64
            invariant
                index <= 64,
                forall|i: int| 0 <= i < index ==> #[trigger] masks[i] == spec_rook_mask(i),
            decreases 64 - index,
        {
            let mut m: u64 = 0;
            m |= _ray(index, Dir::North, 1);
            m |= _ray(index, Dir::East, 1);
            m |= _ray(index, Dir::West, 1);
            m |= _ray(index, Dir::South, 1);
            proof {
                broadcast use group_bits, lemma_ray_bit;

                let f = |j: int| rook_relevant(index as int, j);
                assert forall|j: int| 0 <= j < 64 implies #[trigger] bit(m, j) == f(j) by {}
                lemma_mask_of_unique(m, f);
            }
            masks[index] = m;
            index += 1;
        }
        masks
    }

    fn _init_bishop_tables(masks: &[u64; 64]) -> (table: Vec<[u64; 1024]>)
        requires
            forall|i: int| 0 <= i < 64 ==> #[trigger] masks[i] == spec_bishop_mask(i),
        ensures
            table.len() == 64,
    {
        let mut table: Vec<[u64; 1024]> = Vec::new();
        let mut index: usize = 0;
        while index < 64
            invariant
                index <= 64,
                table.len() == index,
            decreases 64 - index,
        {
            let mut entries = [0u64;1024];
            proof {
                lemma_index_bits(index as int);
                bv_index_count(BISHOP_INDEX_BITS[index as int]);
            }
            let count: u32 = 1u32 << BISHOP_INDEX_BITS[index];
            let mut blocker_index: u32 = 0;
            while blocker_index < count
                invariant
                    index < 64,
                    count <= 4096,
                    blocker_index <= count,
                decreases count - blocker_index,
            {
                let blockers = MoveTables::_create_blockers_from_index(
                    blocker_index as i32,
                    masks[index],
                );
                proof {
                    lemma_index_bits(index as int);
                    bv_key_bound(
                        blockers.wrapping_mul(BISHOP_MAGICS[index as int]),
                        (64 - BISHOP_INDEX_BITS[index as int]) as u32,
                    );
                }
                let key = (blockers.wrapping_mul(BISHOP_MAGICS[index])) >> (64
                    - BISHOP_INDEX_BITS[index]);
                entries[key as usize] = MoveTables::_bishop_moves_slow(index, blockers);
                blocker_index += 1;
            }
            table.push(entries);
            index += 1;
        }
        table
    }

    fn _init_rook_tables(masks: &[u64; 64]) -> (table: Vec<[u64; 4096]>)
        requires
            forall|i: int| 0 <= i < 64 ==> #[trigger] masks[i] == spec_rook_mask(i),
        ensures
            table.len() == 64,
    {
        let mut table: Vec<[u64; 4096]> = Vec::new();
        let mut index: usize = 0;
        while index < 64
            invariant
                index <= 64,
                table.len() == index,
            decreases 64 - index,
        {
            let mut entries = [0u64;4096];
            proof {
                lemma_index_bits(index as int);
                bv_index_count(ROOK_INDEX_BITS[index as int]);
            }
            let count: u32 = 1u32 << ROOK_INDEX_BITS[index];
            let mut blocker_index: u32 = 0;
            while blocker_index < count
                invariant
                    index < 64,
                    count <= 4096,
                    blocker_index <= count,
                decreases count - blocker_index,
            {
                let blockers = MoveTables::_create_blockers_from_index(
                    blocker_index as i32,
                    masks[index],
                );
                proof {
                    lemma_index_bits(index as int);
                    bv_key_bound(
                        blockers.wrapping_mul(ROOK_MAGICS[index as int]),
                        (64 - ROOK_INDEX_BITS[index as int]) as u32,
                    );
                }
                let key = (blockers.wrapping_mul(ROOK_MAGICS[index])) >> (64
                    - ROOK_INDEX_BITS[index]);
                entries[key as usize] = MoveTables::_rook_moves_slow(index, blockers);
                blocker_index += 1;
            }
            table.push(entries);
            index += 1;
        }
        table
    }

    /// Whether the rook table answers every lookup as ray casting does.
    /// Every subset of each square's relevant squares is tried.
    fn _check_rook_tables(&self) -> (ok: bool)
        requires
            self.masks_wf(),
            self.rook_table.len() == 64,
        ensures
            ok == self.rook_hits(),
    {
        let mut index: usize = 0;
        while index < 64
            invariant
                index <= 64,
                self.masks_wf(),
                self.rook_table.len() == 64,
                forall|i: int, b: u64|
                    0 <= i < index ==> self.rook_table[i][#[trigger] rook_key(i, b)]
                        == spec_rook_attacks(i, b),
            decreases 64 - index,
        {
            let mask = self.rook_masks[index];
            let ghost i = index as int;
            let mut n: u64 = 0;
            proof {
                bv_subsets(0, mask, 0);
            }
            loop
                invariant_except_break
                    n & !mask == 0,
                    forall|s: u64|
                        s & !mask == 0 && s < n ==> self.rook_table[i][#[trigger] rook_key(i, s)]
                            == spec_rook_attacks(i, s),
                invariant
                    i == index,
                    index < 64,
                    self.masks_wf(),
                    self.rook_table.len() == 64,
                    mask == spec_rook_mask(i),
                ensures
                    forall|s: u64|
                        s & !mask == 0 ==> self.rook_table[i][#[trigger] rook_key(i, s)]
                            == spec_rook_attacks(i, s),
                decreases u64::MAX - n,
            {
                proof {
                    lemma_index_bits(i);
                    bv_key_bound(
                        (n & mask).wrapping_mul(ROOK_MAGICS[i]),
                        (64 - ROOK_INDEX_BITS[i]) as u32,
                    );
                    bv_subsets(n, mask, n);
                }
                let key = ((n & mask).wrapping_mul(ROOK_MAGICS[index])) >> (64
                    - ROOK_INDEX_BITS[index]);
                assert(key == rook_key(i, n));
                if self.rook_table[index][key as usize] != MoveTables::_rook_moves_slow(index, n) {
                    assert(self.rook_table[i][rook_key(i, n)] != spec_rook_attacks(i, n));
                    return false;
                }
                if n == mask {
                    proof {
                        assert forall|s: u64| s & !mask == 0 implies self.rook_table[i][#[trigger] rook_key(
                            i,
                            s,
                        )] == spec_rook_attacks(i, s) by {
                            bv_subsets(n, mask, s);
                        }
                    }
                    break ;
                }
                let next = ((n | !mask) + 1) & mask;
                proof {
                    assert forall|s: u64| s & !mask == 0 && s < next implies self.rook_table[i][#[trigger] rook_key(
                        i,
                        s,
                    )] == spec_rook_attacks(i, s) by {
                        bv_subsets(n, mask, s);
                    }
                }
                n = next;
            }
            proof {
                assert forall|b: u64|
                    self.rook_table[i][#[trigger] rook_key(i, b)] == spec_rook_attacks(i, b) by {
                    bv_subsets(0, mask, b);
                    let s = b & mask;
                    assert(rook_key(i, s) == rook_key(i, b));
                    lemma_rook_mask_enough(i, b);
                }
            }
            index += 1;
        }
        true
    }

    /// Whether the bishop table answers every lookup as ray casting does.
    fn _check_bishop_tables(&self) -> (ok: bool)
        requires
            self.masks_wf(),
            self.bishop_table.len() == 64,
        ensures
            ok == self.bishop_hits(),
    {
        let mut index: usize = 0;
        while index < 64
            invariant
                index <= 64,
                self.masks_wf(),
                self.bishop_table.len() == 64,
                forall|i: int, b: u64|
                    0 <= i < index ==> self.bishop_table[i][#[trigger] bishop_key(i, b)]
                        == spec_bishop_attacks(i, b),
            decreases 64 - index,
        {
            let mask = self.bishop_masks[index];
            let ghost i = index as int;
            let mut n: u64 = 0;
            proof {
                bv_subsets(0, mask, 0);
            }
            loop
                invariant_except_break
                    n & !mask == 0,
                    forall|s: u64|
                        s & !mask == 0 && s < n ==> self.bishop_table[i][#[trigger] bishop_key(i, s)]
                            == spec_bishop_attacks(i, s),
                invariant
                    i == index,
                    index < 64,
                    self.masks_wf(),
                    self.bishop_table.len() == 64,
                    mask == spec_bishop_mask(i),
                ensures
                    forall|s: u64|
                        s & !mask == 0 ==> self.bishop_table[i][#[trigger] bishop_key(i, s)]
                            == spec_bishop_attacks(i, s),
                decreases u64::MAX - n,
            {
                proof {
                    lemma_index_bits(i);
                    bv_key_bound(
                        (n & mask).wrapping_mul(BISHOP_MAGICS[i]),
                        (64 - BISHOP_INDEX_BITS[i]) as u32,
                    );
                    bv_subsets(n, mask, n);
                }
                let key = ((n & mask).wrapping_mul(BISHOP_MAGICS[index])) >> (64
                    - BISHOP_INDEX_BITS[index]);
                assert(key == bishop_key(i, n));
                if self.bishop_table[index][key as usize] != MoveTables::_bishop_moves_slow(index, n) {
                    assert(self.bishop_table[i][bishop_key(i, n)] != spec_bishop_attacks(i, n));
                    return false;
                }
                if n == mask {
                    proof {
                        assert forall|s: u64| s & !mask == 0 implies self.bishop_table[i][#[trigger] bishop_key(
                            i,
                            s,
                        )] == spec_bishop_attacks(i, s) by {
                            bv_subsets(n, mask, s);
                        }
                    }
                    break ;
                }
                let next = ((n | !mask) + 1) & mask;
                proof {
                    assert forall|s: u64| s & !mask == 0 && s < next implies self.bishop_table[i][#[trigger] bishop_key(
                        i,
                        s,
                    )] == spec_bishop_attacks(i, s) by {
                        bv_subsets(n, mask, s);
                    }
                }
                n = next;
            }
            proof {
                assert forall|b: u64|
                    self.bishop_table[i][#[trigger] bishop_key(i, b)] == spec_bishop_attacks(i, b) by {
                    bv_subsets(0, mask, b);
                    let s = b & mask;
                    assert(bishop_key(i, s) == bishop_key(i, b));
                    lemma_bishop_mask_enough(i, b);
                }
            }
            index += 1;
        }
        true
    }

    fn _init_knight_masks() -> (masks: [u64; 64])
        ensures
            forall|i: int| 0 <= i < 64 ==> #[trigger] masks[i] == spec_knight_attacks(i),
    {
        let mut masks = [0u64;64];
        let offsets: [i32; 4] = [-2, -1, 1, 2];
        let mut i: usize = 0;
        while i < 64
            invariant
                i <= 64,
                offsets@ == seq![-2i32, -1i32, 1i32, 2i32],
                forall|k: int| 0 <= k < i ==> #[trigger] masks[k] == spec_knight_attacks(k),
            decreases 64 - i,
        {
            let (x, y) = index_to_coord(i);
            let mut m: u64 = 0;
            let mut a: usize = 0;
            proof {
                assert forall|j: int| 0 <= j < 64 implies !#[trigger] bit(m, j) by {
                    lemma_bit_zero(j);
                }
            }
            while a < 4
                invariant
                    a <= 4,
                    i < 64,
                    x == file_of(i as int),
                    y == rank_of(i as int),
                    offsets@ == seq![-2i32, -1i32, 1i32, 2i32],
                    forall|j: int|
                        0 <= j < 64 ==> #[trigger] bit(m, j) == (knight_jump(i as int, j)
                            && offset_index(file_of(j) - file_of(i as int)) < a),
                decreases 4 - a,
            {
                let dx = offsets[a];
                let mut b: usize = 0;
                while b < 4
                    invariant
                        b <= 4,
                        a < 4,
                        i < 64,
                        x == file_of(i as int),
                        y == rank_of(i as int),
                        dx == offsets@[a as int],
                        offsets@ == seq![-2i32, -1i32, 1i32, 2i32],
                        forall|j: int|
                            0 <= j < 64 ==> #[trigger] bit(m, j) == (knight_jump(i as int, j) && (
                            offset_index(file_of(j) - file_of(i as int)) < a || (offset_index(
                                file_of(j) - file_of(i as int),
                            ) == a && offset_index(rank_of(j) - rank_of(i as int)) < b))),
                    decreases 4 - b,
                {
                    let dy = offsets[b];
                    if abs_i32(dx) != abs_i32(dy) {
                        let (nx, ny) = (x + dx, y + dy);
                        if 0 <= nx && nx < 8 && 0 <= ny && ny < 8 {
                            let ghost before = m;
                            let target = coord_to_index((nx, ny));
                            m |= index_to_place(target);
                            proof {
                                assert forall|j: int| 0 <= j < 64 implies #[trigger] bit(m, j) == (
                                bit(before, j) || j == target) by {
                                    lemma_bit_or(before, single(target as int), j);
                                    lemma_bit_single(target as int, j);
                                }
                            }
                        }
                    }
                    b += 1;
                }
                a += 1;
            }
            proof {
                let f = |j: int| knight_jump(i as int, j);
                assert forall|j: int| 0 <= j < 64 implies #[trigger] bit(m, j) == f(j) by {}
                lemma_mask_of_unique(m, f);
            }
            masks[i] = m;
            i += 1;
        }
        masks
    }

    fn _init_king_masks() -> (masks: [u64; 64])
        ensures
            forall|i: int| 0 <= i < 64 ==> #[trigger] masks[i] == spec_king_attacks(i),
    {
        let mut masks = [0u64;64];
        let dirs = Dir::all();
        let mut index: usize = 0;
        while index < 64
            invariant
                index <= 64,
                dirs@ == seq![
                    Dir::North,
                    Dir::South,
                    Dir::East,
                    Dir::West,
                    Dir::NorthEast,
                    Dir::NorthWest,
                    Dir::SouthEast,
                    Dir::SouthWest,
                ],
                forall|k: int| 0 <= k < index ==> #[trigger] masks[k] == spec_king_attacks(k),
            decreases 64 - index,
        {
            let mut m: u64 = 0;
            let mut k: usize = 0;
            let ghost i = index as int;
            proof {
                assert forall|j: int| 0 <= j < 64 implies !#[trigger] bit(m, j) by {
                    lemma_bit_zero(j);
                }
                lemma_single_index(i);
            }
            while k < 8
                invariant
                    k <= 8,
                    index < 64,
                    i == index,
                    u64_trailing_zeros(single(i)) == i,
                    dirs@ == seq![
                        Dir::North,
                        Dir::South,
                        Dir::East,
                        Dir::West,
                        Dir::NorthEast,
                        Dir::NorthWest,
                        Dir::SouthEast,
                        Dir::SouthWest,
                    ],
                    forall|j: int|
                        0 <= j < 64 ==> #[trigger] bit(m, j) == (king_step(i, j) && step_dir_index(
                            i,
                            j,
                        ) < k),
                decreases 8 - k,
            {
                let dir = dirs[k];
                if let Some(place) = dir.mv(index_to_place(index)) {
                    let ghost before = m;
                    let ghost target = i + dir.delta();
                    m |= place;
                    proof {
                        assert forall|j: int| 0 <= j < 64 implies #[trigger] bit(m, j) == (bit(
                            before,
                            j,
                        ) || j == target) by {
                            lemma_bit_or(before, single(target), j);
                            lemma_bit_single(target, j);
                        }
                    }
                }
                k += 1;
            }
            proof {
                let f = |j: int| king_step(i, j);
                assert forall|j: int| 0 <= j < 64 implies #[trigger] bit(m, j) == f(j) by {}
                lemma_mask_of_unique(m, f);
            }
            masks[index] = m;
            index += 1;
        }
        masks
    }

    fn _init_rays() -> (rays: [[u64; 64]; 8])
        ensures
            forall|d: int, i: int|
                0 <= d < 8 && 0 <= i < 64 ==> #[trigger] rays[d][i] == spec_ray(i, dir_at(d), 0),
    {
        let mut rays = [[0u64;64];8];
        let dirs = Dir::all();
        let mut k: usize = 0;
        while k < 8
            invariant
                k <= 8,
                dirs@ == seq![
                    Dir::North,
                    Dir::South,
                    Dir::East,
                    Dir::West,
                    Dir::NorthEast,
                    Dir::NorthWest,
                    Dir::SouthEast,
                    Dir::SouthWest,
                ],
                forall|d: int, i: int|
                    0 <= d < k && 0 <= i < 64 ==> #[trigger] rays[d][i] == spec_ray(i, dir_at(d), 0),
            decreases 8 - k,
        {
            let dir = dirs[k];
            assert(dir == dir_at(k as int));
            let mut row = [0u64;64];
            let mut index: usize = 0;
            while index < 64
                invariant
                    index <= 64,
                    forall|i: int| 0 <= i < index ==> #[trigger] row[i] == spec_ray(i, dir, 0),
                decreases 64 - index,
            {
                row[index] = ray(index, dir);
                index += 1;
            }
            rays[dir.ordinal()] = row;
            k += 1;
        }
        rays
    }

    /// The rook's attacks, by ray casting in each orthogonal direction.
    pub fn _rook_moves_slow(index: usize, blockers: u64) -> (r: u64)
        requires
            index < 64,
        ensures
            r == spec_rook_attacks(index as int, blockers),
    {
        let mut res = 0_u64;

        res |= ray_until_blocker(index, blockers, Dir::North);
        res |= ray_until_blocker(index, blockers, Dir::South);
        res |= ray_until_blocker(index, blockers, Dir::East);
        res |= ray_until_blocker(index, blockers, Dir::West);

        proof {
            broadcast use group_bits, lemma_ray_until_blocker_bit;

            let f = |j: int| rook_sees(index as int, blockers, j);
            assert forall|j: int| 0 <= j < 64 implies #[trigger] bit(res, j) == f(j) by {}
            lemma_mask_of_unique(res, f);
        }
        res
    }

    /// The bishop's attacks, by ray casting in each diagonal direction.
    pub fn _bishop_moves_slow(index: usize, blockers: u64) -> (r: u64)
        requires
            index < 64,
        ensures
            r == spec_bishop_attacks(index as int, blockers),
    {
        let mut res = 0_u64;

        res |= ray_until_blocker(index, blockers, Dir::NorthWest);
        res |= ray_until_blocker(index, blockers, Dir::NorthEast);
        res |= ray_until_blocker(index, blockers, Dir::SouthWest);
        res |= ray_until_blocker(index, blockers, Dir::SouthEast);

        proof {
            broadcast use group_bits, lemma_ray_until_blocker_bit;

            let f = |j: int| bishop_sees(index as int, blockers, j);
            assert forall|j: int| 0 <= j < 64 implies #[trigger] bit(res, j) == f(j) by {}
            lemma_mask_of_unique(res, f);
        }
        res
    }

    /// The squares to which a pawn of `player` on `index` can advance.
    pub fn get_pawn_moves(&self, player: Player, index: usize, blockers: u64) -> (r: u64)
        requires
            index < 64,
        ensures
            r == spec_pawn_moves(player, index as int, blockers),
    {
        let mut res = 0_u64;
        let (start_row, row_diff): (usize, i32) = match player {
            Player::PLAYER1 => (1, 2),
            Player::PLAYER2 => (6, -2),
        };
        let dir = player.dir(Dir::North);
        let ghost i = index as int;
        let ghost one = i + dir.delta();
        let ghost two = one + dir.delta();
        proof {
            lemma_single_index(i);
        }

        if let Some(move_one) = dir.mv(index_to_place(index)) {
            res |= move_one & !blockers;
            proof {
                assert forall|j: int| 0 <= j < 64 implies #[trigger] bit(res, j) == (j == one && !bit(
                    blockers,
                    j,
                )) by {
                    lemma_bit_or(0, move_one & !blockers, j);
                    lemma_bit_zero(j);
                    lemma_bit_and(move_one, !blockers, j);
                    lemma_bit_not(blockers, j);
                    lemma_bit_single(one, j);
                }
                if res != 0 {
                    crate::bits::lemma_has_member(res);
                } else {
                    lemma_bit_zero(one);
                }
                assert((res != 0) == !bit(blockers, one));
            }
            if res != 0 && index / 8 == start_row {
                let ghost before = res;
                let jump = index_to_place((index as i32 + row_diff * 8) as usize) & !blockers;
                res |= jump;
                proof {
                    assert forall|j: int| 0 <= j < 64 implies #[trigger] bit(res, j) == ((j == one
                        || j == two) && !bit(blockers, j)) by {
                        lemma_bit_or(before, jump, j);
                        lemma_bit_and(single(two), !blockers, j);
                        lemma_bit_not(blockers, j);
                        lemma_bit_single(two, j);
                    }
                }
            }
        } else {
            proof {
                assert forall|j: int| 0 <= j < 64 implies !#[trigger] bit(res, j) by {
                    lemma_bit_zero(j);
                }
            }
        }
        proof {
            let f = |j: int| pawn_push(player, i, blockers, j);
            assert forall|j: int| 0 <= j < 64 implies #[trigger] bit(res, j) == f(j) by {
                lemma_vertical_steps(i, dir, j);
            }
            lemma_mask_of_unique(res, f);
        }
        res
    }

    /// The squares diagonally ahead of a pawn of `player` on `index` that
    /// are among `enemy_blockers`.
    pub fn get_pawn_captures(&self, player: Player, index: usize, enemy_blockers: u64) -> (r: u64)
        requires
            index < 64,
        ensures
            r == spec_pawn_captures(player, index as int, enemy_blockers),
    {
        let mut res = 0_u64;
        proof {
            lemma_single_index(index as int);
        }
        let east = player.dir(Dir::NorthEast);
        let west = player.dir(Dir::NorthWest);
        if let Some(diag_place) = east.mv(index_to_place(index)) {
            res |= diag_place
        }
        if let Some(diag_place) = west.mv(index_to_place(index)) {
            res |= diag_place
        }
        res &= enemy_blockers;
        proof {
            broadcast use group_bits;

            let f = |j: int| pawn_attack(player, index as int, j) && bit(enemy_blockers, j);
            assert forall|j: int| 0 <= j < 64 implies #[trigger] bit(res, j) == f(j) by {
                assert(is_step(index as int, east, 1, j) <==> (east.spec_mv(single(index as int))
                    is Some && j == index + east.delta()));
                assert(is_step(index as int, west, 1, j) <==> (west.spec_mv(single(index as int))
                    is Some && j == index + west.delta()));
            }
            lemma_mask_of_unique(res, f);
        }
        res
    }
}

} // verus!
