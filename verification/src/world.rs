//! The tile-grid world model: tiles, enemy spawners, the per-spawner
//! cooldown timer, and the level loader that parses a tab-separated text map.
//!
//! Map grammar, one row per line, cells separated by tabs:
//! `.` empty, `#` wall, `M` missile spawner, `L:<decimal>` laser spawner with
//! its angle in radians, `*` player spawn marker (the cell itself is empty).

use crate::collision::Vec2;
use crate::frac::Frac;
use vstd::prelude::*;

verus! {

/// Side length of one grid tile in world units; a wall occupies the closed
/// square of this size centered on its tile's world position.
pub const TILE_SIZE: i64 = 24;

/// Half a tile: the distance from a wall's center to each of its edges.
pub const HALF_TILE: i64 = 12;

/// Bound on the byte length of a map accepted by the loader, so that every
/// derived tile coordinate stays far inside the world band.
pub const MAP_LIMIT: usize = 500_000;

/// Bound on grid dimensions implied by `MAP_LIMIT`.
pub const GRID_LIMIT: usize = 1_000_000;

/// The kind of enemy a spawner produces; a laser carries its firing angle in
/// radians, as an exact fraction.
#[derive(Clone, Copy, PartialEq, Eq, Structural, Debug)]
pub enum SpawnerKind {
    Missile,
    Laser(Frac),
}

/// One grid cell of the loaded world.
#[derive(Clone, Copy, PartialEq, Eq, Structural, Debug)]
pub enum Tile {
    Wall,
    Spawner(SpawnerKind),
}

/// Marker for wall entities.
#[derive(Clone, Copy, PartialEq, Eq, Structural, Debug)]
pub struct Wall;

/// What a map token denotes before it is materialized into a tile: the
/// player-spawn marker and the empty cell both leave the cell empty.
#[derive(Clone, Copy, PartialEq, Eq, Structural, Debug)]
pub enum Cell {
    Empty,
    Wall,
    Missile,
    Laser(Frac),
    Start,
}

/// Which game mode the world belongs to.
#[derive(Clone, Copy, PartialEq, Eq, Structural, Debug)]
pub enum WorldType {
    Level(usize),
    Endless,
}

/// An unknown (or malformed) token in the map text, with its position.
#[derive(Debug)]
pub struct MapParseError {
    pub row: usize,
    pub col: usize,
    pub token: Vec<u8>,
}

/// Split a byte sequence at every occurrence of `sep`.  A sequence with `k`
/// separators yields exactly `k + 1` parts; an empty input yields one empty
/// part.
pub open spec fn spec_split(s: Seq<u8>, sep: u8) -> Seq<Seq<u8>>
    decreases s.len(),
{
    if s.len() == 0 {
        seq![Seq::<u8>::empty()]
    } else if s[0] == sep {
        seq![Seq::<u8>::empty()] + spec_split(s.skip(1), sep)
    } else {
        let rest: Seq<Seq<u8>> = spec_split(s.skip(1), sep);
        seq![seq![s[0]] + rest[0]] + rest.skip(1)
    }
}

/// The views of a vector of byte vectors.
pub open spec fn views_of(s: Seq<Vec<u8>>) -> Seq<Seq<u8>> {
    s.map_values(|v: Vec<u8>| v@)
}

/// A split always produces at least one part.
pub proof fn lemma_split_nonempty(s: Seq<u8>, sep: u8)
    ensures
        spec_split(s, sep).len() >= 1,
    decreases s.len(),
{
    if s.len() > 0 && s[0] != sep {
        lemma_split_nonempty(s.skip(1), sep);
    }
}

/// A split produces at most one part per byte plus one, and no part is
/// longer than the input.
pub proof fn lemma_split_bounds(s: Seq<u8>, sep: u8)
    ensures
        spec_split(s, sep).len() <= s.len() + 1,
        forall|k: int|
            0 <= k < spec_split(s, sep).len() ==> (#[trigger] spec_split(s, sep)[k]).len()
                <= s.len(),
    decreases s.len(),
{
    if s.len() > 0 {
        lemma_split_bounds(s.skip(1), sep);
        lemma_split_nonempty(s.skip(1), sep);
    }
}

/// Splitting a separator-free sequence yields that sequence alone.
pub proof fn lemma_split_no_sep(s: Seq<u8>, sep: u8)
    requires
        forall|k: int| 0 <= k < s.len() ==> s[k] != sep,
    ensures
        spec_split(s, sep) == seq![s],
    decreases s.len(),
{
    if s.len() == 0 {
        assert(spec_split(s, sep) =~~= seq![s]);
    } else {
        lemma_split_no_sep(s.skip(1), sep);
        assert(seq![s[0]] + s.skip(1) =~= s);
        assert(spec_split(s, sep) =~~= seq![s]);
    }
}

/// Splitting `x + [sep] + y` where `x` is separator-free yields `x` followed
/// by the parts of `y`.
pub proof fn lemma_split_head(x: Seq<u8>, y: Seq<u8>, sep: u8)
    requires
        forall|k: int| 0 <= k < x.len() ==> x[k] != sep,
    ensures
        spec_split(x + seq![sep] + y, sep) == seq![x] + spec_split(y, sep),
    decreases x.len(),
{
    let s: Seq<u8> = x + seq![sep] + y;
    if x.len() == 0 {
        assert(s[0] == sep);
        assert(s.skip(1) =~= y);
        assert(spec_split(s, sep) =~~= seq![x] + spec_split(y, sep));
    } else {
        assert(s[0] == x[0]);
        assert(s[0] != sep);
        assert(s.skip(1) =~= x.skip(1) + seq![sep] + y);
        lemma_split_head(x.skip(1), y, sep);
        lemma_split_nonempty(y, sep);
        let rest: Seq<Seq<u8>> = spec_split(s.skip(1), sep);
        assert(rest == seq![x.skip(1)] + spec_split(y, sep));
        assert(rest[0] == x.skip(1));
        assert(seq![s[0]] + rest[0] =~= x);
        assert(rest.skip(1) =~= spec_split(y, sep));
        assert(spec_split(s, sep) =~~= seq![x] + spec_split(y, sep));
    }
}

/// Copy of the bytes of `s` from position `from` on.
pub fn bytes_from(s: &Vec<u8>, from: usize) -> (r: Vec<u8>)
    requires
        from <= s@.len(),
    ensures
        r@ == s@.skip(from as int),
{
    let mut r: Vec<u8> = Vec::new();
    let mut i: usize = from;
    while i < s.len()
        invariant
            from <= i <= s@.len(),
            r@ =~= s@.subrange(from as int, i as int),
        decreases s@.len() - i,
    {
        r.push(s[i]);
        i = i + 1;
    }
    proof {
        assert(s@.subrange(from as int, s@.len() as int) =~= s@.skip(from as int));
    }
    r
}

/// Split `s` at every occurrence of `sep`.
pub fn split_bytes(s: &Vec<u8>, sep: u8) -> (r: Vec<Vec<u8>>)
    ensures
        views_of(r@) == spec_split(s@, sep),
        r@.len() >= 1,
{
    let mut out: Vec<Vec<u8>> = Vec::new();
    let mut cur: Vec<u8> = Vec::new();
    let mut i: usize = 0;
    proof {
        assert(cur@ + s@.skip(0) =~= s@);
        assert(views_of(out@) + spec_split(s@, sep) =~= spec_split(s@, sep));
    }
    while i < s.len()
        invariant
            0 <= i <= s@.len(),
            forall|k: int| 0 <= k < cur@.len() ==> cur@[k] != sep,
            spec_split(s@, sep) == views_of(out@) + spec_split(cur@ + s@.skip(i as int), sep),
        decreases s@.len() - i,
    {
        let c: u8 = s[i];
        if c == sep {
            proof {
                assert(s@.skip(i as int) =~= seq![s@[i as int]] + s@.skip(i as int + 1));
                assert(cur@ + (seq![sep] + s@.skip(i as int + 1)) =~= (cur@ + seq![sep]) + s@.skip(
                    i as int + 1,
                ));
                lemma_split_head(cur@, s@.skip(i as int + 1), sep);
                assert(views_of(out@.push(cur)) =~= views_of(out@).push(cur@));
                assert(views_of(out@) + (seq![cur@] + spec_split(s@.skip(i as int + 1), sep))
                    =~= views_of(out@.push(cur)) + spec_split(s@.skip(i as int + 1), sep));
                assert(Seq::<u8>::empty() + s@.skip(i as int + 1) =~= s@.skip(i as int + 1));
            }
            out.push(cur);
            cur = Vec::new();
        } else {
            proof {
                assert(s@.skip(i as int) =~= seq![s@[i as int]] + s@.skip(i as int + 1));
                assert(cur@ + (seq![s@[i as int]] + s@.skip(i as int + 1)) =~= cur@.push(c)
                    + s@.skip(i as int + 1));
            }
            cur.push(c);
        }
        i = i + 1;
    }
    proof {
        assert(cur@ + s@.skip(i as int) =~= cur@);
        lemma_split_no_sep(cur@, sep);
        assert(views_of(out@.push(cur)) =~= views_of(out@).push(cur@));
        assert(views_of(out@) + seq![cur@] =~= views_of(out@).push(cur@));
    }
    out.push(cur);
    proof {
        lemma_split_nonempty(s@, sep);
    }
    out
}

/// Byte values of the tokens the map grammar knows.
pub const NEWLINE: u8 = 10;

pub const TAB: u8 = 9;

pub const DOT: u8 = 46;

pub const HASH: u8 = 35;

pub const STAR: u8 = 42;

pub const UPPER_L: u8 = 76;

pub const UPPER_M: u8 = 77;

pub const COLON: u8 = 58;

pub const MINUS: u8 = 45;

pub const PLUS: u8 = 43;

pub const DIGIT_0: u8 = 48;

pub const DIGIT_9: u8 = 57;

/// Every byte is an ASCII digit.
pub open spec fn all_digits(s: Seq<u8>) -> bool {
    forall|k: int| 0 <= k < s.len() ==> DIGIT_0 <= #[trigger] s[k] <= DIGIT_9
}

/// The value of a digit string read in base ten.
pub open spec fn digits_val(s: Seq<u8>) -> int
    decreases s.len(),
{
    if s.len() == 0 {
        0
    } else {
        digits_val(s.drop_last()) * 10 + (s.last() - DIGIT_0)
    }
}

/// Ten to the `n`.
pub open spec fn pow10(n: nat) -> int
    decreases n,
{
    if n == 0 {
        1
    } else {
        10 * pow10((n - 1) as nat)
    }
}

pub proof fn lemma_pow10_pos(n: nat)
    ensures
        pow10(n) >= 1,
    decreases n,
{
    if n > 0 {
        lemma_pow10_pos((n - 1) as nat);
    }
}

pub proof fn lemma_pow10_mono(m: nat, n: nat)
    requires
        m <= n,
    ensures
        pow10(m) <= pow10(n),
    decreases n,
{
    lemma_pow10_pos(m);
    if m < n {
        lemma_pow10_mono(m, (n - 1) as nat);
        lemma_pow10_pos((n - 1) as nat);
    }
}

pub proof fn lemma_pow10_values()
    ensures
        pow10(17) == 100_000_000_000_000_000,
        pow10(18) == 1_000_000_000_000_000_000,
{
    reveal_with_fuel(pow10, 19);
}

/// A digit string of length `n` has a value below ten to the `n`.
pub proof fn lemma_digits_val_bound(s: Seq<u8>)
    requires
        all_digits(s),
    ensures
        0 <= digits_val(s) < pow10(s.len()),
    decreases s.len(),
{
    if s.len() > 0 {
        assert(all_digits(s.drop_last()));
        lemma_digits_val_bound(s.drop_last());
    }
}

/// The base-ten value of a digit string, when it is one: at most 18 digits,
/// all of them ASCII digits.
pub fn digits_value(s: &Vec<u8>) -> (r: Option<i64>)
    ensures
        r is Some <==> (all_digits(s@) && s@.len() <= 18),
        r matches Some(v) ==> v == digits_val(s@) && 0 <= v < pow10(s@.len()),
{
    if s.len() > 18 {
        return Option::None;
    }
    let mut acc: i64 = 0;
    let mut i: usize = 0;
    proof {
        assert(s@.take(0) =~= Seq::<u8>::empty());
    }
    while i < s.len()
        invariant
            0 <= i <= s@.len() <= 18,
            forall|k: int| 0 <= k < i ==> DIGIT_0 <= #[trigger] s@[k] <= DIGIT_9,
            acc == digits_val(s@.take(i as int)),
            0 <= acc < pow10(i as nat),
        decreases s@.len() - i,
    {
        let c: u8 = s[i];
        if c < DIGIT_0 || c > DIGIT_9 {
            return Option::None;
        }
        proof {
            lemma_pow10_mono(i as nat, 17);
            lemma_pow10_values();
            assert(s@.take(i as int + 1).drop_last() =~= s@.take(i as int));
            assert(s@.take(i as int + 1).last() == s@[i as int]);
        }
        acc = acc * 10 + ((c - DIGIT_0) as i64);
        i = i + 1;
    }
    proof {
        assert(s@.take(s@.len() as int) =~= s@);
    }
    Option::Some(acc)
}

/// Ten to the `n`, as a machine integer.
pub fn pow10_value(n: usize) -> (r: i64)
    requires
        n <= 18,
    ensures
        r == pow10(n as nat),
        r >= 1,
{
    let mut r: i64 = 1;
    let mut i: usize = 0;
    proof {
        lemma_pow10_pos(0);
    }
    while i < n
        invariant
            0 <= i <= n <= 18,
            r == pow10(i as nat),
            r >= 1,
        decreases n - i,
    {
        proof {
            lemma_pow10_mono(i as nat, 17);
            lemma_pow10_values();
            lemma_pow10_pos(i as nat);
        }
        r = r * 10;
        i = i + 1;
    }
    r
}

/// Negation of an exact fraction.
pub open spec fn spec_negate(f: Frac) -> Frac {
    Frac { num: (-f.num) as i128, den: f.den }
}

/// An unsigned decimal numeral: digits with at most one point, at least one
/// digit in all and at most 18, read as an exact fraction over a power of
/// ten.
pub open spec fn spec_parse_unsigned(s: Seq<u8>) -> Option<Frac> {
    let parts: Seq<Seq<u8>> = spec_split(s, DOT);
    if parts.len() == 1 {
        if all_digits(parts[0]) && 1 <= parts[0].len() <= 18 {
            Option::Some(Frac { num: digits_val(parts[0]) as i128, den: 1 })
        } else {
            Option::None
        }
    } else if parts.len() == 2 {
        if all_digits(parts[0]) && all_digits(parts[1]) && 1 <= parts[0].len() + parts[1].len()
            <= 18 {
            Option::Some(
                Frac {
                    num: (digits_val(parts[0]) * pow10(parts[1].len()) + digits_val(
                        parts[1],
                    )) as i128,
                    den: pow10(parts[1].len()) as i128,
                },
            )
        } else {
            Option::None
        }
    } else {
        Option::None
    }
}

/// A decimal numeral with an optional leading sign.
pub open spec fn spec_parse_decimal(s: Seq<u8>) -> Option<Frac> {
    if s.len() >= 1 && (s[0] == MINUS || s[0] == PLUS) {
        match spec_parse_unsigned(s.skip(1)) {
            Option::Some(f) => Option::Some(
                if s[0] == MINUS {
                    spec_negate(f)
                } else {
                    f
                },
            ),
            Option::None => Option::None,
        }
    } else {
        spec_parse_unsigned(s)
    }
}

/// Parse an unsigned decimal numeral into an exact fraction.
fn parse_unsigned(s: &Vec<u8>) -> (r: Option<Frac>)
    ensures
        r == spec_parse_unsigned(s@),
        r matches Some(f) ==> f.wf() && 0 <= f.num,
{
    let parts: Vec<Vec<u8>> = split_bytes(s, DOT);
    proof {
        assert(views_of(parts@).len() == parts@.len());
        assert(forall|k: int|
            0 <= k < parts@.len() ==> views_of(parts@)[k] == #[trigger] parts@[k]@);
    }
    if parts.len() == 1 {
        let whole: &Vec<u8> = &parts[0];
        if whole.len() == 0 {
            return Option::None;
        }
        match digits_value(whole) {
            Option::Some(v) => Option::Some(Frac { num: v as i128, den: 1 }),
            Option::None => Option::None,
        }
    } else if parts.len() == 2 {
        let ip: &Vec<u8> = &parts[0];
        let fp: &Vec<u8> = &parts[1];
        if ip.len() > 18 || fp.len() > 18 || ip.len() + fp.len() < 1 || ip.len() + fp.len() > 18 {
            return Option::None;
        }
        let a: Option<i64> = digits_value(ip);
        let b: Option<i64> = digits_value(fp);
        match (a, b) {
            (Option::Some(av), Option::Some(bv)) => {
                let den: i64 = pow10_value(fp.len());
                proof {
                    lemma_pow10_values();
                    lemma_pow10_mono(fp@.len() as nat, 18);
                    lemma_pow10_mono(ip@.len() as nat, 18);
                    crate::frac::lemma_mul_bound(
                        av as int,
                        den as int,
                        1_000_000_000_000_000_000,
                        1_000_000_000_000_000_000,
                    );
                }
                let num: i128 = (av as i128) * (den as i128) + (bv as i128);
                Option::Some(Frac { num, den: den as i128 })
            },
            _ => Option::None,
        }
    } else {
        Option::None
    }
}

/// Parse a decimal numeral with an optional leading sign.
pub fn parse_decimal(s: &Vec<u8>) -> (r: Option<Frac>)
    ensures
        r == spec_parse_decimal(s@),
        r matches Some(f) ==> f.wf(),
{
    if s.len() >= 1 {
        let first: u8 = s[0];
        if first == MINUS || first == PLUS {
            let body: Vec<u8> = bytes_from(s, 1);
            let inner: Option<Frac> = parse_unsigned(&body);
            return match inner {
                Option::Some(f) => Option::Some(
                    if first == MINUS {
                        Frac { num: -f.num, den: f.den }
                    } else {
                        f
                    },
                ),
                Option::None => Option::None,
            };
        }
    }
    proof {
        assert(s@.skip(0) =~= s@);
    }
    let body: Vec<u8> = bytes_from(s, 0);
    parse_unsigned(&body)
}

/// What one map token denotes, if anything.
pub open spec fn spec_parse_cell(t: Seq<u8>) -> Option<Cell> {
    if t.len() == 1 && t[0] == DOT {
        Option::Some(Cell::Empty)
    } else if t.len() == 1 && t[0] == HASH {
        Option::Some(Cell::Wall)
    } else if t.len() == 1 && t[0] == UPPER_M {
        Option::Some(Cell::Missile)
    } else if t.len() == 1 && t[0] == STAR {
        Option::Some(Cell::Start)
    } else if t.len() >= 2 && t[0] == UPPER_L && t[1] == COLON {
        match spec_parse_decimal(t.skip(2)) {
            Option::Some(f) => Option::Some(Cell::Laser(f)),
            Option::None => Option::None,
        }
    } else {
        Option::None
    }
}

/// Parse one map token.
pub fn parse_cell(t: &Vec<u8>) -> (r: Option<Cell>)
    ensures
        r == spec_parse_cell(t@),
{
    if t.len() == 1 {
        let c: u8 = t[0];
        if c == DOT {
            Option::Some(Cell::Empty)
        } else if c == HASH {
            Option::Some(Cell::Wall)
        } else if c == UPPER_M {
            Option::Some(Cell::Missile)
        } else if c == STAR {
            Option::Some(Cell::Start)
        } else {
            Option::None
        }
    } else if t.len() >= 2 {
        if t[0] == UPPER_L && t[1] == COLON {
            let rest: Vec<u8> = bytes_from(t, 2);
            match parse_decimal(&rest) {
                Option::Some(f) => Option::Some(Cell::Laser(f)),
                Option::None => Option::None,
            }
        } else {
            Option::None
        }
    } else {
        Option::None
    }
}

/// The rows of the map text: lines split at newlines, with a final empty
/// line (from a trailing newline) dropped.
pub open spec fn spec_rows(bytes: Seq<u8>) -> Seq<Seq<u8>> {
    let rows0: Seq<Seq<u8>> = spec_split(bytes, NEWLINE);
    if rows0.len() > 0 && rows0.last().len() == 0 {
        rows0.drop_last()
    } else {
        rows0
    }
}

/// The cells of one row: the row split at tabs.
pub open spec fn row_cells(row: Seq<u8>) -> Seq<Seq<u8>> {
    spec_split(row, TAB)
}

/// The tile a parsed token materializes into; the empty cell and the
/// player-spawn marker leave the cell empty.
pub open spec fn cell_tile(c: Cell) -> Option<Tile> {
    match c {
        Cell::Empty => Option::None,
        Cell::Wall => Option::Some(Tile::Wall),
        Cell::Missile => Option::Some(Tile::Spawner(SpawnerKind::Missile)),
        Cell::Laser(a) => Option::Some(Tile::Spawner(SpawnerKind::Laser(a))),
        Cell::Start => Option::None,
    }
}

/// The tile a raw token materializes into, if it parses at all.
pub open spec fn tile_of_token(t: Seq<u8>) -> Option<Tile> {
    match spec_parse_cell(t) {
        Option::Some(c) => cell_tile(c),
        Option::None => Option::None,
    }
}

/// Every token of the row is recognized by the grammar.
pub open spec fn row_ok(row: Seq<u8>) -> bool {
    forall|j: int|
        0 <= j < row_cells(row).len() ==> spec_parse_cell(#[trigger] row_cells(row)[j]) is Some
}

/// Every token of the whole map is recognized by the grammar.
pub open spec fn map_ok(bytes: Seq<u8>) -> bool {
    forall|i: int| 0 <= i < spec_rows(bytes).len() ==> row_ok(#[trigger] spec_rows(bytes)[i])
}

/// The tiles of one row, in cell order.
pub open spec fn spec_row_tiles(row: Seq<u8>) -> Seq<Option<Tile>> {
    row_cells(row).map_values(|t: Seq<u8>| tile_of_token(t))
}

/// The column of the last player-spawn marker in a row, if any.
pub open spec fn last_star_in(cells: Seq<Seq<u8>>) -> Option<int>
    decreases cells.len(),
{
    if cells.len() == 0 {
        Option::None
    } else if spec_parse_cell(cells.last()) == Option::Some(Cell::Start) {
        Option::Some(cells.len() - 1)
    } else {
        last_star_in(cells.drop_last())
    }
}

/// The `(column, row)` grid position of the last player-spawn marker in the
/// map, if any: a later marker overwrites an earlier one.
pub open spec fn start_in_rows(rows: Seq<Seq<u8>>) -> Option<(int, int)>
    decreases rows.len(),
{
    if rows.len() == 0 {
        Option::None
    } else {
        match last_star_in(row_cells(rows.last())) {
            Option::Some(j) => Option::Some((j, rows.len() - 1)),
            Option::None => start_in_rows(rows.drop_last()),
        }
    }
}

/// The player-spawn grid position of the map, defaulting to `(0, 0)` when no
/// marker appears.
pub open spec fn spec_start(bytes: Seq<u8>) -> (int, int) {
    match start_in_rows(spec_rows(bytes)) {
        Option::Some(p) => p,
        Option::None => (0, 0),
    }
}

/// The loaded level: its mode, the player's spawn cell as `(column, row)`,
/// and the grid of optional tiles addressed `layout[row][column]`.  Rows
/// need not have equal length.
#[derive(Debug)]
pub struct World {
    pub world_type: WorldType,
    pub player_start_coordinates: (usize, usize),
    pub layout: Vec<Vec<Option<Tile>>>,
}

impl World {
    /// Grid dimensions and the spawn cell stay small enough that every
    /// derived world coordinate fits the world band.
    pub open spec fn wf(self) -> bool {
        &&& self.layout@.len() <= GRID_LIMIT
        &&& forall|i: int|
            0 <= i < self.layout@.len() ==> (#[trigger] self.layout@[i])@.len() <= GRID_LIMIT
        &&& self.player_start_coordinates.0 <= GRID_LIMIT
        &&& self.player_start_coordinates.1 <= GRID_LIMIT
    }

    /// Parse a level map: rows are newline-separated, cells tab-separated,
    /// each token per the map grammar.  The first unrecognized token, in
    /// row-major scan order, is reported with its position.  A map without a
    /// spawn marker puts the player at cell `(0, 0)`.
    pub fn load_level(map: &Vec<u8>, level: usize) -> (r: Result<World, MapParseError>)
        requires
            map@.len() <= MAP_LIMIT,
        ensures
            r is Ok <==> map_ok(map@),
            r matches Ok(w) ==> {
                &&& w.world_type == WorldType::Level(level)
                &&& w.layout@.len() == spec_rows(map@).len()
                &&& forall|i: int|
                    0 <= i < spec_rows(map@).len() ==> (#[trigger] w.layout@[i])@
                        == spec_row_tiles(spec_rows(map@)[i])
                &&& w.player_start_coordinates.0 == spec_start(map@).0
                &&& w.player_start_coordinates.1 == spec_start(map@).1
                &&& w.wf()
            },
            r matches Err(e) ==> {
                &&& e.row < spec_rows(map@).len()
                &&& e.col < row_cells(spec_rows(map@)[e.row as int]).len()
                &&& spec_parse_cell(row_cells(spec_rows(map@)[e.row as int])[e.col as int])
                    is None
                &&& e.token@ == row_cells(spec_rows(map@)[e.row as int])[e.col as int]
                &&& forall|i: int| 0 <= i < e.row ==> row_ok(#[trigger] spec_rows(map@)[i])
                &&& forall|j: int|
                    0 <= j < e.col ==> spec_parse_cell(
                        #[trigger] row_cells(spec_rows(map@)[e.row as int])[j],
                    ) is Some
            },
    {
        let ghost rows: Seq<Seq<u8>> = spec_rows(map@);
        let mut rows_v: Vec<Vec<u8>> = split_bytes(map, NEWLINE);
        proof {
            lemma_split_bounds(map@, NEWLINE);
        }
        if rows_v[rows_v.len() - 1].len() == 0 {
            let ghost before: Seq<Vec<u8>> = rows_v@;
            rows_v.pop();
            proof {
                assert(views_of(before).last() == before.last()@);
                assert(views_of(rows_v@) =~= views_of(before).drop_last());
            }
        }
        proof {
            assert(views_of(rows_v@) == rows);
            assert(forall|i: int|
                0 <= i < rows_v@.len() ==> views_of(rows_v@)[i] == #[trigger] rows_v@[i]@);
            assert(forall|i: int|
                0 <= i < rows.len() ==> (#[trigger] rows[i]).len() <= map@.len()) by {
                assert(forall|i: int|
                    0 <= i < rows.len() ==> rows[i] == #[trigger] spec_split(map@, NEWLINE)[i]);
            }
        }
        let mut layout: Vec<Vec<Option<Tile>>> = Vec::new();
        let mut sx: usize = 0;
        let mut sy: usize = 0;
        let mut i: usize = 0;
        proof {
            assert(rows.take(0) =~= Seq::<Seq<u8>>::empty());
        }
        while i < rows_v.len()
            invariant
                map@.len() <= MAP_LIMIT,
                rows == spec_rows(map@),
                views_of(rows_v@) == rows,
                rows_v@.len() == rows.len(),
                rows.len() <= map@.len() + 1,
                forall|ii: int| 0 <= ii < rows.len() ==> (#[trigger] rows[ii]).len() <= map@.len(),
                0 <= i <= rows.len(),
                layout@.len() == i,
                forall|ii: int| 0 <= ii < i ==> row_ok(#[trigger] rows[ii]),
                forall|ii: int|
                    0 <= ii < i ==> (#[trigger] layout@[ii])@ == spec_row_tiles(rows[ii]),
                forall|ii: int| 0 <= ii < i ==> (#[trigger] layout@[ii])@.len() <= GRID_LIMIT,
                match start_in_rows(rows.take(i as int)) {
                    Option::Some(p) => sx == p.0 && sy == p.1,
                    Option::None => sx == 0 && sy == 0,
                },
                sx <= GRID_LIMIT,
                sy <= GRID_LIMIT,
            decreases rows.len() - i,
        {
            let ghost crow: Seq<Seq<u8>> = row_cells(rows[i as int]);
            let cells: Vec<Vec<u8>> = split_bytes(&rows_v[i], TAB);
            proof {
                assert(rows_v@[i as int]@ == rows[i as int]);
                lemma_split_bounds(rows[i as int], TAB);
                assert(views_of(cells@) == crow);
                assert(forall|j: int|
                    0 <= j < cells@.len() ==> views_of(cells@)[j] == #[trigger] cells@[j]@);
                assert(crow.take(0) =~= Seq::<Seq<u8>>::empty());
            }
            let mut row_t: Vec<Option<Tile>> = Vec::new();
            let mut star_j: usize = 0;
            let mut has_star: bool = false;
            let mut j: usize = 0;
            while j < cells.len()
                invariant
                    map@.len() <= MAP_LIMIT,
                    rows == spec_rows(map@),
                    0 <= i < rows.len(),
                    crow == row_cells(rows[i as int]),
                    views_of(cells@) == crow,
                    cells@.len() == crow.len(),
                    crow.len() <= map@.len() + 1,
                    0 <= j <= crow.len(),
                    row_t@.len() == j,
                    forall|ii: int| 0 <= ii < i ==> row_ok(#[trigger] rows[ii]),
                    forall|jj: int|
                        0 <= jj < j ==> spec_parse_cell(#[trigger] crow[jj]) is Some,
                    forall|jj: int| 0 <= jj < j ==> (#[trigger] row_t@[jj]) == tile_of_token(crow[jj]),
                    match last_star_in(crow.take(j as int)) {
                        Option::Some(p) => has_star && star_j == p,
                        Option::None => !has_star,
                    },
                    star_j <= GRID_LIMIT,
                decreases crow.len() - j,
            {
                let tok: &Vec<u8> = &cells[j];
                proof {
                    assert(tok@ == crow[j as int]);
                }
                let parsed: Option<Cell> = parse_cell(tok);
                match parsed {
                    Option::None => {
                        proof {
                            assert(!row_ok(rows[i as int])) by {
                                if row_ok(rows[i as int]) {
                                    assert(spec_parse_cell(crow[j as int]) is Some);
                                }
                            }
                            assert(!map_ok(map@)) by {
                                if map_ok(map@) {
                                    assert(row_ok(rows[i as int]));
                                }
                            }
                            assert(tok@.skip(0) =~= tok@);
                        }
                        let token: Vec<u8> = bytes_from(tok, 0);
                        return Result::Err(MapParseError { row: i, col: j, token });
                    },
                    Option::Some(c) => {
                        proof {
                            assert(crow.take(j as int + 1).drop_last() =~= crow.take(j as int));
                            assert(crow.take(j as int + 1).last() == crow[j as int]);
                        }
                        match c {
                            Cell::Empty => {
                                row_t.push(Option::None);
                            },
                            Cell::Wall => {
                                row_t.push(Option::Some(Tile::Wall));
                            },
                            Cell::Missile => {
                                row_t.push(Option::Some(Tile::Spawner(SpawnerKind::Missile)));
                            },
                            Cell::Laser(a) => {
                                row_t.push(Option::Some(Tile::Spawner(SpawnerKind::Laser(a))));
                            },
                            Cell::Start => {
                                row_t.push(Option::None);
                                star_j = j;
                                has_star = true;
                            },
                        }
                    },
                }
                j = j + 1;
            }
            proof {
                assert(crow.take(crow.len() as int) =~= crow);
                assert(row_ok(rows[i as int]));
                assert(row_t@ =~= spec_row_tiles(rows[i as int]));
                assert(rows.take(i as int + 1).drop_last() =~= rows.take(i as int));
                assert(rows.take(i as int + 1).last() == rows[i as int]);
            }
            layout.push(row_t);
            if has_star {
                sx = star_j;
                sy = i;
            }
            i = i + 1;
        }
        proof {
            assert(rows.take(rows.len() as int) =~= rows);
        }
        Result::Ok(
            World {
                world_type: WorldType::Level(level),
                player_start_coordinates: (sx, sy),
                layout,
            },
        )
    }
}

/// World center of the tile at grid row `i`, column `j`: rows grow downward
/// in file order while world y grows upward, hence the negation.
pub fn tile_center(i: usize, j: usize) -> (r: Vec2)
    requires
        i <= GRID_LIMIT,
        j <= GRID_LIMIT,
    ensures
        r.x == j * TILE_SIZE,
        r.y == -(i * TILE_SIZE),
        r.within(crate::collision::WORLD_LIMIT as int),
{
    Vec2 { x: (j as i64) * TILE_SIZE, y: -((i as i64) * TILE_SIZE) }
}

/// The wall centers of one row, in column order; `i` is the row index.
pub open spec fn spec_row_walls(row: Seq<Option<Tile>>, i: int) -> Seq<Vec2>
    decreases row.len(),
{
    if row.len() == 0 {
        Seq::<Vec2>::empty()
    } else {
        spec_row_walls(row.drop_last(), i) + if row.last() == Option::Some(Tile::Wall) {
            seq![
                Vec2 {
                    x: ((row.len() - 1) * TILE_SIZE) as i64,
                    y: (-(i * TILE_SIZE)) as i64,
                },
            ]
        } else {
            Seq::<Vec2>::empty()
        }
    }
}

/// The wall centers of the whole grid, in row-major scan order.
pub open spec fn spec_walls(rows: Seq<Vec<Option<Tile>>>) -> Seq<Vec2>
    decreases rows.len(),
{
    if rows.len() == 0 {
        Seq::<Vec2>::empty()
    } else {
        spec_walls(rows.drop_last()) + spec_row_walls(rows.last()@, rows.len() - 1)
    }
}

/// The spawners of one row as `(world center, kind)`, in column order.
pub open spec fn spec_row_spawners(row: Seq<Option<Tile>>, i: int) -> Seq<(Vec2, SpawnerKind)>
    decreases row.len(),
{
    if row.len() == 0 {
        Seq::<(Vec2, SpawnerKind)>::empty()
    } else {
        spec_row_spawners(row.drop_last(), i) + match row.last() {
            Option::Some(Tile::Spawner(k)) => seq![
                (
                    Vec2 {
                        x: ((row.len() - 1) * TILE_SIZE) as i64,
                        y: (-(i * TILE_SIZE)) as i64,
                    },
                    k,
                ),
            ],
            _ => Seq::<(Vec2, SpawnerKind)>::empty(),
        }
    }
}

/// The spawners of the whole grid, in row-major scan order.
pub open spec fn spec_spawners(rows: Seq<Vec<Option<Tile>>>) -> Seq<(Vec2, SpawnerKind)>
    decreases rows.len(),
{
    if rows.len() == 0 {
        Seq::<(Vec2, SpawnerKind)>::empty()
    } else {
        spec_spawners(rows.drop_last()) + spec_row_spawners(rows.last()@, rows.len() - 1)
    }
}

impl World {
    /// World position of the player's spawn cell.
    pub fn player_start_world(&self) -> (r: Vec2)
        requires
            self.wf(),
        ensures
            r.x == self.player_start_coordinates.0 * TILE_SIZE,
            r.y == -(self.player_start_coordinates.1 * TILE_SIZE),
            r.within(crate::collision::WORLD_LIMIT as int),
    {
        tile_center(self.player_start_coordinates.1, self.player_start_coordinates.0)
    }

    /// The world centers of all wall tiles, in row-major scan order: what
    /// the movement resolver iterates each tick.
    pub fn walls(&self) -> (r: Vec<Vec2>)
        requires
            self.wf(),
        ensures
            r@ == spec_walls(self.layout@),
            forall|k: int|
                0 <= k < r@.len() ==> (#[trigger] r@[k]).within(
                    crate::collision::WORLD_LIMIT as int,
                ),
    {
        let mut out: Vec<Vec2> = Vec::new();
        let mut i: usize = 0;
        proof {
            assert(self.layout@.take(0) =~= Seq::<Vec<Option<Tile>>>::empty());
        }
        while i < self.layout.len()
            invariant
                self.wf(),
                0 <= i <= self.layout@.len(),
                out@ == spec_walls(self.layout@.take(i as int)),
                forall|k: int|
                    0 <= k < out@.len() ==> (#[trigger] out@[k]).within(
                        crate::collision::WORLD_LIMIT as int,
                    ),
            decreases self.layout@.len() - i,
        {
            let row: &Vec<Option<Tile>> = &self.layout[i];
            let mut j: usize = 0;
            proof {
                assert(row@.take(0) =~= Seq::<Option<Tile>>::empty());
                assert(out@ + spec_row_walls(row@.take(0), i as int) =~= out@);
            }
            while j < row.len()
                invariant
                    self.wf(),
                    0 <= i < self.layout@.len(),
                    row@ == self.layout@[i as int]@,
                    0 <= j <= row@.len(),
                    row@.len() <= GRID_LIMIT,
                    out@ == spec_walls(self.layout@.take(i as int)) + spec_row_walls(
                        row@.take(j as int),
                        i as int,
                    ),
                    forall|k: int|
                        0 <= k < out@.len() ==> (#[trigger] out@[k]).within(
                            crate::collision::WORLD_LIMIT as int,
                        ),
                decreases row@.len() - j,
            {
                let cell: Option<Tile> = row[j];
                proof {
                    assert(row@.take(j as int + 1).drop_last() =~= row@.take(j as int));
                    assert(row@.take(j as int + 1).last() == row@[j as int]);
                }
                match cell {
                    Option::Some(Tile::Wall) => {
                        let center: Vec2 = tile_center(i, j);
                        out.push(center);
                    },
                    _ => {},
                }
                j = j + 1;
            }
            proof {
                assert(row@.take(row@.len() as int) =~= row@);
                assert(self.layout@.take(i as int + 1).drop_last() =~= self.layout@.take(
                    i as int,
                ));
                assert(self.layout@.take(i as int + 1).last() == self.layout@[i as int]);
            }
            i = i + 1;
        }
        proof {
            assert(self.layout@.take(self.layout@.len() as int) =~= self.layout@);
        }
        out
    }

    /// All spawner tiles as `(world center, kind)`, in row-major scan order.
    pub fn spawners(&self) -> (r: Vec<(Vec2, SpawnerKind)>)
        requires
            self.wf(),
        ensures
            r@ == spec_spawners(self.layout@),
    {
        let mut out: Vec<(Vec2, SpawnerKind)> = Vec::new();
        let mut i: usize = 0;
        proof {
            assert(self.layout@.take(0) =~= Seq::<Vec<Option<Tile>>>::empty());
        }
        while i < self.layout.len()
            invariant
                self.wf(),
                0 <= i <= self.layout@.len(),
                out@ == spec_spawners(self.layout@.take(i as int)),
            decreases self.layout@.len() - i,
        {
            let row: &Vec<Option<Tile>> = &self.layout[i];
            let mut j: usize = 0;
            proof {
                assert(row@.take(0) =~= Seq::<Option<Tile>>::empty());
                assert(out@ + spec_row_spawners(row@.take(0), i as int) =~= out@);
            }
            while j < row.len()
                invariant
                    self.wf(),
                    0 <= i < self.layout@.len(),
                    row@ == self.layout@[i as int]@,
                    0 <= j <= row@.len(),
                    row@.len() <= GRID_LIMIT,
                    out@ == spec_spawners(self.layout@.take(i as int)) + spec_row_spawners(
                        row@.take(j as int),
                        i as int,
                    ),
                decreases row@.len() - j,
            {
                let cell: Option<Tile> = row[j];
                proof {
                    assert(row@.take(j as int + 1).drop_last() =~= row@.take(j as int));
                    assert(row@.take(j as int + 1).last() == row@[j as int]);
                }
                match cell {
                    Option::Some(Tile::Spawner(k)) => {
                        let center: Vec2 = tile_center(i, j);
                        out.push((center, k));
                    },
                    _ => {},
                }
                j = j + 1;
            }
            proof {
                assert(row@.take(row@.len() as int) =~= row@);
                assert(self.layout@.take(i as int + 1).drop_last() =~= self.layout@.take(
                    i as int,
                ));
                assert(self.layout@.take(i as int + 1).last() == self.layout@[i as int]);
            }
            i = i + 1;
        }
        proof {
            assert(self.layout@.take(self.layout@.len() as int) =~= self.layout@);
        }
        out
    }
}

/// A per-tile producer of enemies on a fixed cooldown.  `elapsed` increases
/// with every tick; when it reaches the cooldown, one spawn fires and the
/// cooldown is subtracted, so the phase is preserved rather than reset.
/// Times are in microseconds.
#[derive(Clone, Copy, PartialEq, Eq, Structural, Debug)]
pub struct Spawner {
    pub kind: SpawnerKind,
    pub cooldown: u64,
    pub elapsed: u64,
}

impl Spawner {
    /// The timer has a positive period and its phase stays below the period.
    pub open spec fn wf(self) -> bool {
        &&& self.cooldown > 0
        &&& self.elapsed < self.cooldown
    }

    /// A fresh spawner for an enemy kind, with the per-kind cooldown
    /// supplied by the enemy configuration.
    pub fn new(kind: SpawnerKind, cooldown: u64) -> (r: Spawner)
        requires
            cooldown > 0,
        ensures
            r.kind == kind,
            r.cooldown == cooldown,
            r.elapsed == 0,
            r.wf(),
    {
        Spawner { kind, cooldown, elapsed: 0 }
    }

    /// Advance the timer by `dt_us` and report whether a spawn fires: it
    /// does exactly when the accumulated time reaches the cooldown, which is
    /// then subtracted (at most one spawn per tick).  The sum of the new
    /// phase and the fired time always equals the old phase plus `dt_us`,
    /// so no time is ever lost and the phase drifts by less than one tick.
    pub fn tick(&mut self, dt_us: u64) -> (fired: bool)
        requires
            old(self).cooldown > 0,
            old(self).elapsed + dt_us <= u64::MAX,
        ensures
            final(self).kind == old(self).kind,
            final(self).cooldown == old(self).cooldown,
            fired <==> old(self).elapsed + dt_us >= old(self).cooldown,
            final(self).elapsed == if fired {
                old(self).elapsed + dt_us - old(self).cooldown
            } else {
                old(self).elapsed + dt_us
            },
            final(self).elapsed + (if fired {
                old(self).cooldown as int
            } else {
                0
            }) == old(self).elapsed + dt_us,
            old(self).wf() && dt_us <= old(self).cooldown ==> final(self).wf(),
    {
        let total: u64 = self.elapsed + dt_us;
        if total >= self.cooldown {
            self.elapsed = total - self.cooldown;
            true
        } else {
            self.elapsed = total;
            false
        }
    }
}

} // verus!
