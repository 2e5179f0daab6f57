//! The level text format: a line-oriented description parsed into a tile
//! grid, a tileset and typed spawn points, plus the serializer that writes
//! the grid and legend back out.
//!
//! The text is divided by separator lines (only `=` characters) into four
//! sections in fixed order: metadata, legend, map and starts.  The parser is
//! a linear state machine over the lines; any malformed line is fatal.

use vstd::prelude::*;
use vstd::string::StringSliceAdditionalSpecFns;
use crate::geom::Vec2;
use crate::grid::Grid;
use crate::lex::{
    is_sep_line, sep_line, spec_lines, spec_lines_rec, spec_parse_i16, spec_parse_u16,
    spec_tokens, strip_cr, tokenize, parse_u16, parse_i16,
};
use crate::tile::{SheetRegion, TileData, Tileset};

verus! {

/// The side of one square tile in world units; world coordinates place a
/// tile's centre at half a tile from its minimum corner.
pub const TILE_SZ: u16 = 4;

/// What a spawn point stands for.
#[derive(Clone, Copy, Debug, PartialEq, Eq, Structural)]
pub enum EntityType {
    Snake,
    Food,
}

/// Why level loading failed.  A broken level file is a content-authoring
/// bug, so every error is fatal to the load; there is no recovery path.
#[derive(Clone, Copy, Debug, PartialEq, Eq, Structural)]
pub enum LevelError {
    /// A line is missing a required field.
    MissingToken,
    /// A numeric field does not parse or is out of range.
    BadNumber,
    /// The metadata declares a background twice.
    DuplicateBg,
    /// The metadata declares the name and dimensions twice.
    DuplicateName,
    /// A legend symbol is declared twice.
    DuplicateSymbol,
    /// A legend flag is neither open (`o`) nor solid (`s`).
    BadFlag,
    /// The legend is full: no tile-type id is left for a new symbol.
    TooManyTiles,
    /// A map row uses a symbol the legend does not declare.
    UnknownSymbol,
    /// A map or starts line appears before the dimensions are declared.
    DimsNotSet,
    /// A map row does not have exactly `width` symbols.
    WrongRowLength,
    /// A starts line names an entity outside the fixed vocabulary.
    UnknownEntity,
    /// A spawn row index lies below the bottom of the map.
    StartOutOfRange,
    /// Content appears after the starts section was closed.
    ContentAfterEnd,
    /// The text never declares a name.
    MissingName,
    /// The text never declares the map dimensions.
    MissingDims,
    /// The legend declares no tile type.
    EmptyLegend,
    /// The map rows do not add up to `width * height` cells.
    WrongGridSize,
}

/// The parser's position in the fixed section order.
#[derive(Clone, Copy, Debug, PartialEq, Eq, Structural)]
pub enum Section {
    Metadata,
    Legend,
    MapRows,
    Starts,
    Done,
}

/// The section a separator line advances to.
pub open spec fn next_section(s: Section) -> Section {
    match s {
        Section::Metadata => Section::Legend,
        Section::Legend => Section::MapRows,
        Section::MapRows => Section::Starts,
        Section::Starts => Section::Done,
        Section::Done => Section::Done,
    }
}

/// The parser state: what the lines seen so far have established.
pub ghost struct StateG {
    pub section: Section,
    pub name: Option<Seq<u8>>,
    pub bg: Option<SheetRegion>,
    pub dims: Option<(u16, u16)>,
    pub symbols: Seq<Seq<u8>>,
    pub tiles: Seq<TileData>,
    pub grid: Seq<u8>,
    pub starts: Seq<(EntityType, Vec2)>,
}

/// The initial parser state: nothing declared, metadata section open.
pub open spec fn init_state() -> StateG {
    StateG {
        section: Section::Metadata,
        name: None,
        bg: None,
        dims: None,
        symbols: Seq::empty(),
        tiles: Seq::empty(),
        grid: Seq::empty(),
        starts: Seq::empty(),
    }
}

/// The bytes of the metadata keyword `bg`.
pub open spec fn tok_bg() -> Seq<u8> {
    seq![98u8, 103u8]
}

/// The bytes of the entity keyword `snake`.
pub open spec fn tok_snake() -> Seq<u8> {
    seq![115u8, 110u8, 97u8, 107u8, 101u8]
}

/// The bytes of the entity keyword `apple`.
pub open spec fn tok_apple() -> Seq<u8> {
    seq![97u8, 112u8, 112u8, 108u8, 101u8]
}

/// A legend flag, case-insensitive: `Some(true)` for solid (`s`/`S`),
/// `Some(false)` for open (`o`/`O`), `None` for anything else.
pub open spec fn spec_flag(t: Seq<u8>) -> Option<bool> {
    if t == seq![115u8] || t == seq![83u8] {
        Some(true)
    } else if t == seq![111u8] || t == seq![79u8] {
        Some(false)
    } else {
        None
    }
}

/// The tile-type id of `sym`: the position of its first occurrence in the
/// declared symbols, if any.
pub open spec fn lookup(symbols: Seq<Seq<u8>>, sym: Seq<u8>) -> Option<int>
    decreases symbols.len(),
{
    if symbols.len() == 0 {
        None
    } else if symbols[0] == sym {
        Some(0)
    } else {
        match lookup(symbols.drop_first(), sym) {
            None => None,
            Some(i) => Some(i + 1),
        }
    }
}

/// The tile-type ids of a map row's symbols, `None` if any symbol is not
/// in the legend.
pub open spec fn row_ids(symbols: Seq<Seq<u8>>, toks: Seq<Seq<u8>>) -> Option<Seq<u8>>
    decreases toks.len(),
{
    if toks.len() == 0 {
        Some(Seq::empty())
    } else {
        match lookup(symbols, toks[0]) {
            None => None,
            Some(i) => match row_ids(symbols, toks.drop_first()) {
                None => None,
                Some(rest) => Some(seq![i as u8] + rest),
            },
        }
    }
}

/// The world position of a spawn declared at tile `(x, y)` in a map of
/// height `h` rows: the tile's centre, with the vertical axis flipped
/// (row 0 of the text is the top of the map, world `y` grows upward).
pub open spec fn spec_world_start(h: u16, x: u16, y: u16) -> Vec2
    recommends
        y <= h,
{
    Vec2 {
        x: (x as int * TILE_SZ + TILE_SZ / 2) as i32,
        y: ((h - y) as int * TILE_SZ - TILE_SZ / 2) as i32,
    }
}

/// One metadata line: either `bg x y w h` declaring the background region,
/// or `name width height`.  Either may be declared at most once.
pub open spec fn step_metadata(st: StateG, toks: Seq<Seq<u8>>) -> Result<StateG, LevelError> {
    if toks.len() == 0 {
        Err(LevelError::MissingToken)
    } else if toks[0] == tok_bg() {
        if st.bg is Some {
            Err(LevelError::DuplicateBg)
        } else if toks.len() < 5 {
            Err(LevelError::MissingToken)
        } else {
            match (spec_parse_u16(toks[1]), spec_parse_u16(toks[2]), spec_parse_i16(toks[3]),
            spec_parse_i16(toks[4])) {
                (Some(x), Some(y), Some(w), Some(h)) => Ok(
                    StateG { bg: Some(SheetRegion { x, y, w, h }), ..st },
                ),
                _ => Err(LevelError::BadNumber),
            }
        }
    } else {
        if st.name is Some {
            Err(LevelError::DuplicateName)
        } else if toks.len() < 3 {
            Err(LevelError::MissingToken)
        } else {
            match (spec_parse_u16(toks[1]), spec_parse_u16(toks[2])) {
                (Some(w), Some(h)) => Ok(
                    StateG { name: Some(toks[0]), dims: Some((w, h)), ..st },
                ),
                _ => Err(LevelError::BadNumber),
            }
        }
    }
}

/// One legend line, `symbol flag x y w h`: declares a new tile type under
/// the next free id.
pub open spec fn step_legend(st: StateG, toks: Seq<Seq<u8>>) -> Result<StateG, LevelError> {
    if toks.len() == 0 {
        Err(LevelError::MissingToken)
    } else if lookup(st.symbols, toks[0]) is Some {
        Err(LevelError::DuplicateSymbol)
    } else if toks.len() < 6 {
        Err(LevelError::MissingToken)
    } else if spec_flag(toks[1]) is None {
        Err(LevelError::BadFlag)
    } else {
        match (spec_parse_u16(toks[2]), spec_parse_u16(toks[3]), spec_parse_i16(toks[4]),
        spec_parse_i16(toks[5])) {
            (Some(x), Some(y), Some(w), Some(h)) => {
                if st.symbols.len() >= 256 {
                    Err(LevelError::TooManyTiles)
                } else {
                    Ok(
                        StateG {
                            symbols: st.symbols.push(toks[0]),
                            tiles: st.tiles.push(
                                TileData {
                                    solid: spec_flag(toks[1]) == Some(true),
                                    sheet_region: SheetRegion { x, y, w, h },
                                },
                            ),
                            ..st
                        },
                    )
                }
            },
            _ => Err(LevelError::BadNumber),
        }
    }
}

/// One map row: exactly `width` legend symbols, appended to the grid in
/// row-major order.
pub open spec fn step_map(st: StateG, toks: Seq<Seq<u8>>) -> Result<StateG, LevelError> {
    match row_ids(st.symbols, toks) {
        None => Err(LevelError::UnknownSymbol),
        Some(ids) => match st.dims {
            None => Err(LevelError::DimsNotSet),
            Some(d) => {
                if toks.len() != d.0 {
                    Err(LevelError::WrongRowLength)
                } else {
                    Ok(StateG { grid: st.grid + ids, ..st })
                }
            },
        },
    }
}

/// One starts line, `entity_type x y`: a spawn point in tile coordinates,
/// converted to world coordinates.
pub open spec fn step_starts(st: StateG, toks: Seq<Seq<u8>>) -> Result<StateG, LevelError> {
    if toks.len() == 0 {
        Err(LevelError::MissingToken)
    } else {
        let et: Option<EntityType> = if toks[0] == tok_snake() {
            Some(EntityType::Snake)
        } else if toks[0] == tok_apple() {
            Some(EntityType::Food)
        } else {
            None
        };
        match et {
            None => Err(LevelError::UnknownEntity),
            Some(e) => {
                if toks.len() < 3 {
                    Err(LevelError::MissingToken)
                } else {
                    match (spec_parse_u16(toks[1]), spec_parse_u16(toks[2])) {
                        (Some(x), Some(y)) => match st.dims {
                            None => Err(LevelError::DimsNotSet),
                            Some(d) => {
                                if y > d.1 {
                                    Err(LevelError::StartOutOfRange)
                                } else {
                                    Ok(
                                        StateG {
                                            starts: st.starts.push(
                                                (e, spec_world_start(d.1, x, y)),
                                            ),
                                            ..st
                                        },
                                    )
                                }
                            },
                        },
                        _ => Err(LevelError::BadNumber),
                    }
                }
            },
        }
    }
}

/// One line of level text: blank lines are skipped in every state, a
/// separator advances the section, anything else goes to the open
/// section's rule; content after the last section is fatal.
pub open spec fn step(st: StateG, line: Seq<u8>) -> Result<StateG, LevelError> {
    if line.len() == 0 {
        Ok(st)
    } else if is_sep_line(line) {
        Ok(StateG { section: next_section(st.section), ..st })
    } else {
        let toks = spec_tokens(line);
        match st.section {
            Section::Metadata => step_metadata(st, toks),
            Section::Legend => step_legend(st, toks),
            Section::MapRows => step_map(st, toks),
            Section::Starts => step_starts(st, toks),
            Section::Done => Err(LevelError::ContentAfterEnd),
        }
    }
}

/// Folds the parser over the lines; the first fatal line decides the
/// result.
pub open spec fn fold_lines(st: StateG, lines: Seq<Seq<u8>>) -> Result<StateG, LevelError>
    decreases lines.len(),
{
    if lines.len() == 0 {
        Ok(st)
    } else {
        match step(st, lines[0]) {
            Err(e) => Err(e),
            Ok(st2) => fold_lines(st2, lines.drop_first()),
        }
    }
}

/// The mathematical content of a parsed level.
pub ghost struct LevelV {
    pub name: Seq<u8>,
    pub bg: SheetRegion,
    pub width: u16,
    pub height: u16,
    pub grid: Seq<u8>,
    pub tileset: Seq<TileData>,
    pub symbols: Seq<Seq<u8>>,
    pub starts: Seq<(EntityType, Vec2)>,
}

/// End-of-parse validation: a name, dimensions and a nonempty legend must
/// have been declared, and the map rows must cover the grid exactly.
pub open spec fn finalize(st: StateG) -> Result<LevelV, LevelError> {
    match st.name {
        None => Err(LevelError::MissingName),
        Some(name) => match st.dims {
            None => Err(LevelError::MissingDims),
            Some(d) => {
                if st.symbols.len() == 0 {
                    Err(LevelError::EmptyLegend)
                } else if st.grid.len() != d.0 * d.1 {
                    Err(LevelError::WrongGridSize)
                } else {
                    Ok(
                        LevelV {
                            name,
                            bg: match st.bg {
                                Some(b) => b,
                                None => SheetRegion { x: 0, y: 0, w: 0, h: 0 },
                            },
                            width: d.0,
                            height: d.1,
                            grid: st.grid,
                            tileset: st.tiles,
                            symbols: st.symbols,
                            starts: st.starts,
                        },
                    )
                }
            },
        },
    }
}

/// What parsing the level text yields: the fold of the line rules over the
/// lines, then the end-of-parse validation.
pub open spec fn spec_parse_level(s: Seq<u8>) -> Result<LevelV, LevelError> {
    match fold_lines(init_state(), spec_lines(s)) {
        Err(e) => Err(e),
        Ok(st) => finalize(st),
    }
}

/// The byte sequences a vector of byte vectors holds.
pub open spec fn views(s: Seq<Vec<u8>>) -> Seq<Seq<u8>> {
    s.map_values(|v: Vec<u8>| v@)
}

/// The invariants every parsed level enjoys: the grid covers the declared
/// dimensions with valid tile-type ids, the legend is a nonempty palette of
/// distinct well-formed symbols in id order, and the name is a token other
/// than the `bg` keyword.
pub open spec fn wf_level(v: LevelV) -> bool {
    &&& v.grid.len() == v.width * v.height
    &&& v.symbols.len() == v.tileset.len()
    &&& 1 <= v.symbols.len() <= 256
    &&& forall|i: int| 0 <= i < v.grid.len() ==> (#[trigger] v.grid[i]) < v.symbols.len()
    &&& forall|i: int| 0 <= i < v.symbols.len() ==> crate::lex::token_wf(#[trigger] v.symbols[i])
    &&& forall|i: int, j: int|
        0 <= i < v.symbols.len() && 0 <= j < v.symbols.len() && i != j ==> #[trigger] v.symbols[i]
            != #[trigger] v.symbols[j]
    &&& crate::lex::token_wf(v.name)
    &&& v.name != tok_bg()
}

/// A level whose serialization parses back: well-formed, and on a map one
/// tile wide no used symbol consists solely of `=` bytes (such a row would
/// read back as a section separator).
pub open spec fn serializable(v: LevelV) -> bool {
    &&& wf_level(v)
    &&& v.width == 1 ==> forall|i: int|
        0 <= i < v.grid.len() ==> !is_sep_line(#[trigger] v.symbols[v.grid[i] as int])
}

/// The invariants the parser state keeps while the lines are folded.
pub open spec fn state_wf(st: StateG) -> bool {
    &&& st.symbols.len() == st.tiles.len()
    &&& st.symbols.len() <= 256
    &&& forall|i: int|
        0 <= i < st.symbols.len() ==> crate::lex::token_wf(#[trigger] st.symbols[i])
    &&& forall|i: int, j: int|
        0 <= i < st.symbols.len() && 0 <= j < st.symbols.len() && i != j
            ==> #[trigger] st.symbols[i] != #[trigger] st.symbols[j]
    &&& forall|i: int| 0 <= i < st.grid.len() ==> (#[trigger] st.grid[i]) < st.symbols.len()
    &&& match st.name {
        Some(n) => crate::lex::token_wf(n) && n != tok_bg(),
        None => true,
    }
}

/// A symbol that occurs among the declared ones has an id.
pub proof fn lemma_lookup_present(syms: Seq<Seq<u8>>, x: Seq<u8>, i: int)
    requires
        0 <= i < syms.len(),
        syms[i] == x,
    ensures
        lookup(syms, x) is Some,
    decreases i,
{
    if syms[0] != x {
        assert(syms.drop_first()[i - 1] == syms[i]);
        lemma_lookup_present(syms.drop_first(), x, i - 1);
    }
}

/// Every id a map row resolves to indexes the declared symbols.
pub proof fn lemma_row_ids_bound(syms: Seq<Seq<u8>>, toks: Seq<Seq<u8>>)
    requires
        syms.len() <= 256,
    ensures
        row_ids(syms, toks) matches Some(ids) ==> ids.len() == toks.len() && forall|k: int|
            0 <= k < ids.len() ==> (#[trigger] ids[k]) < syms.len(),
    decreases toks.len(),
{
    if toks.len() > 0 {
        lemma_lookup_in_range(syms, toks[0]);
        lemma_row_ids_bound(syms, toks.drop_first());
        match lookup(syms, toks[0]) {
            None => {},
            Some(i) => {
                match row_ids(syms, toks.drop_first()) {
                    None => {},
                    Some(rest) => {
                        let ids = seq![i as u8] + rest;
                        assert(ids[0] == i as u8);
                        assert((i as u8) < syms.len());
                        assert(forall|k: int|
                            1 <= k < ids.len() ==> #[trigger] ids[k] == rest[k - 1]);
                    },
                }
            },
        }
    }
}

/// Each line rule preserves the parser-state invariants.
pub proof fn lemma_step_wf(st: StateG, line: Seq<u8>)
    requires
        state_wf(st),
    ensures
        step(st, line) matches Ok(st2) ==> state_wf(st2),
{
    crate::lex::lemma_tokens_wf(line);
    if line.len() == 0 || is_sep_line(line) {
    } else {
        let toks = spec_tokens(line);
        match st.section {
            Section::Metadata => {},
            Section::Legend => {
                match step_legend(st, toks) {
                    Ok(st2) => {
                        assert(st2.symbols == st.symbols.push(toks[0]));
                        assert(lookup(st.symbols, toks[0]) is None);
                        assert forall|i: int, j: int|
                            0 <= i < st2.symbols.len() && 0 <= j < st2.symbols.len() && i != j
                            implies #[trigger] st2.symbols[i] != #[trigger] st2.symbols[j] by {
                            if i == st.symbols.len() {
                                if st2.symbols[i] == st2.symbols[j] {
                                    lemma_lookup_present(st.symbols, toks[0], j);
                                }
                            } else if j == st.symbols.len() {
                                if st2.symbols[i] == st2.symbols[j] {
                                    lemma_lookup_present(st.symbols, toks[0], i);
                                }
                            }
                        }
                    },
                    Err(_) => {},
                }
            },
            Section::MapRows => {
                match step_map(st, toks) {
                    Ok(st2) => {
                        lemma_row_ids_bound(st.symbols, toks);
                        match row_ids(st.symbols, toks) {
                            Some(ids) => {
                                assert(forall|i: int|
                                    0 <= i < st.grid.len() ==> #[trigger] st2.grid[i]
                                        == st.grid[i]);
                                assert(forall|i: int|
                                    st.grid.len() <= i < st2.grid.len()
                                        ==> #[trigger] st2.grid[i] == ids[i - st.grid.len()]);
                            },
                            None => {},
                        }
                    },
                    Err(_) => {},
                }
            },
            Section::Starts => {},
            Section::Done => {},
        }
    }
}

/// The fold of the line rules preserves the parser-state invariants.
pub proof fn lemma_fold_wf(st: StateG, lines: Seq<Seq<u8>>)
    requires
        state_wf(st),
    ensures
        fold_lines(st, lines) matches Ok(st2) ==> state_wf(st2),
    decreases lines.len(),
{
    if lines.len() > 0 {
        lemma_step_wf(st, lines[0]);
        match step(st, lines[0]) {
            Ok(st2) => {
                lemma_fold_wf(st2, lines.drop_first());
            },
            Err(_) => {},
        }
    }
}

/// Every level the parser accepts is well formed: the grid covers the
/// declared dimensions with ids that index the tileset, the legend symbols
/// are distinct well-formed tokens, and the name is a token other than the
/// `bg` keyword.
pub proof fn lemma_parse_level_wf(s: Seq<u8>)
    ensures
        spec_parse_level(s) matches Ok(v) ==> wf_level(v),
{
    lemma_fold_wf(init_state(), spec_lines(s));
}

/// Legend id assignment is stable: the symbol declared `i`-th always has
/// tile-type id `i`, however often map rows use or reuse it later.
pub proof fn lemma_legend_ids_stable(v: LevelV, i: int)
    requires
        wf_level(v),
        0 <= i < v.symbols.len(),
    ensures
        lookup(v.symbols, v.symbols[i]) == Some(i),
{
    lemma_lookup_found(v.symbols, v.symbols[i], i);
}

/// The flag token the serializer writes for a tile's solidity.
pub open spec fn flag_tok(solid: bool) -> Seq<u8> {
    if solid {
        seq![115u8]
    } else {
        seq![111u8]
    }
}

/// The serializer's section separator line.
pub open spec fn sep_tok() -> Seq<u8> {
    seq![61u8, 61u8, 61u8]
}

/// The tokens of the serialized metadata line: name, width, height.
pub open spec fn header_tokens(v: LevelV) -> Seq<Seq<u8>> {
    seq![
        v.name,
        crate::lex::spec_render_u16(v.width as int),
        crate::lex::spec_render_u16(v.height as int),
    ]
}

/// The tokens of the serialized legend line for tile-type id `i`.
pub open spec fn legend_tokens(v: LevelV, i: int) -> Seq<Seq<u8>> {
    seq![
        v.symbols[i],
        flag_tok(v.tileset[i].solid),
        crate::lex::spec_render_u16(v.tileset[i].sheet_region.x as int),
        crate::lex::spec_render_u16(v.tileset[i].sheet_region.y as int),
        crate::lex::spec_render_i16(v.tileset[i].sheet_region.w as int),
        crate::lex::spec_render_i16(v.tileset[i].sheet_region.h as int),
    ]
}

/// The tokens of serialized map row `r`: the symbol of each cell.
pub open spec fn row_tokens(v: LevelV, r: int) -> Seq<Seq<u8>> {
    Seq::new(v.width as nat, |c: int| v.symbols[v.grid[r * v.width + c] as int])
}

/// The serialized lines: metadata, separator, legend, separator, map rows.
/// The starts and background are not part of the grid-and-legend
/// serialization.
pub open spec fn serialize_lines(v: LevelV) -> Seq<Seq<u8>> {
    seq![crate::lex::render_tokens(header_tokens(v))] + seq![sep_tok()] + Seq::new(
        v.tileset.len(),
        |i: int| crate::lex::render_tokens(legend_tokens(v, i)),
    ) + seq![sep_tok()] + Seq::new(
        v.height as nat,
        |r: int| crate::lex::render_tokens(row_tokens(v, r)),
    )
}

/// The serialized level text.
pub open spec fn spec_serialize(v: LevelV) -> Seq<u8> {
    crate::lex::render_lines(serialize_lines(v))
}

/// A found symbol's id is its position, and nothing before it matches.
pub proof fn lemma_lookup_found(syms: Seq<Seq<u8>>, x: Seq<u8>, i: int)
    requires
        0 <= i < syms.len(),
        syms[i] == x,
        forall|k: int| 0 <= k < i ==> syms[k] != x,
    ensures
        lookup(syms, x) == Some(i),
    decreases syms.len(),
{
    if i > 0 {
        assert(syms[0] != x);
        assert(syms.drop_first()[i - 1] == syms[i]);
        assert(forall|k: int| 0 <= k < i - 1 ==> #[trigger] syms.drop_first()[k] == syms[k + 1]);
        lemma_lookup_found(syms.drop_first(), x, i - 1);
    }
}

/// A symbol that matches nothing has no id.
pub proof fn lemma_lookup_none(syms: Seq<Seq<u8>>, x: Seq<u8>)
    requires
        forall|k: int| 0 <= k < syms.len() ==> syms[k] != x,
    ensures
        lookup(syms, x) is None,
    decreases syms.len(),
{
    if syms.len() > 0 {
        assert(forall|k: int|
            0 <= k < syms.len() - 1 ==> #[trigger] syms.drop_first()[k] == syms[k + 1]);
        lemma_lookup_none(syms.drop_first(), x);
    }
}

/// A successful lookup returns a position holding the symbol.
pub proof fn lemma_lookup_in_range(syms: Seq<Seq<u8>>, x: Seq<u8>)
    ensures
        lookup(syms, x) matches Some(i) ==> 0 <= i < syms.len() && syms[i] == x,
    decreases syms.len(),
{
    if syms.len() > 0 && syms[0] != x {
        lemma_lookup_in_range(syms.drop_first(), x);
        match lookup(syms.drop_first(), x) {
            Some(j) => {
                assert(syms.drop_first()[j] == syms[j + 1]);
            },
            None => {},
        }
    }
}

/// Splitting a row at position `j`: the ids of the whole row are the ids
/// of the first `j` symbols followed by the ids of the rest.
pub proof fn lemma_row_ids_split(syms: Seq<Seq<u8>>, toks: Seq<Seq<u8>>, j: int, pre: Seq<u8>)
    requires
        0 <= j <= toks.len(),
        row_ids(syms, toks.take(j)) == Some(pre),
    ensures
        row_ids(syms, toks) == match row_ids(syms, toks.skip(j)) {
            None => None::<Seq<u8>>,
            Some(rest) => Some(pre + rest),
        },
    decreases j,
{
    if j == 0 {
        assert(toks.take(0) =~= Seq::<Seq<u8>>::empty());
        assert(pre =~= Seq::<u8>::empty());
        assert(toks.skip(0) =~= toks);
        match row_ids(syms, toks) {
            None => {},
            Some(rest) => {
                assert(pre + rest =~= rest);
            },
        }
    } else {
        let t0 = toks.take(j);
        assert(t0[0] == toks[0]);
        assert(t0.drop_first() =~= toks.drop_first().take(j - 1));
        match lookup(syms, toks[0]) {
            None => {
                assert(row_ids(syms, toks.take(j)) is None);
            },
            Some(i) => {
                let sub = row_ids(syms, toks.drop_first().take(j - 1));
                match sub {
                    None => {
                        assert(row_ids(syms, toks.take(j)) is None);
                    },
                    Some(pre1) => {
                        assert(pre == seq![i as u8] + pre1);
                        lemma_row_ids_split(syms, toks.drop_first(), j - 1, pre1);
                        assert(toks.drop_first().skip(j - 1) =~= toks.skip(j));
                        match row_ids(syms, toks.skip(j)) {
                            None => {},
                            Some(rest) => {
                                assert((seq![i as u8] + pre1) + rest =~= seq![i as u8] + (pre1
                                    + rest));
                            },
                        }
                    },
                }
            },
        }
    }
}

/// Copies a byte vector.
fn clone_bytes(v: &Vec<u8>) -> (r: Vec<u8>)
    ensures
        r@ == v@,
{
    let mut r: Vec<u8> = Vec::new();
    let mut i: usize = 0;
    while i < v.len()
        invariant
            i <= v@.len(),
            r@ == v@.take(i as int),
        decreases v@.len() - i,
    {
        r.push(v[i]);
        proof {
            assert(v@.take(i + 1) =~= v@.take(i as int).push(v@[i as int]));
        }
        i = i + 1;
    }
    proof {
        assert(v@.take(v@.len() as int) =~= v@);
    }
    r
}

/// Whether two byte vectors hold the same bytes.
fn bytes_eq(a: &Vec<u8>, b: &Vec<u8>) -> (r: bool)
    ensures
        r == (a@ == b@),
{
    if a.len() != b.len() {
        return false;
    }
    let mut i: usize = 0;
    while i < a.len()
        invariant
            i <= a@.len(),
            a@.len() == b@.len(),
            forall|k: int| 0 <= k < i ==> a@[k] == b@[k],
        decreases a@.len() - i,
    {
        if a[i] != b[i] {
            return false;
        }
        i = i + 1;
    }
    proof {
        assert(a@ =~= b@);
    }
    true
}

/// Whether the token is the metadata keyword `bg`.
fn is_bg_token(tok: &Vec<u8>) -> (r: bool)
    ensures
        r == (tok@ == tok_bg()),
{
    let r = tok.len() == 2 && tok[0] == 98 && tok[1] == 103;
    proof {
        if r {
            assert(tok@ =~= tok_bg());
        } else {
            if tok@ == tok_bg() {
                assert(tok@.len() == 2 && tok@[0] == 98 && tok@[1] == 103);
            }
        }
    }
    r
}

/// The legend flag a token declares, if any.
fn parse_flag(tok: &Vec<u8>) -> (r: Option<bool>)
    ensures
        r == spec_flag(tok@),
{
    if tok.len() != 1 {
        proof {
            if tok@ == seq![115u8] || tok@ == seq![83u8] || tok@ == seq![111u8] || tok@
                == seq![79u8] {
                assert(tok@.len() == 1);
            }
        }
        return None;
    }
    let b = tok[0];
    proof {
        assert(tok@ =~= seq![tok@[0]]);
    }
    if b == 115 || b == 83 {
        Some(true)
    } else if b == 111 || b == 79 {
        Some(false)
    } else {
        proof {
            assert(tok@[0] == b);
        }
        None
    }
}

/// The entity type a starts token names, if any.
fn parse_entity(tok: &Vec<u8>) -> (r: Option<EntityType>)
    ensures
        tok@ == tok_snake() ==> r == Some(EntityType::Snake),
        tok@ != tok_snake() && tok@ == tok_apple() ==> r == Some(EntityType::Food),
        tok@ != tok_snake() && tok@ != tok_apple() ==> r is None,
{
    if tok.len() != 5 {
        proof {
            if tok@ == tok_snake() || tok@ == tok_apple() {
                assert(tok@.len() == 5);
            }
        }
        return None;
    }
    if tok[0] == 115 && tok[1] == 110 && tok[2] == 97 && tok[3] == 107 && tok[4] == 101 {
        proof {
            assert(tok@ =~= tok_snake());
        }
        Some(EntityType::Snake)
    } else if tok[0] == 97 && tok[1] == 112 && tok[2] == 112 && tok[3] == 108 && tok[4] == 101 {
        proof {
            assert(tok@ =~= tok_apple());
            if tok@ == tok_snake() {
                assert(tok@[0] == 115);
            }
        }
        Some(EntityType::Food)
    } else {
        proof {
            if tok@ == tok_snake() {
                assert(tok@[0] == 115 && tok@[1] == 110 && tok@[2] == 97 && tok@[3] == 107
                    && tok@[4] == 101);
            }
            if tok@ == tok_apple() {
                assert(tok@[0] == 97 && tok@[1] == 112 && tok@[2] == 112 && tok@[3] == 108
                    && tok@[4] == 101);
            }
        }
        None
    }
}

/// The section a separator line advances to.
fn advance_section(s: Section) -> (r: Section)
    ensures
        r == next_section(s),
{
    match s {
        Section::Metadata => Section::Legend,
        Section::Legend => Section::MapRows,
        Section::MapRows => Section::Starts,
        Section::Starts => Section::Done,
        Section::Done => Section::Done,
    }
}

/// The parser's working state while the lines are consumed.
struct ParseState {
    section: Section,
    name: Option<Vec<u8>>,
    bg: Option<SheetRegion>,
    dims: Option<(u16, u16)>,
    symbols: Vec<Vec<u8>>,
    tiles: Vec<TileData>,
    grid: Vec<u8>,
    starts: Vec<(EntityType, Vec2)>,
}

impl View for ParseState {
    type V = StateG;

    closed spec fn view(&self) -> StateG {
        StateG {
            section: self.section,
            name: match self.name {
                Some(n) => Some(n@),
                None => None,
            },
            bg: self.bg,
            dims: self.dims,
            symbols: views(self.symbols@),
            tiles: self.tiles@,
            grid: self.grid@,
            starts: self.starts@,
        }
    }
}

impl ParseState {
    /// Every declared symbol has a tile entry, and a fresh id fits in `u8`.
    spec fn wf(self) -> bool {
        self.symbols@.len() <= 256 && self.tiles@.len() == self.symbols@.len()
    }

    fn new() -> (r: ParseState)
        ensures
            r@ == init_state(),
            r.wf(),
    {
        let r = ParseState {
            section: Section::Metadata,
            name: None,
            bg: None,
            dims: None,
            symbols: Vec::new(),
            tiles: Vec::new(),
            grid: Vec::new(),
            starts: Vec::new(),
        };
        proof {
            assert(views(r.symbols@) =~= Seq::<Seq<u8>>::empty());
            assert(r@ == init_state());
        }
        r
    }
}

/// The id of `sym` in the declared symbols, scanning in declaration order.
fn lookup_symbol(symbols: &Vec<Vec<u8>>, sym: &Vec<u8>) -> (r: Option<usize>)
    ensures
        match r {
            Some(i) => i < symbols@.len() && lookup(views(symbols@), sym@) == Some(i as int),
            None => lookup(views(symbols@), sym@) is None,
        },
{
    let ghost sv = views(symbols@);
    let mut i: usize = 0;
    while i < symbols.len()
        invariant
            i <= symbols@.len(),
            sv == views(symbols@),
            forall|k: int| 0 <= k < i ==> #[trigger] sv[k] != sym@,
        decreases symbols@.len() - i,
    {
        if bytes_eq(&symbols[i], sym) {
            proof {
                assert(sv[i as int] == sym@);
                lemma_lookup_found(sv, sym@, i as int);
            }
            return Some(i);
        }
        proof {
            assert(sv[i as int] == symbols@[i as int]@);
        }
        i = i + 1;
    }
    proof {
        lemma_lookup_none(sv, sym@);
    }
    None
}

/// Handles one metadata line.
fn do_metadata(st: &mut ParseState, toks: &Vec<Vec<u8>>, Ghost(tv): Ghost<Seq<Seq<u8>>>) -> (r:
    Result<(), LevelError>)
    requires
        old(st).wf(),
        tv.len() == toks@.len(),
        forall|i: int| 0 <= i < toks@.len() ==> #[trigger] toks@[i]@ == tv[i],
    ensures
        match r {
            Ok(_) => step_metadata(old(st)@, tv) == Ok::<StateG, LevelError>(final(st)@) && final(st).wf(),
            Err(e) => step_metadata(old(st)@, tv) == Err::<StateG, LevelError>(e),
        },
{
    if toks.len() == 0 {
        return Err(LevelError::MissingToken);
    }
    if is_bg_token(&toks[0]) {
        if st.bg.is_some() {
            return Err(LevelError::DuplicateBg);
        }
        if toks.len() < 5 {
            return Err(LevelError::MissingToken);
        }
        match (parse_u16(&toks[1]), parse_u16(&toks[2]), parse_i16(&toks[3]), parse_i16(
            &toks[4],
        )) {
            (Some(x), Some(y), Some(w), Some(h)) => {
                st.bg = Some(SheetRegion { x, y, w, h });
                Ok(())
            },
            _ => Err(LevelError::BadNumber),
        }
    } else {
        if st.name.is_some() {
            return Err(LevelError::DuplicateName);
        }
        if toks.len() < 3 {
            return Err(LevelError::MissingToken);
        }
        match (parse_u16(&toks[1]), parse_u16(&toks[2])) {
            (Some(w), Some(h)) => {
                st.name = Some(clone_bytes(&toks[0]));
                st.dims = Some((w, h));
                Ok(())
            },
            _ => Err(LevelError::BadNumber),
        }
    }
}

/// Handles one legend line.
fn do_legend(st: &mut ParseState, toks: &Vec<Vec<u8>>, Ghost(tv): Ghost<Seq<Seq<u8>>>) -> (r:
    Result<(), LevelError>)
    requires
        old(st).wf(),
        tv.len() == toks@.len(),
        forall|i: int| 0 <= i < toks@.len() ==> #[trigger] toks@[i]@ == tv[i],
    ensures
        match r {
            Ok(_) => step_legend(old(st)@, tv) == Ok::<StateG, LevelError>(final(st)@) && final(st).wf(),
            Err(e) => step_legend(old(st)@, tv) == Err::<StateG, LevelError>(e),
        },
{
    if toks.len() == 0 {
        return Err(LevelError::MissingToken);
    }
    if lookup_symbol(&st.symbols, &toks[0]).is_some() {
        return Err(LevelError::DuplicateSymbol);
    }
    if toks.len() < 6 {
        return Err(LevelError::MissingToken);
    }
    let flag = parse_flag(&toks[1]);
    if flag.is_none() {
        return Err(LevelError::BadFlag);
    }
    let solid = flag.unwrap();
    match (parse_u16(&toks[2]), parse_u16(&toks[3]), parse_i16(&toks[4]), parse_i16(&toks[5])) {
        (Some(x), Some(y), Some(w), Some(h)) => {
            if st.symbols.len() >= 256 {
                return Err(LevelError::TooManyTiles);
            }
            let ghost before = st.symbols@;
            st.symbols.push(clone_bytes(&toks[0]));
            st.tiles.push(TileData { solid, sheet_region: SheetRegion { x, y, w, h } });
            proof {
                assert(views(st.symbols@) =~= views(before).push(tv[0]));
            }
            Ok(())
        },
        _ => Err(LevelError::BadNumber),
    }
}

/// Handles one map row.
fn do_map(st: &mut ParseState, toks: &Vec<Vec<u8>>, Ghost(tv): Ghost<Seq<Seq<u8>>>) -> (r: Result<
    (),
    LevelError,
>)
    requires
        old(st).wf(),
        tv.len() == toks@.len(),
        forall|i: int| 0 <= i < toks@.len() ==> #[trigger] toks@[i]@ == tv[i],
    ensures
        match r {
            Ok(_) => step_map(old(st)@, tv) == Ok::<StateG, LevelError>(final(st)@) && final(st).wf(),
            Err(e) => step_map(old(st)@, tv) == Err::<StateG, LevelError>(e),
        },
{
    let ghost sv = views(st.symbols@);
    let mut ids: Vec<u8> = Vec::new();
    let mut j: usize = 0;
    proof {
        assert(tv.take(0) =~= Seq::<Seq<u8>>::empty());
    }
    while j < toks.len()
        invariant
            j <= toks@.len(),
            st.wf(),
            st == old(st),
            sv == views(st.symbols@),
            tv.len() == toks@.len(),
            forall|i: int| 0 <= i < toks@.len() ==> #[trigger] toks@[i]@ == tv[i],
            row_ids(sv, tv.take(j as int)) == Some(ids@),
        decreases toks@.len() - j,
    {
        match lookup_symbol(&st.symbols, &toks[j]) {
            None => {
                proof {
                    assert(tv.skip(j as int)[0] == tv[j as int]);
                    assert(row_ids(sv, tv.skip(j as int)) is None);
                    lemma_row_ids_split(sv, tv, j as int, ids@);
                }
                return Err(LevelError::UnknownSymbol);
            },
            Some(i) => {
                let ghost ids_before = ids@;
                ids.push(i as u8);
                proof {
                    let t1 = tv.take(j + 1);
                    assert(t1.take(j as int) =~= tv.take(j as int));
                    lemma_row_ids_split(sv, t1, j as int, ids_before);
                    assert(t1.skip(j as int) =~= seq![tv[j as int]]);
                    assert(seq![tv[j as int]].drop_first() =~= Seq::<Seq<u8>>::empty());
                    assert(row_ids(sv, Seq::<Seq<u8>>::empty()) == Some(Seq::<u8>::empty()));
                    assert(lookup(sv, tv[j as int]) == Some(i as int));
                    assert(seq![tv[j as int]][0] == tv[j as int]);
                    assert(seq![(i as int) as u8] + Seq::<u8>::empty() =~= seq![(i as int) as u8]);
                    assert(row_ids(sv, seq![tv[j as int]]) == Some(seq![(i as int) as u8]));
                    assert(ids_before + seq![(i as int) as u8] =~= ids@);
                }
                j = j + 1;
            },
        }
    }
    proof {
        assert(tv.take(tv.len() as int) =~= tv);
    }
    match st.dims {
        None => Err(LevelError::DimsNotSet),
        Some(d) => {
            if toks.len() != d.0 as usize {
                Err(LevelError::WrongRowLength)
            } else {
                let ghost grid_before = st.grid@;
                let mut ids = ids;
                st.grid.append(&mut ids);
                Ok(())
            }
        },
    }
}

/// Handles one starts line.
fn do_starts(st: &mut ParseState, toks: &Vec<Vec<u8>>, Ghost(tv): Ghost<Seq<Seq<u8>>>) -> (r:
    Result<(), LevelError>)
    requires
        old(st).wf(),
        tv.len() == toks@.len(),
        forall|i: int| 0 <= i < toks@.len() ==> #[trigger] toks@[i]@ == tv[i],
    ensures
        match r {
            Ok(_) => step_starts(old(st)@, tv) == Ok::<StateG, LevelError>(final(st)@) && final(st).wf(),
            Err(e) => step_starts(old(st)@, tv) == Err::<StateG, LevelError>(e),
        },
{
    if toks.len() == 0 {
        return Err(LevelError::MissingToken);
    }
    let et = parse_entity(&toks[0]);
    if et.is_none() {
        return Err(LevelError::UnknownEntity);
    }
    let e = et.unwrap();
    if toks.len() < 3 {
        return Err(LevelError::MissingToken);
    }
    match (parse_u16(&toks[1]), parse_u16(&toks[2])) {
        (Some(x), Some(y)) => match st.dims {
            None => Err(LevelError::DimsNotSet),
            Some(d) => {
                if y > d.1 {
                    Err(LevelError::StartOutOfRange)
                } else {
                    let wx: i32 = x as i32 * TILE_SZ as i32 + (TILE_SZ / 2) as i32;
                    let wy: i32 = (d.1 - y) as i32 * TILE_SZ as i32 - (TILE_SZ / 2) as i32;
                    st.starts.push((e, Vec2 { x: wx, y: wy }));
                    proof {
                        assert(Vec2 { x: wx, y: wy } == spec_world_start(d.1, x, y));
                    }
                    Ok(())
                }
            },
        },
        _ => Err(LevelError::BadNumber),
    }
}

/// Handles one line of level text.
fn do_line(st: &mut ParseState, line: &Vec<u8>) -> (r: Result<(), LevelError>)
    requires
        old(st).wf(),
    ensures
        match r {
            Ok(_) => step(old(st)@, line@) == Ok::<StateG, LevelError>(final(st)@) && final(st).wf(),
            Err(e) => step(old(st)@, line@) == Err::<StateG, LevelError>(e),
        },
{
    if line.len() == 0 {
        return Ok(());
    }
    if sep_line(line) {
        st.section = advance_section(st.section);
        return Ok(());
    }
    let toks = tokenize(line);
    let ghost tv = spec_tokens(line@);
    match st.section {
        Section::Metadata => do_metadata(st, &toks, Ghost(tv)),
        Section::Legend => do_legend(st, &toks, Ghost(tv)),
        Section::MapRows => do_map(st, &toks, Ghost(tv)),
        Section::Starts => do_starts(st, &toks, Ghost(tv)),
        Section::Done => Err(LevelError::ContentAfterEnd),
    }
}

/// The serialized metadata tokens are well formed.
pub proof fn lemma_header_tokens_wf(v: LevelV)
    requires
        wf_level(v),
    ensures
        forall|k: int|
            0 <= k < header_tokens(v).len() ==> crate::lex::token_wf(
                #[trigger] header_tokens(v)[k],
            ),
{
    crate::lex::lemma_render_u16_token_wf(v.width as int);
    crate::lex::lemma_render_u16_token_wf(v.height as int);
    assert(header_tokens(v)[0] == v.name);
    assert(header_tokens(v)[1] == crate::lex::spec_render_u16(v.width as int));
    assert(header_tokens(v)[2] == crate::lex::spec_render_u16(v.height as int));
}

/// The serialized legend tokens are well formed.
pub proof fn lemma_legend_tokens_wf(v: LevelV, i: int)
    requires
        wf_level(v),
        0 <= i < v.tileset.len(),
    ensures
        forall|k: int|
            0 <= k < legend_tokens(v, i).len() ==> crate::lex::token_wf(
                #[trigger] legend_tokens(v, i)[k],
            ),
{
    let t = legend_tokens(v, i);
    crate::lex::lemma_render_u16_token_wf(v.tileset[i].sheet_region.x as int);
    crate::lex::lemma_render_u16_token_wf(v.tileset[i].sheet_region.y as int);
    crate::lex::lemma_render_i16_token_wf(v.tileset[i].sheet_region.w as int);
    crate::lex::lemma_render_i16_token_wf(v.tileset[i].sheet_region.h as int);
    assert(t[0] == v.symbols[i]);
    assert(crate::lex::token_wf(t[1])) by {
        assert(t[1] == flag_tok(v.tileset[i].solid));
        assert(flag_tok(v.tileset[i].solid).len() == 1);
        assert(!crate::lex::is_ws(flag_tok(v.tileset[i].solid)[0]));
    }
    assert(t[2] == crate::lex::spec_render_u16(v.tileset[i].sheet_region.x as int));
    assert(t[3] == crate::lex::spec_render_u16(v.tileset[i].sheet_region.y as int));
    assert(t[4] == crate::lex::spec_render_i16(v.tileset[i].sheet_region.w as int));
    assert(t[5] == crate::lex::spec_render_i16(v.tileset[i].sheet_region.h as int));
}

/// The serialized map-row tokens are well formed.
pub proof fn lemma_row_tokens_wf(v: LevelV, r: int)
    requires
        wf_level(v),
        0 <= r < v.height,
    ensures
        forall|k: int|
            0 <= k < row_tokens(v, r).len() ==> crate::lex::token_wf(
                #[trigger] row_tokens(v, r)[k],
            ),
{
    assert forall|k: int| 0 <= k < row_tokens(v, r).len() implies crate::lex::token_wf(
        #[trigger] row_tokens(v, r)[k],
    ) by {
        assert(0 <= r * v.width + k < v.width * v.height) by (nonlinear_arith)
            requires
                0 <= k < v.width,
                0 <= r < v.height,
        ;
        assert(row_tokens(v, r)[k] == v.symbols[v.grid[r * v.width + k] as int]);
    }
}

/// The serialized lines hold no line feed or carriage return, so splitting
/// the serialized text recovers exactly these lines.
pub proof fn lemma_serialized_lines(v: LevelV)
    requires
        wf_level(v),
    ensures
        spec_lines(spec_serialize(v)) == serialize_lines(v),
{
    let lines = serialize_lines(v);
    let n = v.tileset.len() as int;
    assert forall|i: int, j: int|
        0 <= i < lines.len() && 0 <= j < lines[i].len() implies #[trigger] lines[i][j] != 10
        && lines[i][j] != 13 by {
        if i == 0 {
            lemma_header_tokens_wf(v);
            crate::lex::lemma_render_tokens_no_nl(header_tokens(v));
            assert(lines[0] == crate::lex::render_tokens(header_tokens(v)));
        } else if i == 1 || i == 2 + n {
            assert(lines[i] == sep_tok());
            assert(sep_tok()[j] == 61);
        } else if 2 <= i < 2 + n {
            lemma_legend_tokens_wf(v, i - 2);
            crate::lex::lemma_render_tokens_no_nl(legend_tokens(v, i - 2));
            assert(lines[i] == crate::lex::render_tokens(legend_tokens(v, i - 2)));
        } else {
            lemma_row_tokens_wf(v, i - 3 - n);
            crate::lex::lemma_render_tokens_no_nl(row_tokens(v, i - 3 - n));
            assert(lines[i] == crate::lex::render_tokens(row_tokens(v, i - 3 - n)));
        }
    }
    crate::lex::lemma_lines_of_render(lines);
}

/// The fold of the line rules over a concatenation: the first part runs
/// first, and its error, if any, decides.
pub proof fn lemma_fold_append(st: StateG, l1: Seq<Seq<u8>>, l2: Seq<Seq<u8>>)
    ensures
        fold_lines(st, l1 + l2) == match fold_lines(st, l1) {
            Err(e) => Err::<StateG, LevelError>(e),
            Ok(m) => fold_lines(m, l2),
        },
    decreases l1.len(),
{
    if l1.len() == 0 {
        assert(l1 + l2 =~= l2);
    } else {
        assert((l1 + l2)[0] == l1[0]);
        assert((l1 + l2).drop_first() =~= l1.drop_first() + l2);
        match step(st, l1[0]) {
            Err(_) => {},
            Ok(st2) => {
                lemma_fold_append(st2, l1.drop_first(), l2);
            },
        }
    }
}

/// The parser state after the serialized metadata line.
pub open spec fn st_header(v: LevelV) -> StateG {
    StateG {
        section: Section::Metadata,
        name: Some(v.name),
        bg: None,
        dims: Some((v.width, v.height)),
        symbols: Seq::empty(),
        tiles: Seq::empty(),
        grid: Seq::empty(),
        starts: Seq::empty(),
    }
}

/// The parser state after `k` serialized legend lines.
pub open spec fn st_legend(v: LevelV, k: int) -> StateG {
    StateG {
        section: Section::Legend,
        name: Some(v.name),
        bg: None,
        dims: Some((v.width, v.height)),
        symbols: v.symbols.take(k),
        tiles: v.tileset.take(k),
        grid: Seq::empty(),
        starts: Seq::empty(),
    }
}

/// The parser state after `r` serialized map rows.
pub open spec fn st_map(v: LevelV, r: int) -> StateG {
    StateG {
        section: Section::MapRows,
        name: Some(v.name),
        bg: None,
        dims: Some((v.width, v.height)),
        symbols: v.symbols,
        tiles: v.tileset,
        grid: v.grid.take(r * v.width),
        starts: Seq::empty(),
    }
}

/// A line of well-formed tokens is nonempty and starts with the bytes of
/// its first token.
proof fn lemma_render_tokens_head(toks: Seq<Seq<u8>>)
    requires
        toks.len() >= 1,
        forall|k: int| 0 <= k < toks.len() ==> crate::lex::token_wf(#[trigger] toks[k]),
    ensures
        crate::lex::render_tokens(toks).len() > 0,
        toks.len() >= 2 ==> crate::lex::render_tokens(toks)[toks[0].len() as int] == 32,
        forall|j: int|
            0 <= j < toks[0].len() ==> #[trigger] crate::lex::render_tokens(toks)[j] == toks[0][j],
{
    let r = crate::lex::render_tokens(toks);
    if toks.len() == 1 {
        assert(r == toks[0]);
        assert(crate::lex::token_wf(toks[0]));
    } else {
        let head = toks[0] + seq![32u8];
        assert(r == head + crate::lex::render_tokens(toks.drop_first()));
        assert(r[toks[0].len() as int] == head[toks[0].len() as int]);
        assert(forall|j: int| 0 <= j < toks[0].len() ==> #[trigger] r[j] == toks[0][j]);
    }
}

/// A line of well-formed tokens with at least two tokens, or whose first
/// token has a byte other than `=`, is no separator.
proof fn lemma_render_tokens_not_sep(toks: Seq<Seq<u8>>)
    requires
        toks.len() >= 1,
        forall|k: int| 0 <= k < toks.len() ==> crate::lex::token_wf(#[trigger] toks[k]),
        toks.len() >= 2 || !is_sep_line(toks[0]),
    ensures
        !is_sep_line(crate::lex::render_tokens(toks)),
{
    let r = crate::lex::render_tokens(toks);
    lemma_render_tokens_head(toks);
    if toks.len() >= 2 {
        assert(r[toks[0].len() as int] == 32);
    } else {
        assert(r == toks[0]);
    }
}

/// The serialized metadata line parses back to the declared name and
/// dimensions.
proof fn lemma_header_step(v: LevelV)
    requires
        wf_level(v),
    ensures
        step(init_state(), crate::lex::render_tokens(header_tokens(v))) == Ok::<
            StateG,
            LevelError,
        >(st_header(v)),
{
    let toks = header_tokens(v);
    let line = crate::lex::render_tokens(toks);
    lemma_header_tokens_wf(v);
    lemma_render_tokens_head(toks);
    lemma_render_tokens_not_sep(toks);
    crate::lex::lemma_tokens_of_render(toks);
    assert(spec_tokens(line) == toks);
    assert(toks[0] == v.name);
    crate::lex::lemma_parse_render_u16(v.width as int);
    crate::lex::lemma_parse_render_u16(v.height as int);
    assert(step_metadata(init_state(), toks) == Ok::<StateG, LevelError>(st_header(v)));
}

/// A separator line advances the section and changes nothing else.
proof fn lemma_sep_step(st: StateG)
    ensures
        step(st, sep_tok()) == Ok::<StateG, LevelError>(
            StateG { section: next_section(st.section), ..st },
        ),
{
    assert(is_sep_line(sep_tok())) by {
        assert(forall|i: int| 0 <= i < sep_tok().len() ==> #[trigger] sep_tok()[i] == 61);
    }
}

/// The `k`-th serialized legend line declares the `k`-th tile type.
proof fn lemma_legend_step(v: LevelV, k: int)
    requires
        wf_level(v),
        0 <= k < v.tileset.len(),
    ensures
        step(st_legend(v, k), crate::lex::render_tokens(legend_tokens(v, k))) == Ok::<
            StateG,
            LevelError,
        >(st_legend(v, k + 1)),
{
    let toks = legend_tokens(v, k);
    let line = crate::lex::render_tokens(toks);
    let st = st_legend(v, k);
    lemma_legend_tokens_wf(v, k);
    lemma_render_tokens_head(toks);
    lemma_render_tokens_not_sep(toks);
    crate::lex::lemma_tokens_of_render(toks);
    assert(spec_tokens(line) == toks);
    assert(toks[0] == v.symbols[k]);
    assert(lookup(st.symbols, toks[0]) is None) by {
        assert(forall|j: int| 0 <= j < k ==> #[trigger] st.symbols[j] == v.symbols[j]);
        assert(forall|j: int| 0 <= j < k ==> #[trigger] st.symbols[j] != v.symbols[k]);
        lemma_lookup_none(st.symbols, v.symbols[k]);
    }
    let td = v.tileset[k];
    crate::lex::lemma_parse_render_u16(td.sheet_region.x as int);
    crate::lex::lemma_parse_render_u16(td.sheet_region.y as int);
    crate::lex::lemma_parse_render_i16(td.sheet_region.w as int);
    crate::lex::lemma_parse_render_i16(td.sheet_region.h as int);
    assert(spec_flag(toks[1]) == Some(td.solid));
    assert(st.symbols.len() < 256);
    match step_legend(st, toks) {
        Ok(st2) => {
            assert(st2.symbols =~= v.symbols.take(k + 1));
            assert(st2.tiles[k] == TileData { solid: td.solid, sheet_region: td.sheet_region });
            assert(td == TileData { solid: td.solid, sheet_region: td.sheet_region });
            assert(st2.tiles =~= v.tileset.take(k + 1));
            assert(st2 == st_legend(v, k + 1));
        },
        Err(_) => {
            assert(false);
        },
    }
}

/// Looking the symbols of known cells back up recovers the cells.
proof fn lemma_row_ids_inverse(syms: Seq<Seq<u8>>, cells: Seq<u8>)
    requires
        syms.len() <= 256,
        forall|k: int| 0 <= k < cells.len() ==> (#[trigger] cells[k]) < syms.len(),
        forall|i: int, j: int|
            0 <= i < syms.len() && 0 <= j < syms.len() && i != j ==> #[trigger] syms[i]
                != #[trigger] syms[j],
    ensures
        row_ids(syms, Seq::new(cells.len(), |c: int| syms[cells[c] as int])) == Some(cells),
    decreases cells.len(),
{
    let toks = Seq::new(cells.len(), |c: int| syms[cells[c] as int]);
    if cells.len() == 0 {
        assert(toks.len() == 0);
        assert(Seq::<u8>::empty() =~= cells);
    } else {
        let id = cells[0] as int;
        assert(toks[0] == syms[id]);
        assert(lookup(syms, syms[id]) == Some(id)) by {
            assert(forall|j: int| 0 <= j < id ==> #[trigger] syms[j] != syms[id]);
            lemma_lookup_found(syms, syms[id], id);
        }
        assert(toks.drop_first() =~= Seq::new(
            cells.drop_first().len(),
            |c: int| syms[cells.drop_first()[c] as int],
        )) by {
            assert(forall|c: int|
                0 <= c < cells.len() - 1 ==> #[trigger] cells.drop_first()[c] == cells[c + 1]);
        }
        assert(forall|k: int|
            0 <= k < cells.drop_first().len() ==> (#[trigger] cells.drop_first()[k])
                < syms.len());
        lemma_row_ids_inverse(syms, cells.drop_first());
        assert(seq![(id as u8)] + cells.drop_first() =~= cells);
    }
}

/// The `r`-th serialized map row appends the `r`-th grid row.
proof fn lemma_row_step(v: LevelV, r: int)
    requires
        serializable(v),
        0 <= r < v.height,
    ensures
        step(st_map(v, r), crate::lex::render_tokens(row_tokens(v, r))) == Ok::<
            StateG,
            LevelError,
        >(st_map(v, r + 1)),
{
    let toks = row_tokens(v, r);
    let line = crate::lex::render_tokens(toks);
    let st = st_map(v, r);
    let w = v.width as int;
    assert(0 <= r * w && (r + 1) * w <= v.grid.len() && (r + 1) * w == r * w + w)
        by (nonlinear_arith)
        requires
            0 <= r < v.height,
            0 <= w == v.width,
            v.grid.len() == v.width * v.height,
    ;
    lemma_row_tokens_wf(v, r);
    if v.width == 0 {
        assert(toks.len() == 0);
        assert(line.len() == 0);
        assert(step(st, line) == Ok::<StateG, LevelError>(st));
        assert(st.grid =~= st_map(v, r + 1).grid);
        assert(st == st_map(v, r + 1));
    } else {
        lemma_render_tokens_head(toks);
        assert(!is_sep_line(line)) by {
            if v.width == 1 {
                assert(line == toks[0]);
                assert(toks[0] == v.symbols[v.grid[r * w] as int]);
                assert(!is_sep_line(v.symbols[v.grid[r * w] as int]));
            } else {
                lemma_render_tokens_not_sep(toks);
            }
        }
        crate::lex::lemma_tokens_of_render(toks);
        assert(spec_tokens(line) == toks);
        let cells = v.grid.subrange(r * w, r * w + w);
        assert(toks =~= Seq::new(cells.len(), |c: int| v.symbols[cells[c] as int]));
        assert(forall|k: int|
            0 <= k < cells.len() ==> (#[trigger] cells[k]) < v.symbols.len());
        lemma_row_ids_inverse(v.symbols, cells);
        assert(row_ids(st.symbols, toks) == Some(cells));
        match step_map(st, toks) {
            Ok(st2) => {
                assert(st2.grid == v.grid.take(r * w) + cells);
                assert(v.grid.take(r * w) + cells =~= v.grid.take(r * w + w));
                assert(st2 == st_map(v, r + 1));
            },
            Err(_) => {
                assert(false);
            },
        }
    }
}

/// Folding the serialized legend lines declares the whole tileset.
proof fn lemma_legend_fold(v: LevelV, k: int)
    requires
        wf_level(v),
        0 <= k <= v.tileset.len(),
    ensures
        fold_lines(
            st_legend(v, k),
            Seq::new(
                v.tileset.len(),
                |i: int| crate::lex::render_tokens(legend_tokens(v, i)),
            ).skip(k),
        ) == Ok::<StateG, LevelError>(st_legend(v, v.tileset.len() as int)),
    decreases v.tileset.len() - k,
{
    let lines = Seq::new(
        v.tileset.len(),
        |i: int| crate::lex::render_tokens(legend_tokens(v, i)),
    );
    if k == v.tileset.len() {
        assert(lines.skip(k) =~= Seq::<Seq<u8>>::empty());
    } else {
        assert(lines.skip(k)[0] == lines[k]);
        lemma_legend_step(v, k);
        assert(lines.skip(k).drop_first() =~= lines.skip(k + 1));
        lemma_legend_fold(v, k + 1);
    }
}

/// Folding the serialized map rows rebuilds the whole grid.
proof fn lemma_rows_fold(v: LevelV, r: int)
    requires
        serializable(v),
        0 <= r <= v.height,
    ensures
        fold_lines(
            st_map(v, r),
            Seq::new(
                v.height as nat,
                |i: int| crate::lex::render_tokens(row_tokens(v, i)),
            ).skip(r),
        ) == Ok::<StateG, LevelError>(st_map(v, v.height as int)),
    decreases v.height - r,
{
    let lines = Seq::new(v.height as nat, |i: int| crate::lex::render_tokens(row_tokens(v, i)));
    if r == v.height {
        assert(lines.skip(r) =~= Seq::<Seq<u8>>::empty());
    } else {
        assert(lines.skip(r)[0] == lines[r]);
        lemma_row_step(v, r);
        assert(lines.skip(r).drop_first() =~= lines.skip(r + 1));
        lemma_rows_fold(v, r + 1);
    }
}

/// What re-parsing a serialized level yields: the same name, dimensions,
/// grid, tileset and symbols; no background and no spawn points, which the
/// serializer does not write.
pub open spec fn reparsed(v: LevelV) -> LevelV {
    LevelV {
        name: v.name,
        bg: SheetRegion { x: 0, y: 0, w: 0, h: 0 },
        width: v.width,
        height: v.height,
        grid: v.grid,
        tileset: v.tileset,
        symbols: v.symbols,
        starts: Seq::empty(),
    }
}

/// Round trip: parsing a serialized level succeeds and yields an identical
/// tile grid and tileset (and name, dimensions and symbols; the spawn
/// points and background are not serialized).
pub proof fn lemma_serialize_parse_round_trip(v: LevelV)
    requires
        serializable(v),
    ensures
        spec_parse_level(spec_serialize(v)) == Ok::<LevelV, LevelError>(reparsed(v)),
{
    let n = v.tileset.len() as int;
    lemma_serialized_lines(v);
    let header = seq![crate::lex::render_tokens(header_tokens(v))];
    let sep: Seq<Seq<u8>> = seq![sep_tok()];
    let legends = Seq::new(n as nat, |i: int| crate::lex::render_tokens(legend_tokens(v, i)));
    let rows = Seq::new(v.height as nat, |r: int| crate::lex::render_tokens(row_tokens(v, r)));
    let lines = serialize_lines(v);
    assert(lines == header + sep + legends + sep + rows);
    // metadata line
    lemma_header_step(v);
    lemma_fold_append(init_state(), header, sep + legends + sep + rows);
    assert((header + sep + legends + sep + rows) =~= header + (sep + legends + sep + rows));
    assert(fold_lines(init_state(), header) == Ok::<StateG, LevelError>(st_header(v))) by {
        assert(header[0] == crate::lex::render_tokens(header_tokens(v)));
        assert(step(init_state(), header[0]) == Ok::<StateG, LevelError>(st_header(v)));
        assert(header.drop_first() =~= Seq::<Seq<u8>>::empty());
        assert(fold_lines(st_header(v), Seq::<Seq<u8>>::empty()) == Ok::<StateG, LevelError>(
            st_header(v),
        ));
    }
    // first separator
    lemma_sep_step(st_header(v));
    lemma_fold_append(st_header(v), sep, legends + sep + rows);
    assert((sep + legends + sep + rows) =~= sep + (legends + sep + rows));
    assert(fold_lines(st_header(v), sep) == Ok::<StateG, LevelError>(st_legend(v, 0))) by {
        assert(sep[0] == sep_tok());
        assert(StateG { section: Section::Legend, ..st_header(v) } == st_legend(v, 0)) by {
            assert(v.symbols.take(0) =~= Seq::<Seq<u8>>::empty());
            assert(v.tileset.take(0) =~= Seq::<TileData>::empty());
        }
        assert(step(st_header(v), sep[0]) == Ok::<StateG, LevelError>(st_legend(v, 0)));
        assert(sep.drop_first() =~= Seq::<Seq<u8>>::empty());
        assert(fold_lines(st_legend(v, 0), Seq::<Seq<u8>>::empty()) == Ok::<StateG, LevelError>(
            st_legend(v, 0),
        ));
    }
    // legend lines
    lemma_fold_append(st_legend(v, 0), legends, sep + rows);
    assert((legends + sep + rows) =~= legends + (sep + rows));
    assert(legends.skip(0) =~= legends);
    lemma_legend_fold(v, 0);
    // second separator
    lemma_sep_step(st_legend(v, n));
    lemma_fold_append(st_legend(v, n), sep, rows);
    assert(fold_lines(st_legend(v, n), sep) == Ok::<StateG, LevelError>(st_map(v, 0))) by {
        assert(sep[0] == sep_tok());
        assert(StateG { section: Section::MapRows, ..st_legend(v, n) } == st_map(v, 0)) by {
            assert(v.symbols.take(n) =~= v.symbols);
            assert(v.tileset.take(n) =~= v.tileset);
            assert(v.grid.take(0) =~= Seq::<u8>::empty());
        }
        assert(step(st_legend(v, n), sep[0]) == Ok::<StateG, LevelError>(st_map(v, 0)));
        assert(sep.drop_first() =~= Seq::<Seq<u8>>::empty());
        assert(fold_lines(st_map(v, 0), Seq::<Seq<u8>>::empty()) == Ok::<StateG, LevelError>(
            st_map(v, 0),
        ));
    }
    // map rows
    assert(rows.skip(0) =~= rows);
    lemma_rows_fold(v, 0);
    assert(fold_lines(init_state(), lines) == Ok::<StateG, LevelError>(
        st_map(v, v.height as int),
    ));
    // end-of-parse validation
    let stf = st_map(v, v.height as int);
    assert(v.height * v.width == v.width * v.height) by (nonlinear_arith);
    assert(stf.grid =~= v.grid);
    assert(finalize(stf) == Ok::<LevelV, LevelError>(reparsed(v)));
}

/// Round trip from text: a parsed level, written back out and parsed
/// again, yields the same grid and tileset.  On a map one tile wide the
/// symbols used in the grid must not consist solely of `=` bytes.
pub proof fn lemma_parse_serialize_parse(s: Seq<u8>, v: LevelV)
    requires
        spec_parse_level(s) == Ok::<LevelV, LevelError>(v),
        v.width == 1 ==> forall|i: int|
            0 <= i < v.grid.len() ==> !is_sep_line(#[trigger] v.symbols[v.grid[i] as int]),
    ensures
        spec_parse_level(spec_serialize(v)) == Ok::<LevelV, LevelError>(reparsed(v)),
        reparsed(v).grid == v.grid,
        reparsed(v).tileset == v.tileset,
{
    lemma_parse_level_wf(s);
    lemma_serialize_parse_round_trip(v);
}

/// Appends the bytes of `bytes` to `out`.
fn push_bytes(out: &mut Vec<u8>, bytes: &Vec<u8>)
    ensures
        final(out)@ == old(out)@ + bytes@,
{
    let mut i: usize = 0;
    while i < bytes.len()
        invariant
            i <= bytes@.len(),
            out@ == old(out)@ + bytes@.take(i as int),
        decreases bytes@.len() - i,
    {
        out.push(bytes[i]);
        proof {
            assert(old(out)@ + bytes@.take(i + 1) =~= (old(out)@ + bytes@.take(i as int)).push(
                bytes@[i as int],
            ));
        }
        i = i + 1;
    }
    proof {
        assert(bytes@.take(bytes@.len() as int) =~= bytes@);
        assert(old(out)@ + bytes@.take(0) =~= old(out)@);
    }
}

/// Appends line `k` of the serialization, followed by a line feed.
fn push_line(out: &mut Vec<u8>, line: &Vec<u8>, Ghost(lines): Ghost<Seq<Seq<u8>>>, Ghost(k): Ghost<
    int,
>)
    requires
        0 <= k < lines.len(),
        lines[k] == line@,
        old(out)@ == crate::lex::render_lines(lines.take(k)),
    ensures
        final(out)@ == crate::lex::render_lines(lines.take(k + 1)),
{
    push_bytes(out, line);
    out.push(10);
    proof {
        crate::lex::lemma_render_lines_push(lines.take(k), line@);
        assert(lines.take(k + 1) =~= lines.take(k).push(line@));
        assert((crate::lex::render_lines(lines.take(k)) + line@ + seq![10u8]) =~= (
        crate::lex::render_lines(lines.take(k)) + line@).push(10u8));
    }
}

/// One line of tokens joined by single spaces.
fn render_token_line(toks: &Vec<Vec<u8>>) -> (r: Vec<u8>)
    ensures
        r@ == crate::lex::render_tokens(views(toks@)),
{
    let ghost tv = views(toks@);
    let mut out: Vec<u8> = Vec::new();
    if toks.len() == 0 {
        proof {
            assert(out@ =~= crate::lex::render_tokens(tv));
        }
        return out;
    }
    push_bytes(&mut out, &toks[0]);
    proof {
        assert(tv.take(1) =~= seq![tv[0]]);
        assert(crate::lex::render_tokens(seq![tv[0]]) == tv[0]);
        assert(Seq::<u8>::empty() + toks@[0]@ =~= tv[0]);
    }
    let mut i: usize = 1;
    while i < toks.len()
        invariant
            1 <= i <= toks@.len(),
            tv == views(toks@),
            out@ == crate::lex::render_tokens(tv.take(i as int)),
        decreases toks@.len() - i,
    {
        out.push(32);
        push_bytes(&mut out, &toks[i]);
        proof {
            crate::lex::lemma_render_tokens_push(tv.take(i as int), tv[i as int]);
            assert(tv.take(i + 1) =~= tv.take(i as int).push(tv[i as int]));
            assert(crate::lex::render_tokens(tv.take(i as int)) + seq![32u8] + tv[i as int] =~= (
            crate::lex::render_tokens(tv.take(i as int)).push(32u8)) + toks@[i as int]@);
        }
        i = i + 1;
    }
    proof {
        assert(tv.take(tv.len() as int) =~= tv);
    }
    out
}

/// A three-byte section separator line.
fn sep_bytes() -> (r: Vec<u8>)
    ensures
        r@ == sep_tok(),
{
    let mut s: Vec<u8> = Vec::new();
    s.push(61);
    s.push(61);
    s.push(61);
    proof {
        assert(s@ =~= sep_tok());
    }
    s
}

/// A fully parsed level: the map name, the background region, the tile
/// grid, the tileset palette, the legend symbols (by tile-type id) and the
/// spawn points in world coordinates.  Immutable after parse.
pub struct Level {
    name: Vec<u8>,
    bg: SheetRegion,
    width: u16,
    height: u16,
    grid: Grid<u8>,
    tileset: Tileset,
    symbols: Vec<Vec<u8>>,
    starts: Vec<(EntityType, Vec2)>,
}

impl View for Level {
    type V = LevelV;

    closed spec fn view(&self) -> LevelV {
        LevelV {
            name: self.name@,
            bg: self.bg,
            width: self.width,
            height: self.height,
            grid: self.grid.cells(),
            tileset: self.tileset@,
            symbols: views(self.symbols@),
            starts: self.starts@,
        }
    }
}

impl Level {
    /// The grid matches the declared dimensions.
    pub open spec fn wf(self) -> bool {
        &&& self.spec_grid().wf()
        &&& self.spec_grid().spec_width() == self@.width
        &&& self.spec_grid().spec_height() == self@.height
        &&& self@.grid.len() == self@.width * self@.height
    }

    /// The tile grid the level owns.
    pub closed spec fn spec_grid(self) -> Grid<u8> {
        self.grid
    }

    /// The map name.
    pub fn name(&self) -> (r: &Vec<u8>)
        ensures
            r@ == self@.name,
    {
        &self.name
    }

    /// The background sprite region, all zero when none was declared.
    pub fn bg(&self) -> (r: SheetRegion)
        ensures
            r == self@.bg,
    {
        self.bg
    }

    /// The map width in tiles.
    pub fn width(&self) -> (r: u16)
        ensures
            r == self@.width,
    {
        self.width
    }

    /// The map height in tiles.
    pub fn height(&self) -> (r: u16)
        ensures
            r == self@.height,
    {
        self.height
    }

    /// The tile grid.
    pub fn grid(&self) -> (r: &Grid<u8>)
        ensures
            *r == self.spec_grid(),
            r.cells() == self@.grid,
    {
        &self.grid
    }

    /// The tileset palette.
    pub fn tileset(&self) -> (r: &Tileset)
        ensures
            r@ == self@.tileset,
    {
        &self.tileset
    }

    /// The legend symbols, indexed by tile-type id.
    pub fn symbols(&self) -> (r: &Vec<Vec<u8>>)
        ensures
            views(r@) == self@.symbols,
    {
        &self.symbols
    }

    /// The spawn points, each an entity type and a world position.
    pub fn starts(&self) -> (r: &Vec<(EntityType, Vec2)>)
        ensures
            r@ == self@.starts,
    {
        &self.starts
    }
}

/// The world rectangle of the tile at column `col` of text row `row`:
/// one tile square, with the vertical axis flipped (text row 0 is the top
/// of the map, world `y` grows upward).
pub open spec fn spec_tile_rect(height: u16, col: int, row: int) -> crate::geom::Rect {
    crate::geom::Rect {
        x: (col * TILE_SZ) as i32,
        y: ((height - 1 - row) * TILE_SZ) as i32,
        w: TILE_SZ,
        h: TILE_SZ,
    }
}

impl Level {
    /// The world rectangle and metadata of every tile, in row-major text
    /// order: the element for `(col, row)` sits at `row * width + col`.
    /// This is what contact gathering against the level's tiles consumes.
    pub fn tile_rects(&self) -> (r: Vec<(crate::geom::Rect, TileData)>)
        requires
            self.wf(),
            wf_level(self@),
        ensures
            r@.len() == self@.grid.len(),
            forall|row: int, col: int|
                0 <= row < self@.height && 0 <= col < self@.width ==> #[trigger] r@[row
                    * self@.width + col] == (
                spec_tile_rect(self@.height, col, row),
                self@.tileset[self@.grid[row * self@.width + col] as int],
            ),
    {
        let width = self.width;
        let height = self.height;
        let mut out: Vec<(crate::geom::Rect, TileData)> = Vec::new();
        let mut row: usize = 0;
        while row < height as usize
            invariant
                row <= height,
                width == self@.width,
                height == self@.height,
                self.wf(),
                wf_level(self@),
                out@.len() == row * width,
                forall|r2: int, c2: int|
                    0 <= r2 < row && 0 <= c2 < width ==> #[trigger] out@[r2 * width as int + c2]
                        == (
                    spec_tile_rect(height, c2, r2),
                    self@.tileset[self@.grid[r2 * width as int + c2] as int],
                ),
            decreases height - row,
        {
            let mut col: usize = 0;
            while col < width as usize
                invariant
                    col <= width,
                    row < height,
                    width == self@.width,
                    height == self@.height,
                    self.wf(),
                    wf_level(self@),
                    out@.len() == row * width + col,
                    forall|r2: int, c2: int|
                        0 <= r2 < row && 0 <= c2 < width ==> #[trigger] out@[r2 * width as int
                            + c2] == (
                        spec_tile_rect(height, c2, r2),
                        self@.tileset[self@.grid[r2 * width as int + c2] as int],
                    ),
                    forall|c2: int|
                        0 <= c2 < col ==> #[trigger] out@[row * width as int + c2] == (
                        spec_tile_rect(height, c2, row as int),
                        self@.tileset[self@.grid[row * width as int + c2] as int],
                    ),
                decreases width - col,
            {
                proof {
                    assert(row * width as int + col < self@.grid.len() && 0 <= row
                        * width as int) by (nonlinear_arith)
                        requires
                            0 <= col < width,
                            0 <= row < height,
                            self@.grid.len() == width * height,
                    ;
                }
                let id = *self.grid.get(col, row);
                let x: i32 = col as i32 * TILE_SZ as i32;
                let y: i32 = (height as i32 - 1 - row as i32) * TILE_SZ as i32;
                let rect = crate::geom::Rect { x, y, w: TILE_SZ, h: TILE_SZ };
                let td = *self.tileset.get(id as usize);
                let ghost before = out@;
                out.push((rect, td));
                proof {
                    assert(rect == spec_tile_rect(height, col as int, row as int));
                    assert forall|r2: int, c2: int|
                        0 <= r2 < row && 0 <= c2 < width implies #[trigger] out@[r2
                        * width as int + c2] == (
                        spec_tile_rect(height, c2, r2),
                        self@.tileset[self@.grid[r2 * width as int + c2] as int],
                    ) by {
                        assert(0 <= r2 * width as int + c2 < row * width as int)
                            by (nonlinear_arith)
                            requires
                                0 <= r2 < row,
                                0 <= c2 < width,
                        ;
                        assert(out@[r2 * width as int + c2] == before[r2 * width as int + c2]);
                    }
                }
                col = col + 1;
            }
            proof {
                assert((row + 1) * width as int == row * width as int + width)
                    by (nonlinear_arith);
                assert forall|r2: int, c2: int|
                    0 <= r2 < row + 1 && 0 <= c2 < width implies #[trigger] out@[r2
                    * width as int + c2] == (
                    spec_tile_rect(height, c2, r2),
                    self@.tileset[self@.grid[r2 * width as int + c2] as int],
                ) by {
                    if r2 == row {
                        assert(out@[row * width as int + c2] == (
                            spec_tile_rect(height, c2, row as int),
                            self@.tileset[self@.grid[row * width as int + c2] as int],
                        ));
                    }
                }
            }
            row = row + 1;
        }
        proof {
            assert(out@.len() == height * width as int);
            assert(height * width as int == self@.grid.len()) by (nonlinear_arith)
                requires
                    self@.grid.len() == width * height,
            ;
        }
        out
    }
}

/// Whether the outcome of the executable parser is the specified one.
pub open spec fn parse_result_matches(
    r: Result<Level, LevelError>,
    s: Result<LevelV, LevelError>,
) -> bool {
    match r {
        Ok(l) => s == Ok::<LevelV, LevelError>(l@),
        Err(e) => s == Err::<LevelV, LevelError>(e),
    }
}

/// End-of-parse validation over the executable state.
fn finalize_level(st: ParseState) -> (r: Result<Level, LevelError>)
    requires
        st.wf(),
    ensures
        match r {
            Ok(l) => finalize(st@) == Ok::<LevelV, LevelError>(l@) && l.wf(),
            Err(e) => finalize(st@) == Err::<LevelV, LevelError>(e),
        },
{
    let ParseState { section: _, name, bg, dims, symbols, tiles, grid, starts } = st;
    let name = match name {
        None => {
            return Err(LevelError::MissingName);
        },
        Some(n) => n,
    };
    let d = match dims {
        None => {
            return Err(LevelError::MissingDims);
        },
        Some(d) => d,
    };
    if symbols.len() == 0 {
        return Err(LevelError::EmptyLegend);
    }
    proof {
        assert(d.0 * d.1 <= 65535 * 65535) by (nonlinear_arith)
            requires
                0 <= d.0 <= 65535,
                0 <= d.1 <= 65535,
        ;
    }
    let cells: usize = (d.0 as usize) * (d.1 as usize);
    if grid.len() != cells {
        return Err(LevelError::WrongGridSize);
    }
    let grid = Grid::new(d.0 as usize, d.1 as usize, grid);
    let bg = match bg {
        Some(b) => b,
        None => SheetRegion::zero(),
    };
    Ok(
        Level {
            name,
            bg,
            width: d.0,
            height: d.1,
            grid,
            tileset: Tileset::new(tiles),
            symbols,
            starts,
        },
    )
}

impl Level {
    /// Parses a level from the bytes of its textual description.  Returns
    /// exactly what the format's line rules and end-of-parse validation
    /// yield on this input; no partially loaded level ever escapes.
    pub fn from_bytes(bytes: &[u8]) -> (r: Result<Level, LevelError>)
        ensures
            parse_result_matches(r, spec_parse_level(bytes@)),
            r matches Ok(l) ==> l.wf() && wf_level(l@),
    {
        proof {
            lemma_parse_level_wf(bytes@);
        }
        let mut st = ParseState::new();
        let mut cur: Vec<u8> = Vec::new();
        let mut pos: usize = 0;
        proof {
            assert(bytes@.skip(0) =~= bytes@);
        }
        while pos < bytes.len()
            invariant
                pos <= bytes@.len(),
                st.wf(),
                fold_lines(init_state(), spec_lines(bytes@)) == fold_lines(
                    st@,
                    spec_lines_rec(bytes@.skip(pos as int), cur@),
                ),
            decreases bytes@.len() - pos,
        {
            let b = bytes[pos];
            proof {
                assert(bytes@.skip(pos as int)[0] == bytes@[pos as int]);
                assert(bytes@.skip(pos as int).drop_first() =~= bytes@.skip(pos + 1));
            }
            if b == 10 {
                let ghost curv = cur@;
                let mut line = cur;
                cur = Vec::new();
                if line.len() > 0 && line[line.len() - 1] == 13 {
                    line.pop();
                    proof {
                        assert(line@ =~= strip_cr(curv));
                    }
                } else {
                    proof {
                        assert(line@ == strip_cr(curv));
                    }
                }
                let ghost pre_step = st@;
                let ghost rest = spec_lines_rec(bytes@.skip(pos + 1), Seq::<u8>::empty());
                proof {
                    assert(spec_lines_rec(bytes@.skip(pos as int), curv) == seq![strip_cr(curv)]
                        + rest);
                }
                match do_line(&mut st, &line) {
                    Err(e) => {
                        proof {
                            let lines = seq![strip_cr(curv)] + rest;
                            assert(lines[0] == strip_cr(curv));
                            assert(fold_lines(pre_step, lines) == Err::<StateG, LevelError>(e));
                        }
                        return Err(e);
                    },
                    Ok(_) => {
                        proof {
                            let lines = seq![strip_cr(curv)] + rest;
                            assert(lines[0] == strip_cr(curv));
                            assert(lines.drop_first() =~= rest);
                            assert(fold_lines(pre_step, lines) == fold_lines(st@, rest));
                        }
                    },
                }
            } else {
                let ghost curv = cur@;
                cur.push(b);
                proof {
                    assert(spec_lines_rec(bytes@.skip(pos as int), curv) == spec_lines_rec(
                        bytes@.skip(pos + 1),
                        curv.push(b),
                    ));
                }
            }
            pos = pos + 1;
        }
        proof {
            assert(bytes@.skip(bytes@.len() as int) =~= Seq::<u8>::empty());
        }
        if cur.len() > 0 {
            let ghost curv = cur@;
            let ghost pre_step = st@;
            proof {
                assert(spec_lines_rec(Seq::<u8>::empty(), curv) == seq![curv]);
            }
            match do_line(&mut st, &cur) {
                Err(e) => {
                    proof {
                        assert(seq![curv][0] == curv);
                        assert(fold_lines(pre_step, seq![curv]) == Err::<StateG, LevelError>(e));
                    }
                    return Err(e);
                },
                Ok(_) => {
                    proof {
                        assert(seq![curv][0] == curv);
                        assert(seq![curv].drop_first() =~= Seq::<Seq<u8>>::empty());
                        assert(fold_lines(pre_step, seq![curv]) == fold_lines(
                            st@,
                            Seq::<Seq<u8>>::empty(),
                        ));
                    }
                },
            }
        }
        finalize_level(st)
    }

    /// Writes the level's metadata, legend and map back out in the level
    /// text format: `name width height`, a separator, one legend line per
    /// tile type in id order, a separator, and one line of symbols per map
    /// row.  The spawn points and the background are not written.
    pub fn serialize(&self) -> (r: Vec<u8>)
        requires
            self.wf(),
            wf_level(self@),
        ensures
            r@ == spec_serialize(self@),
    {
        let ghost v = self@;
        let ghost lines = serialize_lines(v);
        let n = self.tileset.len();
        let height = self.height;
        let width = self.width;
        proof {
            assert(lines.len() == 3 + n + height);
            assert(lines[0] == crate::lex::render_tokens(header_tokens(v)));
            assert(lines[1] == sep_tok());
            assert(forall|i: int|
                0 <= i < n ==> lines[2 + i] == crate::lex::render_tokens(
                    #[trigger] legend_tokens(v, i),
                ));
            assert(lines[2 + n as int] == sep_tok());
            assert(forall|r2: int|
                0 <= r2 < height ==> lines[3 + n + r2] == crate::lex::render_tokens(
                    #[trigger] row_tokens(v, r2),
                ));
        }
        let mut out: Vec<u8> = Vec::new();
        proof {
            assert(lines.take(0) =~= Seq::<Seq<u8>>::empty());
            assert(crate::lex::render_lines(Seq::<Seq<u8>>::empty()) == Seq::<u8>::empty());
        }
        // metadata line
        let mut toks: Vec<Vec<u8>> = Vec::new();
        toks.push(clone_bytes(&self.name));
        toks.push(crate::lex::render_u16(width));
        toks.push(crate::lex::render_u16(height));
        proof {
            assert(views(toks@) =~= header_tokens(v));
        }
        let line = render_token_line(&toks);
        push_line(&mut out, &line, Ghost(lines), Ghost(0));
        // separator
        let sep = sep_bytes();
        push_line(&mut out, &sep, Ghost(lines), Ghost(1));
        // legend lines
        let mut i: usize = 0;
        while i < n
            invariant
                i <= n,
                n == self.tileset@.len(),
                v == self@,
                self.wf(),
                wf_level(v),
                lines == serialize_lines(v),
                out@ == crate::lex::render_lines(lines.take(2 + i)),
            decreases n - i,
        {
            proof {
                assert(lines[2 + i] == crate::lex::render_tokens(legend_tokens(v, i as int)));
            }
            let td = *self.tileset.get(i);
            let mut toks: Vec<Vec<u8>> = Vec::new();
            toks.push(clone_bytes(&self.symbols[i]));
            let mut f: Vec<u8> = Vec::new();
            if td.solid {
                f.push(115);
            } else {
                f.push(111);
            }
            proof {
                assert(f@ =~= flag_tok(td.solid));
            }
            toks.push(f);
            toks.push(crate::lex::render_u16(td.sheet_region.x));
            toks.push(crate::lex::render_u16(td.sheet_region.y));
            toks.push(crate::lex::render_i16(td.sheet_region.w));
            toks.push(crate::lex::render_i16(td.sheet_region.h));
            proof {
                assert(views(toks@) =~= legend_tokens(v, i as int));
            }
            let line = render_token_line(&toks);
            push_line(&mut out, &line, Ghost(lines), Ghost(2 + i as int));
            i = i + 1;
        }
        // separator
        let sep = sep_bytes();
        push_line(&mut out, &sep, Ghost(lines), Ghost(2 + n as int));
        // map rows
        let mut r: usize = 0;
        while r < height as usize
            invariant
                r <= height,
                n == self.tileset@.len(),
                width == self@.width,
                height == self@.height,
                v == self@,
                self.wf(),
                wf_level(v),
                lines == serialize_lines(v),
                out@ == crate::lex::render_lines(lines.take(3 + n + r)),
            decreases height - r,
        {
            proof {
                assert(lines[3 + n + r as int] == crate::lex::render_tokens(
                    row_tokens(v, r as int),
                ));
            }
            let mut toks: Vec<Vec<u8>> = Vec::new();
            let mut c: usize = 0;
            while c < width as usize
                invariant
                    c <= width,
                    r < height,
                    width == self@.width,
                    height == self@.height,
                    v == self@,
                    self.wf(),
                    wf_level(v),
                    toks@.len() == c,
                    forall|k: int|
                        0 <= k < c ==> #[trigger] toks@[k]@ == row_tokens(v, r as int)[k],
                decreases width - c,
            {
                proof {
                    assert(r * v.width + c < v.width * v.height) by (nonlinear_arith)
                        requires
                            0 <= c < v.width,
                            0 <= r < v.height,
                    ;
                    assert(0 <= r * v.width + c) by (nonlinear_arith)
                        requires
                            0 <= c,
                            0 <= r,
                            0 <= v.width,
                    ;
                }
                let id = *self.grid.get(c, r);
                toks.push(clone_bytes(&self.symbols[id as usize]));
                c = c + 1;
            }
            proof {
                assert(views(toks@) =~= row_tokens(v, r as int));
            }
            let line = render_token_line(&toks);
            push_line(&mut out, &line, Ghost(lines), Ghost(3 + n + r as int));
            r = r + 1;
        }
        proof {
            assert(lines.take(lines.len() as int) =~= lines);
        }
        out
    }

    /// Parses a level from its textual description.
    pub fn from_str(s: &str) -> (r: Result<Level, LevelError>)
        ensures
            parse_result_matches(r, spec_parse_level(s.spec_bytes())),
            r matches Ok(l) ==> l.wf() && wf_level(l@),
    {
        Level::from_bytes(s.as_bytes())
    }
}

} // verus!
