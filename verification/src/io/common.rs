//! Wire-format types shared by both solver variants, and the parsing of
//! cell keys (`"r,c"`).

use crate::domain::defs::PieceDefMap;
use crate::domain::piece::{copy_coords, Coord, PieceDef, PieceDefModel};
use crate::error::{Result, SolverError};
use crate::text::{
    int_chars, lemma_int_chars_parse, lemma_split_joined, lemma_trimmed_plain, parse_i8, parse_i8_spec,
    push_i8, split_commas, split_commas_exec, str_chars, string_from_chars, trim_chars, trimmed,
};
use vstd::prelude::*;

verus! {

/// Wire format for [`PieceDef`].
#[derive(Debug)]
pub struct PieceDefJson {
    pub id: String,
    pub cells: Vec<Coord>,
    pub mark_index: usize,
}

impl View for PieceDefJson {
    type V = PieceDefModel;

    open spec fn view(&self) -> PieceDefModel {
        (self.id@, self.cells@, self.mark_index)
    }
}

impl Clone for PieceDefJson {
    fn clone(&self) -> (r: Self)
        ensures
            r@ == self@,
    {
        PieceDefJson { id: self.id.clone(), cells: copy_coords(&self.cells), mark_index: self.mark_index }
    }
}

impl From<PieceDefJson> for PieceDef {
    fn from(j: PieceDefJson) -> (d: PieceDef) {
        PieceDef { id: j.id, cells: j.cells, mark_index: j.mark_index }
    }
}

impl vstd::std_specs::convert::FromSpecImpl<PieceDefJson> for PieceDef {
    open spec fn obeys_from_spec() -> bool {
        true
    }

    open spec fn from_spec(j: PieceDefJson) -> PieceDef {
        PieceDef { id: j.id, cells: j.cells, mark_index: j.mark_index }
    }
}

/// One instance of a piece in the puzzle input.
#[derive(Debug)]
pub struct PieceInstanceJson {
    pub def_id: String,
    pub index: u16,
}

impl Clone for PieceInstanceJson {
    fn clone(&self) -> (r: Self)
        ensures
            r.def_id@ == self.def_id@,
            r.index == self.index,
    {
        PieceInstanceJson { def_id: self.def_id.clone(), index: self.index }
    }
}

/// Fields shared by both [`ExactCoverInput`](crate::io::input::ExactCoverInput)
/// and [`GroupCountInput`](crate::io::input::GroupCountInput).
#[derive(Debug, Clone)]
pub struct SolverInput {
    pub pieces: Vec<PieceInstanceJson>,
    pub piece_defs: Vec<(String, PieceDefJson)>,
    pub center_cells: Vec<String>,
}

/// The map that results from inserting the pairs in order: a later pair
/// with the same id replaces an earlier one.
pub open spec fn defs_map_spec(pairs: Seq<(String, PieceDefJson)>) -> Map<Seq<char>, PieceDefModel>
    decreases pairs.len(),
{
    if pairs.len() == 0 {
        Map::empty()
    } else {
        defs_map_spec(pairs.drop_last()).insert(pairs.last().0@, pairs.last().1@)
    }
}

impl SolverInput {
    /// Parses `center_cells` strings (`"r,c"` format) into coordinates.
    pub fn parse_center_cells(&self) -> (r: Result<Vec<Coord>>)
        ensures
            keys_parsed(self.center_cells@, r),
    {
        parse_cell_keys(&self.center_cells)
    }

    /// Builds the lookup of piece definitions keyed by piece id.
    pub fn piece_defs_map(&self) -> (m: PieceDefMap)
        ensures
            m@ == defs_map_spec(self.piece_defs@),
    {
        let mut m = PieceDefMap::new();
        let mut i: usize = 0;
        while i < self.piece_defs.len()
            invariant
                i <= self.piece_defs@.len(),
                m@ == defs_map_spec(self.piece_defs@.take(i as int)),
            decreases self.piece_defs@.len() - i,
        {
            let id = self.piece_defs[i].0.clone();
            let json = self.piece_defs[i].1.clone();
            let def: PieceDef = PieceDef::from(json);
            m.insert(id, def);
            proof {
                assert(self.piece_defs@.take(i + 1).drop_last() =~= self.piece_defs@.take(i as int));
            }
            i = i + 1;
        }
        proof {
            assert(self.piece_defs@.take(i as int) =~= self.piece_defs@);
        }
        m
    }
}

/// Fields shared by both [`ExactCoverStats`](crate::io::output::ExactCoverStats)
/// and [`GroupCountStats`](crate::io::output::GroupCountStats).
#[derive(Debug, Clone, Copy)]
pub struct SolverStats {
    pub node_count: u64,
    pub restarts: u32,
    pub unit_propagations: u64,
    pub island_prunes: u64,
    pub dead_cell_prunes: u64,
    pub neighbor_prunes: u64,
    pub parity_prunes: u64,
    pub seed: u64,
    pub timed_out: bool,
    pub elapsed_ms: u64,
    pub cancelled: bool,
}

impl SolverStats {
    /// The statistics of a solve that did no work.
    pub open spec fn spec_empty(seed: u64) -> SolverStats {
        SolverStats {
            node_count: 0,
            restarts: 0,
            unit_propagations: 0,
            island_prunes: 0,
            dead_cell_prunes: 0,
            neighbor_prunes: 0,
            parity_prunes: 0,
            seed,
            timed_out: false,
            elapsed_ms: 0,
            cancelled: false,
        }
    }

    /// Constructs a stats object representing zero work.
    pub fn empty(seed: u64) -> (s: Self)
        ensures
            s == Self::spec_empty(seed),
    {
        Self {
            node_count: 0,
            restarts: 0,
            unit_propagations: 0,
            island_prunes: 0,
            dead_cell_prunes: 0,
            neighbor_prunes: 0,
            parity_prunes: 0,
            seed,
            timed_out: false,
            elapsed_ms: 0,
            cancelled: false,
        }
    }
}

/// The coordinate a cell key denotes: exactly two comma-separated fields,
/// each an `i8` once surrounding whitespace is trimmed.
pub open spec fn cell_key_spec(s: Seq<char>) -> Option<Coord> {
    let parts = split_commas(s);
    if parts.len() == 2 {
        match (parse_i8_spec(trimmed(parts[0])), parse_i8_spec(trimmed(parts[1]))) {
            (Some(r), Some(c)) => Some((r, c)),
            _ => None,
        }
    } else {
        None
    }
}

/// The JSON error that reports `key` as a malformed cell key.
pub uninterp spec fn malformed_key_error(key: Seq<char>) -> serde_json::Error;

/// Builds the error for a malformed cell key with
/// `<serde_json::Error as serde::de::Error>::custom`, from the message
/// `malformed cell key: {key:?}`. The contract names the resulting error as
/// a function of the key; what the message holds is not stated.
#[verifier::external_body]
fn make_parse_error(key: &str) -> (e: serde_json::Error)
    ensures
        e == malformed_key_error(key@),
{
    let msg = format!("malformed cell key: {key:?}");
    <serde_json::Error as serde::de::Error>::custom(msg)
}

/// Parses a cell key `"r,c"` into a [`Coord`].
pub fn parse_cell_key(s: &str) -> (r: Result<Coord>)
    ensures
        match r {
            Ok(c) => cell_key_spec(s@) == Some(c),
            Err(e) => cell_key_spec(s@) is None && e == SolverError::Json(malformed_key_error(s@)),
        },
{
    let chars = str_chars(s);
    let parts = split_commas_exec(&chars);
    if parts.len() == 2 {
        let a = trim_chars(&parts[0]);
        let b = trim_chars(&parts[1]);
        let pr = parse_i8(&a);
        let pc = parse_i8(&b);
        if let (Some(r), Some(c)) = (pr, pc) {
            return Ok((r, c));
        }
    }
    Err(SolverError::Json(make_parse_error(s)))
}

/// `r` is what parsing `keys` in order gives: all coordinates when every
/// key is well formed, otherwise the error for the first malformed key.
pub open spec fn keys_parsed(keys: Seq<String>, r: Result<Vec<Coord>>) -> bool {
    match r {
        Ok(v) => v@.len() == keys.len() && forall|i: int|
            0 <= i < keys.len() ==> cell_key_spec(#[trigger] keys[i]@) == Some(v@[i]),
        Err(e) => exists|i: int|
            0 <= i < keys.len() && cell_key_spec(#[trigger] keys[i]@) is None && (forall|j: int|
                0 <= j < i ==> cell_key_spec(#[trigger] keys[j]@) is Some) && e == SolverError::Json(
                malformed_key_error(keys[i]@),
            ),
    }
}

/// Parses every key in order, stopping at the first malformed one.
pub fn parse_cell_keys(keys: &Vec<String>) -> (r: Result<Vec<Coord>>)
    ensures
        keys_parsed(keys@, r),
{
    let mut out: Vec<Coord> = Vec::with_capacity(keys.len());
    let mut i: usize = 0;
    while i < keys.len()
        invariant
            i <= keys@.len(),
            out@.len() == i,
            forall|j: int| 0 <= j < i ==> cell_key_spec(#[trigger] keys@[j]@) == Some(out@[j]),
        decreases keys@.len() - i,
    {
        match parse_cell_key(keys[i].as_str()) {
            Ok(c) => {
                out.push(c);
            },
            Err(e) => {
                return Err(e);
            },
        }
        i = i + 1;
    }
    Ok(out)
}

/// The cell key `"r,c"` of a coordinate, as `format!("{r},{c}")` writes it.
pub open spec fn cell_key_chars(p: Coord) -> Seq<char> {
    int_chars(p.0 as int) + seq![','] + int_chars(p.1 as int)
}

/// A written cell key reads back as the same coordinate.
pub proof fn lemma_cell_key_round_trip(p: Coord)
    ensures
        cell_key_spec(cell_key_chars(p)) == Some(p),
{
    lemma_int_chars_parse(p.0);
    lemma_int_chars_parse(p.1);
    lemma_split_joined(int_chars(p.0 as int), int_chars(p.1 as int));
    lemma_trimmed_plain(int_chars(p.0 as int));
    lemma_trimmed_plain(int_chars(p.1 as int));
}

/// Writes the cell key `"r,c"` of a coordinate.
pub fn cell_key_string(p: Coord) -> (s: String)
    ensures
        s@ == cell_key_chars(p),
{
    let mut out: Vec<char> = Vec::new();
    push_i8(&mut out, p.0);
    out.push(',');
    push_i8(&mut out, p.1);
    proof {
        assert(out@ =~= cell_key_chars(p));
    }
    string_from_chars(&out)
}

} // verus!
