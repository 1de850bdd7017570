//! The rows of the geometry tables: graph edges, graph vertices and geometries, and how each sink
//! takes them.
use vstd::prelude::*;

use crate::geom::bytes::slice;
use crate::geom::stage::{
    cells, cells_at, kind_of, kinds_of, put_cells, staged, staged_values_are_read, take_cells,
    Cell, CellV, Kind,
};
use crate::lang::filter::Spelling;
use crate::text::{decimal_text, hex_digit, spell, str_eq, strs};

verus! {

/// The columns of the edge table.
pub const EDGE_COLUMNS: &'static str =
    "osm_id,seg_idx,start_id,end_id,geom,length_m,total_length_m,cost,reverse_cost";

/// The columns of the vertex table.
pub const NODE_COLUMNS: &'static str = "id,osm_id,geom";

/// The columns of a geometry table.
pub const GEOM_COLUMNS: &'static str = "osm_id,geom_type,geom,length_m";

/// One edge of the graph: the part of a way between two vertices. Lengths and costs are the bit
/// patterns of doubles.
#[derive(Debug)]
pub struct EdgeRow {
    pub osm_id: i64,
    pub seg_idx: usize,
    pub start_id: i64,
    pub end_id: i64,
    pub geom_ewkb: Vec<u8>,
    pub length_m: u64,
    pub total_length_m: u64,
    pub cost: u64,
    pub reverse_cost: u64,
}

/// One geometry of an object. Only a line has a length.
#[derive(Debug)]
pub struct GeomRow {
    pub osm_id: i64,
    pub geom_type: &'static str,
    pub geom_ewkb: Vec<u8>,
    pub length_m: Option<u64>,
}

/// One vertex of the graph: its own number, the number of its node, its position.
#[derive(Debug)]
pub struct NodeRow {
    pub id: i64,
    pub osm_id: i64,
    pub geom_ewkb: Vec<u8>,
}

/// An edge, as contracts speak of it.
pub struct EdgeV {
    pub osm_id: i64,
    pub seg_idx: int,
    pub start_id: i64,
    pub end_id: i64,
    pub geom_ewkb: Seq<u8>,
    pub length_m: u64,
    pub total_length_m: u64,
    pub cost: u64,
    pub reverse_cost: u64,
}

/// A geometry, as contracts speak of it.
pub struct GeomV {
    pub osm_id: i64,
    pub geom_type: Seq<char>,
    pub geom_ewkb: Seq<u8>,
    pub length_m: Option<u64>,
}

/// A vertex, as contracts speak of it.
pub struct NodeV {
    pub id: i64,
    pub osm_id: i64,
    pub geom_ewkb: Seq<u8>,
}

/// One field of a row in the binary copy protocol.
#[derive(Debug)]
pub enum BinaryField {
    Int8(i64),
    Int4(i32),
    Text(String),
    Bytea(Vec<u8>),
    Float8(u64),
    Null,
}

/// A binary field, as contracts speak of it.
pub enum FieldV {
    Int8(i64),
    Int4(i32),
    Text(Seq<char>),
    Bytea(Seq<u8>),
    Float8(u64),
    Null,
}

/// Why staged bytes are no row.
#[derive(Debug)]
pub enum StageError {
    /// The bytes end inside the row.
    Truncated,
    /// The name of the shape is none of the four.
    UnknownGeomType,
}

impl EdgeRow {
    pub open spec fn view(&self) -> EdgeV {
        EdgeV {
            osm_id: self.osm_id,
            seg_idx: self.seg_idx as int,
            start_id: self.start_id,
            end_id: self.end_id,
            geom_ewkb: self.geom_ewkb@,
            length_m: self.length_m,
            total_length_m: self.total_length_m,
            cost: self.cost,
            reverse_cost: self.reverse_cost,
        }
    }
}

impl GeomRow {
    pub open spec fn view(&self) -> GeomV {
        GeomV {
            osm_id: self.osm_id,
            geom_type: self.geom_type@,
            geom_ewkb: self.geom_ewkb@,
            length_m: self.length_m,
        }
    }
}

impl NodeRow {
    pub open spec fn view(&self) -> NodeV {
        NodeV { id: self.id, osm_id: self.osm_id, geom_ewkb: self.geom_ewkb@ }
    }
}

impl BinaryField {
    pub open spec fn view(&self) -> FieldV {
        match *self {
            BinaryField::Int8(n) => FieldV::Int8(n),
            BinaryField::Int4(n) => FieldV::Int4(n),
            BinaryField::Text(s) => FieldV::Text(s@),
            BinaryField::Bytea(b) => FieldV::Bytea(b@),
            BinaryField::Float8(n) => FieldV::Float8(n),
            BinaryField::Null => FieldV::Null,
        }
    }
}

/// The fields of a list.
pub open spec fn binary(v: Seq<BinaryField>) -> Seq<FieldV> {
    v.map_values(|f: BinaryField| f@)
}

/// Bytes as lower-case hexadecimal text, two digits a byte, the high one first.
pub open spec fn hex_text(bytes: Seq<u8>) -> Seq<char>
    decreases bytes.len(),
{
    if bytes.len() == 0 {
        Seq::empty()
    } else {
        hex_text(bytes.drop_last()) + seq![
            hex_digit(bytes.last() as int / 16),
            hex_digit(bytes.last() as int % 16),
        ]
    }
}

/// `hex::encode`, of crate `hex`: the bytes as lower-case hexadecimal text.
#[verifier::external_body]
fn to_hex(bytes: &Vec<u8>) -> (r: String)
    ensures
        r@ == hex_text(bytes@),
{
    hex::encode(bytes)
}

/// Whether a name is one of the four shapes.
pub open spec fn is_geom_type(s: Seq<char>) -> bool {
    s == "Point"@ || s == "LineString"@ || s == "MultiLineString"@ || s == "Polygon"@
}

/// The name of a shape, as bytes.
pub open spec fn name_bytes(s: Seq<char>) -> Seq<u8> {
    s.map_values(|c: char| c as u8)
}

/// The shape whose name bytes spell.
pub open spec fn geom_type_of(bytes: Seq<u8>) -> Option<Seq<char>> {
    if bytes == name_bytes("Point"@) {
        Some("Point"@)
    } else if bytes == name_bytes("LineString"@) {
        Some("LineString"@)
    } else if bytes == name_bytes("MultiLineString"@) {
        Some("MultiLineString"@)
    } else if bytes == name_bytes("Polygon"@) {
        Some("Polygon"@)
    } else {
        None
    }
}

/// An edge as staged values.
pub open spec fn edge_cells(r: EdgeV) -> Seq<CellV> {
    seq![
        CellV::Word(r.osm_id as u64),
        CellV::Half(r.seg_idx as u32),
        CellV::Word(r.start_id as u64),
        CellV::Word(r.end_id as u64),
        CellV::Blob(r.geom_ewkb),
        CellV::Word(r.length_m),
        CellV::Word(r.total_length_m),
        CellV::Word(r.cost),
        CellV::Word(r.reverse_cost),
    ]
}

/// The kinds of an edge's staged values.
pub open spec fn edge_kinds() -> Seq<Kind> {
    seq![
        Kind::Word,
        Kind::Half,
        Kind::Word,
        Kind::Word,
        Kind::Blob,
        Kind::Word,
        Kind::Word,
        Kind::Word,
        Kind::Word,
    ]
}

/// The edge that staged values hold.
pub open spec fn edge_of(c: Seq<CellV>) -> EdgeV {
    EdgeV {
        osm_id: c[0]->Word_0 as i64,
        seg_idx: c[1]->Half_0 as int,
        start_id: c[2]->Word_0 as i64,
        end_id: c[3]->Word_0 as i64,
        geom_ewkb: c[4]->Blob_0,
        length_m: c[5]->Word_0,
        total_length_m: c[6]->Word_0,
        cost: c[7]->Word_0,
        reverse_cost: c[8]->Word_0,
    }
}

/// The edge that bytes from `at` on hold, and where it ends.
pub open spec fn edge_at(bytes: Seq<u8>, at: int) -> Result<(EdgeV, int), StageError> {
    match cells_at(bytes, at, edge_kinds()) {
        Some((c, end)) => Ok((edge_of(c), end)),
        None => Err(StageError::Truncated),
    }
}

/// A geometry as staged values.
pub open spec fn geom_cells(r: GeomV) -> Seq<CellV> {
    seq![
        CellV::Word(r.osm_id as u64),
        CellV::Blob(name_bytes(r.geom_type)),
        CellV::Blob(r.geom_ewkb),
        CellV::Maybe(r.length_m),
    ]
}

/// The kinds of the values staged first: the object and its shape.
pub open spec fn named_kinds() -> Seq<Kind> {
    seq![Kind::Word, Kind::Blob]
}

/// The kinds of the values staged after: the geometry and its length.
pub open spec fn shaped_kinds() -> Seq<Kind> {
    seq![Kind::Blob, Kind::Maybe]
}

/// The geometry that bytes from `at` on hold, and where it ends. The shape's name is looked at
/// before what follows it.
pub open spec fn geom_at(bytes: Seq<u8>, at: int) -> Result<(GeomV, int), StageError> {
    match cells_at(bytes, at, named_kinds()) {
        None => Err(StageError::Truncated),
        Some((c, mid)) => match geom_type_of(c[1]->Blob_0) {
            None => Err(StageError::UnknownGeomType),
            Some(geom_type) => match cells_at(bytes, mid, shaped_kinds()) {
                None => Err(StageError::Truncated),
                Some((d, end)) => Ok(
                    (
                        GeomV {
                            osm_id: c[0]->Word_0 as i64,
                            geom_type,
                            geom_ewkb: d[0]->Blob_0,
                            length_m: d[1]->Maybe_0,
                        },
                        end,
                    ),
                ),
            },
        },
    }
}

/// A vertex as staged values.
pub open spec fn node_cells(r: NodeV) -> Seq<CellV> {
    seq![
        CellV::Word(r.id as u64),
        CellV::Word(r.osm_id as u64),
        CellV::Blob(r.geom_ewkb),
    ]
}

proof fn lemma_signed(n: i64)
    by (bit_vector)
    ensures
        (n as u64) as i64 == n,
{
}

proof fn lemma_kinds_read(bytes: Seq<u8>, at: int, kinds: Seq<Kind>)
    ensures
        cells_at(bytes, at, kinds) matches Some((c, _)) ==> kinds_of(c) == kinds,
    decreases kinds.len(),
{
    if let Some((c, end)) = cells_at(bytes, at, kinds) {
        if kinds.len() > 0 {
            let (first, next) = crate::geom::stage::cell_at(bytes, at, kinds[0])->0;
            lemma_kinds_read(bytes, next, kinds.skip(1));
            let (rest, _) = cells_at(bytes, next, kinds.skip(1))->0;
            assert(c =~= seq![first] + rest);
            assert forall|i: int| 0 <= i < c.len() implies kinds_of(c)[i] == kinds[i] by {
                if i > 0 {
                    assert(c[i] == rest[i - 1]);
                    assert(kinds_of(rest)[i - 1] == kinds.skip(1)[i - 1]);
                }
            }
            assert(kinds_of(rest).len() == rest.len());
        }
        assert(kinds_of(c) =~= kinds);
    }
}

/// A staged edge is read back as it was written, where its number in the way fits four bytes.
pub proof fn staged_edge_is_read(before: Seq<u8>, r: EdgeV, after: Seq<u8>)
    requires
        0 <= r.seg_idx <= u32::MAX,
        r.geom_ewkb.len() <= u64::MAX,
    ensures
        edge_at(before + staged(edge_cells(r)) + after, before.len() as int) == Ok::<
            (EdgeV, int),
            StageError,
        >((r, (before.len() + staged(edge_cells(r)).len()) as int)),
{
    let c = edge_cells(r);
    staged_values_are_read(before, c, after);
    assert(kinds_of(c) =~= edge_kinds());
    lemma_signed(r.osm_id);
    lemma_signed(r.start_id);
    lemma_signed(r.end_id);
}

proof fn lemma_geom_types()
    ensures
        forall|s: Seq<char>|
            is_geom_type(s) ==> geom_type_of(#[trigger] name_bytes(s)) == Some(s) && s.len() < 16,
{
    reveal_strlit("Point");
    reveal_strlit("LineString");
    reveal_strlit("MultiLineString");
    reveal_strlit("Polygon");
    assert(name_bytes("Point"@).len() == 5);
    assert(name_bytes("LineString"@).len() == 10);
    assert(name_bytes("MultiLineString"@).len() == 15);
    assert(name_bytes("Polygon"@).len() == 7);
}

/// A staged geometry of one of the four shapes is read back as it was written.
pub proof fn staged_geometry_is_read(before: Seq<u8>, r: GeomV, after: Seq<u8>)
    requires
        is_geom_type(r.geom_type),
        r.geom_ewkb.len() <= u64::MAX,
    ensures
        geom_at(before + staged(geom_cells(r)) + after, before.len() as int) == Ok::<
            (GeomV, int),
            StageError,
        >((r, (before.len() + staged(geom_cells(r)).len()) as int)),
{
    let all = before + staged(geom_cells(r)) + after;
    let first = seq![CellV::Word(r.osm_id as u64), CellV::Blob(name_bytes(r.geom_type))];
    let second = seq![CellV::Blob(r.geom_ewkb), CellV::Maybe(r.length_m)];
    lemma_geom_types();
    lemma_signed(r.osm_id);
    reveal_with_fuel(staged, 5);
    assert(geom_cells(r).skip(1).skip(1) =~= second);
    assert(first.skip(1).skip(1) =~= Seq::<CellV>::empty());
    assert(first.skip(1)[0] == geom_cells(r).skip(1)[0]);
    assert(staged(geom_cells(r)) =~= staged(first) + staged(second));
    assert(before + staged(first) + (staged(second) + after) =~= all);
    assert((before + staged(first)) + staged(second) + after =~= all);
    staged_values_are_read(before, first, staged(second) + after);
    staged_values_are_read(before + staged(first), second, after);
    assert(kinds_of(first) =~= named_kinds());
    assert(kinds_of(second) =~= shaped_kinds());
}

/// The name of a shape with a static lifetime.
pub fn geom_type_from_str(s: &str) -> (r: Result<&'static str, StageError>)
    ensures
        is_geom_type(s@) ==> r is Ok && r->Ok_0@ == s@,
        !is_geom_type(s@) ==> r == Err::<&'static str, StageError>(StageError::UnknownGeomType),
{
    if str_eq(s, "Point") {
        Ok("Point")
    } else if str_eq(s, "LineString") {
        Ok("LineString")
    } else if str_eq(s, "MultiLineString") {
        Ok("MultiLineString")
    } else if str_eq(s, "Polygon") {
        Ok("Polygon")
    } else {
        Err(StageError::UnknownGeomType)
    }
}

fn name_to_bytes(s: &str) -> (r: Vec<u8>)
    ensures
        r@ == name_bytes(s@),
{
    let chars: Vec<char> = crate::text::to_chars(s);
    let mut out: Vec<u8> = Vec::new();
    let mut i: usize = 0;
    while i < chars.len()
        invariant
            i <= chars@.len(),
            chars@ == s@,
            out@ =~= name_bytes(s@).take(i as int),
        decreases chars.len() - i,
    {
        out.push(chars[i] as u8);
        i = i + 1;
    }
    assert(name_bytes(s@).take(i as int) =~= name_bytes(s@));
    out
}

fn same_bytes(a: &Vec<u8>, b: &Vec<u8>) -> (r: bool)
    ensures
        r == (a@ == b@),
{
    if a.len() != b.len() {
        return false;
    }
    let mut i: usize = 0;
    while i < a.len()
        invariant
            i <= a@.len(),
            a@.len() == b@.len(),
            forall|j: int| 0 <= j < i ==> a@[j] == b@[j],
        decreases a.len() - i,
    {
        if a[i] != b[i] {
            return false;
        }
        i = i + 1;
    }
    assert(a@ =~= b@);
    true
}

fn geom_type_from_bytes(bytes: &Vec<u8>) -> (r: Option<&'static str>)
    ensures
        match geom_type_of(bytes@) {
            Some(s) => r is Some && r->0@ == s,
            None => r is None,
        },
{
    if same_bytes(bytes, &name_to_bytes("Point")) {
        Some("Point")
    } else if same_bytes(bytes, &name_to_bytes("LineString")) {
        Some("LineString")
    } else if same_bytes(bytes, &name_to_bytes("MultiLineString")) {
        Some("MultiLineString")
    } else if same_bytes(bytes, &name_to_bytes("Polygon")) {
        Some("Polygon")
    } else {
        None
    }
}

fn copy_bytes(bytes: &Vec<u8>) -> (r: Vec<u8>)
    ensures
        r@ == bytes@,
{
    let r: Vec<u8> = slice(bytes, 0, bytes.len());
    assert(r@ =~= bytes@);
    r
}

fn word(c: &Cell) -> (r: u64)
    requires
        c@ is Word,
    ensures
        r == c@->Word_0,
{
    match c {
        Cell::Word(n) => *n,
        _ => 0,
    }
}

fn half(c: &Cell) -> (r: u32)
    requires
        c@ is Half,
    ensures
        r == c@->Half_0,
{
    match c {
        Cell::Half(n) => *n,
        _ => 0,
    }
}

fn blob(c: &Cell) -> (r: Vec<u8>)
    requires
        c@ is Blob,
    ensures
        r@ == c@->Blob_0,
{
    match c {
        Cell::Blob(b) => copy_bytes(b),
        _ => Vec::new(),
    }
}

fn maybe(c: &Cell) -> (r: Option<u64>)
    requires
        c@ is Maybe,
    ensures
        r == c@->Maybe_0,
{
    match c {
        Cell::Maybe(n) => *n,
        _ => None,
    }
}

/// The texts of an edge in a CSV line.
pub open spec fn edge_csv(r: EdgeV, list: Seq<Spelling>) -> Seq<Seq<char>> {
    seq![
        crate::text::spelled(r.osm_id as int),
        crate::text::decimal(r.seg_idx as nat),
        crate::text::spelled(r.start_id as int),
        crate::text::spelled(r.end_id as int),
        hex_text(r.geom_ewkb),
        crate::lang::filter::spelled(list, r.length_m).0,
        crate::lang::filter::spelled(list, r.total_length_m).0,
        crate::lang::filter::spelled(list, r.cost).0,
        crate::lang::filter::spelled(list, r.reverse_cost).0,
    ]
}

/// The texts of a geometry in a CSV line; a missing length is empty.
pub open spec fn geom_csv(r: GeomV, list: Seq<Spelling>) -> Seq<Seq<char>> {
    seq![
        crate::text::spelled(r.osm_id as int),
        r.geom_type,
        hex_text(r.geom_ewkb),
        match r.length_m {
            Some(n) => crate::lang::filter::spelled(list, n).0,
            None => Seq::empty(),
        },
    ]
}

/// The texts of a vertex in a CSV line.
pub open spec fn node_csv(r: NodeV) -> Seq<Seq<char>> {
    seq![
        crate::text::spelled(r.id as int),
        crate::text::spelled(r.osm_id as int),
        hex_text(r.geom_ewkb),
    ]
}

impl EdgeRow {
    /// The fields in the order of the columns; the number in the way keeps its low half.
    pub fn binary_fields(self) -> (r: Vec<BinaryField>)
        ensures
            binary(r@) == seq![
                FieldV::Int8(self.osm_id),
                FieldV::Int4(self.seg_idx as i32),
                FieldV::Int8(self.start_id),
                FieldV::Int8(self.end_id),
                FieldV::Bytea(self.geom_ewkb@),
                FieldV::Float8(self.length_m),
                FieldV::Float8(self.total_length_m),
                FieldV::Float8(self.cost),
                FieldV::Float8(self.reverse_cost),
            ],
    {
        let r: Vec<BinaryField> = vec![
            BinaryField::Int8(self.osm_id),
            BinaryField::Int4(self.seg_idx as i32),
            BinaryField::Int8(self.start_id),
            BinaryField::Int8(self.end_id),
            BinaryField::Bytea(self.geom_ewkb),
            BinaryField::Float8(self.length_m),
            BinaryField::Float8(self.total_length_m),
            BinaryField::Float8(self.cost),
            BinaryField::Float8(self.reverse_cost),
        ];
        assert(binary(r@) =~= seq![
            FieldV::Int8(self.osm_id),
            FieldV::Int4(self.seg_idx as i32),
            FieldV::Int8(self.start_id),
            FieldV::Int8(self.end_id),
            FieldV::Bytea(self.geom_ewkb@),
            FieldV::Float8(self.length_m),
            FieldV::Float8(self.total_length_m),
            FieldV::Float8(self.cost),
            FieldV::Float8(self.reverse_cost),
        ]);
        r
    }

    /// Appends the texts in the order of the columns; `list` spells the doubles.
    pub fn csv_fields(&self, out: &mut Vec<String>, list: &Vec<Spelling>)
        ensures
            strs(final(out)@) == strs(old(out)@) + edge_csv(self@, list@),
    {
        let ghost before = strs(out@);
        out.push(spell(self.osm_id));
        out.push(decimal_text(self.seg_idx as u64));
        out.push(spell(self.start_id));
        out.push(spell(self.end_id));
        out.push(to_hex(&self.geom_ewkb));
        out.push(crate::lang::filter::spell(list, self.length_m).0);
        out.push(crate::lang::filter::spell(list, self.total_length_m).0);
        out.push(crate::lang::filter::spell(list, self.cost).0);
        out.push(crate::lang::filter::spell(list, self.reverse_cost).0);
        assert(strs(out@) =~= before + edge_csv(self@, list@));
    }

    /// Appends the row to staged bytes; the number in the way keeps its low half.
    pub fn stage_encode(&self, buf: &mut Vec<u8>)
        ensures
            final(buf)@ == old(buf)@ + staged(edge_cells(self@)),
    {
        let row: Vec<Cell> = vec![
            Cell::Word(self.osm_id as u64),
            Cell::Half(self.seg_idx as u32),
            Cell::Word(self.start_id as u64),
            Cell::Word(self.end_id as u64),
            Cell::Blob(copy_bytes(&self.geom_ewkb)),
            Cell::Word(self.length_m),
            Cell::Word(self.total_length_m),
            Cell::Word(self.cost),
            Cell::Word(self.reverse_cost),
        ];
        assert(cells(row@) =~= edge_cells(self@));
        put_cells(buf, &row);
    }

    /// Reads a row from staged bytes, and says where the next one starts.
    pub fn stage_decode(bytes: &Vec<u8>, at: usize) -> (r: Result<(EdgeRow, usize), StageError>)
        requires
            at <= bytes@.len(),
        ensures
            match edge_at(bytes@, at as int) {
                Ok((row, end)) => r matches Ok(p) && p.0@ == row && p.1 == end,
                Err(e) => r == Err::<(EdgeRow, usize), StageError>(e),
            },
    {
        let kinds: Vec<Kind> = vec![
            Kind::Word,
            Kind::Half,
            Kind::Word,
            Kind::Word,
            Kind::Blob,
            Kind::Word,
            Kind::Word,
            Kind::Word,
            Kind::Word,
        ];
        assert(kinds@ =~= edge_kinds());
        proof {
            lemma_kinds_read(bytes@, at as int, edge_kinds());
        }
        match take_cells(bytes, at, &kinds) {
            None => Err(StageError::Truncated),
            Some((row, end)) => {
                let ghost c = cells(row@);
                proof {
                    assert(kinds_of(c).len() == 9);
                    assert forall|i: int| 0 <= i < 9 implies kind_of(#[trigger] c[i])
                        == edge_kinds()[i] by {
                        assert(kinds_of(c)[i] == kind_of(c[i]));
                    }
                    assert forall|i: int| 0 <= i < 9 implies (#[trigger] row@[i])@ == c[i] by {}
                }
                let edge: EdgeRow = EdgeRow {
                    osm_id: word(&row[0]) as i64,
                    seg_idx: half(&row[1]) as usize,
                    start_id: word(&row[2]) as i64,
                    end_id: word(&row[3]) as i64,
                    geom_ewkb: blob(&row[4]),
                    length_m: word(&row[5]),
                    total_length_m: word(&row[6]),
                    cost: word(&row[7]),
                    reverse_cost: word(&row[8]),
                };
                Ok((edge, end))
            },
        }
    }
}

impl GeomRow {
    /// The fields in the order of the columns.
    pub fn binary_fields(self) -> (r: Vec<BinaryField>)
        ensures
            binary(r@) == seq![
                FieldV::Int8(self.osm_id),
                FieldV::Text(self.geom_type@),
                FieldV::Bytea(self.geom_ewkb@),
                match self.length_m {
                    Some(n) => FieldV::Float8(n),
                    None => FieldV::Null,
                },
            ],
    {
        let length: BinaryField = match self.length_m {
            Some(n) => BinaryField::Float8(n),
            None => BinaryField::Null,
        };
        let r: Vec<BinaryField> = vec![
            BinaryField::Int8(self.osm_id),
            BinaryField::Text(self.geom_type.to_owned()),
            BinaryField::Bytea(self.geom_ewkb),
            length,
        ];
        assert(binary(r@) =~= seq![
            FieldV::Int8(self.osm_id),
            FieldV::Text(self.geom_type@),
            FieldV::Bytea(self.geom_ewkb@),
            match self.length_m {
                Some(n) => FieldV::Float8(n),
                None => FieldV::Null,
            },
        ]);
        r
    }

    /// Appends the texts in the order of the columns; `list` spells the doubles.
    pub fn csv_fields(&self, out: &mut Vec<String>, list: &Vec<Spelling>)
        ensures
            strs(final(out)@) == strs(old(out)@) + geom_csv(self@, list@),
    {
        let ghost before = strs(out@);
        out.push(spell(self.osm_id));
        out.push(self.geom_type.to_owned());
        out.push(to_hex(&self.geom_ewkb));
        let length: String = match self.length_m {
            Some(n) => crate::lang::filter::spell(list, n).0,
            None => String::new(),
        };
        out.push(length);
        assert(strs(out@) =~= before + geom_csv(self@, list@));
    }

    /// Appends the row to staged bytes.
    pub fn stage_encode(&self, buf: &mut Vec<u8>)
        requires
            is_geom_type(self.geom_type@),
        ensures
            final(buf)@ == old(buf)@ + staged(geom_cells(self@)),
    {
        let row: Vec<Cell> = vec![
            Cell::Word(self.osm_id as u64),
            Cell::Blob(name_to_bytes(self.geom_type)),
            Cell::Blob(copy_bytes(&self.geom_ewkb)),
            Cell::Maybe(self.length_m),
        ];
        assert(cells(row@) =~= geom_cells(self@));
        put_cells(buf, &row);
    }

    /// Reads a row from staged bytes, and says where the next one starts.
    pub fn stage_decode(bytes: &Vec<u8>, at: usize) -> (r: Result<(GeomRow, usize), StageError>)
        requires
            at <= bytes@.len(),
        ensures
            match geom_at(bytes@, at as int) {
                Ok((row, end)) => r matches Ok(p) && p.0@ == row && p.1 == end,
                Err(e) => r == Err::<(GeomRow, usize), StageError>(e),
            },
    {
        let named: Vec<Kind> = vec![Kind::Word, Kind::Blob];
        let shaped: Vec<Kind> = vec![Kind::Blob, Kind::Maybe];
        assert(named@ =~= named_kinds());
        assert(shaped@ =~= shaped_kinds());
        proof {
            lemma_kinds_read(bytes@, at as int, named_kinds());
        }
        match take_cells(bytes, at, &named) {
            None => Err(StageError::Truncated),
            Some((first, mid)) => {
                let ghost c = cells(first@);
                proof {
                    assert(kinds_of(c).len() == 2);
                    assert(kinds_of(c)[0] == kind_of(c[0]));
                    assert(kinds_of(c)[1] == kind_of(c[1]));
                    assert(first@[0]@ == c[0] && first@[1]@ == c[1]);
                    lemma_kinds_read(bytes@, mid as int, shaped_kinds());
                }
                match geom_type_from_bytes(&blob(&first[1])) {
                    None => Err(StageError::UnknownGeomType),
                    Some(geom_type) => match take_cells(bytes, mid, &shaped) {
                        None => Err(StageError::Truncated),
                        Some((second, end)) => {
                            let ghost d = cells(second@);
                            proof {
                                assert(kinds_of(d).len() == 2);
                                assert(kinds_of(d)[0] == kind_of(d[0]));
                                assert(kinds_of(d)[1] == kind_of(d[1]));
                                assert(second@[0]@ == d[0] && second@[1]@ == d[1]);
                            }
                            let row: GeomRow = GeomRow {
                                osm_id: word(&first[0]) as i64,
                                geom_type,
                                geom_ewkb: blob(&second[0]),
                                length_m: maybe(&second[1]),
                            };
                            Ok((row, end))
                        },
                    },
                }
            },
        }
    }

    /// A row with the same fields.
    pub fn copy(&self) -> (r: GeomRow)
        ensures
            r@ == self@,
    {
        GeomRow {
            osm_id: self.osm_id,
            geom_type: self.geom_type,
            geom_ewkb: copy_bytes(&self.geom_ewkb),
            length_m: self.length_m,
        }
    }
}

impl NodeRow {
    /// The fields in the order of the columns.
    pub fn binary_fields(self) -> (r: Vec<BinaryField>)
        ensures
            binary(r@) == seq![
                FieldV::Int8(self.id),
                FieldV::Int8(self.osm_id),
                FieldV::Bytea(self.geom_ewkb@),
            ],
    {
        let r: Vec<BinaryField> = vec![
            BinaryField::Int8(self.id),
            BinaryField::Int8(self.osm_id),
            BinaryField::Bytea(self.geom_ewkb),
        ];
        assert(binary(r@) =~= seq![
            FieldV::Int8(self.id),
            FieldV::Int8(self.osm_id),
            FieldV::Bytea(self.geom_ewkb@),
        ]);
        r
    }

    /// Appends the texts in the order of the columns.
    pub fn csv_fields(&self, out: &mut Vec<String>)
        ensures
            strs(final(out)@) == strs(old(out)@) + node_csv(self@),
    {
        let ghost before = strs(out@);
        out.push(spell(self.id));
        out.push(spell(self.osm_id));
        out.push(to_hex(&self.geom_ewkb));
        assert(strs(out@) =~= before + node_csv(self@));
    }

    /// Appends the row to staged bytes.
    pub fn stage_encode(&self, buf: &mut Vec<u8>)
        ensures
            final(buf)@ == old(buf)@ + staged(node_cells(self@)),
    {
        let row: Vec<Cell> = vec![
            Cell::Word(self.id as u64),
            Cell::Word(self.osm_id as u64),
            Cell::Blob(copy_bytes(&self.geom_ewkb)),
        ];
        assert(cells(row@) =~= node_cells(self@));
        put_cells(buf, &row);
    }
}

} // verus!
