//! The archive's tables and statements, as text for the database.

use crate::args::Format;
use vstd::prelude::*;

verus! {

/// What has to be bound to a statement's one parameter.
#[derive(Debug, Clone, Copy, PartialEq, Eq, Structural)]
pub enum Binding {
    /// The statement has no parameter.
    Nothing,
    /// The name of the archive's format.
    FormatName,
    /// The maximum zoom.
    MaxZoom,
}

/// One statement of the schema, with what it needs bound.
pub struct Statement {
    pub sql: &'static str,
    pub binding: Binding,
}

/// The statement that makes the table of tiles; a JPEG archive has a
/// column for the alpha plane.
pub fn tiles_table_sql(format: Format) -> (sql: &'static str)
    ensures
        sql@ == match format {
            Format::JPEG => "CREATE TABLE tiles (zoom_level INTEGER NOT NULL, tile_column INTEGER NOT NULL, tile_row INTEGER NOT NULL, tile_data BLOB NOT NULL, tile_alpha BLOB NOT NULL)"@,
            Format::PNG => "CREATE TABLE tiles (zoom_level INTEGER NOT NULL, tile_column INTEGER NOT NULL, tile_row INTEGER NOT NULL, tile_data BLOB NOT NULL)"@,
        },
{
    match format {
        Format::JPEG => "CREATE TABLE tiles (zoom_level INTEGER NOT NULL, tile_column INTEGER NOT NULL, tile_row INTEGER NOT NULL, tile_data BLOB NOT NULL, tile_alpha BLOB NOT NULL)",
        Format::PNG => "CREATE TABLE tiles (zoom_level INTEGER NOT NULL, tile_column INTEGER NOT NULL, tile_row INTEGER NOT NULL, tile_data BLOB NOT NULL)",
    }
}

/// The statement that stores one tile: five columns in a JPEG archive,
/// four in a PNG archive, which has no alpha.
pub fn insert_sql(format: Format) -> (sql: &'static str)
    ensures
        sql@ == match format {
            Format::JPEG => "INSERT INTO tiles (zoom_level, tile_column, tile_row, tile_data, tile_alpha) VALUES (?1, ?2, ?3, ?4, ?5)"@,
            Format::PNG => "INSERT INTO tiles (zoom_level, tile_column, tile_row, tile_data) VALUES (?1, ?2, ?3, ?4)"@,
        },
{
    match format {
        Format::JPEG => "INSERT INTO tiles (zoom_level, tile_column, tile_row, tile_data, tile_alpha) VALUES (?1, ?2, ?3, ?4, ?5)",
        Format::PNG => "INSERT INTO tiles (zoom_level, tile_column, tile_row, tile_data) VALUES (?1, ?2, ?3, ?4)",
    }
}

/// The statement that reads one tile back.
pub fn select_sql() -> (sql: &'static str)
    ensures
        sql@ == "SELECT tile_data, tile_alpha FROM tiles WHERE zoom_level = ?1 AND tile_column = ?2 AND tile_row = ?3"@,
{
    "SELECT tile_data, tile_alpha FROM tiles WHERE zoom_level = ?1 AND tile_column = ?2 AND tile_row = ?3"
}

/// The statement that stores the limits, written when all tiles are in.
pub fn limits_sql() -> (sql: &'static str)
    ensures
        sql@ == "INSERT INTO metadata (name, value) VALUES ('limits', ?1)"@,
{
    "INSERT INTO metadata (name, value) VALUES ('limits', ?1)"
}

/// The statements that make a new archive, in the order in which they are
/// run: the two tables, the unique index on zoom, column and row, and the
/// metadata rows `name`, `format`, `minzoom` and `maxzoom`.
pub fn create_schema(format: Format) -> (steps: Vec<Statement>)
    ensures
        steps@.len() == 7,
        steps@[0].sql@ == "CREATE TABLE metadata (name TEXT NOT NULL, value TEXT NOT NULL, UNIQUE(name))"@,
        steps@[1].sql@ == match format {
            Format::JPEG => "CREATE TABLE tiles (zoom_level INTEGER NOT NULL, tile_column INTEGER NOT NULL, tile_row INTEGER NOT NULL, tile_data BLOB NOT NULL, tile_alpha BLOB NOT NULL)"@,
            Format::PNG => "CREATE TABLE tiles (zoom_level INTEGER NOT NULL, tile_column INTEGER NOT NULL, tile_row INTEGER NOT NULL, tile_data BLOB NOT NULL)"@,
        },
        steps@[2].sql@ == "CREATE UNIQUE INDEX idx_tiles ON tiles (zoom_level, tile_column, tile_row)"@,
        steps@[3].sql@ == "INSERT INTO metadata (name, value) VALUES ('name', 'Tiles')"@,
        steps@[4].sql@ == "INSERT INTO metadata (name, value) VALUES ('format', ?1)"@,
        steps@[5].sql@ == "INSERT INTO metadata (name, value) VALUES ('minzoom', 0)"@,
        steps@[6].sql@ == "INSERT INTO metadata (name, value) VALUES ('maxzoom', ?1)"@,
        forall|i: int|
            0 <= i < 7 ==> (#[trigger] steps@[i]).binding == if i == 4 {
                Binding::FormatName
            } else if i == 6 {
                Binding::MaxZoom
            } else {
                Binding::Nothing
            },
{
    let mut steps: Vec<Statement> = Vec::new();
    steps.push(
        Statement {
            sql: "CREATE TABLE metadata (name TEXT NOT NULL, value TEXT NOT NULL, UNIQUE(name))",
            binding: Binding::Nothing,
        },
    );
    steps.push(Statement { sql: tiles_table_sql(format), binding: Binding::Nothing });
    steps.push(
        Statement {
            sql: "CREATE UNIQUE INDEX idx_tiles ON tiles (zoom_level, tile_column, tile_row)",
            binding: Binding::Nothing,
        },
    );
    steps.push(
        Statement {
            sql: "INSERT INTO metadata (name, value) VALUES ('name', 'Tiles')",
            binding: Binding::Nothing,
        },
    );
    steps.push(
        Statement {
            sql: "INSERT INTO metadata (name, value) VALUES ('format', ?1)",
            binding: Binding::FormatName,
        },
    );
    steps.push(
        Statement {
            sql: "INSERT INTO metadata (name, value) VALUES ('minzoom', 0)",
            binding: Binding::Nothing,
        },
    );
    steps.push(
        Statement {
            sql: "INSERT INTO metadata (name, value) VALUES ('maxzoom', ?1)",
            binding: Binding::MaxZoom,
        },
    );
    steps
}

} // verus!
