//! Dialect statements that create the tracking table
//! `_sqlx_migrator_migrations(id, app, name, applied_time)` with `UNIQUE (app, name)`.
use vstd::prelude::*;

verus! {

/// Tracking-table definition for Postgres.
pub const POSTGRES_CREATE_TABLE: &'static str = "CREATE TABLE IF NOT EXISTS _sqlx_migrator_migrations (
        id INT PRIMARY KEY NOT NULL GENERATED ALWAYS AS IDENTITY,
        app TEXT NOT NULL,
        name TEXT NOT NULL,
        applied_time TIMESTAMPTZ NOT NULL DEFAULT now(),
        UNIQUE (app, name)
    )";

/// Tracking-table definition for SQLite.
pub const SQLITE_CREATE_TABLE: &'static str = "CREATE TABLE IF NOT EXISTS _sqlx_migrator_migrations (
        id INTEGER PRIMARY KEY AUTOINCREMENT,
        app TEXT NOT NULL,
        name TEXT NOT NULL,
        applied_time TIMESTAMP NOT NULL DEFAULT CURRENT_TIMESTAMP,
        UNIQUE (app, name)
    )";

/// Tracking-table definition for MySQL.
pub const MYSQL_CREATE_TABLE: &'static str = "CREATE TABLE IF NOT EXISTS _sqlx_migrator_migrations (
        id INT PRIMARY KEY NOT NULL AUTO_INCREMENT,
        app VARCHAR(384) NOT NULL,
        name VARCHAR(384) NOT NULL,
        applied_time TIMESTAMP NOT NULL DEFAULT CURRENT_TIMESTAMP,
        UNIQUE (app, name)
    )";

/// Drops the tracking table; the same in every dialect.
pub const DROP_TABLE: &'static str = "DROP TABLE IF EXISTS _sqlx_migrator_migrations";

/// Inserts one tracking row; binds `app` then `name`.
pub const INSERT_ROW: &'static str = "INSERT INTO _sqlx_migrator_migrations(app, name) VALUES ($1, $2)";

/// Deletes the tracking row of one migration; binds `app` then `name`.
pub const DELETE_ROW: &'static str = "DELETE FROM _sqlx_migrator_migrations WHERE app = $1 AND name = $2";

/// Reads every tracking row.
pub const SELECT_ROWS: &'static str = "SELECT id, app, name, applied_time FROM _sqlx_migrator_migrations";

/// Statement creating the tracking table on Postgres.
pub fn postgres_create_migrator_table() -> (r: &'static str)
    ensures
        r@ == POSTGRES_CREATE_TABLE@,
{
    POSTGRES_CREATE_TABLE
}

/// Statement creating the tracking table on SQLite.
pub fn sqlite_create_migrator_table() -> (r: &'static str)
    ensures
        r@ == SQLITE_CREATE_TABLE@,
{
    SQLITE_CREATE_TABLE
}

/// Statement creating the tracking table on MySQL.
pub fn mysql_create_migrator_table() -> (r: &'static str)
    ensures
        r@ == MYSQL_CREATE_TABLE@,
{
    MYSQL_CREATE_TABLE
}

} // verus!
