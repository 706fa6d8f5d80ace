//! Rows of the application's database tables.
use vstd::prelude::*;

verus! {

/// A user account. Timestamps are microseconds since the Unix epoch, UTC.
pub struct User {
    /// Auto increment primary key.
    pub id: i64,
    /// Unique identifier.
    pub username: String,
    /// Password hash.
    pub hash: String,
    /// TOTP secret key.
    pub totp: Option<String>,
    /// ID of the owner, for a bot account.
    pub bot_owner_user_id: Option<i64>,
    /// Display name.
    pub display_name: Option<String>,
    /// Bio.
    pub bio: Option<String>,
    /// When the user was created.
    pub created_at: i64,
    /// When the user was deleted, if it was.
    pub deleted_at: Option<i64>,
}

/// A key-value configuration entry.
#[derive(Debug)]
pub struct Config {
    /// Auto increment primary key.
    pub id: i64,
    /// Configuration key (unique).
    pub key: String,
    /// Configuration value.
    pub value: String,
}

} // verus!
