use vstd::prelude::*;

pub mod api;
pub mod cookie_auth;
pub mod leaderboard;
pub mod leaderboard_laws;
pub mod origin_check;
pub mod scan_laws;
pub mod scan_logic;
pub mod scan_view;
pub mod text;

verus! {

}
