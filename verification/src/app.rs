use vstd::prelude::*;
use vstd::string::StringExecFns;
use crate::Player;

verus! {

/// The state behind the drafter's user interface: where to find the option
/// file, how large a draft to run, and the outcome of the last draft.
pub struct TemplateApp {
    pub path: String,
    pub player_list: Vec<Player>,
    pub num_players: usize,
    pub num_picks: usize,
    pub unique_picks: bool,
    pub error_message: String,
}

impl Default for TemplateApp {
    /// A fresh state: a three-player draft of three picks each, duplicates
    /// disallowed, no draft run yet.
    fn default() -> (r: Self)
        ensures
            r.path@ == "games/"@,
            r.player_list@ == Seq::<Player>::empty(),
            r.num_players == 3,
            r.num_picks == 3,
            r.unique_picks == true,
            r.error_message@ == Seq::<char>::empty(),
    {
        TemplateApp {
            path: String::from_str("games/"),
            player_list: Vec::new(),
            num_players: 3,
            num_picks: 3,
            unique_picks: true,
            error_message: String::new(),
        }
    }
}

} // verus!
