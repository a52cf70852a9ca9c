//! The players known to a consumer of the message stream.

use vstd::prelude::*;
use crate::messages::{HQMMessage, HQMTeam};

verus! {

/// Number of player slots that a roster starts with.
pub const ROSTER_SLOTS: usize = 63;

/// A player on the server: name, and the object slot and team it controls, if any.
#[derive(Clone, Debug, PartialEq, Eq)]
pub struct HQMServerPlayer {
    pub name: String,
    pub team_and_skater: Option<(usize, HQMTeam)>,
}

/// An empty roster.
pub fn new_roster() -> (r: Vec<Option<HQMServerPlayer>>)
    ensures
        r@.len() == ROSTER_SLOTS,
        forall|i: int| 0 <= i < r@.len() ==> r@[i] is None,
{
    let mut players: Vec<Option<HQMServerPlayer>> = Vec::new();
    let mut i: usize = 0;
    while i < ROSTER_SLOTS
        invariant
            i <= ROSTER_SLOTS,
            players@.len() == i,
            forall|j: int| 0 <= j < players@.len() ==> players@[j] is None,
        decreases ROSTER_SLOTS - i,
    {
        players.push(None);
        i += 1;
    }
    players
}

/// Applies a player update to the roster: a player in the server takes the slot
/// of its index, one that left empties it. Other messages, and indices past the
/// roster, leave it as it is.
pub fn apply_player_update(players: &mut Vec<Option<HQMServerPlayer>>, msg: &HQMMessage)
    ensures
        final(players)@.len() == old(players)@.len(),
        match msg {
            HQMMessage::PlayerUpdate { player_name, object, player_index, in_server } => {
                &&& forall|j: int|
                    0 <= j < old(players)@.len() && j != *player_index ==> final(players)@[j]
                        == old(players)@[j]
                &&& *player_index < old(players)@.len() ==> if *in_server {
                    &&& final(players)@[*player_index as int] is Some
                    &&& final(players)@[*player_index as int]->0.name@ == player_name@
                    &&& final(players)@[*player_index as int]->0.team_and_skater == *object
                } else {
                    final(players)@[*player_index as int] is None
                }
                &&& *player_index >= old(players)@.len() ==> final(players)@ == old(players)@
            },
            _ => final(players)@ == old(players)@,
        },
{
    match msg {
        HQMMessage::PlayerUpdate { player_name, object, player_index, in_server } => {
            if *player_index < players.len() {
                if *in_server {
                    players.set(
                        *player_index,
                        Some(HQMServerPlayer { name: player_name.clone(), team_and_skater: *object }),
                    );
                } else {
                    players.set(*player_index, None);
                }
            }
        },
        _ => {},
    }
}

/// The name of the player at `index`, if there is one.
pub fn player_name(players: &Vec<Option<HQMServerPlayer>>, index: Option<usize>) -> (r: Option<
    String,
>)
    ensures
        match index {
            Some(i) => if i < players@.len() && players@[i as int] is Some {
                r is Some && r->0@ == players@[i as int]->0.name@
            } else {
                r is None
            },
            None => r is None,
        },
{
    match index {
        Some(i) => if i < players.len() {
            match &players[i] {
                Some(p) => Some(p.name.clone()),
                None => None,
            }
        } else {
            None
        },
        None => None,
    }
}

} // verus!
