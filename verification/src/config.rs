//! The client's configuration model: per-room settings looked up by room
//! name, with defaults for rooms the configuration does not mention. Reading
//! and parsing the configuration file happens outside the library; the
//! library holds the parsed values.

use vstd::prelude::*;

use crate::validate::str_eq;

verus! {

/// Per-room settings.
#[derive(Clone, Debug, PartialEq)]
pub struct EuphRoom {
    pub username: Option<String>,
    pub force_username: bool,
    pub password: Option<String>,
}

/// The settings a room gets when the configuration does not mention it.
pub open spec fn default_euph_room() -> EuphRoom {
    EuphRoom { username: None, force_username: false, password: None }
}

impl EuphRoom {
    /// A copy equal to the original, usable in contracts.
    pub fn duplicate(&self) -> (r: EuphRoom)
        ensures
            r == *self,
    {
        let username = match &self.username {
            Some(u) => Some(u.clone()),
            None => None,
        };
        let password = match &self.password {
            Some(p) => Some(p.clone()),
            None => None,
        };
        let r = EuphRoom { username, force_username: self.force_username, password };
        proof {
            assert(r == *self);
        }
        r
    }
}

impl Default for EuphRoom {
    fn default() -> (r: EuphRoom)
        ensures
            r == default_euph_room(),
    {
        EuphRoom { username: None, force_username: false, password: None }
    }
}

/// The chat-service section: settings per room name.
#[derive(Debug)]
pub struct Euph {
    pub rooms: Vec<(String, EuphRoom)>,
}

impl Default for Euph {
    fn default() -> (r: Euph)
        ensures
            r.rooms@.len() == 0,
    {
        Euph { rooms: Vec::new() }
    }
}

/// The whole configuration: the data directory, whether the vault is kept in
/// memory only, and the chat-service section.
#[derive(Debug)]
pub struct Config {
    pub data_dir: Option<String>,
    pub ephemeral: bool,
    pub euph: Euph,
}

impl Default for Config {
    fn default() -> (r: Config)
        ensures
            r.data_dir is None,
            !r.ephemeral,
            r.euph.rooms@.len() == 0,
    {
        Config { data_dir: None, ephemeral: false, euph: Euph { rooms: Vec::new() } }
    }
}

/// The first settings entry for this room name, if the configuration has
/// one.
pub open spec fn find_room(s: Seq<(String, EuphRoom)>, name: Seq<char>) -> Option<EuphRoom>
    decreases s.len(),
{
    if s.len() == 0 {
        None
    } else if s[0].0@ == name {
        Some(s[0].1)
    } else {
        find_room(s.drop_first(), name)
    }
}

impl Config {
    /// The settings for this room: the configured entry, or the defaults
    /// when the configuration does not mention the room.
    pub fn euph_room(&self, name: &str) -> (r: EuphRoom)
        ensures
            r == (match find_room(self.euph.rooms@, name@) {
                Some(e) => e,
                None => default_euph_room(),
            }),
    {
        let mut i: usize = 0;
        proof {
            assert(self.euph.rooms@.skip(0) =~= self.euph.rooms@);
        }
        while i < self.euph.rooms.len()
            invariant
                i <= self.euph.rooms@.len(),
                find_room(self.euph.rooms@.skip(i as int), name@) == find_room(
                    self.euph.rooms@,
                    name@,
                ),
            decreases self.euph.rooms@.len() - i,
        {
            proof {
                let rest = self.euph.rooms@.skip(i as int);
                assert(rest[0] == self.euph.rooms@[i as int]);
                assert(rest.drop_first() =~= self.euph.rooms@.skip(i as int + 1));
            }
            if str_eq(self.euph.rooms[i].0.as_str(), name) {
                return self.euph.rooms[i].1.duplicate();
            }
            i = i + 1;
        }
        proof {
            assert(self.euph.rooms@.skip(i as int) =~= Seq::<(String, EuphRoom)>::empty());
        }
        EuphRoom { username: None, force_username: false, password: None }
    }
}

} // verus!
