//! What the exchange reads from its database when it boots.

use vstd::prelude::*;

verus! {

/// The user names and passphrases of the clients, as a map: where a user name
/// occurs more than once, the pair read last counts.
pub struct AuthTable {
    pairs: Vec<(String, String)>,
}

/// The map that a list of pairs gives, later pairs overriding earlier ones.
pub open spec fn pairs_map(s: Seq<(Seq<char>, Seq<char>)>) -> Map<Seq<char>, Seq<char>>
    decreases s.len(),
{
    if s.len() == 0 {
        Map::empty()
    } else {
        pairs_map(s.drop_last()).insert(s.last().0, s.last().1)
    }
}

pub open spec fn pairs_view(s: Seq<(String, String)>) -> Seq<(Seq<char>, Seq<char>)> {
    s.map_values(|p: (String, String)| (p.0@, p.1@))
}

impl View for AuthTable {
    type V = Map<Seq<char>, Seq<char>>;

    closed spec fn view(&self) -> Map<Seq<char>, Seq<char>> {
        pairs_map(pairs_view(self.pairs@))
    }
}

impl AuthTable {
    /// The passphrase of a user, if the user is known.
    pub fn passphrase(&self, user: &String) -> (p: Option<&String>)
        ensures
            match p {
                Some(q) => self@.contains_key(user@) && self@[user@] == q@,
                None => !self@.contains_key(user@),
            },
    {
        let mut i = self.pairs.len();
        let ghost s = pairs_view(self.pairs@);
        assert(s.take(i as int) =~= s);
        while i > 0
            invariant
                i <= self.pairs@.len(),
                s == pairs_view(self.pairs@),
                forall|j: int| i <= j < s.len() ==> s[j].0 != user@,
                pairs_map(s).contains_key(user@) == pairs_map(s.take(i as int)).contains_key(user@),
                pairs_map(s).contains_key(user@) ==> pairs_map(s)[user@] == pairs_map(s.take(i as int))[user@],
            decreases i,
        {
            assert(s.take(i as int).drop_last() =~= s.take(i - 1));
            if self.pairs[i - 1].0 == *user {
                return Some(&self.pairs[i - 1].1);
            }
            i = i - 1;
        }
        None
    }
}

/// What the exchange needs from its database to boot.
pub struct ExchangeSetup {
    pub asset_ids: Vec<u16>,
    pub auth_pairs: AuthTable,
    pub max_order_id_at_boot: u32,
}

pub open spec fn asset_id(row: i32) -> u16 {
    row as u16
}

impl ExchangeSetup {
    /// The setup from the rows read: the ids of the assets (database integers,
    /// cut to 16 bits), the user name and passphrase pairs, and the highest order
    /// id so far (cut to 32 bits).
    pub fn from_rows(asset_rows: &Vec<i32>, auth_rows: Vec<(String, String)>, max_order_id: i32) -> (setup: ExchangeSetup)
        ensures
            setup.asset_ids@ == asset_rows@.map_values(|r: i32| asset_id(r)),
            setup.auth_pairs@ == pairs_map(pairs_view(auth_rows@)),
            setup.max_order_id_at_boot == max_order_id as u32,
    {
        let mut asset_ids: Vec<u16> = Vec::new();
        let n = asset_rows.len();
        let mut i: usize = 0;
        while i < n
            invariant
                n == asset_rows@.len(),
                i <= n,
                asset_ids@ == asset_rows@.take(i as int).map_values(|r: i32| asset_id(r)),
            decreases n - i,
        {
            asset_ids.push(asset_rows[i] as u16);
            assert(asset_rows@.take(i + 1) =~= asset_rows@.take(i as int).push(asset_rows@[i as int]));
            assert(asset_ids@ =~= asset_rows@.take(i + 1).map_values(|r: i32| asset_id(r)));
            i = i + 1;
        }
        assert(asset_rows@.take(n as int) =~= asset_rows@);
        ExchangeSetup {
            asset_ids,
            auth_pairs: AuthTable { pairs: auth_rows },
            max_order_id_at_boot: max_order_id as u32,
        }
    }
}

} // verus!
