use vstd::prelude::*;

verus! {

/// Days since the last incineration, as the archive records it.
#[derive(Clone, PartialEq, Debug)]
pub struct Dayssincelastincineration {
    pub days_since_last_incineration: Option<String>,
}

/// Sponsor widget content.
#[derive(Clone, PartialEq, Debug)]
pub struct Sponsordata {
    pub hide_header_on_widget: bool,
    pub sponsor_button_text: String,
    pub sponsor_description: String,
    pub sponsor_link: String,
    pub sponsor_name: String,
}

/// A playoff bracket; identifiers are 128-bit UUID values.
#[derive(Clone, PartialEq, Debug)]
pub struct Playoffs {
    pub v: Option<i64>,
    pub id: Option<u128>,
    pub bracket: Option<i64>,
    pub playoffs_id: Option<u128>,
    pub name: String,
    pub number_of_rounds: i64,
    pub playoff_day: i64,
    pub round: Option<i64>,
    pub rounds: Vec<u128>,
    pub season: i64,
    pub tomorrow_round: Option<i64>,
    pub tournament: Option<i64>,
    pub winner: Option<u128>,
}

impl Playoffs {
    /// The bracket's identity: its `_id` where present, else its `id`.
    pub fn id(&self) -> (r: u128)
        requires
            self.id is Some || self.playoffs_id is Some,
        ensures
            r == match self.id {
                Some(i) => i,
                None => self.playoffs_id.unwrap(),
            },
    {
        match self.id {
            Some(i) => i,
            None => match self.playoffs_id {
                Some(i) => i,
                None => 0,
            },
        }
    }
}

} // verus!
