//! Core data types: the input `Person` record, the `Room` of a candidate
//! assignment, the error taxonomy, and the externally visible `SolveResult`.

use vstd::prelude::*;

verus! {

/// Hard ceiling on the population size the solver accepts. Keeps every score
/// computation comfortably inside `i64`/`u64` arithmetic.
pub const MAX_POPULATION: usize = 100000;

/// One input record: a unique name, the category (partition) the person must
/// be roomed within, the people they would like to room with, and the people
/// they must never room with.
pub struct Person {
    pub name: String,
    pub category: String,
    pub choices: Vec<String>,
    pub avoids: Vec<String>,
}

/// One room of a candidate assignment: its category, the names placed in it,
/// and its fixed capacity.
pub struct Room {
    pub category: String,
    pub members: Vec<String>,
    pub max_size: usize,
}

impl Room {
    /// An empty room of the given category and capacity.
    pub fn new(category: String, max_size: usize) -> (r: Room)
        ensures
            r.category@ == category@,
            r.members@.len() == 0,
            r.max_size == max_size,
    {
        Room { category, members: Vec::new(), max_size }
    }

    /// Appends a member name. Capacity is the caller's concern: callers check
    /// `has_space` first.
    pub fn add_person(&mut self, name: String)
        ensures
            final(self).category == old(self).category,
            final(self).max_size == old(self).max_size,
            final(self).members@ == old(self).members@.push(name),
    {
        self.members.push(name);
    }

    /// True when the room has reached its capacity.
    pub fn is_full(&self) -> (r: bool)
        ensures
            r == (self.members@.len() >= self.max_size),
    {
        self.members.len() >= self.max_size
    }

    /// True when at least one more member fits.
    pub fn has_space(&self) -> (r: bool)
        ensures
            r == (self.members@.len() < self.max_size),
    {
        self.members.len() < self.max_size
    }
}

/// The errors that cross the solver's public boundary.
#[derive(Debug)]
pub enum SolveError {
    /// Two input records carry the same name; lookups would be ambiguous.
    DuplicateName,
    /// The population exceeds `MAX_POPULATION`.
    TooManyPeople,
    /// `max_room_size` is zero while the population is not empty.
    ZeroRoomSize,
    /// No candidate construction in the whole iteration budget placed
    /// every person.
    NoSolutionFound,
}

impl SolveError {
    /// A short description of the error category.
    pub fn message(&self) -> (m: &'static str)
        ensures
            m@ == self.message_spec(),
    {
        match self {
            SolveError::DuplicateName => "duplicate person name in the input",
            SolveError::TooManyPeople => "too many people for the solver",
            SolveError::ZeroRoomSize => "maximum room size must be at least 1",
            SolveError::NoSolutionFound => "no valid solution found",
        }
    }

    pub open spec fn message_spec(&self) -> Seq<char> {
        match self {
            SolveError::DuplicateName => "duplicate person name in the input"@,
            SolveError::TooManyPeople => "too many people for the solver"@,
            SolveError::ZeroRoomSize => "maximum room size must be at least 1"@,
            SolveError::NoSolutionFound => "no valid solution found"@,
        }
    }
}

/// The externally visible outcome of a solve: the aggregate measures of the
/// winning assignment and the room membership grouped by category.
pub struct SolveResult {
    pub choice_score: i64,
    pub imbalance: u64,
    pub without_choices: u64,
    pub total_rooms: usize,
    pub rooms_by_category: Vec<(String, Vec<Room>)>,
    pub people: Vec<Person>,
}

} // verus!
