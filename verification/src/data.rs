//! The record model: the catalogue categories, the collection states, and the
//! extracted item record that the rest of the pipeline consumes.

use vstd::prelude::*;

verus! {

/// Which sub-catalogue an item belongs to.
#[derive(Clone, Copy, PartialEq, Eq, Structural, Debug)]
pub enum Category {
    Anime,
    Book,
    Music,
    Game,
    Real,
}

/// The user's relationship to an item.
#[derive(Clone, Copy, PartialEq, Eq, Structural, Debug)]
pub enum State {
    Wish,
    Collect,
    Do,
    OnHold,
    Dropped,
}

pub type Id = u32;

pub type Rating = u8;

/// Ratings run from 1 to `MAX_RATING`; an absent rating means "unrated".
pub const MAX_RATING: Rating = 10;

/// A rating is either absent or within the 1..=10 scale.
pub open spec fn valid_rating(r: Option<Rating>) -> bool {
    match r {
        Option::Some(v) => 1 <= v <= MAX_RATING,
        Option::None => true,
    }
}

/// Conversion to the fixed string token used both in catalogue URLs and on
/// the command line.
pub trait ToStaticStr {
    /// The token as a sequence of characters.
    spec fn token_spec(&self) -> Seq<char>;

    fn to_static_str(&self) -> (r: &'static str)
        ensures
            r@ == self.token_spec(),
    ;
}

/// Enumeration of every value of a closed token enum, in declaration order.
pub trait ListAll: Sized {
    /// The full list of values, in declaration order.
    spec fn all_spec() -> Seq<Self>;

    fn list_all() -> (r: Vec<Self>)
        ensures
            r@ == Self::all_spec(),
    ;
}

impl ToStaticStr for Category {
    open spec fn token_spec(&self) -> Seq<char> {
        match *self {
            Category::Anime => "anime"@,
            Category::Book => "book"@,
            Category::Music => "music"@,
            Category::Game => "game"@,
            Category::Real => "real"@,
        }
    }

    fn to_static_str(&self) -> (r: &'static str) {
        match *self {
            Category::Anime => "anime",
            Category::Book => "book",
            Category::Music => "music",
            Category::Game => "game",
            Category::Real => "real",
        }
    }
}

impl ToStaticStr for State {
    open spec fn token_spec(&self) -> Seq<char> {
        match *self {
            State::Wish => "wish"@,
            State::Collect => "collect"@,
            State::Do => "do"@,
            State::OnHold => "on_hold"@,
            State::Dropped => "dropped"@,
        }
    }

    fn to_static_str(&self) -> (r: &'static str) {
        match *self {
            State::Wish => "wish",
            State::Collect => "collect",
            State::Do => "do",
            State::OnHold => "on_hold",
            State::Dropped => "dropped",
        }
    }
}

impl ListAll for Category {
    open spec fn all_spec() -> Seq<Category> {
        seq![
            Category::Anime,
            Category::Book,
            Category::Music,
            Category::Game,
            Category::Real,
        ]
    }

    fn list_all() -> (r: Vec<Category>) {
        let mut v: Vec<Category> = Vec::new();
        v.push(Category::Anime);
        v.push(Category::Book);
        v.push(Category::Music);
        v.push(Category::Game);
        v.push(Category::Real);
        proof {
            assert(v@ =~= Self::all_spec());
        }
        v
    }
}

impl ListAll for State {
    open spec fn all_spec() -> Seq<State> {
        seq![State::Wish, State::Collect, State::Do, State::OnHold, State::Dropped]
    }

    fn list_all() -> (r: Vec<State>) {
        let mut v: Vec<State> = Vec::new();
        v.push(State::Wish);
        v.push(State::Collect);
        v.push(State::Do);
        v.push(State::OnHold);
        v.push(State::Dropped);
        proof {
            assert(v@ =~= Self::all_spec());
        }
        v
    }
}

impl Category {
    /// Parses a category token; unknown tokens are rejected.
    pub fn from_token(s: &str) -> (r: Option<Category>)
        ensures
            match r {
                Option::Some(c) => s@ == c.token_spec(),
                Option::None => forall|c: Category| s@ != c.token_spec(),
            },
    {
        if crate::text::str_eq(s, "anime") {
            Option::Some(Category::Anime)
        } else if crate::text::str_eq(s, "book") {
            Option::Some(Category::Book)
        } else if crate::text::str_eq(s, "music") {
            Option::Some(Category::Music)
        } else if crate::text::str_eq(s, "game") {
            Option::Some(Category::Game)
        } else if crate::text::str_eq(s, "real") {
            Option::Some(Category::Real)
        } else {
            Option::None
        }
    }
}

impl State {
    /// Parses a state token; unknown tokens are rejected.
    pub fn from_token(s: &str) -> (r: Option<State>)
        ensures
            match r {
                Option::Some(c) => s@ == c.token_spec(),
                Option::None => forall|c: State| s@ != c.token_spec(),
            },
    {
        if crate::text::str_eq(s, "wish") {
            Option::Some(State::Wish)
        } else if crate::text::str_eq(s, "collect") {
            Option::Some(State::Collect)
        } else if crate::text::str_eq(s, "do") {
            Option::Some(State::Do)
        } else if crate::text::str_eq(s, "on_hold") {
            Option::Some(State::OnHold)
        } else if crate::text::str_eq(s, "dropped") {
            Option::Some(State::Dropped)
        } else {
            Option::None
        }
    }
}

/// One catalogued entry, as extracted from a page.
#[derive(Debug)]
pub struct Item {
    pub id: Id,
    pub title: String,
    pub rating: Option<Rating>,
    pub tags: Vec<String>,
}

impl Default for Item {
    /// An item with the zero id, an empty title, no rating and no tags.
    fn default() -> (r: Item)
        ensures
            r.id == 0,
            r.title@ =~= Seq::<char>::empty(),
            r.rating is None,
            r.tags@ =~= Seq::<String>::empty(),
    {
        Item { id: 0, title: String::new(), rating: Option::None, tags: Vec::new() }
    }
}

} // verus!
