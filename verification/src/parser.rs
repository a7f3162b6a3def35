//! The page extractor: turns the raw fields read off one list-page element
//! into a typed item record.
//!
//! Each element contributes four raw readings: the element's structural id
//! attribute, the last child of its heading (element name and text), the
//! class list of its star-rating marker (when present), and the text of its
//! tag line (when present).  Every structural assumption about the page is
//! checked and yields a typed error; an absent rating marker or tag line is
//! not an error but the documented default.

use vstd::prelude::*;
use vstd::string::StrSliceExecFns;

use crate::data::{Id, Item, Rating};
use crate::text::{
    all_digits, dec_val, deep_strs, has_prefix, is_u32_numeral, parse_u32, split_by,
    str_eq, str_has_prefix, tokens_by, trim_of, trim_spaces,
};

verus! {

/// The heading child an element offers as its title: element name and text.
pub struct TitleNode {
    pub name: String,
    pub text: String,
}

/// The raw readings taken from one list-page element.
pub struct PageEntry {
    /// The structural id attribute, if the element has one.
    pub id_attr: Option<String>,
    /// The last child of the heading, if there is one.
    pub title: Option<TitleNode>,
    /// The class list of the star-rating marker, absent when unrated.
    pub rating_classes: Option<String>,
    /// The text of the tag line, absent when the item carries no tags.
    pub tags_text: Option<String>,
}

/// Why extraction of an element failed; all of these mean the page no
/// longer has the expected shape.
#[derive(Clone, Copy, PartialEq, Eq, Structural, Debug)]
pub enum ExtractError {
    /// The element has no id attribute.
    MissingId,
    /// The id attribute does not carry the expected prefix.
    IdPrefix,
    /// The id attribute's suffix is not an unsigned number.
    IdNumber,
    /// The heading has no child to take the title from.
    MissingTitle,
    /// The title element is not one of the two accepted kinds.
    TitleKind,
    /// A rating marker is present but no class token carries a rating.
    NoStars,
    /// The rating class token does not parse to a rating within 1..=10.
    BadStars,
    /// The tag line does not start with the expected label.
    TagsPrefix,
}

/// The id parsed from the id attribute: the attribute must exist, carry the
/// fixed prefix, and continue with a numeral that fits a `u32`.
pub open spec fn id_of(a: Option<String>) -> Result<u32, ExtractError> {
    match a {
        Option::None => Result::Err(ExtractError::MissingId),
        Option::Some(s) => if !has_prefix(s@, "item_"@) {
            Result::Err(ExtractError::IdPrefix)
        } else if is_u32_numeral(s@.skip("item_"@.len() as int)) {
            Result::Ok(dec_val(s@.skip("item_"@.len() as int)) as u32)
        } else {
            Result::Err(ExtractError::IdNumber)
        },
    }
}

/// The title taken from the heading child: it must exist and be one of the
/// two accepted element kinds; its text is taken verbatim.
pub open spec fn title_of(t: Option<TitleNode>) -> Result<Seq<char>, ExtractError> {
    match t {
        Option::None => Result::Err(ExtractError::MissingTitle),
        Option::Some(tn) => if tn.name@ == "small"@ || tn.name@ == "a"@ {
            Result::Ok(tn.text@)
        } else {
            Result::Err(ExtractError::TitleKind)
        },
    }
}

/// The first whitespace-separated token carrying the rating prefix.
pub open spec fn stars_token(toks: Seq<Seq<char>>) -> Option<Seq<char>>
    decreases toks.len(),
{
    if toks.len() == 0 {
        Option::None
    } else if has_prefix(toks[0], "stars"@) {
        Option::Some(toks[0])
    } else {
        stars_token(toks.drop_first())
    }
}

/// The rating read from the marker's class list: no marker means unrated;
/// with a marker, the first class token with the rating prefix must
/// continue with a numeral within 1..=10.
pub open spec fn rating_of(c: Option<String>) -> Result<Option<u8>, ExtractError> {
    match c {
        Option::None => Result::Ok(Option::None),
        Option::Some(cs) => {
            match stars_token(tokens_by(cs@, ' ', true)) {
                Option::None => Result::Err(ExtractError::NoStars),
                Option::Some(tok) => {
                    let suf = tok.skip("stars"@.len() as int);
                    if suf.len() >= 1 && all_digits(suf) && 1 <= dec_val(suf) <= 10 {
                        Result::Ok(Option::Some(dec_val(suf) as u8))
                    } else {
                        Result::Err(ExtractError::BadStars)
                    }
                },
            }
        },
    }
}

/// The tags read from the tag line: no line means no tags; with a line, its
/// trimmed text must start with the fixed label, and the rest splits at
/// single spaces, empty tokens dropped.
pub open spec fn tags_of(x: Option<String>) -> Result<Seq<Seq<char>>, ExtractError> {
    match x {
        Option::None => Result::Ok(Seq::empty()),
        Option::Some(tx) => {
            let t = trim_of(tx@);
            if has_prefix(t, "标签: "@) {
                Result::Ok(tokens_by(t.skip("标签: "@.len() as int), ' ', false))
            } else {
                Result::Err(ExtractError::TagsPrefix)
            }
        },
    }
}

/// Whether every field of the entry extracts.
pub open spec fn extract_ok(e: PageEntry) -> bool {
    &&& id_of(e.id_attr) is Ok
    &&& title_of(e.title) is Ok
    &&& rating_of(e.rating_classes) is Ok
    &&& tags_of(e.tags_text) is Ok
}

/// The error reported for a failing entry: the first failing field in
/// id, title, rating, tags order.
pub open spec fn first_error(e: PageEntry) -> ExtractError {
    if id_of(e.id_attr) is Err {
        id_of(e.id_attr)->Err_0
    } else if title_of(e.title) is Err {
        title_of(e.title)->Err_0
    } else if rating_of(e.rating_classes) is Err {
        rating_of(e.rating_classes)->Err_0
    } else {
        tags_of(e.tags_text)->Err_0
    }
}

/// Whether `item` is the record extracted from `e`.
pub open spec fn is_extracted(e: PageEntry, item: Item) -> bool {
    &&& id_of(e.id_attr) == Result::<u32, ExtractError>::Ok(item.id)
    &&& title_of(e.title) == Result::<Seq<char>, ExtractError>::Ok(item.title@)
    &&& rating_of(e.rating_classes) == Result::<Option<u8>, ExtractError>::Ok(item.rating)
    &&& tags_of(e.tags_text) == Result::<Seq<Seq<char>>, ExtractError>::Ok(deep_strs(item.tags@))
}

/// Parses the structural id attribute.
pub fn parse_item_id(id_attr: &Option<String>) -> (r: Result<Id, ExtractError>)
    ensures
        r == id_of(*id_attr),
{
    match id_attr {
        Option::None => Result::Err(ExtractError::MissingId),
        Option::Some(s) => {
            proof {
                reveal_strlit("item_");
            }
            if !str_has_prefix(s.as_str(), "item_") {
                Result::Err(ExtractError::IdPrefix)
            } else {
                let n = s.as_str().unicode_len();
                let suf = s.as_str().substring_char(5, n);
                proof {
                    assert(suf@ =~= s@.skip("item_"@.len() as int));
                }
                match parse_u32(suf) {
                    Option::Some(v) => Result::Ok(v),
                    Option::None => Result::Err(ExtractError::IdNumber),
                }
            }
        },
    }
}

/// Parses the title from the heading child.
pub fn parse_item_title(title: &Option<TitleNode>) -> (r: Result<String, ExtractError>)
    ensures
        match r {
            Result::Ok(s) => title_of(*title) == Result::<Seq<char>, ExtractError>::Ok(s@),
            Result::Err(er) => title_of(*title) == Result::<Seq<char>, ExtractError>::Err(er),
        },
{
    match title {
        Option::None => Result::Err(ExtractError::MissingTitle),
        Option::Some(tn) => {
            if str_eq(tn.name.as_str(), "small") || str_eq(tn.name.as_str(), "a") {
                Result::Ok(tn.text.clone())
            } else {
                Result::Err(ExtractError::TitleKind)
            }
        },
    }
}

/// Parses the rating from the marker's class list.
pub fn parse_item_rating(classes: &Option<String>) -> (r: Result<Option<Rating>, ExtractError>)
    ensures
        r == rating_of(*classes),
{
    match classes {
        Option::None => Result::Ok(Option::None),
        Option::Some(cs) => {
            let toks = split_by(cs.as_str(), ' ', true);
            let ghost tt = tokens_by(cs@, ' ', true);
            proof {
                assert(deep_strs(toks@) == tt);
                assert(tt.skip(0) =~= tt);
            }
            let mut i: usize = 0;
            while i < toks.len()
                invariant
                    i <= toks@.len(),
                    (*classes) is Some,
                    (*classes)->0 == *cs,
                    tt == tokens_by(cs@, ' ', true),
                    deep_strs(toks@) == tt,
                    tt.len() == toks@.len(),
                    stars_token(tt) == stars_token(tt.skip(i as int)),
                decreases toks@.len() - i,
            {
                proof {
                    reveal_strlit("stars");
                    assert(tt.skip(i as int)[0] == tt[i as int]);
                    assert(tt[i as int] == toks@[i as int]@);
                }
                if str_has_prefix(toks[i].as_str(), "stars") {
                    proof {
                        assert(stars_token(tt) == Option::Some(tt[i as int]));
                    }
                    let m = toks[i].as_str().unicode_len();
                    let suf = toks[i].as_str().substring_char(5, m);
                    proof {
                        assert(suf@ =~= tt[i as int].skip("stars"@.len() as int));
                    }
                    match parse_u32(suf) {
                        Option::Some(v) => {
                            if 1 <= v && v <= 10 {
                                return Result::Ok(Option::Some(v as u8));
                            } else {
                                return Result::Err(ExtractError::BadStars);
                            }
                        },
                        Option::None => {
                            return Result::Err(ExtractError::BadStars);
                        },
                    }
                }
                proof {
                    assert(tt.skip(i as int).drop_first() =~= tt.skip(i + 1));
                }
                i = i + 1;
            }
            proof {
                assert(tt.skip(toks@.len() as int) =~= Seq::<Seq<char>>::empty());
            }
            Result::Err(ExtractError::NoStars)
        },
    }
}

/// Parses the tag list from the tag line.
pub fn parse_item_tags(tags_text: &Option<String>) -> (r: Result<Vec<String>, ExtractError>)
    ensures
        match r {
            Result::Ok(v) => tags_of(*tags_text) == Result::<Seq<Seq<char>>, ExtractError>::Ok(
                deep_strs(v@),
            ),
            Result::Err(er) => tags_of(*tags_text) == Result::<Seq<Seq<char>>, ExtractError>::Err(
                er,
            ),
        },
{
    match tags_text {
        Option::None => {
            let empty: Vec<String> = Vec::new();
            proof {
                assert(deep_strs(empty@) =~= Seq::<Seq<char>>::empty());
            }
            Result::Ok(empty)
        },
        Option::Some(tx) => {
            let t = trim_spaces(tx.as_str());
            proof {
                reveal_strlit("标签: ");
            }
            if str_has_prefix(t, "标签: ") {
                let n = t.unicode_len();
                let rest = t.substring_char(4, n);
                proof {
                    assert(rest@ =~= trim_of(tx@).skip("标签: "@.len() as int));
                }
                Result::Ok(split_by(rest, ' ', false))
            } else {
                Result::Err(ExtractError::TagsPrefix)
            }
        },
    }
}

/// Extracts the typed record of one element, or the first structural
/// failure in id, title, rating, tags order.
pub fn extract_item(e: &PageEntry) -> (r: Result<Item, ExtractError>)
    ensures
        match r {
            Result::Ok(item) => is_extracted(*e, item),
            Result::Err(er) => !extract_ok(*e) && er == first_error(*e),
        },
{
    let id = match parse_item_id(&e.id_attr) {
        Result::Ok(v) => v,
        Result::Err(er) => {
            return Result::Err(er);
        },
    };
    let title = match parse_item_title(&e.title) {
        Result::Ok(v) => v,
        Result::Err(er) => {
            return Result::Err(er);
        },
    };
    let rating = match parse_item_rating(&e.rating_classes) {
        Result::Ok(v) => v,
        Result::Err(er) => {
            return Result::Err(er);
        },
    };
    let tags = match parse_item_tags(&e.tags_text) {
        Result::Ok(v) => v,
        Result::Err(er) => {
            return Result::Err(er);
        },
    };
    Result::Ok(Item { id, title, rating, tags })
}

/// Extracts every element of one page, in order, stopping at the first
/// structural failure.
pub fn get_all_items(entries: &Vec<PageEntry>) -> (r: Result<Vec<Item>, ExtractError>)
    ensures
        match r {
            Result::Ok(items) => {
                &&& items@.len() == entries@.len()
                &&& forall|i: int|
                    0 <= i < entries@.len() ==> is_extracted(
                        #[trigger] entries@[i],
                        items@[i],
                    )
            },
            Result::Err(er) => exists|i: int|
                0 <= i < entries@.len() && !extract_ok(#[trigger] entries@[i]) && er
                    == first_error(entries@[i]) && (forall|k: int|
                    0 <= k < i ==> extract_ok(#[trigger] entries@[k])),
        },
{
    let mut items: Vec<Item> = Vec::new();
    let mut i: usize = 0;
    while i < entries.len()
        invariant
            i <= entries@.len(),
            items@.len() == i,
            forall|k: int|
                0 <= k < i ==> is_extracted(#[trigger] entries@[k], items@[k]),
            forall|k: int| 0 <= k < i ==> extract_ok(#[trigger] entries@[k]),
        decreases entries@.len() - i,
    {
        match extract_item(&entries[i]) {
            Result::Ok(item) => {
                items.push(item);
            },
            Result::Err(er) => {
                return Result::Err(er);
            },
        }
        i = i + 1;
    }
    Result::Ok(items)
}

} // verus!
