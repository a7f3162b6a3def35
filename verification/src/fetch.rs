//! The collection fetcher's deterministic parts: the page URL built from
//! category token, username, state token and page number, and the
//! pagination decision.
//!
//! The retrieval itself is outside work; a driver loop asks for each page
//! in order, hands the extracted items back, and keeps going exactly while
//! `needs_next_page` says a full page came in.  A page with fewer than
//! `ITEMS_PER_PAGE` items is the only end-of-list signal.

use vstd::prelude::*;
use vstd::string::StringExecFns;

use crate::data::{Category, State, ToStaticStr};

verus! {

/// How many items a full list page carries.
pub const ITEMS_PER_PAGE: usize = 24;

/// The decimal digit character for `d` (0..=9).
pub open spec fn digit_char(d: int) -> char {
    if d == 0 {
        '0'
    } else if d == 1 {
        '1'
    } else if d == 2 {
        '2'
    } else if d == 3 {
        '3'
    } else if d == 4 {
        '4'
    } else if d == 5 {
        '5'
    } else if d == 6 {
        '6'
    } else if d == 7 {
        '7'
    } else if d == 8 {
        '8'
    } else {
        '9'
    }
}

/// The decimal numeral of `n`, most significant digit first.
pub open spec fn dec_str(n: nat) -> Seq<char>
    decreases n,
{
    if n < 10 {
        seq![digit_char(n as int)]
    } else {
        dec_str(n / 10).push(digit_char((n % 10) as int))
    }
}

/// Appends the decimal numeral of `n`.
fn push_decimal(out: &mut String, n: u64)
    ensures
        final(out)@ == old(out)@ + dec_str(n as nat),
    decreases n,
{
    if n >= 10 {
        push_decimal(out, n / 10);
    }
    let d = n % 10;
    let ds: &str = if d == 0 {
        "0"
    } else if d == 1 {
        "1"
    } else if d == 2 {
        "2"
    } else if d == 3 {
        "3"
    } else if d == 4 {
        "4"
    } else if d == 5 {
        "5"
    } else if d == 6 {
        "6"
    } else if d == 7 {
        "7"
    } else if d == 8 {
        "8"
    } else {
        "9"
    };
    proof {
        reveal_strlit("0");
        reveal_strlit("1");
        reveal_strlit("2");
        reveal_strlit("3");
        reveal_strlit("4");
        reveal_strlit("5");
        reveal_strlit("6");
        reveal_strlit("7");
        reveal_strlit("8");
        reveal_strlit("9");
        assert(ds@ =~= seq![digit_char(d as int)]);
    }
    out.append(ds);
    proof {
        if n >= 10 {
            assert(old(out)@ + dec_str(n as nat) =~= (old(out)@ + dec_str((n / 10) as nat)).push(
                digit_char((n % 10) as int),
            ));
            assert(final(out)@ =~= (old(out)@ + dec_str((n / 10) as nat)).push(
                digit_char((n % 10) as int),
            ));
        } else {
            assert(final(out)@ =~= old(out)@ + dec_str(n as nat));
        }
    }
}

/// The catalogue URL of one list page.
pub open spec fn page_url_spec(username: Seq<char>, category: Category, state: State, page: u64)
    -> Seq<char> {
    "https://bgm.tv/"@ + category.token_spec() + "/list/"@ + username + "/"@ + state.token_spec()
        + "?page="@ + dec_str(page as nat)
}

/// Builds the URL of one list page from the category token, the username,
/// the state token and the page number.
pub fn page_url(username: &str, category: Category, state: State, page: u64) -> (r: String)
    ensures
        r@ == page_url_spec(username@, category, state, page),
{
    let mut u = String::new();
    u.append("https://bgm.tv/");
    u.append(category.to_static_str());
    u.append("/list/");
    u.append(username);
    u.append("/");
    u.append(state.to_static_str());
    u.append("?page=");
    push_decimal(&mut u, page);
    proof {
        assert(u@ =~= page_url_spec(username@, category, state, page));
    }
    u
}

/// Whether pagination continues after a page yielded `count` items: only a
/// full page promises more.  A collection of an exact multiple of the page
/// size thus costs one extra, short fetch; the page format offers no other
/// end signal.
pub fn needs_next_page(count: usize) -> (r: bool)
    ensures
        r == (count >= ITEMS_PER_PAGE),
{
    count >= ITEMS_PER_PAGE
}

} // verus!
