//! Allow-lists that decide which events reach the decision engine.
use crate::media_server::{NowPlaying, NowPlayingView};
use vstd::prelude::*;

verus! {

/// The texts of `list`.
pub open spec fn texts(list: Seq<String>) -> Seq<Seq<char>> {
    Seq::new(list.len(), |i: int| list[i]@)
}

/// An empty user list accepts everyone; otherwise it must name the user's id
/// or name.
pub open spec fn user_accepted(users: Seq<Seq<char>>, np: NowPlayingView) -> bool {
    users.len() == 0 || users.contains(np.user.id) || users.contains(np.user.name)
}

/// An empty library list accepts every event; otherwise the event must come
/// from a library that it names.
pub open spec fn library_accepted(libraries: Seq<Seq<char>>, np: NowPlayingView) -> bool {
    libraries.len() == 0 || match np.library {
        Some(l) => libraries.contains(l),
        None => false,
    }
}

fn contains_text(list: &[String], s: &String) -> (r: bool)
    ensures
        r == texts(list@).contains(s@),
{
    let ghost t = texts(list@);
    let mut i: usize = 0;
    while i < list.len()
        invariant
            i <= list@.len(),
            t == texts(list@),
            forall|j: int| 0 <= j < i ==> t[j] != s@,
        decreases list@.len() - i,
    {
        if list[i].eq(s) {
            assert(t[i as int] == s@);
            return true;
        }
        i = i + 1;
    }
    false
}

/// Whether `np` passes the user allow-list `users`.
pub fn users(allowed: &[String], np: &NowPlaying) -> (accept: bool)
    ensures
        accept == user_accepted(texts(allowed@), np@),
{
    allowed.len() == 0 || contains_text(allowed, &np.user.id) || contains_text(allowed, &np.user.name)
}

/// Whether `np` passes the library allow-list `libraries`.
pub fn libraries(allowed: &[String], np: &NowPlaying) -> (accept: bool)
    ensures
        accept == library_accepted(texts(allowed@), np@),
{
    if allowed.len() == 0 {
        return true;
    }
    match &np.library {
        Some(l) => contains_text(allowed, l),
        None => false,
    }
}

} // verus!
