//! The canonical "now playing" event that every media server adapter
//! produces, and the identity of a show that it carries.
use vstd::prelude::*;
use vstd::string::StrSliceExecFns;

verus! {

/// Identifies a show independently of the PVR's internal numeric id.
#[derive(Debug)]
pub enum Series {
    Title(String),
    Tvdb(i32),
}

/// A show's identity as mathematical values.
pub enum SeriesView {
    Title(Seq<char>),
    Tvdb(i32),
}

impl View for Series {
    type V = SeriesView;

    open spec fn view(&self) -> SeriesView {
        match self {
            Series::Title(t) => SeriesView::Title(t@),
            Series::Tvdb(id) => SeriesView::Tvdb(*id),
        }
    }
}

impl Clone for Series {
    fn clone(&self) -> (r: Series)
        ensures
            r@ == self@,
    {
        match self {
            Series::Title(t) => Series::Title(t.clone()),
            Series::Tvdb(id) => Series::Tvdb(*id),
        }
    }
}

impl PartialEq for Series {
    fn eq(&self, other: &Series) -> (r: bool)
        ensures
            r == (self@ == other@),
    {
        match self {
            Series::Title(a) => match other {
                Series::Title(b) => a.eq(b),
                Series::Tvdb(_) => false,
            },
            Series::Tvdb(a) => match other {
                Series::Title(_) => false,
                Series::Tvdb(b) => *a == *b,
            },
        }
    }
}

impl vstd::std_specs::cmp::PartialEqSpecImpl for Series {
    open spec fn obeys_eq_spec() -> bool {
        true
    }

    open spec fn eq_spec(&self, other: &Series) -> bool {
        self@ == other@
    }
}

impl Eq for Series {}

/// The media server's user who is watching.
#[derive(Debug)]
pub struct User {
    pub name: String,
    pub id: String,
}

pub struct UserView {
    pub name: Seq<char>,
    pub id: Seq<char>,
}

impl View for User {
    type V = UserView;

    open spec fn view(&self) -> UserView {
        UserView { name: self.name@, id: self.id@ }
    }
}

impl Clone for User {
    fn clone(&self) -> (r: User)
        ensures
            r@ == self@,
    {
        User { name: self.name.clone(), id: self.id.clone() }
    }
}

impl PartialEq for User {
    fn eq(&self, other: &User) -> (r: bool)
        ensures
            r == (self@ == other@),
    {
        self.name.eq(&other.name) && self.id.eq(&other.id)
    }
}

impl vstd::std_specs::cmp::PartialEqSpecImpl for User {
    open spec fn obeys_eq_spec() -> bool {
        true
    }

    open spec fn eq_spec(&self, other: &User) -> bool {
        self@ == other@
    }
}

impl Eq for User {}

/// What a user is watching: an episode of a show, and the library it lies in
/// where the media server reports one. The whole event is the key under
/// which repeats are suppressed.
#[derive(Debug)]
pub struct NowPlaying {
    pub series: Series,
    pub episode: i32,
    pub season: i32,
    pub user: User,
    pub library: Option<String>,
}

pub struct NowPlayingView {
    pub series: SeriesView,
    pub episode: i32,
    pub season: i32,
    pub user: UserView,
    pub library: Option<Seq<char>>,
}

pub open spec fn library_view(l: Option<String>) -> Option<Seq<char>> {
    match l {
        Some(s) => Some(s@),
        None => None,
    }
}

impl View for NowPlaying {
    type V = NowPlayingView;

    open spec fn view(&self) -> NowPlayingView {
        NowPlayingView {
            series: self.series@,
            episode: self.episode,
            season: self.season,
            user: self.user@,
            library: library_view(self.library),
        }
    }
}

fn clone_library(l: &Option<String>) -> (r: Option<String>)
    ensures
        library_view(r) == library_view(*l),
{
    match l {
        Some(s) => Some(s.clone()),
        None => None,
    }
}

fn same_library(a: &Option<String>, b: &Option<String>) -> (r: bool)
    ensures
        r == (library_view(*a) == library_view(*b)),
{
    match a {
        Some(x) => match b {
            Some(y) => x.eq(y),
            None => false,
        },
        None => b.is_none(),
    }
}

impl Clone for NowPlaying {
    fn clone(&self) -> (r: NowPlaying)
        ensures
            r@ == self@,
    {
        NowPlaying {
            series: self.series.clone(),
            episode: self.episode,
            season: self.season,
            user: self.user.clone(),
            library: clone_library(&self.library),
        }
    }
}

impl PartialEq for NowPlaying {
    fn eq(&self, other: &NowPlaying) -> (r: bool)
        ensures
            r == (self@ == other@),
    {
        self.series.eq(&other.series) && self.episode == other.episode && self.season
            == other.season && self.user.eq(&other.user) && same_library(
            &self.library,
            &other.library,
        )
    }
}

impl vstd::std_specs::cmp::PartialEqSpecImpl for NowPlaying {
    open spec fn obeys_eq_spec() -> bool {
        true
    }

    open spec fn eq_spec(&self, other: &NowPlaying) -> bool {
        self@ == other@
    }
}

impl Eq for NowPlaying {}

/// The value of the decimal digits `s`.
pub open spec fn digits_value(s: Seq<char>) -> int
    decreases s.len(),
{
    if s.len() == 0 {
        0
    } else {
        digits_value(s.drop_last()) * 10 + (s.last() as int - '0' as int)
    }
}

/// The length of the sign that `s` starts with: 1 for `+` or `-`, else 0.
pub open spec fn sign_len(s: Seq<char>) -> int {
    if s.len() > 0 && (s[0] == '-' || s[0] == '+') {
        1
    } else {
        0
    }
}

/// What `str::parse::<i32>` accepts: an optional `+` or `-`, then one or
/// more ASCII digits, whose value fits in an `i32`.
pub open spec fn decimal_i32(s: Seq<char>) -> Option<i32> {
    let digits = s.skip(sign_len(s));
    let value = if s.len() > 0 && s[0] == '-' {
        -digits_value(digits)
    } else {
        digits_value(digits)
    };
    if digits.len() > 0 && all_digits(digits) && i32::MIN <= value <= i32::MAX {
        Some(value as i32)
    } else {
        None
    }
}

/// Every character of `s` is an ASCII digit.
pub open spec fn all_digits(s: Seq<char>) -> bool {
    forall|i: int| 0 <= i < s.len() ==> '0' <= #[trigger] s[i] <= '9'
}

proof fn lemma_digits_grow(s: Seq<char>, k: int)
    requires
        all_digits(s),
        0 <= k <= s.len(),
    ensures
        0 <= digits_value(s.take(k)) <= digits_value(s),
    decreases s.len(),
{
    if s.len() > 0 {
        let init = s.drop_last();
        assert(all_digits(init)) by {
            assert forall|i: int| 0 <= i < init.len() implies '0' <= #[trigger] init[i] <= '9' by {
                assert(init[i] == s[i]);
            }
        }
        assert(s.last() == s[s.len() - 1]);
        if k == s.len() {
            assert(s.take(k) =~= s);
            lemma_digits_grow(init, init.len() as int);
            assert(init.take(init.len() as int) =~= init);
        } else {
            lemma_digits_grow(init, k);
            assert(init.take(k) =~= s.take(k));
            lemma_digits_grow(init, init.len() as int);
            assert(init.take(init.len() as int) =~= init);
        }
    } else {
        assert(s.take(k) =~= s);
    }
}

/// Parses an `i32` as `str::parse::<i32>` does: see [`decimal_i32`].
pub fn parse_i32(s: &str) -> (r: Option<i32>)
    ensures
        r == decimal_i32(s@),
{
    let n = s.unicode_len();
    if n == 0 {
        return None;
    }
    let first = char_at(s, 0);
    let negative = first == '-';
    let start: usize = if first == '-' || first == '+' {
        1
    } else {
        0
    };
    let ghost digits = s@.subrange(start as int, n as int);
    assert(digits =~= s@.skip(sign_len(s@)));
    if start == n {
        return None;
    }
    let mut value: i64 = 0;
    let mut i: usize = start;
    assert(digits.take(0) =~= Seq::<char>::empty());
    while i < n
        invariant
            start <= i <= n,
            n == s@.len(),
            digits == s@.subrange(start as int, n as int),
            digits == s@.skip(sign_len(s@)),
            digits.len() > 0,
            negative == (s@.len() > 0 && s@[0] == '-'),
            all_digits(digits.take(i - start)),
            value == digits_value(digits.take(i - start)),
            0 <= value <= 0x8000_0000,
        decreases n - i,
    {
        let c = char_at(s, i);
        let ghost k = i - start;
        assert(digits[k] == c);
        if c < '0' || c > '9' {
            proof {
                assert(!('0' <= digits[k] <= '9'));
                assert(!all_digits(digits));
            }
            return None;
        }
        assert(digits.take(k + 1).drop_last() =~= digits.take(k));
        assert(digits.take(k + 1).last() == c);
        assert(all_digits(digits.take(k + 1))) by {
            assert forall|j: int| 0 <= j < k + 1 implies '0' <= #[trigger] digits.take(k + 1)[j] <= '9' by {
                if j < k {
                    assert(digits.take(k + 1)[j] == digits.take(k)[j]);
                }
            }
        }
        value = value * 10 + (c as u32 - '0' as u32) as i64;
        assert(value == digits_value(digits.take(k + 1)));
        i = i + 1;
        if value > 0x8000_0000 {
            proof {
                if all_digits(digits) {
                    lemma_digits_grow(digits, (k + 1) as int);
                    assert(digits_value(digits) > 0x8000_0000);
                }
            }
            return None;
        }
    }
    assert(digits.take(n - start) =~= digits);
    if negative {
        Some((0 - value) as i32)
    } else if value <= 0x7fff_ffff {
        Some(value as i32)
    } else {
        None
    }
}

/// The separator between a guid's provider and its id.
pub open spec fn separator() -> Seq<char> {
    seq![':', '/', '/']
}

/// Where the first `://` of `s` starts, if anywhere.
pub open spec fn separator_at(s: Seq<char>, k: int) -> bool {
    0 <= k && k + 3 <= s.len() && s.subrange(k, k + 3) == separator()
}

/// The provider and the id of a guid such as `tvdb://1234`, split at the
/// first `://`.
#[verifier::opaque]
pub open spec fn split_guid(s: Seq<char>) -> Option<(Seq<char>, Seq<char>)> {
    if exists|k: int| separator_at(s, k) {
        let k = choose|k: int| separator_at(s, k) && forall|j: int| 0 <= j < k ==> !separator_at(s, j);
        Some((s.take(k), s.skip(k + 3)))
    } else {
        None
    }
}

/// The TVDB id that a guid names: its provider is `tvdb` and its id an
/// integer.
pub open spec fn guid_tvdb(s: Seq<char>) -> Option<i32> {
    match split_guid(s) {
        Some((provider, id)) => if provider == seq!['t', 'v', 'd', 'b'] {
            decimal_i32(id)
        } else {
            None
        },
        None => None,
    }
}

proof fn lemma_first_separator(s: Seq<char>, k: int)
    requires
        separator_at(s, k),
    ensures
        exists|m: int| separator_at(s, m) && forall|j: int| 0 <= j < m ==> !separator_at(s, j),
    decreases k,
{
    if exists|j: int| 0 <= j < k && separator_at(s, j) {
        let j = choose|j: int| 0 <= j < k && separator_at(s, j);
        lemma_first_separator(s, j);
    }
}

fn char_at(s: &str, i: usize) -> (c: char)
    requires
        i < s@.len(),
    ensures
        c == s@[i as int],
{
    s.get_char(i)
}

/// Where the first `://` of `uri` starts, if anywhere.
fn find_separator(uri: &str) -> (r: Option<usize>)
    ensures
        match r {
            Some(k) => separator_at(uri@, k as int) && forall|j: int|
                0 <= j < k ==> !separator_at(uri@, j),
            None => forall|j: int| !separator_at(uri@, j),
        },
{
    let n = uri.unicode_len();
    let mut k: usize = 0;
    while k < n && n - k >= 3
        invariant
            n == uri@.len(),
            k <= n,
            forall|j: int| 0 <= j < k ==> !separator_at(uri@, j),
        decreases n - k,
    {
        if char_at(uri, k) == ':' && char_at(uri, k + 1) == '/' && char_at(uri, k + 2) == '/' {
            assert(uri@.subrange(k as int, k + 3) =~= separator());
            return Some(k);
        }
        proof {
            if separator_at(uri@, k as int) {
                assert(uri@.subrange(k as int, k + 3)[0] == uri@[k as int]);
                assert(uri@.subrange(k as int, k + 3)[1] == uri@[k + 1]);
                assert(uri@.subrange(k as int, k + 3)[2] == uri@[k + 2]);
            }
        }
        k = k + 1;
    }
    None
}

/// The TVDB id that the guid `uri` names, as in `tvdb://1234`.
pub fn tvdb_from_guid(uri: &str) -> (r: Option<i32>)
    ensures
        r == guid_tvdb(uri@),
{
    reveal(split_guid);
    match find_separator(uri) {
        None => None,
        Some(k) => {
            proof {
                let m = choose|m: int|
                    separator_at(uri@, m) && forall|j: int| 0 <= j < m ==> !separator_at(uri@, j);
                assert(m == k) by {
                    if m < k {
                        assert(!separator_at(uri@, m));
                    }
                    if m > k {
                        assert(!separator_at(uri@, k as int));
                    }
                }
            }
            let n = uri.unicode_len();
            let provider = uri.substring_char(0, k);
            let id = uri.substring_char(k + 3, n);
            assert(provider@ =~= uri@.take(k as int));
            assert(id@ =~= uri@.skip(k + 3));
            let tvdb = provider.unicode_len() == 4 && char_at(provider, 0) == 't' && char_at(
                provider,
                1,
            ) == 'v' && char_at(provider, 2) == 'd' && char_at(provider, 3) == 'b';
            proof {
                if provider@ == seq!['t', 'v', 'd', 'b'] {
                    assert(provider@[0] == 't' && provider@[1] == 'v' && provider@[2] == 'd'
                        && provider@[3] == 'b');
                }
                if tvdb {
                    assert(provider@ =~= seq!['t', 'v', 'd', 'b']);
                }
            }
            if tvdb {
                parse_i32(id)
            } else {
                None
            }
        },
    }
}

/// For each guid of `guids`, the TVDB id it names.
pub open spec fn guid_ids(guids: Seq<String>) -> Seq<Option<i32>> {
    Seq::new(guids.len(), |i: int| guid_tvdb(guids[i]@))
}

/// The TVDB id named by the first guid of `guids` that names one.
pub open spec fn first_tvdb(ids: Seq<Option<i32>>) -> Option<i32>
    decreases ids.len(),
{
    if ids.len() == 0 {
        None
    } else if ids[0].is_some() {
        ids[0]
    } else {
        first_tvdb(ids.skip(1))
    }
}

/// The TVDB id named by the first of `guids` that names one.
pub fn tvdb_from_guids(guids: &Vec<String>) -> (r: Option<i32>)
    ensures
        r == first_tvdb(guid_ids(guids@)),
{
    let ghost ids = guid_ids(guids@);
    assert(ids.skip(0) =~= ids);
    let mut i: usize = 0;
    while i < guids.len()
        invariant
            i <= guids@.len(),
            ids == guid_ids(guids@),
            first_tvdb(ids) == first_tvdb(ids.skip(i as int)),
        decreases guids@.len() - i,
    {
        let found = tvdb_from_guid(guids[i].as_str());
        assert(found == ids[i as int]);
        assert(ids.skip(i as int)[0] == ids[i as int]);
        if found.is_some() {
            return found;
        }
        assert(ids.skip(i as int).skip(1) =~= ids.skip(i + 1));
        i = i + 1;
    }
    None
}

/// `prefix` is a prefix of `s`.
pub open spec fn is_prefix(prefix: Seq<char>, s: Seq<char>) -> bool {
    prefix.len() <= s.len() && s.take(prefix.len() as int) == prefix
}

/// Whether `path` starts with `prefix`.
pub fn starts_with(path: &str, prefix: &str) -> (r: bool)
    ensures
        r == is_prefix(prefix@, path@),
{
    let n = prefix.unicode_len();
    if n > path.unicode_len() {
        return false;
    }
    let mut i: usize = 0;
    while i < n
        invariant
            n == prefix@.len() <= path@.len(),
            i <= n,
            forall|j: int| 0 <= j < i ==> prefix@[j] == path@[j],
        decreases n - i,
    {
        if char_at(prefix, i) != char_at(path, i) {
            assert(path@.take(n as int)[i as int] != prefix@[i as int]);
            return false;
        }
        i = i + 1;
    }
    assert(path@.take(n as int) =~= prefix@);
    true
}

/// A library of the media server: its name and the directories it covers.
#[derive(Debug)]
pub struct VirtualFolderInfo {
    pub name: String,
    pub locations: Vec<String>,
}

/// Some location of `folder` is a prefix of `path`.
pub open spec fn covers(folder: VirtualFolderInfo, path: Seq<char>) -> bool {
    exists|j: int| 0 <= j < folder.locations@.len() && is_prefix(#[trigger] folder.locations@[j]@, path)
}

/// For each folder, whether it covers `path`.
pub open spec fn covering(folders: Seq<VirtualFolderInfo>, path: Seq<char>) -> Seq<bool> {
    Seq::new(folders.len(), |i: int| covers(folders[i], path))
}

fn covers_exec(folder: &VirtualFolderInfo, path: &str) -> (r: bool)
    ensures
        r == covers(*folder, path@),
{
    let mut j: usize = 0;
    while j < folder.locations.len()
        invariant
            j <= folder.locations@.len(),
            forall|k: int| 0 <= k < j ==> !is_prefix(#[trigger] folder.locations@[k]@, path@),
        decreases folder.locations@.len() - j,
    {
        if starts_with(path, folder.locations[j].as_str()) {
            return true;
        }
        j = j + 1;
    }
    false
}

/// The name of the first library that covers `path`, if any.
pub fn library_of(folders: &Vec<VirtualFolderInfo>, path: &str) -> (r: Option<String>)
    ensures
        match crate::sonarr::first_index(covering(folders@, path@), true) {
            Some(i) => r.is_some() && r.unwrap()@ == folders@[i].name@,
            None => r.is_none(),
        },
{
    let ghost flags = covering(folders@, path@);
    let mut i: usize = 0;
    while i < folders.len()
        invariant
            i <= folders@.len(),
            flags == covering(folders@, path@),
            forall|j: int| 0 <= j < i ==> flags[j] != true,
        decreases folders@.len() - i,
    {
        assert(flags[i as int] == covers(folders@[i as int], path@));
        if covers_exec(&folders[i], path) {
            proof {
                crate::sonarr::lemma_first_index(flags, true);
                let c = crate::sonarr::first_index(flags, true).unwrap();
                if c < i {
                    assert(flags[c] != true);
                }
                if c > i {
                    assert(flags[i as int] == true);
                }
            }
            return Some(folders[i].name.clone());
        }
        i = i + 1;
    }
    proof {
        crate::sonarr::lemma_first_index(flags, true);
        if crate::sonarr::first_index(flags, true).is_some() {
            let c = crate::sonarr::first_index(flags, true).unwrap();
            assert(flags[c] != true);
        }
    }
    None
}

} // verus!
