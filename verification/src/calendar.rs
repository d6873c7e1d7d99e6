//! The release model: one normalized album release, and the per-year
//! calendar of releases keyed by month and day.

use vstd::prelude::*;

use crate::text;

verus! {

// ---------------------------------------------------------------------------
// Month
// ---------------------------------------------------------------------------

/// One of the twelve calendar months.
#[derive(Clone, Copy, Debug, PartialEq, Eq, Hash, Structural)]
pub enum Month {
    January,
    February,
    March,
    April,
    May,
    June,
    July,
    August,
    September,
    October,
    November,
    December,
}

impl Month {
    /// The month's place in the year, 1 through 12.
    pub open spec fn spec_number(self) -> int {
        match self {
            Month::January => 1,
            Month::February => 2,
            Month::March => 3,
            Month::April => 4,
            Month::May => 5,
            Month::June => 6,
            Month::July => 7,
            Month::August => 8,
            Month::September => 9,
            Month::October => 10,
            Month::November => 11,
            Month::December => 12,
        }
    }

    /// The month's place in the year, 1 through 12.
    pub fn number(&self) -> (n: u8)
        ensures
            n as int == self.spec_number(),
            1 <= n <= 12,
    {
        match self {
            Month::January => 1,
            Month::February => 2,
            Month::March => 3,
            Month::April => 4,
            Month::May => 5,
            Month::June => 6,
            Month::July => 7,
            Month::August => 8,
            Month::September => 9,
            Month::October => 10,
            Month::November => 11,
            Month::December => 12,
        }
    }

    /// The month standing at place `n` in the year.
    pub fn from_number(n: u8) -> (m: Month)
        requires
            1 <= n <= 12,
        ensures
            m.spec_number() == n as int,
    {
        if n == 1 {
            Month::January
        } else if n == 2 {
            Month::February
        } else if n == 3 {
            Month::March
        } else if n == 4 {
            Month::April
        } else if n == 5 {
            Month::May
        } else if n == 6 {
            Month::June
        } else if n == 7 {
            Month::July
        } else if n == 8 {
            Month::August
        } else if n == 9 {
            Month::September
        } else if n == 10 {
            Month::October
        } else if n == 11 {
            Month::November
        } else {
            Month::December
        }
    }
}

// ---------------------------------------------------------------------------
// Release
// ---------------------------------------------------------------------------

/// The metal-database metadata attached to a release found by the paginated
/// scraper; absent for wiki-sourced releases.
#[derive(Debug)]
pub struct MetallumInfo {
    pub artist_link: String,
    pub album_link: String,
    pub release_type: String,
    pub genre: String,
}

/// The mathematical value of a [`MetallumInfo`].
pub struct MetallumInfoView {
    pub artist_link: Seq<char>,
    pub album_link: Seq<char>,
    pub release_type: Seq<char>,
    pub genre: Seq<char>,
}

impl View for MetallumInfo {
    type V = MetallumInfoView;

    open spec fn view(&self) -> MetallumInfoView {
        MetallumInfoView {
            artist_link: self.artist_link@,
            album_link: self.album_link@,
            release_type: self.release_type@,
            genre: self.genre@,
        }
    }
}

impl Clone for MetallumInfo {
    fn clone(&self) -> (r: Self)
        ensures
            r@ == self@,
    {
        MetallumInfo {
            artist_link: self.artist_link.clone(),
            album_link: self.album_link.clone(),
            release_type: self.release_type.clone(),
            genre: self.genre.clone(),
        }
    }
}

/// One album release: an artist and a normalized album title, optionally
/// enriched with metal-database metadata.
#[derive(Debug)]
pub struct Release {
    pub artist: String,
    pub album: String,
    pub metallum_info: Option<MetallumInfo>,
}

/// The mathematical value of a [`Release`].
pub struct ReleaseView {
    pub artist: Seq<char>,
    pub album: Seq<char>,
    pub metallum_info: Option<MetallumInfoView>,
}

impl View for Release {
    type V = ReleaseView;

    open spec fn view(&self) -> ReleaseView {
        ReleaseView {
            artist: self.artist@,
            album: self.album@,
            metallum_info: match self.metallum_info {
                Some(info) => Some(info@),
                None => None,
            },
        }
    }
}

impl Clone for Release {
    fn clone(&self) -> (r: Self)
        ensures
            r@ == self@,
    {
        Release {
            artist: self.artist.clone(),
            album: self.album.clone(),
            metallum_info: match &self.metallum_info {
                Some(info) => Some(info.clone()),
                None => None,
            },
        }
    }
}

/// The identity of a release: two releases are the same release exactly when
/// artist and album match; the optional metadata does not participate.
pub open spec fn rel_key(r: ReleaseView) -> (Seq<char>, Seq<char>) {
    (r.artist, r.album)
}

impl PartialEq for Release {
    fn eq(&self, other: &Release) -> (r: bool) {
        text::str_eq(self.artist.as_str(), other.artist.as_str()) && text::str_eq(
            self.album.as_str(),
            other.album.as_str(),
        )
    }
}

impl vstd::std_specs::cmp::PartialEqSpecImpl for Release {
    open spec fn obeys_eq_spec() -> bool {
        true
    }

    open spec fn eq_spec(&self, other: &Release) -> bool {
        rel_key(self@) == rel_key(other@)
    }
}

impl Release {
    /// The album title of a well-formed release is already normalized.
    pub open spec fn wf(self) -> bool {
        self@.album == text::normalized(self@.album)
    }

    /// Builds a release, normalizing the album title.
    pub fn new(artist: &str, album: &str) -> (r: Release)
        ensures
            r@.artist == artist@,
            r@.album == text::normalized(album@),
            r@.metallum_info is None,
            r.wf(),
    {
        proof {
            text::lemma_normalized_idempotent(album@);
        }
        Release {
            artist: String::from_str(artist),
            album: text::normalize_album_title(album),
            metallum_info: None,
        }
    }

    /// Attaches metal-database metadata to this release.
    pub fn with_metallum(
        self,
        artist_link: &str,
        album_link: &str,
        release_type: &str,
        genre: &str,
    ) -> (r: Release)
        ensures
            r@.artist == self@.artist,
            r@.album == self@.album,
            r@.metallum_info == Some(
                MetallumInfoView {
                    artist_link: artist_link@,
                    album_link: album_link@,
                    release_type: release_type@,
                    genre: genre@,
                },
            ),
            self.wf() ==> r.wf(),
    {
        Release {
            artist: self.artist,
            album: self.album,
            metallum_info: Some(
                MetallumInfo {
                    artist_link: String::from_str(artist_link),
                    album_link: String::from_str(album_link),
                    release_type: String::from_str(release_type),
                    genre: String::from_str(genre),
                },
            ),
        }
    }
}

// ---------------------------------------------------------------------------
// Calendar
// ---------------------------------------------------------------------------

/// The releases recorded for one day of a month, in insertion order.
pub struct DayEntry {
    pub day: u8,
    pub releases: Vec<Release>,
}

/// A per-year calendar of releases. `months[i]` holds the day entries of
/// month `i + 1`; within a day, releases keep insertion order and no release
/// identity appears twice.
pub struct Calendar {
    pub year: i32,
    pub months: Vec<Vec<DayEntry>>,
}

/// The mathematical values of the releases of `rs`.
pub open spec fn views_of(rs: Seq<Release>) -> Seq<ReleaseView> {
    rs.map_values(|r: Release| r@)
}

/// The releases that `dm` records for day `d` (empty if no entry for `d`).
pub open spec fn day_list(dm: Seq<DayEntry>, d: int) -> Seq<ReleaseView>
    decreases dm.len(),
{
    if dm.len() == 0 {
        Seq::empty()
    } else if dm[0].day == d {
        views_of(dm[0].releases@)
    } else {
        day_list(dm.drop_first(), d)
    }
}

/// Whether `dm` holds an entry for day `d`.
pub open spec fn has_day(dm: Seq<DayEntry>, d: int) -> bool
    decreases dm.len(),
{
    if dm.len() == 0 {
        false
    } else if dm[0].day == d {
        true
    } else {
        has_day(dm.drop_first(), d)
    }
}

/// Whether some release of `s` has the identity `k`.
pub open spec fn has_key(s: Seq<ReleaseView>, k: (Seq<char>, Seq<char>)) -> bool {
    exists|i: int| 0 <= i < s.len() && rel_key(s[i]) == k
}

/// No two releases of `s` share an identity.
pub open spec fn dupfree(s: Seq<ReleaseView>) -> bool {
    forall|i: int, j: int| 0 <= i < j < s.len() ==> rel_key(s[i]) != rel_key(s[j])
}

/// `s` with `r` appended, unless a release of the same identity is already
/// present: the calendar's insertion rule.
pub open spec fn add_one(s: Seq<ReleaseView>, r: ReleaseView) -> Seq<ReleaseView> {
    if has_key(s, rel_key(r)) {
        s
    } else {
        s.push(r)
    }
}

/// `t` inserted into `s` one release at a time, each under the insertion rule.
pub open spec fn add_all(s: Seq<ReleaseView>, t: Seq<ReleaseView>) -> Seq<ReleaseView>
    decreases t.len(),
{
    if t.len() == 0 {
        s
    } else {
        add_all(add_one(s, t[0]), t.drop_first())
    }
}

/// Keeps the releases whose identity is absent from `a`.
pub open spec fn keeps(a: Seq<ReleaseView>) -> spec_fn(ReleaseView) -> bool {
    |r: ReleaseView| !has_key(a, rel_key(r))
}

/// The day list that merging produces at one slot: all of `a`, then those of
/// `b` whose identity `a` does not already hold, in `b`'s order.
pub open spec fn merged(a: Seq<ReleaseView>, b: Seq<ReleaseView>) -> Seq<ReleaseView> {
    a + b.filter(keeps(a))
}

/// The set of release identities in a day list.
pub open spec fn key_set(s: Seq<ReleaseView>) -> Set<(Seq<char>, Seq<char>)> {
    Set::new(|k: (Seq<char>, Seq<char>)| has_key(s, k))
}

/// A well-formed day entry: non-empty, duplicate-free, all titles normalized.
pub open spec fn wf_entry(e: DayEntry) -> bool {
    &&& e.releases@.len() > 0
    &&& dupfree(views_of(e.releases@))
    &&& forall|k: int| 0 <= k < e.releases@.len() ==> (#[trigger] e.releases@[k]).wf()
}

/// A well-formed day map: day keys unique, every entry well-formed.
pub open spec fn wf_daymap(dm: Seq<DayEntry>) -> bool {
    &&& forall|i: int, j: int|
        0 <= i < j < dm.len() ==> (#[trigger] dm[i]).day != (#[trigger] dm[j]).day
    &&& forall|i: int| 0 <= i < dm.len() ==> wf_entry(#[trigger] dm[i])
}

impl Calendar {
    /// The releases recorded at month `m` (1 through 12) and day `d`.
    pub open spec fn at(self, m: int, d: int) -> Seq<ReleaseView> {
        if 1 <= m <= 12 {
            day_list(self.months@[m - 1]@, d)
        } else {
            Seq::empty()
        }
    }

    /// Whether the calendar holds an entry at month `m`, day `d`.
    pub open spec fn month_has_day(self, m: int, d: int) -> bool {
        1 <= m <= 12 && has_day(self.months@[m - 1]@, d)
    }

    /// All twelve months present, each with a well-formed day map.
    pub open spec fn wf(self) -> bool {
        &&& self.months@.len() == 12
        &&& forall|m: int| 0 <= m < 12 ==> wf_daymap((#[trigger] self.months@[m])@)
    }

    /// Builds an empty calendar for `year`, with all twelve months present.
    pub fn new(year: i32) -> (c: Calendar)
        ensures
            c.wf(),
            c.year == year,
            forall|m: int, d: int| c.at(m, d) == Seq::<ReleaseView>::empty(),
            forall|m: int, d: int| !c.month_has_day(m, d),
    {
        let mut months: Vec<Vec<DayEntry>> = Vec::new();
        let mut i: usize = 0;
        while i < 12
            invariant
                0 <= i <= 12,
                months@.len() == i,
                forall|m: int| 0 <= m < i ==> (#[trigger] months@[m])@ =~= Seq::<DayEntry>::empty(),
            decreases 12 - i,
        {
            months.push(Vec::new());
            i = i + 1;
        }
        let c = Calendar { year, months };
        proof {
            assert forall|m: int, d: int| c.at(m, d) == Seq::<ReleaseView>::empty() && !c.month_has_day(
                m,
                d,
            ) by {
                if 1 <= m <= 12 {
                    assert(c.months@[m - 1]@ =~= Seq::<DayEntry>::empty());
                }
            }
        }
        c
    }
}

proof fn lemma_day_list_at(dm: Seq<DayEntry>, j: int)
    requires
        0 <= j < dm.len(),
        forall|i: int| 0 <= i < j ==> (#[trigger] dm[i]).day != dm[j].day,
    ensures
        day_list(dm, dm[j].day as int) == views_of(dm[j].releases@),
        has_day(dm, dm[j].day as int),
    decreases j,
{
    if j > 0 {
        lemma_day_list_at(dm.drop_first(), j - 1);
        assert(dm.drop_first()[j - 1] == dm[j]);
        assert forall|i: int| 0 <= i < j - 1 implies (#[trigger] dm.drop_first()[i]).day
            != dm.drop_first()[j - 1].day by {
            assert(dm.drop_first()[i] == dm[i + 1]);
        }
    }
}

proof fn lemma_day_list_absent(dm: Seq<DayEntry>, d: int)
    requires
        forall|i: int| 0 <= i < dm.len() ==> (#[trigger] dm[i]).day != d,
    ensures
        day_list(dm, d) == Seq::<ReleaseView>::empty(),
        !has_day(dm, d),
    decreases dm.len(),
{
    if dm.len() > 0 {
        lemma_day_list_absent(dm.drop_first(), d);
    }
}

proof fn lemma_day_list_update(dm: Seq<DayEntry>, j: int, e: DayEntry, d: int)
    requires
        0 <= j < dm.len(),
        e.day == dm[j].day,
        forall|i: int| 0 <= i < j ==> (#[trigger] dm[i]).day != dm[j].day,
    ensures
        day_list(dm.update(j, e), d) == if d == e.day as int {
            views_of(e.releases@)
        } else {
            day_list(dm, d)
        },
        has_day(dm.update(j, e), d) == has_day(dm, d),
    decreases j,
{
    let dm2 = dm.update(j, e);
    if j == 0 {
        assert(dm2[0] == e);
        assert(dm2.drop_first() =~= dm.drop_first());
    } else {
        assert(dm2[0] == dm[0]);
        assert(dm2.drop_first() =~= dm.drop_first().update(j - 1, e));
        assert(dm.drop_first()[j - 1] == dm[j]);
        assert forall|i: int| 0 <= i < j - 1 implies (#[trigger] dm.drop_first()[i]).day
            != dm.drop_first()[j - 1].day by {
            assert(dm.drop_first()[i] == dm[i + 1]);
        }
        lemma_day_list_update(dm.drop_first(), j - 1, e, d);
    }
}

proof fn lemma_day_list_push(dm: Seq<DayEntry>, e: DayEntry, d: int)
    requires
        forall|i: int| 0 <= i < dm.len() ==> (#[trigger] dm[i]).day != e.day,
    ensures
        day_list(dm.push(e), d) == if d == e.day as int {
            views_of(e.releases@)
        } else {
            day_list(dm, d)
        },
        has_day(dm.push(e), d) == (has_day(dm, d) || d == e.day as int),
    decreases dm.len(),
{
    if dm.len() == 0 {
        assert(dm.push(e)[0] == e);
        assert(dm.push(e).drop_first() =~= Seq::<DayEntry>::empty());
        assert(day_list(Seq::<DayEntry>::empty(), d) =~= Seq::<ReleaseView>::empty());
        assert(!has_day(Seq::<DayEntry>::empty(), d));
    } else {
        assert(dm.push(e)[0] == dm[0]);
        assert(dm.push(e).drop_first() =~= dm.drop_first().push(e));
        assert forall|i: int| 0 <= i < dm.drop_first().len() implies (#[trigger] dm.drop_first()[i]).day
            != e.day by {
            assert(dm.drop_first()[i] == dm[i + 1]);
        }
        lemma_day_list_push(dm.drop_first(), e, d);
    }
}

proof fn lemma_day_list_dupfree(dm: Seq<DayEntry>, d: int)
    requires
        forall|i: int| 0 <= i < dm.len() ==> wf_entry(#[trigger] dm[i]),
    ensures
        dupfree(day_list(dm, d)),
    decreases dm.len(),
{
    if dm.len() > 0 && dm[0].day != d {
        lemma_day_list_dupfree(dm.drop_first(), d);
    }
}

/// Decides whether `rs` already holds a release with `r`'s identity.
fn contains_release(rs: &Vec<Release>, r: &Release) -> (b: bool)
    ensures
        b == has_key(views_of(rs@), rel_key(r@)),
{
    let n = rs.len();
    let mut k: usize = 0;
    while k < n
        invariant
            0 <= k <= n,
            n == rs@.len(),
            forall|i: int| 0 <= i < k ==> rel_key(views_of(rs@)[i]) != rel_key(r@),
        decreases n - k,
    {
        if rs[k].eq(r) {
            assert(views_of(rs@)[k as int] == rs@[k as int]@);
            return true;
        }
        assert(views_of(rs@)[k as int] == rs@[k as int]@);
        k = k + 1;
    }
    false
}

impl Calendar {
    /// Records `release` under `month` and `day`, unless a release of the
    /// same identity already stands there; releases keep insertion order.
    pub fn add_release(&mut self, month: Month, day: u8, release: Release)
        requires
            old(self).wf(),
            release.wf(),
        ensures
            final(self).wf(),
            final(self).year == old(self).year,
            final(self).at(month.spec_number(), day as int) == add_one(
                old(self).at(month.spec_number(), day as int),
                release@,
            ),
            forall|m: int, d: int|
                m != month.spec_number() || d != day as int ==> final(self).at(m, d) == old(
                    self,
                ).at(m, d),
            forall|m: int, d: int|
                final(self).month_has_day(m, d) <==> (old(self).month_has_day(m, d) || (m
                    == month.spec_number() && d == day as int)),
    {
        let mi = (month.number() - 1) as usize;
        let ghost mnum = month.spec_number();
        let ghost dm0 = self.months@[mi as int]@;
        proof {
            assert(old(self).at(mnum, day as int) == day_list(dm0, day as int));
        }
        let n = self.months[mi].len();
        let mut j: usize = 0;
        while j < n && self.months[mi][j].day != day
            invariant
                0 <= j <= n,
                self == old(self),
                old(self).wf(),
                mi < 12,
                mi as int == mnum - 1,
                n == dm0.len(),
                dm0 == self.months@[mi as int]@,
                forall|i: int| 0 <= i < j ==> (#[trigger] dm0[i]).day != day,
            decreases n - j,
        {
            j = j + 1;
        }
        if j < n {
            let ghost e0 = dm0[j as int];
            proof {
                assert(e0.day == day);
                lemma_day_list_at(dm0, j as int);
            }
            let dup = contains_release(&self.months[mi][j].releases, &release);
            if !dup {
                self.months[mi][j].releases.push(release);
                proof {
                    let e1 = self.months@[mi as int]@[j as int];
                    let dmv = self.months@[mi as int]@;
                    assert(e1.day == day && e1.releases@ == e0.releases@.push(release));
                    assert(dmv =~= dm0.update(j as int, e1));
                    assert(views_of(e1.releases@) =~= views_of(e0.releases@).push(release@));
                    assert(dupfree(views_of(e1.releases@))) by {
                        let v1 = views_of(e1.releases@);
                        let v0 = views_of(e0.releases@);
                        assert forall|a: int, b: int|
                            0 <= a < b < v1.len() implies rel_key(v1[a]) != rel_key(v1[b]) by {
                            if b == v1.len() - 1 {
                                assert(v1[a] == v0[a]);
                                assert(!has_key(v0, rel_key(release@)));
                            } else {
                                assert(v1[a] == v0[a] && v1[b] == v0[b]);
                            }
                        }
                    }
                    assert(wf_entry(e1)) by {
                        assert forall|k: int|
                            0 <= k < e1.releases@.len() implies (#[trigger] e1.releases@[k]).wf() by {
                            if k < e0.releases@.len() {
                                assert(e1.releases@[k] == e0.releases@[k]);
                            } else {
                                assert(e1.releases@[k] == release);
                            }
                        }
                    }
                    assert(wf_daymap(dmv)) by {
                        assert forall|a: int, b: int|
                            0 <= a < b < dmv.len() implies (#[trigger] dmv[a]).day
                            != (#[trigger] dmv[b]).day by {
                            assert(dm0[a].day != dm0[b].day);
                        }
                        assert forall|a: int| 0 <= a < dmv.len() implies wf_entry(
                            #[trigger] dmv[a],
                        ) by {
                            if a != j as int {
                                assert(dmv[a] == dm0[a]);
                            }
                        }
                    }
                    assert forall|m: int, d: int| 1 <= m <= 12 implies self.at(m, d)
                        == if m == mnum && d == day as int {
                        add_one(day_list(dm0, day as int), release@)
                    } else {
                        old(self).at(m, d)
                    } by {
                        if m == mnum {
                            lemma_day_list_update(dm0, j as int, e1, d);
                        } else {
                            assert(self.months@[m - 1] == old(self).months@[m - 1]);
                        }
                    }
                    assert forall|m: int, d: int| self.month_has_day(m, d) <==> (old(
                        self,
                    ).month_has_day(m, d) || (m == mnum && d == day as int)) by {
                        if 1 <= m <= 12 {
                            if m == mnum {
                                lemma_day_list_update(dm0, j as int, e1, d);
                                if d == day as int {
                                    assert(has_day(dm0, d));
                                }
                            } else {
                                assert(self.months@[m - 1] == old(self).months@[m - 1]);
                            }
                        }
                    }
                    assert(self.wf()) by {
                        assert forall|m: int| 0 <= m < 12 implies wf_daymap(
                            (#[trigger] self.months@[m])@,
                        ) by {
                            if m != mi as int {
                                assert(self.months@[m] == old(self).months@[m]);
                            }
                        }
                    }
                }
            } else {
                proof {
                    assert(has_key(views_of(e0.releases@), rel_key(release@)));
                    assert forall|m: int, d: int| self.month_has_day(m, d) <==> (old(
                        self,
                    ).month_has_day(m, d) || (m == mnum && d == day as int)) by {
                        if m == mnum && d == day as int {
                            assert(old(self).month_has_day(m, d));
                        }
                    }
                }
            }
        } else {
            let mut rs: Vec<Release> = Vec::new();
            rs.push(release);
            let e = DayEntry { day, releases: rs };
            self.months[mi].push(e);
            proof {
                let dmv = self.months@[mi as int]@;
                let e1 = dmv[dmv.len() - 1];
                assert(dmv =~= dm0.push(e1));
                assert(e1.day == day && views_of(e1.releases@) =~= Seq::<
                    ReleaseView,
                >::empty().push(release@));
                lemma_day_list_absent(dm0, day as int);
                assert(!has_key(day_list(dm0, day as int), rel_key(release@)));
                assert(wf_entry(e1)) by {
                    assert(e1.releases@[0] == release);
                    assert(forall|k: int|
                        0 <= k < e1.releases@.len() ==> (#[trigger] e1.releases@[k]).wf());
                }
                assert(wf_daymap(dmv)) by {
                    assert forall|a: int, b: int|
                        0 <= a < b < dmv.len() implies (#[trigger] dmv[a]).day
                        != (#[trigger] dmv[b]).day by {
                        if b < dmv.len() - 1 {
                            assert(dm0[a].day != dm0[b].day);
                        } else {
                            assert(dmv[a] == dm0[a]);
                        }
                    }
                    assert forall|a: int| 0 <= a < dmv.len() implies wf_entry(
                        #[trigger] dmv[a],
                    ) by {
                        if a < dmv.len() - 1 {
                            assert(dmv[a] == dm0[a]);
                        }
                    }
                }
                assert forall|m: int, d: int| 1 <= m <= 12 implies self.at(m, d)
                    == if m == mnum && d == day as int {
                    add_one(day_list(dm0, day as int), release@)
                } else {
                    old(self).at(m, d)
                } by {
                    if m == mnum {
                        lemma_day_list_push(dm0, e1, d);
                    } else {
                        assert(self.months@[m - 1] == old(self).months@[m - 1]);
                    }
                }
                assert forall|m: int, d: int| self.month_has_day(m, d) <==> (old(
                    self,
                ).month_has_day(m, d) || (m == mnum && d == day as int)) by {
                    if 1 <= m <= 12 {
                        if m == mnum {
                            lemma_day_list_push(dm0, e1, d);
                        } else {
                            assert(self.months@[m - 1] == old(self).months@[m - 1]);
                        }
                    }
                }
                assert(self.wf()) by {
                    assert forall|m: int| 0 <= m < 12 implies wf_daymap(
                        (#[trigger] self.months@[m])@,
                    ) by {
                        if m != mi as int {
                            assert(self.months@[m] == old(self).months@[m]);
                        }
                    }
                }
            }
        }
    }
}

impl Calendar {
    /// Returns the releases recorded at `month` and `day`, or `None` when no
    /// entry stands there.
    pub fn get_releases(&self, month: Month, day: u8) -> (r: Option<&Vec<Release>>)
        requires
            self.wf(),
        ensures
            match r {
                Some(v) => self.month_has_day(month.spec_number(), day as int) && views_of(v@)
                    == self.at(month.spec_number(), day as int),
                None => !self.month_has_day(month.spec_number(), day as int),
            },
    {
        let mi = (month.number() - 1) as usize;
        let ghost dm = self.months@[mi as int]@;
        let n = self.months[mi].len();
        let mut j: usize = 0;
        while j < n
            invariant
                0 <= j <= n,
                self.wf(),
                mi < 12,
                mi as int == month.spec_number() - 1,
                n == dm.len(),
                dm == self.months@[mi as int]@,
                forall|i: int| 0 <= i < j ==> (#[trigger] dm[i]).day != day,
            decreases n - j,
        {
            if self.months[mi][j].day == day {
                proof {
                    lemma_day_list_at(dm, j as int);
                }
                return Some(&self.months[mi][j].releases);
            }
            j = j + 1;
        }
        proof {
            lemma_day_list_absent(dm, day as int);
        }
        None
    }
}

proof fn lemma_add_all_snoc(s: Seq<ReleaseView>, u: Seq<ReleaseView>, x: ReleaseView)
    ensures
        add_all(s, u.push(x)) == add_one(add_all(s, u), x),
    decreases u.len(),
{
    if u.len() == 0 {
        assert(u.push(x)[0] == x);
        assert(u.push(x).drop_first() =~= Seq::<ReleaseView>::empty());
        assert(add_all(add_one(s, x), Seq::<ReleaseView>::empty()) == add_one(s, x));
    } else {
        assert(u.push(x)[0] == u[0]);
        assert(u.push(x).drop_first() =~= u.drop_first().push(x));
        lemma_add_all_snoc(add_one(s, u[0]), u.drop_first(), x);
    }
}

/// Inserts every release of `rs` at one (month, day) slot of `c`.
fn absorb_day(c: &mut Calendar, month: Month, day: u8, rs: &Vec<Release>)
    requires
        old(c).wf(),
        forall|k: int| 0 <= k < rs@.len() ==> (#[trigger] rs@[k]).wf(),
    ensures
        final(c).wf(),
        final(c).year == old(c).year,
        final(c).at(month.spec_number(), day as int) == add_all(
            old(c).at(month.spec_number(), day as int),
            views_of(rs@),
        ),
        forall|m: int, d: int|
            m != month.spec_number() || d != day as int ==> final(c).at(m, d) == old(c).at(m, d),
    {
    let n = rs.len();
    let ghost mnum = month.spec_number();
    let mut k: usize = 0;
    proof {
        assert(add_all(old(c).at(mnum, day as int), views_of(rs@).take(0)) == old(c).at(
            mnum,
            day as int,
        )) by {
            assert(views_of(rs@).take(0) =~= Seq::<ReleaseView>::empty());
        }
    }
    while k < n
        invariant
            0 <= k <= n,
            c.wf(),
            c.year == old(c).year,
            n == rs@.len(),
            mnum == month.spec_number(),
            forall|i: int| 0 <= i < rs@.len() ==> (#[trigger] rs@[i]).wf(),
            c.at(mnum, day as int) == add_all(
                old(c).at(mnum, day as int),
                views_of(rs@).take(k as int),
            ),
            forall|m: int, d: int|
                m != mnum || d != day as int ==> c.at(m, d) == old(c).at(m, d),
        decreases n - k,
    {
        let rel = rs[k].clone();
        proof {
            assert(rel@ == rs@[k as int]@);
        }
        c.add_release(month, day, rel);
        proof {
            lemma_add_all_snoc(
                old(c).at(mnum, day as int),
                views_of(rs@).take(k as int),
                rs@[k as int]@,
            );
            assert(views_of(rs@).take(k + 1) =~= views_of(rs@).take(k as int).push(
                rs@[k as int]@,
            ));
        }
        k = k + 1;
    }
    proof {
        assert(views_of(rs@).take(n as int) =~= views_of(rs@));
    }
}

/// Inserts every release of the day map `dm` into month `month` of `c`.
fn absorb_month(c: &mut Calendar, month: Month, dm: &Vec<DayEntry>)
    requires
        old(c).wf(),
        wf_daymap(dm@),
    ensures
        final(c).wf(),
        final(c).year == old(c).year,
        forall|d: int|
            final(c).at(month.spec_number(), d) == add_all(
                old(c).at(month.spec_number(), d),
                day_list(dm@, d),
            ),
        forall|m: int, d: int|
            m != month.spec_number() ==> final(c).at(m, d) == old(c).at(m, d),
    {
    let n = dm.len();
    let ghost mnum = month.spec_number();
    let mut j: usize = 0;
    proof {
        assert forall|d: int| old(c).at(mnum, d) == add_all(
            old(c).at(mnum, d),
            day_list(dm@.take(0), d),
        ) by {
            assert(dm@.take(0) =~= Seq::<DayEntry>::empty());
            assert(day_list(Seq::<DayEntry>::empty(), d) =~= Seq::<ReleaseView>::empty());
        }
    }
    while j < n
        invariant
            0 <= j <= n,
            c.wf(),
            c.year == old(c).year,
            n == dm@.len(),
            mnum == month.spec_number(),
            wf_daymap(dm@),
            forall|d: int|
                c.at(mnum, d) == add_all(old(c).at(mnum, d), day_list(dm@.take(j as int), d)),
            forall|m: int, d: int| m != mnum ==> c.at(m, d) == old(c).at(m, d),
        decreases n - j,
    {
        let ghost e = dm@[j as int];
        let ghost pre = *c;
        let day = dm[j].day;
        proof {
            assert(wf_entry(e));
            assert forall|i: int| 0 <= i < dm@.take(j as int).len() implies (#[trigger] dm@.take(
                j as int,
            )[i]).day != e.day by {
                assert(dm@.take(j as int)[i] == dm@[i]);
            }
            lemma_day_list_absent(dm@.take(j as int), e.day as int);
            assert(c.at(mnum, day as int) == add_all(
                old(c).at(mnum, day as int),
                Seq::<ReleaseView>::empty(),
            ));
            assert(c.at(mnum, day as int) == old(c).at(mnum, day as int));
        }
        absorb_day(c, month, day, &dm[j].releases);
        proof {
            assert(dm@.take(j + 1) =~= dm@.take(j as int).push(e));
            assert forall|d: int| c.at(mnum, d) == add_all(
                old(c).at(mnum, d),
                day_list(dm@.take(j + 1), d),
            ) by {
                lemma_day_list_push(dm@.take(j as int), e, d);
                if d == day as int {
                    assert(c.at(mnum, d) == add_all(pre.at(mnum, d), views_of(e.releases@)));
                } else {
                    assert(c.at(mnum, d) == pre.at(mnum, d));
                }
            }
        }
        j = j + 1;
    }
    proof {
        assert(dm@.take(n as int) =~= dm@);
    }
}

/// Inserts every release of `src` into `c`, month by month.
fn absorb(c: &mut Calendar, src: &Calendar)
    requires
        old(c).wf(),
        src.wf(),
    ensures
        final(c).wf(),
        final(c).year == old(c).year,
        forall|m: int, d: int| final(c).at(m, d) == add_all(old(c).at(m, d), src.at(m, d)),
    {
    let mut mi: usize = 0;
    while mi < 12
        invariant
            0 <= mi <= 12,
            c.wf(),
            src.wf(),
            c.year == old(c).year,
            forall|m: int, d: int|
                1 <= m <= mi as int ==> c.at(m, d) == add_all(old(c).at(m, d), src.at(m, d)),
            forall|m: int, d: int| !(1 <= m <= mi as int) ==> c.at(m, d) == old(c).at(m, d),
        decreases 12 - mi,
    {
        let month = Month::from_number((mi + 1) as u8);
        let ghost pre = *c;
        absorb_month(c, month, &src.months[mi]);
        proof {
            assert forall|m: int, d: int| 1 <= m <= mi + 1 implies c.at(m, d) == add_all(
                old(c).at(m, d),
                src.at(m, d),
            ) by {
                if m == mi + 1 {
                    assert(c.at(m, d) == add_all(pre.at(m, d), day_list(src.months@[mi as int]@, d)));
                    assert(src.at(m, d) == day_list(src.months@[mi as int]@, d));
                    assert(pre.at(m, d) == old(c).at(m, d));
                } else {
                    assert(c.at(m, d) == pre.at(m, d));
                }
            }
        }
        mi = mi + 1;
    }
    proof {
        assert forall|m: int, d: int| c.at(m, d) == add_all(old(c).at(m, d), src.at(m, d)) by {
            if !(1 <= m <= 12) {
                assert(src.at(m, d) == Seq::<ReleaseView>::empty());
                assert(add_all(old(c).at(m, d), Seq::<ReleaseView>::empty()) == old(c).at(m, d));
            }
        }
    }
}

proof fn lemma_has_key_push(s: Seq<ReleaseView>, r: ReleaseView, k: (Seq<char>, Seq<char>))
    ensures
        has_key(s.push(r), k) == (has_key(s, k) || rel_key(r) == k),
{
    if has_key(s, k) {
        let i = choose|i: int| 0 <= i < s.len() && rel_key(s[i]) == k;
        assert(s.push(r)[i] == s[i]);
    }
    if rel_key(r) == k {
        assert(s.push(r)[s.len() as int] == r);
    }
    if has_key(s.push(r), k) {
        let i = choose|i: int| 0 <= i < s.push(r).len() && rel_key(s.push(r)[i]) == k;
        if i < s.len() {
            assert(s[i] == s.push(r)[i]);
        }
    }
}

proof fn lemma_filter_agree(
    t: Seq<ReleaseView>,
    p: spec_fn(ReleaseView) -> bool,
    q: spec_fn(ReleaseView) -> bool,
)
    requires
        forall|i: int| 0 <= i < t.len() ==> p(t[i]) == q(t[i]),
    ensures
        t.filter(p) == t.filter(q),
    decreases t.len(),
{
    reveal(Seq::filter);
    if t.len() > 0 {
        assert forall|i: int| 0 <= i < t.drop_last().len() implies p(t.drop_last()[i]) == q(
            t.drop_last()[i],
        ) by {
            assert(t.drop_last()[i] == t[i]);
        }
        lemma_filter_agree(t.drop_last(), p, q);
        assert(p(t.last()) == q(t.last()));
    }
}

proof fn lemma_filter_all_true(t: Seq<ReleaseView>, p: spec_fn(ReleaseView) -> bool)
    requires
        forall|i: int| 0 <= i < t.len() ==> p(t[i]),
    ensures
        t.filter(p) == t,
    decreases t.len(),
{
    reveal(Seq::filter);
    if t.len() > 0 {
        assert forall|i: int| 0 <= i < t.drop_last().len() implies p(t.drop_last()[i]) by {
            assert(t.drop_last()[i] == t[i]);
        }
        lemma_filter_all_true(t.drop_last(), p);
        assert(p(t.last()));
        assert(t.drop_last().push(t.last()) =~= t);
    }
}

proof fn lemma_add_all_merged(s: Seq<ReleaseView>, t: Seq<ReleaseView>)
    requires
        dupfree(t),
    ensures
        add_all(s, t) == merged(s, t),
    decreases t.len(),
{
    let p = keeps(s);
    if t.len() == 0 {
        reveal(Seq::filter);
        assert(t.filter(p) =~= Seq::<ReleaseView>::empty());
        assert(s + t.filter(p) =~= s);
    } else {
        let t0 = t[0];
        let tr = t.drop_first();
        assert(dupfree(tr)) by {
            assert forall|a: int, b: int| 0 <= a < b < tr.len() implies rel_key(tr[a]) != rel_key(
                tr[b],
            ) by {
                assert(tr[a] == t[a + 1] && tr[b] == t[b + 1]);
            }
        }
        assert(t =~= seq![t0] + tr);
        tr.lemma_filter_prepend(t0, p);
        if has_key(s, rel_key(t0)) {
            assert(add_one(s, t0) == s);
            assert(add_all(s, t) == add_all(s, tr));
            lemma_add_all_merged(s, tr);
            assert(!p(t0));
            assert(t.filter(p) == Seq::<ReleaseView>::empty() + tr.filter(p));
            assert(Seq::<ReleaseView>::empty() + tr.filter(p) =~= tr.filter(p));
        } else {
            let s2 = s.push(t0);
            assert(add_one(s, t0) == s2);
            assert(add_all(s, t) == add_all(s2, tr));
            lemma_add_all_merged(s2, tr);
            let p2 = keeps(s2);
            assert forall|i: int| 0 <= i < tr.len() implies p2(tr[i]) == p(tr[i]) by {
                lemma_has_key_push(s, t0, rel_key(tr[i]));
                assert(tr[i] == t[i + 1]);
                assert(rel_key(t[i + 1]) != rel_key(t[0]));
            }
            lemma_filter_agree(tr, p2, p);
            assert(p(t0));
            assert(t.filter(p) == seq![t0] + tr.filter(p));
            assert(s + (seq![t0] + tr.filter(p)) =~= s2 + tr.filter(p));
            assert(merged(s, t) == s2 + tr.filter(p2));
        }
    }
}

impl Calendar {
    /// Builds a new calendar holding every release of `self` and of `other`:
    /// all of `self`'s releases first, in their order, then those of `other`
    /// whose identity is new for their day, in `other`'s order. The result
    /// carries `self`'s year.
    pub fn merge(&self, other: &Calendar) -> (c: Calendar)
        requires
            self.wf(),
            other.wf(),
        ensures
            c.wf(),
            c.year == self.year,
            forall|m: int, d: int| c.at(m, d) == merged(self.at(m, d), other.at(m, d)),
    {
        let mut c = Calendar::new(self.year);
        let ghost c0 = c;
        absorb(&mut c, self);
        let ghost c1 = c;
        absorb(&mut c, other);
        proof {
            assert forall|m: int, d: int| c.at(m, d) == merged(self.at(m, d), other.at(m, d)) by {
                let a = self.at(m, d);
                let b = other.at(m, d);
                lemma_wf_at_dupfree(*self, m, d);
                lemma_wf_at_dupfree(*other, m, d);
                assert(c1.at(m, d) == add_all(c0.at(m, d), a));
                assert(c0.at(m, d) == Seq::<ReleaseView>::empty());
                lemma_add_all_merged(Seq::<ReleaseView>::empty(), a);
                lemma_filter_all_true(a, keeps(Seq::<ReleaseView>::empty()));
                assert(Seq::<ReleaseView>::empty() + a =~= a);
                assert(c1.at(m, d) == a);
                lemma_add_all_merged(a, b);
            }
        }
        c
    }
}

/// The day lists of a well-formed calendar never repeat a release identity.
pub proof fn lemma_wf_at_dupfree(c: Calendar, m: int, d: int)
    requires
        c.wf(),
    ensures
        dupfree(c.at(m, d)),
{
    if 1 <= m <= 12 {
        lemma_day_list_dupfree(c.months@[m - 1]@, d);
    }
}

// ---------------------------------------------------------------------------
// Laws of merging
// ---------------------------------------------------------------------------

proof fn lemma_has_key_concat(x: Seq<ReleaseView>, y: Seq<ReleaseView>, k: (Seq<char>, Seq<char>))
    ensures
        has_key(x + y, k) == (has_key(x, k) || has_key(y, k)),
{
    if has_key(x, k) {
        let i = choose|i: int| 0 <= i < x.len() && rel_key(x[i]) == k;
        assert((x + y)[i] == x[i]);
    }
    if has_key(y, k) {
        let i = choose|i: int| 0 <= i < y.len() && rel_key(y[i]) == k;
        assert((x + y)[x.len() + i] == y[i]);
    }
    if has_key(x + y, k) {
        let i = choose|i: int| 0 <= i < (x + y).len() && rel_key((x + y)[i]) == k;
        if i < x.len() {
            assert(x[i] == (x + y)[i]);
        } else {
            assert(y[i - x.len()] == (x + y)[i]);
        }
    }
}

proof fn lemma_merged_keys(x: Seq<ReleaseView>, y: Seq<ReleaseView>)
    ensures
        forall|k: (Seq<char>, Seq<char>)|
            #[trigger] has_key(merged(x, y), k) == (has_key(x, k) || has_key(y, k)),
{
    let p = keeps(x);
    assert forall|k: (Seq<char>, Seq<char>)| #[trigger] has_key(merged(x, y), k) == (has_key(x, k)
        || has_key(y, k)) by {
        lemma_has_key_concat(x, y.filter(p), k);
        if has_key(y.filter(p), k) {
            let i = choose|i: int| 0 <= i < y.filter(p).len() && rel_key(y.filter(p)[i]) == k;
            y.lemma_filter_contains_rev(p, y.filter(p)[i]);
            assert(y.contains(y.filter(p)[i]));
            let j = choose|j: int| 0 <= j < y.len() && y[j] == y.filter(p)[i];
            assert(rel_key(y[j]) == k);
        }
        if has_key(y, k) && !has_key(x, k) {
            let i = choose|i: int| 0 <= i < y.len() && rel_key(y[i]) == k;
            assert(p(y[i]));
            y.lemma_filter_contains(p, i);
            let j = choose|j: int| 0 <= j < y.filter(p).len() && y.filter(p)[j] == y[i];
            assert(rel_key(y.filter(p)[j]) == k);
        }
    }
}

/// Law: merge content is commutative. At every (month, day) slot, the set of
/// release identities in `a.merge(b)` equals the set in `b.merge(a)`, though
/// the insertion order of the two results may differ.
pub proof fn lemma_merge_commutative_on_content(a: Calendar, b: Calendar, m: int, d: int)
    ensures
        key_set(merged(a.at(m, d), b.at(m, d))) == key_set(merged(b.at(m, d), a.at(m, d))),
{
    lemma_merged_keys(a.at(m, d), b.at(m, d));
    lemma_merged_keys(b.at(m, d), a.at(m, d));
    assert(key_set(merged(a.at(m, d), b.at(m, d))) =~= key_set(merged(b.at(m, d), a.at(m, d))));
}

/// Law: merge is exactly the union. At every (month, day) slot, a release
/// identity is present in `a.merge(b)` if and only if it is present in `a`
/// or in `b` there.
pub proof fn lemma_merge_superset(a: Calendar, b: Calendar, m: int, d: int)
    ensures
        key_set(merged(a.at(m, d), b.at(m, d))) == key_set(a.at(m, d)).union(key_set(b.at(m, d))),
{
    lemma_merged_keys(a.at(m, d), b.at(m, d));
    assert(key_set(merged(a.at(m, d), b.at(m, d))) =~= key_set(a.at(m, d)).union(
        key_set(b.at(m, d)),
    ));
}

/// Law: merging a calendar with itself changes nothing. At every
/// (month, day) slot, `a.merge(a)` holds exactly `a`'s releases, in order.
pub proof fn lemma_merge_idempotent(a: Calendar, m: int, d: int)
    requires
        a.wf(),
    ensures
        merged(a.at(m, d), a.at(m, d)) == a.at(m, d),
{
    let x = a.at(m, d);
    lemma_wf_at_dupfree(a, m, d);
    let p = keeps(x);
    assert(x.all(|r: ReleaseView| !p(r))) by {
        assert forall|i: int| 0 <= i < x.len() implies !p(x[i]) by {
            assert(rel_key(x[i]) == rel_key(x[i]) && has_key(x, rel_key(x[i])));
        }
        assert(forall|i: int| 0 <= i < x.len() ==> !p(x[i]));
    }
    x.lemma_all_neg_filter_empty(p);
    assert(x.filter(p) =~= Seq::<ReleaseView>::empty());
    assert(x + x.filter(p) =~= x);
}

} // verus!
